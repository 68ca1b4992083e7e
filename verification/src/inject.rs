//! Host-side command injection for agent iteration.
//!
//! While the runtime holds an exclusive grab on the touchscreen, external
//! event injection is unreliable; the host instead polls a small command file
//! and hands its text to the injector. Lines:
//!
//!   tap X Y          — panel/render px
//!   tap-logical X Y  — logical UI px (alias `tapl`)
//!   shot             — dump the current gray frame (alias `screenshot`)
//!
//! A tap is synthesized as a few frames of contact then release, fed into the
//! same packed-touch path the real digitizer uses.

use vstd::prelude::*;

use crate::chars::{dec_digits, is_ws, is_ws_exec, push_decimal};
use crate::text::split_lines;
use crate::touch::{pack_touch, spec_pack_touch};

verus! {

/// Frames a synthetic tap holds contact.
pub const DOWN_FRAMES: u32 = 4;
/// Frames of release after a synthetic tap.
pub const UP_FRAMES: u32 = 2;

/// Panel geometry the injector maps taps through.
#[derive(Clone, Copy, Debug)]
pub struct Geometry {
    pub logical_w: usize,
    pub logical_h: usize,
    /// Render pixels per logical pixel.
    pub density: usize,
    pub render_w: usize,
    pub render_h: usize,
}

/// Where a synthetic tap is in its contact/release sequence.
#[derive(Clone, Copy, Debug, PartialEq, Eq, Structural)]
pub enum Phase {
    Idle,
    Down { packed: u32, left: u32 },
    Up { left: u32 },
}

/// The synthetic-touch injector.
pub struct Injector {
    cmd_path: String,
    shot_path: String,
    phase: Phase,
    /// Request a framebuffer dump after the next present.
    pub want_shot: bool,
}

/// `x - 1`, saturating at 0.
pub open spec fn dec(x: u32) -> u32 {
    if x == 0 {
        0
    } else {
        (x - 1) as u32
    }
}

/// One tick of the tap sequence: the next phase and the synthetic touches
/// (`None` while idle; a release frame has no touches).
pub open spec fn step(p: Phase) -> (Phase, Option<Seq<u32>>) {
    match p {
        Phase::Idle => (Phase::Idle, None),
        Phase::Down { packed, left } => {
            let l = dec(left);
            (
                if l == 0 {
                    Phase::Up { left: UP_FRAMES }
                } else {
                    Phase::Down { packed, left: l }
                },
                Some(seq![packed]),
            )
        },
        Phase::Up { left } => {
            let l = dec(left);
            (
                if l == 0 {
                    Phase::Idle
                } else {
                    Phase::Up { left: l }
                },
                Some(Seq::empty()),
            )
        },
    }
}

/// Whitespace-split scan of `s`: the finished words and the word in progress.
pub open spec fn words_acc(s: Seq<char>) -> (Seq<Seq<char>>, Seq<char>)
    decreases s.len(),
{
    if s.len() == 0 {
        (Seq::empty(), Seq::empty())
    } else {
        let (ws, cur) = words_acc(s.drop_last());
        let c = s.last();
        if is_ws(c) {
            if cur.len() > 0 {
                (ws.push(cur), Seq::empty())
            } else {
                (ws, cur)
            }
        } else {
            (ws, cur.push(c))
        }
    }
}

/// The whitespace-separated words of `s`.
pub open spec fn words_of(s: Seq<char>) -> Seq<Seq<char>> {
    let (ws, cur) = words_acc(s);
    if cur.len() > 0 {
        ws.push(cur)
    } else {
        ws
    }
}

/// Decimal value of a digit string.
pub open spec fn digits_value(s: Seq<char>) -> int
    decreases s.len(),
{
    if s.len() == 0 {
        0
    } else {
        digits_value(s.drop_last()) * 10 + (s.last() as int - '0' as int)
    }
}

/// Every char is an ASCII digit.
pub open spec fn all_digits(s: Seq<char>) -> bool {
    forall|i: int| 0 <= i < s.len() ==> '0' <= #[trigger] s[i] <= '9'
}

/// A decimal u32 as `str::parse::<u32>` reads it: an optional '+', then one
/// or more digits whose value fits.
pub open spec fn parse_u32(s: Seq<char>) -> Option<u32> {
    let body = if s.len() > 0 && s[0] == '+' {
        s.drop_first()
    } else {
        s
    };
    if body.len() > 0 && all_digits(body) && digits_value(body) <= u32::MAX {
        Some(digits_value(body) as u32)
    } else {
        None
    }
}

proof fn lemma_digits_prefix(s: Seq<char>, i: int)
    requires
        all_digits(s),
        0 <= i <= s.len(),
    ensures
        0 <= digits_value(s.take(i)) <= digits_value(s),
    decreases s.len(),
{
    if s.len() > 0 {
        let d = s.drop_last();
        assert(all_digits(d)) by {
            assert forall|k: int| 0 <= k < d.len() implies '0' <= #[trigger] d[k] <= '9' by {
                assert(d[k] == s[k]);
            }
        }
        if i == s.len() {
            assert(s.take(i) =~= s);
            lemma_digits_prefix(d, d.len() as int);
            assert(d.take(d.len() as int) =~= d);
        } else {
            lemma_digits_prefix(d, i);
            assert(d.take(i) =~= s.take(i));
            lemma_digits_prefix(d, d.len() as int);
            assert(d.take(d.len() as int) =~= d);
        }
    }
}

/// Parse a decimal u32 (see `parse_u32`).
pub fn parse_u32_chars(s: &Vec<char>) -> (r: Option<u32>)
    ensures
        r == parse_u32(s@),
{
    let start: usize = if s.len() > 0 && s[0] == '+' {
        1
    } else {
        0
    };
    let ghost body = if s@.len() > 0 && s@[0] == '+' {
        s@.drop_first()
    } else {
        s@
    };
    proof {
        assert(body =~= s@.subrange(start as int, s@.len() as int));
    }
    if start >= s.len() {
        return None;
    }
    let mut value: u32 = 0;
    let mut i: usize = start;
    while i < s.len()
        invariant
            start <= i <= s@.len(),
            start < s@.len(),
            body == (if s@.len() > 0 && s@[0] == '+' {
                s@.drop_first()
            } else {
                s@
            }),
            body =~= s@.subrange(start as int, s@.len() as int),
            all_digits(body.take(i - start)),
            value as int == digits_value(body.take(i - start)),
        decreases s@.len() - i,
    {
        let c = s[i];
        let ghost k = i - start;
        proof {
            assert(body.take(k + 1).drop_last() =~= body.take(k));
            assert(body[k] == c);
        }
        if !('0' <= c && c <= '9') {
            proof {
                assert(!all_digits(body));
            }
            return None;
        }
        let digit = (c as u32) - ('0' as u32);
        let next = match value.checked_mul(10) {
            Some(m) => m.checked_add(digit),
            None => None,
        };
        match next {
            Some(n) => {
                value = n;
            },
            None => {
                proof {
                    if all_digits(body) {
                        lemma_digits_prefix(body, k + 1);
                    }
                }
                return None;
            },
        }
        i = i + 1;
        proof {
            assert forall|j: int| 0 <= j < body.take(i - start).len() implies '0' <= #[trigger] body.take(
                i - start,
            )[j] <= '9' by {
                if j < k {
                    assert(body.take(i - start)[j] == body.take(k)[j]);
                }
            }
        }
    }
    proof {
        assert(body.take(i - start) =~= body);
    }
    Some(value)
}

/// `w` spells `lit`.
pub open spec fn is_word(w: Seq<char>, lit: Seq<char>) -> bool {
    w == lit
}

fn word_is(w: &Vec<char>, lit: &[char]) -> (r: bool)
    ensures
        r == (w@ == lit@),
{
    if w.len() != lit.len() {
        return false;
    }
    let mut i: usize = 0;
    while i < w.len()
        invariant
            w@.len() == lit@.len(),
            0 <= i <= w@.len(),
            forall|j: int| 0 <= j < i ==> w@[j] == lit@[j],
        decreases w@.len() - i,
    {
        if w[i] != lit[i] {
            return false;
        }
        i = i + 1;
    }
    assert(w@ =~= lit@);
    true
}

/// Abstract injector state.
pub struct InjectorView {
    pub phase: Phase,
    pub want_shot: bool,
}

/// Logical coordinate of a render coordinate: divided by the density (at
/// least 1) and clamped to the last logical pixel.
pub open spec fn render_to_logical(r: u32, density: usize, logical: usize) -> u32 {
    let dens = if density as u32 == 0 {
        1u32
    } else {
        density as u32
    };
    let bound = if logical == 0 {
        0u32
    } else {
        (logical - 1) as u32
    };
    if r / dens <= bound {
        (r / dens) as u32
    } else {
        bound
    }
}

/// The tap phase a render-space tap at (rx, ry) starts.
pub open spec fn tap_phase(rx: u32, ry: u32, g: Geometry) -> Phase {
    Phase::Down {
        packed: spec_pack_touch(
            1,
            render_to_logical(rx, g.density, g.logical_w),
            render_to_logical(ry, g.density, g.logical_h),
        ),
        left: DOWN_FRAMES,
    }
}

/// `a * b`, saturating at `u32::MAX`.
pub open spec fn sat_mul(a: u32, b: u32) -> u32 {
    if a * b > u32::MAX {
        u32::MAX
    } else {
        (a * b) as u32
    }
}

fn sat_mul_exec(a: u32, b: u32) -> (r: u32)
    ensures
        r == sat_mul(a, b),
{
    assert((a as u64) * (b as u64) <= u64::MAX) by (nonlinear_arith)
        requires
            a <= u32::MAX,
            b <= u32::MAX,
    ;
    let p: u64 = (a as u64) * (b as u64);
    if p > u32::MAX as u64 {
        u32::MAX
    } else {
        p as u32
    }
}

/// The effect of one command line (given by its words).
pub open spec fn apply_words(st: InjectorView, w: Seq<Seq<char>>, g: Geometry) -> InjectorView {
    if w.len() == 0 || w[0].len() == 0 || w[0][0] == '#' {
        st
    } else if w.len() == 1 && (is_word(w[0], seq!['s', 'h', 'o', 't']) || is_word(
        w[0],
        seq!['s', 'c', 'r', 'e', 'e', 'n', 's', 'h', 'o', 't'],
    )) {
        InjectorView { want_shot: true, ..st }
    } else if w.len() == 3 && is_word(w[0], seq!['t', 'a', 'p']) {
        match (parse_u32(w[1]), parse_u32(w[2])) {
            (Some(x), Some(y)) => InjectorView { phase: tap_phase(x, y, g), ..st },
            _ => st,
        }
    } else if w.len() == 3 && (is_word(
        w[0],
        seq!['t', 'a', 'p', '-', 'l', 'o', 'g', 'i', 'c', 'a', 'l'],
    ) || is_word(w[0], seq!['t', 'a', 'p', 'l'])) {
        match (parse_u32(w[1]), parse_u32(w[2])) {
            (Some(lx), Some(ly)) => InjectorView {
                phase: tap_phase(
                    sat_mul(lx, g.density as u32),
                    sat_mul(ly, g.density as u32),
                    g,
                ),
                ..st
            },
            _ => st,
        }
    } else {
        st
    }
}

/// The effect of the command lines `lines`, in order.
pub open spec fn apply_lines(st: InjectorView, lines: Seq<Seq<char>>, g: Geometry) -> InjectorView
    decreases lines.len(),
{
    if lines.len() == 0 {
        st
    } else {
        apply_words(apply_lines(st, lines.drop_last(), g), words_of(lines.last()), g)
    }
}

/// The effect of a command file's text.
pub open spec fn apply_commands(st: InjectorView, text: Seq<char>, g: Geometry) -> InjectorView {
    apply_lines(st, split_lines(text), g)
}

impl View for Injector {
    type V = InjectorView;

    closed spec fn view(&self) -> InjectorView {
        InjectorView { phase: self.phase, want_shot: self.want_shot }
    }
}

impl Injector {
    /// An idle injector reading commands from `cmd_path` and dumping frames
    /// to `shot_path`.
    pub fn new(cmd_path: String, shot_path: String) -> (r: Injector)
        ensures
            r@ == (InjectorView { phase: Phase::Idle, want_shot: false }),
            r.cmd_path_view() == cmd_path@,
            r.shot_path_view() == shot_path@,
    {
        Injector { cmd_path, shot_path, phase: Phase::Idle, want_shot: false }
    }

    /// The command file path.
    pub closed spec fn cmd_path_view(&self) -> Seq<char> {
        self.cmd_path@
    }

    /// The frame-dump path.
    pub closed spec fn shot_path_view(&self) -> Seq<char> {
        self.shot_path@
    }

    /// Where frame dumps go.
    pub fn shot_path(&self) -> (r: &str)
        ensures
            r@ == self.shot_path_view(),
    {
        self.shot_path.as_str()
    }

    /// Where commands are read from.
    pub fn cmd_path(&self) -> (r: &str)
        ensures
            r@ == self.cmd_path_view(),
    {
        self.cmd_path.as_str()
    }

    /// No synthetic tap is in flight (the host polls the command file only then).
    pub fn is_idle(&self) -> (r: bool)
        ensures
            r == (self@.phase == Phase::Idle),
    {
        match self.phase {
            Phase::Idle => true,
            _ => false,
        }
    }

    /// Take the frame-dump request.
    pub fn take_shot_request(&mut self) -> (r: bool)
        ensures
            r == old(self)@.want_shot,
            final(self)@ == (InjectorView { want_shot: false, ..old(self)@ }),
            final(self).shot_path_view() == old(self).shot_path_view(),
            final(self).cmd_path_view() == old(self).cmd_path_view(),
    {
        let r = self.want_shot;
        self.want_shot = false;
        r
    }

    /// Start a synthetic tap at render px (rx, ry).
    fn start_tap_render(&mut self, rx: u32, ry: u32, geometry: &Geometry)
        ensures
            final(self)@ == (InjectorView { phase: tap_phase(rx, ry, *geometry), ..old(self)@ }),
            final(self).shot_path_view() == old(self).shot_path_view(),
            final(self).cmd_path_view() == old(self).cmd_path_view(),
    {
        let d = geometry.density as u32;
        let dens = if d == 0 {
            1
        } else {
            d
        };
        let bw: u32 = if geometry.logical_w == 0 {
            0
        } else {
            (geometry.logical_w - 1) as u32
        };
        let bh: u32 = if geometry.logical_h == 0 {
            0
        } else {
            (geometry.logical_h - 1) as u32
        };
        let lx = if rx / dens <= bw {
            rx / dens
        } else {
            bw
        };
        let ly = if ry / dens <= bh {
            ry / dens
        } else {
            bh
        };
        let packed = pack_touch(1, lx, ly);
        self.phase = Phase::Down { packed, left: DOWN_FRAMES };
    }

    /// Apply one line's words.
    fn apply_line(&mut self, w: &Vec<Vec<char>>, geometry: &Geometry)
        ensures
            final(self)@ == apply_words(old(self)@, w@.map_values(|v: Vec<char>| v@), *geometry),
            final(self).shot_path_view() == old(self).shot_path_view(),
            final(self).cmd_path_view() == old(self).cmd_path_view(),
    {
        let ghost ws = w@.map_values(|v: Vec<char>| v@);
        if w.len() == 0 || w[0].len() == 0 || w[0][0] == '#' {
            return;
        }
        assert(ws[0] == w@[0]@);
        if w.len() == 1 && (word_is(&w[0], &['s', 'h', 'o', 't']) || word_is(
            &w[0],
            &['s', 'c', 'r', 'e', 'e', 'n', 's', 'h', 'o', 't'],
        )) {
            self.want_shot = true;
            return;
        }
        if w.len() != 3 {
            return;
        }
        assert(ws[1] == w@[1]@ && ws[2] == w@[2]@);
        let logical = if word_is(&w[0], &['t', 'a', 'p']) {
            false
        } else if word_is(&w[0], &['t', 'a', 'p', '-', 'l', 'o', 'g', 'i', 'c', 'a', 'l'])
            || word_is(&w[0], &['t', 'a', 'p', 'l']) {
            true
        } else {
            return;
        };
        let x = parse_u32_chars(&w[1]);
        let y = parse_u32_chars(&w[2]);
        match (x, y) {
            (Some(x), Some(y)) => {
                if logical {
                    let d = geometry.density as u32;
                    let rx = sat_mul_exec(x, d);
                    let ry = sat_mul_exec(y, d);
                    self.start_tap_render(rx, ry, geometry);
                } else {
                    self.start_tap_render(x, y, geometry);
                }
            },
            _ => {},
        }
    }

    /// Apply every line of a command file's text, in order.
    pub fn apply_commands(&mut self, text: &str, geometry: &Geometry)
        ensures
            final(self)@ == apply_commands(old(self)@, text@, *geometry),
            final(self).shot_path_view() == old(self).shot_path_view(),
            final(self).cmd_path_view() == old(self).cmd_path_view(),
    {
        let ghost st0 = self@;
        let mut words: Vec<Vec<char>> = Vec::new();
        let mut cur: Vec<char> = Vec::new();
        for ch in it: text.chars()
            invariant
                it.seq() == text@,
                self.shot_path_view() == old(self).shot_path_view(),
                self.cmd_path_view() == old(self).cmd_path_view(),
                ({
                    let lines = split_lines(text@.take(it.index() as int));
                    &&& self@ == apply_lines(st0, lines.drop_last(), *geometry)
                    &&& words_acc(lines.last()) == (words@.map_values(|v: Vec<char>| v@), cur@)
                }),
        {
            let ghost idx = it.index() as int;
            proof {
                assert(text@.take(idx + 1).drop_last() =~= text@.take(idx));
                assert(text@.take(idx + 1).last() == ch);
                crate::text::lemma_split_lines_len(text@.take(idx));
            }
            if ch == '\n' {
                if cur.len() > 0 {
                    let mut done: Vec<char> = Vec::new();
                    std::mem::swap(&mut done, &mut cur);
                    words.push(done);
                }
                proof {
                    let lines = split_lines(text@.take(idx));
                    assert(words@.map_values(|v: Vec<char>| v@) =~= words_of(lines.last()));
                }
                self.apply_line(&words, geometry);
                words = Vec::new();
                proof {
                    let lines1 = split_lines(text@.take(idx + 1));
                    let lines = split_lines(text@.take(idx));
                    assert(lines1.drop_last() =~= lines);
                    assert(lines.drop_last().push(lines.last()) =~= lines);
                    assert(words_acc(lines1.last()) == (Seq::<Seq<char>>::empty(), Seq::<char>::empty()));
                    assert(words@.map_values(|v: Vec<char>| v@) =~= Seq::<Seq<char>>::empty());
                }
            } else {
                if is_ws_exec(ch) {
                    if cur.len() > 0 {
                        let mut done: Vec<char> = Vec::new();
                        std::mem::swap(&mut done, &mut cur);
                        words.push(done);
                    }
                } else {
                    cur.push(ch);
                }
                proof {
                    let lines1 = split_lines(text@.take(idx + 1));
                    let lines = split_lines(text@.take(idx));
                    assert(lines1.drop_last() =~= lines.drop_last());
                    assert(lines1.last() =~= lines.last().push(ch));
                    assert(lines1.last().drop_last() =~= lines.last());
                    assert(words@.map_values(|v: Vec<char>| v@) =~= words_acc(lines1.last()).0);
                }
            }
        }
        proof {
            assert(text@.take(text@.len() as int) =~= text@);
            crate::text::lemma_split_lines_len(text@);
        }
        if cur.len() > 0 {
            words.push(cur);
        }
        proof {
            let lines = split_lines(text@);
            assert(words@.map_values(|v: Vec<char>| v@) =~= words_of(lines.last()));
            assert(lines.drop_last().push(lines.last()) =~= lines);
        }
        self.apply_line(&words, geometry);
    }

    /// One logic tick. When idle and the host read command text, apply it
    /// first; then advance the tap sequence. Returns synthetic touches to use
    /// instead of real digitizer samples while a tap is in flight.
    pub fn tick(&mut self, geometry: &Geometry, commands: Option<&str>) -> (r: Option<Vec<u32>>)
        ensures
            ({
                let st = match commands {
                    Some(t) => if old(self)@.phase == Phase::Idle {
                        apply_commands(old(self)@, t@, *geometry)
                    } else {
                        old(self)@
                    },
                    None => old(self)@,
                };
                let (p, out) = step(st.phase);
                &&& final(self)@ == (InjectorView { phase: p, ..st })
                &&& match out {
                    None => r is None,
                    Some(o) => r matches Some(v) && v@ == o,
                }
            }),
            final(self).shot_path_view() == old(self).shot_path_view(),
            final(self).cmd_path_view() == old(self).cmd_path_view(),
    {
        match commands {
            Some(t) => {
                if self.is_idle() {
                    self.apply_commands(t, geometry);
                }
            },
            None => {},
        }
        match self.phase {
            Phase::Idle => None,
            Phase::Down { packed, left } => {
                let left = if left == 0 {
                    0
                } else {
                    left - 1
                };
                if left == 0 {
                    self.phase = Phase::Up { left: UP_FRAMES };
                } else {
                    self.phase = Phase::Down { packed, left };
                }
                let mut v: Vec<u32> = Vec::new();
                v.push(packed);
                proof {
                    assert(v@ =~= seq![packed]);
                }
                Some(v)
            },
            Phase::Up { left } => {
                let left = if left == 0 {
                    0
                } else {
                    left - 1
                };
                if left == 0 {
                    self.phase = Phase::Idle;
                } else {
                    self.phase = Phase::Up { left };
                }
                Some(Vec::new())
            },
        }
    }
}

/// A command line (given by its words) is `shot` or `screenshot`.
pub open spec fn shot_line(w: Seq<Seq<char>>) -> bool {
    &&& w.len() == 1
    &&& w[0].len() > 0
    &&& w[0][0] != '#'
    &&& (is_word(w[0], seq!['s', 'h', 'o', 't']) || is_word(
        w[0],
        seq!['s', 'c', 'r', 'e', 'e', 'n', 's', 'h', 'o', 't'],
    ))
}

/// The phase a well-formed tap line starts: `tap X Y` in render pixels, or
/// `tap-logical`/`tapl X Y` in logical pixels scaled by the density.
pub open spec fn tap_line(w: Seq<Seq<char>>, g: Geometry) -> Option<Phase> {
    if w.len() != 3 || w[0].len() == 0 || w[0][0] == '#' {
        None
    } else {
        match (parse_u32(w[1]), parse_u32(w[2])) {
            (Some(x), Some(y)) => if is_word(w[0], seq!['t', 'a', 'p']) {
                Some(tap_phase(x, y, g))
            } else if is_word(w[0], seq!['t', 'a', 'p', '-', 'l', 'o', 'g', 'i', 'c', 'a', 'l'])
                || is_word(w[0], seq!['t', 'a', 'p', 'l']) {
                Some(tap_phase(sat_mul(x, g.density as u32), sat_mul(y, g.density as u32), g))
            } else {
                None
            },
            _ => None,
        }
    }
}

proof fn lemma_words_effect(st: InjectorView, w: Seq<Seq<char>>, g: Geometry)
    ensures
        apply_words(st, w, g) == (InjectorView {
            phase: match tap_line(w, g) {
                Some(p) => p,
                None => st.phase,
            },
            want_shot: st.want_shot || shot_line(w),
        }),
{
    if w.len() == 3 && w[0].len() > 0 && is_word(w[0], seq!['t', 'a', 'p']) {
        assert(!is_word(w[0], seq!['t', 'a', 'p', '-', 'l', 'o', 'g', 'i', 'c', 'a', 'l']));
    }
}

/// Command lines act independently and in order: a screenshot request,
/// once made, stays; the last well-formed tap line sets the phase; without
/// one the phase is kept; comments, blank, malformed and unknown lines
/// change nothing.
pub proof fn lemma_last_tap_wins(st: InjectorView, lines: Seq<Seq<char>>, g: Geometry)
    ensures
        apply_lines(st, lines, g).want_shot == (st.want_shot || exists|i: int|
            0 <= i < lines.len() && shot_line(#[trigger] words_of(lines[i]))),
        forall|i: int|
            0 <= i < lines.len() && tap_line(#[trigger] words_of(lines[i]), g) is Some && (forall|j: int|
                i < j < lines.len() ==> tap_line(#[trigger] words_of(lines[j]), g) is None)
                ==> apply_lines(st, lines, g).phase == tap_line(words_of(lines[i]), g)->0,
        (forall|j: int| 0 <= j < lines.len() ==> tap_line(#[trigger] words_of(lines[j]), g) is None)
            ==> apply_lines(st, lines, g).phase == st.phase,
    decreases lines.len(),
{
    if lines.len() > 0 {
        let d = lines.drop_last();
        let n = lines.len() - 1;
        lemma_last_tap_wins(st, d, g);
        lemma_words_effect(apply_lines(st, d, g), words_of(lines.last()), g);
        assert forall|i: int| 0 <= i < d.len() implies #[trigger] words_of(d[i]) == words_of(lines[i]) by {
            assert(d[i] == lines[i]);
        }
        if shot_line(words_of(lines[n])) {
            assert(exists|i: int| 0 <= i < lines.len() && shot_line(#[trigger] words_of(lines[i])));
        }
        if exists|i: int| 0 <= i < lines.len() && shot_line(#[trigger] words_of(lines[i])) {
            let i = choose|i: int| 0 <= i < lines.len() && shot_line(#[trigger] words_of(lines[i]));
            if i < n {
                assert(shot_line(words_of(d[i])));
            }
        }
        assert forall|i: int|
            0 <= i < lines.len() && tap_line(#[trigger] words_of(lines[i]), g) is Some && (forall|j: int|
                i < j < lines.len() ==> tap_line(#[trigger] words_of(lines[j]), g) is None) implies apply_lines(
            st,
            lines,
            g,
        ).phase == tap_line(words_of(lines[i]), g)->0 by {
            if i < n {
                assert(tap_line(words_of(lines[n]), g) is None);
                assert(tap_line(words_of(d[i]), g) is Some);
                assert forall|j: int| i < j < d.len() implies tap_line(#[trigger] words_of(d[j]), g) is None by {
                    assert(tap_line(words_of(lines[j]), g) is None);
                }
            }
        }
        if forall|j: int| 0 <= j < lines.len() ==> tap_line(#[trigger] words_of(lines[j]), g) is None {
            assert(tap_line(words_of(lines[n]), g) is None);
            assert forall|j: int| 0 <= j < d.len() implies tap_line(#[trigger] words_of(d[j]), g) is None by {
                assert(tap_line(words_of(lines[j]), g) is None);
            }
        }
    }
}

/// A tap holds contact for `DOWN_FRAMES` ticks, releases for `UP_FRAMES`
/// ticks, then the injector is idle again.
pub proof fn lemma_tap_sequence(packed: u32)
    ensures
        ({
            let s1 = step(Phase::Down { packed, left: DOWN_FRAMES });
            let s2 = step(s1.0);
            let s3 = step(s2.0);
            let s4 = step(s3.0);
            let s5 = step(s4.0);
            let s6 = step(s5.0);
            &&& s1.1 == Some(seq![packed])
            &&& s2.1 == Some(seq![packed])
            &&& s3.1 == Some(seq![packed])
            &&& s4.1 == Some(seq![packed])
            &&& s5.1 == Some(Seq::<u32>::empty())
            &&& s6.1 == Some(Seq::<u32>::empty())
            &&& s6.0 == Phase::Idle
        }),
{
}

/// The bytes of ASCII text.
pub open spec fn ascii_bytes(s: Seq<char>) -> Seq<u8> {
    s.map_values(|c: char| c as u8)
}

/// The header of a binary gray PGM: `P5\n{w} {h}\n255\n`.
pub open spec fn pgm_header(w: nat, h: nat) -> Seq<u8> {
    ascii_bytes(seq!['P', '5', '\n'] + dec_digits(w) + seq![' '] + dec_digits(h) + seq![
        '\n',
        '2',
        '5',
        '5',
        '\n',
    ])
}

fn push_ascii(out: &mut Vec<u8>, s: &Vec<char>)
    ensures
        final(out)@ == old(out)@ + ascii_bytes(s@),
{
    let mut i: usize = 0;
    while i < s.len()
        invariant
            i <= s@.len(),
            out@ == old(out)@ + ascii_bytes(s@.take(i as int)),
        decreases s@.len() - i,
    {
        proof {
            assert(ascii_bytes(s@.take(i + 1)) =~= ascii_bytes(s@.take(i as int)).push(
                s@[i as int] as u8,
            ));
        }
        out.push(s[i] as u8);
        i = i + 1;
    }
    proof {
        assert(s@.take(s@.len() as int) =~= s@);
    }
}

/// The bytes of a binary gray PGM of a `w` by `h` image: the header, then
/// the first `w * h` pixels. None when `pixels` is too short.
pub fn pgm_bytes(w: usize, h: usize, pixels: &[u8]) -> (r: Option<Vec<u8>>)
    requires
        w * h <= usize::MAX,
    ensures
        pixels@.len() < w * h ==> r is None,
        pixels@.len() >= w * h ==> (r matches Some(b) && b@ == pgm_header(w as nat, h as nat)
            + pixels@.take(w * h)),
{
    let n: usize = w * h;
    if pixels.len() < n {
        return None;
    }
    let mut head: Vec<char> = Vec::new();
    head.push('P');
    head.push('5');
    head.push('\n');
    push_decimal(&mut head, w as u64);
    head.push(' ');
    push_decimal(&mut head, h as u64);
    head.push('\n');
    head.push('2');
    head.push('5');
    head.push('5');
    head.push('\n');
    let mut out: Vec<u8> = Vec::new();
    push_ascii(&mut out, &head);
    let mut i: usize = 0;
    let ghost hb = out@;
    while i < n
        invariant
            i <= n,
            n == w * h,
            n <= pixels@.len(),
            out@ == hb + pixels@.take(i as int),
        decreases n - i,
    {
        proof {
            assert(pixels@.take(i + 1) =~= pixels@.take(i as int).push(pixels@[i as int]));
        }
        out.push(pixels[i]);
        i = i + 1;
    }
    proof {
        assert(head@ =~= seq!['P', '5', '\n'] + dec_digits(w as nat) + seq![' '] + dec_digits(
            h as nat,
        ) + seq!['\n', '2', '5', '5', '\n']);
        assert(Seq::<u8>::empty() + ascii_bytes(head@) =~= ascii_bytes(head@));
    }
    Some(out)
}

/// `std::time::Instant`, carried through opaque.
#[verifier::external_type_specification]
#[verifier::external_body]
pub struct ExInstant(std::time::Instant);

/// Time since `t` (`Instant::elapsed`). Depends on the clock: nothing is
/// promised of the value.
#[verifier::external_body]
fn instant_elapsed(t: &std::time::Instant) -> core::time::Duration {
    t.elapsed()
}

/// Whole nanoseconds of `d` (`Duration::as_nanos`). Nothing is stated of the
/// value: a `Duration` has no view here.
#[verifier::external_body]
fn duration_nanos(d: &core::time::Duration) -> u128 {
    d.as_nanos()
}

/// Whether a cooldown has passed: no previous event, or at least `min_nanos`
/// elapsed since it.
pub fn cooldown_elapsed(elapsed_nanos: Option<u128>, min_nanos: u128) -> (r: bool)
    ensures
        r == match elapsed_nanos {
            Some(e) => e >= min_nanos,
            None => true,
        },
{
    match elapsed_nanos {
        Some(e) => e >= min_nanos,
        None => true,
    }
}

/// Whether at least `min` has elapsed since `last` (always true without one).
pub fn cooldown_ok(last: Option<std::time::Instant>, min: core::time::Duration) -> (r: bool)
    ensures
        last is None ==> r,
{
    let elapsed = match &last {
        Some(t) => Some(duration_nanos(&instant_elapsed(t))),
        None => None,
    };
    cooldown_elapsed(elapsed, duration_nanos(&min))
}

} // verus!
