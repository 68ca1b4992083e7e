//! Command-line options of the Kindle host. Defaults come from the
//! environment (read by the host); the words on the command line override
//! them left to right. Waveform and rotation names must be ones the display
//! accepts: `DU` or `A2`, and `auto`, `0`, `90`, `180` or `270`.

use vstd::prelude::*;

use crate::chars::{chars_eq, chars_of, string_of};
use crate::inject::{parse_u32, parse_u32_chars};

verus! {

/// Host options.
pub struct CliArgs {
    pub js: String,
    pub pak: String,
    pub framebuffer: String,
    pub fbink: String,
    pub present_hz: u32,
    pub motion_waveform: String,
    pub ghost_budget: u32,
    pub rotation: String,
    pub probe: bool,
    /// Load a still image (path or http(s) URL), blit it full-screen, wait.
    pub show_image: Option<String>,
    pub allow_active_gui: bool,
}

/// Host options as plain values.
pub struct CliView {
    pub js: Seq<char>,
    pub pak: Seq<char>,
    pub framebuffer: Seq<char>,
    pub fbink: Seq<char>,
    pub present_hz: u32,
    pub motion_waveform: Seq<char>,
    pub ghost_budget: u32,
    pub rotation: Seq<char>,
    pub probe: bool,
    pub show_image: Option<Seq<char>>,
    pub allow_active_gui: bool,
}

impl View for CliArgs {
    type V = CliView;

    open spec fn view(&self) -> CliView {
        CliView {
            js: self.js@,
            pak: self.pak@,
            framebuffer: self.framebuffer@,
            fbink: self.fbink@,
            present_hz: self.present_hz,
            motion_waveform: self.motion_waveform@,
            ghost_budget: self.ghost_budget,
            rotation: self.rotation@,
            probe: self.probe,
            show_image: match self.show_image {
                Some(s) => Some(s@),
                None => None,
            },
            allow_active_gui: self.allow_active_gui,
        }
    }
}

/// What the command line asks for.
pub enum CliOutcome {
    /// Run with these options.
    Run(CliArgs),
    /// Print the usage text and exit.
    Help,
}

/// Why the command line was refused.
pub enum CliError {
    /// The option (named) is last and has no value.
    MissingValue(String),
    /// The option (named) needs an integer.
    NotAnInteger(String),
    /// The word is not an option.
    Unknown(String),
    /// The (named) motion waveform is not `DU` or `A2`.
    BadWaveform(String),
    /// The (named) rotation is not `auto`, `0`, `90`, `180` or `270`.
    BadRotation(String),
}

/// Why the command line was refused, as plain values.
pub enum CliFail {
    MissingValue(Seq<char>),
    NotAnInteger(Seq<char>),
    Unknown(Seq<char>),
    BadWaveform(Seq<char>),
    BadRotation(Seq<char>),
}

/// A motion waveform name: `DU` or `A2`.
pub open spec fn valid_waveform(s: Seq<char>) -> bool {
    s == seq!['D', 'U'] || s == seq!['A', '2']
}

/// A rotation: `auto`, `0`, `90`, `180` or `270`.
pub open spec fn valid_rotation(s: Seq<char>) -> bool {
    s == seq!['a', 'u', 't', 'o'] || s == seq!['0'] || s == seq!['9', '0'] || s == seq![
        '1',
        '8',
        '0',
    ] || s == seq!['2', '7', '0']
}

pub open spec fn opt_js() -> Seq<char> {
    seq!['-', '-', 'j', 's']
}

pub open spec fn opt_pak() -> Seq<char> {
    seq!['-', '-', 'p', 'a', 'k']
}

pub open spec fn opt_framebuffer() -> Seq<char> {
    seq!['-', '-', 'f', 'r', 'a', 'm', 'e', 'b', 'u', 'f', 'f', 'e', 'r']
}

pub open spec fn opt_fbink() -> Seq<char> {
    seq!['-', '-', 'f', 'b', 'i', 'n', 'k']
}

pub open spec fn opt_present_hz() -> Seq<char> {
    seq!['-', '-', 'p', 'r', 'e', 's', 'e', 'n', 't', '-', 'h', 'z']
}

pub open spec fn opt_motion_waveform() -> Seq<char> {
    seq!['-', '-', 'm', 'o', 't', 'i', 'o', 'n', '-', 'w', 'a', 'v', 'e', 'f', 'o', 'r', 'm']
}

pub open spec fn opt_ghost_budget() -> Seq<char> {
    seq!['-', '-', 'g', 'h', 'o', 's', 't', '-', 'b', 'u', 'd', 'g', 'e', 't']
}

pub open spec fn opt_rotation() -> Seq<char> {
    seq!['-', '-', 'r', 'o', 't', 'a', 't', 'i', 'o', 'n']
}

pub open spec fn opt_probe() -> Seq<char> {
    seq!['-', '-', 'p', 'r', 'o', 'b', 'e']
}

pub open spec fn opt_show_image() -> Seq<char> {
    seq!['-', '-', 's', 'h', 'o', 'w', '-', 'i', 'm', 'a', 'g', 'e']
}

pub open spec fn opt_allow_active_gui() -> Seq<char> {
    seq![
        '-', '-', 'a', 'l', 'l', 'o', 'w', '-', 'a', 'c', 't', 'i', 'v', 'e', '-', 'g', 'u', 'i',
    ]
}

pub open spec fn opt_h() -> Seq<char> {
    seq!['-', 'h']
}

pub open spec fn opt_help() -> Seq<char> {
    seq!['-', '-', 'h', 'e', 'l', 'p']
}

/// An option that takes a value.
pub open spec fn takes_value(word: Seq<char>) -> bool {
    word == opt_js() || word == opt_pak() || word == opt_framebuffer() || word == opt_fbink()
        || word == opt_present_hz() || word == opt_motion_waveform() || word == opt_ghost_budget()
        || word == opt_rotation() || word == opt_show_image()
}

/// Options `a` with the valued option `word` set to `val`.
pub open spec fn with_value(a: CliView, word: Seq<char>, val: Seq<char>) -> Result<CliView, CliFail> {
    if word == opt_js() {
        Ok(CliView { js: val, ..a })
    } else if word == opt_pak() {
        Ok(CliView { pak: val, ..a })
    } else if word == opt_framebuffer() {
        Ok(CliView { framebuffer: val, ..a })
    } else if word == opt_fbink() {
        Ok(CliView { fbink: val, ..a })
    } else if word == opt_present_hz() {
        match parse_u32(val) {
            Some(n) => Ok(CliView { present_hz: n, ..a }),
            None => Err(CliFail::NotAnInteger(word)),
        }
    } else if word == opt_motion_waveform() {
        if valid_waveform(val) {
            Ok(CliView { motion_waveform: val, ..a })
        } else {
            Err(CliFail::BadWaveform(val))
        }
    } else if word == opt_ghost_budget() {
        match parse_u32(val) {
            Some(n) => Ok(CliView { ghost_budget: n, ..a }),
            None => Err(CliFail::NotAnInteger(word)),
        }
    } else if word == opt_rotation() {
        if valid_rotation(val) {
            Ok(CliView { rotation: val, ..a })
        } else {
            Err(CliFail::BadRotation(val))
        }
    } else {
        Ok(CliView { show_image: Some(val), ..a })
    }
}

/// The outcome of the words from index `i` on, starting from options `a`:
/// `Ok(Some(options))` to run, `Ok(None)` for help.
pub open spec fn cli_parse(a: CliView, w: Seq<Seq<char>>, i: int) -> Result<Option<CliView>, CliFail>
    decreases w.len() - i,
{
    if i < 0 || i >= w.len() {
        Ok(Some(a))
    } else {
        let word = w[i];
        if takes_value(word) {
            if i + 1 >= w.len() {
                Err(CliFail::MissingValue(word))
            } else {
                match with_value(a, word, w[i + 1]) {
                    Ok(b) => cli_parse(b, w, i + 2),
                    Err(e) => Err(e),
                }
            }
        } else if word == opt_probe() {
            cli_parse(CliView { probe: true, ..a }, w, i + 1)
        } else if word == opt_allow_active_gui() {
            cli_parse(CliView { allow_active_gui: true, ..a }, w, i + 1)
        } else if word == opt_h() || word == opt_help() {
            Ok(None)
        } else {
            Err(CliFail::Unknown(word))
        }
    }
}

proof fn lemma_parse_shift(a: CliView, p: Seq<Seq<char>>, t: Seq<Seq<char>>, j: int)
    requires
        0 <= j,
    ensures
        cli_parse(a, p + t, p.len() + j) == cli_parse(a, t, j),
    decreases t.len() - j,
{
    if j < t.len() {
        let w = p + t;
        assert(w[p.len() + j] == t[j]);
        if j + 1 < t.len() {
            assert(w[p.len() + j + 1] == t[j + 1]);
        }
        let word = t[j];
        if takes_value(word) {
            if j + 1 < t.len() {
                if let Ok(b) = with_value(a, word, t[j + 1]) {
                    lemma_parse_shift(b, p, t, j + 2);
                }
            }
        } else if word == opt_probe() {
            lemma_parse_shift(CliView { probe: true, ..a }, p, t, j + 1);
        } else if word == opt_allow_active_gui() {
            lemma_parse_shift(CliView { allow_active_gui: true, ..a }, p, t, j + 1);
        }
    }
}

proof fn lemma_parse_prefix_from(a: CliView, p: Seq<Seq<char>>, t: Seq<Seq<char>>, i: int, b: CliView)
    requires
        0 <= i <= p.len(),
        cli_parse(a, p, i) == Ok::<Option<CliView>, CliFail>(Some(b)),
    ensures
        cli_parse(a, p + t, i) == cli_parse(b, p + t, p.len() as int),
    decreases p.len() - i,
{
    if i < p.len() {
        let w = p + t;
        assert(w[i] == p[i]);
        let word = p[i];
        if takes_value(word) {
            assert(w[i + 1] == p[i + 1]);
            let c = with_value(a, word, p[i + 1])->Ok_0;
            lemma_parse_prefix_from(c, p, t, i + 2, b);
        } else if word == opt_probe() {
            lemma_parse_prefix_from(CliView { probe: true, ..a }, p, t, i + 1, b);
        } else if word == opt_allow_active_gui() {
            lemma_parse_prefix_from(CliView { allow_active_gui: true, ..a }, p, t, i + 1, b);
        }
    }
}

/// The words are read left to right: what a prefix of the command line
/// parses to is the state the rest of it starts from, so an option given
/// again later overrides the earlier value.
pub proof fn lemma_parse_in_order(a: CliView, p: Seq<Seq<char>>, t: Seq<Seq<char>>, b: CliView)
    requires
        cli_parse(a, p, 0) == Ok::<Option<CliView>, CliFail>(Some(b)),
    ensures
        cli_parse(a, p + t, 0) == cli_parse(b, t, 0),
{
    lemma_parse_prefix_from(a, p, t, 0, b);
    lemma_parse_shift(b, p, t, 0);
}

/// The outcome of the command line `w` over the defaults `a`: the
/// defaults' waveform and rotation are checked first, then the words.
pub open spec fn cli_outcome(a: CliView, w: Seq<Seq<char>>) -> Result<Option<CliView>, CliFail> {
    if !valid_waveform(a.motion_waveform) {
        Err(CliFail::BadWaveform(a.motion_waveform))
    } else if !valid_rotation(a.rotation) {
        Err(CliFail::BadRotation(a.rotation))
    } else {
        cli_parse(a, w, 0)
    }
}

/// The plain value of a refusal.
pub open spec fn cli_fail_of(e: CliError) -> CliFail {
    match e {
        CliError::MissingValue(s) => CliFail::MissingValue(s@),
        CliError::NotAnInteger(s) => CliFail::NotAnInteger(s@),
        CliError::Unknown(s) => CliFail::Unknown(s@),
        CliError::BadWaveform(s) => CliFail::BadWaveform(s@),
        CliError::BadRotation(s) => CliFail::BadRotation(s@),
    }
}

fn copy_chars(v: &Vec<char>) -> (r: String)
    ensures
        r@ == v@,
{
    string_of(v)
}

fn waveform_ok(s: &String) -> (r: bool)
    ensures
        r == valid_waveform(s@),
{
    let c = chars_of(s.as_str());
    let du = ['D', 'U'];
    let a2 = ['A', '2'];
    proof {
        assert(du@ =~= seq!['D', 'U']);
        assert(a2@ =~= seq!['A', '2']);
    }
    chars_eq(&c, &du) || chars_eq(&c, &a2)
}

fn rotation_ok(s: &String) -> (r: bool)
    ensures
        r == valid_rotation(s@),
{
    let c = chars_of(s.as_str());
    let auto = ['a', 'u', 't', 'o'];
    let r0 = ['0'];
    let r90 = ['9', '0'];
    let r180 = ['1', '8', '0'];
    let r270 = ['2', '7', '0'];
    proof {
        assert(auto@ =~= seq!['a', 'u', 't', 'o']);
        assert(r0@ =~= seq!['0']);
        assert(r90@ =~= seq!['9', '0']);
        assert(r180@ =~= seq!['1', '8', '0']);
        assert(r270@ =~= seq!['2', '7', '0']);
    }
    chars_eq(&c, &auto) || chars_eq(&c, &r0) || chars_eq(&c, &r90) || chars_eq(&c, &r180)
        || chars_eq(&c, &r270)
}

fn flag_code(w: &Vec<char>) -> (r: u8)
    ensures
        r == 1 <==> w@ == opt_js(),
        r == 2 <==> w@ == opt_pak(),
        r == 3 <==> w@ == opt_framebuffer(),
        r == 4 <==> w@ == opt_fbink(),
        r == 5 <==> w@ == opt_present_hz(),
        r == 6 <==> w@ == opt_motion_waveform(),
        r == 7 <==> w@ == opt_ghost_budget(),
        r == 8 <==> w@ == opt_rotation(),
        r == 9 <==> w@ == opt_show_image(),
        r == 10 <==> w@ == opt_probe(),
        r == 11 <==> w@ == opt_allow_active_gui(),
        r == 12 <==> (w@ == opt_h() || w@ == opt_help()),
        r <= 12,
{
    let js = ['-', '-', 'j', 's'];
    let pak = ['-', '-', 'p', 'a', 'k'];
    let fb = ['-', '-', 'f', 'r', 'a', 'm', 'e', 'b', 'u', 'f', 'f', 'e', 'r'];
    let fbink = ['-', '-', 'f', 'b', 'i', 'n', 'k'];
    let hz = ['-', '-', 'p', 'r', 'e', 's', 'e', 'n', 't', '-', 'h', 'z'];
    let wave = ['-', '-', 'm', 'o', 't', 'i', 'o', 'n', '-', 'w', 'a', 'v', 'e', 'f', 'o', 'r', 'm'];
    let ghost_b = ['-', '-', 'g', 'h', 'o', 's', 't', '-', 'b', 'u', 'd', 'g', 'e', 't'];
    let rot = ['-', '-', 'r', 'o', 't', 'a', 't', 'i', 'o', 'n'];
    let show = ['-', '-', 's', 'h', 'o', 'w', '-', 'i', 'm', 'a', 'g', 'e'];
    let probe = ['-', '-', 'p', 'r', 'o', 'b', 'e'];
    let allow = [
        '-', '-', 'a', 'l', 'l', 'o', 'w', '-', 'a', 'c', 't', 'i', 'v', 'e', '-', 'g', 'u', 'i',
    ];
    let h = ['-', 'h'];
    let help = ['-', '-', 'h', 'e', 'l', 'p'];
    proof {
        assert(js@ =~= opt_js());
        assert(pak@ =~= opt_pak());
        assert(fb@ =~= opt_framebuffer());
        assert(fbink@ =~= opt_fbink());
        assert(hz@ =~= opt_present_hz());
        assert(wave@ =~= opt_motion_waveform());
        assert(ghost_b@ =~= opt_ghost_budget());
        assert(rot@ =~= opt_rotation());
        assert(show@ =~= opt_show_image());
        assert(probe@ =~= opt_probe());
        assert(allow@ =~= opt_allow_active_gui());
        assert(h@ =~= opt_h());
        assert(help@ =~= opt_help());
    }
    if chars_eq(w, &js) {
        1
    } else if chars_eq(w, &pak) {
        2
    } else if chars_eq(w, &fb) {
        3
    } else if chars_eq(w, &fbink) {
        4
    } else if chars_eq(w, &hz) {
        5
    } else if chars_eq(w, &wave) {
        6
    } else if chars_eq(w, &ghost_b) {
        7
    } else if chars_eq(w, &rot) {
        8
    } else if chars_eq(w, &show) {
        9
    } else if chars_eq(w, &probe) {
        10
    } else if chars_eq(w, &allow) {
        11
    } else if chars_eq(w, &h) || chars_eq(w, &help) {
        12
    } else {
        0
    }
}

/// Apply the command-line words to the default options `init`.
pub fn parse_cli(init: CliArgs, words: &Vec<String>) -> (r: Result<CliOutcome, CliError>)
    ensures
        match cli_outcome(init@, words@.map_values(|s: String| s@)) {
            Ok(Some(v)) => r matches Ok(CliOutcome::Run(a)) && a@ == v,
            Ok(None) => r matches Ok(CliOutcome::Help),
            Err(f) => r matches Err(e) && cli_fail_of(e) == f,
        },
{
    let ghost w = words@.map_values(|s: String| s@);
    if !waveform_ok(&init.motion_waveform) {
        return Err(CliError::BadWaveform(init.motion_waveform));
    }
    if !rotation_ok(&init.rotation) {
        return Err(CliError::BadRotation(init.rotation));
    }
    let ghost a0 = init@;
    let mut a = init;
    let mut i: usize = 0;
    while i < words.len()
        invariant
            i <= words@.len(),
            w == words@.map_values(|s: String| s@),
            cli_outcome(a0, w) == cli_parse(a@, w, i as int),
            a0 == init@,
        decreases words@.len() - i,
    {
        let word = chars_of(words[i].as_str());
        assert(word@ == w[i as int]);
        let code = flag_code(&word);
        if 1 <= code && code <= 9 {
            if i + 1 >= words.len() {
                assert(takes_value(w[i as int]));
                assert(cli_parse(a@, w, i as int) == Err::<Option<CliView>, CliFail>(
                    CliFail::MissingValue(w[i as int]),
                ));
                return Err(CliError::MissingValue(copy_chars(&word)));
            }
            let val = &words[i + 1];
            assert(val@ == w[i + 1]);
            if code == 1 {
                a.js = val.clone();
            } else if code == 2 {
                a.pak = val.clone();
            } else if code == 3 {
                a.framebuffer = val.clone();
            } else if code == 4 {
                a.fbink = val.clone();
            } else if code == 5 {
                match parse_u32_chars(&chars_of(val.as_str())) {
                    Some(n) => {
                        a.present_hz = n;
                    },
                    None => {
                        assert(with_value(a@, w[i as int], w[i + 1]) == Err::<CliView, CliFail>(
                            CliFail::NotAnInteger(w[i as int]),
                        ));
                        return Err(CliError::NotAnInteger(copy_chars(&word)));
                    },
                }
            } else if code == 6 {
                if !waveform_ok(val) {
                    return Err(CliError::BadWaveform(val.clone()));
                }
                a.motion_waveform = val.clone();
            } else if code == 7 {
                match parse_u32_chars(&chars_of(val.as_str())) {
                    Some(n) => {
                        a.ghost_budget = n;
                    },
                    None => {
                        assert(with_value(a@, w[i as int], w[i + 1]) == Err::<CliView, CliFail>(
                            CliFail::NotAnInteger(w[i as int]),
                        ));
                        return Err(CliError::NotAnInteger(copy_chars(&word)));
                    },
                }
            } else if code == 8 {
                if !rotation_ok(val) {
                    return Err(CliError::BadRotation(val.clone()));
                }
                a.rotation = val.clone();
            } else {
                a.show_image = Some(val.clone());
            }
            i = i + 2;
        } else if code == 10 {
            a.probe = true;
            i = i + 1;
        } else if code == 11 {
            a.allow_active_gui = true;
            i = i + 1;
        } else if code == 12 {
            return Ok(CliOutcome::Help);
        } else {
            return Err(CliError::Unknown(copy_chars(&word)));
        }
    }
    Ok(CliOutcome::Run(a))
}

} // verus!
