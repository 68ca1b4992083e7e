//! The small JSON dialect the manga surface speaks with the guest: string
//! escaping for replies, and a flat `{"Key":"Value",...}` header object
//! parser for requests. Hand-rolled on purpose: the host carries no JSON
//! library.

use vstd::prelude::*;

use crate::chars::{
    char_from_u32, char_of_u32, chars_of, find_char, find_char_exec, lemma_find_char, push_all,
    slice_chars, string_of, strip_leading, strip_trailing, trim, trim_chars,
};

verus! {

/// Lower-case hex digit of `n` (0..16).
pub open spec fn hex_digit(n: int) -> char {
    if n < 10 {
        (n + 48) as char
    } else {
        (n + 87) as char
    }
}

/// The JSON escape of one char: quote, backslash, `\n`, `\r`, `\t` get a
/// backslash form, other control chars `\u00XX` with lower-case hex, the rest
/// stand for themselves.
pub open spec fn escape_char(c: char) -> Seq<char> {
    if c == '"' {
        seq!['\\', '"']
    } else if c == '\\' {
        seq!['\\', '\\']
    } else if c == '\n' {
        seq!['\\', 'n']
    } else if c == '\r' {
        seq!['\\', 'r']
    } else if c == '\t' {
        seq!['\\', 't']
    } else if (c as u32) < 0x20 {
        seq!['\\', 'u', '0', '0', hex_digit(c as int / 16), hex_digit(c as int % 16)]
    } else {
        seq![c]
    }
}

/// `s` with every char escaped.
pub open spec fn json_escaped(s: Seq<char>) -> Seq<char>
    decreases s.len(),
{
    if s.len() == 0 {
        Seq::empty()
    } else {
        escape_char(s[0]) + json_escaped(s.drop_first())
    }
}

/// Value of a hex digit, or -1.
pub open spec fn hex_val(c: char) -> int {
    if '0' <= c <= '9' {
        c as int - 48
    } else if 'a' <= c <= 'f' {
        c as int - 87
    } else if 'A' <= c <= 'F' {
        c as int - 55
    } else {
        -1
    }
}

/// Value of a string of hex digits.
pub open spec fn hex_value(s: Seq<char>) -> int
    decreases s.len(),
{
    if s.len() == 0 {
        0
    } else {
        hex_value(s.drop_last()) * 16 + hex_val(s.last())
    }
}

/// Every char is a hex digit.
pub open spec fn all_hex(s: Seq<char>) -> bool {
    forall|i: int| 0 <= i < s.len() ==> hex_val(#[trigger] s[i]) >= 0
}

/// `u32::from_str_radix(s, 16)`: an optional '+', then one or more hex
/// digits whose value fits.
pub open spec fn parse_hex_u32(s: Seq<char>) -> Option<u32> {
    let body = if s.len() > 0 && s[0] == '+' {
        s.drop_first()
    } else {
        s
    };
    if body.len() > 0 && all_hex(body) && hex_value(body) <= u32::MAX {
        Some(hex_value(body) as u32)
    } else {
        None
    }
}

/// The char a backslash gives to the char after it (other than `u`).
pub open spec fn unescape_simple(c: char) -> char {
    if c == 'n' {
        '\n'
    } else if c == 'r' {
        '\r'
    } else if c == 't' {
        '\t'
    } else {
        c
    }
}

/// What `\u` followed by `hex` (up to four chars) decodes to: the char of
/// that code when the hex parses and names a Unicode scalar, else nothing.
pub open spec fn unescape_hex(hex: Seq<char>) -> Seq<char> {
    match parse_hex_u32(hex) {
        Some(v) => match char_of_u32(v) {
            Some(ch) => seq![ch],
            None => Seq::empty(),
        },
        None => Seq::empty(),
    }
}

/// Lenient JSON string unescape: `\n`, `\r`, `\t`, `\uXXXX` decode, any
/// other escaped char stands for itself, a lone trailing backslash is dropped.
pub open spec fn json_unescaped(s: Seq<char>) -> Seq<char>
    decreases s.len(),
{
    if s.len() == 0 {
        Seq::empty()
    } else if s[0] != '\\' {
        seq![s[0]] + json_unescaped(s.drop_first())
    } else if s.len() == 1 {
        Seq::empty()
    } else if s[1] == 'u' {
        let n = if s.len() < 6 {
            s.len() as int
        } else {
            6
        };
        unescape_hex(s.subrange(2, n)) + json_unescaped(s.subrange(n, s.len() as int))
    } else {
        seq![unescape_simple(s[1])] + json_unescaped(s.subrange(2, s.len() as int))
    }
}

/// A JSON value token as text: trimmed, and when quoted, unquoted and
/// unescaped.
pub open spec fn unquoted(s: Seq<char>) -> Seq<char> {
    let t = trim(s);
    if t.len() >= 2 && t[0] == '"' && t.last() == '"' {
        json_unescaped(t.subrange(1, t.len() - 1))
    } else {
        t
    }
}

/// State of the pair splitter: finished parts, the part in progress,
/// inside a string, after a backslash inside a string.
pub type PairScan = (Seq<Seq<char>>, Seq<char>, bool, bool);

/// One char of the pair splitter.
pub open spec fn pair_step(st: PairScan, c: char) -> PairScan {
    let (parts, cur, in_str, esc) = st;
    if esc {
        (parts, cur.push(c), in_str, false)
    } else if c == '\\' && in_str {
        (parts, cur.push(c), in_str, true)
    } else if c == '"' {
        (parts, cur.push(c), !in_str, esc)
    } else if c == ',' && !in_str {
        (parts.push(cur), Seq::empty(), in_str, esc)
    } else {
        (parts, cur.push(c), in_str, esc)
    }
}

/// The pair splitter after reading `s`.
pub open spec fn pair_scan(s: Seq<char>) -> PairScan
    decreases s.len(),
{
    if s.len() == 0 {
        (Seq::empty(), Seq::empty(), false, false)
    } else {
        pair_step(pair_scan(s.drop_last()), s.last())
    }
}

/// `s` split at the commas outside strings; a blank last part is dropped.
pub open spec fn json_pairs(s: Seq<char>) -> Seq<Seq<char>> {
    let (parts, cur, _, _) = pair_scan(s);
    if trim(cur).len() > 0 {
        parts.push(cur)
    } else {
        parts
    }
}

/// The header one `key:value` part gives, if any.
pub open spec fn header_of_part(p: Seq<char>) -> Option<(Seq<char>, Seq<char>)> {
    let q = trim(p);
    if q.len() == 0 {
        None
    } else {
        match find_char(q, ':') {
            None => None,
            Some(i) => {
                let k = unquoted(trim(q.take(i)));
                let v = unquoted(trim(q.skip(i + 1)));
                if k.len() > 0 {
                    Some((k, v))
                } else {
                    None
                }
            },
        }
    }
}

/// The headers of a list of parts, in order.
pub open spec fn headers_of_parts(ps: Seq<Seq<char>>) -> Seq<(Seq<char>, Seq<char>)>
    decreases ps.len(),
{
    if ps.len() == 0 {
        Seq::empty()
    } else {
        let h = headers_of_parts(ps.drop_last());
        match header_of_part(ps.last()) {
            Some(kv) => h.push(kv),
            None => h,
        }
    }
}

/// The headers of a flat `{"Key":"Value",...}` object; not an object gives
/// none.
pub open spec fn headers_of(s: Seq<char>) -> Seq<(Seq<char>, Seq<char>)> {
    let t = trim(s);
    if t.len() > 0 && t[0] == '{' {
        headers_of_parts(json_pairs(strip_trailing(strip_leading(t, '{'), '}')))
    } else {
        Seq::empty()
    }
}

/// Views of a list of strings.
pub open spec fn views_of(v: Seq<String>) -> Seq<Seq<char>> {
    v.map_values(|x: String| x@)
}

/// Views of a list of string pairs.
pub open spec fn pair_views_of(v: Seq<(String, String)>) -> Seq<(Seq<char>, Seq<char>)> {
    v.map_values(|p: (String, String)| (p.0@, p.1@))
}

/// Views of a list of char vectors.
pub open spec fn char_views_of(v: Seq<Vec<char>>) -> Seq<Seq<char>> {
    v.map_values(|x: Vec<char>| x@)
}

fn hex_digit_exec(n: u32) -> (r: char)
    requires
        n < 16,
    ensures
        r == hex_digit(n as int),
{
    let v: u32 = if n < 10 {
        n + 48
    } else {
        n + 87
    };
    match char_from_u32(v) {
        Some(c) => c,
        None => '0',
    }
}

fn escape_into(out: &mut Vec<char>, c: char)
    ensures
        final(out)@ == old(out)@ + escape_char(c),
{
    if c == '"' {
        push_all(out, &['\\', '"']);
    } else if c == '\\' {
        push_all(out, &['\\', '\\']);
    } else if c == '\n' {
        push_all(out, &['\\', 'n']);
    } else if c == '\r' {
        push_all(out, &['\\', 'r']);
    } else if c == '\t' {
        push_all(out, &['\\', 't']);
    } else if (c as u32) < 0x20 {
        let v = c as u32;
        let hi = hex_digit_exec(v / 16);
        let lo = hex_digit_exec(v % 16);
        push_all(out, &['\\', 'u', '0', '0', hi, lo]);
    } else {
        out.push(c);
        assert(out@ =~= old(out)@ + seq![c]);
    }
}

/// JSON-escape the chars of `s`.
pub fn escape_chars(s: &Vec<char>) -> (r: Vec<char>)
    ensures
        r@ == json_escaped(s@),
{
    let mut out: Vec<char> = Vec::new();
    let mut i: usize = 0;
    proof {
        assert(s@.skip(0) =~= s@);
        assert(out@ + json_escaped(s@) =~= json_escaped(s@));
    }
    while i < s.len()
        invariant
            i <= s@.len(),
            out@ + json_escaped(s@.skip(i as int)) == json_escaped(s@),
        decreases s@.len() - i,
    {
        let ghost rest = s@.skip(i as int);
        let ghost before = out@;
        escape_into(&mut out, s[i]);
        proof {
            assert(rest.drop_first() =~= s@.skip(i + 1));
            assert(rest[0] == s@[i as int]);
            assert(before + json_escaped(rest) == before + (escape_char(s@[i as int])
                + json_escaped(s@.skip(i + 1))));
            assert(before + (escape_char(s@[i as int]) + json_escaped(s@.skip(i + 1))) =~= out@
                + json_escaped(s@.skip(i + 1)));
        }
        i = i + 1;
    }
    proof {
        assert(s@.skip(s@.len() as int) =~= Seq::<char>::empty());
        assert(out@ + Seq::<char>::empty() =~= out@);
    }
    out
}

/// Escape `s` for a JSON string literal.
pub fn json_escape(s: &str) -> (r: String)
    ensures
        r@ == json_escaped(s@),
{
    let v = chars_of(s);
    let e = escape_chars(&v);
    string_of(&e)
}

spec fn pow16(k: int) -> int {
    if k <= 0 {
        1
    } else if k == 1 {
        16
    } else if k == 2 {
        256
    } else if k == 3 {
        4096
    } else {
        65536
    }
}

fn hex_val_exec(c: char) -> (r: Option<u32>)
    ensures
        match r {
            Some(v) => hex_val(c) >= 0 && v == hex_val(c) && v < 16,
            None => hex_val(c) < 0,
        },
{
    if '0' <= c && c <= '9' {
        Some((c as u32) - 48)
    } else if 'a' <= c && c <= 'f' {
        Some((c as u32) - 87)
    } else if 'A' <= c && c <= 'F' {
        Some((c as u32) - 55)
    } else {
        None
    }
}

/// Parse up to four hex digits (see `parse_hex_u32`).
fn parse_hex_short(s: &Vec<char>) -> (r: Option<u32>)
    requires
        s@.len() <= 4,
    ensures
        r == parse_hex_u32(s@),
{
    let start: usize = if s.len() > 0 && s[0] == '+' {
        1
    } else {
        0
    };
    let ghost body = if s@.len() > 0 && s@[0] == '+' {
        s@.drop_first()
    } else {
        s@
    };
    proof {
        assert(body =~= s@.subrange(start as int, s@.len() as int));
    }
    if start >= s.len() {
        return None;
    }
    let mut value: u32 = 0;
    let mut i: usize = start;
    while i < s.len()
        invariant
            start <= i <= s@.len() <= 4,
            start < s@.len(),
            body == (if s@.len() > 0 && s@[0] == '+' {
                s@.drop_first()
            } else {
                s@
            }),
            body =~= s@.subrange(start as int, s@.len() as int),
            all_hex(body.take(i - start)),
            value as int == hex_value(body.take(i - start)),
            value < pow16(i - start),
        decreases s@.len() - i,
    {
        let ghost k = i - start;
        proof {
            assert(body.take(k + 1).drop_last() =~= body.take(k));
            assert(body[k] == s@[i as int]);
        }
        match hex_val_exec(s[i]) {
            None => {
                proof {
                    assert(!all_hex(body));
                }
                return None;
            },
            Some(d) => {
                value = value * 16 + d;
            },
        }
        i = i + 1;
        proof {
            assert forall|j: int| 0 <= j < body.take(i - start).len() implies hex_val(
                #[trigger] body.take(i - start)[j],
            ) >= 0 by {
                if j < k {
                    assert(body.take(i - start)[j] == body.take(k)[j]);
                }
            }
        }
    }
    proof {
        assert(body.take(i - start) =~= body);
    }
    Some(value)
}

/// Unescape the chars of a JSON string body (see `json_unescaped`).
pub fn unescape_chars(s: &Vec<char>) -> (r: Vec<char>)
    ensures
        r@ == json_unescaped(s@),
{
    let mut out: Vec<char> = Vec::new();
    let mut i: usize = 0;
    proof {
        assert(s@.skip(0) =~= s@);
        assert(out@ + json_unescaped(s@) =~= json_unescaped(s@));
    }
    while i < s.len()
        invariant
            i <= s@.len(),
            out@ + json_unescaped(s@.skip(i as int)) == json_unescaped(s@),
        decreases s@.len() - i,
    {
        let ghost rest = s@.skip(i as int);
        let ghost before = out@;
        let c = s[i];
        assert(rest[0] == c);
        if c != '\\' {
            out.push(c);
            proof {
                assert(rest.drop_first() =~= s@.skip(i + 1));
                assert(before + (seq![c] + json_unescaped(s@.skip(i + 1))) =~= out@
                    + json_unescaped(s@.skip(i + 1)));
            }
            i = i + 1;
        } else if i + 1 == s.len() {
            proof {
                assert(rest.len() == 1);
                assert(s@.skip(i + 1) =~= Seq::<char>::empty());
                assert(before + Seq::<char>::empty() =~= before);
            }
            i = i + 1;
        } else {
            let d = s[i + 1];
            assert(rest[1] == d);
            if d == 'u' {
                let n: usize = if s.len() - i < 6 {
                    s.len()
                } else {
                    i + 6
                };
                let hex = slice_chars(s, i + 2, n);
                let ghost dec = unescape_hex(hex@);
                match parse_hex_short(&hex) {
                    Some(v) => match char_from_u32(v) {
                        Some(ch) => {
                            out.push(ch);
                        },
                        None => {},
                    },
                    None => {},
                }
                proof {
                    let nr = n - i;
                    assert(rest.subrange(2, nr) =~= hex@);
                    assert(rest.subrange(nr, rest.len() as int) =~= s@.skip(n as int));
                    assert(out@ =~= before + dec);
                    assert(before + (dec + json_unescaped(s@.skip(n as int))) =~= out@
                        + json_unescaped(s@.skip(n as int)));
                }
                i = n;
            } else {
                let e = if d == 'n' {
                    '\n'
                } else if d == 'r' {
                    '\r'
                } else if d == 't' {
                    '\t'
                } else {
                    d
                };
                out.push(e);
                proof {
                    assert(rest.subrange(2, rest.len() as int) =~= s@.skip(i + 2));
                    assert(before + (seq![e] + json_unescaped(s@.skip(i + 2))) =~= out@
                        + json_unescaped(s@.skip(i + 2)));
                }
                i = i + 2;
            }
        }
    }
    proof {
        assert(s@.skip(s@.len() as int) =~= Seq::<char>::empty());
        assert(out@ + Seq::<char>::empty() =~= out@);
    }
    out
}

/// Unescape a JSON string body.
pub fn json_unescape(s: &str) -> (r: String)
    ensures
        r@ == json_unescaped(s@),
{
    let v = chars_of(s);
    let u = unescape_chars(&v);
    string_of(&u)
}

fn unquote_chars(s: &Vec<char>) -> (r: Vec<char>)
    ensures
        r@ == unquoted(s@),
{
    let t = trim_chars(s);
    if t.len() >= 2 && t[0] == '"' && t[t.len() - 1] == '"' {
        let inner = slice_chars(&t, 1, t.len() - 1);
        unescape_chars(&inner)
    } else {
        t
    }
}

/// A JSON value token as text (see `unquoted`).
pub fn unquote(s: &str) -> (r: String)
    ensures
        r@ == unquoted(s@),
{
    let v = chars_of(s);
    let u = unquote_chars(&v);
    string_of(&u)
}

fn split_pairs_chars(s: &Vec<char>) -> (r: Vec<Vec<char>>)
    ensures
        char_views_of(r@) == json_pairs(s@),
{
    let mut parts: Vec<Vec<char>> = Vec::new();
    let mut cur: Vec<char> = Vec::new();
    let mut in_str = false;
    let mut esc = false;
    let mut i: usize = 0;
    while i < s.len()
        invariant
            i <= s@.len(),
            pair_scan(s@.take(i as int)) == (char_views_of(parts@), cur@, in_str, esc),
        decreases s@.len() - i,
    {
        let c = s[i];
        proof {
            assert(s@.take(i + 1).drop_last() =~= s@.take(i as int));
            assert(s@.take(i + 1).last() == c);
        }
        if esc {
            cur.push(c);
            esc = false;
        } else if c == '\\' && in_str {
            cur.push(c);
            esc = true;
        } else if c == '"' {
            cur.push(c);
            in_str = !in_str;
        } else if c == ',' && !in_str {
            let mut done: Vec<char> = Vec::new();
            std::mem::swap(&mut done, &mut cur);
            let ghost old_parts = parts@;
            parts.push(done);
            proof {
                assert(char_views_of(parts@) =~= char_views_of(old_parts).push(done@));
            }
        } else {
            cur.push(c);
        }
        i = i + 1;
    }
    proof {
        assert(s@.take(s@.len() as int) =~= s@);
    }
    let t = trim_chars(&cur);
    if t.len() > 0 {
        let ghost old_parts = parts@;
        let ghost last = cur@;
        parts.push(cur);
        proof {
            assert(char_views_of(parts@) =~= char_views_of(old_parts).push(last));
        }
    }
    parts
}

fn strings_of(v: &Vec<Vec<char>>) -> (r: Vec<String>)
    ensures
        views_of(r@) == char_views_of(v@),
{
    let mut out: Vec<String> = Vec::new();
    let mut i: usize = 0;
    while i < v.len()
        invariant
            i <= v@.len(),
            views_of(out@) =~= char_views_of(v@).take(i as int),
        decreases v@.len() - i,
    {
        let st = string_of(&v[i]);
        let ghost before = out@;
        out.push(st);
        proof {
            assert(views_of(out@) =~= views_of(before).push(v@[i as int]@));
            assert(char_views_of(v@).take(i + 1) =~= char_views_of(v@).take(i as int).push(
                v@[i as int]@,
            ));
        }
        i = i + 1;
    }
    proof {
        assert(char_views_of(v@).take(v@.len() as int) =~= char_views_of(v@));
    }
    out
}

/// Split a flat object body at the commas that stand outside strings.
pub fn split_json_pairs(s: &str) -> (r: Vec<String>)
    ensures
        views_of(r@) == json_pairs(s@),
{
    let v = chars_of(s);
    let parts = split_pairs_chars(&v);
    strings_of(&parts)
}

fn strip_leading_chars(s: &Vec<char>, c: char) -> (r: Vec<char>)
    ensures
        r@ == strip_leading(s@, c),
{
    let mut i: usize = 0;
    proof {
        assert(s@.skip(0) =~= s@);
    }
    while i < s.len() && s[i] == c
        invariant
            i <= s@.len(),
            strip_leading(s@, c) == strip_leading(s@.skip(i as int), c),
        decreases s@.len() - i,
    {
        proof {
            assert(s@.skip(i as int).drop_first() =~= s@.skip(i + 1));
        }
        i = i + 1;
    }
    proof {
        assert(s@.skip(0) =~= s@);
    }
    slice_chars(s, i, s.len())
}

fn strip_trailing_chars(s: &Vec<char>, c: char) -> (r: Vec<char>)
    ensures
        r@ == strip_trailing(s@, c),
{
    let mut j: usize = s.len();
    proof {
        assert(s@.take(s@.len() as int) =~= s@);
    }
    while j > 0 && s[j - 1] == c
        invariant
            j <= s@.len(),
            strip_trailing(s@, c) == strip_trailing(s@.take(j as int), c),
        decreases j,
    {
        proof {
            assert(s@.take(j as int).drop_last() =~= s@.take(j - 1));
        }
        j = j - 1;
    }
    proof {
        assert(s@.take(j as int) =~= s@.subrange(0, j as int));
    }
    slice_chars(s, 0, j)
}

fn header_of_part_exec(p: &Vec<char>) -> (r: Option<(Vec<char>, Vec<char>)>)
    ensures
        match r {
            Some(kv) => header_of_part(p@) == Some((kv.0@, kv.1@)),
            None => header_of_part(p@) is None,
        },
{
    let q = trim_chars(p);
    if q.len() == 0 {
        return None;
    }
    match find_char_exec(&q, ':') {
        None => None,
        Some(i) => {
            proof {
                lemma_find_char(q@, ':');
            }
            let kraw = slice_chars(&q, 0, i);
            let vraw = slice_chars(&q, i + 1, q.len());
            proof {
                assert(kraw@ =~= q@.take(i as int));
                assert(vraw@ =~= q@.skip(i + 1));
            }
            let kt = trim_chars(&kraw);
            let vt = trim_chars(&vraw);
            let k = unquote_chars(&kt);
            let v = unquote_chars(&vt);
            if k.len() > 0 {
                Some((k, v))
            } else {
                None
            }
        },
    }
}

/// Parse a flat `{"Key":"Value",...}` object into its headers, in order
/// (see `headers_of`).
pub fn parse_headers_json(s: &str) -> (r: Vec<(String, String)>)
    ensures
        pair_views_of(r@) == headers_of(s@),
{
    let mut out: Vec<(String, String)> = Vec::new();
    let v = chars_of(s);
    let t = trim_chars(&v);
    if !(t.len() > 0 && t[0] == '{') {
        proof {
            assert(pair_views_of(out@) =~= Seq::<(Seq<char>, Seq<char>)>::empty());
        }
        return out;
    }
    let a = strip_leading_chars(&t, '{');
    let inner = strip_trailing_chars(&a, '}');
    let parts = split_pairs_chars(&inner);
    let ghost ps = char_views_of(parts@);
    let mut i: usize = 0;
    while i < parts.len()
        invariant
            i <= parts@.len(),
            ps == char_views_of(parts@),
            pair_views_of(out@) == headers_of_parts(ps.take(i as int)),
        decreases parts@.len() - i,
    {
        proof {
            assert(ps.take(i + 1).drop_last() =~= ps.take(i as int));
            assert(ps.take(i + 1).last() == parts@[i as int]@);
        }
        match header_of_part_exec(&parts[i]) {
            Some(kv) => {
                let ghost before = out@;
                let k = string_of(&kv.0);
                let val = string_of(&kv.1);
                out.push((k, val));
                proof {
                    assert(pair_views_of(out@) =~= pair_views_of(before).push((kv.0@, kv.1@)));
                }
            },
            None => {},
        }
        i = i + 1;
    }
    proof {
        assert(ps.take(parts@.len() as int) =~= ps);
    }
    out
}

proof fn lemma_hex_digit(n: int)
    requires
        0 <= n < 16,
    ensures
        hex_val(hex_digit(n)) == n,
        hex_digit(n) != '+',
{
}

proof fn lemma_unescape_pair(c: char, d: char, r: Seq<char>)
    requires
        d != 'u',
    ensures
        json_unescaped(seq!['\\', d] + r) == seq![unescape_simple(d)] + json_unescaped(r),
{
    let s = seq!['\\', d] + r;
    assert(s.subrange(2, s.len() as int) =~= r);
}

proof fn lemma_unescape_control(c: char, r: Seq<char>)
    requires
        (c as u32) < 0x20,
    ensures
        json_unescaped(
            seq!['\\', 'u', '0', '0', hex_digit(c as int / 16), hex_digit(c as int % 16)] + r,
        ) == seq![c] + json_unescaped(r),
{
    let v = c as int;
    let s = seq!['\\', 'u', '0', '0', hex_digit(v / 16), hex_digit(v % 16)] + r;
    lemma_hex_digit(v / 16);
    lemma_hex_digit(v % 16);
    let hex = s.subrange(2, 6);
    assert(hex =~= seq!['0', '0', hex_digit(v / 16), hex_digit(v % 16)]);
    assert(s.subrange(6, s.len() as int) =~= r);
    assert(hex_value(hex) == v) by {
        let h3 = seq!['0', '0', hex_digit(v / 16)];
        let h2 = seq!['0', '0'];
        let h1 = seq!['0'];
        assert(hex.drop_last() =~= h3);
        assert(h3.drop_last() =~= h2);
        assert(h2.drop_last() =~= h1);
        assert(h1.drop_last() =~= Seq::<char>::empty());
        assert(h1.last() == '0');
        assert(hex_val('0') == 0);
        assert(hex_value(Seq::<char>::empty()) == 0);
        assert(hex_value(h1) == hex_value(h1.drop_last()) * 16 + hex_val(h1.last()));
        assert(hex_value(h1) == 0);
        assert(hex_value(h2) == 0);
        assert(hex_value(h3) == v / 16);
    }
    assert(all_hex(hex));
    assert(parse_hex_u32(hex) == Some(v as u32));
    assert(char_of_u32(v as u32) == Some(c));
}

proof fn lemma_unescape_escape_char(c: char, r: Seq<char>)
    ensures
        json_unescaped(escape_char(c) + r) == seq![c] + json_unescaped(r),
{
    if c == '"' {
        lemma_unescape_pair(c, '"', r);
    } else if c == '\\' {
        lemma_unescape_pair(c, '\\', r);
    } else if c == '\n' {
        lemma_unescape_pair(c, 'n', r);
    } else if c == '\r' {
        lemma_unescape_pair(c, 'r', r);
    } else if c == '\t' {
        lemma_unescape_pair(c, 't', r);
    } else if (c as u32) < 0x20 {
        lemma_unescape_control(c, r);
    } else {
        let s = escape_char(c) + r;
        assert(s.drop_first() =~= r);
    }
}

/// Unescaping undoes escaping: every string survives a JSON round trip.
pub proof fn lemma_unescape_escape(s: Seq<char>)
    ensures
        json_unescaped(json_escaped(s)) == s,
    decreases s.len(),
{
    if s.len() > 0 {
        lemma_unescape_escape_char(s[0], json_escaped(s.drop_first()));
        lemma_unescape_escape(s.drop_first());
        assert(seq![s[0]] + s.drop_first() =~= s);
    }
}

} // verus!
