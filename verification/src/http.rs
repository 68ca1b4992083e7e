//! Request side of the guest's HTTP bridge: the session cookie jar, redirect
//! resolution, and the decisions of a request that follows redirects by hand
//! (so that cookies set on intermediate responses are kept). The transport
//! itself is driven by the host, which reports each reply back here.

use vstd::prelude::*;

use crate::chars::{
    chars_eq, chars_of, eq_ignore_ascii_case, eq_ignore_ascii_case_exec, find_char,
    find_char_exec, find_seq, find_seq_exec, lemma_find_char, lemma_split_on_len, push_all,
    rfind_char, rfind_char_exec, slice_chars, split_on, starts_with, starts_with_exec, string_of,
    trim, trim_chars, is_ws, lemma_trim_keeps_absent, lemma_trim_of_trimmed,
};
use crate::json::{headers_of, pair_views_of, parse_headers_json};

verus! {

/// Ordered name/value pairs.
pub type Pairs = Seq<(Seq<char>, Seq<char>)>;

/// Position of the pair named `k`.
pub open spec fn key_index(jar: Pairs, k: Seq<char>) -> Option<int>
    decreases jar.len(),
{
    if jar.len() == 0 {
        None
    } else if jar[0].0 == k {
        Some(0)
    } else {
        match key_index(jar.drop_first(), k) {
            Some(i) => Some(i + 1),
            None => None,
        }
    }
}

/// No name occurs twice.
pub open spec fn keys_unique(jar: Pairs) -> bool {
    forall|i: int, j: int| 0 <= i < j < jar.len() ==> jar[i].0 != jar[j].0
}

/// `jar` with `k` set to `v`: replaced in place when present, else appended.
pub open spec fn jar_insert(jar: Pairs, k: Seq<char>, v: Seq<char>) -> Pairs {
    match key_index(jar, k) {
        Some(i) => jar.update(i, (k, v)),
        None => jar.push((k, v)),
    }
}

/// The value of `k` in `jar`.
pub open spec fn jar_get(jar: Pairs, k: Seq<char>) -> Option<Seq<char>> {
    match key_index(jar, k) {
        Some(i) => Some(jar[i].1),
        None => None,
    }
}

/// `name=value`.
pub open spec fn cookie_kv(p: (Seq<char>, Seq<char>)) -> Seq<char> {
    p.0 + seq!['='] + p.1
}

/// The `Cookie` header for a jar: its pairs joined by `"; "`.
pub open spec fn jar_text(jar: Pairs) -> Seq<char>
    decreases jar.len(),
{
    if jar.len() == 0 {
        Seq::empty()
    } else if jar.len() == 1 {
        cookie_kv(jar[0])
    } else {
        jar_text(jar.drop_last()) + seq![';', ' '] + cookie_kv(jar.last())
    }
}

/// A cookie attribute name rather than a cookie (`Path`, `Domain`, ...).
pub open spec fn is_cookie_attr(n: Seq<char>) -> bool {
    ||| eq_ignore_ascii_case(n, seq!['P', 'a', 't', 'h'])
    ||| eq_ignore_ascii_case(n, seq!['D', 'o', 'm', 'a', 'i', 'n'])
    ||| eq_ignore_ascii_case(n, seq!['E', 'x', 'p', 'i', 'r', 'e', 's'])
    ||| eq_ignore_ascii_case(n, seq!['M', 'a', 'x', '-', 'A', 'g', 'e'])
    ||| eq_ignore_ascii_case(n, seq!['S', 'e', 'c', 'u', 'r', 'e'])
    ||| eq_ignore_ascii_case(n, seq!['H', 't', 't', 'p', 'O', 'n', 'l', 'y'])
    ||| eq_ignore_ascii_case(n, seq!['S', 'a', 'm', 'e', 'S', 'i', 't', 'e'])
}

/// One `;`-separated piece of a `Cookie` header taken into the jar:
/// a trimmed `name=value` whose name is neither empty nor an attribute.
pub open spec fn absorb_part(jar: Pairs, part: Seq<char>) -> Pairs {
    let p = trim(part);
    if p.len() == 0 {
        jar
    } else {
        match find_char(p, '=') {
            None => jar,
            Some(i) => {
                let n = trim(p.take(i));
                if n.len() == 0 || is_cookie_attr(n) {
                    jar
                } else {
                    jar_insert(jar, n, trim(p.skip(i + 1)))
                }
            },
        }
    }
}

/// The pieces `parts` taken into the jar, in order.
pub open spec fn absorb_parts(jar: Pairs, parts: Seq<Seq<char>>) -> Pairs
    decreases parts.len(),
{
    if parts.len() == 0 {
        jar
    } else {
        absorb_part(absorb_parts(jar, parts.drop_last()), parts.last())
    }
}

/// The pairs of a `Cookie` header taken into the jar.
pub open spec fn absorb_cookie_header(jar: Pairs, header: Seq<char>) -> Pairs {
    absorb_parts(jar, split_on(header, ';'))
}

/// The cookie a `Set-Cookie` value sets: the trimmed `name=value` before
/// the first `;`, when the name is not empty.
pub open spec fn set_cookie_pair(val: Seq<char>) -> Option<(Seq<char>, Seq<char>)> {
    let first = match find_char(val, ';') {
        Some(i) => val.take(i),
        None => val,
    };
    let nv = trim(first);
    match find_char(nv, '=') {
        None => None,
        Some(i) => {
            let n = trim(nv.take(i));
            if n.len() == 0 {
                None
            } else {
                Some((n, trim(nv.skip(i + 1))))
            }
        },
    }
}

/// The cookie a `Set-Cookie` value sets comes from the text before its
/// first `;`: its name is not empty and holds neither `;` nor `=`, and its
/// value holds no `;`, so no attribute (`Path`, `HttpOnly`, ...) is kept.
pub proof fn lemma_set_cookie_pair_before_attributes(val: Seq<char>)
    ensures
        set_cookie_pair(val) matches Some((n, v)) ==> {
            &&& n.len() > 0
            &&& forall|j: int| 0 <= j < n.len() ==> n[j] != ';' && n[j] != '='
            &&& forall|j: int| 0 <= j < v.len() ==> v[j] != ';'
        },
{
    lemma_find_char(val, ';');
    let first = match find_char(val, ';') {
        Some(i) => val.take(i),
        None => val,
    };
    assert forall|j: int| 0 <= j < first.len() implies first[j] != ';' by {}
    lemma_trim_keeps_absent(first, ';');
    let nv = trim(first);
    lemma_find_char(nv, '=');
    if let Some(i) = find_char(nv, '=') {
        let a = nv.take(i);
        let b = nv.skip(i + 1);
        assert forall|j: int| 0 <= j < a.len() implies a[j] != ';' && a[j] != '=' by {}
        assert forall|j: int| 0 <= j < b.len() implies b[j] != ';' by {
            assert(b[j] == nv[j + i + 1]);
        }
        lemma_trim_keeps_absent(a, ';');
        lemma_trim_keeps_absent(a, '=');
        lemma_trim_keeps_absent(b, ';');
    }
}

/// A `Set-Cookie` value `name=value; attributes` sets exactly `name` to
/// `value`, whatever the attributes, when the name is not empty, holds no
/// `;` or `=`, the value holds no `;`, and neither has whitespace at its ends.
pub proof fn lemma_set_cookie_pair_reads_name_value(n: Seq<char>, v: Seq<char>, rest: Seq<char>)
    requires
        n.len() > 0,
        !is_ws(n[0]),
        !is_ws(n.last()),
        forall|j: int| 0 <= j < n.len() ==> n[j] != ';' && n[j] != '=',
        forall|j: int| 0 <= j < v.len() ==> v[j] != ';',
        v.len() == 0 || (!is_ws(v[0]) && !is_ws(v.last())),
    ensures
        set_cookie_pair(n + seq!['='] + v + seq![';'] + rest) == Some((n, v)),
        set_cookie_pair(n + seq!['='] + v) == Some((n, v)),
{
    let nv = n + seq!['='] + v;
    let val = nv + seq![';'] + rest;
    let k = nv.len() as int;
    assert forall|j: int| 0 <= j < nv.len() implies nv[j] != ';' by {
        if j < n.len() {
            assert(nv[j] == n[j]);
        } else if j > n.len() {
            assert(nv[j] == v[j - n.len() - 1]);
        }
    }
    lemma_find_char(val, ';');
    assert(val[k] == ';');
    assert forall|j: int| 0 <= j < k implies val[j] == nv[j] by {}
    assert(find_char(val, ';') == Some(k)) by {
        let i = find_char(val, ';')->0;
        if i < k {
            assert(val[i] == nv[i]);
        }
    }
    assert(val.take(k) =~= nv);
    lemma_find_char(nv, ';');
    assert(!is_ws('='));
    assert(nv[0] == n[0]);
    if v.len() == 0 {
        assert(nv.last() == '=');
    } else {
        assert(nv.last() == v.last());
    }
    lemma_trim_of_trimmed(nv);
    lemma_find_char(nv, '=');
    assert(nv[n.len() as int] == '=');
    assert(find_char(nv, '=') == Some(n.len() as int)) by {
        let i = find_char(nv, '=')->0;
        if i < n.len() {
            assert(nv[i] == n[i]);
        }
    }
    assert(nv.take(n.len() as int) =~= n);
    assert(nv.skip(n.len() as int + 1) =~= v);
    lemma_trim_of_trimmed(n);
    lemma_trim_of_trimmed(v);
}

/// The cookies of `Set-Cookie` values taken into the jar, in order.
pub open spec fn absorb_set_cookies(jar: Pairs, vals: Seq<Seq<char>>) -> Pairs
    decreases vals.len(),
{
    if vals.len() == 0 {
        jar
    } else {
        let j = absorb_set_cookies(jar, vals.drop_last());
        match set_cookie_pair(vals.last()) {
            Some(kv) => jar_insert(j, kv.0, kv.1),
            None => j,
        }
    }
}

/// `http://`
pub open spec fn http_prefix() -> Seq<char> {
    seq!['h', 't', 't', 'p', ':', '/', '/']
}

/// `https://`
pub open spec fn https_prefix() -> Seq<char> {
    seq!['h', 't', 't', 'p', 's', ':', '/', '/']
}

/// An absolute http(s) URL.
pub open spec fn is_http_url(s: Seq<char>) -> bool {
    starts_with(s, http_prefix()) || starts_with(s, https_prefix())
}

/// Where a redirect from `current` to `location` goes: an absolute
/// location as is; a rooted one on the current origin; a relative one in
/// place of the current last path segment.
pub open spec fn redirect_target(current: Seq<char>, location: Seq<char>) -> Seq<char> {
    if is_http_url(location) {
        location
    } else if location.len() > 0 && location[0] == '/' && find_seq(
        current,
        seq![':', '/', '/'],
    ) is Some {
        let se = find_seq(current, seq![':', '/', '/']).unwrap();
        let origin_end = match find_char(current.skip(se + 3), '/') {
            Some(i) => se + 3 + i,
            None => current.len() as int,
        };
        current.take(origin_end) + location
    } else {
        match rfind_char(current, '/') {
            Some(i) => current.take(i + 1) + location,
            None => location,
        }
    }
}

/// The session cookie jar: ordered, each name once.
pub struct CookieJar {
    entries: Vec<(String, String)>,
}

impl View for CookieJar {
    type V = Pairs;

    closed spec fn view(&self) -> Pairs {
        pair_views_of(self.entries@)
    }
}

proof fn lemma_key_index(jar: Pairs, k: Seq<char>)
    ensures
        match key_index(jar, k) {
            Some(i) => 0 <= i < jar.len() && jar[i].0 == k && forall|j: int|
                0 <= j < i ==> jar[j].0 != k,
            None => forall|j: int| 0 <= j < jar.len() ==> jar[j].0 != k,
        },
    decreases jar.len(),
{
    if jar.len() > 0 {
        lemma_key_index(jar.drop_first(), k);
        if jar[0].0 != k {
            assert forall|j: int| 0 < j < jar.len() implies jar[j] == jar.drop_first()[j - 1] by {}
        }
    }
}

proof fn lemma_key_index_at(jar: Pairs, k: Seq<char>, i: int)
    requires
        0 <= i < jar.len(),
        jar[i].0 == k,
        forall|j: int| 0 <= j < i ==> jar[j].0 != k,
    ensures
        key_index(jar, k) == Some(i),
    decreases i,
{
    if i > 0 {
        lemma_key_index_at(jar.drop_first(), k, i - 1);
    }
}

proof fn lemma_key_index_none(jar: Pairs, k: Seq<char>)
    requires
        forall|j: int| 0 <= j < jar.len() ==> jar[j].0 != k,
    ensures
        key_index(jar, k) is None,
    decreases jar.len(),
{
    if jar.len() > 0 {
        lemma_key_index_none(jar.drop_first(), k);
    }
}

/// Setting a cookie keeps names unique, the cookie reads back as set, and
/// every other cookie reads back unchanged.
pub proof fn lemma_jar_insert(jar: Pairs, k: Seq<char>, v: Seq<char>, other: Seq<char>)
    requires
        keys_unique(jar),
    ensures
        keys_unique(jar_insert(jar, k, v)),
        jar_get(jar_insert(jar, k, v), k) == Some(v),
        other != k ==> jar_get(jar_insert(jar, k, v), other) == jar_get(jar, other),
{
    lemma_key_index(jar, k);
    lemma_key_index(jar, other);
    let r = jar_insert(jar, k, v);
    match key_index(jar, k) {
        Some(i) => {
            lemma_key_index_at(r, k, i);
            match key_index(jar, other) {
                Some(o) => {
                    if other != k {
                        lemma_key_index_at(r, other, o);
                    }
                },
                None => {
                    if other != k {
                        lemma_key_index_none(r, other);
                    }
                },
            }
        },
        None => {
            lemma_key_index_at(r, k, jar.len() as int);
            match key_index(jar, other) {
                Some(o) => {
                    if other != k {
                        lemma_key_index_at(r, other, o);
                    }
                },
                None => {
                    if other != k {
                        lemma_key_index_none(r, other);
                    }
                },
            }
        },
    }
}

/// Cookies are never dropped: whatever Set-Cookie values a reply carries,
/// every cookie name in the jar before is still in it after.
pub proof fn lemma_set_cookies_keep_names(jar: Pairs, vals: Seq<Seq<char>>, k: Seq<char>)
    requires
        keys_unique(jar),
        jar_get(jar, k) is Some,
    ensures
        keys_unique(absorb_set_cookies(jar, vals)),
        jar_get(absorb_set_cookies(jar, vals), k) is Some,
    decreases vals.len(),
{
    if vals.len() > 0 {
        lemma_set_cookies_keep_names(jar, vals.drop_last(), k);
        let j = absorb_set_cookies(jar, vals.drop_last());
        match set_cookie_pair(vals.last()) {
            Some(kv) => {
                lemma_jar_insert(j, kv.0, kv.1, k);
            },
            None => {},
        }
    }
}

impl CookieJar {
    /// Names are unique.
    pub closed spec fn wf(&self) -> bool {
        keys_unique(self@)
    }

    /// An empty jar.
    pub fn new() -> (r: CookieJar)
        ensures
            r@ == Seq::<(Seq<char>, Seq<char>)>::empty(),
            r.wf(),
    {
        let r = CookieJar { entries: Vec::new() };
        assert(r@ =~= Seq::<(Seq<char>, Seq<char>)>::empty());
        r
    }

    /// Number of cookies.
    pub fn len(&self) -> (r: usize)
        ensures
            r == self@.len(),
    {
        self.entries.len()
    }

    /// Set cookie `k` to `v`.
    pub fn insert(&mut self, k: String, v: String)
        requires
            old(self).wf(),
        ensures
            final(self).wf(),
            final(self)@ == jar_insert(old(self)@, k@, v@),
    {
        proof {
            lemma_key_index(self@, k@);
            lemma_jar_insert(self@, k@, v@, k@);
        }
        let mut i: usize = 0;
        while i < self.entries.len()
            invariant
                i <= self.entries@.len(),
                self@ == old(self)@,
                keys_unique(old(self)@),
                forall|j: int| 0 <= j < i ==> self@[j].0 != k@,
            decreases self.entries@.len() - i,
        {
            if self.entries[i].0 == k {
                proof {
                    lemma_key_index_at(self@, k@, i as int);
                }
                let ghost before = self.entries@;
                self.entries.set(i, (k, v));
                proof {
                    assert(self@ =~= pair_views_of(before).update(i as int, (k@, v@)));
                    assert(self@ == jar_insert(old(self)@, k@, v@));
                    lemma_jar_insert(old(self)@, k@, v@, k@);
                }
                return;
            }
            i = i + 1;
        }
        proof {
            lemma_key_index_none(self@, k@);
        }
        let ghost before = self.entries@;
        self.entries.push((k, v));
        proof {
            assert(self@ =~= pair_views_of(before).push((k@, v@)));
            assert(self@ == jar_insert(old(self)@, k@, v@));
        }
    }

    /// The `Cookie` header value: `name=value` pairs joined by `"; "`.
    pub fn header(&self) -> (r: String)
        ensures
            r@ == jar_text(self@),
    {
        let mut out: Vec<char> = Vec::new();
        let mut i: usize = 0;
        while i < self.entries.len()
            invariant
                i <= self.entries@.len(),
                out@ == jar_text(self@.take(i as int)),
            decreases self.entries@.len() - i,
        {
            let ghost t = self@.take(i + 1);
            proof {
                assert(t.drop_last() =~= self@.take(i as int));
                assert(t.last() == self@[i as int]);
            }
            if i > 0 {
                push_all(&mut out, &[';', ' ']);
            }
            let kc = chars_of(self.entries[i].0.as_str());
            let vc = chars_of(self.entries[i].1.as_str());
            let ghost before = out@;
            push_all(&mut out, kc.as_slice());
            out.push('=');
            push_all(&mut out, vc.as_slice());
            proof {
                if i == 0 {
                    assert(out@ =~= cookie_kv(t[0]));
                } else {
                    assert(out@ =~= before + cookie_kv(t.last()));
                }
            }
            i = i + 1;
        }
        proof {
            assert(self@.take(self@.len() as int) =~= self@);
        }
        string_of(&out)
    }

    fn is_cookie_attr_exec(n: &Vec<char>) -> (r: bool)
        ensures
            r == is_cookie_attr(n@),
    {
        eq_ignore_ascii_case_exec(n, &['P', 'a', 't', 'h']) || eq_ignore_ascii_case_exec(
            n,
            &['D', 'o', 'm', 'a', 'i', 'n'],
        ) || eq_ignore_ascii_case_exec(n, &['E', 'x', 'p', 'i', 'r', 'e', 's'])
            || eq_ignore_ascii_case_exec(n, &['M', 'a', 'x', '-', 'A', 'g', 'e'])
            || eq_ignore_ascii_case_exec(n, &['S', 'e', 'c', 'u', 'r', 'e'])
            || eq_ignore_ascii_case_exec(n, &['H', 't', 't', 'p', 'O', 'n', 'l', 'y'])
            || eq_ignore_ascii_case_exec(n, &['S', 'a', 'm', 'e', 'S', 'i', 't', 'e'])
    }

    fn absorb_part_exec(&mut self, part: &Vec<char>)
        requires
            old(self).wf(),
        ensures
            final(self).wf(),
            final(self)@ == absorb_part(old(self)@, part@),
    {
        let p = trim_chars(part);
        if p.len() == 0 {
            return;
        }
        match find_char_exec(&p, '=') {
            None => {},
            Some(i) => {
                proof {
                    lemma_find_char(p@, '=');
                }
                let nraw = slice_chars(&p, 0, i);
                assert(nraw@ =~= p@.take(i as int));
                let n = trim_chars(&nraw);
                if n.len() == 0 || Self::is_cookie_attr_exec(&n) {
                    return;
                }
                let vraw = slice_chars(&p, i + 1, p.len());
                assert(vraw@ =~= p@.skip(i + 1));
                let v = trim_chars(&vraw);
                self.insert(string_of(&n), string_of(&v));
            },
        }
    }

    /// Take the `name=value` pairs of a `Cookie` header into the jar.
    pub fn absorb_cookie_pairs(&mut self, header: &str)
        requires
            old(self).wf(),
        ensures
            final(self).wf(),
            final(self)@ == absorb_cookie_header(old(self)@, header@),
    {
        let ghost jar0 = self@;
        let h = chars_of(header);
        let mut cur: Vec<char> = Vec::new();
        let mut i: usize = 0;
        proof {
            assert(h@.take(0) =~= Seq::<char>::empty());
            assert(split_on(Seq::<char>::empty(), ';').drop_last() =~= Seq::<Seq<char>>::empty());
        }
        while i < h.len()
            invariant
                i <= h@.len(),
                h@ == header@,
                self.wf(),
                ({
                    let parts = split_on(h@.take(i as int), ';');
                    &&& self@ == absorb_parts(jar0, parts.drop_last())
                    &&& cur@ == parts.last()
                }),
            decreases h@.len() - i,
        {
            let c = h[i];
            proof {
                assert(h@.take(i + 1).drop_last() =~= h@.take(i as int));
                assert(h@.take(i + 1).last() == c);
                lemma_split_on_len(h@.take(i as int), ';');
            }
            if c == ';' {
                self.absorb_part_exec(&cur);
                cur = Vec::new();
                proof {
                    let p0 = split_on(h@.take(i as int), ';');
                    let p1 = split_on(h@.take(i + 1), ';');
                    assert(p1.drop_last() =~= p0);
                    assert(p0.drop_last().push(p0.last()) =~= p0);
                }
            } else {
                cur.push(c);
                proof {
                    let p0 = split_on(h@.take(i as int), ';');
                    let p1 = split_on(h@.take(i + 1), ';');
                    assert(p1.drop_last() =~= p0.drop_last());
                }
            }
            i = i + 1;
        }
        proof {
            assert(h@.take(h@.len() as int) =~= h@);
            lemma_split_on_len(h@, ';');
            let parts = split_on(h@, ';');
            assert(parts.drop_last().push(parts.last()) =~= parts);
        }
        self.absorb_part_exec(&cur);
    }

    fn absorb_set_cookie(&mut self, val: &String)
        requires
            old(self).wf(),
        ensures
            final(self).wf(),
            final(self)@ == match set_cookie_pair(val@) {
                Some(kv) => jar_insert(old(self)@, kv.0, kv.1),
                None => old(self)@,
            },
    {
        let v = chars_of(val.as_str());
        let first = match find_char_exec(&v, ';') {
            Some(i) => slice_chars(&v, 0, i),
            None => slice_chars(&v, 0, v.len()),
        };
        proof {
            lemma_find_char(v@, ';');
            assert(v@.subrange(0, v@.len() as int) =~= v@);
            match find_char(v@, ';') {
                Some(i) => assert(v@.subrange(0, i) =~= v@.take(i)),
                None => {},
            }
        }
        let nv = trim_chars(&first);
        match find_char_exec(&nv, '=') {
            None => {},
            Some(i) => {
                proof {
                    lemma_find_char(nv@, '=');
                }
                let nraw = slice_chars(&nv, 0, i);
                assert(nraw@ =~= nv@.take(i as int));
                let n = trim_chars(&nraw);
                if n.len() == 0 {
                    return;
                }
                let vraw = slice_chars(&nv, i + 1, nv.len());
                assert(vraw@ =~= nv@.skip(i + 1));
                let val2 = trim_chars(&vraw);
                self.insert(string_of(&n), string_of(&val2));
            },
        }
    }

    /// Take the cookies of `Set-Cookie` values into the jar, in order.
    pub fn absorb_set_cookies(&mut self, vals: &Vec<String>)
        requires
            old(self).wf(),
        ensures
            final(self).wf(),
            final(self)@ == absorb_set_cookies(old(self)@, vals@.map_values(|s: String| s@)),
    {
        let ghost jar0 = self@;
        let ghost vs = vals@.map_values(|s: String| s@);
        let mut i: usize = 0;
        while i < vals.len()
            invariant
                i <= vals@.len(),
                vs == vals@.map_values(|s: String| s@),
                self.wf(),
                self@ == absorb_set_cookies(jar0, vs.take(i as int)),
            decreases vals@.len() - i,
        {
            proof {
                assert(vs.take(i + 1).drop_last() =~= vs.take(i as int));
                assert(vs.take(i + 1).last() == vals@[i as int]@);
            }
            self.absorb_set_cookie(&vals[i]);
            i = i + 1;
        }
        proof {
            assert(vs.take(vals@.len() as int) =~= vs);
        }
    }
}

/// Where a redirect from `current` to `location` goes (see
/// `redirect_target`).
pub fn resolve_redirect(current: &str, location: &str) -> (r: String)
    ensures
        r@ == redirect_target(current@, location@),
{
    let cur = chars_of(current);
    let loc = chars_of(location);
    if starts_with_exec(&loc, &['h', 't', 't', 'p', ':', '/', '/']) || starts_with_exec(
        &loc,
        &['h', 't', 't', 'p', 's', ':', '/', '/'],
    ) {
        return string_of(&loc);
    }
    if loc.len() > 0 && loc[0] == '/' {
        let sep: [char; 3] = [':', '/', '/'];
        match find_seq_exec(&cur, &sep) {
            Some(se) => {
                assert(sep@ =~= seq![':', '/', '/']);
                let n = cur.len();
                assert(se + 3 <= n);
                let after = slice_chars(&cur, se + 3, n);
                assert(after@ =~= cur@.skip(se + 3));
                let origin_end = match find_char_exec(&after, '/') {
                    Some(i) => se + 3 + i,
                    None => cur.len(),
                };
                let mut out = slice_chars(&cur, 0, origin_end);
                assert(out@ =~= cur@.take(origin_end as int));
                push_all(&mut out, loc.as_slice());
                return string_of(&out);
            },
            None => {},
        }
    }
    let n = cur.len();
    match rfind_char_exec(&cur, '/') {
        Some(i) => {
            assert(i < n);
            let mut out = slice_chars(&cur, 0, i + 1);
            assert(out@ =~= cur@.take(i + 1));
            push_all(&mut out, loc.as_slice());
            string_of(&out)
        },
        None => string_of(&loc),
    }
}

/// Whether `url` is an absolute http(s) URL.
pub fn is_http_url_exec(url: &str) -> (r: bool)
    ensures
        r == is_http_url(url@),
{
    let u = chars_of(url);
    starts_with_exec(&u, &['h', 't', 't', 'p', ':', '/', '/']) || starts_with_exec(
        &u,
        &['h', 't', 't', 'p', 's', ':', '/', '/'],
    )
}

/// Redirects a request follows before it gives up.
pub const MAX_HOPS: u32 = 8;

/// The upper-case form of a string (`str::to_uppercase`).
pub uninterp spec fn uppercased(s: Seq<char>) -> Seq<char>;

/// ASCII upper-casing of one char.
pub open spec fn ascii_upper(c: char) -> char {
    if 'a' <= c <= 'z' {
        ((c as u32) - 32) as char
    } else {
        c
    }
}

/// Every char is ASCII.
pub open spec fn all_ascii(s: Seq<char>) -> bool {
    forall|i: int| 0 <= i < s.len() ==> (s[i] as u32) < 128
}

/// `str::to_uppercase`: the Unicode upper-case mapping of `s`. On ASCII text
/// it maps `a`..`z` to `A`..`Z` and keeps every other char; beyond ASCII the
/// result is only named.
#[verifier::external_body]
fn to_uppercase(s: &str) -> (r: String)
    ensures
        r@ == uppercased(s@),
        all_ascii(s@) ==> r@ == s@.map_values(|c: char| ascii_upper(c)),
{
    s.to_uppercase()
}

/// `GET`
pub open spec fn get_method() -> Seq<char> {
    seq!['G', 'E', 'T']
}

/// `POST`
pub open spec fn post_method() -> Seq<char> {
    seq!['P', 'O', 'S', 'T']
}

/// `PUT`
pub open spec fn put_method() -> Seq<char> {
    seq!['P', 'U', 'T']
}

/// A method the bridge sends.
pub open spec fn is_supported_method(m: Seq<char>) -> bool {
    m == get_method() || m == post_method() || m == put_method()
}

/// The jar seeded from the `Cookie` request headers, in order.
pub open spec fn jar_of_headers(jar: Pairs, hs: Pairs) -> Pairs
    decreases hs.len(),
{
    if hs.len() == 0 {
        jar
    } else {
        let j = jar_of_headers(jar, hs.drop_last());
        if eq_ignore_ascii_case(hs.last().0, seq!['c', 'o', 'o', 'k', 'i', 'e']) {
            absorb_cookie_header(j, hs.last().1)
        } else {
            j
        }
    }
}

/// The request headers other than `Cookie`, in order.
pub open spec fn non_cookie_headers(hs: Pairs) -> Pairs
    decreases hs.len(),
{
    if hs.len() == 0 {
        Seq::empty()
    } else {
        let h = non_cookie_headers(hs.drop_last());
        if eq_ignore_ascii_case(hs.last().0, seq!['c', 'o', 'o', 'k', 'i', 'e']) {
            h
        } else {
            h.push(hs.last())
        }
    }
}

/// `User-Agent`
pub open spec fn user_agent_name() -> Seq<char> {
    seq!['U', 's', 'e', 'r', '-', 'A', 'g', 'e', 'n', 't']
}

/// The agent string the bridge sends.
pub open spec fn user_agent_value() -> Seq<char> {
    seq![
        'P', 'o', 'c', 'k', 'e', 't', 'J', 'S', '-', 'K', 'i', 'n', 'd', 'l', 'e', '-', 'M', 'a',
        'n', 'g', 'a', '/', '0', '.', '1',
    ]
}

/// `Cookie`
pub open spec fn cookie_name() -> Seq<char> {
    seq!['C', 'o', 'o', 'k', 'i', 'e']
}

/// Why a request could not complete.
pub enum HttpError {
    /// The URL is not an absolute http(s) URL.
    NotHttp,
    /// The (upper-cased) method is not GET, POST or PUT.
    UnsupportedMethod(String),
    /// A redirect status without a `Location`.
    RedirectWithoutLocation { code: u16, url: String },
    /// Still redirected after the last hop.
    GaveUp { url: String },
}

/// What the host learned from one round trip.
pub struct HttpReply {
    /// The response status.
    pub status: u16,
    /// The transport reported the status as an error (rather than a response).
    pub error_status: bool,
    /// The `Set-Cookie` values of the response.
    pub set_cookies: Vec<String>,
    /// The `Location` header, if any.
    pub location: Option<String>,
}

/// What to do after a reply.
pub enum HttpStep {
    /// Send the request again (to its new URL).
    Redirect,
    /// Read the body: the request is done with this status.
    Finish(u16),
    /// The request failed.
    Fail(HttpError),
}

/// The outcome of a completed request.
pub struct HttpResult {
    pub status: u16,
    pub body: String,
    /// The whole cookie jar as a `Cookie` header value.
    pub set_cookie: String,
}

/// Abstract state of a request in flight.
pub struct HttpRequestView {
    pub method: Seq<char>,
    pub url: Seq<char>,
    pub body: Seq<char>,
    pub headers: Pairs,
    pub jar: Pairs,
    pub hops: nat,
}

/// A request in flight: method, URL and body of the next hop, the caller's
/// headers, and the cookie jar gathered so far.
pub struct HttpRequest {
    method: String,
    url: String,
    body: String,
    headers: Vec<(String, String)>,
    jar: CookieJar,
    hops: u32,
}

impl View for HttpRequest {
    type V = HttpRequestView;

    closed spec fn view(&self) -> HttpRequestView {
        HttpRequestView {
            method: self.method@,
            url: self.url@,
            body: self.body@,
            headers: pair_views_of(self.headers@),
            jar: self.jar@,
            hops: self.hops as nat,
        }
    }
}

/// The headers of the next hop: the agent, the caller's headers other than
/// `Cookie`, then the jar as `Cookie` when it is not empty.
pub open spec fn hop_headers(st: HttpRequestView) -> Pairs {
    let base = seq![(user_agent_name(), user_agent_value())] + non_cookie_headers(st.headers);
    if jar_text(st.jar).len() > 0 {
        base.push((cookie_name(), jar_text(st.jar)))
    } else {
        base
    }
}

/// A 3xx status.
pub open spec fn is_redirect(status: u16) -> bool {
    300 <= status < 400
}

fn pair_of(k: &Vec<char>, v: &Vec<char>) -> (r: (String, String))
    ensures
        r.0@ == k@,
        r.1@ == v@,
{
    (string_of(k), string_of(v))
}

impl HttpRequest {
    /// The jar is well formed and fewer than `MAX_HOPS` redirects were taken.
    pub closed spec fn wf(&self) -> bool {
        self.jar.wf() && self.hops < MAX_HOPS
    }

    /// Start a request: the URL must be http(s) and the upper-cased method
    /// GET, POST or PUT; the `Cookie` headers seed the jar.
    pub fn begin(method: &str, url: &str, headers_json: &str, body: &str) -> (r: Result<
        HttpRequest,
        HttpError,
    >)
        ensures
            !is_http_url(url@) ==> r matches Err(HttpError::NotHttp),
            is_http_url(url@) && !is_supported_method(uppercased(method@)) ==> (r matches Err(
                HttpError::UnsupportedMethod(m),
            ) && m@ == uppercased(method@)),
            is_http_url(url@) && is_supported_method(uppercased(method@)) ==> (r matches Ok(q)
                && q.wf() && q@ == (HttpRequestView {
                method: uppercased(method@),
                url: url@,
                body: body@,
                headers: headers_of(headers_json@),
                jar: jar_of_headers(Seq::empty(), headers_of(headers_json@)),
                hops: 0,
            })),
    {
        if !is_http_url_exec(url) {
            return Err(HttpError::NotHttp);
        }
        let m = to_uppercase(method);
        Self::begin_upper(m, url, headers_json, body)
    }

    /// Start a request whose method is already upper-cased (see `begin`):
    /// the URL must be http(s) and `method` GET, POST or PUT; the `Cookie`
    /// headers seed the jar.
    pub fn begin_upper(method: String, url: &str, headers_json: &str, body: &str) -> (r: Result<
        HttpRequest,
        HttpError,
    >)
        ensures
            !is_http_url(url@) ==> r matches Err(HttpError::NotHttp),
            is_http_url(url@) && !is_supported_method(method@) ==> (r matches Err(
                HttpError::UnsupportedMethod(m),
            ) && m@ == method@),
            is_http_url(url@) && is_supported_method(method@) ==> (r matches Ok(q) && q.wf()
                && q@ == (HttpRequestView {
                method: method@,
                url: url@,
                body: body@,
                headers: headers_of(headers_json@),
                jar: jar_of_headers(Seq::empty(), headers_of(headers_json@)),
                hops: 0,
            })),
    {
        if !is_http_url_exec(url) {
            return Err(HttpError::NotHttp);
        }
        let m = method;
        let mc = chars_of(m.as_str());
        if !(chars_eq(&mc, &['G', 'E', 'T']) || chars_eq(&mc, &['P', 'O', 'S', 'T']) || chars_eq(
            &mc,
            &['P', 'U', 'T'],
        )) {
            return Err(HttpError::UnsupportedMethod(m));
        }
        let headers = parse_headers_json(headers_json);
        let ghost hs = pair_views_of(headers@);
        let mut jar = CookieJar::new();
        let mut i: usize = 0;
        while i < headers.len()
            invariant
                i <= headers@.len(),
                hs == pair_views_of(headers@),
                jar.wf(),
                jar@ == jar_of_headers(Seq::empty(), hs.take(i as int)),
            decreases headers@.len() - i,
        {
            proof {
                assert(hs.take(i + 1).drop_last() =~= hs.take(i as int));
                assert(hs.take(i + 1).last() == (headers@[i as int].0@, headers@[i as int].1@));
            }
            let k = chars_of(headers[i].0.as_str());
            if eq_ignore_ascii_case_exec(&k, &['c', 'o', 'o', 'k', 'i', 'e']) {
                jar.absorb_cookie_pairs(headers[i].1.as_str());
            }
            i = i + 1;
        }
        proof {
            assert(hs.take(headers@.len() as int) =~= hs);
        }
        let body_s = string_of(&chars_of(body));
        let url_s = string_of(&chars_of(url));
        Ok(HttpRequest { method: m, url: url_s, body: body_s, headers, jar, hops: 0 })
    }

    /// Method of the next hop.
    pub fn method(&self) -> (r: &str)
        ensures
            r@ == self@.method,
    {
        self.method.as_str()
    }

    /// URL of the next hop.
    pub fn url(&self) -> (r: &str)
        ensures
            r@ == self@.url,
    {
        self.url.as_str()
    }

    /// Body of the next hop.
    pub fn body(&self) -> (r: &str)
        ensures
            r@ == self@.body,
    {
        self.body.as_str()
    }

    /// The next hop sends its body: not a GET and the body is not empty.
    pub fn sends_body(&self) -> (r: bool)
        ensures
            r == !(self@.method == get_method() || self@.body.len() == 0),
    {
        let mc = chars_of(self.method.as_str());
        let bc = chars_of(self.body.as_str());
        !(chars_eq(&mc, &['G', 'E', 'T']) || bc.len() == 0)
    }

    /// The headers of the next hop, in the order they are set.
    pub fn hop_headers(&self) -> (r: Vec<(String, String)>)
        ensures
            pair_views_of(r@) == hop_headers(self@),
    {
        let mut out: Vec<(String, String)> = Vec::new();
        let ua_k = vec!['U', 's', 'e', 'r', '-', 'A', 'g', 'e', 'n', 't'];
        let ua_v = vec![
            'P', 'o', 'c', 'k', 'e', 't', 'J', 'S', '-', 'K', 'i', 'n', 'd', 'l', 'e', '-', 'M', 'a',
            'n', 'g', 'a', '/', '0', '.', '1',
        ];
        out.push(pair_of(&ua_k, &ua_v));
        let ghost hs = pair_views_of(self.headers@);
        proof {
            assert(pair_views_of(out@) =~= seq![(user_agent_name(), user_agent_value())]
                + non_cookie_headers(hs.take(0)));
        }
        let mut i: usize = 0;
        while i < self.headers.len()
            invariant
                i <= self.headers@.len(),
                hs == pair_views_of(self.headers@),
                pair_views_of(out@) == seq![(user_agent_name(), user_agent_value())]
                    + non_cookie_headers(hs.take(i as int)),
            decreases self.headers@.len() - i,
        {
            proof {
                assert(hs.take(i + 1).drop_last() =~= hs.take(i as int));
                assert(hs.take(i + 1).last() == (self.headers@[i as int].0@,
                    self.headers@[i as int].1@));
            }
            let k = chars_of(self.headers[i].0.as_str());
            if !eq_ignore_ascii_case_exec(&k, &['c', 'o', 'o', 'k', 'i', 'e']) {
                let v = chars_of(self.headers[i].1.as_str());
                let ghost before = out@;
                out.push(pair_of(&k, &v));
                proof {
                    assert(pair_views_of(out@) =~= pair_views_of(before).push((k@, v@)));
                }
            }
            i = i + 1;
        }
        proof {
            assert(hs.take(self.headers@.len() as int) =~= hs);
        }
        let jh = self.jar.header();
        let jc = chars_of(jh.as_str());
        if jc.len() > 0 {
            let ck = vec!['C', 'o', 'o', 'k', 'i', 'e'];
            let ghost before = out@;
            out.push(pair_of(&ck, &jc));
            proof {
                assert(pair_views_of(out@) =~= pair_views_of(before).push(
                    (cookie_name(), jar_text(self@.jar)),
                ));
            }
        }
        out
    }

    /// Take a reply into account: its cookies join the jar; a redirect
    /// moves the request to its target (a POST, and anything answered with
    /// 303, continues as a body-less GET); any other status finishes it.
    pub fn on_reply(&mut self, reply: &HttpReply) -> (r: HttpStep)
        requires
            old(self).wf(),
        ensures
            final(self)@.jar == absorb_set_cookies(
                old(self)@.jar,
                reply.set_cookies@.map_values(|s: String| s@),
            ),
            final(self)@.headers == old(self)@.headers,
            !(reply.error_status && is_redirect(reply.status)) ==> {
                &&& r == HttpStep::Finish(reply.status)
                &&& final(self)@.method == old(self)@.method
                &&& final(self)@.url == old(self)@.url
                &&& final(self)@.body == old(self)@.body
                &&& final(self)@.hops == old(self)@.hops
                &&& final(self).wf()
            },
            reply.error_status && is_redirect(reply.status) && reply.location is None ==> {
                &&& r matches HttpStep::Fail(HttpError::RedirectWithoutLocation { code, url })
                &&& code == reply.status
                &&& url@ == old(self)@.url
                &&& final(self)@.method == old(self)@.method
                &&& final(self)@.url == old(self)@.url
                &&& final(self)@.body == old(self)@.body
                &&& final(self)@.hops == old(self)@.hops
            },
            reply.error_status && is_redirect(reply.status) && reply.location is Some ==> {
                let to_get = old(self)@.method == post_method() || reply.status == 303;
                &&& final(self)@.url == redirect_target(
                    old(self)@.url,
                    reply.location.unwrap()@,
                )
                &&& final(self)@.method == (if to_get {
                    get_method()
                } else {
                    old(self)@.method
                })
                &&& final(self)@.body == (if to_get {
                    Seq::<char>::empty()
                } else {
                    old(self)@.body
                })
                &&& final(self)@.hops == old(self)@.hops + 1
                &&& if final(self)@.hops >= MAX_HOPS {
                    (r matches HttpStep::Fail(HttpError::GaveUp { url }) && url@ == final(self)@.url)
                } else {
                    r == HttpStep::Redirect && final(self).wf()
                }
            },
    {
        self.jar.absorb_set_cookies(&reply.set_cookies);
        if !(reply.error_status && 300 <= reply.status && reply.status < 400) {
            return HttpStep::Finish(reply.status);
        }
        match &reply.location {
            None => {
                let u = string_of(&chars_of(self.url.as_str()));
                HttpStep::Fail(HttpError::RedirectWithoutLocation { code: reply.status, url: u })
            },
            Some(loc) => {
                self.url = resolve_redirect(self.url.as_str(), loc.as_str());
                let mc = chars_of(self.method.as_str());
                if chars_eq(&mc, &['P', 'O', 'S', 'T']) || reply.status == 303 {
                    self.method = string_of(&vec!['G', 'E', 'T']);
                    self.body = String::new();
                }
                self.hops = self.hops + 1;
                if self.hops >= MAX_HOPS {
                    let u = string_of(&chars_of(self.url.as_str()));
                    HttpStep::Fail(HttpError::GaveUp { url: u })
                } else {
                    HttpStep::Redirect
                }
            },
        }
    }

    /// Complete the request with the final status and body; the jar goes
    /// back as one `Cookie` value. A zero status means no hop finished.
    pub fn finish(&self, status: u16, body: String) -> (r: Result<HttpResult, HttpError>)
        ensures
            status == 0 ==> (r matches Err(HttpError::GaveUp { url }) && url@ == self@.url),
            status != 0 ==> (r matches Ok(res) && res.status == status && res.body@ == body@
                && res.set_cookie@ == jar_text(self@.jar)),
    {
        if status == 0 {
            let u = string_of(&chars_of(self.url.as_str()));
            return Err(HttpError::GaveUp { url: u });
        }
        Ok(HttpResult { status, body, set_cookie: self.jar.header() })
    }
}

} // verus!
