//! State behind the guest's `manga` surface for the reader host path: the
//! page underlay and its progress stamp, the small decoded-page cache, the
//! job table for page loads and HTTP requests, the queue of characters for
//! runtime font injection, and the sandbox for small config files. The host
//! owns the threads, the network and the disk; it drives this state.

use std::collections::HashMap;

use vstd::prelude::*;

use crate::chars::{
    chars_eq, chars_of, dec_digits, lemma_split_on_len, push_all, push_decimal, split_on,
    starts_with, string_of, strip_leading,
};
use crate::http::HttpResult;
use crate::chars::slice_chars;
use crate::json::{char_views_of, escape_chars, json_escaped};
use crate::remote_image::GrayPage;

verus! {

broadcast use vstd::std_specs::hash::group_hash_axioms;

/// Decoded pages kept: current, next and previous.
pub const PAGE_CACHE_MAX: usize = 3;

/// Largest config file read or written, in bytes.
pub const FILE_CAP: usize = 256 * 1024;

/// A page as plain values: width, height, pixels.
pub type PageView = (usize, usize, Seq<u8>);

/// A finished HTTP request as plain values: status, body, cookie header.
pub type HttpView = (u16, Seq<char>, Seq<char>);

/// The plain value of a page.
pub open spec fn page_view(p: GrayPage) -> PageView {
    (p.width, p.height, p.pixels@)
}

/// The plain value of an optional page.
pub open spec fn opt_page_view(p: Option<GrayPage>) -> Option<PageView> {
    match p {
        Some(g) => Some(page_view(g)),
        None => None,
    }
}

/// The plain value of a finished request.
pub open spec fn http_view(r: HttpResult) -> HttpView {
    (r.status, r.body@, r.set_cookie@)
}

/// State of a background job.
pub enum JobState {
    Pending,
    Ready,
    Error(String),
}

/// State of a background job, as plain values.
pub enum JobView {
    Pending,
    Ready,
    Error(Seq<char>),
}

impl View for JobState {
    type V = JobView;

    open spec fn view(&self) -> JobView {
        match self {
            JobState::Pending => JobView::Pending,
            JobState::Ready => JobView::Ready,
            JobState::Error(e) => JobView::Error(e@),
        }
    }
}

/// Abstract state of the surface.
pub struct MangaView {
    pub page: Option<PageView>,
    pub page_clean: Option<PageView>,
    pub page_dirty: bool,
    pub progress: Seq<char>,
    pub cache: Seq<(Seq<char>, PageView)>,
    pub next_job: u32,
    pub jobs: Map<u32, JobView>,
    pub http: Map<u32, HttpView>,
    pub ensure_chars: Seq<char>,
    pub panel_w: usize,
    pub panel_h: usize,
    pub data_root: Seq<char>,
}

/// The surface after `text` is queued for runtime font injection.
pub open spec fn after_queue(v: MangaView, text: Seq<char>) -> MangaView {
    MangaView { ensure_chars: v.ensure_chars + text, ..v }
}

/// Queued characters come back concatenated: queueing `t1` then `t2` is
/// queueing `t1 + t2`, so a drain after calls on an empty queue returns
/// their texts joined in order.
pub proof fn lemma_queued_chars_concatenate(v: MangaView, t1: Seq<char>, t2: Seq<char>)
    ensures
        after_queue(after_queue(v, t1), t2) == after_queue(v, t1 + t2),
        v.ensure_chars.len() == 0 ==> after_queue(after_queue(v, t1), t2).ensure_chars == t1 + t2,
{
    assert(v.ensure_chars + t1 + t2 =~= v.ensure_chars + (t1 + t2));
    if v.ensure_chars.len() == 0 {
        assert(v.ensure_chars + (t1 + t2) =~= t1 + t2);
    }
}

/// The job id allocated after `id`: the next one, wrapping to 0.
pub open spec fn job_step(id: u32) -> u32 {
    if id == u32::MAX {
        0
    } else {
        (id + 1) as u32
    }
}

/// The id handed out `j` allocations after `id`.
pub open spec fn nth_job_id(id: u32, j: nat) -> u32
    decreases j,
{
    if j == 0 {
        id
    } else {
        job_step(nth_job_id(id, (j - 1) as nat))
    }
}

proof fn lemma_nth_job_id(id: u32, j: nat)
    requires
        j < 0x1_0000_0000,
    ensures
        nth_job_id(id, j) == if id + j < 0x1_0000_0000 {
            id + j
        } else {
            id + j - 0x1_0000_0000
        },
    decreases j,
{
    if j > 0 {
        lemma_nth_job_id(id, (j - 1) as nat);
    }
}

/// Job ids are fresh: up to 2^32 allocations in a row hand out distinct ids.
pub proof fn lemma_job_ids_fresh(id: u32, j: nat, k: nat)
    requires
        j < k < 0x1_0000_0000,
    ensures
        nth_job_id(id, j) != nth_job_id(id, k),
{
    lemma_nth_job_id(id, j);
    lemma_nth_job_id(id, k);
}

/// Position of the cache entry for `url`.
pub open spec fn cache_index(c: Seq<(Seq<char>, PageView)>, url: Seq<char>) -> Option<int>
    decreases c.len(),
{
    if c.len() == 0 {
        None
    } else if c[0].0 == url {
        Some(0)
    } else {
        match cache_index(c.drop_first(), url) {
            Some(i) => Some(i + 1),
            None => None,
        }
    }
}

/// Each URL cached once, at most `PAGE_CACHE_MAX` pages.
pub open spec fn cache_ok(c: Seq<(Seq<char>, PageView)>) -> bool {
    &&& c.len() <= PAGE_CACHE_MAX
    &&& forall|i: int, j: int| 0 <= i < j < c.len() ==> c[i].0 != c[j].0
}

/// The cache after storing `page` for `url`: replaced in place or appended;
/// past the cap the oldest entry of another URL is dropped.
pub open spec fn cache_put(c: Seq<(Seq<char>, PageView)>, url: Seq<char>, page: PageView) -> Seq<
    (Seq<char>, PageView),
> {
    let c1 = match cache_index(c, url) {
        Some(i) => c.update(i, (url, page)),
        None => c.push((url, page)),
    };
    if c1.len() > PAGE_CACHE_MAX {
        if c1[0].0 != url {
            c1.remove(0)
        } else {
            c1.remove(1)
        }
    } else {
        c1
    }
}

/// A page stored for a URL is what a later lookup of that URL finds, and the
/// cache stays within its bound with each URL once.
pub proof fn lemma_cache_put_finds(c: Seq<(Seq<char>, PageView)>, url: Seq<char>, page: PageView)
    requires
        cache_ok(c),
    ensures
        cache_ok(cache_put(c, url, page)),
        cache_index(cache_put(c, url, page), url) matches Some(i) && cache_put(c, url, page)[i].1
            == page,
{
    lemma_cache_index(c, url);
    let c1 = match cache_index(c, url) {
        Some(i) => c.update(i, (url, page)),
        None => c.push((url, page)),
    };
    let j: int = match cache_index(c, url) {
        Some(i) => i,
        None => c.len() as int,
    };
    assert(c1[j] == (url, page));
    assert forall|a: int, b: int| 0 <= a < b < c1.len() implies c1[a].0 != c1[b].0 by {
        if a != j && b != j {
            assert(c1[a] == c[a] && c1[b] == c[b]);
        } else if a == j {
            assert(c1[b] == c[b]);
        } else {
            assert(c1[a] == c[a]);
        }
    }
    let r = cache_put(c, url, page);
    if c1.len() > PAGE_CACHE_MAX {
        let v: int = if c1[0].0 != url {
            0
        } else {
            1
        };
        assert(v != j);
        let jr: int = if j < v {
            j
        } else {
            j - 1
        };
        assert(r == c1.remove(v));
        assert(r[jr] == (url, page));
        assert forall|a: int, b: int| 0 <= a < b < r.len() implies r[a].0 != r[b].0 by {
            let ia: int = if a < v {
                a
            } else {
                a + 1
            };
            let ib: int = if b < v {
                b
            } else {
                b + 1
            };
            assert(r[a] == c1[ia]);
            assert(r[b] == c1[ib]);
        }
        assert forall|k: int| 0 <= k < jr implies r[k].0 != url by {
            let ik: int = if k < v {
                k
            } else {
                k + 1
            };
            assert(r[k] == c1[ik]);
        }
        lemma_cache_index_at(r, url, jr);
    } else {
        assert(r == c1);
        lemma_cache_index_at(r, url, j);
    }
}

/// The surface after showing `page`: it becomes the underlay (and its
/// clean copy) and the underlay is marked changed.
pub open spec fn shown(st: MangaView, page: PageView) -> MangaView {
    MangaView { page: Some(page), page_clean: Some(page), page_dirty: true, ..st }
}

/// `pending`
pub open spec fn pending_text() -> Seq<char> {
    seq!['p', 'e', 'n', 'd', 'i', 'n', 'g']
}

/// `ready`
pub open spec fn ready_text() -> Seq<char> {
    seq!['r', 'e', 'a', 'd', 'y']
}

/// `error:`
pub open spec fn error_prefix() -> Seq<char> {
    seq!['e', 'r', 'r', 'o', 'r', ':']
}

/// `unknown-job`
pub open spec fn unknown_job_text() -> Seq<char> {
    seq!['u', 'n', 'k', 'n', 'o', 'w', 'n', '-', 'j', 'o', 'b']
}

/// What `jobStatus` answers for a job.
pub open spec fn status_text(j: Option<JobView>) -> Seq<char> {
    match j {
        Some(JobView::Pending) => pending_text(),
        Some(JobView::Ready) => ready_text(),
        Some(JobView::Error(e)) => error_prefix() + e,
        None => error_prefix() + unknown_job_text(),
    }
}

/// `{"status":N,"body":"...","setCookie":"..."}` for a finished request.
pub open spec fn http_json(r: HttpView) -> Seq<char> {
    seq!['{', '"', 's', 't', 'a', 't', 'u', 's', '"', ':'] + dec_digits(r.0 as nat) + seq![
        ',',
        '"',
        'b',
        'o',
        'd',
        'y',
        '"',
        ':',
        '"',
    ] + json_escaped(r.1) + seq![
        '"',
        ',',
        '"',
        's',
        'e',
        't',
        'C',
        'o',
        'o',
        'k',
        'i',
        'e',
        '"',
        ':',
        '"',
    ] + json_escaped(r.2) + seq!['"', '}']
}

/// Why a config path was refused.
#[derive(Clone, Copy, Debug, PartialEq, Eq, Structural)]
pub enum PathError {
    /// Nothing is left after the leading slashes, or the path holds a NUL.
    Empty,
    /// A `..` component would leave the sandbox.
    Escapes,
}

/// `..`
pub open spec fn parent_dir() -> Seq<char> {
    seq!['.', '.']
}

/// `base` with one more path component (`PathBuf::push` of a plain name):
/// a separator goes between unless `base` is empty or already ends in one.
pub open spec fn path_push(base: Seq<char>, name: Seq<char>) -> Seq<char> {
    if base.len() > 0 && base.last() != '/' {
        base + seq!['/'] + name
    } else {
        base + name
    }
}

/// `base` followed by the components `pieces`: empty and `.` pieces are
/// skipped, `..` escapes.
pub open spec fn path_join(base: Seq<char>, pieces: Seq<Seq<char>>) -> Result<Seq<char>, PathError>
    decreases pieces.len(),
{
    if pieces.len() == 0 {
        Ok(base)
    } else {
        match path_join(base, pieces.drop_last()) {
            Err(e) => Err(e),
            Ok(p) => {
                let c = pieces.last();
                if c.len() == 0 || c == seq!['.'] {
                    Ok(p)
                } else if c == parent_dir() {
                    Err(PathError::Escapes)
                } else {
                    Ok(path_push(p, c))
                }
            },
        }
    }
}

/// Where a config path relative to the sandbox root goes: leading slashes
/// dropped, then its components joined onto the root.
pub open spec fn data_path(root: Seq<char>, rel: Seq<char>) -> Result<Seq<char>, PathError> {
    let r = strip_leading(rel, '/');
    if r.len() == 0 || r.contains('\0') {
        Err(PathError::Empty)
    } else {
        path_join(root, split_on(r, '/'))
    }
}

/// Whatever resolves stays under the sandbox root.
pub proof fn lemma_data_path_in_root(root: Seq<char>, rel: Seq<char>)
    ensures
        data_path(root, rel) matches Ok(p) ==> starts_with(p, root),
{
    let r = strip_leading(rel, '/');
    if !(r.len() == 0 || r.contains('\0')) {
        lemma_path_join_extends(root, split_on(r, '/'));
    }
}

proof fn lemma_path_join_parent(base: Seq<char>, pieces: Seq<Seq<char>>, i: int)
    requires
        0 <= i < pieces.len(),
        pieces[i] == parent_dir(),
    ensures
        path_join(base, pieces) is Err,
    decreases pieces.len(),
{
    if i < pieces.len() - 1 {
        assert(pieces.drop_last()[i] == pieces[i]);
        lemma_path_join_parent(base, pieces.drop_last(), i);
    } else {
        assert(pieces.last() == parent_dir());
        assert(pieces.last() != seq!['.']) by {
            assert(pieces.last().len() == 2);
        }
    }
}

/// A `..` component anywhere in the path (after its leading slashes) is
/// refused, whatever comes before or after it.
pub proof fn lemma_data_path_refuses_parent(root: Seq<char>, rel: Seq<char>, i: int)
    requires
        0 <= i < split_on(strip_leading(rel, '/'), '/').len(),
        split_on(strip_leading(rel, '/'), '/')[i] == parent_dir(),
    ensures
        data_path(root, rel) is Err,
{
    let r = strip_leading(rel, '/');
    if !(r.len() == 0 || r.contains('\0')) {
        lemma_path_join_parent(root, split_on(r, '/'), i);
    }
}

proof fn lemma_path_join_extends(base: Seq<char>, pieces: Seq<Seq<char>>)
    ensures
        path_join(base, pieces) matches Ok(p) ==> starts_with(p, base),
    decreases pieces.len(),
{
    if pieces.len() == 0 {
        assert(base.take(base.len() as int) =~= base);
    } else {
        lemma_path_join_extends(base, pieces.drop_last());
        match path_join(base, pieces.drop_last()) {
            Err(_) => {},
            Ok(p) => {
                let c = pieces.last();
                let q = path_push(p, c);
                assert(q.take(p.len() as int) =~= p);
                assert(q.take(base.len() as int) =~= p.take(base.len() as int));
            },
        }
    }
}

/// Why a config file was refused.
#[derive(Clone, Copy, Debug, PartialEq, Eq, Structural)]
pub enum FileError {
    /// Larger than `FILE_CAP` bytes.
    TooLarge,
}

/// Accept a config file of `len` bytes: at most `FILE_CAP`.
pub fn check_file_len(len: usize) -> (r: Result<(), FileError>)
    ensures
        r is Ok <==> len <= FILE_CAP,
        r is Err ==> r == Err::<(), FileError>(FileError::TooLarge),
{
    if len > FILE_CAP {
        Err(FileError::TooLarge)
    } else {
        Ok(())
    }
}

/// 5x7 bitmap rows (MSB left) of the progress glyphs `0`-`9` and `/`.
pub open spec fn glyph_bits(c: char) -> Option<Seq<u8>> {
    if c == '0' {
        Some(seq![0b01110, 0b10001, 0b10001, 0b10001, 0b10001, 0b10001, 0b01110])
    } else if c == '1' {
        Some(seq![0b00100, 0b01100, 0b00100, 0b00100, 0b00100, 0b00100, 0b01110])
    } else if c == '2' {
        Some(seq![0b01110, 0b10001, 0b00001, 0b00110, 0b01000, 0b10000, 0b11111])
    } else if c == '3' {
        Some(seq![0b11110, 0b00001, 0b00001, 0b01110, 0b00001, 0b00001, 0b11110])
    } else if c == '4' {
        Some(seq![0b00010, 0b00110, 0b01010, 0b10010, 0b11111, 0b00010, 0b00010])
    } else if c == '5' {
        Some(seq![0b11111, 0b10000, 0b10000, 0b11110, 0b00001, 0b00001, 0b11110])
    } else if c == '6' {
        Some(seq![0b01110, 0b10000, 0b10000, 0b11110, 0b10001, 0b10001, 0b01110])
    } else if c == '7' {
        Some(seq![0b11111, 0b00001, 0b00010, 0b00100, 0b01000, 0b01000, 0b01000])
    } else if c == '8' {
        Some(seq![0b01110, 0b10001, 0b10001, 0b01110, 0b10001, 0b10001, 0b01110])
    } else if c == '9' {
        Some(seq![0b01110, 0b10001, 0b10001, 0b01111, 0b00001, 0b00001, 0b01110])
    } else if c == '/' {
        Some(seq![0b00001, 0b00010, 0b00100, 0b01000, 0b01000, 0b10000, 0b10000])
    } else {
        None
    }
}

/// 5x7 digit glyph rows (bit rows, MSB left) for `0`-`9` and `/`.
pub fn glyph5x7(ch: char) -> (r: Option<[u8; 7]>)
    ensures
        match r {
            Some(g) => glyph_bits(ch) == Some(g@),
            None => glyph_bits(ch) is None,
        },
{
    let g: [u8; 7] = if ch == '0' {
        [0b01110, 0b10001, 0b10001, 0b10001, 0b10001, 0b10001, 0b01110]
    } else if ch == '1' {
        [0b00100, 0b01100, 0b00100, 0b00100, 0b00100, 0b00100, 0b01110]
    } else if ch == '2' {
        [0b01110, 0b10001, 0b00001, 0b00110, 0b01000, 0b10000, 0b11111]
    } else if ch == '3' {
        [0b11110, 0b00001, 0b00001, 0b01110, 0b00001, 0b00001, 0b11110]
    } else if ch == '4' {
        [0b00010, 0b00110, 0b01010, 0b10010, 0b11111, 0b00010, 0b00010]
    } else if ch == '5' {
        [0b11111, 0b10000, 0b10000, 0b11110, 0b00001, 0b00001, 0b11110]
    } else if ch == '6' {
        [0b01110, 0b10000, 0b10000, 0b11110, 0b10001, 0b10001, 0b01110]
    } else if ch == '7' {
        [0b11111, 0b00001, 0b00010, 0b00100, 0b01000, 0b01000, 0b01000]
    } else if ch == '8' {
        [0b01110, 0b10001, 0b10001, 0b01110, 0b10001, 0b10001, 0b01110]
    } else if ch == '9' {
        [0b01110, 0b10001, 0b10001, 0b01111, 0b00001, 0b00001, 0b01110]
    } else if ch == '/' {
        [0b00001, 0b00010, 0b00100, 0b01000, 0b01000, 0b10000, 0b10000]
    } else {
        return None;
    };
    assert(glyph_bits(ch) == Some(g@)) by {
        assert(g@ =~= glyph_bits(ch).unwrap());
    }
    Some(g)
}

/// The glyphs of the progress chars of `s`, in order (other chars skipped).
pub open spec fn glyphs_of(s: Seq<char>) -> Seq<Seq<u8>>
    decreases s.len(),
{
    if s.len() == 0 {
        Seq::empty()
    } else {
        let g = glyphs_of(s.drop_last());
        match glyph_bits(s.last()) {
            Some(b) => g.push(b),
            None => g,
        }
    }
}

/// Top row of the progress stamp on an `h`-row page.
pub open spec fn stamp_y0(h: nat) -> nat {
    if h >= 25 {
        (h - 25) as nat
    } else {
        0
    }
}

/// The stamp of `n` glyphs is drawn on a `w` by `h` page: there is text,
/// the page is at least 16 px a side, and the text fits.
pub open spec fn stamp_applies(n: nat, w: nat, h: nat) -> bool {
    n > 0 && w >= 16 && h >= 16 && 4 + n * 18 <= w && stamp_y0(h) + 21 <= h
}

/// Pixel (x, y) is inked by the stamp of glyphs `gs` at row `y0`: glyphs
/// are 5x7 bits scaled 3x, 18 px apart, from x = 4.
pub open spec fn stamp_covers(gs: Seq<Seq<u8>>, y0: nat, x: int, y: int) -> bool {
    &&& y0 <= y < y0 + 21
    &&& 4 <= x < 4 + gs.len() * 18
    &&& (x - 4) % 18 < 15
    &&& (gs[(x - 4) / 18][(y - y0) / 3] & (16u8 >> ((((x - 4) % 18) / 3) as u8))) != 0
}

proof fn lemma_bit_msb_left(g: u8, c: u8)
    requires
        c < 5,
    ensures
        ((g & (16u8 >> c)) != 0) == (((g >> ((4 - c) as u8)) & 1u8) == 1u8),
{
    let s: u8 = (4 - c) as u8;
    assert(((g & (16u8 >> c)) != 0) == (((g >> s) & 1u8) == 1u8)) by (bit_vector)
        requires
            c < 5,
            s == 4 - c,
    ;
}

/// The stamp draws each glyph as 3x3 blocks with the bit rows read
/// most-significant bit on the left: pixel (4 + 18 i + 3 c + dx, y0 + 3 r + dy),
/// dx and dy under 3, is inked exactly when bit 4 - c of row r of the i-th
/// glyph is set.
pub proof fn lemma_stamp_msb_left(gs: Seq<Seq<u8>>, y0: nat, i: int, r: int, c: int, dx: int, dy: int)
    requires
        0 <= i < gs.len(),
        0 <= r < 7,
        0 <= c < 5,
        0 <= dx < 3,
        0 <= dy < 3,
    ensures
        stamp_covers(gs, y0, 4 + 18 * i + 3 * c + dx, y0 + 3 * r + dy) <==> ((gs[i][r] >> ((4 - c) as u8))
            & 1u8) == 1u8,
{
    let x = 4 + 18 * i + 3 * c + dx;
    let y = y0 + 3 * r + dy;
    assert((x - 4) / 18 == i && (x - 4) % 18 == 3 * c + dx) by (nonlinear_arith)
        requires
            x == 4 + 18 * i + 3 * c + dx,
            0 <= c < 5,
            0 <= dx < 3,
            0 <= i,
    ;
    assert((3 * c + dx) / 3 == c) by (nonlinear_arith)
        requires
            0 <= dx < 3,
            0 <= c,
    ;
    assert((y - y0) / 3 == r) by (nonlinear_arith)
        requires
            y == y0 + 3 * r + dy,
            0 <= dy < 3,
            0 <= r,
    ;
    assert(x < 4 + gs.len() * 18) by (nonlinear_arith)
        requires
            x == 4 + 18 * i + 3 * c + dx,
            0 <= i < gs.len(),
            0 <= c < 5,
            0 <= dx < 3,
    ;
    lemma_bit_msb_left(gs[i][r], c as u8);
}

/// On a page of at least 25 rows the 21-row stamp ends 4 rows above the
/// bottom edge.
pub proof fn lemma_stamp_sits_above_bottom(h: nat)
    requires
        h >= 25,
    ensures
        stamp_y0(h) + 21 + 4 == h,
{
}

/// The stamp inks nothing outside the 21 rows from `y0`, the glyph cells
/// from x = 4, and never the 3 px gap after each 15 px glyph.
pub proof fn lemma_stamp_stays_in_cells(gs: Seq<Seq<u8>>, y0: nat, x: int, y: int)
    ensures
        stamp_covers(gs, y0, x, y) ==> {
            &&& y0 <= y < y0 + 21
            &&& 4 <= x < 4 + 18 * gs.len()
            &&& (x - 4) % 18 < 15
        },
{
}

/// Ink of the stamp: near-black, readable on light and dark art.
pub const STAMP_INK: u8 = 0x10;

spec fn stamp_expected(
    old: Seq<u8>,
    gs: Seq<Seq<u8>>,
    w: nat,
    y0: nat,
    y: int,
    x: int,
    k: int,
) -> u8 {
    let ky = k / (w as int);
    let kx = k % (w as int);
    if (ky < y || (ky == y && kx < x)) && stamp_covers(gs, y0, kx, ky) {
        STAMP_INK
    } else {
        old[k]
    }
}

fn glyphs_exec(text: &str) -> (r: Vec<[u8; 7]>)
    ensures
        r@.map_values(|g: [u8; 7]| g@) == glyphs_of(text@),
{
    let v = chars_of(text);
    let mut out: Vec<[u8; 7]> = Vec::new();
    let mut i: usize = 0;
    while i < v.len()
        invariant
            i <= v@.len(),
            v@ == text@,
            out@.map_values(|g: [u8; 7]| g@) == glyphs_of(v@.take(i as int)),
        decreases v@.len() - i,
    {
        proof {
            assert(v@.take(i + 1).drop_last() =~= v@.take(i as int));
            assert(v@.take(i + 1).last() == v@[i as int]);
        }
        match glyph5x7(v[i]) {
            Some(g) => {
                let ghost before = out@;
                out.push(g);
                proof {
                    assert(out@.map_values(|g: [u8; 7]| g@) =~= before.map_values(
                        |g: [u8; 7]| g@,
                    ).push(g@));
                }
            },
            None => {},
        }
        i = i + 1;
    }
    proof {
        assert(v@.take(v@.len() as int) =~= v@);
    }
    out
}

/// Burn the progress text (digits and `/`) near-black into the bottom-left
/// corner of a `w` by `h` row-major Gray8 page, glyphs scaled 3x, 4 px from
/// the left and bottom edges. Nothing is drawn when no char has a glyph, the
/// page is under 16 px a side, or the text does not fit. Every pixel the
/// stamp inks must lie in the buffer.
pub fn stamp_progress_black(pixels: &mut Vec<u8>, w: usize, h: usize, text: &str)
    requires
        forall|y: int, x: int|
            0 <= y < h && 0 <= x < w && stamp_applies(glyphs_of(text@).len(), w as nat, h as nat)
                && #[trigger] stamp_covers(glyphs_of(text@), stamp_y0(h as nat), x, y) ==> y * w + x
                < old(pixels)@.len(),
    ensures
        final(pixels)@.len() == old(pixels)@.len(),
        ({
            let gs = glyphs_of(text@);
            if stamp_applies(gs.len(), w as nat, h as nat) {
                forall|k: int|
                    0 <= k < old(pixels)@.len() ==> #[trigger] final(pixels)@[k] == if stamp_covers(
                        gs,
                        stamp_y0(h as nat),
                        k % (w as int),
                        k / (w as int),
                    ) {
                        STAMP_INK
                    } else {
                        old(pixels)@[k]
                    }
            } else {
                final(pixels)@ == old(pixels)@
            }
        }),
{
    let glyphs = glyphs_exec(text);
    let ghost gs = glyphs@.map_values(|g: [u8; 7]| g@);
    let n = glyphs.len();
    if n == 0 || w < 16 || h < 16 {
        return;
    }
    if n > (w - 4) / 18 {
        proof {
            assert(4 + n * 18 > w) by (nonlinear_arith)
                requires
                    n > (w - 4) / 18,
                    w >= 16,
            ;
        }
        return;
    }
    let y0: usize = if h >= 25 {
        h - 25
    } else {
        0
    };
    if y0 + 21 > h {
        return;
    }
    let total_w: usize = n * 18;
    proof {
        assert(4 + n * 18 <= w) by (nonlinear_arith)
            requires
                n <= (w - 4) / 18,
                w >= 16,
        ;
    }
    let ghost old_px = pixels@;
    proof {
        assert(gs == glyphs_of(text@));
        assert(stamp_applies(gs.len(), w as nat, h as nat));
        assert forall|yy: int, xx: int|
            0 <= yy < h && 0 <= xx < w && #[trigger] stamp_covers(gs, y0 as nat, xx, yy) implies yy
                * w + xx < old_px.len() by {
            assert(stamp_covers(glyphs_of(text@), stamp_y0(h as nat), xx, yy));
        }
    }
    let plen: usize = pixels.len();
    let x_end: usize = 4 + total_w;
    let mut y: usize = y0;
    while y < y0 + 21
        invariant
            y0 <= y <= y0 + 21,
            y0 == stamp_y0(h as nat),
            y0 + 21 <= h,
            x_end == 4 + gs.len() * 18,
            x_end <= w,
            w >= 16,
            forall|yy: int, xx: int|
                0 <= yy < h && 0 <= xx < w && #[trigger] stamp_covers(gs, y0 as nat, xx, yy) ==> yy
                    * w + xx < old_px.len(),
            plen == old_px.len(),
            gs == glyphs@.map_values(|g: [u8; 7]| g@),
            n == gs.len(),
            pixels@.len() == old_px.len(),
            forall|k: int|
                0 <= k < old_px.len() ==> #[trigger] pixels@[k] == stamp_expected(
                    old_px,
                    gs,
                    w as nat,
                    y0 as nat,
                    y as int,
                    0,
                    k,
                ),
        decreases y0 + 21 - y,
    {
        let mut x: usize = 4;
        proof {
            assert forall|k: int| 0 <= k < old_px.len() implies #[trigger] pixels@[k]
                == stamp_expected(old_px, gs, w as nat, y0 as nat, y as int, 4, k) by {
                let kx = k % (w as int);
                let ky = k / (w as int);
                assert(pixels@[k] == stamp_expected(old_px, gs, w as nat, y0 as nat, y as int, 0, k));
            }
        }
        while x < x_end
            invariant
                y0 <= y < y0 + 21,
                4 <= x <= x_end,
                y0 == stamp_y0(h as nat),
                y0 + 21 <= h,
                x_end == 4 + gs.len() * 18,
                x_end <= w,
                w >= 16,
                forall|yy: int, xx: int|
                    0 <= yy < h && 0 <= xx < w && #[trigger] stamp_covers(gs, y0 as nat, xx, yy) ==> yy
                        * w + xx < old_px.len(),
                plen == old_px.len(),
                gs == glyphs@.map_values(|g: [u8; 7]| g@),
                n == gs.len(),
                pixels@.len() == old_px.len(),
                forall|k: int|
                    0 <= k < old_px.len() ==> #[trigger] pixels@[k] == stamp_expected(
                        old_px,
                        gs,
                        w as nat,
                        y0 as nat,
                        y as int,
                        x as int,
                        k,
                    ),
            decreases x_end - x,
        {
            let ghost k0 = y * w + x;
            proof {
                vstd::arithmetic::div_mod::lemma_fundamental_div_mod_converse(
                    k0 as int,
                    w as int,
                    y as int,
                    x as int,
                );
            }
            let rx = x - 4;
            let ci = rx / 18;
            let cx = rx % 18;
            let mut ink = false;
            if cx < 15 {
                let col = cx / 3;
                let row = (y - y0) / 3;
                proof {
                    assert(ci < n);
                    assert(glyphs@[ci as int]@ == gs[ci as int]);
                }
                let bits = glyphs[ci][row];
                let mask: u8 = 16u8 >> (col as u8);
                ink = (bits & mask) != 0;
            }
            let ghost before = pixels@;
            assert(ink == stamp_covers(gs, y0 as nat, x as int, y as int));
            if ink {
                pixels.set(y * w + x, STAMP_INK);
            }
            proof {
                assert forall|k: int| 0 <= k < old_px.len() implies #[trigger] pixels@[k]
                    == stamp_expected(old_px, gs, w as nat, y0 as nat, y as int, x + 1, k) by {
                    if k != k0 {
                        assert(pixels@[k] == before[k]);
                        assert(before[k] == stamp_expected(
                            old_px,
                            gs,
                            w as nat,
                            y0 as nat,
                            y as int,
                            x as int,
                            k,
                        ));
                        let kx = k % (w as int);
                        let ky = k / (w as int);
                        if ky == y && kx == x {
                            vstd::arithmetic::div_mod::lemma_fundamental_div_mod(k, w as int);
                            vstd::arithmetic::mul::lemma_mul_is_commutative(w as int, y as int);
                            assert(k == k0);
                        }
                    } else {
                        assert(before[k] == stamp_expected(
                            old_px,
                            gs,
                            w as nat,
                            y0 as nat,
                            y as int,
                            x as int,
                            k,
                        ));
                    }
                }
            }
            x = x + 1;
        }
        proof {
            assert forall|k: int| 0 <= k < old_px.len() implies #[trigger] pixels@[k]
                == stamp_expected(old_px, gs, w as nat, y0 as nat, y + 1, 0, k) by {
                assert(pixels@[k] == stamp_expected(
                    old_px,
                    gs,
                    w as nat,
                    y0 as nat,
                    y as int,
                    x as int,
                    k,
                ));
                let kx = k % (w as int);
                vstd::arithmetic::div_mod::lemma_mod_bound(k, w as int);
            }
        }
        y = y + 1;
    }
    proof {
        assert forall|k: int| 0 <= k < old_px.len() implies #[trigger] pixels@[k] == if stamp_covers(
            gs,
            y0 as nat,
            k % (w as int),
            k / (w as int),
        ) {
            STAMP_INK
        } else {
            old_px[k]
        } by {
            assert(pixels@[k] == stamp_expected(
                old_px,
                gs,
                w as nat,
                y0 as nat,
                (y0 + 21) as int,
                0,
                k,
            ));
        }
    }
}

/// The views of the jobs.
pub open spec fn jobs_view(m: Map<u32, JobState>) -> Map<u32, JobView> {
    m.map_values(|j: JobState| j@)
}

/// The views of the finished requests.
pub open spec fn http_map_view(m: Map<u32, HttpResult>) -> Map<u32, HttpView> {
    m.map_values(|r: HttpResult| http_view(r))
}

/// The views of the cache entries.
pub open spec fn cache_view(c: Seq<(String, GrayPage)>) -> Seq<(Seq<char>, PageView)> {
    c.map_values(|e: (String, GrayPage)| (e.0@, page_view(e.1)))
}

/// The `manga` surface state.
pub struct MangaSurface {
    page: Option<GrayPage>,
    /// The shown page without progress digits.
    page_clean: Option<GrayPage>,
    page_dirty: bool,
    /// "12/32" burned into the underlay corner each frame.
    progress_text: String,
    /// URL to decoded page, oldest first.
    page_cache: Vec<(String, GrayPage)>,
    next_job: u32,
    jobs: HashMap<u32, JobState>,
    http_results: HashMap<u32, HttpResult>,
    /// Text waiting for runtime font injection.
    ensure_chars: String,
    panel_w: usize,
    panel_h: usize,
    /// Sandbox root for config files.
    data_root: String,
}

impl View for MangaSurface {
    type V = MangaView;

    closed spec fn view(&self) -> MangaView {
        MangaView {
            page: opt_page_view(self.page),
            page_clean: opt_page_view(self.page_clean),
            page_dirty: self.page_dirty,
            progress: self.progress_text@,
            cache: cache_view(self.page_cache@),
            next_job: self.next_job,
            jobs: jobs_view(self.jobs@),
            http: http_map_view(self.http_results@),
            ensure_chars: self.ensure_chars@,
            panel_w: self.panel_w,
            panel_h: self.panel_h,
            data_root: self.data_root@,
        }
    }
}

fn copy_string(s: &String) -> (r: String)
    ensures
        r@ == s@,
{
    s.clone()
}

fn copy_page_opt(p: &Option<GrayPage>) -> (r: Option<GrayPage>)
    ensures
        opt_page_view(r) == opt_page_view(*p),
{
    match p {
        Some(g) => Some(g.copy()),
        None => None,
    }
}

impl MangaSurface {
    /// The page cache holds each URL once and at most `PAGE_CACHE_MAX` pages.
    pub closed spec fn wf(&self) -> bool {
        cache_ok(self@.cache)
    }

    /// An empty surface for a `panel_w` by `panel_h` panel, keeping config
    /// files under `data_root`; job ids start at 1.
    pub fn new(panel_w: usize, panel_h: usize, data_root: String) -> (r: MangaSurface)
        ensures
            r.wf(),
            r@ == (MangaView {
                page: None,
                page_clean: None,
                page_dirty: false,
                progress: Seq::empty(),
                cache: Seq::empty(),
                next_job: 1,
                jobs: Map::empty(),
                http: Map::empty(),
                ensure_chars: Seq::empty(),
                panel_w,
                panel_h,
                data_root: data_root@,
            }),
    {
        let r = MangaSurface {
            page: None,
            page_clean: None,
            page_dirty: false,
            progress_text: String::new(),
            page_cache: Vec::new(),
            next_job: 1,
            jobs: HashMap::new(),
            http_results: HashMap::new(),
            ensure_chars: String::new(),
            panel_w,
            panel_h,
            data_root,
        };
        proof {
            assert(r@.cache =~= Seq::<(Seq<char>, PageView)>::empty());
            assert(r@.jobs =~= Map::<u32, JobView>::empty());
            assert(r@.http =~= Map::<u32, HttpView>::empty());
        }
        r
    }

    /// Panel width in pixels.
    pub fn panel_w(&self) -> (r: usize)
        ensures
            r == self@.panel_w,
    {
        self.panel_w
    }

    /// Panel height in pixels.
    pub fn panel_h(&self) -> (r: usize)
        ensures
            r == self@.panel_h,
    {
        self.panel_h
    }

    /// Queue `text` for runtime font injection (empty text is ignored).
    pub fn queue_ensure_chars(&mut self, text: &str)
        ensures
            final(self)@ == after_queue(old(self)@, text@),
            final(self).wf() == old(self).wf(),
    {
        let mut v = chars_of(self.ensure_chars.as_str());
        let t = chars_of(text);
        push_all(&mut v, t.as_slice());
        self.ensure_chars = string_of(&v);
        proof {
            assert(self@ =~= (MangaView { ensure_chars: old(self)@.ensure_chars + text@, ..old(self)@ }));
        }
    }

    /// Drain the characters queued for runtime font injection (one host
    /// tick); `None` when nothing is queued.
    pub fn take_ensure_chars(&mut self) -> (r: Option<String>)
        ensures
            old(self)@.ensure_chars.len() == 0 ==> r is None && final(self)@ == old(self)@,
            old(self)@.ensure_chars.len() > 0 ==> (r matches Some(t) && t@ == old(self)@.ensure_chars
                && final(self)@ == (MangaView { ensure_chars: Seq::empty(), ..old(self)@ })),
            final(self).wf() == old(self).wf(),
    {
        let v = chars_of(self.ensure_chars.as_str());
        if v.len() == 0 {
            return None;
        }
        let mut out = String::new();
        std::mem::swap(&mut out, &mut self.ensure_chars);
        proof {
            assert(self@ =~= (MangaView { ensure_chars: Seq::empty(), ..old(self)@ }));
        }
        Some(out)
    }

    /// Whether an underlay page is shown.
    pub fn has_page(&self) -> (r: bool)
        ensures
            r == self@.page is Some,
    {
        self.page.is_some()
    }

    /// Allocate a job id (ids wrap around).
    fn next_id(&mut self) -> (r: u32)
        ensures
            r == old(self)@.next_job,
            final(self)@ == (MangaView {
                next_job: job_step(old(self)@.next_job),
                ..old(self)@
            }),
            final(self).wf() == old(self).wf(),
    {
        let id = self.next_job;
        self.next_job = if id == u32::MAX {
            0
        } else {
            id + 1
        };
        id
    }

    fn set_job(&mut self, id: u32, state: JobState)
        ensures
            final(self)@ == (MangaView { jobs: old(self)@.jobs.insert(id, state@), ..old(self)@ }),
            final(self).wf() == old(self).wf(),
    {
        let ghost st = state@;
        self.jobs.insert(id, state);
        proof {
            assert(jobs_view(self.jobs@) =~= old(self)@.jobs.insert(id, st));
            assert(self@ =~= (MangaView { jobs: old(self)@.jobs.insert(id, st), ..old(self)@ }));
        }
    }

    /// Show a clean decoded page as the underlay.
    pub fn install_shown_page(&mut self, clean: GrayPage)
        ensures
            final(self)@ == shown(old(self)@, page_view(clean)),
            final(self).wf() == old(self).wf(),
    {
        self.page_clean = Some(clean.copy());
        self.page = Some(clean);
        self.page_dirty = true;
        proof {
            assert(self@ =~= shown(old(self)@, page_view(clean)));
        }
    }

    /// The cached page for `url`, if any.
    fn cache_lookup(&self, url: &String) -> (r: Option<GrayPage>)
        ensures
            match cache_index(self@.cache, url@) {
                Some(i) => r matches Some(p) && page_view(p) == self@.cache[i].1,
                None => r is None,
            },
    {
        match cache_find(&self.page_cache, url) {
            Some(i) => Some(self.page_cache[i].1.copy()),
            None => None,
        }
    }

    /// Store a decoded page for `url` (see `cache_put`).
    fn cache_store(&mut self, url: String, page: GrayPage)
        requires
            old(self).wf(),
        ensures
            final(self).wf(),
            final(self)@ == (MangaView {
                cache: cache_put(old(self)@.cache, url@, page_view(page)),
                ..old(self)@
            }),
    {
        let ghost c0 = self@.cache;
        let ghost pv = page_view(page);
        let pos = cache_find(&self.page_cache, &url);
        let found = pos.is_some();
        let i: usize = match pos {
            Some(i) => i,
            None => 0,
        };
        let ghost c1 = if found {
            c0.update(i as int, (url@, pv))
        } else {
            c0.push((url@, pv))
        };
        if found {
            self.page_cache.set(i, (url, page));
        } else {
            self.page_cache.push((url, page));
        }
        proof {
            assert(cache_view(self.page_cache@) =~= c1);
        }
        if self.page_cache.len() > PAGE_CACHE_MAX {
            let victim: usize = if self.page_cache[0].0 != self.page_cache[self.page_cache.len()
                - 1].0 {
                0
            } else {
                1
            };
            proof {
                assert(!found);
                assert(c1.last().0 == url@);
            }
            self.page_cache.remove(victim);
            proof {
                assert(cache_view(self.page_cache@) =~= c1.remove(victim as int));
            }
        }
        proof {
            let c = cache_view(self.page_cache@);
            assert(c == cache_put(c0, url@, pv));
            lemma_cache_put_finds(c0, url@, pv);
            assert(self@ =~= (MangaView {
                cache: cache_put(old(self)@.cache, url@, page_view(page)),
                ..old(self)@
            }));
        }
    }

    /// Start loading the page at `url`. A cached page is shown at once when
    /// `show` and its job is ready; otherwise the job is pending and the
    /// host fetches the page. Returns the job id and whether it was cached.
    pub fn start_load(&mut self, url: &String, show: bool) -> (r: (u32, bool))
        requires
            old(self).wf(),
        ensures
            final(self).wf(),
            r.0 == old(self)@.next_job,
            ({
                let st = MangaView {
                    next_job: job_step(old(self)@.next_job),
                    ..old(self)@
                };
                match cache_index(old(self)@.cache, url@) {
                    Some(i) => {
                        let st2 = if show {
                            shown(st, old(self)@.cache[i].1)
                        } else {
                            st
                        };
                        &&& r.1
                        &&& final(self)@ == (MangaView {
                            jobs: st2.jobs.insert(r.0, JobView::Ready),
                            ..st2
                        })
                    },
                    None => {
                        &&& !r.1
                        &&& final(self)@ == (MangaView {
                            jobs: st.jobs.insert(r.0, JobView::Pending),
                            ..st
                        })
                    },
                }
            }),
    {
        let id = self.next_id();
        match self.cache_lookup(url) {
            Some(page) => {
                if show {
                    self.install_shown_page(page);
                }
                self.set_job(id, JobState::Ready);
                (id, true)
            },
            None => {
                self.set_job(id, JobState::Pending);
                (id, false)
            },
        }
    }

    /// A load job found `url` cached after waiting for the decoder: show it
    /// when `show` and mark the job ready. Returns whether it was cached
    /// (the surface is unchanged otherwise).
    pub fn complete_from_cache(&mut self, id: u32, url: &String, show: bool) -> (r: bool)
        requires
            old(self).wf(),
        ensures
            final(self).wf(),
            match cache_index(old(self)@.cache, url@) {
                Some(i) => {
                    let st2 = if show {
                        shown(old(self)@, old(self)@.cache[i].1)
                    } else {
                        old(self)@
                    };
                    &&& r
                    &&& final(self)@ == (MangaView { jobs: st2.jobs.insert(id, JobView::Ready), ..st2 })
                },
                None => !r && final(self)@ == old(self)@,
            },
    {
        match self.cache_lookup(url) {
            Some(page) => {
                if show {
                    self.install_shown_page(page);
                }
                self.set_job(id, JobState::Ready);
                true
            },
            None => false,
        }
    }

    /// A load job finished: a page is cached (and shown when `show`) and the
    /// job is ready; an error message fails the job.
    pub fn finish_load(&mut self, id: u32, url: String, show: bool, result: Result<GrayPage, String>)
        requires
            old(self).wf(),
        ensures
            final(self).wf(),
            match result {
                Ok(p) => {
                    let st = MangaView {
                        cache: cache_put(old(self)@.cache, url@, page_view(p)),
                        ..old(self)@
                    };
                    let st2 = if show {
                        shown(st, page_view(p))
                    } else {
                        st
                    };
                    final(self)@ == (MangaView { jobs: st2.jobs.insert(id, JobView::Ready), ..st2 })
                },
                Err(e) => final(self)@ == (MangaView {
                    jobs: old(self)@.jobs.insert(id, JobView::Error(e@)),
                    ..old(self)@
                }),
            },
    {
        match result {
            Ok(page) => {
                let cached = page.copy();
                self.cache_store(url, cached);
                if show {
                    self.install_shown_page(page);
                }
                self.set_job(id, JobState::Ready);
            },
            Err(msg) => {
                self.set_job(id, JobState::Error(msg));
            },
        }
    }

    /// Set the progress text burned into the underlay corner.
    pub fn set_progress(&mut self, text: String)
        ensures
            final(self)@ == (MangaView { progress: text@, ..old(self)@ }),
            final(self).wf() == old(self).wf(),
    {
        self.progress_text = text;
    }

    /// Remove the underlay page.
    pub fn clear_page(&mut self)
        ensures
            final(self)@ == (MangaView {
                page: None,
                page_clean: None,
                page_dirty: true,
                ..old(self)@
            }),
            final(self).wf() == old(self).wf(),
    {
        self.page = None;
        self.page_clean = None;
        self.page_dirty = true;
    }

    /// Start an HTTP job: pending until the host reports back.
    pub fn start_http(&mut self) -> (r: u32)
        ensures
            r == old(self)@.next_job,
            final(self)@ == (MangaView {
                next_job: job_step(old(self)@.next_job),
                jobs: old(self)@.jobs.insert(r, JobView::Pending),
                ..old(self)@
            }),
            final(self).wf() == old(self).wf(),
    {
        let id = self.next_id();
        self.set_job(id, JobState::Pending);
        id
    }

    /// An HTTP job finished: a result is kept for `take_http` and the job
    /// is ready; an error message fails the job.
    pub fn finish_http(&mut self, id: u32, result: Result<HttpResult, String>)
        ensures
            final(self).wf() == old(self).wf(),
            match result {
                Ok(res) => final(self)@ == (MangaView {
                    http: old(self)@.http.insert(id, http_view(res)),
                    jobs: old(self)@.jobs.insert(id, JobView::Ready),
                    ..old(self)@
                }),
                Err(e) => final(self)@ == (MangaView {
                    jobs: old(self)@.jobs.insert(id, JobView::Error(e@)),
                    ..old(self)@
                }),
            },
    {
        match result {
            Ok(res) => {
                let ghost hv = http_view(res);
                self.http_results.insert(id, res);
                proof {
                    assert(http_map_view(self.http_results@) =~= old(self)@.http.insert(id, hv));
                }
                self.set_job(id, JobState::Ready);
            },
            Err(msg) => {
                self.set_job(id, JobState::Error(msg));
            },
        }
    }

    /// What `jobStatus` answers: `pending`, `ready`, `error:<message>`, or
    /// `error:unknown-job`.
    pub fn job_status(&self, id: u32) -> (r: String)
        ensures
            r@ == status_text(if self@.jobs.contains_key(id) {
                Some(self@.jobs[id])
            } else {
                None
            }),
    {
        let mut out: Vec<char> = Vec::new();
        match self.jobs.get(&id) {
            Some(JobState::Pending) => {
                push_all(&mut out, &['p', 'e', 'n', 'd', 'i', 'n', 'g']);
            },
            Some(JobState::Ready) => {
                push_all(&mut out, &['r', 'e', 'a', 'd', 'y']);
            },
            Some(JobState::Error(e)) => {
                push_all(&mut out, &['e', 'r', 'r', 'o', 'r', ':']);
                let ec = chars_of(e.as_str());
                push_all(&mut out, ec.as_slice());
            },
            None => {
                push_all(
                    &mut out,
                    &['e', 'r', 'r', 'o', 'r', ':', 'u', 'n', 'k', 'n', 'o', 'w', 'n', '-', 'j', 'o', 'b'],
                );
            },
        }
        proof {
            assert(out@ =~= status_text(if self@.jobs.contains_key(id) {
                Some(self@.jobs[id])
            } else {
                None
            }));
        }
        string_of(&out)
    }

    /// Take the result of HTTP job `id` as JSON
    /// (`{"status":N,"body":"...","setCookie":"..."}`), forgetting the job;
    /// empty when there is no result.
    pub fn take_http(&mut self, id: u32) -> (r: String)
        ensures
            final(self)@ == (MangaView {
                http: old(self)@.http.remove(id),
                jobs: old(self)@.jobs.remove(id),
                ..old(self)@
            }),
            final(self).wf() == old(self).wf(),
            old(self)@.http.contains_key(id) ==> r@ == http_json(old(self)@.http[id]),
            !old(self)@.http.contains_key(id) ==> r@ == Seq::<char>::empty(),
    {
        let res = self.http_results.remove(&id);
        self.jobs.remove(&id);
        proof {
            assert(http_map_view(self.http_results@) =~= old(self)@.http.remove(id));
            assert(jobs_view(self.jobs@) =~= old(self)@.jobs.remove(id));
            assert(self@ =~= (MangaView {
                http: old(self)@.http.remove(id),
                jobs: old(self)@.jobs.remove(id),
                ..old(self)@
            }));
        }
        match res {
            Some(r) => {
                let mut out: Vec<char> = Vec::new();
                push_all(&mut out, &['{', '"', 's', 't', 'a', 't', 'u', 's', '"', ':']);
                push_decimal(&mut out, r.status as u64);
                push_all(&mut out, &[',', '"', 'b', 'o', 'd', 'y', '"', ':', '"']);
                let b = escape_chars(&chars_of(r.body.as_str()));
                push_all(&mut out, b.as_slice());
                push_all(
                    &mut out,
                    &['"', ',', '"', 's', 'e', 't', 'C', 'o', 'o', 'k', 'i', 'e', '"', ':', '"'],
                );
                let c = escape_chars(&chars_of(r.set_cookie.as_str()));
                push_all(&mut out, c.as_slice());
                push_all(&mut out, &['"', '}']);
                proof {
                    assert(out@ =~= http_json(http_view(r)));
                }
                string_of(&out)
            },
            None => String::new(),
        }
    }

    /// If the underlay changed since the last call, the new page
    /// (`Some(None)` when it was cleared).
    pub fn take_page_dirty(&mut self) -> (r: Option<Option<GrayPage>>)
        ensures
            !old(self)@.page_dirty ==> r is None && final(self)@ == old(self)@,
            old(self)@.page_dirty ==> (r matches Some(p) && opt_page_view(p) == old(self)@.page
                && final(self)@ == (MangaView { page_dirty: false, ..old(self)@ })),
            final(self).wf() == old(self).wf(),
    {
        if !self.page_dirty {
            return None;
        }
        self.page_dirty = false;
        Some(copy_page_opt(&self.page))
    }

    /// The current progress overlay text.
    pub fn progress_text(&self) -> (r: String)
        ensures
            r@ == self@.progress,
    {
        copy_string(&self.progress_text)
    }

    /// Where the config path `rel` goes under the sandbox root (see
    /// `data_path`).
    pub fn resolve_data_path(&self, rel: &str) -> (r: Result<String, PathError>)
        ensures
            match r {
                Ok(p) => data_path(self@.data_root, rel@) == Ok::<Seq<char>, PathError>(p@),
                Err(e) => data_path(self@.data_root, rel@) == Err::<Seq<char>, PathError>(e),
            },
    {
        resolve_path(&self.data_root, rel)
    }
}

fn cache_find(c: &Vec<(String, GrayPage)>, url: &String) -> (r: Option<usize>)
    ensures
        match r {
            Some(i) => i < c@.len() && cache_index(cache_view(c@), url@) == Some(i as int),
            None => cache_index(cache_view(c@), url@) is None,
        },
{
    let mut i: usize = 0;
    while i < c.len()
        invariant
            i <= c@.len(),
            forall|j: int| 0 <= j < i ==> c@[j].0@ != url@,
        decreases c@.len() - i,
    {
        if c[i].0 == *url {
            proof {
                lemma_cache_index_at(cache_view(c@), url@, i as int);
            }
            return Some(i);
        }
        i = i + 1;
    }
    proof {
        lemma_cache_index_none(cache_view(c@), url@);
    }
    None
}

proof fn lemma_cache_index(c: Seq<(Seq<char>, PageView)>, url: Seq<char>)
    ensures
        match cache_index(c, url) {
            Some(i) => 0 <= i < c.len() && c[i].0 == url,
            None => forall|j: int| 0 <= j < c.len() ==> c[j].0 != url,
        },
    decreases c.len(),
{
    if c.len() > 0 {
        lemma_cache_index(c.drop_first(), url);
        if c[0].0 != url {
            assert forall|j: int| 0 < j < c.len() implies c[j] == c.drop_first()[j - 1] by {}
        }
    }
}

proof fn lemma_cache_index_at(c: Seq<(Seq<char>, PageView)>, url: Seq<char>, i: int)
    requires
        0 <= i < c.len(),
        c[i].0 == url,
        forall|j: int| 0 <= j < i ==> c[j].0 != url,
    ensures
        cache_index(c, url) == Some(i),
    decreases i,
{
    if i > 0 {
        lemma_cache_index_at(c.drop_first(), url, i - 1);
    }
}

proof fn lemma_cache_index_none(c: Seq<(Seq<char>, PageView)>, url: Seq<char>)
    requires
        forall|j: int| 0 <= j < c.len() ==> c[j].0 != url,
    ensures
        cache_index(c, url) is None,
    decreases c.len(),
{
    if c.len() > 0 {
        lemma_cache_index_none(c.drop_first(), url);
    }
}

fn split_chars(v: &Vec<char>, c: char) -> (r: Vec<Vec<char>>)
    ensures
        char_views_of(r@) == split_on(v@, c),
{
    let mut parts: Vec<Vec<char>> = Vec::new();
    let mut cur: Vec<char> = Vec::new();
    let mut i: usize = 0;
    proof {
        assert(v@.take(0) =~= Seq::<char>::empty());
        assert(char_views_of(parts@).push(cur@) =~= split_on(Seq::<char>::empty(), c));
    }
    while i < v.len()
        invariant
            i <= v@.len(),
            split_on(v@.take(i as int), c) == char_views_of(parts@).push(cur@),
        decreases v@.len() - i,
    {
        let ch = v[i];
        proof {
            assert(v@.take(i + 1).drop_last() =~= v@.take(i as int));
            assert(v@.take(i + 1).last() == ch);
        }
        if ch == c {
            let mut done: Vec<char> = Vec::new();
            std::mem::swap(&mut done, &mut cur);
            let ghost before = parts@;
            parts.push(done);
            proof {
                assert(char_views_of(parts@) =~= char_views_of(before).push(done@));
                assert(split_on(v@.take(i + 1), c) =~= char_views_of(parts@).push(cur@));
            }
        } else {
            cur.push(ch);
            proof {
                assert(split_on(v@.take(i + 1), c) =~= char_views_of(parts@).push(cur@));
            }
        }
        i = i + 1;
    }
    proof {
        assert(v@.take(v@.len() as int) =~= v@);
    }
    let ghost before = parts@;
    parts.push(cur);
    proof {
        assert(char_views_of(parts@) =~= char_views_of(before).push(cur@));
    }
    parts
}

proof fn lemma_path_join_err_extends(base: Seq<char>, ps: Seq<Seq<char>>, t: int)
    requires
        0 <= t <= ps.len(),
        path_join(base, ps.take(t)) is Err,
    ensures
        path_join(base, ps) == path_join(base, ps.take(t)),
    decreases ps.len(),
{
    if t == ps.len() {
        assert(ps.take(t) =~= ps);
    } else {
        assert(ps.drop_last().take(t) =~= ps.take(t));
        lemma_path_join_err_extends(base, ps.drop_last(), t);
    }
}

/// Where the config path `rel` goes under `root` (see `data_path`).
pub fn resolve_path(root: &String, rel: &str) -> (r: Result<String, PathError>)
    ensures
        match r {
            Ok(p) => data_path(root@, rel@) == Ok::<Seq<char>, PathError>(p@),
            Err(e) => data_path(root@, rel@) == Err::<Seq<char>, PathError>(e),
        },
{
    let v = chars_of(rel);
    let mut i: usize = 0;
    proof {
        assert(v@.skip(0) =~= v@);
    }
    while i < v.len() && v[i] == '/'
        invariant
            i <= v@.len(),
            v@ == rel@,
            strip_leading(v@, '/') == strip_leading(v@.skip(i as int), '/'),
        decreases v@.len() - i,
    {
        proof {
            assert(v@.skip(i as int).drop_first() =~= v@.skip(i + 1));
        }
        i = i + 1;
    }
    let ghost r = strip_leading(rel@, '/');
    proof {
        assert(r =~= v@.skip(i as int));
    }
    if i == v.len() {
        return Err(PathError::Empty);
    }
    let mut j: usize = i;
    while j < v.len()
        invariant
            i <= j <= v@.len(),
            v@ == rel@,
            r == strip_leading(rel@, '/'),
            r =~= v@.skip(i as int),
            forall|k: int| i <= k < j ==> v@[k] != '\0',
        decreases v@.len() - j,
    {
        if v[j] == '\0' {
            proof {
                assert(r[j - i] == '\0');
            }
            return Err(PathError::Empty);
        }
        j = j + 1;
    }
    proof {
        assert(!r.contains('\0')) by {
            if r.contains('\0') {
                let k = choose|k: int| 0 <= k < r.len() && r[k] == '\0';
                assert(v@[i + k] == '\0');
            }
        }
    }
    let rest = slice_chars(&v, i, v.len());
    assert(rest@ =~= r);
    let pieces = split_chars(&rest, '/');
    let ghost ps = char_views_of(pieces@);
    let mut out: Vec<char> = chars_of(root.as_str());
    let mut t: usize = 0;
    proof {
        assert(ps.take(0) =~= Seq::<Seq<char>>::empty());
    }
    while t < pieces.len()
        invariant
            t <= pieces@.len(),
            ps == char_views_of(pieces@),
            ps == split_on(r, '/'),
            r == strip_leading(rel@, '/'),
            r.len() > 0,
            !r.contains('\0'),
            path_join(root@, ps.take(t as int)) == Ok::<Seq<char>, PathError>(out@),
        decreases pieces@.len() - t,
    {
        proof {
            assert(ps.take(t + 1).drop_last() =~= ps.take(t as int));
            assert(ps.take(t + 1).last() == pieces@[t as int]@);
        }
        let piece = &pieces[t];
        let ghost o = out@;
        let dot: [char; 1] = ['.'];
        let dotdot: [char; 2] = ['.', '.'];
        proof {
            assert(dot@ =~= seq!['.']);
            assert(dotdot@ =~= seq!['.', '.']);
        }
        if piece.len() == 0 || chars_eq(piece, &dot) {
        } else if chars_eq(piece, &dotdot) {
            proof {
                lemma_path_join_err_extends(root@, ps, t + 1);
            }
            return Err(PathError::Escapes);
        } else {
            if out.len() > 0 && out[out.len() - 1] != '/' {
                out.push('/');
            }
            push_all(&mut out, piece.as_slice());
            proof {
                assert(out@ =~= path_push(o, piece@));
            }
        }
        t = t + 1;
    }
    proof {
        assert(ps.take(pieces@.len() as int) =~= ps);
    }
    Ok(string_of(&out))
}

} // verus!
