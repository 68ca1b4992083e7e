//! Panel-sized Gray8 pages for direct framebuffer blit: the checks on a
//! fetched page, decoding it, trimming near-white scan margins to the ink
//! box, resampling, and the letterbox that centres the scaled page in the
//! panel's content band. Fetching is the host's, and so is the
//! floating-point fit scale.

use image::ColorType;
use vstd::prelude::*;

verus! {

/// Letterbox fill: white gutters, like manga paper.
pub const LETTERBOX: u8 = 0xff;

/// A decoded page ready for the framebuffer pipeline.
#[derive(Clone, Debug)]
pub struct GrayPage {
    pub width: usize,
    pub height: usize,
    /// Row-major Gray8, `width * height` bytes.
    pub pixels: Vec<u8>,
}

impl GrayPage {
    /// The pixel buffer holds exactly one byte per pixel.
    pub open spec fn wf(&self) -> bool {
        self.pixels@.len() == self.width * self.height
    }

    /// An identical copy.
    pub fn copy(&self) -> (r: GrayPage)
        ensures
            r.width == self.width,
            r.height == self.height,
            r.pixels@ == self.pixels@,
    {
        let p = self.pixels.clone();
        proof {
            assert(p@ =~= self.pixels@);
        }
        GrayPage { width: self.width, height: self.height, pixels: p }
    }
}

/// Why a fetched page cannot be used.
#[derive(Clone, Copy, Debug, PartialEq, Eq, Structural)]
pub enum PageError {
    /// The server answered with a status outside 2xx.
    HttpStatus(u16),
    /// The server answered with an empty body.
    EmptyBody,
    /// The panel has no pixels.
    InvalidPanel,
    /// The decoded image has no pixels.
    EmptyImage,
}

/// Accept a fetched body: a 2xx status and at least one byte.
pub fn check_fetched(status: u16, body_len: usize) -> (r: Result<(), PageError>)
    ensures
        !(200 <= status < 300) ==> r == Err::<(), PageError>(PageError::HttpStatus(status)),
        200 <= status < 300 && body_len == 0 ==> r == Err::<(), PageError>(PageError::EmptyBody),
        200 <= status < 300 && body_len > 0 ==> r is Ok,
{
    if !(200 <= status && status < 300) {
        Err(PageError::HttpStatus(status))
    } else if body_len == 0 {
        Err(PageError::EmptyBody)
    } else {
        Ok(())
    }
}

/// Accept a panel and a decoded image for fitting: both non-empty.
pub fn check_fit(panel_w: usize, panel_h: usize, src_w: u32, src_h: u32) -> (r: Result<
    (),
    PageError,
>)
    ensures
        (panel_w == 0 || panel_h == 0) ==> r == Err::<(), PageError>(PageError::InvalidPanel),
        panel_w > 0 && panel_h > 0 && (src_w == 0 || src_h == 0) ==> r == Err::<(), PageError>(
            PageError::EmptyImage,
        ),
        panel_w > 0 && panel_h > 0 && src_w > 0 && src_h > 0 ==> r is Ok,
{
    if panel_w == 0 || panel_h == 0 {
        Err(PageError::InvalidPanel)
    } else if src_w == 0 || src_h == 0 {
        Err(PageError::EmptyImage)
    } else {
        Ok(())
    }
}

/// Pixels of `s` darker than `white_ge`.
pub open spec fn ink_count(s: Seq<u8>, white_ge: u8) -> nat
    decreases s.len(),
{
    if s.len() == 0 {
        0
    } else {
        ink_count(s.drop_last(), white_ge) + if s.last() < white_ge {
            1nat
        } else {
            0nat
        }
    }
}

/// `ink_count` counts exactly the pixels darker than `white_ge`.
pub proof fn lemma_ink_count_counts_dark(s: Seq<u8>, white_ge: u8)
    ensures
        ink_count(s, white_ge) == s.filter(|p: u8| p < white_ge).len(),
    decreases s.len(),
{
    reveal(Seq::filter);
    if s.len() > 0 {
        lemma_ink_count_counts_dark(s.drop_last(), white_ge);
    }
}

/// Row `y` of a `w`-wide image.
pub open spec fn row_of(raw: Seq<u8>, w: nat, y: int) -> Seq<u8> {
    raw.subrange(y * w, y * w + w)
}

/// Column `x` of a `w` by `h` image.
pub open spec fn col_of(raw: Seq<u8>, w: nat, h: nat, x: int) -> Seq<u8> {
    Seq::new(h, |y: int| raw[y * w + x])
}

/// Ink a row needs to count: 1.5% of the width, at least 3 pixels.
pub open spec fn row_ink_min(w: nat) -> nat {
    if w * 15 / 1000 > 3 {
        w * 15 / 1000
    } else {
        3
    }
}

/// Ink a column needs to count: 1.5% of the height, at least 3 pixels.
pub open spec fn col_ink_min(h: nat) -> nat {
    row_ink_min(h)
}

/// Row `y` has enough ink.
pub open spec fn row_has_ink(raw: Seq<u8>, w: nat, y: int, white_ge: u8) -> bool {
    ink_count(row_of(raw, w, y), white_ge) >= row_ink_min(w)
}

/// Column `x` has enough ink.
pub open spec fn col_has_ink(raw: Seq<u8>, w: nat, h: nat, x: int, white_ge: u8) -> bool {
    ink_count(col_of(raw, w, h, x), white_ge) >= col_ink_min(h)
}

/// First row at or after `y` with ink (`h` when none).
pub open spec fn first_ink_row(raw: Seq<u8>, w: nat, h: nat, white_ge: u8, y: int) -> int
    decreases h - y,
{
    if y >= h || y < 0 {
        h as int
    } else if row_has_ink(raw, w, y, white_ge) {
        y
    } else {
        first_ink_row(raw, w, h, white_ge, y + 1)
    }
}

/// End of the last row with ink below `end`, not going under `lo`.
pub open spec fn last_ink_row_end(raw: Seq<u8>, w: nat, white_ge: u8, end: int, lo: int) -> int
    decreases end - lo,
{
    if end <= lo {
        lo
    } else if row_has_ink(raw, w, end - 1, white_ge) {
        end
    } else {
        last_ink_row_end(raw, w, white_ge, end - 1, lo)
    }
}

/// First column at or after `x` with ink (`w` when none).
pub open spec fn first_ink_col(raw: Seq<u8>, w: nat, h: nat, white_ge: u8, x: int) -> int
    decreases w - x,
{
    if x >= w || x < 0 {
        w as int
    } else if col_has_ink(raw, w, h, x, white_ge) {
        x
    } else {
        first_ink_col(raw, w, h, white_ge, x + 1)
    }
}

/// End of the last column with ink before `end`, not going under `lo`.
pub open spec fn last_ink_col_end(
    raw: Seq<u8>,
    w: nat,
    h: nat,
    white_ge: u8,
    end: int,
    lo: int,
) -> int
    decreases end - lo,
{
    if end <= lo {
        lo
    } else if col_has_ink(raw, w, h, end - 1, white_ge) {
        end
    } else {
        last_ink_col_end(raw, w, h, white_ge, end - 1, lo)
    }
}

/// The ink box of a `w` by `h` Gray8 image as (left, top, width, height):
/// the rows and columns between the first and last with enough ink. None
/// when the image is too small to trim (under 8 px a side) or the box
/// would be 8 px or less a side; the image is then kept whole.
pub open spec fn ink_box(raw: Seq<u8>, w: nat, h: nat, white_ge: u8) -> Option<(nat, nat, nat, nat)> {
    if w < 8 || h < 8 {
        None
    } else {
        let top = first_ink_row(raw, w, h, white_ge, 0);
        let bot = last_ink_row_end(raw, w, white_ge, h as int, top);
        let left = first_ink_col(raw, w, h, white_ge, 0);
        let right = last_ink_col_end(raw, w, h, white_ge, w as int, left);
        if right <= left + 8 || bot <= top + 8 {
            None
        } else {
            Some((left as nat, top as nat, (right - left) as nat, (bot - top) as nat))
        }
    }
}

proof fn lemma_row_in_bounds(w: nat, h: nat, y: int)
    requires
        0 <= y < h,
    ensures
        y * w + w <= w * h,
        0 <= y * w,
{
    assert(y * w + w <= w * h) by (nonlinear_arith)
        requires
            0 <= y < h,
            w >= 0,
    ;
    assert(0 <= y * w) by (nonlinear_arith)
        requires
            0 <= y,
            w >= 0,
    ;
}

proof fn lemma_cell_in_bounds(w: nat, h: nat, y: int, x: int)
    requires
        0 <= y < h,
        0 <= x < w,
    ensures
        0 <= y * w + x < w * h,
{
    lemma_row_in_bounds(w, h, y);
}

fn row_ink(raw: &Vec<u8>, w: u32, h: u32, y: u32, white_ge: u8) -> (r: bool)
    requires
        raw@.len() == w * h,
        y < h,
    ensures
        r == row_has_ink(raw@, w as nat, y as int, white_ge),
{
    let total: usize = raw.len();
    proof {
        lemma_row_in_bounds(w as nat, h as nat, y as int);
    }
    let start: usize = (y as usize) * (w as usize);
    let end: usize = start + (w as usize);
    let mut i: usize = start;
    let mut n: usize = 0;
    while i < end
        invariant
            start <= i <= end <= raw@.len(),
            start == y * w,
            end == start + w,
            n == ink_count(raw@.subrange(start as int, i as int), white_ge),
            n <= i - start,
        decreases end - i,
    {
        proof {
            assert(raw@.subrange(start as int, i + 1).drop_last() =~= raw@.subrange(
                start as int,
                i as int,
            ));
        }
        if raw[i] < white_ge {
            n = n + 1;
        }
        i = i + 1;
    }
    let m: u64 = (w as u64) * 15 / 1000;
    let min: u64 = if m > 3 {
        m
    } else {
        3
    };
    (n as u64) >= min
}

fn col_ink(raw: &Vec<u8>, w: u32, h: u32, x: u32, white_ge: u8) -> (r: bool)
    requires
        raw@.len() == w * h,
        x < w,
    ensures
        r == col_has_ink(raw@, w as nat, h as nat, x as int, white_ge),
{
    let ghost col = col_of(raw@, w as nat, h as nat, x as int);
    let total: usize = raw.len();
    let mut y: u32 = 0;
    let mut n: usize = 0;
    while y < h
        invariant
            y <= h,
            raw@.len() == w * h,
            total == raw@.len(),
            x < w,
            col == col_of(raw@, w as nat, h as nat, x as int),
            n == ink_count(col.take(y as int), white_ge),
            n <= y,
        decreases h - y,
    {
        proof {
            lemma_cell_in_bounds(w as nat, h as nat, y as int, x as int);
            assert(col.take(y + 1).drop_last() =~= col.take(y as int));
        }
        let k: usize = (y as usize) * (w as usize) + (x as usize);
        if raw[k] < white_ge {
            n = n + 1;
        }
        y = y + 1;
    }
    proof {
        assert(col.take(h as int) =~= col);
    }
    let m: u64 = (h as u64) * 15 / 1000;
    let min: u64 = if m > 3 {
        m
    } else {
        3
    };
    (n as u64) >= min
}

/// The ink box of a `w` by `h` Gray8 image (see `ink_box`).
pub fn trim_box(raw: &Vec<u8>, w: u32, h: u32, white_ge: u8) -> (r: Option<(u32, u32, u32, u32)>)
    requires
        raw@.len() == w * h,
    ensures
        match r {
            Some(b) => ink_box(raw@, w as nat, h as nat, white_ge) == Some(
                (b.0 as nat, b.1 as nat, b.2 as nat, b.3 as nat),
            ),
            None => ink_box(raw@, w as nat, h as nat, white_ge) is None,
        },
{
    if w < 8 || h < 8 {
        return None;
    }
    let ghost rw = raw@;
    let mut top: u32 = 0;
    while top < h && !row_ink(raw, w, h, top, white_ge)
        invariant
            top <= h,
            raw@.len() == w * h,
            rw == raw@,
            first_ink_row(rw, w as nat, h as nat, white_ge, 0) == first_ink_row(
                rw,
                w as nat,
                h as nat,
                white_ge,
                top as int,
            ),
        decreases h - top,
    {
        top = top + 1;
    }
    let mut bot: u32 = h;
    while bot > top && !row_ink(raw, w, h, bot - 1, white_ge)
        invariant
            top <= bot <= h,
            raw@.len() == w * h,
            rw == raw@,
            last_ink_row_end(rw, w as nat, white_ge, h as int, top as int) == last_ink_row_end(
                rw,
                w as nat,
                white_ge,
                bot as int,
                top as int,
            ),
        decreases bot - top,
    {
        bot = bot - 1;
    }
    let mut left: u32 = 0;
    while left < w && !col_ink(raw, w, h, left, white_ge)
        invariant
            left <= w,
            raw@.len() == w * h,
            rw == raw@,
            first_ink_col(rw, w as nat, h as nat, white_ge, 0) == first_ink_col(
                rw,
                w as nat,
                h as nat,
                white_ge,
                left as int,
            ),
        decreases w - left,
    {
        left = left + 1;
    }
    let mut right: u32 = w;
    while right > left && !col_ink(raw, w, h, right - 1, white_ge)
        invariant
            left <= right <= w,
            raw@.len() == w * h,
            rw == raw@,
            last_ink_col_end(rw, w as nat, h as nat, white_ge, w as int, left as int)
                == last_ink_col_end(rw, w as nat, h as nat, white_ge, right as int, left as int),
        decreases right - left,
    {
        right = right - 1;
    }
    if right <= left || right - left <= 8 || bot <= top || bot - top <= 8 {
        return None;
    }
    Some((left, top, right - left, bot - top))
}

/// The content band of a panel with chrome strips reserved at top and
/// bottom: (top, content width, content height); neither size is zero.
pub open spec fn content_band(panel_w: nat, panel_h: nat, chrome_top: nat, chrome_bot: nat) -> (
    nat,
    nat,
    nat,
) {
    let top = if chrome_top < panel_h {
        chrome_top
    } else {
        panel_h
    };
    let room = (panel_h - top) as nat;
    let bot = if chrome_bot < room {
        chrome_bot
    } else {
        room
    };
    let ch = if panel_h >= top + bot {
        (panel_h - top - bot) as nat
    } else {
        0nat
    };
    (top, if panel_w > 1 {
        panel_w
    } else {
        1nat
    }, if ch > 1 {
        ch
    } else {
        1nat
    })
}

/// The content band of a panel (see `content_band`).
pub fn band(panel_w: usize, panel_h: usize, chrome_top: usize, chrome_bot: usize) -> (r: (
    usize,
    usize,
    usize,
))
    ensures
        (r.0 as nat, r.1 as nat, r.2 as nat) == content_band(
            panel_w as nat,
            panel_h as nat,
            chrome_top as nat,
            chrome_bot as nat,
        ),
{
    let top = if chrome_top < panel_h {
        chrome_top
    } else {
        panel_h
    };
    let room = panel_h - top;
    let bot = if chrome_bot < room {
        chrome_bot
    } else {
        room
    };
    let ch = panel_h - top - bot;
    (top, if panel_w > 1 {
        panel_w
    } else {
        1
    }, if ch > 1 {
        ch
    } else {
        1
    })
}

/// Where a `dw` by `dh` page sits in the panel: centred in the content
/// band, (x offset, y offset).
pub open spec fn letterbox_origin(
    panel_w: nat,
    panel_h: nat,
    chrome_top: nat,
    chrome_bot: nat,
    dw: nat,
    dh: nat,
) -> (nat, nat) {
    let (top, cw, ch) = content_band(panel_w, panel_h, chrome_top, chrome_bot);
    let ox = if cw > dw {
        ((cw - dw) as nat) / 2
    } else {
        0
    };
    let oy = top + if ch > dh {
        ((ch - dh) as nat) / 2
    } else {
        0
    };
    (ox, oy)
}

/// Pixel (x, y) of the letterboxed panel: the page pixel where the page
/// covers it (clipped at the right edge), white elsewhere.
pub open spec fn letterbox_pixel(
    raw: Seq<u8>,
    dw: nat,
    dh: nat,
    panel_w: nat,
    ox: nat,
    oy: nat,
    x: int,
    y: int,
) -> u8 {
    if oy <= y < oy + dh && ox <= x < ox + dw && x < panel_w {
        raw[(y - oy) * dw + (x - ox)]
    } else {
        LETTERBOX
    }
}

/// Pixel `k` of the row-major letterboxed panel.
pub open spec fn flat_pixel(
    raw: Seq<u8>,
    dw: nat,
    dh: nat,
    panel_w: nat,
    ox: nat,
    oy: nat,
    k: int,
) -> u8 {
    letterbox_pixel(raw, dw, dh, panel_w, ox, oy, k % (panel_w as int), k / (panel_w as int))
}

/// The scaled page fits below its band offset.
pub open spec fn letterbox_fits(
    panel_w: nat,
    panel_h: nat,
    chrome_top: nat,
    chrome_bot: nat,
    dw: nat,
    dh: nat,
) -> bool {
    let (ox, oy) = letterbox_origin(panel_w, panel_h, chrome_top, chrome_bot, dw, dh);
    oy + dh <= panel_h
}

/// Contain: a page no wider than the panel that fits below its band offset
/// shows every one of its pixels at its place in the letterbox; nothing is
/// cropped.
pub proof fn lemma_letterbox_shows_whole_page(
    raw: Seq<u8>,
    dw: nat,
    dh: nat,
    panel_w: nat,
    panel_h: nat,
    chrome_top: nat,
    chrome_bot: nat,
    px: int,
    py: int,
)
    requires
        dw <= panel_w,
        letterbox_fits(panel_w, panel_h, chrome_top, chrome_bot, dw, dh),
        0 <= px < dw,
        0 <= py < dh,
    ensures
        ({
            let (ox, oy) = letterbox_origin(panel_w, panel_h, chrome_top, chrome_bot, dw, dh);
            &&& ox + px < panel_w
            &&& oy + py < panel_h
            &&& letterbox_pixel(raw, dw, dh, panel_w, ox, oy, ox + px, oy + py) == raw[py * dw
                + px]
        }),
{
}

/// Place a `dw` by `dh` Gray8 page on a white panel, centred in the content
/// band left by the chrome strips.
pub fn compose_letterbox(
    raw: &Vec<u8>,
    dw: usize,
    dh: usize,
    panel_w: usize,
    panel_h: usize,
    chrome_top: usize,
    chrome_bot: usize,
) -> (r: GrayPage)
    requires
        raw@.len() == dw * dh,
        panel_w * panel_h <= usize::MAX,
        letterbox_fits(
            panel_w as nat,
            panel_h as nat,
            chrome_top as nat,
            chrome_bot as nat,
            dw as nat,
            dh as nat,
        ),
    ensures
        r.wf(),
        r.width == panel_w,
        r.height == panel_h,
        ({
            let (ox, oy) = letterbox_origin(
                panel_w as nat,
                panel_h as nat,
                chrome_top as nat,
                chrome_bot as nat,
                dw as nat,
                dh as nat,
            );
            forall|y: int, x: int|
                0 <= y < panel_h && 0 <= x < panel_w ==> #[trigger] r.pixels@[y * panel_w + x]
                    == letterbox_pixel(raw@, dw as nat, dh as nat, panel_w as nat, ox, oy, x, y)
        }),
{
    let (top, cw, ch) = band(panel_w, panel_h, chrome_top, chrome_bot);
    let ox: usize = if cw > dw {
        (cw - dw) / 2
    } else {
        0
    };
    let oy: usize = top + if ch > dh {
        (ch - dh) / 2
    } else {
        0
    };
    let total: usize = raw.len();
    let mut pixels: Vec<u8> = Vec::new();
    let mut y: usize = 0;
    while y < panel_h
        invariant
            y <= panel_h,
            panel_w * panel_h <= usize::MAX,
            raw@.len() == dw * dh,
            total == raw@.len(),
            oy + dh <= panel_h,
            pixels@.len() == y * panel_w,
            forall|k: int|
                0 <= k < pixels@.len() ==> #[trigger] pixels@[k] == flat_pixel(
                    raw@,
                    dw as nat,
                    dh as nat,
                    panel_w as nat,
                    ox as nat,
                    oy as nat,
                    k,
                ),
        decreases panel_h - y,
    {
        let mut x: usize = 0;
        while x < panel_w
            invariant
                y < panel_h,
                x <= panel_w,
                panel_w * panel_h <= usize::MAX,
                raw@.len() == dw * dh,
                total == raw@.len(),
                oy + dh <= panel_h,
                pixels@.len() == y * panel_w + x,
                forall|k: int|
                    0 <= k < pixels@.len() ==> #[trigger] pixels@[k] == flat_pixel(
                        raw@,
                        dw as nat,
                        dh as nat,
                        panel_w as nat,
                        ox as nat,
                        oy as nat,
                        k,
                    ),
            decreases panel_w - x,
        {
            let ghost k = y * panel_w + x;
            proof {
                vstd::arithmetic::div_mod::lemma_fundamental_div_mod_converse(
                    k as int,
                    panel_w as int,
                    y as int,
                    x as int,
                );
            }
            let v: u8 = if oy <= y && y < oy + dh && ox <= x && x - ox < dw {
                let sy = y - oy;
                let sx = x - ox;
                proof {
                    assert(sy * dw + sx < dw * dh) by (nonlinear_arith)
                        requires
                            sy < dh,
                            sx < dw,
                    ;
                }
                raw[sy * dw + sx]
            } else {
                LETTERBOX
            };
            let ghost before = pixels@;
            pixels.push(v);
            proof {
                assert(pixels@[k as int] == flat_pixel(
                    raw@,
                    dw as nat,
                    dh as nat,
                    panel_w as nat,
                    ox as nat,
                    oy as nat,
                    k as int,
                ));
                assert forall|j: int| 0 <= j < pixels@.len() implies #[trigger] pixels@[j]
                    == flat_pixel(
                    raw@,
                    dw as nat,
                    dh as nat,
                    panel_w as nat,
                    ox as nat,
                    oy as nat,
                    j,
                ) by {
                    if j < before.len() {
                        assert(pixels@[j] == before[j]);
                    }
                }
            }
            x = x + 1;
        }
        proof {
            assert(y * panel_w + panel_w == (y + 1) * panel_w) by (nonlinear_arith);
        }
        y = y + 1;
    }
    proof {
        assert(panel_h * panel_w == panel_w * panel_h) by (nonlinear_arith);
    }
    let r = GrayPage { width: panel_w, height: panel_h, pixels };
    proof {
        assert forall|yy: int, xx: int|
            0 <= yy < panel_h && 0 <= xx < panel_w implies #[trigger] r.pixels@[yy * panel_w + xx]
            == letterbox_pixel(
            raw@,
            dw as nat,
            dh as nat,
            panel_w as nat,
            ox as nat,
            oy as nat,
            xx,
            yy,
        ) by {
            let k = yy * panel_w + xx;
            vstd::arithmetic::div_mod::lemma_fundamental_div_mod_converse(
                k,
                panel_w as int,
                yy,
                xx,
            );
            assert(k < panel_w * panel_h) by (nonlinear_arith)
                requires
                    yy < panel_h,
                    xx < panel_w,
                    k == yy * panel_w + xx,
                    0 <= yy,
                    0 <= xx,
            ;
            assert(r.pixels@[k] == flat_pixel(
                raw@,
                dw as nat,
                dh as nat,
                panel_w as nat,
                ox as nat,
                oy as nat,
                k,
            ));
        }
    }
    r
}

/// The ink box lies inside the image.
pub proof fn lemma_ink_box_in_bounds(raw: Seq<u8>, w: nat, h: nat, white_ge: u8)
    ensures
        ink_box(raw, w, h, white_ge) matches Some(b) ==> b.0 + b.2 <= w && b.1 + b.3 <= h,
{
    if w >= 8 && h >= 8 {
        let top = first_ink_row(raw, w, h, white_ge, 0);
        lemma_first_ink_row_range(raw, w, h, white_ge, 0);
        lemma_last_ink_row_end_range(raw, w, white_ge, h as int, top);
        let left = first_ink_col(raw, w, h, white_ge, 0);
        lemma_first_ink_col_range(raw, w, h, white_ge, 0);
        lemma_last_ink_col_end_range(raw, w, h, white_ge, w as int, left);
    }
}

proof fn lemma_first_ink_row_is_first(raw: Seq<u8>, w: nat, h: nat, white_ge: u8, y: int)
    requires
        0 <= y <= h,
    ensures
        y <= first_ink_row(raw, w, h, white_ge, y) <= h,
        first_ink_row(raw, w, h, white_ge, y) < h ==> row_has_ink(
            raw,
            w,
            first_ink_row(raw, w, h, white_ge, y),
            white_ge,
        ),
        forall|z: int| y <= z < first_ink_row(raw, w, h, white_ge, y) ==> !#[trigger] row_has_ink(raw, w, z, white_ge),
    decreases h - y,
{
    if y < h && !row_has_ink(raw, w, y, white_ge) {
        lemma_first_ink_row_is_first(raw, w, h, white_ge, y + 1);
    }
}

proof fn lemma_last_ink_row_is_last(raw: Seq<u8>, w: nat, white_ge: u8, end: int, lo: int)
    requires
        lo <= end,
    ensures
        lo <= last_ink_row_end(raw, w, white_ge, end, lo) <= end,
        last_ink_row_end(raw, w, white_ge, end, lo) > lo ==> row_has_ink(
            raw,
            w,
            last_ink_row_end(raw, w, white_ge, end, lo) - 1,
            white_ge,
        ),
        forall|z: int| last_ink_row_end(raw, w, white_ge, end, lo) <= z < end ==> !#[trigger] row_has_ink(raw, w, z, white_ge),
    decreases end - lo,
{
    if end > lo && !row_has_ink(raw, w, end - 1, white_ge) {
        lemma_last_ink_row_is_last(raw, w, white_ge, end - 1, lo);
    }
}

proof fn lemma_first_ink_col_is_first(raw: Seq<u8>, w: nat, h: nat, white_ge: u8, x: int)
    requires
        0 <= x <= w,
    ensures
        x <= first_ink_col(raw, w, h, white_ge, x) <= w,
        first_ink_col(raw, w, h, white_ge, x) < w ==> col_has_ink(
            raw,
            w,
            h,
            first_ink_col(raw, w, h, white_ge, x),
            white_ge,
        ),
        forall|z: int| x <= z < first_ink_col(raw, w, h, white_ge, x) ==> !#[trigger] col_has_ink(raw, w, h, z, white_ge),
    decreases w - x,
{
    if x < w && !col_has_ink(raw, w, h, x, white_ge) {
        lemma_first_ink_col_is_first(raw, w, h, white_ge, x + 1);
    }
}

proof fn lemma_last_ink_col_is_last(raw: Seq<u8>, w: nat, h: nat, white_ge: u8, end: int, lo: int)
    requires
        lo <= end,
    ensures
        lo <= last_ink_col_end(raw, w, h, white_ge, end, lo) <= end,
        last_ink_col_end(raw, w, h, white_ge, end, lo) > lo ==> col_has_ink(
            raw,
            w,
            h,
            last_ink_col_end(raw, w, h, white_ge, end, lo) - 1,
            white_ge,
        ),
        forall|z: int| last_ink_col_end(raw, w, h, white_ge, end, lo) <= z < end ==> !#[trigger] col_has_ink(raw, w, h, z, white_ge),
    decreases end - lo,
{
    if end > lo && !col_has_ink(raw, w, h, end - 1, white_ge) {
        lemma_last_ink_col_is_last(raw, w, h, white_ge, end - 1, lo);
    }
}

/// The ink box is bounded by the extreme inked rows and columns of the whole
/// page: its top row and its bottom row (`top + height - 1`) have enough ink
/// and no row above the top or below the bottom does; likewise its left and
/// right columns and the columns outside them. It is more than 8 px a side
/// and lies inside the page.
pub proof fn lemma_ink_box_spans_the_ink(raw: Seq<u8>, w: nat, h: nat, white_ge: u8)
    ensures
        ink_box(raw, w, h, white_ge) matches Some((l, t, bw, bh)) ==> {
            &&& w >= 8 && h >= 8
            &&& bw > 8 && bh > 8
            &&& l + bw <= w && t + bh <= h
            &&& row_has_ink(raw, w, t as int, white_ge)
            &&& row_has_ink(raw, w, t + bh - 1, white_ge)
            &&& forall|y: int|
                (0 <= y < t || t + bh <= y < h) ==> !#[trigger] row_has_ink(raw, w, y, white_ge)
            &&& col_has_ink(raw, w, h, l as int, white_ge)
            &&& col_has_ink(raw, w, h, l + bw - 1, white_ge)
            &&& forall|x: int|
                (0 <= x < l || l + bw <= x < w) ==> !#[trigger] col_has_ink(raw, w, h, x, white_ge)
        },
{
    if w >= 8 && h >= 8 {
        lemma_first_ink_row_is_first(raw, w, h, white_ge, 0);
        let top = first_ink_row(raw, w, h, white_ge, 0);
        lemma_last_ink_row_is_last(raw, w, white_ge, h as int, top);
        lemma_first_ink_col_is_first(raw, w, h, white_ge, 0);
        let left = first_ink_col(raw, w, h, white_ge, 0);
        lemma_last_ink_col_is_last(raw, w, h, white_ge, w as int, left);
    }
}

/// A page of at least 8 px a side with two inked rows at least 8 apart and
/// two inked columns at least 8 apart has an ink box, and the box reaches
/// them all.
pub proof fn lemma_ink_box_found(
    raw: Seq<u8>,
    w: nat,
    h: nat,
    white_ge: u8,
    y1: int,
    y2: int,
    x1: int,
    x2: int,
)
    requires
        w >= 8,
        h >= 8,
        0 <= y1,
        y1 + 8 <= y2 < h,
        0 <= x1,
        x1 + 8 <= x2 < w,
        row_has_ink(raw, w, y1, white_ge),
        row_has_ink(raw, w, y2, white_ge),
        col_has_ink(raw, w, h, x1, white_ge),
        col_has_ink(raw, w, h, x2, white_ge),
    ensures
        ink_box(raw, w, h, white_ge) matches Some((l, t, bw, bh)) && t <= y1 && y2 < t + bh && l <= x1
            && x2 < l + bw,
{
    lemma_first_ink_row_is_first(raw, w, h, white_ge, 0);
    let top = first_ink_row(raw, w, h, white_ge, 0);
    lemma_last_ink_row_is_last(raw, w, white_ge, h as int, top);
    lemma_first_ink_col_is_first(raw, w, h, white_ge, 0);
    let left = first_ink_col(raw, w, h, white_ge, 0);
    lemma_last_ink_col_is_last(raw, w, h, white_ge, w as int, left);
    let bot = last_ink_row_end(raw, w, white_ge, h as int, top);
    let right = last_ink_col_end(raw, w, h, white_ge, w as int, left);
    assert(top <= y1);
    assert(bot > y2) by {
        if bot <= y2 {
            assert(!row_has_ink(raw, w, y2, white_ge));
        }
    }
    assert(left <= x1);
    assert(right > x2) by {
        if right <= x2 {
            assert(!col_has_ink(raw, w, h, x2, white_ge));
        }
    }
}

proof fn lemma_first_ink_row_range(raw: Seq<u8>, w: nat, h: nat, white_ge: u8, y: int)
    requires
        0 <= y,
    ensures
        0 <= first_ink_row(raw, w, h, white_ge, y) <= h,
    decreases h - y,
{
    if y < h && !row_has_ink(raw, w, y, white_ge) {
        lemma_first_ink_row_range(raw, w, h, white_ge, y + 1);
    }
}

proof fn lemma_last_ink_row_end_range(raw: Seq<u8>, w: nat, white_ge: u8, end: int, lo: int)
    requires
        lo <= end,
    ensures
        lo <= last_ink_row_end(raw, w, white_ge, end, lo) <= end,
    decreases end - lo,
{
    if end > lo && !row_has_ink(raw, w, end - 1, white_ge) {
        lemma_last_ink_row_end_range(raw, w, white_ge, end - 1, lo);
    }
}

proof fn lemma_first_ink_col_range(raw: Seq<u8>, w: nat, h: nat, white_ge: u8, x: int)
    requires
        0 <= x,
    ensures
        0 <= first_ink_col(raw, w, h, white_ge, x) <= w,
    decreases w - x,
{
    if x < w && !col_has_ink(raw, w, h, x, white_ge) {
        lemma_first_ink_col_range(raw, w, h, white_ge, x + 1);
    }
}

proof fn lemma_last_ink_col_end_range(
    raw: Seq<u8>,
    w: nat,
    h: nat,
    white_ge: u8,
    end: int,
    lo: int,
)
    requires
        lo <= end,
    ensures
        lo <= last_ink_col_end(raw, w, h, white_ge, end, lo) <= end,
    decreases end - lo,
{
    if end > lo && !col_has_ink(raw, w, h, end - 1, white_ge) {
        lemma_last_ink_col_end_range(raw, w, h, white_ge, end - 1, lo);
    }
}

/// The samples of a decoded page, row-major RGBA at the depth it was decoded
/// in: 8 bits a sample for 8-bit sources, 16 bits for deeper ones.
pub enum Samples {
    Rgba8(Vec<u8>),
    Rgba16(Vec<u16>),
}

/// The samples of a decoded page as plain values.
pub enum PageSamples {
    Rgba8(Seq<u8>),
    Rgba16(Seq<u16>),
}

impl View for Samples {
    type V = PageSamples;

    open spec fn view(&self) -> PageSamples {
        match self {
            Samples::Rgba8(v) => PageSamples::Rgba8(v@),
            Samples::Rgba16(v) => PageSamples::Rgba16(v@),
        }
    }
}

/// Number of samples.
pub open spec fn samples_len(s: PageSamples) -> nat {
    match s {
        PageSamples::Rgba8(v) => v.len(),
        PageSamples::Rgba16(v) => v.len(),
    }
}

/// A decoded image as plain values.
pub struct DecodedPage {
    pub width: u32,
    pub height: u32,
    /// `width * height * 4` samples.
    pub samples: Samples,
}

/// A decoded image as plain values: width, height, samples.
pub type DecodedView = (u32, u32, PageSamples);

impl DecodedPage {
    /// Four samples a pixel.
    pub open spec fn wf(&self) -> bool {
        samples_len(self.samples@) == self.width * self.height * 4
    }

    /// The plain value of the page.
    pub open spec fn view_of(&self) -> DecodedView {
        (self.width, self.height, self.samples@)
    }
}

/// What the image crate decodes a file's bytes to (format sniffed from the
/// bytes), as RGBA at 8 bits a sample for 8-bit sources and 16 otherwise.
pub uninterp spec fn decoded(bytes: Seq<u8>) -> Option<(u32, u32, PageSamples)>;

/// The image crate's 8-bit luma of an RGBA image.
pub uninterp spec fn grayed(width: u32, height: u32, samples: PageSamples) -> Seq<u8>;

/// The image crate's aspect-keeping triangle-filter resize of an RGBA image
/// towards `dw` by `dh`, as 8-bit luma: its width, height and pixels.
pub uninterp spec fn resampled(width: u32, height: u32, samples: PageSamples, dw: u32, dh: u32) -> (
    u32,
    u32,
    Seq<u8>,
);

/// `image::load_from_memory`, then `DynamicImage::into_rgba8` for 8-bit
/// colour types and `into_rgba16` for the others; `None` when the bytes do
/// not decode. The buffer holds exactly four samples a pixel.
#[verifier::external_body]
pub fn decode_page(bytes: &[u8]) -> (r: Option<DecodedPage>)
    ensures
        r is None <==> decoded(bytes@) is None,
        r matches Some(p) ==> p.wf() && decoded(bytes@) == Some(p.view_of()),
{
    let img = image::load_from_memory(bytes).ok()?;
    let (width, height) = (img.width(), img.height());
    let samples = match img.color() {
        ColorType::L8 | ColorType::La8 | ColorType::Rgb8 | ColorType::Rgba8 => Samples::Rgba8(img.into_rgba8().into_raw()),
        _ => Samples::Rgba16(img.into_rgba16().into_raw()),
    };
    Some(DecodedPage { width, height, samples })
}

/// `DynamicImage::to_luma8` of the page: one luma byte a pixel.
#[verifier::external_body]
fn gray_of(p: &DecodedPage) -> (r: Vec<u8>)
    requires
        p.wf(),
    ensures
        r@ == grayed(p.width, p.height, p.samples@),
        r@.len() == p.width * p.height,
{
    let img = match &p.samples {
        Samples::Rgba8(v) => image::ImageBuffer::from_raw(p.width, p.height, v.clone()).map(image::DynamicImage::ImageRgba8),
        Samples::Rgba16(v) => image::ImageBuffer::from_raw(p.width, p.height, v.clone()).map(image::DynamicImage::ImageRgba16),
    };
    match img {
        Some(i) => i.to_luma8().into_raw(),
        None => Vec::new(),
    }
}

/// `DynamicImage::resize` (triangle filter, aspect ratio kept, so the size
/// may differ from the one asked for) of the page, then `to_luma8`: the
/// result's width, height and one luma byte a pixel.
#[verifier::external_body]
fn resample_gray(p: &DecodedPage, dw: u32, dh: u32) -> (r: (u32, u32, Vec<u8>))
    requires
        p.wf(),
    ensures
        (r.0, r.1, r.2@) == resampled(p.width, p.height, p.samples@, dw, dh),
        r.2@.len() == r.0 * r.1,
{
    let img = match &p.samples {
        Samples::Rgba8(v) => image::ImageBuffer::from_raw(p.width, p.height, v.clone()).map(image::DynamicImage::ImageRgba8),
        Samples::Rgba16(v) => image::ImageBuffer::from_raw(p.width, p.height, v.clone()).map(image::DynamicImage::ImageRgba16),
    };
    let g = img.unwrap_or_default().resize(dw, dh, image::imageops::FilterType::Triangle).to_luma8();
    (g.width(), g.height(), g.into_raw())
}

/// Rows `top..top+n` of an RGBA image `w` wide, columns `left..left+cw`.
pub open spec fn crop_rows<T>(s: Seq<T>, w: nat, left: nat, top: nat, cw: nat, n: nat) -> Seq<T>
    decreases n,
{
    if n == 0 {
        Seq::empty()
    } else {
        let y = top + n - 1;
        crop_rows(s, w, left, top, cw, (n - 1) as nat) + s.subrange(
            (y * w + left) * 4,
            (y * w + left + cw) * 4,
        )
    }
}

/// The samples of the box at (`left`, `top`), `cw` by `ch`, of a `w`-wide image.
pub open spec fn crop_samples(s: PageSamples, w: nat, left: nat, top: nat, cw: nat, ch: nat) -> PageSamples {
    match s {
        PageSamples::Rgba8(v) => PageSamples::Rgba8(crop_rows(v, w, left, top, cw, ch)),
        PageSamples::Rgba16(v) => PageSamples::Rgba16(crop_rows(v, w, left, top, cw, ch)),
    }
}

/// The page with near-white margins cut away: cropped to the ink box of its
/// luma at threshold `white_ge`, or whole when there is no such box.
pub open spec fn trimmed(d: DecodedView, white_ge: u8) -> DecodedView {
    match ink_box(grayed(d.0, d.1, d.2), d.0 as nat, d.1 as nat, white_ge) {
        None => d,
        Some(b) => (b.2 as u32, b.3 as u32, crop_samples(d.2, d.0 as nat, b.0, b.1, b.2, b.3)),
    }
}

proof fn lemma_crop_rows_len<T>(s: Seq<T>, w: nat, h: nat, left: nat, top: nat, cw: nat, n: nat)
    requires
        s.len() == w * h * 4,
        left + cw <= w,
        top + n <= h,
    ensures
        crop_rows(s, w, left, top, cw, n).len() == cw * n * 4,
    decreases n,
{
    if n > 0 {
        lemma_crop_rows_len(s, w, h, left, top, cw, (n - 1) as nat);
        let y = top + n - 1;
        assert((y * w + left + cw) * 4 <= w * h * 4) by (nonlinear_arith)
            requires
                y < h,
                left + cw <= w,
        ;
        assert((y * w + left) * 4 <= (y * w + left + cw) * 4) by (nonlinear_arith);
        assert((y * w + left + cw) * 4 - (y * w + left) * 4 == cw * 4) by (nonlinear_arith);
        assert(0 <= (y * w + left) * 4) by (nonlinear_arith)
            requires
                y >= 0,
        ;
        let a = (y * w + left) * 4;
        let b = (y * w + left + cw) * 4;
        let prev = crop_rows(s, w, left, top, cw, (n - 1) as nat);
        assert(crop_rows(s, w, left, top, cw, n) == prev + s.subrange(a, b));
        let m = (n - 1) as nat;
        assert(cw * m * 4 + cw * 4 == cw * n * 4) by (nonlinear_arith)
            requires
                m + 1 == n,
        ;
        assert((prev + s.subrange(a, b)).len() == prev.len() + (b - a));
    } else {
        assert(cw * n * 4 == 0) by (nonlinear_arith)
            requires
                n == 0,
        ;
    }
}

/// The box at (`left`, `top`), `cw` by `ch`, of a `w` by `h` RGBA image.
fn crop_vec<T: Copy>(v: &Vec<T>, w: u32, h: u32, left: u32, top: u32, cw: u32, ch: u32) -> (r: Vec<T>)
    requires
        v@.len() == w * h * 4,
        left + cw <= w,
        top + ch <= h,
    ensures
        r@ == crop_rows(v@, w as nat, left as nat, top as nat, cw as nat, ch as nat),
        r@.len() == cw * ch * 4,
{
    let wu = w as usize;
    let total: usize = v.len();
    let mut out: Vec<T> = Vec::new();
    let mut r: usize = 0;
    while r < ch as usize
        invariant
            v@.len() == w * h * 4,
            total == v@.len(),
            wu == w,
            left + cw <= w,
            top + ch <= h,
            r <= ch,
            out@ == crop_rows(v@, w as nat, left as nat, top as nat, cw as nat, r as nat),
        decreases ch - r,
    {
        let y = top as usize + r;
        proof {
            assert((y * wu + left + cw) * 4 <= wu * h * 4) by (nonlinear_arith)
                requires
                    y < h,
                    left + cw <= wu,
            ;
            assert((y * wu + left) * 4 <= (y * wu + left + cw) * 4) by (nonlinear_arith);
        }
        let lo = (y * wu + left as usize) * 4;
        let hi = (y * wu + left as usize + cw as usize) * 4;
        let mut k = lo;
        let ghost before = out@;
        while k < hi
            invariant
                lo <= k <= hi <= v@.len(),
                out@ == before + v@.subrange(lo as int, k as int),
            decreases hi - k,
        {
            proof {
                assert(v@.subrange(lo as int, k + 1) =~= v@.subrange(lo as int, k as int).push(
                    v@[k as int],
                ));
            }
            out.push(v[k]);
            k = k + 1;
        }
        r = r + 1;
    }
    proof {
        lemma_crop_rows_len(v@, w as nat, h as nat, left as nat, top as nat, cw as nat, ch as nat);
    }
    out
}

/// Cut the page down to the ink box of its luma (see `trimmed`): scan
/// margins that are near white (at least `white_ge`) go.
pub fn trim_near_white_margins(p: &DecodedPage, white_ge: u8) -> (r: DecodedPage)
    requires
        p.wf(),
    ensures
        r.wf(),
        r.view_of() == trimmed(p.view_of(), white_ge),
{
    let gray = gray_of(p);
    match trim_box(&gray, p.width, p.height, white_ge) {
        None => {
            let samples = match &p.samples {
                Samples::Rgba8(v) => Samples::Rgba8(v.clone()),
                Samples::Rgba16(v) => Samples::Rgba16(v.clone()),
            };
            DecodedPage { width: p.width, height: p.height, samples }
        },
        Some((left, top, cw, ch)) => {
            proof {
                lemma_ink_box_in_bounds(gray@, p.width as nat, p.height as nat, white_ge);
            }
            let samples = match &p.samples {
                Samples::Rgba8(v) => Samples::Rgba8(crop_vec(v, p.width, p.height, left, top, cw, ch)),
                Samples::Rgba16(v) => Samples::Rgba16(crop_vec(v, p.width, p.height, left, top, cw, ch)),
            };
            DecodedPage { width: cw, height: ch, samples }
        },
    }
}

/// Decode a page's bytes and trim its scan margins at the usual threshold
/// (245); `None` when the bytes do not decode.
pub fn decode_trimmed(bytes: &[u8]) -> (r: Option<DecodedPage>)
    ensures
        match decoded(bytes@) {
            None => r is None,
            Some(d) => r matches Some(p) && p.wf() && p.view_of() == trimmed(d, 245),
        },
{
    match decode_page(bytes) {
        None => None,
        Some(p) => Some(trim_near_white_margins(&p, 245)),
    }
}

/// Resample a page to `dw` by `dh` and letterbox it on the panel (see
/// `compose_letterbox`). `None` when the resample did not come out at
/// exactly `dw` by `dh`, when the page would run past the panel's bottom,
/// or when the panel's pixel count overflows.
pub fn letterbox_page(
    p: &DecodedPage,
    dw: u32,
    dh: u32,
    panel_w: usize,
    panel_h: usize,
    chrome_top: usize,
    chrome_bot: usize,
) -> (r: Option<GrayPage>)
    requires
        p.wf(),
    ensures
        ({
            let rs = resampled(p.width, p.height, p.samples@, dw, dh);
            let ok = rs.0 == dw && rs.1 == dh && panel_w * panel_h <= usize::MAX && letterbox_fits(
                panel_w as nat,
                panel_h as nat,
                chrome_top as nat,
                chrome_bot as nat,
                dw as nat,
                dh as nat,
            );
            let (ox, oy) = letterbox_origin(
                panel_w as nat,
                panel_h as nat,
                chrome_top as nat,
                chrome_bot as nat,
                dw as nat,
                dh as nat,
            );
            &&& r is Some <==> ok
            &&& r matches Some(g) ==> {
                &&& g.wf()
                &&& g.width == panel_w
                &&& g.height == panel_h
                &&& forall|y: int, x: int|
                    0 <= y < panel_h && 0 <= x < panel_w ==> #[trigger] g.pixels@[y * panel_w + x]
                        == letterbox_pixel(rs.2, dw as nat, dh as nat, panel_w as nat, ox, oy, x, y)
            }
        }),
{
    let (rw, rh, raw) = resample_gray(p, dw, dh);
    if rw != dw || rh != dh {
        return None;
    }
    if panel_w.checked_mul(panel_h).is_none() {
        return None;
    }
    let (top, _cw, ch) = band(panel_w, panel_h, chrome_top, chrome_bot);
    let dhs = dh as usize;
    let oy: usize = top + if ch > dhs {
        (ch - dhs) / 2
    } else {
        0
    };
    if oy > panel_h || dhs > panel_h - oy {
        return None;
    }
    Some(compose_letterbox(&raw, dw as usize, dh as usize, panel_w, panel_h, chrome_top, chrome_bot))
}

} // verus!
