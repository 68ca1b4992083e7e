//! Font atlas registry, cmap lookup and the budgeted runtime glyph cache.
//!
//! A font-atlas blob is a little-endian header, a cmap of fixed-size entries
//! (expected sorted ascending by codepoint) and the coverage cells of every
//! baked glyph. Lookups binary-search the cmap; a miss resolves to gid 0 (the
//! tofu box), bumps the miss counter and queues deduplicated host work.
//!
//! Line model: no automatic word wrap; a run breaks only on explicit '\n'.

use vstd::prelude::*;
use vstd::pervasive::VecAdditionalExecFns;

verus! {

/// Number of font slots in the registry.
pub const MAX_FONT_SLOTS: usize = 8;
/// Atlas blob magic (bytes "PFAT" read little-endian).
pub const ATLAS_MAGIC: u32 = 0x5441_4650;
/// Current atlas format version (carries a raster density byte).
pub const ATLAS_VERSION: u16 = 3;
/// Legacy atlas format version (one coverage sample per logical pixel).
pub const ATLAS_VERSION_LEGACY: u16 = 2;
/// Header bytes before the cmap.
pub const ATLAS_HEADER_SIZE: usize = 16;
/// Bytes per cmap entry: codepoint u32, gid u16, advance u8, xoff u8.
pub const CMAP_ENTRY_SIZE: usize = 8;
/// Default global budget for host-rasterized glyph coverage (4 MiB).
pub const DEFAULT_RUNTIME_GLYPH_BUDGET_BYTES: usize = 4 * 1024 * 1024;

// ---------------------------------------------------------------------------
// Little-endian reads
// ---------------------------------------------------------------------------

/// Little-endian u16 at `off`.
pub open spec fn le16(b: Seq<u8>, off: int) -> int {
    b[off] as int + 256 * (b[off + 1] as int)
}

/// Little-endian u32 at `off`.
pub open spec fn le32(b: Seq<u8>, off: int) -> int {
    b[off] as int + 256 * (b[off + 1] as int) + 65536 * (b[off + 2] as int) + 16777216 * (
    b[off + 3] as int)
}

/// Read a little-endian u16; `None` when the two bytes are not all in `b`.
pub fn rd_u16(b: &[u8], off: usize) -> (r: Option<u16>)
    requires
        off < usize::MAX,
    ensures
        r == (if off + 2 <= b@.len() {
            Some(le16(b@, off as int) as u16)
        } else {
            None::<u16>
        }),
{
    if off >= b.len() || off + 1 >= b.len() {
        return None;
    }
    let lo = b[off] as u16;
    let hi = b[off + 1] as u16;
    Some(lo + hi * 256)
}

/// Read a little-endian u32; `None` when the four bytes are not all in `b`.
pub fn rd_u32(b: &[u8], off: usize) -> (r: Option<u32>)
    requires
        off + 3 < usize::MAX,
    ensures
        r == (if off + 4 <= b@.len() {
            Some(le32(b@, off as int) as u32)
        } else {
            None::<u32>
        }),
{
    if off + 3 >= b.len() {
        return None;
    }
    let b0 = b[off] as u32;
    let b1 = b[off + 1] as u32;
    let b2 = b[off + 2] as u32;
    let b3 = b[off + 3] as u32;
    Some(b0 + b1 * 256 + b2 * 65536 + b3 * 16777216)
}

// ---------------------------------------------------------------------------
// cmap
// ---------------------------------------------------------------------------

/// One cmap entry (sorted ascending by codepoint in the blob).
#[derive(Clone, Copy, Debug)]
pub struct CmapEntry {
    pub codepoint: u32,
    pub gid: u16,
    /// Logical px advance; independent of atlas raster density.
    pub advance: u8,
    /// Left-side-bearing shift: logical px the outline was shifted right at
    /// bake so negative-LSB ink stays inside the cell.
    pub xoff: u8,
}

/// Entries strictly ascending by codepoint (so each codepoint occurs once).
pub open spec fn strictly_sorted(s: Seq<CmapEntry>) -> bool {
    forall|i: int, j: int| 0 <= i < j < s.len() ==> #[trigger] s[i].codepoint < #[trigger] s[j].codepoint
}

/// Entries ascending by codepoint (ties allowed).
pub open spec fn sorted(s: Seq<CmapEntry>) -> bool {
    forall|i: int, j: int| 0 <= i < j < s.len() ==> #[trigger] s[i].codepoint <= #[trigger] s[j].codepoint
}

/// `out` is `s` with `e` inserted at some position; on a sorted `s` the
/// position keeps every smaller codepoint before `e` and every larger one after.
pub open spec fn inserted_entry(s: Seq<CmapEntry>, e: CmapEntry, out: Seq<CmapEntry>) -> bool {
    exists|pos: int|
        {
            &&& 0 <= pos <= s.len()
            &&& out == #[trigger] s.insert(pos, e)
            &&& sorted(s) ==> (forall|j: int| 0 <= j < pos ==> #[trigger] s[j].codepoint < e.codepoint)
                && (forall|j: int| pos <= j < s.len() ==> #[trigger] s[j].codepoint > e.codepoint)
        }
}

/// Whether some entry maps `cp`.
pub open spec fn cmap_has(s: Seq<CmapEntry>, cp: u32) -> bool {
    exists|i: int| 0 <= i < s.len() && #[trigger] s[i].codepoint == cp
}

/// The index that bisection over `[lo, hi)` lands on for `cp`.
pub open spec fn bisect(s: Seq<CmapEntry>, cp: u32, lo: int, hi: int) -> Option<int>
    decreases hi - lo,
{
    if lo >= hi {
        None
    } else {
        let mid = lo + (hi - lo) / 2;
        if s[mid].codepoint == cp {
            Some(mid)
        } else if s[mid].codepoint < cp {
            bisect(s, cp, mid + 1, hi)
        } else {
            bisect(s, cp, lo, mid)
        }
    }
}

/// The cmap index found for `cp`.
pub open spec fn find_index(s: Seq<CmapEntry>, cp: u32) -> Option<int> {
    bisect(s, cp, 0, s.len() as int)
}

/// A found index always maps `cp`; on a sorted cmap a miss means `cp` is unmapped.
pub proof fn lemma_bisect(s: Seq<CmapEntry>, cp: u32, lo: int, hi: int)
    requires
        0 <= lo,
        hi <= s.len(),
    ensures
        bisect(s, cp, lo, hi) matches Some(i) ==> lo <= i < hi && s[i].codepoint == cp,
        sorted(s) && bisect(s, cp, lo, hi) is None ==> forall|j: int|
            lo <= j < hi ==> #[trigger] s[j].codepoint != cp,
    decreases hi - lo,
{
    if lo < hi {
        let mid = lo + (hi - lo) / 2;
        if s[mid].codepoint == cp {
        } else if s[mid].codepoint < cp {
            lemma_bisect(s, cp, mid + 1, hi);
            if sorted(s) && bisect(s, cp, lo, hi) is None {
                assert forall|j: int| lo <= j < hi implies #[trigger] s[j].codepoint != cp by {
                    if j <= mid {
                        assert(s[j].codepoint <= s[mid].codepoint);
                    }
                }
            }
        } else {
            lemma_bisect(s, cp, lo, mid);
            if sorted(s) && bisect(s, cp, lo, hi) is None {
                assert forall|j: int| lo <= j < hi implies #[trigger] s[j].codepoint != cp by {
                    if j >= mid {
                        assert(s[mid].codepoint <= s[j].codepoint);
                    }
                }
            }
        }
    }
}

/// On a strictly sorted cmap the lookup finds exactly the entry mapping `cp`.
pub proof fn lemma_find_index(s: Seq<CmapEntry>, cp: u32)
    ensures
        find_index(s, cp) matches Some(i) ==> 0 <= i < s.len() && s[i].codepoint == cp,
        sorted(s) ==> (find_index(s, cp) is Some <==> cmap_has(s, cp)),
        strictly_sorted(s) ==> forall|j: int|
            0 <= j < s.len() && #[trigger] s[j].codepoint == cp ==> find_index(s, cp) == Some(j),
{
    lemma_bisect(s, cp, 0, s.len() as int);
    if strictly_sorted(s) {
        assert(sorted(s));
        assert forall|j: int| 0 <= j < s.len() && #[trigger] s[j].codepoint == cp implies find_index(
            s,
            cp,
        ) == Some(j) by {
            let i = find_index(s, cp)->0;
            if i < j {
                assert(s[i].codepoint < s[j].codepoint);
            } else if j < i {
                assert(s[j].codepoint < s[i].codepoint);
            }
        }
    }
    if sorted(s) && cmap_has(s, cp) {
        let j = choose|j: int| 0 <= j < s.len() && #[trigger] s[j].codepoint == cp;
        assert(s[j].codepoint == cp);
    }
}

fn find_cmap_index(cmap: &Vec<CmapEntry>, cp: u32) -> (r: Option<usize>)
    ensures
        r matches Some(i) ==> find_index(cmap@, cp) == Some(i as int),
        r is None ==> find_index(cmap@, cp) is None,
{
    let mut lo: usize = 0;
    let mut hi: usize = cmap.len();
    while lo < hi
        invariant
            0 <= lo <= hi <= cmap@.len(),
            bisect(cmap@, cp, lo as int, hi as int) == find_index(cmap@, cp),
        decreases hi - lo,
    {
        let mid = lo + (hi - lo) / 2;
        let c = cmap[mid].codepoint;
        if c == cp {
            return Some(mid);
        } else if c < cp {
            lo = mid + 1;
        } else {
            hi = mid;
        }
    }
    None
}

/// First index whose codepoint is not below `cp` (on a sorted cmap).
fn partition_index(cmap: &Vec<CmapEntry>, cp: u32) -> (r: usize)
    ensures
        r <= cmap@.len(),
        sorted(cmap@) ==> forall|j: int| 0 <= j < r ==> #[trigger] cmap@[j].codepoint < cp,
        sorted(cmap@) ==> forall|j: int| r <= j < cmap@.len() ==> #[trigger] cmap@[j].codepoint >= cp,
{
    let mut lo: usize = 0;
    let mut hi: usize = cmap.len();
    while lo < hi
        invariant
            0 <= lo <= hi <= cmap@.len(),
            sorted(cmap@) ==> forall|j: int| 0 <= j < lo ==> #[trigger] cmap@[j].codepoint < cp,
            sorted(cmap@) ==> forall|j: int| hi <= j < cmap@.len() ==> #[trigger] cmap@[j].codepoint >= cp,
        decreases hi - lo,
    {
        let mid = lo + (hi - lo) / 2;
        if cmap[mid].codepoint < cp {
            proof {
                if sorted(cmap@) {
                    assert forall|j: int| 0 <= j < mid + 1 implies #[trigger] cmap@[j].codepoint < cp by {
                        if j < mid {
                            assert(cmap@[j].codepoint <= cmap@[mid as int].codepoint);
                        }
                    }
                }
            }
            lo = mid + 1;
        } else {
            proof {
                if sorted(cmap@) {
                    assert forall|j: int| mid <= j < cmap@.len() implies #[trigger] cmap@[j].codepoint >= cp by {
                        if j > mid {
                            assert(cmap@[mid as int].codepoint <= cmap@[j].codepoint);
                        }
                    }
                }
            }
            hi = mid;
        }
    }
    lo
}


// ---------------------------------------------------------------------------
// Atlas blob format
// ---------------------------------------------------------------------------

/// Format version field.
pub open spec fn blob_version(b: Seq<u8>) -> int {
    le16(b, 4)
}

/// Raster density the header selects (legacy blobs resolve to 1).
pub open spec fn blob_density(b: Seq<u8>) -> int {
    if blob_version(b) == ATLAS_VERSION_LEGACY as int {
        1
    } else {
        b[14] as int
    }
}

/// Glyph count field.
pub open spec fn blob_glyph_count(b: Seq<u8>) -> int {
    le16(b, 6)
}

/// Byte offset of the coverage cells.
pub open spec fn blob_bitmap_off(b: Seq<u8>) -> int {
    ATLAS_HEADER_SIZE + blob_glyph_count(b) * CMAP_ENTRY_SIZE
}

/// Coverage bytes of one glyph cell.
pub open spec fn blob_cell_len(b: Seq<u8>) -> int {
    (b[9] as int * blob_density(b)) * (b[8] as int * blob_density(b))
}

/// Coverage bytes of all baked glyphs.
pub open spec fn blob_bitmap_len(b: Seq<u8>) -> int {
    blob_glyph_count(b) * blob_cell_len(b)
}

/// Byte offset of cmap entry `i`.
pub open spec fn blob_entry_off(i: int) -> int {
    ATLAS_HEADER_SIZE + i * CMAP_ENTRY_SIZE
}

/// Cmap entry `i` as stored in the blob.
pub open spec fn blob_entry(b: Seq<u8>, i: int) -> CmapEntry {
    let o = blob_entry_off(i);
    CmapEntry {
        codepoint: le32(b, o) as u32,
        gid: le16(b, o + 4) as u16,
        advance: b[o + 6],
        xoff: b[o + 7],
    }
}

/// The blob's cmap.
pub open spec fn blob_cmap(b: Seq<u8>) -> Seq<CmapEntry> {
    Seq::new(blob_glyph_count(b) as nat, |i: int| blob_entry(b, i))
}

/// Whether the header is acceptable: magic, a known version with a nonzero
/// density, a slot in range, and nonzero glyph count and cell size.
pub open spec fn blob_header_ok(b: Seq<u8>) -> bool {
    &&& b.len() >= 14
    &&& le32(b, 0) == ATLAS_MAGIC as int
    &&& (blob_version(b) == ATLAS_VERSION_LEGACY as int || (blob_version(b) == ATLAS_VERSION as int
        && b.len() >= 15 && b[14] != 0))
    &&& (b[12] as int) < MAX_FONT_SLOTS as int
    &&& blob_glyph_count(b) != 0
    &&& b[8] != 0
    &&& b[9] != 0
}

/// Whether `Atlas::parse` accepts the blob.
pub open spec fn blob_valid(b: Seq<u8>) -> bool {
    &&& blob_header_ok(b)
    &&& blob_bitmap_len(b) <= usize::MAX
    &&& blob_bitmap_off(b) + blob_bitmap_len(b) <= usize::MAX
    &&& blob_bitmap_off(b) + blob_bitmap_len(b) <= b.len()
    &&& forall|i: int| 0 <= i < blob_glyph_count(b) ==> (#[trigger] blob_entry(b, i)).gid
        < blob_glyph_count(b)
}

/// The atlas a valid blob parses to: its header fields, its cmap, its baked
/// coverage cells and no runtime glyphs.
pub open spec fn blob_atlas(b: Seq<u8>) -> AtlasView {
    AtlasView {
        cell_w: b[8] as u32,
        cell_h: b[9] as u32,
        baseline: b[10] as u32,
        line_height: b[11] as u32,
        raster_density: blob_density(b) as u8,
        slot: b[12],
        flags: b[13],
        glyph_count: blob_glyph_count(b) as u16,
        static_count: blob_glyph_count(b) as u16,
        cmap: blob_cmap(b),
        bitmap: b.subrange(blob_bitmap_off(b), blob_bitmap_off(b) + blob_bitmap_len(b)),
        runtime: Seq::empty(),
    }
}

// ---------------------------------------------------------------------------
// Atlas
// ---------------------------------------------------------------------------

/// Abstract state of one runtime glyph slot.
pub struct RuntimeSlot {
    /// The codepoint the slot holds, `None` when inactive/reclaimed.
    pub codepoint: Option<u32>,
    /// LRU tick of the last use.
    pub last_used: u64,
    /// The slot's coverage cell, `None` when inactive/reclaimed.
    pub coverage: Option<Seq<u8>>,
}

/// A host-rasterized glyph appended after the baked ones.
pub struct RuntimeGlyph {
    codepoint: Option<u32>,
    last_used: u64,
    bitmap: Option<Vec<u8>>,
}

impl View for RuntimeGlyph {
    type V = RuntimeSlot;

    closed spec fn view(&self) -> RuntimeSlot {
        RuntimeSlot {
            codepoint: self.codepoint,
            last_used: self.last_used,
            coverage: match self.bitmap {
                Some(v) => Some(v@),
                None => None,
            },
        }
    }
}

/// A transparent cell of `n` bytes.
pub open spec fn zero_seq(n: int) -> Seq<u8> {
    Seq::new(n as nat, |i: int| 0u8)
}

/// Abstract state of an atlas: its header fields, cmap, baked coverage and
/// runtime glyph slots.
pub struct AtlasView {
    pub cell_w: u32,
    pub cell_h: u32,
    pub baseline: u32,
    pub line_height: u32,
    pub raster_density: u8,
    pub slot: u8,
    pub flags: u8,
    pub glyph_count: u16,
    /// Number of baked gids; runtime slot `i` has gid `static_count + i`.
    pub static_count: u16,
    pub cmap: Seq<CmapEntry>,
    pub bitmap: Seq<u8>,
    pub runtime: Seq<RuntimeSlot>,
}

impl AtlasView {
    /// Coverage width in samples.
    pub open spec fn coverage_width(self) -> int {
        self.cell_w * self.raster_density
    }

    /// Coverage height in samples.
    pub open spec fn coverage_height(self) -> int {
        self.cell_h * self.raster_density
    }

    /// Coverage bytes of one glyph cell.
    pub open spec fn cell_len(self) -> int {
        self.coverage_height() * self.coverage_width()
    }

    /// Whether runtime slot `i` holds a glyph.
    pub open spec fn active(self, i: int) -> bool {
        0 <= i < self.runtime.len() && self.runtime[i].codepoint is Some
    }

    /// Internal consistency of a parsed atlas.
    pub open spec fn valid(self) -> bool {
        &&& 0 < self.cell_w <= 255
        &&& 0 < self.cell_h <= 255
        &&& self.raster_density > 0
        &&& (self.slot as int) < MAX_FONT_SLOTS as int
        &&& self.static_count > 0
        &&& self.bitmap.len() == self.static_count * self.cell_len()
        &&& self.bitmap.len() <= usize::MAX
        &&& self.glyph_count == self.static_count + self.runtime.len()
        &&& forall|i: int|
            0 <= i < self.runtime.len() ==> {
                let g = #[trigger] self.runtime[i];
                &&& (g.codepoint is Some <==> g.coverage is Some)
                &&& g.coverage matches Some(v) ==> v.len() == self.cell_len()
            }
        &&& forall|k: int| 0 <= k < self.cmap.len() ==> (#[trigger] self.cmap[k]).gid < self.glyph_count
    }

    /// Every cmap entry naming a runtime gid names an active slot that holds
    /// the entry's codepoint.
    pub open spec fn linked(self) -> bool {
        forall|k: int|
            0 <= k < self.cmap.len() ==> {
                let e = #[trigger] self.cmap[k];
                ||| e.gid < self.static_count
                ||| self.runtime[e.gid - self.static_count].codepoint == Some(e.codepoint)
            }
    }

    /// A strictly sorted, linked cmap: each codepoint is mapped once, and a
    /// runtime gid always names the live slot of its codepoint.
    pub open spec fn coherent(self) -> bool {
        strictly_sorted(self.cmap) && self.linked()
    }

    /// The coverage bytes of `gid` (top row first). Inactive/reclaimed runtime
    /// gids and out-of-range gids resolve to one transparent cell.
    pub open spec fn glyph_rows(self, gid: u16) -> Seq<u8> {
        if (gid as int) < self.static_count {
            self.bitmap.subrange(gid * self.cell_len(), (gid + 1) * self.cell_len())
        } else if gid - self.static_count < self.runtime.len() && self.runtime[gid
            - self.static_count].coverage is Some {
            self.runtime[gid - self.static_count].coverage->0
        } else {
            zero_seq(self.cell_len())
        }
    }

    /// The state after a lookup touches `gid` at `tick`: an active runtime
    /// slot records the tick; anything else is unchanged.
    pub open spec fn touched(self, gid: u16, tick: u64) -> AtlasView {
        let i = gid - self.static_count;
        if gid >= self.static_count && self.active(i) {
            AtlasView {
                runtime: self.runtime.update(i, RuntimeSlot { last_used: tick, ..self.runtime[i] }),
                ..self
            }
        } else {
            self
        }
    }

    /// The state after runtime slot `i` is reclaimed: the slot becomes
    /// inactive and the cmap entry the lookup finds for its codepoint is removed.
    pub open spec fn evicted(self, i: int) -> AtlasView {
        let cp = self.runtime[i].codepoint->0;
        AtlasView {
            runtime: self.runtime.update(
                i,
                RuntimeSlot { codepoint: None, last_used: 0, coverage: None },
            ),
            cmap: match find_index(self.cmap, cp) {
                Some(k) => self.cmap.remove(k),
                None => self.cmap,
            },
            ..self
        }
    }

    /// The relation between the state before (`self`) and after (`new`) a
    /// runtime insert of `codepoint` at `tick` that returned `r`:
    /// - a codepoint the lookup finds keeps its gid and is only touched;
    /// - coverage of the wrong size, or no free slot with the gid space full,
    ///   changes nothing and yields `None`;
    /// - otherwise the first free slot (or a new slot at the end) takes the
    ///   glyph and the cmap gains its entry at the sorted position.
    pub open spec fn inserted(
        self,
        codepoint: u32,
        advance: u8,
        xoff: u8,
        coverage: Seq<u8>,
        tick: u64,
        r: Option<u16>,
        new: AtlasView,
    ) -> bool {
        match find_index(self.cmap, codepoint) {
            Some(k) => r == Some(self.cmap[k].gid) && new == self.touched(self.cmap[k].gid, tick),
            None => if coverage.len() != self.cell_len() || (self.all_active() && self.glyph_count
                == u16::MAX) {
                r is None && new == self
            } else {
                let grown = if self.all_active() {
                    AtlasView {
                        glyph_count: (self.glyph_count + 1) as u16,
                        runtime: self.runtime.push(
                            RuntimeSlot { codepoint: None, last_used: 0, coverage: None },
                        ),
                        ..self
                    }
                } else {
                    self
                };
                let idx = if self.all_active() {
                    self.runtime.len() as int
                } else {
                    choose|i: int| self.is_first_free(i)
                };
                let gid = (self.static_count + idx) as u16;
                let entry = CmapEntry { codepoint, gid, advance, xoff };
                &&& r == Some(gid)
                &&& new == AtlasView {
                    runtime: grown.runtime.update(
                        idx,
                        RuntimeSlot {
                            codepoint: Some(codepoint),
                            last_used: tick,
                            coverage: Some(coverage),
                        },
                    ),
                    cmap: new.cmap,
                    ..grown
                }
                &&& inserted_entry(self.cmap, entry, new.cmap)
            },
        }
    }

    /// Slot `i` is the least-recently-used active slot (the first one among ties).
    pub open spec fn is_lru(self, i: int) -> bool {
        &&& self.active(i)
        &&& forall|j: int| #[trigger] self.active(j) ==> self.runtime[i].last_used <= self.runtime[j].last_used
        &&& forall|j: int| 0 <= j < i && #[trigger] self.active(j) ==> self.runtime[j].last_used > self.runtime[i].last_used
    }

    /// Whether some runtime slot is active.
    pub open spec fn any_active(self) -> bool {
        exists|j: int| #[trigger] self.active(j)
    }

    /// Slot `i` is the first inactive runtime slot.
    pub open spec fn is_first_free(self, i: int) -> bool {
        &&& 0 <= i < self.runtime.len()
        &&& self.runtime[i].codepoint is None
        &&& forall|j: int| 0 <= j < i ==> #[trigger] self.runtime[j].codepoint is Some
    }

    /// A runtime insert keeps the header fields other than the gid count.
    pub proof fn lemma_inserted_keeps_header(
        self,
        codepoint: u32,
        advance: u8,
        xoff: u8,
        coverage: Seq<u8>,
        tick: u64,
        r: Option<u16>,
        new: AtlasView,
    )
        requires
            self.inserted(codepoint, advance, xoff, coverage, tick, r, new),
        ensures
            new.slot == self.slot,
            new.cell_w == self.cell_w,
            new.cell_h == self.cell_h,
            new.raster_density == self.raster_density,
            new.static_count == self.static_count,
    {
    }

    /// There is at most one first free slot.
    pub proof fn lemma_first_free_unique(self, a: int, b: int)
        requires
            self.is_first_free(a),
            self.is_first_free(b),
        ensures
            a == b,
    {
        if a < b {
            assert(self.runtime[a].codepoint is Some);
        } else if b < a {
            assert(self.runtime[b].codepoint is Some);
        }
    }

    /// Every runtime slot is active.
    pub open spec fn all_active(self) -> bool {
        forall|j: int| 0 <= j < self.runtime.len() ==> #[trigger] self.runtime[j].codepoint is Some
    }

    /// Sum of the density×density sample block whose top-left sample is
    /// (x0, y0) in `rows`, over its first `nrows` rows.
    pub open spec fn block_sum(self, rows: Seq<u8>, x0: int, y0: int, nrows: int) -> int
        decreases nrows,
    {
        if nrows <= 0 {
            0
        } else {
            let base = (y0 + nrows - 1) * self.coverage_width() + x0;
            self.block_sum(rows, x0, y0, nrows - 1) + seq_sum(
                rows,
                base,
                base + self.raster_density,
            )
        }
    }

    /// Rounded average of one logical pixel's density×density samples; 0 for
    /// an out-of-range gid or pixel.
    pub open spec fn logical_coverage(self, gid: u16, x: u32, y: u32) -> int {
        if gid >= self.glyph_count || x >= self.cell_w || y >= self.cell_h {
            0
        } else {
            let d = self.raster_density as int;
            let samples = d * d;
            (self.block_sum(self.glyph_rows(gid), x * d, y * d, d) + samples / 2) / samples
        }
    }

    /// Total coverage bytes held by active runtime glyphs.
    pub open spec fn runtime_bytes(self) -> int {
        runtime_bytes_of(self.runtime)
    }
}

/// Sum of `s[lo..hi]`.
pub open spec fn seq_sum(s: Seq<u8>, lo: int, hi: int) -> int
    decreases hi - lo,
{
    if lo >= hi {
        0
    } else {
        seq_sum(s, lo, hi - 1) + s[hi - 1]
    }
}

proof fn lemma_seq_sum_bound(s: Seq<u8>, lo: int, hi: int)
    requires
        lo <= hi,
    ensures
        0 <= seq_sum(s, lo, hi) <= 255 * (hi - lo),
    decreases hi - lo,
{
    if lo < hi {
        lemma_seq_sum_bound(s, lo, hi - 1);
    }
}

/// Total coverage bytes held by the active slots of `s`.
pub open spec fn runtime_bytes_of(s: Seq<RuntimeSlot>) -> int
    decreases s.len(),
{
    if s.len() == 0 {
        0
    } else {
        runtime_bytes_of(s.drop_last()) + match s.last().coverage {
            Some(v) => v.len() as int,
            None => 0,
        }
    }
}

proof fn lemma_runtime_bytes_nonneg(s: Seq<RuntimeSlot>)
    ensures
        runtime_bytes_of(s) >= 0,
    decreases s.len(),
{
    if s.len() > 0 {
        lemma_runtime_bytes_nonneg(s.drop_last());
    }
}

/// Coverage bytes held by one runtime slot.
pub open spec fn slot_coverage_len(g: RuntimeSlot) -> int {
    match g.coverage {
        Some(v) => v.len() as int,
        None => 0,
    }
}

proof fn lemma_runtime_bytes_update(s: Seq<RuntimeSlot>, i: int, g: RuntimeSlot)
    requires
        0 <= i < s.len(),
    ensures
        runtime_bytes_of(s.update(i, g)) == runtime_bytes_of(s) - slot_coverage_len(s[i])
            + slot_coverage_len(g),
    decreases s.len(),
{
    let u = s.update(i, g);
    if i == s.len() - 1 {
        assert(u.drop_last() =~= s.drop_last());
    } else {
        assert(u.drop_last() =~= s.drop_last().update(i, g));
        lemma_runtime_bytes_update(s.drop_last(), i, g);
    }
}

proof fn lemma_runtime_bytes_push(s: Seq<RuntimeSlot>, g: RuntimeSlot)
    ensures
        runtime_bytes_of(s.push(g)) == runtime_bytes_of(s) + slot_coverage_len(g),
{
    assert(s.push(g).drop_last() =~= s);
}

proof fn lemma_runtime_bytes_idle(s: Seq<RuntimeSlot>)
    requires
        forall|j: int| 0 <= j < s.len() ==> #[trigger] s[j].coverage is None,
    ensures
        runtime_bytes_of(s) == 0,
    decreases s.len(),
{
    if s.len() > 0 {
        let d = s.drop_last();
        assert forall|j: int| 0 <= j < d.len() implies #[trigger] d[j].coverage is None by {
            assert(d[j] == s[j]);
        }
        lemma_runtime_bytes_idle(d);
    }
}

impl AtlasView {
    /// Touching a gid leaves the runtime bytes unchanged.
    proof fn lemma_touched_bytes(self, gid: u16, tick: u64)
        ensures
            self.touched(gid, tick).runtime_bytes() == self.runtime_bytes(),
    {
        let i = gid - self.static_count;
        if gid >= self.static_count && self.active(i) {
            lemma_runtime_bytes_update(
                self.runtime,
                i,
                RuntimeSlot { last_used: tick, ..self.runtime[i] },
            );
        }
    }

    /// A glyph cell holds at least one byte.
    proof fn lemma_cell_len_pos(self)
        requires
            self.valid(),
        ensures
            self.cell_len() > 0,
    {
        let d = self.raster_density as int;
        assert(self.cell_len() > 0) by (nonlinear_arith)
            requires
                self.cell_len() == (self.cell_h * d) * (self.cell_w * d),
                self.cell_h > 0,
                self.cell_w > 0,
                d > 0,
        ;
    }

    /// Reclaiming an active slot frees exactly one cell and leaves room for
    /// an insert; the cmap only loses entries and stays sorted.
    proof fn lemma_evicted_facts(self, i: int, cp: u32)
        requires
            self.valid(),
            self.active(i),
        ensures
            self.evicted(i).runtime_bytes() == self.runtime_bytes() - self.cell_len(),
            self.cell_len() > 0,
            self.evicted(i).glyph_count == self.glyph_count,
            self.evicted(i).cell_len() == self.cell_len(),
            !self.evicted(i).all_active(),
            sorted(self.cmap) ==> sorted(self.evicted(i).cmap),
            !cmap_has(self.cmap, cp) ==> !cmap_has(self.evicted(i).cmap, cp),
    {
        self.lemma_cell_len_pos();
        let empty = RuntimeSlot { codepoint: None, last_used: 0, coverage: None };
        lemma_runtime_bytes_update(self.runtime, i, empty);
        let e = self.evicted(i);
        assert(e.runtime[i].codepoint is None);
        let cp0 = self.runtime[i].codepoint->0;
        lemma_find_index(self.cmap, cp0);
        match find_index(self.cmap, cp0) {
            Some(k) => {
                assert forall|p: int| 0 <= p < e.cmap.len() implies #[trigger] e.cmap[p] == self.cmap[
                    if p < k { p } else { p + 1 }
                ] by {}
                if sorted(self.cmap) {
                    assert forall|p: int, q: int| 0 <= p < q < e.cmap.len() implies #[trigger] e.cmap[p].codepoint
                        <= #[trigger] e.cmap[q].codepoint by {
                        let pp = if p < k { p } else { p + 1 };
                        let qq = if q < k { q } else { q + 1 };
                        assert(e.cmap[p] == self.cmap[pp]);
                        assert(e.cmap[q] == self.cmap[qq]);
                    }
                }
                if !cmap_has(self.cmap, cp) && cmap_has(e.cmap, cp) {
                    let p = choose|p: int| 0 <= p < e.cmap.len() && #[trigger] e.cmap[p].codepoint == cp;
                    let pp = if p < k { p } else { p + 1 };
                    assert(e.cmap[p] == self.cmap[pp]);
                }
            },
            None => {},
        }
    }

    /// A runtime insert of a codepoint the lookup misses adds exactly one cell.
    proof fn lemma_inserted_bytes(
        self,
        codepoint: u32,
        advance: u8,
        xoff: u8,
        coverage: Seq<u8>,
        tick: u64,
        g: u16,
        new: AtlasView,
    )
        requires
            self.valid(),
            find_index(self.cmap, codepoint) is None,
            self.inserted(codepoint, advance, xoff, coverage, tick, Some(g), new),
        ensures
            new.runtime_bytes() == self.runtime_bytes() + self.cell_len(),
    {
        let empty = RuntimeSlot { codepoint: None, last_used: 0, coverage: None };
        let filled = RuntimeSlot {
            codepoint: Some(codepoint),
            last_used: tick,
            coverage: Some(coverage),
        };
        if self.all_active() {
            let grown = self.runtime.push(empty);
            lemma_runtime_bytes_push(self.runtime, empty);
            lemma_runtime_bytes_update(grown, self.runtime.len() as int, filled);
            assert(new.runtime == grown.update(self.runtime.len() as int, filled));
        } else {
            lemma_first_free_exists(self);
            let idx = choose|i: int| self.is_first_free(i);
            assert(self.runtime[idx].coverage is None);
            lemma_runtime_bytes_update(self.runtime, idx, filled);
            assert(new.runtime == self.runtime.update(idx, filled));
        }
    }
}

/// One parsed font atlas (a (family-weight, px) bake bound to a slot).
pub struct Atlas {
    /// Logical cell dimensions. Coverage dimensions are these times
    /// `raster_density`.
    pub cell_w: u32,
    pub cell_h: u32,
    /// Logical px from cell top to the baseline.
    pub baseline: u32,
    /// Default logical line advance in px.
    pub line_height: u32,
    /// Raster samples per logical pixel (legacy atlases resolve to 1).
    pub raster_density: u8,
    pub slot: u8,
    pub flags: u8,
    /// Addressable gid count. Baked gids occupy the prefix; runtime gids are
    /// stable slots after it and may be inactive/reused after LRU eviction.
    pub glyph_count: u16,
    static_glyph_count: u16,
    cmap: Vec<CmapEntry>,
    /// Immutable bake-time coverage cells only.
    pub bitmap: Vec<u8>,
    runtime_glyphs: Vec<RuntimeGlyph>,
    /// Returned for inactive/reclaimed runtime gids (one transparent cell).
    zero_cell: Vec<u8>,
}

impl View for Atlas {
    type V = AtlasView;

    closed spec fn view(&self) -> AtlasView {
        AtlasView {
            cell_w: self.cell_w,
            cell_h: self.cell_h,
            baseline: self.baseline,
            line_height: self.line_height,
            raster_density: self.raster_density,
            slot: self.slot,
            flags: self.flags,
            glyph_count: self.glyph_count,
            static_count: self.static_glyph_count,
            cmap: self.cmap@,
            bitmap: self.bitmap@,
            runtime: self.runtime_glyphs@.map_values(|g: RuntimeGlyph| g@),
        }
    }
}

/// A vector of `n` zero bytes.
fn zero_vec(n: usize) -> (v: Vec<u8>)
    ensures
        v@ == zero_seq(n as int),
{
    let mut v: Vec<u8> = Vec::with_capacity(n);
    let mut i: usize = 0;
    while i < n
        invariant
            i <= n,
            v@ == zero_seq(i as int),
        decreases n - i,
    {
        v.push(0u8);
        i = i + 1;
        assert(v@ =~= zero_seq(i as int));
    }
    v
}

impl Atlas {
    /// Internal consistency: the view is valid and the transparent cell is
    /// one cell of zeros.
    pub closed spec fn wf(&self) -> bool {
        &&& self@.valid()
        &&& self.zero_cell@ == zero_seq(self@.cell_len())
    }

    /// A well-formed atlas has a valid view.
    pub proof fn lemma_wf_valid(&self)
        requires
            self.wf(),
        ensures
            self@.valid(),
    {
    }

    /// Parse a font-atlas blob (copies the bytes it keeps). `None` on bad
    /// magic/version/slot, zero sizes, an out-of-range cmap gid, or truncation.
    pub fn parse(bytes: &[u8]) -> (r: Option<Atlas>)
        ensures
            r is Some <==> blob_valid(bytes@),
            r matches Some(a) ==> a.wf() && a@ == blob_atlas(bytes@),
    {
        let magic = match rd_u32(bytes, 0) {
            Some(m) => m,
            None => return None,
        };
        if magic != ATLAS_MAGIC {
            return None;
        }
        let version = match rd_u16(bytes, 4) {
            Some(v) => v,
            None => return None,
        };
        // Legacy atlases used byte 14 as reserved and had one coverage sample
        // per logical pixel; keep loading them so old packs remain usable.
        let raster_density: u8 = if version == ATLAS_VERSION_LEGACY {
            1
        } else if version == ATLAS_VERSION {
            if bytes.len() <= 14 {
                return None;
            }
            let density = bytes[14];
            if density == 0 {
                return None;
            }
            density
        } else {
            return None;
        };
        let glyph_count = match rd_u16(bytes, 6) {
            Some(g) => g,
            None => return None,
        };
        if bytes.len() < 14 {
            return None;
        }
        let cell_w = bytes[8] as u32;
        let cell_h = bytes[9] as u32;
        let baseline = bytes[10] as u32;
        let line_height = bytes[11] as u32;
        let slot = bytes[12];
        let flags = bytes[13];
        if slot as usize >= MAX_FONT_SLOTS || glyph_count == 0 || cell_w == 0 || cell_h == 0 {
            return None;
        }
        let ghost b = bytes@;
        let ghost d = raster_density as int;
        let ghost gc = glyph_count as int;
        assert(d == blob_density(b));
        assert(gc == blob_glyph_count(b));
        let cmap_off = ATLAS_HEADER_SIZE;
        let bitmap_off = glyph_count as usize * CMAP_ENTRY_SIZE + cmap_off;
        proof {
            assert(cell_w * d <= 255 * 255) by (nonlinear_arith)
                requires
                    cell_w <= 255,
                    0 < d <= 255,
            ;
            assert(cell_h * d <= 255 * 255) by (nonlinear_arith)
                requires
                    cell_h <= 255,
                    0 < d <= 255,
            ;
            assert(cell_w * d >= 1) by (nonlinear_arith)
                requires
                    cell_w >= 1,
                    d >= 1,
            ;
            assert(cell_h * d >= 1) by (nonlinear_arith)
                requires
                    cell_h >= 1,
                    d >= 1,
            ;
        }
        let coverage_w = cell_w as usize * raster_density as usize;
        let coverage_h = cell_h as usize * raster_density as usize;
        proof {
            let cw = coverage_w as int;
            let ch = coverage_h as int;
            assert(blob_bitmap_len(b) == (gc * ch) * cw) by (nonlinear_arith)
                requires
                    blob_bitmap_len(b) == gc * (ch * cw),
            ;
            assert(gc * ch <= (gc * ch) * cw) by (nonlinear_arith)
                requires
                    gc >= 1,
                    ch >= 1,
                    cw >= 1,
            ;
            assert(blob_cell_len(b) == ch * cw);
        }
        let rows_len = match (glyph_count as usize).checked_mul(coverage_h) {
            Some(n) => n,
            None => return None,
        };
        let bitmap_len = match rows_len.checked_mul(coverage_w) {
            Some(n) => n,
            None => return None,
        };
        let bitmap_end = match bitmap_off.checked_add(bitmap_len) {
            Some(n) => n,
            None => return None,
        };
        if bytes.len() < bitmap_end {
            return None;
        }
        assert(bitmap_off as int == blob_bitmap_off(b));
        assert(bitmap_len as int == blob_bitmap_len(b));
        let mut cmap: Vec<CmapEntry> = Vec::with_capacity(glyph_count as usize);
        let mut i: usize = 0;
        while i < glyph_count as usize
            invariant
                0 <= i <= gc,
                gc == glyph_count,
                gc == blob_glyph_count(b),
                b == bytes@,
                bitmap_off as int == blob_bitmap_off(b),
                bitmap_off <= bitmap_end <= bytes@.len(),
                cmap_off == ATLAS_HEADER_SIZE,
                cmap@.len() == i,
                forall|j: int| 0 <= j < i ==> cmap@[j] == #[trigger] blob_entry(b, j),
                forall|j: int| 0 <= j < i ==> (#[trigger] blob_entry(b, j)).gid < gc,
            decreases gc - i,
        {
            proof {
                let ii = i as int;
                assert(ii * 8 + 8 <= gc * 8) by (nonlinear_arith)
                    requires
                        ii < gc,
                ;
            }
            let o = cmap_off + i * CMAP_ENTRY_SIZE;
            assert(o + 8 <= bitmap_off);
            assert(o as int == blob_entry_off(i as int));
            let gid = match rd_u16(bytes, o + 4) {
                Some(g) => g,
                None => return None,
            };
            assert(gid == blob_entry(b, i as int).gid);
            if gid >= glyph_count {
                return None;
            }
            let codepoint = match rd_u32(bytes, o) {
                Some(c) => c,
                None => return None,
            };
            let entry = CmapEntry { codepoint, gid, advance: bytes[o + 6], xoff: bytes[o + 7] };
            assert(entry == blob_entry(b, i as int));
            cmap.push(entry);
            i = i + 1;
        }
        assert(cmap@ =~= blob_cmap(b));
        let bitmap = vstd::slice::slice_to_vec(
            vstd::slice::slice_subrange(bytes, bitmap_off, bitmap_end),
        );
        proof {
            let c = (coverage_h * coverage_w) as int;
            assert(c <= gc * c) by (nonlinear_arith)
                requires
                    gc >= 1,
                    c >= 0,
            ;
            assert(gc * c == blob_bitmap_len(b)) by (nonlinear_arith)
                requires
                    blob_bitmap_len(b) == gc * blob_cell_len(b),
                    c == blob_cell_len(b),
            ;
        }
        let zero_cell = zero_vec(coverage_h * coverage_w);
        let atlas = Atlas {
            cell_w,
            cell_h,
            baseline,
            line_height,
            raster_density,
            slot,
            flags,
            glyph_count,
            static_glyph_count: glyph_count,
            cmap,
            bitmap,
            runtime_glyphs: Vec::new(),
            zero_cell,
        };
        proof {
            assert(atlas@.cell_len() == blob_cell_len(b));
            assert(atlas@.runtime =~= Seq::<RuntimeSlot>::empty());
            assert(atlas@.bitmap.len() == gc * blob_cell_len(b));
            assert(atlas@ =~= blob_atlas(b));
        }
        Some(atlas)
    }

    /// Binary-search the cmap: (gid, advance) of the entry found for
    /// `codepoint`, or `None` when it is unmapped.
    pub fn lookup(&self, codepoint: u32) -> (r: Option<(u16, u8)>)
        ensures
            r == (match find_index(self@.cmap, codepoint) {
                Some(k) => Some((self@.cmap[k].gid, self@.cmap[k].advance)),
                None => None::<(u16, u8)>,
            }),
    {
        match self.lookup_entry(codepoint) {
            Some(e) => Some((e.gid, e.advance)),
            None => None,
        }
    }

    /// Full cmap entry for a codepoint (gid + advance + xoff).
    pub fn lookup_entry(&self, codepoint: u32) -> (r: Option<&CmapEntry>)
        ensures
            r == (match find_index(self@.cmap, codepoint) {
                Some(k) => Some(&self@.cmap[k]),
                None => None::<&CmapEntry>,
            }),
    {
        proof {
            lemma_find_index(self@.cmap, codepoint);
        }
        match find_cmap_index(&self.cmap, codepoint) {
            Some(k) => Some(&self.cmap[k]),
            None => None,
        }
    }

    /// Coverage bytes per glyph row.
    pub fn bytes_per_row(&self) -> (r: usize)
        requires
            self.wf(),
        ensures
            r as int == self@.coverage_width(),
    {
        self.coverage_width() as usize
    }

    /// Coverage width in samples (cell width times raster density).
    pub fn coverage_width(&self) -> (r: u32)
        requires
            self.wf(),
        ensures
            r as int == self@.coverage_width(),
    {
        proof {
            self.lemma_wf_facts();
        }
        self.cell_w * self.raster_density as u32
    }

    /// Coverage height in samples (cell height times raster density).
    pub fn coverage_height(&self) -> (r: u32)
        requires
            self.wf(),
        ensures
            r as int == self@.coverage_height(),
    {
        proof {
            self.lemma_wf_facts();
        }
        self.cell_h * self.raster_density as u32
    }

    fn cell_len_exec(&self) -> (r: usize)
        requires
            self.wf(),
        ensures
            r as int == self@.cell_len(),
    {
        proof {
            self.lemma_wf_facts();
        }
        self.coverage_height() as usize * self.bytes_per_row()
    }

    /// The density-scaled coverage bytes of one glyph (top row first).
    /// Inactive/reclaimed runtime gids (and out-of-range gids) resolve to one
    /// transparent fixed-size cell so stale draw words remain safe.
    pub fn glyph_rows(&self, gid: u16) -> (r: &[u8])
        requires
            self.wf(),
        ensures
            r@ == self@.glyph_rows(gid),
            r@.len() == self@.cell_len(),
    {
        proof {
            self.lemma_wf_facts();
        }
        let per_glyph = self.cell_len_exec();
        if gid < self.static_glyph_count {
            proof {
                let g = gid as int;
                let n = self.static_glyph_count as int;
                let c = per_glyph as int;
                assert((g + 1) * c <= n * c) by (nonlinear_arith)
                    requires
                        g < n,
                        c >= 0,
                ;
                assert(g * c + c == (g + 1) * c) by (nonlinear_arith);
            }
            let start = gid as usize * per_glyph;
            return vstd::slice::slice_subrange(self.bitmap.as_slice(), start, start + per_glyph);
        }
        let idx = (gid - self.static_glyph_count) as usize;
        if idx < self.runtime_glyphs.len() {
            match &self.runtime_glyphs[idx].bitmap {
                Some(v) => {
                    return v.as_slice();
                },
                None => {},
            }
        }
        self.zero_cell.as_slice()
    }

    /// Average one logical pixel's density×density coverage samples (rounded
    /// to nearest). Density 1 returns the stored byte exactly.
    pub fn logical_coverage(&self, gid: u16, x: u32, y: u32) -> (r: u8)
        requires
            self.wf(),
        ensures
            r as int == self@.logical_coverage(gid, x, y),
    {
        if gid >= self.glyph_count || x >= self.cell_w || y >= self.cell_h {
            return 0;
        }
        proof {
            self.lemma_wf_facts();
        }
        let density = self.raster_density as usize;
        let rows = self.glyph_rows(gid);
        let bpr = self.bytes_per_row();
        let ghost d = density as int;
        let ghost ch = self@.coverage_height();
        proof {
            assert(self@.cell_len() == ch * bpr);
            assert((x as int) * d + d <= bpr) by (nonlinear_arith)
                requires
                    d >= 0,
                    x < self.cell_w,
                    bpr == self.cell_w * d,
            ;
            assert((y as int) * d + d <= ch) by (nonlinear_arith)
                requires
                    d >= 0,
                    y < self.cell_h,
                    ch == self.cell_h * d,
            ;
        }
        let x0 = x as usize * density;
        let y0 = y as usize * density;
        let mut sum: u32 = 0;
        let mut sy: usize = 0;
        while sy < density
            invariant
                d == density,
                0 < d <= 255,
                bpr as int == self@.coverage_width(),
                rows@ == self@.glyph_rows(gid),
                rows@.len() == ch * bpr,
                ch * bpr <= usize::MAX,
                ch <= 65025,
                x0 + d <= bpr,
                y0 + d <= ch,
                d == self.raster_density,
                0 <= sy <= d,
                sum as int == self@.block_sum(rows@, x0 as int, y0 as int, sy as int),
                sum <= 255 * d * sy,
            decreases d - sy,
        {
            proof {
                let yy = (y0 + sy) as int;
                let bb = bpr as int;
                assert(yy * bb + bb <= ch * bb) by (nonlinear_arith)
                    requires
                        yy < ch,
                        bb >= 0,
                ;
                assert(255 * d * sy + 255 * d == 255 * d * (sy + 1)) by (nonlinear_arith);
                assert(255 * d * (sy + 1) <= 255 * 255 * 255) by (nonlinear_arith)
                    requires
                        d <= 255,
                        sy + 1 <= d,
                ;
            }
            let row = (y0 + sy) * bpr;
            let mut sx: usize = 0;
            while sx < density
                invariant
                    d == density,
                    0 < d <= 255,
                    row + x0 + d <= rows@.len(),
                    rows@.len() <= usize::MAX,
                    0 <= sx <= d,
                    sum as int == self@.block_sum(rows@, x0 as int, y0 as int, sy as int) + seq_sum(
                        rows@,
                        (row + x0) as int,
                        (row + x0 + sx) as int,
                    ),
                    sum <= 255 * d * sy + 255 * sx,
                    255 * d * sy + 255 * d <= 255 * 255 * 255,
                decreases d - sx,
            {
                sum = sum + rows[row + x0 + sx] as u32;
                sx = sx + 1;
            }
            proof {
                assert(row as int == (y0 + sy) * self@.coverage_width());
            }
            sy = sy + 1;
        }
        proof {
            assert(d * d <= 255 * 255) by (nonlinear_arith)
                requires
                    0 < d <= 255,
            ;
            assert(255 * d * d <= 255 * 255 * 255) by (nonlinear_arith)
                requires
                    0 < d <= 255,
            ;
        }
        let samples = (density * density) as u32;
        proof {
            assert(samples as int == d * d);
            assert(d * d >= 1) by (nonlinear_arith)
                requires
                    d >= 1,
            ;
            assert(sum <= 255 * (d * d)) by (nonlinear_arith)
                requires
                    sum <= 255 * d * d,
            ;
            let sm = samples as int;
            assert((sum + sm / 2) / sm <= 255) by (nonlinear_arith)
                requires
                    sm >= 1,
                    sum <= 255 * sm,
            ;
        }
        ((sum + samples / 2) / samples) as u8
    }

    /// Total bytes of the active runtime cells (saturating at `usize::MAX`).
    fn runtime_bytes(&self) -> (r: usize)
        requires
            self.wf(),
        ensures
            r as int == if self@.runtime_bytes() <= usize::MAX {
                self@.runtime_bytes()
            } else {
                usize::MAX as int
            },
    {
        proof {
            self.lemma_wf_facts();
        }
        let mut total: usize = 0;
        let mut i: usize = 0;
        while i < self.runtime_glyphs.len()
            invariant
                self.wf(),
                self@.runtime.len() == self.runtime_glyphs@.len(),
                forall|j: int|
                    0 <= j < self.runtime_glyphs@.len() ==> #[trigger] self@.runtime[j]
                        == self.runtime_glyphs@[j]@,
                0 <= i <= self.runtime_glyphs@.len(),
                total as int == if runtime_bytes_of(self@.runtime.take(i as int)) <= usize::MAX {
                    runtime_bytes_of(self@.runtime.take(i as int))
                } else {
                    usize::MAX as int
                },
            decreases self.runtime_glyphs@.len() - i,
        {
            proof {
                assert(self@.runtime.take(i + 1).drop_last() =~= self@.runtime.take(i as int));
                lemma_runtime_bytes_nonneg(self@.runtime.take(i as int));
            }
            match &self.runtime_glyphs[i].bitmap {
                Some(v) => {
                    total = total.saturating_add(v.len());
                },
                None => {},
            }
            i = i + 1;
        }
        proof {
            assert(self@.runtime.take(i as int) =~= self@.runtime);
        }
        total
    }

    /// Whether every runtime slot holds a glyph.
    fn runtime_all_active(&self) -> (r: bool)
        requires
            self.wf(),
        ensures
            r == self@.all_active(),
    {
        proof {
            self.lemma_wf_facts();
        }
        let mut i: usize = 0;
        while i < self.runtime_glyphs.len()
            invariant
                self.wf(),
                self@.runtime.len() == self.runtime_glyphs@.len(),
                forall|j: int|
                    0 <= j < self.runtime_glyphs@.len() ==> #[trigger] self@.runtime[j]
                        == self.runtime_glyphs@[j]@,
                0 <= i <= self.runtime_glyphs@.len(),
                forall|j: int| 0 <= j < i ==> #[trigger] self@.runtime[j].codepoint is Some,
            decreases self.runtime_glyphs@.len() - i,
        {
            if self.runtime_glyphs[i].codepoint.is_none() {
                assert(self@.runtime[i as int].codepoint is None);
                return false;
            }
            i = i + 1;
        }
        true
    }

    /// Record a use of runtime `gid` at `tick` (no-op for baked or inactive gids).
    fn touch_runtime_gid(&mut self, gid: u16, tick: u64)
        requires
            old(self).wf(),
        ensures
            final(self).wf(),
            final(self)@ == old(self)@.touched(gid, tick),
    {
        proof {
            self.lemma_wf_facts();
        }
        if gid < self.static_glyph_count {
            return;
        }
        let idx = (gid - self.static_glyph_count) as usize;
        if idx < self.runtime_glyphs.len() {
            if self.runtime_glyphs[idx].codepoint.is_some() {
                let ghost old_view = self@;
                self.runtime_glyphs[idx].last_used = tick;
                proof {
                    assert(self@.runtime =~= old_view.runtime.update(
                        idx as int,
                        RuntimeSlot { last_used: tick, ..old_view.runtime[idx as int] },
                    ));
                    assert(self@ =~= old_view.touched(gid, tick));
                }
            }
        }
    }

    /// The least-recently-used active runtime gid with its tick.
    fn lru_runtime_gid(&self) -> (r: Option<(u16, u64)>)
        requires
            self.wf(),
        ensures
            r is None <==> !self@.any_active(),
            r matches Some((gid, tick)) ==> {
                &&& gid >= self@.static_count
                &&& self@.is_lru(gid - self@.static_count)
                &&& tick == self@.runtime[gid - self@.static_count].last_used
            },
    {
        proof {
            self.lemma_wf_facts();
        }
        let mut best: Option<usize> = None;
        let mut i: usize = 0;
        while i < self.runtime_glyphs.len()
            invariant
                self.wf(),
                self@.runtime.len() == self.runtime_glyphs@.len(),
                forall|j: int|
                    0 <= j < self.runtime_glyphs@.len() ==> #[trigger] self@.runtime[j]
                        == self.runtime_glyphs@[j]@,
                0 <= i <= self.runtime_glyphs@.len(),
                best is None ==> forall|j: int| 0 <= j < i ==> !#[trigger] self@.active(j),
                best matches Some(b) ==> {
                    &&& b < i
                    &&& self@.active(b as int)
                    &&& forall|j: int|
                        0 <= j < i && #[trigger] self@.active(j) ==> self@.runtime[b as int].last_used
                            <= self@.runtime[j].last_used
                    &&& forall|j: int|
                        0 <= j < b && #[trigger] self@.active(j) ==> self@.runtime[j].last_used
                            > self@.runtime[b as int].last_used
                },
            decreases self.runtime_glyphs@.len() - i,
        {
            if self.runtime_glyphs[i].codepoint.is_some() {
                match best {
                    None => {
                        best = Some(i);
                    },
                    Some(b) => {
                        if self.runtime_glyphs[i].last_used < self.runtime_glyphs[b].last_used {
                            best = Some(i);
                        }
                    },
                }
            }
            i = i + 1;
        }
        match best {
            None => None,
            Some(b) => {
                let gid = self.static_glyph_count + b as u16;
                Some((gid, self.runtime_glyphs[b].last_used))
            },
        }
    }

    /// Reclaim one active runtime gid: its cmap mapping and coverage are
    /// removed while the gid stays addressable as a transparent cell.
    /// Returns the coverage bytes freed (0 for baked or inactive gids).
    fn evict_runtime_gid(&mut self, gid: u16) -> (r: usize)
        requires
            old(self).wf(),
        ensures
            final(self).wf(),
            gid >= old(self)@.static_count && old(self)@.active(gid - old(self)@.static_count) ==> {
                &&& final(self)@ == old(self)@.evicted(gid - old(self)@.static_count)
                &&& r as int == old(self)@.cell_len()
            },
            !(gid >= old(self)@.static_count && old(self)@.active(gid - old(self)@.static_count))
                ==> final(self)@ == old(self)@ && r == 0,
    {
        proof {
            self.lemma_wf_facts();
        }
        if gid < self.static_glyph_count {
            return 0;
        }
        let idx = (gid - self.static_glyph_count) as usize;
        if idx >= self.runtime_glyphs.len() {
            return 0;
        }
        let codepoint = match self.runtime_glyphs[idx].codepoint {
            Some(c) => c,
            None => return 0,
        };
        let ghost old_view = self@;
        proof {
            lemma_find_index(self@.cmap, codepoint);
        }
        let removed = RuntimeGlyph { codepoint: None, last_used: 0, bitmap: None };
        let freed = match &self.runtime_glyphs[idx].bitmap {
            Some(v) => v.len(),
            None => 0,
        };
        self.runtime_glyphs.set(idx, removed);
        match find_cmap_index(&self.cmap, codepoint) {
            Some(k) => {
                self.cmap.remove(k);
            },
            None => {},
        }
        proof {
            assert(self@.runtime =~= old_view.runtime.update(
                idx as int,
                RuntimeSlot { codepoint: None, last_used: 0, coverage: None },
            ));
            assert(self@ =~= old_view.evicted(idx as int));
            assert forall|k: int| 0 <= k < self@.cmap.len() implies (#[trigger] self@.cmap[k]).gid
                < self@.glyph_count by {
                match find_index(old_view.cmap, codepoint) {
                    Some(kk) => {
                        if k < kk {
                            assert(self@.cmap[k] == old_view.cmap[k]);
                        } else {
                            assert(self@.cmap[k] == old_view.cmap[k + 1]);
                        }
                    },
                    None => {},
                }
            }
        }
        freed
    }

    /// Insert a runtime glyph at `tick`; an already-mapped codepoint is only
    /// touched and keeps its gid.
    fn insert_runtime_glyph_at(
        &mut self,
        codepoint: u32,
        advance: u8,
        xoff: u8,
        coverage: &[u8],
        tick: u64,
    ) -> (r: Option<u16>)
        requires
            old(self).wf(),
        ensures
            final(self).wf(),
            old(self)@.inserted(codepoint, advance, xoff, coverage@, tick, r, final(self)@),
    {
        proof {
            self.lemma_wf_facts();
            lemma_find_index(self@.cmap, codepoint);
        }
        match find_cmap_index(&self.cmap, codepoint) {
            Some(k) => {
                let gid = self.cmap[k].gid;
                self.touch_runtime_gid(gid, tick);
                return Some(gid);
            },
            None => {},
        }
        let per_glyph = self.cell_len_exec();
        if coverage.len() != per_glyph {
            return None;
        }
        let ghost old_view = self@;
        let mut free: Option<usize> = None;
        let mut i: usize = 0;
        while free.is_none() && i < self.runtime_glyphs.len()
            invariant
                self.wf(),
                self@ == old_view,
                self@.runtime.len() == self.runtime_glyphs@.len(),
                forall|j: int|
                    0 <= j < self.runtime_glyphs@.len() ==> #[trigger] self@.runtime[j]
                        == self.runtime_glyphs@[j]@,
                0 <= i <= self.runtime_glyphs@.len(),
                free is None ==> forall|j: int| 0 <= j < i ==> #[trigger] self@.runtime[j].codepoint is Some,
                free matches Some(f) ==> self@.is_first_free(f as int),
            decreases self.runtime_glyphs@.len() - i + (if free is None { 1int } else { 0int }),
        {
            if self.runtime_glyphs[i].codepoint.is_none() {
                assert(self@.runtime[i as int] == self.runtime_glyphs@[i as int]@);
                free = Some(i);
            } else {
                assert(self@.runtime[i as int] == self.runtime_glyphs@[i as int]@);
                i = i + 1;
            }
        }
        proof {
            if free is None {
                assert(old_view.all_active());
            } else {
                let f = free->0 as int;
                assert(!old_view.all_active());
                let c = choose|i: int| old_view.is_first_free(i);
                old_view.lemma_first_free_unique(c, f);
            }
        }
        let (gid, idx) = match free {
            Some(f) => (self.static_glyph_count + f as u16, f),
            None => {
                if self.glyph_count == u16::MAX {
                    return None;
                }
                let gid = self.glyph_count;
                self.glyph_count = self.glyph_count + 1;
                self.runtime_glyphs.push(RuntimeGlyph { codepoint: None, last_used: 0, bitmap: None });
                proof {
                    assert(self@.runtime =~= old_view.runtime.push(
                        RuntimeSlot { codepoint: None, last_used: 0, coverage: None },
                    ));
                }
                (gid, self.runtime_glyphs.len() - 1)
            },
        };
        let ghost grown = self@;
        self.runtime_glyphs.set(
            idx,
            RuntimeGlyph {
                codepoint: Some(codepoint),
                last_used: tick,
                bitmap: Some(vstd::slice::slice_to_vec(coverage)),
            },
        );
        let entry = CmapEntry { codepoint, gid, advance, xoff };
        let pos = partition_index(&self.cmap, codepoint);
        self.cmap.insert(pos, entry);
        proof {
            assert(grown.runtime.len() == self.runtime_glyphs@.len());
            assert(gid as int == old_view.static_count + idx);
            assert(self@.runtime =~= grown.runtime.update(
                idx as int,
                RuntimeSlot { codepoint: Some(codepoint), last_used: tick, coverage: Some(coverage@) },
            ));
            assert forall|k: int| 0 <= k < self@.cmap.len() implies (#[trigger] self@.cmap[k]).gid
                < self@.glyph_count by {
                if k < pos {
                    assert(self@.cmap[k] == old_view.cmap[k]);
                } else if k > pos {
                    assert(self@.cmap[k] == old_view.cmap[k - 1]);
                }
            }
            assert(self@.cmap == old_view.cmap.insert(pos as int, entry));
            assert forall|j: int| 0 <= j < self@.runtime.len() implies {
                let g = #[trigger] self@.runtime[j];
                &&& (g.codepoint is Some <==> g.coverage is Some)
                &&& g.coverage matches Some(v) ==> v.len() == self@.cell_len()
            } by {
                if j != idx {
                    assert(self@.runtime[j] == grown.runtime[j]);
                    if j < old_view.runtime.len() {
                        assert(grown.runtime[j] == old_view.runtime[j]);
                    }
                }
            }
            if sorted(old_view.cmap) {
                assert forall|j: int| pos <= j < old_view.cmap.len() implies #[trigger] old_view.cmap[j].codepoint
                    > codepoint by {
                    assert(old_view.cmap[j].codepoint >= codepoint);
                    if old_view.cmap[j].codepoint == codepoint {
                        assert(cmap_has(old_view.cmap, codepoint));
                    }
                }
            }
            assert(self@ =~= AtlasView {
                runtime: grown.runtime.update(
                    idx as int,
                    RuntimeSlot {
                        codepoint: Some(codepoint),
                        last_used: tick,
                        coverage: Some(coverage@),
                    },
                ),
                cmap: old_view.cmap.insert(pos as int, entry),
                ..grown
            });
            let expected_grown = if old_view.all_active() {
                AtlasView {
                    glyph_count: (old_view.glyph_count + 1) as u16,
                    runtime: old_view.runtime.push(
                        RuntimeSlot { codepoint: None, last_used: 0, coverage: None },
                    ),
                    ..old_view
                }
            } else {
                old_view
            };
            assert(grown =~= expected_grown);
            let expected_idx = if old_view.all_active() {
                old_view.runtime.len() as int
            } else {
                choose|i: int| old_view.is_first_free(i)
            };
            assert(expected_idx == idx);
            assert(find_index(old_view.cmap, codepoint) is None);
            assert(old_view.inserted(codepoint, advance, xoff, coverage@, tick, Some(gid), self@));
        }
        Some(gid)
    }

    /// Insert a runtime-rasterized glyph into this atlas, reusing any
    /// already-reclaimed gid. This direct helper enforces no budget; an
    /// already-mapped codepoint keeps its gid.
    pub fn insert_runtime_glyph(
        &mut self,
        codepoint: u32,
        advance: u8,
        xoff: u8,
        coverage: &[u8],
    ) -> (r: Option<u16>)
        requires
            old(self).wf(),
        ensures
            final(self).wf(),
            old(self)@.inserted(codepoint, advance, xoff, coverage@, 1, r, final(self)@),
    {
        self.insert_runtime_glyph_at(codepoint, advance, xoff, coverage, 1)
    }

    proof fn lemma_wf_facts(&self)
        requires
            self.wf(),
        ensures
            self@.cell_len() <= self@.bitmap.len(),
            self@.cell_len() <= usize::MAX,
            self@.cell_len() >= 1,
            0 < self@.coverage_width() <= 65025,
            0 < self@.coverage_height() <= 65025,
            self@.static_count >= 1,
            self@.runtime.len() == self.runtime_glyphs@.len(),
            forall|i: int|
                0 <= i < self.runtime_glyphs@.len() ==> #[trigger] self@.runtime[i]
                    == self.runtime_glyphs@[i]@,
    {
        let d = self.raster_density as int;
        assert(self.cell_w * d <= 255 * 255) by (nonlinear_arith)
            requires
                self.cell_w <= 255,
                0 < d <= 255,
        ;
        assert(self.cell_h * d <= 255 * 255) by (nonlinear_arith)
            requires
                self.cell_h <= 255,
                0 < d <= 255,
        ;
        assert(self.cell_w * d > 0) by (nonlinear_arith)
            requires
                self.cell_w > 0,
                0 < d,
        ;
        assert(self.cell_h * d > 0) by (nonlinear_arith)
            requires
                self.cell_h > 0,
                0 < d,
        ;
        let n = self.static_glyph_count as int;
        let c = self@.cell_len();
        assert(c >= 1) by (nonlinear_arith)
            requires
                c == (self.cell_h * d) * (self.cell_w * d),
                self.cell_h * d > 0,
                self.cell_w * d > 0,
        ;
        assert(c <= n * c) by (nonlinear_arith)
            requires
                n >= 1,
                c >= 0,
        ;
    }
}


// ---------------------------------------------------------------------------
// Fonts registry
// ---------------------------------------------------------------------------

/// A queued `(font slot, codepoint)` raster request.
pub type GlyphRequest = (u8, u32);

/// `s` with every occurrence of `x` removed.
pub open spec fn without(s: Seq<GlyphRequest>, x: GlyphRequest) -> Seq<GlyphRequest>
    decreases s.len(),
{
    if s.len() == 0 {
        s
    } else {
        let rest = without(s.drop_last(), x);
        if s.last() == x {
            rest
        } else {
            rest.push(s.last())
        }
    }
}

/// `s` with every request for font slot `slot` removed.
pub open spec fn without_slot(s: Seq<GlyphRequest>, slot: u8) -> Seq<GlyphRequest>
    decreases s.len(),
{
    if s.len() == 0 {
        s
    } else {
        let rest = without_slot(s.drop_last(), slot);
        if s.last().0 == slot {
            rest
        } else {
            rest.push(s.last())
        }
    }
}

proof fn lemma_without_subset(s: Seq<GlyphRequest>, x: GlyphRequest)
    ensures
        forall|y: GlyphRequest| #[trigger] without(s, x).contains(y) ==> s.contains(y) && y != x,
    decreases s.len(),
{
    if s.len() > 0 {
        lemma_without_subset(s.drop_last(), x);
        assert forall|y: GlyphRequest| #[trigger] without(s, x).contains(y) implies s.contains(y) && y != x by {
            let w = without(s, x);
            let k = choose|k: int| 0 <= k < w.len() && w[k] == y;
            let rest = without(s.drop_last(), x);
            if k < rest.len() {
                assert(rest.contains(y));
                let m = choose|m: int| 0 <= m < s.drop_last().len() && s.drop_last()[m] == y;
                assert(s[m] == y);
            } else {
                assert(s[s.len() - 1] == y);
            }
        }
    }
}

proof fn lemma_without_no_dups(s: Seq<GlyphRequest>, x: GlyphRequest)
    requires
        no_dups(s),
    ensures
        no_dups(without(s, x)),
    decreases s.len(),
{
    if s.len() > 0 {
        let d = s.drop_last();
        assert(no_dups(d));
        lemma_without_no_dups(d, x);
        lemma_without_subset(d, x);
        if s.last() != x {
            let rest = without(d, x);
            assert(!rest.contains(s.last())) by {
                if rest.contains(s.last()) {
                    let m = choose|m: int| 0 <= m < d.len() && d[m] == s.last();
                    assert(s[m] == s[s.len() - 1]);
                }
            }
            let w = rest.push(s.last());
            assert forall|i: int, j: int| 0 <= i < j < w.len() implies w[i] != w[j] by {
                if j == w.len() - 1 {
                    assert(rest.contains(w[i]));
                }
            }
        }
    }
}

proof fn lemma_without_slot_subset(s: Seq<GlyphRequest>, slot: u8)
    ensures
        forall|y: GlyphRequest| #[trigger] without_slot(s, slot).contains(y) ==> s.contains(y) && y.0 != slot,
    decreases s.len(),
{
    if s.len() > 0 {
        lemma_without_slot_subset(s.drop_last(), slot);
        assert forall|y: GlyphRequest| #[trigger] without_slot(s, slot).contains(y) implies s.contains(y) && y.0 != slot by {
            let w = without_slot(s, slot);
            let k = choose|k: int| 0 <= k < w.len() && w[k] == y;
            let rest = without_slot(s.drop_last(), slot);
            if k < rest.len() {
                assert(rest.contains(y));
                let m = choose|m: int| 0 <= m < s.drop_last().len() && s.drop_last()[m] == y;
                assert(s[m] == y);
            } else {
                assert(s[s.len() - 1] == y);
            }
        }
    }
}

proof fn lemma_without_slot_no_dups(s: Seq<GlyphRequest>, slot: u8)
    requires
        no_dups(s),
    ensures
        no_dups(without_slot(s, slot)),
    decreases s.len(),
{
    if s.len() > 0 {
        let d = s.drop_last();
        assert(no_dups(d));
        lemma_without_slot_no_dups(d, slot);
        lemma_without_slot_subset(d, slot);
        if s.last().0 != slot {
            let rest = without_slot(d, slot);
            assert(!rest.contains(s.last())) by {
                if rest.contains(s.last()) {
                    let m = choose|m: int| 0 <= m < d.len() && d[m] == s.last();
                    assert(s[m] == s[s.len() - 1]);
                }
            }
            let w = rest.push(s.last());
            assert forall|i: int, j: int| 0 <= i < j < w.len() implies w[i] != w[j] by {
                if j == w.len() - 1 {
                    assert(rest.contains(w[i]));
                }
            }
        }
    }
}

/// No request occurs twice.
pub open spec fn no_dups(s: Seq<GlyphRequest>) -> bool {
    forall|i: int, j: int| 0 <= i < j < s.len() ==> s[i] != s[j]
}

/// Abstract state of the registry.
pub struct FontsView {
    pub slots: Seq<Option<AtlasView>>,
    /// cmap-miss counter (wrapping).
    pub misses: u32,
    /// Deduplicated host raster work queue, oldest first.
    pub missing: Seq<GlyphRequest>,
    /// Global budget for runtime coverage bytes.
    pub budget: usize,
    /// Accounted runtime coverage bytes.
    pub runtime_bytes: usize,
    /// Monotonic LRU clock.
    pub clock: u64,
}

/// The tick after `clock`: it advances by one (wrapping) and never reads 0.
pub open spec fn next_tick(clock: u64) -> u64 {
    if clock == u64::MAX {
        1
    } else {
        (clock + 1) as u64
    }
}

impl FontsView {
    /// Registry consistency: one entry per slot, each atlas valid and bound to
    /// its own slot, and a queue without duplicates.
    pub open spec fn valid(self) -> bool {
        &&& self.slots.len() == MAX_FONT_SLOTS
        &&& forall|i: int|
            0 <= i < self.slots.len() ==> (#[trigger] self.slots[i] matches Some(a) ==> a.valid()
                && a.slot == i)
        &&& no_dups(self.missing)
    }

    /// The atlas registered at `slot`, if any.
    pub open spec fn atlas(self, slot: u8) -> Option<AtlasView> {
        if (slot as int) < self.slots.len() {
            self.slots[slot as int]
        } else {
            None
        }
    }

    /// Runtime slot `i` of the atlas at `s` is active.
    pub open spec fn active_at(self, s: int, i: int) -> bool {
        &&& 0 <= s < self.slots.len()
        &&& self.slots[s] is Some
        &&& self.slots[s]->0.active(i)
    }

    /// The LRU tick of runtime slot `i` of the atlas at `s`.
    pub open spec fn tick_at(self, s: int, i: int) -> u64 {
        self.slots[s]->0.runtime[i].last_used
    }

    /// Whether any atlas holds an active runtime glyph.
    pub open spec fn any_active(self) -> bool {
        exists|s: int, i: int| #[trigger] self.active_at(s, i)
    }

    /// Runtime slot `i` of the atlas at `s` is the global least-recently-used
    /// glyph: smallest tick, first by (font slot, runtime slot) among ties.
    pub open spec fn is_global_lru(self, s: int, i: int) -> bool {
        &&& self.active_at(s, i)
        &&& forall|s2: int, i2: int| #[trigger] self.active_at(s2, i2) ==> self.tick_at(s, i) <= self.tick_at(s2, i2)
        &&& forall|s2: int, i2: int|
            #[trigger] self.active_at(s2, i2) && (s2 < s || (s2 == s && i2 < i)) ==> self.tick_at(s2, i2)
                > self.tick_at(s, i)
    }

    /// The global LRU glyph as (font slot, runtime slot).
    pub open spec fn global_lru(self) -> (int, int) {
        choose|s: int, i: int| self.is_global_lru(s, i)
    }

    /// The state after the global LRU glyph is reclaimed.
    pub open spec fn lru_evicted(self) -> FontsView {
        let (s, i) = self.global_lru();
        if 0 <= s < self.slots.len() && self.slots[s] is Some {
            let a = self.slots[s]->0;
            FontsView {
                slots: self.slots.update(s, Some(a.evicted(i))),
                runtime_bytes: if self.runtime_bytes >= a.cell_len() {
                    (self.runtime_bytes - a.cell_len()) as usize
                } else {
                    0usize
                },
                ..self
            }
        } else {
            self
        }
    }

    /// Reclaim LRU glyphs until `runtime_bytes + need` fits the budget or no
    /// runtime glyph is left. Returns the final state and whether any glyph
    /// was reclaimed.
    pub open spec fn settle(self, need: int) -> (FontsView, bool)
        decreases self.runtime_bytes,
    {
        if self.runtime_bytes + need <= self.budget || !self.any_active() {
            (self, false)
        } else {
            let next = self.lru_evicted();
            if next.runtime_bytes < self.runtime_bytes {
                (next.settle(need).0, true)
            } else {
                (next, true)
            }
        }
    }

    /// The relation between the state before (`self`) and after (`new`) a
    /// budgeted runtime insert of `codepoint` into the atlas at `slot` that
    /// returned `r` = (gid, changed, evicted):
    /// - no atlas at `slot`: nothing happens;
    /// - a codepoint the lookup finds is touched and its queued request dropped;
    /// - coverage of the wrong size, a cell larger than the whole budget, or a
    ///   full atlas: nothing happens;
    /// - otherwise LRU glyphs are reclaimed until the cell fits; if nothing is
    ///   left to reclaim and it still does not fit, the call fails after those
    ///   reclaims; else the atlas takes the glyph at a fresh tick, its bytes are
    ///   accounted and its queued request is dropped.
    pub open spec fn ensured(
        self,
        slot: u8,
        codepoint: u32,
        advance: u8,
        xoff: u8,
        coverage: Seq<u8>,
        r: Option<(u16, bool, bool)>,
        new: FontsView,
    ) -> bool {
        match self.atlas(slot) {
            None => r is None && new == self,
            Some(a) => match find_index(a.cmap, codepoint) {
                Some(k) => {
                    let gid = a.cmap[k].gid;
                    &&& r == Some((gid, false, false))
                    &&& new == FontsView {
                        missing: without(self.missing, (slot, codepoint)),
                        ..self.touched(slot, gid)
                    }
                },
                None => if coverage.len() != a.cell_len() || a.cell_len() > self.budget || (
                a.all_active() && a.glyph_count == u16::MAX) {
                    r is None && new == self
                } else {
                    let (st, ev) = self.settle(a.cell_len());
                    if st.runtime_bytes + a.cell_len() > st.budget {
                        r is None && new == st
                    } else {
                        let t = next_tick(st.clock);
                        let a2 = st.slots[slot as int]->0;
                        let na = new.slots[slot as int]->0;
                        &&& new.slots[slot as int] is Some
                        &&& match r {
                            None => {
                                &&& a2.inserted(codepoint, advance, xoff, coverage, t, None, na)
                                &&& new == FontsView {
                                    slots: st.slots.update(slot as int, Some(na)),
                                    clock: t,
                                    ..st
                                }
                            },
                            Some((g, changed, evicted)) => {
                                &&& changed
                                &&& evicted == ev
                                &&& a2.inserted(codepoint, advance, xoff, coverage, t, Some(g), na)
                                &&& new == FontsView {
                                    slots: st.slots.update(slot as int, Some(na)),
                                    clock: t,
                                    runtime_bytes: (st.runtime_bytes + a.cell_len()) as usize,
                                    missing: without(st.missing, (slot, codepoint)),
                                    ..st
                                }
                            },
                        }
                    }
                },
            },
        }
    }

    /// The atlas at `slot` misses `codepoint` and can take a cell of
    /// `coverage`: the size is right, the cell fits the whole budget, and a
    /// runtime slot is free or the gid space is not exhausted.
    pub open spec fn fits(self, slot: u8, codepoint: u32, coverage: Seq<u8>) -> bool {
        &&& self.atlas(slot) matches Some(a)
        &&& find_index(a.cmap, codepoint) is None
        &&& coverage.len() == a.cell_len()
        &&& a.cell_len() <= self.budget
        &&& !(a.all_active() && a.glyph_count == u16::MAX)
    }

    /// The state after one glyph lookup of `cp` in the atlas at `slot`: a hit
    /// touches the gid; a miss bumps the miss counter and queues the request.
    pub open spec fn after_glyph(self, slot: u8, cp: u32) -> FontsView {
        let a = self.atlas(slot)->0;
        match find_index(a.cmap, cp) {
            Some(k) => self.touched(slot, a.cmap[k].gid),
            None => FontsView {
                misses: if self.misses == u32::MAX {
                    0u32
                } else {
                    (self.misses + 1) as u32
                },
                missing: if self.missing.contains((slot, cp)) {
                    self.missing
                } else {
                    self.missing.push((slot, cp))
                },
                ..self
            },
        }
    }

    /// The state after looking up every non-newline char of `text` in order.
    pub open spec fn after_text(self, slot: u8, text: Seq<char>) -> FontsView
        decreases text.len(),
    {
        if text.len() == 0 {
            self
        } else {
            let st = self.after_text(slot, text.drop_last());
            if text.last() == '\n' {
                st
            } else {
                st.after_glyph(slot, text.last() as u32)
            }
        }
    }

    /// Touch runtime `gid` of the atlas at `slot` with a fresh tick (baked
    /// gids leave the clock alone).
    pub open spec fn touched(self, slot: u8, gid: u16) -> FontsView {
        match self.atlas(slot) {
            Some(a) => if gid >= a.static_count {
                let t = next_tick(self.clock);
                FontsView {
                    slots: self.slots.update(slot as int, Some(a.touched(gid, t))),
                    clock: t,
                    ..self
                }
            } else {
                self
            },
            None => self,
        }
    }
}

/// Runtime coverage bytes held by an optional atlas.
pub open spec fn slot_runtime_bytes(o: Option<AtlasView>) -> int {
    match o {
        Some(a) => a.runtime_bytes(),
        None => 0,
    }
}

/// Runtime coverage bytes held by all registered atlases.
pub open spec fn total_runtime_bytes(slots: Seq<Option<AtlasView>>) -> int
    decreases slots.len(),
{
    if slots.len() == 0 {
        0
    } else {
        total_runtime_bytes(slots.drop_last()) + slot_runtime_bytes(slots.last())
    }
}

proof fn lemma_total_update(slots: Seq<Option<AtlasView>>, i: int, o: Option<AtlasView>)
    requires
        0 <= i < slots.len(),
    ensures
        total_runtime_bytes(slots.update(i, o)) == total_runtime_bytes(slots) - slot_runtime_bytes(
            slots[i],
        ) + slot_runtime_bytes(o),
    decreases slots.len(),
{
    let u = slots.update(i, o);
    if i == slots.len() - 1 {
        assert(u.drop_last() =~= slots.drop_last());
    } else {
        assert(u.drop_last() =~= slots.drop_last().update(i, o));
        lemma_total_update(slots.drop_last(), i, o);
    }
}

proof fn lemma_total_nonneg(slots: Seq<Option<AtlasView>>)
    ensures
        total_runtime_bytes(slots) >= 0,
    decreases slots.len(),
{
    if slots.len() > 0 {
        lemma_total_nonneg(slots.drop_last());
        if let Some(a) = slots.last() {
            lemma_runtime_bytes_nonneg(a.runtime);
        }
    }
}

proof fn lemma_total_ge(slots: Seq<Option<AtlasView>>, i: int)
    requires
        0 <= i < slots.len(),
    ensures
        total_runtime_bytes(slots) >= slot_runtime_bytes(slots[i]),
{
    lemma_total_update(slots, i, None);
    lemma_total_nonneg(slots.update(i, None));
}

proof fn lemma_total_idle(slots: Seq<Option<AtlasView>>)
    requires
        forall|j: int| 0 <= j < slots.len() ==> slot_runtime_bytes(#[trigger] slots[j]) == 0,
    ensures
        total_runtime_bytes(slots) == 0,
    decreases slots.len(),
{
    if slots.len() > 0 {
        let d = slots.drop_last();
        assert forall|j: int| 0 <= j < d.len() implies slot_runtime_bytes(#[trigger] d[j]) == 0 by {
            assert(d[j] == slots[j]);
        }
        lemma_total_idle(d);
    }
}

impl FontsView {
    /// The accounted bytes are exactly the coverage held by the active
    /// runtime glyphs of all registered atlases.
    pub open spec fn accounted(self) -> bool {
        self.runtime_bytes == total_runtime_bytes(self.slots)
    }

    /// The atlas at `slot`, if any, keeps its cmap sorted by codepoint.
    pub open spec fn sorted_at(self, slot: u8) -> bool {
        self.atlas(slot) matches Some(a) ==> sorted(a.cmap)
    }

    /// Without an active runtime glyph, an accounted registry holds no
    /// runtime bytes.
    pub proof fn lemma_idle_holds_nothing(self)
        requires
            self.valid(),
            self.accounted(),
            !self.any_active(),
        ensures
            self.runtime_bytes == 0,
    {
        assert forall|j: int| 0 <= j < self.slots.len() implies slot_runtime_bytes(
            #[trigger] self.slots[j],
        ) == 0 by {
            if let Some(a) = self.slots[j] {
                assert forall|k: int| 0 <= k < a.runtime.len() implies #[trigger] a.runtime[k].coverage is None by {
                    assert(!self.active_at(j, k));
                }
                lemma_runtime_bytes_idle(a.runtime);
            }
        }
        lemma_total_idle(self.slots);
    }

    /// Touching a gid keeps the accounting.
    proof fn lemma_touched_accounted(self, slot: u8, gid: u16)
        requires
            self.accounted(),
        ensures
            self.touched(slot, gid).accounted(),
    {
        if let Some(a) = self.atlas(slot) {
            if gid >= a.static_count {
                a.lemma_touched_bytes(gid, next_tick(self.clock));
                lemma_total_update(self.slots, slot as int, Some(a.touched(gid, next_tick(self.clock))));
            }
        }
    }

    /// Reclaiming the global LRU glyph of an accounted registry frees exactly
    /// its cell, keeps the accounting, and only removes cmap entries and
    /// activity from the atlas it belongs to.
    proof fn lemma_lru_evicted_facts(self, slot: u8, cp: u32)
        requires
            self.valid(),
            self.is_global_lru(self.global_lru().0, self.global_lru().1),
        ensures
            self.accounted() ==> self.lru_evicted().accounted(),
            self.accounted() ==> self.lru_evicted().runtime_bytes < self.runtime_bytes,
            self.lru_evicted().slots.len() == self.slots.len(),
            self.atlas(slot) matches Some(a) ==> {
                &&& self.lru_evicted().atlas(slot) matches Some(b)
                &&& b.glyph_count == a.glyph_count
                &&& b.cell_len() == a.cell_len()
                &&& b.all_active() ==> a.all_active()
                &&& sorted(a.cmap) ==> sorted(b.cmap)
                &&& !cmap_has(a.cmap, cp) ==> !cmap_has(b.cmap, cp)
            },
    {
        let (s, i) = self.global_lru();
        let a = self.slots[s]->0;
        a.lemma_evicted_facts(i, cp);
        if self.accounted() {
            lemma_total_update(self.slots, s, Some(a.evicted(i)));
            lemma_total_ge(self.slots, s);
            lemma_runtime_bytes_nonneg(a.evicted(i).runtime);
        }
    }
}

/// One glyph of a shaped run, in logical px.
#[derive(Clone, Copy, Debug)]
pub struct ShapedGlyph {
    pub gid: u16,
    pub advance: u32,
    /// Left-side-bearing shift: the cell is placed at pen - xoff.
    pub xoff: u32,
}

/// What a lookup of `cp` resolves to: the cmap entry found, or gid 0 (the
/// tofu box) with a cell-width advance on a miss.
pub open spec fn glyph_of(a: AtlasView, cp: u32) -> ShapedGlyph {
    match find_index(a.cmap, cp) {
        Some(k) => ShapedGlyph {
            gid: a.cmap[k].gid,
            advance: a.cmap[k].advance as u32,
            xoff: a.cmap[k].xoff as u32,
        },
        None => ShapedGlyph { gid: 0, advance: a.cell_w, xoff: 0 },
    }
}

/// `text` split at every '\n' (an empty text is one empty line).
pub open spec fn split_lines(text: Seq<char>) -> Seq<Seq<char>>
    decreases text.len(),
{
    if text.len() == 0 {
        seq![Seq::empty()]
    } else {
        let prev = split_lines(text.drop_last());
        if text.last() == '\n' {
            prev.push(Seq::empty())
        } else {
            prev.update(prev.len() - 1, prev.last().push(text.last()))
        }
    }
}

/// Each line of `text` shaped with the atlas `a`.
pub open spec fn shaped_lines(a: AtlasView, text: Seq<char>) -> Seq<Seq<ShapedGlyph>> {
    split_lines(text).map_values(|line: Seq<char>| line.map_values(|c: char| glyph_of(a, c as u32)))
}

/// Splitting yields at least one line.
pub proof fn lemma_split_lines_len(text: Seq<char>)
    ensures
        split_lines(text).len() >= 1,
    decreases text.len(),
{
    if text.len() > 0 {
        lemma_split_lines_len(text.drop_last());
    }
}

/// One registered atlas per slot, plus the global runtime-glyph budget, the
/// LRU clock, the miss counter and the host raster work queue.
pub struct Fonts {
    slots: Vec<Option<Atlas>>,
    /// cmap-miss counter.
    pub misses: u32,
    /// Deduplicated host work queue; `take_missing_glyphs` drains it.
    missing: Vec<GlyphRequest>,
    runtime_budget_bytes: usize,
    runtime_bytes: usize,
    /// Monotonic LRU clock, touched by actual text glyph lookup.
    runtime_clock: u64,
}

/// The view of an optional atlas.
pub open spec fn opt_view(o: Option<Atlas>) -> Option<AtlasView> {
    match o {
        Some(a) => Some(a@),
        None => None,
    }
}

proof fn lemma_slots_update_view(s: Seq<Option<Atlas>>, i: int, o: Option<Atlas>)
    requires
        0 <= i < s.len(),
    ensures
        s.update(i, o).map_values(|o: Option<Atlas>| opt_view(o)) == s.map_values(
            |o: Option<Atlas>| opt_view(o),
        ).update(i, opt_view(o)),
        opt_view(o) == opt_view(s[i]) ==> s.update(i, o).map_values(|o: Option<Atlas>| opt_view(o))
            == s.map_values(|o: Option<Atlas>| opt_view(o)),
{
    assert(s.update(i, o).map_values(|o: Option<Atlas>| opt_view(o)) =~= s.map_values(
        |o: Option<Atlas>| opt_view(o),
    ).update(i, opt_view(o)));
    if opt_view(o) == opt_view(s[i]) {
        assert(s.update(i, o).map_values(|o: Option<Atlas>| opt_view(o)) =~= s.map_values(
            |o: Option<Atlas>| opt_view(o),
        ));
    }
}

impl View for Fonts {
    type V = FontsView;

    closed spec fn view(&self) -> FontsView {
        FontsView {
            slots: self.slots@.map_values(|o: Option<Atlas>| opt_view(o)),
            misses: self.misses,
            missing: self.missing@,
            budget: self.runtime_budget_bytes,
            runtime_bytes: self.runtime_bytes,
            clock: self.runtime_clock,
        }
    }
}

/// Result of a budgeted runtime-glyph insert.
pub struct RuntimeGlyphUpdate {
    pub gid: u16,
    /// A new glyph was inserted.
    pub changed: bool,
    /// At least one LRU glyph was reclaimed to make room.
    pub evicted: bool,
}

impl Fonts {
    /// Registry consistency (see `FontsView::valid`), with every atlas well formed.
    pub closed spec fn wf(&self) -> bool {
        &&& self@.valid()
        &&& self.slots@.len() == MAX_FONT_SLOTS
        &&& forall|i: int|
            0 <= i < self.slots@.len() ==> (#[trigger] self.slots@[i] matches Some(a) ==> a.wf())
    }

    /// A well-formed registry has a valid view.
    pub proof fn lemma_wf_valid(&self)
        requires
            self.wf(),
        ensures
            self@.valid(),
    {
    }

    proof fn lemma_slot_view(&self, i: int)
        requires
            0 <= i < self.slots@.len(),
        ensures
            self@.slots[i] == opt_view(self.slots@[i]),
            self@.slots.len() == self.slots@.len(),
    {
    }

    /// An empty registry with the default runtime budget.
    pub fn new() -> (r: Fonts)
        ensures
            r.wf(),
            r@.slots == Seq::new(MAX_FONT_SLOTS as nat, |i: int| None::<AtlasView>),
            r@.misses == 0,
            r@.missing.len() == 0,
            r@.budget == DEFAULT_RUNTIME_GLYPH_BUDGET_BYTES,
            r@.runtime_bytes == 0,
            r@.clock == 0,
            r@.accounted(),
    {
        let mut slots: Vec<Option<Atlas>> = Vec::new();
        let mut i: usize = 0;
        while i < MAX_FONT_SLOTS
            invariant
                i <= MAX_FONT_SLOTS,
                slots@.len() == i,
                forall|j: int| 0 <= j < i ==> #[trigger] slots@[j] is None,
            decreases MAX_FONT_SLOTS - i,
        {
            slots.push(None);
            i = i + 1;
        }
        let r = Fonts {
            slots,
            misses: 0,
            missing: Vec::new(),
            runtime_budget_bytes: DEFAULT_RUNTIME_GLYPH_BUDGET_BYTES,
            runtime_bytes: 0,
            runtime_clock: 0,
        };
        assert(r@.slots =~= Seq::new(MAX_FONT_SLOTS as nat, |i: int| None::<AtlasView>));
        proof {
            lemma_total_idle(r@.slots);
        }
        r
    }

    /// The atlas registered at `slot`.
    pub fn atlas(&self, slot: u8) -> (r: Option<&Atlas>)
        requires
            self.wf(),
        ensures
            r is Some <==> self@.atlas(slot) is Some,
            r matches Some(a) ==> a.wf() && self@.atlas(slot) == Some(a@),
    {
        if (slot as usize) < self.slots.len() {
            proof {
                self.lemma_slot_view(slot as int);
            }
            self.slots[slot as usize].as_ref()
        } else {
            None
        }
    }

    /// Mutable access to the atlas registered at `slot`. Only the registry's
    /// own methods keep its accounting: what is done through the returned
    /// atlas is reflected in the registry's view, and its well-formedness is
    /// the caller's to re-establish.
    pub fn atlas_mut(&mut self, slot: u8) -> (r: Option<&mut Atlas>)
        requires
            old(self).wf(),
        ensures
            r is Some <==> old(self)@.atlas(slot) is Some,
            r is None ==> final(self)@ == old(self)@,
            r is Some ==> {
                &&& r.unwrap().wf()
                &&& r.unwrap()@ == old(self)@.atlas(slot)->0
                &&& final(self)@ == (FontsView {
                    slots: old(self)@.slots.update(slot as int, Some(final(r.unwrap())@)),
                    ..old(self)@
                })
            },
    {
        if (slot as usize) < self.slots.len() {
            proof {
                self.lemma_slot_view(slot as int);
            }
            let ghost s0 = self.slots@;
            let cell = &mut self.slots[slot as usize];
            proof {
                lemma_slots_update_view(s0, slot as int, *final(cell));
            }
            cell.as_mut()
        } else {
            None
        }
    }

    /// The runtime coverage budget in bytes.
    pub fn runtime_budget_bytes(&self) -> (r: usize)
        ensures
            r == self@.budget,
    {
        self.runtime_budget_bytes
    }

    /// The cmap-miss counter (wrapping).
    pub fn misses(&self) -> (r: u32)
        ensures
            r == self@.misses,
    {
        self.misses
    }

    /// Accounted runtime coverage bytes.
    pub fn runtime_bytes(&self) -> (r: usize)
        ensures
            r == self@.runtime_bytes,
    {
        self.runtime_bytes
    }

    /// Advance the LRU clock and return the new tick.
    fn next_runtime_tick(&mut self) -> (r: u64)
        ensures
            r == next_tick(old(self)@.clock),
            final(self)@ == (FontsView { clock: r, ..old(self)@ }),
            final(self).slots == old(self).slots,
            final(self).missing == old(self).missing,
    {
        let tick = if self.runtime_clock == u64::MAX {
            1
        } else {
            self.runtime_clock + 1
        };
        self.runtime_clock = tick;
        tick
    }

    /// Queue `(slot, codepoint)` for host rasterization unless already queued.
    fn record_missing(&mut self, slot: u8, codepoint: u32)
        requires
            no_dups(old(self)@.missing),
        ensures
            final(self)@ == (FontsView {
                missing: if old(self)@.missing.contains((slot, codepoint)) {
                    old(self)@.missing
                } else {
                    old(self)@.missing.push((slot, codepoint))
                },
                ..old(self)@
            }),
            no_dups(final(self)@.missing),
            final(self).slots == old(self).slots,
    {
        let mut i: usize = 0;
        while i < self.missing.len()
            invariant
                0 <= i <= self.missing@.len(),
                self@ == old(self)@,
                self.slots == old(self).slots,
                no_dups(self.missing@),
                forall|j: int| 0 <= j < i ==> #[trigger] self.missing@[j] != (slot, codepoint),
            decreases self.missing@.len() - i,
        {
            let (s, c) = self.missing[i];
            if s == slot && c == codepoint {
                assert(self.missing@.contains((slot, codepoint)));
                return;
            }
            i = i + 1;
        }
        assert(!self.missing@.contains((slot, codepoint)));
        self.missing.push((slot, codepoint));
    }

    /// Drop a queued request (it has been satisfied).
    fn remove_missing(&mut self, slot: u8, codepoint: u32)
        requires
            no_dups(old(self)@.missing),
        ensures
            final(self)@ == (FontsView { missing: without(old(self)@.missing, (slot, codepoint)), ..old(self)@ }),
            no_dups(final(self)@.missing),
            final(self).slots == old(self).slots,
    {
        let mut kept: Vec<GlyphRequest> = Vec::new();
        let mut i: usize = 0;
        while i < self.missing.len()
            invariant
                0 <= i <= self.missing@.len(),
                kept@ == without(self.missing@.take(i as int), (slot, codepoint)),
            decreases self.missing@.len() - i,
        {
            let req = self.missing[i];
            proof {
                assert(self.missing@.take(i + 1).drop_last() =~= self.missing@.take(i as int));
                assert(self.missing@.take(i + 1).last() == req);
            }
            if !(req.0 == slot && req.1 == codepoint) {
                kept.push(req);
            }
            i = i + 1;
        }
        proof {
            assert(self.missing@.take(i as int) =~= self.missing@);
            lemma_without_no_dups(self.missing@, (slot, codepoint));
        }
        self.missing = kept;
    }

    /// Touch a looked-up gid of the atlas at `slot` with a fresh LRU tick
    /// (baked gids do not advance the clock).
    fn touch_runtime_glyph(&mut self, slot: u8, gid: u16)
        requires
            old(self).wf(),
        ensures
            final(self).wf(),
            final(self)@ == old(self)@.touched(slot, gid),
            old(self)@.accounted() ==> final(self)@.accounted(),
    {
        proof {
            if old(self)@.accounted() {
                old(self)@.lemma_touched_accounted(slot, gid);
            }
        }
        if (slot as usize) >= self.slots.len() {
            return;
        }
        proof {
            self.lemma_slot_view(slot as int);
        }
        let is_runtime = match &self.slots[slot as usize] {
            Some(a) => gid >= a.static_glyph_count,
            None => false,
        };
        if !is_runtime {
            return;
        }
        let ghost old_view = self@;
        let tick = self.next_runtime_tick();
        let mut taken: Option<Atlas> = None;
        self.slots.set_and_swap(slot as usize, &mut taken);
        match taken {
            Some(mut a) => {
                a.touch_runtime_gid(gid, tick);
                self.slots.set(slot as usize, Some(a));
            },
            None => {},
        }
        proof {
            assert(self@.slots =~= old_view.slots.update(
                slot as int,
                Some(old_view.slots[slot as int]->0.touched(gid, tick)),
            ));
            assert(self@ =~= old_view.touched(slot, gid));
            assert forall|i: int| 0 <= i < self.slots@.len() implies (#[trigger] self.slots@[i] matches Some(a) ==> a.wf()) by {
                if i != slot as int {
                    assert(self.slots@[i] == old(self).slots@[i]);
                }
            }
        }
    }

    /// The global least-recently-used runtime glyph as (font slot, gid).
    fn lru_runtime_glyph(&self) -> (r: Option<(u8, u16)>)
        requires
            self.wf(),
        ensures
            r is None <==> !self@.any_active(),
            r matches Some((s, gid)) ==> {
                &&& self@.active_at(s as int, gid - self@.slots[s as int]->0.static_count)
                &&& gid >= self@.slots[s as int]->0.static_count
                &&& self@.is_global_lru(s as int, gid - self@.slots[s as int]->0.static_count)
            },
    {
        let mut best: Option<(u64, u8, u16)> = None;
        let mut s: usize = 0;
        while s < self.slots.len()
            invariant
                self.wf(),
                self.slots@.len() == MAX_FONT_SLOTS,
                0 <= s <= MAX_FONT_SLOTS,
                best is None ==> forall|s2: int, i2: int| s2 < s ==> !#[trigger] self@.active_at(s2, i2),
                best matches Some((t, bs, bg)) ==> {
                    let bi = bg - self@.slots[bs as int]->0.static_count;
                    &&& bs < s
                    &&& bg >= self@.slots[bs as int]->0.static_count
                    &&& self@.active_at(bs as int, bi)
                    &&& t == self@.tick_at(bs as int, bi)
                    &&& forall|s2: int, i2: int|
                        s2 < s && #[trigger] self@.active_at(s2, i2) ==> t <= self@.tick_at(s2, i2)
                    &&& forall|s2: int, i2: int|
                        #[trigger] self@.active_at(s2, i2) && (s2 < bs || (s2 == bs && i2 < bi))
                            ==> self@.tick_at(s2, i2) > t
                },
            decreases MAX_FONT_SLOTS - s,
        {
            proof {
                self.lemma_slot_view(s as int);
            }
            match &self.slots[s] {
                Some(a) => {
                    match a.lru_runtime_gid() {
                        Some((gid, tick)) => {
                            let better = match best {
                                None => true,
                                Some((t, _, _)) => tick < t,
                            };
                            if better {
                                best = Some((tick, s as u8, gid));
                            }
                        },
                        None => {},
                    }
                },
                None => {},
            }
            s = s + 1;
        }
        match best {
            None => {
                proof {
                    assert forall|s2: int, i2: int| !#[trigger] self@.active_at(s2, i2) by {
                        if s2 >= s {
                        }
                    }
                }
                None
            },
            Some((_, bs, bg)) => Some((bs, bg)),
        }
    }

    proof fn lemma_global_lru_unique(v: FontsView, s: int, i: int)
        requires
            v.is_global_lru(s, i),
        ensures
            v.global_lru() == (s, i),
    {
        let (s2, i2) = v.global_lru();
        assert(v.is_global_lru(s2, i2));
        if s2 < s || (s2 == s && i2 < i) {
            assert(v.tick_at(s2, i2) > v.tick_at(s, i));
        } else if s < s2 || (s == s2 && i < i2) {
            assert(v.tick_at(s, i) > v.tick_at(s2, i2));
        }
    }

    /// Reclaim the global LRU runtime glyph. False when none is active.
    fn evict_lru_runtime_glyph(&mut self) -> (r: bool)
        requires
            old(self).wf(),
        ensures
            final(self).wf(),
            r == old(self)@.any_active(),
            r ==> final(self)@ == old(self)@.lru_evicted(),
            !r ==> final(self)@ == old(self)@,
            r ==> final(self)@.runtime_bytes < old(self)@.runtime_bytes || old(self)@.runtime_bytes == 0,
            r ==> old(self)@.is_global_lru(old(self)@.global_lru().0, old(self)@.global_lru().1),
    {
        let (slot, gid) = match self.lru_runtime_glyph() {
            Some(x) => x,
            None => return false,
        };
        let ghost old_view = self@;
        let ghost si = slot as int;
        let ghost i = gid - self@.slots[si]->0.static_count;
        proof {
            Self::lemma_global_lru_unique(self@, si, i);
            self.lemma_slot_view(si);
        }
        let mut taken: Option<Atlas> = None;
        self.slots.set_and_swap(slot as usize, &mut taken);
        let mut freed: usize = 0;
        match taken {
            Some(mut a) => {
                proof {
                    a.lemma_wf_facts();
                }
                freed = a.evict_runtime_gid(gid);
                self.slots.set(slot as usize, Some(a));
            },
            None => {},
        }
        self.runtime_bytes = self.runtime_bytes.saturating_sub(freed);
        proof {
            let a = old_view.slots[si]->0;
            assert(self@.slots =~= old_view.slots.update(si, Some(a.evicted(i))));
            assert(self@ =~= old_view.lru_evicted());
            assert forall|k: int| 0 <= k < self.slots@.len() implies (#[trigger] self.slots@[k] matches Some(b) ==> b.wf()) by {
                if k != si {
                    assert(self.slots@[k] == old(self).slots@[k]);
                }
            }
            assert forall|k: int| 0 <= k < self@.slots.len() implies (#[trigger] self@.slots[k] matches Some(b) ==> b.valid()
                && b.slot == k) by {
                if k != si {
                    assert(self@.slots[k] == old_view.slots[k]);
                }
            }
        }
        true
    }

    /// Set the global runtime coverage budget, reclaiming LRU glyphs until
    /// the accounted bytes fit. Returns true when at least one was reclaimed.
    pub fn set_runtime_budget_bytes(&mut self, bytes: usize) -> (r: bool)
        requires
            old(self).wf(),
        ensures
            final(self).wf(),
            (final(self)@, r) == (FontsView { budget: bytes, ..old(self)@ }).settle(0),
            final(self)@.runtime_bytes <= bytes || !final(self)@.any_active(),
            old(self)@.accounted() ==> {
                &&& final(self)@.accounted()
                &&& final(self)@.runtime_bytes <= bytes
                &&& (r <==> old(self)@.runtime_bytes > bytes)
            },
    {
        self.runtime_budget_bytes = bytes;
        let ghost target = self@.settle(0);
        let mut evicted = false;
        let mut go = true;
        while go && self.runtime_bytes > self.runtime_budget_bytes
            invariant
                self.wf(),
                self@.budget == bytes,
                old(self)@.accounted() ==> self@.accounted(),
                evicted ==> old(self)@.runtime_bytes > bytes,
                !evicted ==> self@.runtime_bytes == old(self)@.runtime_bytes,
                go ==> self@.settle(0).0 == target.0 && target.1 == (evicted || self@.settle(0).1),
                !go ==> self@ == target.0 && target.1 == evicted && !self@.any_active(),
            decreases self.runtime_bytes + (if go { 1int } else { 0int }),
        {
            let ghost before = self@;
            if self.evict_lru_runtime_glyph() {
                evicted = true;
                proof {
                    assert(before.runtime_bytes + 0 > before.budget);
                    self.lemma_wf_valid();
                    before.lemma_lru_evicted_facts(0, 0);
                }
            } else {
                go = false;
            }
        }
        proof {
            if go {
                assert(self@.settle(0) == (self@, false));
            }
            if old(self)@.accounted() && !go {
                self.lemma_wf_valid();
                self@.lemma_idle_holds_nothing();
            }
        }
        evicted
    }

    proof fn lemma_settle_keeps_slots(v: FontsView, need: int)
        ensures
            v.settle(need).0.budget == v.budget,
            v.settle(need).0.slots.len() == v.slots.len(),
            forall|i: int| 0 <= i < v.slots.len() && v.slots[i] is Some ==> #[trigger] v.settle(need).0.slots[i] is Some,
        decreases v.runtime_bytes,
    {
        if v.runtime_bytes + need <= v.budget || !v.any_active() {
        } else {
            let next = v.lru_evicted();
            assert(next.slots.len() == v.slots.len());
            assert(forall|k: int| 0 <= k < v.slots.len() && v.slots[k] is Some ==> #[trigger] next.slots[k] is Some);
            if next.runtime_bytes < v.runtime_bytes {
                Self::lemma_settle_keeps_slots(next, need);
            }
        }
    }

    /// Budgeted, LRU-managed runtime glyph insert into the atlas at `slot`
    /// (see `FontsView::ensured`).
    pub(crate) fn ensure_runtime_glyph(
        &mut self,
        slot: u8,
        codepoint: u32,
        advance: u8,
        xoff: u8,
        coverage: &[u8],
    ) -> (r: Option<RuntimeGlyphUpdate>)
        requires
            old(self).wf(),
            old(self)@.runtime_bytes + coverage@.len() <= usize::MAX || old(self)@.budget < usize::MAX,
        ensures
            final(self).wf(),
            old(self)@.ensured(
                slot,
                codepoint,
                advance,
                xoff,
                coverage@,
                match r {
                    Some(u) => Some((u.gid, u.changed, u.evicted)),
                    None => None,
                },
                final(self)@,
            ),
            old(self)@.accounted() && old(self)@.sorted_at(slot) ==> final(self)@.accounted(),
            old(self)@.accounted() && old(self)@.fits(slot, codepoint, coverage@) ==> {
                &&& r matches Some(u)
                &&& u.changed
                &&& u.evicted == (old(self)@.runtime_bytes + coverage@.len() > old(self)@.budget)
                &&& final(self)@.runtime_bytes <= final(self)@.budget
                &&& !final(self)@.missing.contains((slot, codepoint))
            },
            old(self)@.accounted() && old(self)@.sorted_at(slot) && old(self)@.fits(slot, codepoint, coverage@)
                ==> {
                &&& r matches Some(u)
                &&& final(self)@.atlas(slot) matches Some(na)
                &&& find_index(na.cmap, codepoint) matches Some(k)
                &&& na.cmap[k] == (CmapEntry { codepoint, gid: u.gid, advance, xoff })
            },
    {
        if slot as usize >= self.slots.len() {
            return None;
        }
        proof {
            self.lemma_slot_view(slot as int);
        }
        let ghost old_view = self@;
        let (found, per_glyph, full) = match &self.slots[slot as usize] {
            None => {
                return None;
            },
            Some(a) => {
                proof {
                    lemma_find_index(a@.cmap, codepoint);
                    a.lemma_wf_facts();
                }
                let f = match a.lookup_entry(codepoint) {
                    Some(e) => Some(e.gid),
                    None => None,
                };
                let full = a.runtime_all_active() && a.glyph_count == u16::MAX;
                (f, a.cell_len_exec(), full)
            },
        };
        match found {
            Some(gid) => {
                self.touch_runtime_glyph(slot, gid);
                self.remove_missing(slot, codepoint);
                return Some(RuntimeGlyphUpdate { gid, changed: false, evicted: false });
            },
            None => {},
        }
        if coverage.len() != per_glyph || per_glyph > self.runtime_budget_bytes || full {
            return None;
        }
        let ghost target = self@.settle(per_glyph as int);
        let ghost a0 = old_view.atlas(slot)->0;
        proof {
            lemma_find_index(a0.cmap, codepoint);
        }
        let mut evicted = false;
        while self.runtime_bytes.saturating_add(per_glyph) > self.runtime_budget_bytes
            invariant
                self.wf(),
                target == old_view.settle(per_glyph as int),
                old_view == old(self)@,
                old_view.atlas(slot) == Some(a0),
                find_index(a0.cmap, codepoint) is None,
                coverage@.len() == a0.cell_len(),
                per_glyph as int == a0.cell_len(),
                a0.cell_len() <= old_view.budget,
                !(a0.all_active() && a0.glyph_count == u16::MAX),
                self@.budget == old_view.budget,
                per_glyph <= self@.budget,
                self@.runtime_bytes + per_glyph <= usize::MAX || self@.budget < usize::MAX,
                self@.settle(per_glyph as int).0 == target.0,
                target.1 == (evicted || self@.settle(per_glyph as int).1),
                old_view.accounted() ==> self@.accounted(),
                evicted ==> old_view.runtime_bytes + per_glyph > old_view.budget,
                !evicted ==> self@.runtime_bytes == old_view.runtime_bytes,
                self@.atlas(slot) matches Some(b) && {
                    &&& b.glyph_count == a0.glyph_count
                    &&& b.cell_len() == a0.cell_len()
                    &&& (b.all_active() ==> a0.all_active())
                    &&& (sorted(a0.cmap) ==> sorted(b.cmap) && !cmap_has(b.cmap, codepoint))
                },
            decreases self.runtime_bytes,
        {
            let ghost before = self@;
            if !self.evict_lru_runtime_glyph() {
                proof {
                    if old_view.accounted() {
                        self.lemma_wf_valid();
                        self@.lemma_idle_holds_nothing();
                    }
                    assert(self@.settle(per_glyph as int) == (self@, false));
                    assert(target.0 == self@);
                    assert(self@.runtime_bytes + a0.cell_len() > self@.budget);
                    assert(old_view.ensured(slot, codepoint, advance, xoff, coverage@, None, self@));
                }
                return None;
            }
            proof {
                self.lemma_wf_valid();
                before.lemma_lru_evicted_facts(slot, codepoint);
            }
            evicted = true;
        }
        proof {
            assert(self.runtime_bytes + per_glyph <= self.runtime_budget_bytes);
            assert(self@.settle(per_glyph as int) == (self@, false));
            Self::lemma_settle_keeps_slots(old_view, per_glyph as int);
            self.lemma_slot_view(slot as int);
        }
        let tick = self.next_runtime_tick();
        let ghost st = self@;
        let ghost pre_slots = self.slots@;
        let mut taken: Option<Atlas> = None;
        self.slots.set_and_swap(slot as usize, &mut taken);
        let inserted = match taken {
            Some(mut a) => {
                let g = a.insert_runtime_glyph_at(codepoint, advance, xoff, coverage, tick);
                proof {
                    let a2 = st.slots[slot as int]->0;
                    lemma_find_index(a2.cmap, codepoint);
                    if sorted(a0.cmap) && g is Some {
                        a2.lemma_inserted_bytes(codepoint, advance, xoff, coverage@, tick, g->0, a@);
                        lemma_sorted_insert_then_lookup(
                            a2,
                            codepoint,
                            advance,
                            xoff,
                            coverage@,
                            tick,
                            g->0,
                            a@,
                        );
                    }
                    a2.lemma_inserted_keeps_header(
                        codepoint,
                        advance,
                        xoff,
                        coverage@,
                        tick,
                        g,
                        a@,
                    );
                }
                self.slots.set(slot as usize, Some(a));
                g
            },
            None => None,
        };
        proof {
            assert forall|k: int| 0 <= k < self.slots@.len() implies (#[trigger] self.slots@[k] matches Some(b) ==> b.wf()) by {
                if k != slot as int {
                    assert(self.slots@[k] == pre_slots[k]);
                }
            }
            assert(self@.slots =~= st.slots.update(slot as int, self@.slots[slot as int]));
            assert forall|k: int| 0 <= k < self@.slots.len() implies (#[trigger] self@.slots[k] matches Some(b) ==> b.valid()
                && b.slot == k) by {
                if k != slot as int {
                    assert(self@.slots[k] == st.slots[k]);
                }
            }
        }
        proof {
            let a2 = st.slots[slot as int]->0;
            lemma_total_update(st.slots, slot as int, self@.slots[slot as int]);
            if inserted is None {
                assert(self@.slots[slot as int] == Some(a2));
            }
        }
        match inserted {
            None => None,
            Some(gid) => {
                self.runtime_bytes = self.runtime_bytes + per_glyph;
                self.remove_missing(slot, codepoint);
                proof {
                    lemma_without_subset(st.missing, (slot, codepoint));
                }
                Some(RuntimeGlyphUpdate { gid, changed: true, evicted })
            },
        }
    }

    /// Insert a runtime glyph through the global budgeted LRU; the gid of the
    /// glyph (see `FontsView::ensured`).
    pub fn insert_runtime_glyph(
        &mut self,
        slot: u8,
        codepoint: u32,
        advance: u8,
        xoff: u8,
        coverage: &[u8],
    ) -> (r: Option<u16>)
        requires
            old(self).wf(),
            old(self)@.runtime_bytes + coverage@.len() <= usize::MAX || old(self)@.budget < usize::MAX,
        ensures
            final(self).wf(),
            exists|u: Option<(u16, bool, bool)>|
                #[trigger] old(self)@.ensured(slot, codepoint, advance, xoff, coverage@, u, final(self)@)
                    && r == (match u {
                    Some(t) => Some(t.0),
                    None => None::<u16>,
                }),
            old(self)@.accounted() && old(self)@.sorted_at(slot) ==> final(self)@.accounted(),
            old(self)@.accounted() && old(self)@.fits(slot, codepoint, coverage@) ==> {
                &&& r is Some
                &&& final(self)@.runtime_bytes <= final(self)@.budget
                &&& !final(self)@.missing.contains((slot, codepoint))
            },
            old(self)@.accounted() && old(self)@.sorted_at(slot) && old(self)@.fits(slot, codepoint, coverage@)
                ==> {
                &&& final(self)@.atlas(slot) matches Some(na)
                &&& find_index(na.cmap, codepoint) matches Some(k)
                &&& na.cmap[k] == (CmapEntry { codepoint, gid: r->0, advance, xoff })
            },
    {
        let u = self.ensure_runtime_glyph(slot, codepoint, advance, xoff, coverage);
        match u {
            Some(x) => Some(x.gid),
            None => None,
        }
    }

    /// Parse and register an atlas at the slot in its header. A replaced
    /// atlas's runtime bytes leave the accounting and its queued requests are
    /// dropped (still-missing codepoints queue again on their next lookup).
    pub fn load(&mut self, bytes: &[u8]) -> (r: bool)
        requires
            old(self).wf(),
        ensures
            final(self).wf(),
            r == blob_valid(bytes@),
            !r ==> final(self)@ == old(self)@,
            r ==> {
                let slot = bytes@[12];
                let freed = match old(self)@.slots[slot as int] {
                    Some(p) => if p.runtime_bytes() <= usize::MAX {
                        p.runtime_bytes()
                    } else {
                        usize::MAX as int
                    },
                    None => 0,
                };
                final(self)@ == FontsView {
                    slots: old(self)@.slots.update(slot as int, Some(blob_atlas(bytes@))),
                    runtime_bytes: if old(self)@.runtime_bytes >= freed {
                        (old(self)@.runtime_bytes - freed) as usize
                    } else {
                        0usize
                    },
                    missing: without_slot(old(self)@.missing, slot),
                    ..old(self)@
                }
            },
            old(self)@.accounted() ==> final(self)@.accounted(),
    {
        let atlas = match Atlas::parse(bytes) {
            Some(a) => a,
            None => return false,
        };
        let ghost old_view = self@;
        let slot = atlas.slot as usize;
        proof {
            atlas.lemma_wf_facts();
            self.lemma_slot_view(slot as int);
        }
        let freed = match &self.slots[slot] {
            Some(previous) => previous.runtime_bytes(),
            None => 0,
        };
        proof {
            if old_view.accounted() {
                lemma_total_ge(old_view.slots, slot as int);
                lemma_total_update(old_view.slots, slot as int, Some(blob_atlas(bytes@)));
                assert(blob_atlas(bytes@).runtime =~= Seq::<RuntimeSlot>::empty());
            }
        }
        self.runtime_bytes = self.runtime_bytes.saturating_sub(freed);
        let ghost pre_slots = self.slots@;
        self.slots.set(slot, Some(atlas));
        let mut kept: Vec<GlyphRequest> = Vec::new();
        let mut i: usize = 0;
        while i < self.missing.len()
            invariant
                0 <= i <= self.missing@.len(),
                slot < 256,
                kept@ == without_slot(self.missing@.take(i as int), slot as u8),
            decreases self.missing@.len() - i,
        {
            let req = self.missing[i];
            proof {
                assert(self.missing@.take(i + 1).drop_last() =~= self.missing@.take(i as int));
                assert(self.missing@.take(i + 1).last() == req);
            }
            if req.0 as usize != slot {
                kept.push(req);
            }
            i = i + 1;
        }
        proof {
            assert(self.missing@.take(i as int) =~= self.missing@);
            lemma_without_slot_no_dups(self.missing@, slot as u8);
        }
        self.missing = kept;
        proof {
            assert(self@.slots =~= old_view.slots.update(slot as int, Some(blob_atlas(bytes@))));
            assert forall|k: int| 0 <= k < self.slots@.len() implies (#[trigger] self.slots@[k] matches Some(b) ==> b.wf()) by {
                if k != slot as int {
                    assert(self.slots@[k] == pre_slots[k]);
                }
            }
            assert forall|k: int| 0 <= k < self@.slots.len() implies (#[trigger] self@.slots[k] matches Some(b) ==> b.valid()
                && b.slot == k) by {
                if k != slot as int {
                    assert(self@.slots[k] == old_view.slots[k]);
                }
            }
        }
        true
    }

    /// Drain the deduplicated `(font slot, codepoint)` host work queue.
    pub fn take_missing_glyphs(&mut self) -> (r: Vec<GlyphRequest>)
        requires
            old(self).wf(),
        ensures
            final(self).wf(),
            r@ == old(self)@.missing,
            final(self)@ == (FontsView { missing: Seq::empty(), ..old(self)@ }),
    {
        let mut taken: Vec<GlyphRequest> = Vec::new();
        std::mem::swap(&mut taken, &mut self.missing);
        proof {
            assert(self@.missing =~= Seq::<GlyphRequest>::empty());
        }
        taken
    }

    /// (gid, advance, xoff) for a codepoint in the atlas at `slot`; a miss
    /// resolves to gid 0 with a cell-width advance, bumps the miss counter and
    /// queues deduplicated host raster work. Runtime hits refresh the LRU.
    fn glyph(&mut self, slot: u8, cp: u32) -> (r: ShapedGlyph)
        requires
            old(self).wf(),
            old(self)@.atlas(slot) is Some,
        ensures
            final(self).wf(),
            r == glyph_of(old(self)@.atlas(slot)->0, cp),
            final(self)@ == old(self)@.after_glyph(slot, cp),
            old(self)@.accounted() ==> final(self)@.accounted(),
    {
        proof {
            self.lemma_slot_view(slot as int);
        }
        let (hit, cell_w) = match &self.slots[slot as usize] {
            Some(a) => {
                proof {
                    lemma_find_index(a@.cmap, cp);
                }
                let h = match a.lookup_entry(cp) {
                    Some(e) => Some(*e),
                    None => None,
                };
                (h, a.cell_w)
            },
            None => (None, 0),
        };
        match hit {
            Some(e) => {
                self.touch_runtime_glyph(slot, e.gid);
                ShapedGlyph { gid: e.gid, advance: e.advance as u32, xoff: e.xoff as u32 }
            },
            None => {
                self.misses = self.misses.wrapping_add(1);
                self.record_missing(slot, cp);
                ShapedGlyph { gid: 0, advance: cell_w, xoff: 0 }
            },
        }
    }

    /// Shape a run line by line (lines break only at '\n'): every glyph's
    /// gid, advance and xoff in logical px, looked up as `glyph` does. `None`
    /// for an unregistered slot or empty text, which then measure (0, 0).
    pub fn shape_run(&mut self, text: &str, slot: u8) -> (r: Option<Vec<Vec<ShapedGlyph>>>)
        requires
            old(self).wf(),
        ensures
            final(self).wf(),
            old(self)@.atlas(slot) is None || text@.len() == 0 ==> r is None && final(self)@ == old(self)@,
            old(self)@.atlas(slot) is Some && text@.len() > 0 ==> {
                let lines = shaped_lines(old(self)@.atlas(slot)->0, text@);
                &&& r is Some
                &&& r->0@.len() == lines.len()
                &&& forall|i: int| 0 <= i < lines.len() ==> (#[trigger] r->0@[i])@ == lines[i]
                &&& final(self)@ == old(self)@.after_text(slot, text@)
            },
            old(self)@.accounted() ==> final(self)@.accounted(),
    {
        if (slot as usize) >= self.slots.len() {
            return None;
        }
        proof {
            self.lemma_slot_view(slot as int);
        }
        if self.slots[slot as usize].is_none() {
            return None;
        }
        if text.is_empty() {
            return None;
        }
        let ghost a0 = self@.atlas(slot)->0;
        let ghost v0 = self@;
        let mut lines: Vec<Vec<ShapedGlyph>> = Vec::new();
        let mut cur: Vec<ShapedGlyph> = Vec::new();
        for ch in it: text.chars()
            invariant
                self.wf(),
                it.seq() == text@,
                self@.atlas(slot) is Some,
                self@.atlas(slot)->0.cmap == a0.cmap,
                self@.atlas(slot)->0.cell_w == a0.cell_w,
                self@ == v0.after_text(slot, text@.take(it.index() as int)),
                v0.accounted() ==> self@.accounted(),
                lines@.len() + 1 == shaped_lines(a0, text@.take(it.index() as int)).len(),
                forall|i: int| 0 <= i < lines@.len() ==> (#[trigger] lines@[i])@ == shaped_lines(a0, text@.take(it.index() as int))[i],
                cur@ == shaped_lines(a0, text@.take(it.index() as int)).last(),
        {
            let ghost idx = it.index() as int;
            proof {
                assert(text@.take(idx + 1).drop_last() =~= text@.take(idx));
                assert(text@.take(idx + 1).last() == ch);
                lemma_split_lines_len(text@.take(idx));
            }
            if ch == '\n' {
                let mut done: Vec<ShapedGlyph> = Vec::new();
                std::mem::swap(&mut done, &mut cur);
                lines.push(done);
                proof {
                    let sl = shaped_lines(a0, text@.take(idx + 1));
                    assert(split_lines(text@.take(idx + 1)) == split_lines(text@.take(idx)).push(Seq::empty()));
                    assert(cur@ =~= sl.last());
                    assert forall|i: int| 0 <= i < lines@.len() implies (#[trigger] lines@[i])@ == sl[i] by {
                        if i < lines@.len() - 1 {
                        }
                    }
                }
            } else {
                let g = self.glyph(slot, ch as u32);
                cur.push(g);
                proof {
                    let sl = shaped_lines(a0, text@.take(idx + 1));
                    let sp = split_lines(text@.take(idx));
                    assert(split_lines(text@.take(idx + 1)) == sp.update(sp.len() - 1, sp.last().push(ch)));
                    assert(cur@ =~= sl.last());
                    assert forall|i: int| 0 <= i < lines@.len() implies (#[trigger] lines@[i])@ == sl[i] by {
                    }
                }
            }
        }
        proof {
            assert(text@.take(text@.len() as int) =~= text@);
        }
        lines.push(cur);
        proof {
            let sl = shaped_lines(a0, text@);
            assert forall|i: int| 0 <= i < sl.len() implies (#[trigger] lines@[i])@ == sl[i] by {
            }
        }
        Some(lines)
    }
}


impl Default for Fonts {
    fn default() -> (r: Fonts)
        ensures
            r.wf(),
            r@.slots == Seq::new(MAX_FONT_SLOTS as nat, |i: int| None::<AtlasView>),
            r@.misses == 0,
            r@.missing.len() == 0,
            r@.budget == DEFAULT_RUNTIME_GLYPH_BUDGET_BYTES,
            r@.runtime_bytes == 0,
            r@.clock == 0,
    {
        Fonts::new()
    }
}

// ---------------------------------------------------------------------------
// Laws
// ---------------------------------------------------------------------------

/// At raster density 1 the logical coverage of a pixel is exactly its
/// coverage byte.
pub proof fn lemma_density_one_exact(a: AtlasView, gid: u16, x: u32, y: u32)
    requires
        a.valid(),
        a.raster_density == 1,
        gid < a.glyph_count,
        x < a.cell_w,
        y < a.cell_h,
    ensures
        a.logical_coverage(gid, x, y) == a.glyph_rows(gid)[y * a.cell_w + x] as int,
{
    let rows = a.glyph_rows(gid);
    let d = a.raster_density as int;
    assert(x * d == x as int && y * d == y as int && d * d == 1 && a.coverage_width() == a.cell_w as int)
        by (nonlinear_arith)
        requires
            d == 1,
            a.coverage_width() == a.cell_w * d,
    ;
    let base = y * a.coverage_width() + x;
    assert(a.block_sum(rows, x as int, y as int, 0) == 0);
    assert(seq_sum(rows, base, base + 1) == seq_sum(rows, base, base) + rows[base]);
    assert(a.block_sum(rows, x as int, y as int, 1) == rows[base] as int);
}

/// Bytes after the coverage cells are ignored: a valid blob with anything
/// appended is still valid and parses to the same atlas.
pub proof fn lemma_parse_ignores_trailing_bytes(b: Seq<u8>, extra: Seq<u8>)
    requires
        blob_valid(b),
    ensures
        blob_valid(b + extra),
        blob_atlas(b + extra) == blob_atlas(b),
{
    let c = b + extra;
    assert forall|k: int| 0 <= k < b.len() implies #[trigger] c[k] == b[k] by {}
    let n = blob_glyph_count(b);
    assert(c[4] == b[4] && c[5] == b[5] && c[6] == b[6] && c[7] == b[7]);
    assert(c[0] == b[0] && c[1] == b[1] && c[2] == b[2] && c[3] == b[3]);
    assert(c[8] == b[8] && c[9] == b[9] && c[10] == b[10] && c[11] == b[11]);
    assert(c[12] == b[12] && c[13] == b[13]);
    if blob_version(b) != ATLAS_VERSION_LEGACY as int {
        assert(c[14] == b[14]);
    }
    assert(blob_glyph_count(c) == n);
    assert(blob_bitmap_len(b) >= 0) by (nonlinear_arith)
        requires
            blob_bitmap_len(b) == n * blob_cell_len(b),
            n >= 0,
            blob_cell_len(b) == (b[9] as int * blob_density(b)) * (b[8] as int * blob_density(b)),
            blob_density(b) >= 0,
    ;
    assert forall|i: int| 0 <= i < n implies #[trigger] blob_entry(c, i) == blob_entry(b, i) by {
        let o = blob_entry_off(i);
        assert(o + 7 < blob_bitmap_off(b));
        assert(c[o] == b[o] && c[o + 1] == b[o + 1] && c[o + 2] == b[o + 2] && c[o + 3] == b[o + 3]);
        assert(c[o + 4] == b[o + 4] && c[o + 5] == b[o + 5] && c[o + 6] == b[o + 6] && c[o + 7]
            == b[o + 7]);
    }
    assert(blob_cmap(c) =~= blob_cmap(b));
    let off = blob_bitmap_off(b);
    let end = off + blob_bitmap_len(b);
    assert(c.subrange(off, end) =~= b.subrange(off, end));
}

/// A blob whose cmap is strictly ascending parses to a coherent atlas.
pub proof fn lemma_parse_coherent(b: Seq<u8>)
    requires
        blob_valid(b),
        strictly_sorted(blob_cmap(b)),
    ensures
        blob_atlas(b).coherent(),
{
    let a = blob_atlas(b);
    assert forall|k: int| 0 <= k < a.cmap.len() implies {
        let e = #[trigger] a.cmap[k];
        ||| e.gid < a.static_count
        ||| a.runtime[e.gid - a.static_count].codepoint == Some(e.codepoint)
    } by {
        assert(a.cmap[k] == blob_entry(b, k));
    }
}

/// Touching a gid keeps an atlas coherent.
pub proof fn lemma_touch_keeps_coherent(a: AtlasView, gid: u16, tick: u64)
    requires
        a.valid(),
        a.coherent(),
    ensures
        a.touched(gid, tick).coherent(),
{
    let t = a.touched(gid, tick);
    assert forall|k: int| 0 <= k < t.cmap.len() implies {
        let e = #[trigger] t.cmap[k];
        ||| e.gid < t.static_count
        ||| t.runtime[e.gid - t.static_count].codepoint == Some(e.codepoint)
    } by {
        let e = a.cmap[k];
        if e.gid >= a.static_count {
            assert(a.runtime[e.gid - a.static_count].codepoint == Some(e.codepoint));
            assert(e.gid < a.glyph_count);
            if gid >= a.static_count && a.active(gid - a.static_count) {
                let i = gid - a.static_count;
                if e.gid - a.static_count == i {
                    assert(t.runtime[i].codepoint == a.runtime[i].codepoint);
                } else {
                    assert(t.runtime[e.gid - a.static_count] == a.runtime[e.gid - a.static_count]);
                }
            }
        }
    }
}

/// Reclaiming an active runtime slot keeps an atlas valid and coherent, and
/// its codepoint is no longer mapped.
pub proof fn lemma_evict_keeps_coherent(a: AtlasView, i: int)
    requires
        a.valid(),
        a.coherent(),
        a.active(i),
    ensures
        a.evicted(i).coherent(),
        !cmap_has(a.evicted(i).cmap, a.runtime[i].codepoint->0),
{
    let cp = a.runtime[i].codepoint->0;
    let e = a.evicted(i);
    lemma_find_index(a.cmap, cp);
    assert forall|p: int, q: int| 0 <= p < q < e.cmap.len() implies #[trigger] e.cmap[p].codepoint
        < #[trigger] e.cmap[q].codepoint by {
        match find_index(a.cmap, cp) {
            Some(kk) => {
                let pp = if p < kk { p } else { p + 1 };
                let qq = if q < kk { q } else { q + 1 };
                assert(e.cmap[p] == a.cmap[pp]);
                assert(e.cmap[q] == a.cmap[qq]);
            },
            None => {},
        }
    }
    assert forall|k: int| 0 <= k < e.cmap.len() implies {
        let en = #[trigger] e.cmap[k];
        ||| en.gid < e.static_count
        ||| e.runtime[en.gid - e.static_count].codepoint == Some(en.codepoint)
    } by {
        let kk = match find_index(a.cmap, cp) {
            Some(kk) => kk,
            None => a.cmap.len() as int,
        };
        let src = if k < kk { k } else { k + 1 };
        if find_index(a.cmap, cp) is None {
            assert(e.cmap[k] == a.cmap[k]);
        } else {
            assert(e.cmap[k] == a.cmap[src]);
        }
        let en = e.cmap[k];
        if en.gid >= a.static_count && en.gid - a.static_count == i {
            // The only entry for `cp` sat at `kk` and was removed.
            assert(a.runtime[i].codepoint == Some(en.codepoint));
            assert(cmap_has(a.cmap, cp));
            assert(a.cmap[kk].codepoint == cp);
            if src < kk {
                assert(a.cmap[src].codepoint < a.cmap[kk].codepoint);
            } else {
                assert(a.cmap[kk].codepoint < a.cmap[src].codepoint);
            }
        }
    }
    if cmap_has(e.cmap, cp) {
        let k = choose|k: int| 0 <= k < e.cmap.len() && #[trigger] e.cmap[k].codepoint == cp;
        let kk = find_index(a.cmap, cp)->0;
        assert(cmap_has(a.cmap, cp));
        let src = if k < kk { k } else { k + 1 };
        assert(e.cmap[k] == a.cmap[src]);
        if src < kk {
            assert(a.cmap[src].codepoint < a.cmap[kk].codepoint);
        } else {
            assert(a.cmap[kk].codepoint < a.cmap[src].codepoint);
        }
    }
}

/// Read after write: on a coherent atlas, a runtime insert that succeeds
/// leaves the atlas coherent, the codepoint maps to the returned gid, and a
/// newly inserted glyph's coverage is what `glyph_rows` returns for that gid.
pub proof fn lemma_insert_then_lookup(
    a: AtlasView,
    codepoint: u32,
    advance: u8,
    xoff: u8,
    coverage: Seq<u8>,
    tick: u64,
    g: u16,
    new: AtlasView,
)
    requires
        a.valid(),
        a.coherent(),
        a.inserted(codepoint, advance, xoff, coverage, tick, Some(g), new),
    ensures
        new.coherent(),
        find_index(new.cmap, codepoint) matches Some(k) && new.cmap[k].gid == g,
        !cmap_has(a.cmap, codepoint) ==> new.glyph_rows(g) == coverage,
        !cmap_has(a.cmap, codepoint) ==> (find_index(new.cmap, codepoint) matches Some(k) && new.cmap[k]
            == (CmapEntry { codepoint, gid: g, advance, xoff })),
{
    lemma_find_index(a.cmap, codepoint);
    match find_index(a.cmap, codepoint) {
        Some(k) => {
            lemma_touch_keeps_coherent(a, a.cmap[k].gid, tick);
            lemma_find_index(new.cmap, codepoint);
        },
        None => {
            let entry = CmapEntry { codepoint, gid: g, advance, xoff };
            let pos = choose|pos: int|
                {
                    &&& 0 <= pos <= a.cmap.len()
                    &&& new.cmap == #[trigger] a.cmap.insert(pos, entry)
                    &&& sorted(a.cmap) ==> (forall|j: int|
                        0 <= j < pos ==> #[trigger] a.cmap[j].codepoint < entry.codepoint) && (forall|
                        j: int,
                    |
                        pos <= j < a.cmap.len() ==> #[trigger] a.cmap[j].codepoint > entry.codepoint)
                };
            assert(sorted(a.cmap));
            let idx = g - a.static_count;
            assert forall|p: int, q: int| 0 <= p < q < new.cmap.len() implies #[trigger] new.cmap[p].codepoint
                < #[trigger] new.cmap[q].codepoint by {
                if p < pos && q < pos {
                    assert(new.cmap[p] == a.cmap[p] && new.cmap[q] == a.cmap[q]);
                } else if p < pos && q == pos {
                    assert(new.cmap[p] == a.cmap[p]);
                } else if p < pos {
                    assert(new.cmap[p] == a.cmap[p] && new.cmap[q] == a.cmap[q - 1]);
                } else if p == pos {
                    assert(new.cmap[q] == a.cmap[q - 1]);
                } else {
                    assert(new.cmap[p] == a.cmap[p - 1] && new.cmap[q] == a.cmap[q - 1]);
                }
            }
            if !a.all_active() {
                let f = choose|i: int| a.is_first_free(i);
                assert(exists|i: int| a.is_first_free(i)) by {
                    lemma_first_free_exists(a);
                }
            }
            assert forall|k: int| 0 <= k < new.cmap.len() implies {
                let en = #[trigger] new.cmap[k];
                ||| en.gid < new.static_count
                ||| new.runtime[en.gid - new.static_count].codepoint == Some(en.codepoint)
            } by {
                if k == pos {
                } else {
                    let src = if k < pos { k } else { k - 1 };
                    assert(new.cmap[k] == a.cmap[src]);
                    let en = a.cmap[src];
                    if en.gid >= a.static_count {
                        assert(a.runtime[en.gid - a.static_count].codepoint == Some(en.codepoint));
                        assert(en.gid - a.static_count != idx);
                    }
                }
            }
            lemma_find_index(new.cmap, codepoint);
            assert(new.cmap[pos].codepoint == codepoint);
        },
    }
}

/// Reclaiming an active runtime slot leaves it inactive (so reclaiming the
/// same gid again finds nothing to do), keeps the gid count, frees exactly
/// one cell, and the gid's coverage reads as one transparent cell.
pub proof fn lemma_evict_clears_slot(a: AtlasView, i: int)
    requires
        a.valid(),
        a.active(i),
    ensures
        !a.evicted(i).active(i),
        a.evicted(i).glyph_count == a.glyph_count,
        a.evicted(i).runtime_bytes() == a.runtime_bytes() - a.cell_len(),
        a.evicted(i).glyph_rows((a.static_count + i) as u16) == zero_seq(a.cell_len()),
{
    a.lemma_evicted_facts(i, 0);
    assert(a.evicted(i).runtime[i].coverage is None);
}

/// A budgeted insert is refused, and changes nothing, when no atlas is
/// registered at the slot, or when the lookup misses the codepoint and the
/// coverage has the wrong size or one cell exceeds the whole budget.
pub proof fn lemma_refused_insert_changes_nothing(
    f: FontsView,
    slot: u8,
    codepoint: u32,
    advance: u8,
    xoff: u8,
    coverage: Seq<u8>,
    r: Option<(u16, bool, bool)>,
    new: FontsView,
)
    requires
        f.ensured(slot, codepoint, advance, xoff, coverage, r, new),
        f.atlas(slot) matches Some(a) ==> find_index(a.cmap, codepoint) is None && (coverage.len()
            != a.cell_len() || a.cell_len() > f.budget),
    ensures
        r is None,
        new == f,
{
}

/// The queue after looking up every non-newline char of `text` in atlas `a`
/// at `slot`, starting from `q`: a missed codepoint is appended on its first
/// miss and never twice.
pub open spec fn queued_after(q: Seq<GlyphRequest>, a: AtlasView, slot: u8, text: Seq<char>) -> Seq<
    GlyphRequest,
>
    decreases text.len(),
{
    if text.len() == 0 {
        q
    } else {
        let p = queued_after(q, a, slot, text.drop_last());
        let cp = text.last() as u32;
        if text.last() == '\n' || find_index(a.cmap, cp) is Some || p.contains((slot, cp)) {
            p
        } else {
            p.push((slot, cp))
        }
    }
}

/// `r` names `slot` and a non-newline char of `text` that the lookup in `a` misses.
pub open spec fn missed_in(a: AtlasView, slot: u8, text: Seq<char>, r: GlyphRequest) -> bool {
    &&& r.0 == slot
    &&& find_index(a.cmap, r.1) is None
    &&& exists|i: int| 0 <= i < text.len() && text[i] != '\n' && #[trigger] text[i] as u32 == r.1
}

proof fn lemma_after_text_queue(v: FontsView, slot: u8, text: Seq<char>)
    requires
        v.atlas(slot) is Some,
    ensures
        v.after_text(slot, text).atlas(slot) is Some,
        v.after_text(slot, text).atlas(slot)->0.cmap == v.atlas(slot)->0.cmap,
        v.after_text(slot, text).missing == queued_after(v.missing, v.atlas(slot)->0, slot, text),
    decreases text.len(),
{
    if text.len() > 0 {
        lemma_after_text_queue(v, slot, text.drop_last());
    }
}

proof fn lemma_queued_misses(q: Seq<GlyphRequest>, a: AtlasView, slot: u8, text: Seq<char>)
    requires
        no_dups(q),
    ensures
        queued_after(q, a, slot, text).len() >= q.len(),
        queued_after(q, a, slot, text).subrange(0, q.len() as int) == q,
        no_dups(queued_after(q, a, slot, text)),
        forall|r: GlyphRequest|
            #[trigger] queued_after(q, a, slot, text).contains(r) <==> q.contains(r) || missed_in(
                a,
                slot,
                text,
                r,
            ),
    decreases text.len(),
{
    if text.len() > 0 {
        let d = text.drop_last();
        lemma_queued_misses(q, a, slot, d);
        let p = queued_after(q, a, slot, d);
        let res = queued_after(q, a, slot, text);
        let c = text.last();
        if res != p {
            assert(res == p.push((slot, c as u32)));
            assert(res.subrange(0, q.len() as int) =~= p.subrange(0, q.len() as int));
        }
        assert forall|r: GlyphRequest| #[trigger] res.contains(r) <==> q.contains(r) || missed_in(a, slot, text, r) by {
            if missed_in(a, slot, d, r) {
                let i = choose|i: int| 0 <= i < d.len() && d[i] != '\n' && #[trigger] d[i] as u32 == r.1;
                assert(text[i] == d[i]);
            }
            if p.contains(r) {
                let k = choose|k: int| 0 <= k < p.len() && p[k] == r;
                assert(res[k] == p[k]);
            }
            if missed_in(a, slot, text, r) && !missed_in(a, slot, d, r) {
                let i = choose|i: int| 0 <= i < text.len() && text[i] != '\n' && #[trigger] text[i] as u32 == r.1;
                if i < d.len() {
                    assert(d[i] == text[i]);
                    assert(false);
                }
                if !p.contains(r) {
                    assert(res.last() == r);
                }
            }
            if res.contains(r) {
                let k = choose|k: int| 0 <= k < res.len() && res[k] == r;
                if k < p.len() {
                    assert(res[k] == p[k]);
                    assert(p.contains(r));
                } else {
                    assert(text[text.len() - 1] == c);
                }
            }
        }
    }
}

/// Shaping `text` in the atlas at `slot` keeps the queued requests, in
/// order, and appends each codepoint whose lookup misses and is not queued
/// yet, once, in order of first miss; nothing else joins the queue.
pub proof fn lemma_shaping_appends_new_misses(v: FontsView, slot: u8, text: Seq<char>)
    requires
        v.valid(),
        v.atlas(slot) is Some,
    ensures
        v.after_text(slot, text).missing == queued_after(v.missing, v.atlas(slot)->0, slot, text),
        v.after_text(slot, text).missing.subrange(0, v.missing.len() as int) == v.missing,
        no_dups(v.after_text(slot, text).missing),
        forall|r: GlyphRequest|
            #[trigger] v.after_text(slot, text).missing.contains(r) <==> v.missing.contains(r)
                || missed_in(v.atlas(slot)->0, slot, text, r),
{
    lemma_after_text_queue(v, slot, text);
    lemma_queued_misses(v.missing, v.atlas(slot)->0, slot, text);
}

/// Shaping `text` in the atlas at `slot` right after a drain queues each
/// codepoint whose lookup misses exactly once, in order of first miss, and
/// nothing else: the next drain returns exactly those requests.
pub proof fn lemma_shaping_queues_each_miss_once(v: FontsView, slot: u8, text: Seq<char>)
    requires
        v.atlas(slot) is Some,
        v.missing.len() == 0,
    ensures
        v.after_text(slot, text).missing == queued_after(Seq::empty(), v.atlas(slot)->0, slot, text),
        no_dups(v.after_text(slot, text).missing),
        forall|r: GlyphRequest|
            #[trigger] v.after_text(slot, text).missing.contains(r) <==> missed_in(
                v.atlas(slot)->0,
                slot,
                text,
                r,
            ),
{
    assert(v.missing =~= Seq::<GlyphRequest>::empty());
    lemma_after_text_queue(v, slot, text);
    lemma_queued_misses(Seq::empty(), v.atlas(slot)->0, slot, text);
}

/// Read after write on a sorted cmap: a runtime insert of an unmapped
/// codepoint keeps the cmap sorted, and the lookup then finds the new entry.
pub proof fn lemma_sorted_insert_then_lookup(
    a: AtlasView,
    codepoint: u32,
    advance: u8,
    xoff: u8,
    coverage: Seq<u8>,
    tick: u64,
    g: u16,
    new: AtlasView,
)
    requires
        sorted(a.cmap),
        !cmap_has(a.cmap, codepoint),
        a.inserted(codepoint, advance, xoff, coverage, tick, Some(g), new),
    ensures
        sorted(new.cmap),
        find_index(new.cmap, codepoint) matches Some(k) && new.cmap[k] == (CmapEntry {
            codepoint,
            gid: g,
            advance,
            xoff,
        }),
{
    lemma_find_index(a.cmap, codepoint);
    let entry = CmapEntry { codepoint, gid: g, advance, xoff };
    let pos = choose|pos: int|
        {
            &&& 0 <= pos <= a.cmap.len()
            &&& new.cmap == #[trigger] a.cmap.insert(pos, entry)
            &&& sorted(a.cmap) ==> (forall|j: int|
                0 <= j < pos ==> #[trigger] a.cmap[j].codepoint < entry.codepoint) && (forall|j: int|
                pos <= j < a.cmap.len() ==> #[trigger] a.cmap[j].codepoint > entry.codepoint)
        };
    assert forall|p: int, q: int| 0 <= p < q < new.cmap.len() implies #[trigger] new.cmap[p].codepoint
        <= #[trigger] new.cmap[q].codepoint by {
        if p < pos && q < pos {
            assert(new.cmap[p] == a.cmap[p] && new.cmap[q] == a.cmap[q]);
        } else if p < pos && q == pos {
            assert(new.cmap[p] == a.cmap[p]);
        } else if p < pos {
            assert(new.cmap[p] == a.cmap[p] && new.cmap[q] == a.cmap[q - 1]);
        } else if p == pos {
            assert(new.cmap[q] == a.cmap[q - 1]);
        } else {
            assert(new.cmap[p] == a.cmap[p - 1] && new.cmap[q] == a.cmap[q - 1]);
        }
    }
    assert(new.cmap[pos] == entry);
    lemma_find_index(new.cmap, codepoint);
    let k = find_index(new.cmap, codepoint)->0;
    if k < pos {
        assert(new.cmap[k] == a.cmap[k]);
    } else if k > pos {
        assert(new.cmap[k] == a.cmap[k - 1]);
    }
}

/// The least-recently-used runtime slot of an atlas is determined: the
/// smallest tick, the first slot among ties.
pub proof fn lemma_lru_unique(a: AtlasView, i: int, j: int)
    requires
        a.is_lru(i),
        a.is_lru(j),
    ensures
        i == j,
{
    assert(a.active(i) && a.active(j));
}

/// The cmap entry the lookup of `cp` finds, if any.
pub open spec fn entry_for(s: Seq<CmapEntry>, cp: u32) -> Option<CmapEntry> {
    match find_index(s, cp) {
        Some(k) => Some(s[k]),
        None => None,
    }
}

/// A runtime insert of an unmapped codepoint, with a cell of the right size,
/// into an atlas with room and a strictly sorted cmap: the first reclaimed
/// slot is reused and the gid count kept, or, with none reclaimed, the fresh
/// gid `glyph_count` is added; the baked cells stay; the new gid's coverage is
/// the cell; the cmap stays strictly sorted, the lookup finds the new entry,
/// and every other codepoint looks up as before.
pub proof fn lemma_runtime_insert(
    a: AtlasView,
    codepoint: u32,
    advance: u8,
    xoff: u8,
    coverage: Seq<u8>,
    tick: u64,
    r: Option<u16>,
    new: AtlasView,
)
    requires
        a.valid(),
        strictly_sorted(a.cmap),
        !cmap_has(a.cmap, codepoint),
        coverage.len() == a.cell_len(),
        !(a.all_active() && a.glyph_count == u16::MAX),
        a.inserted(codepoint, advance, xoff, coverage, tick, r, new),
    ensures
        r is Some,
        a.all_active() ==> r->0 == a.glyph_count && new.glyph_count == a.glyph_count + 1,
        !a.all_active() ==> new.glyph_count == a.glyph_count && exists|i: int|
            a.is_first_free(i) && r->0 == a.static_count + i,
        new.bitmap == a.bitmap,
        new.glyph_rows(r->0) == coverage,
        strictly_sorted(new.cmap),
        entry_for(new.cmap, codepoint) == Some(CmapEntry { codepoint, gid: r->0, advance, xoff }),
        forall|c: u32| c != codepoint ==> #[trigger] entry_for(new.cmap, c) == entry_for(a.cmap, c),
{
    lemma_find_index(a.cmap, codepoint);
    let g = r->0;
    let entry = CmapEntry { codepoint, gid: g, advance, xoff };
    let pos = choose|pos: int|
        {
            &&& 0 <= pos <= a.cmap.len()
            &&& new.cmap == #[trigger] a.cmap.insert(pos, entry)
            &&& sorted(a.cmap) ==> (forall|j: int|
                0 <= j < pos ==> #[trigger] a.cmap[j].codepoint < entry.codepoint) && (forall|j: int|
                pos <= j < a.cmap.len() ==> #[trigger] a.cmap[j].codepoint > entry.codepoint)
        };
    assert(sorted(a.cmap));
    assert forall|p: int, q: int| 0 <= p < q < new.cmap.len() implies #[trigger] new.cmap[p].codepoint
        < #[trigger] new.cmap[q].codepoint by {
        if p < pos && q < pos {
            assert(new.cmap[p] == a.cmap[p] && new.cmap[q] == a.cmap[q]);
        } else if p < pos && q == pos {
            assert(new.cmap[p] == a.cmap[p]);
        } else if p < pos {
            assert(new.cmap[p] == a.cmap[p] && new.cmap[q] == a.cmap[q - 1]);
        } else if p == pos {
            assert(new.cmap[q] == a.cmap[q - 1]);
        } else {
            assert(new.cmap[p] == a.cmap[p - 1] && new.cmap[q] == a.cmap[q - 1]);
        }
    }
    assert(new.cmap[pos] == entry);
    lemma_find_index(new.cmap, codepoint);
    assert forall|c: u32| c != codepoint implies #[trigger] entry_for(new.cmap, c) == entry_for(a.cmap, c) by {
        lemma_find_index(a.cmap, c);
        lemma_find_index(new.cmap, c);
        if cmap_has(a.cmap, c) {
            let j = choose|j: int| 0 <= j < a.cmap.len() && #[trigger] a.cmap[j].codepoint == c;
            let j2 = if j < pos { j } else { j + 1 };
            assert(new.cmap[j2] == a.cmap[j]);
        } else if cmap_has(new.cmap, c) {
            let j = choose|j: int| 0 <= j < new.cmap.len() && #[trigger] new.cmap[j].codepoint == c;
            if j < pos {
                assert(new.cmap[j] == a.cmap[j]);
            } else if j > pos {
                assert(new.cmap[j] == a.cmap[j - 1]);
            }
        }
    }
    if a.all_active() {
        let idx = a.runtime.len() as int;
        assert(new.runtime[idx].coverage == Some(coverage));
    } else {
        lemma_first_free_exists(a);
        let idx = choose|i: int| a.is_first_free(i);
        assert(new.runtime[idx].coverage == Some(coverage));
    }
}

proof fn lemma_global_lru_exists_from(v: FontsView, s: int, i: int)
    requires
        v.active_at(s, i),
    ensures
        v.is_global_lru(v.global_lru().0, v.global_lru().1),
    decreases v.tick_at(s, i), s, i,
{
    if v.is_global_lru(s, i) {
    } else if exists|s2: int, i2: int| #[trigger] v.active_at(s2, i2) && v.tick_at(s2, i2) < v.tick_at(s, i) {
        let (s2, i2) = choose|s2: int, i2: int|
            #[trigger] v.active_at(s2, i2) && v.tick_at(s2, i2) < v.tick_at(s, i);
        lemma_global_lru_exists_from(v, s2, i2);
    } else {
        let (s2, i2) = choose|s2: int, i2: int|
            #[trigger] v.active_at(s2, i2) && (s2 < s || (s2 == s && i2 < i)) && v.tick_at(s2, i2)
                <= v.tick_at(s, i);
        lemma_global_lru_exists_from(v, s2, i2);
    }
}

/// Reclaiming the global LRU glyph deactivates exactly it; every other
/// glyph keeps its activity and tick.
proof fn lemma_lru_evicted_step(v: FontsView)
    requires
        v.any_active(),
    ensures
        v.is_global_lru(v.global_lru().0, v.global_lru().1),
        forall|s: int, i: int|
            #[trigger] v.lru_evicted().active_at(s, i) <==> v.active_at(s, i) && (s, i)
                != v.global_lru(),
        forall|s: int, i: int|
            #[trigger] v.lru_evicted().active_at(s, i) ==> v.lru_evicted().tick_at(s, i) == v.tick_at(
                s,
                i,
            ),
{
    let (s0, i0) = choose|s: int, i: int| #[trigger] v.active_at(s, i);
    lemma_global_lru_exists_from(v, s0, i0);
    let (es, ei) = v.global_lru();
    let n = v.lru_evicted();
    let a = v.slots[es]->0;
    assert forall|s: int, i: int| #[trigger] n.active_at(s, i) <==> v.active_at(s, i) && (s, i) != (es, ei) by {
        if s == es {
            assert(a.evicted(ei).runtime.len() == a.runtime.len());
            if i != ei && 0 <= i < a.runtime.len() {
                assert(a.evicted(ei).runtime[i] == a.runtime[i]);
            }
        } else if 0 <= s < v.slots.len() {
            assert(n.slots[s] == v.slots[s]);
        }
    }
    assert forall|s: int, i: int| #[trigger] n.active_at(s, i) implies n.tick_at(s, i) == v.tick_at(s, i) by {
        if s == es {
            assert(a.evicted(ei).runtime[i] == a.runtime[i]);
        } else {
            assert(n.slots[s] == v.slots[s]);
        }
    }
}

/// Reclaiming glyphs to fit a budget goes in least-recently-used order:
/// every glyph that `settle` reclaims was used no later than any glyph it
/// keeps, and the kept glyphs keep their ticks.
pub proof fn lemma_settle_lru_order(v: FontsView, need: int)
    ensures
        forall|s: int, i: int|
            #[trigger] v.settle(need).0.active_at(s, i) ==> v.active_at(s, i) && v.settle(need).0.tick_at(
                s,
                i,
            ) == v.tick_at(s, i),
        forall|s1: int, i1: int, s2: int, i2: int|
            #![trigger v.active_at(s1, i1), v.settle(need).0.active_at(s2, i2)]
            v.active_at(s1, i1) && !v.settle(need).0.active_at(s1, i1) && v.settle(need).0.active_at(
                s2,
                i2,
            ) ==> v.tick_at(s1, i1) <= v.tick_at(s2, i2),
    decreases v.runtime_bytes,
{
    if v.runtime_bytes + need <= v.budget || !v.any_active() {
    } else {
        let n = v.lru_evicted();
        lemma_lru_evicted_step(v);
        let (es, ei) = v.global_lru();
        if n.runtime_bytes < v.runtime_bytes {
            lemma_settle_lru_order(n, need);
        }
        let r = v.settle(need).0;
        assert(r == n.settle(need).0 || r == n);
        assert forall|s: int, i: int| #[trigger] r.active_at(s, i) implies v.active_at(s, i) && r.tick_at(s, i)
            == v.tick_at(s, i) by {
            assert(n.active_at(s, i));
        }
        assert forall|s1: int, i1: int, s2: int, i2: int|
            #![trigger v.active_at(s1, i1), r.active_at(s2, i2)]
            v.active_at(s1, i1) && !r.active_at(s1, i1) && r.active_at(s2, i2) implies v.tick_at(s1, i1)
                <= v.tick_at(s2, i2) by {
            assert(n.active_at(s2, i2));
            assert(v.active_at(s2, i2));
            if (s1, i1) != (es, ei) {
                assert(n.active_at(s1, i1));
                assert(n.tick_at(s1, i1) <= n.tick_at(s2, i2));
            }
        }
    }
}

/// A budgeted insert of a codepoint the atlas already maps to an active
/// runtime gid is a hit: it returns that gid unchanged and refreshes the
/// glyph, which takes the registry's next tick while every other glyph keeps
/// its activity and tick. So when no tick is past the clock and the clock is
/// not about to wrap, the glyph asked for becomes the most recently used one.
pub proof fn lemma_hit_refreshes_glyph(
    f: FontsView,
    slot: u8,
    codepoint: u32,
    advance: u8,
    xoff: u8,
    coverage: Seq<u8>,
    r: Option<(u16, bool, bool)>,
    new: FontsView,
    k: int,
)
    requires
        f.valid(),
        f.atlas(slot) matches Some(a) && find_index(a.cmap, codepoint) == Some(k) && a.cmap[k].gid
            >= a.static_count && a.active(a.cmap[k].gid - a.static_count),
        f.ensured(slot, codepoint, advance, xoff, coverage, r, new),
    ensures
        ({
            let a = f.atlas(slot)->0;
            let i = a.cmap[k].gid - a.static_count;
            &&& r == Some((a.cmap[k].gid, false, false))
            &&& new.clock == next_tick(f.clock)
            &&& new.active_at(slot as int, i)
            &&& new.tick_at(slot as int, i) == new.clock
            &&& forall|s2: int, i2: int|
                (s2, i2) != (slot as int, i) ==> (#[trigger] new.active_at(s2, i2) <==> f.active_at(
                    s2,
                    i2,
                ))
            &&& forall|s2: int, i2: int|
                (s2, i2) != (slot as int, i) && #[trigger] new.active_at(s2, i2) ==> new.tick_at(s2, i2)
                    == f.tick_at(s2, i2)
            &&& (forall|s2: int, i2: int| #[trigger] f.active_at(s2, i2) ==> f.tick_at(s2, i2) <= f.clock)
                && f.clock < u64::MAX ==> forall|s2: int, i2: int|
                (s2, i2) != (slot as int, i) && #[trigger] new.active_at(s2, i2) ==> new.tick_at(s2, i2)
                    < new.tick_at(slot as int, i)
        }),
{
    let a = f.atlas(slot)->0;
    let gid = a.cmap[k].gid;
    let i = gid - a.static_count;
    let t = next_tick(f.clock);
    let na = a.touched(gid, t);
    assert(new.slots == f.slots.update(slot as int, Some(na)));
    assert forall|s2: int, i2: int| (s2, i2) != (slot as int, i) implies (#[trigger] new.active_at(s2, i2)
        <==> f.active_at(s2, i2)) by {
        if s2 == slot as int {
            if 0 <= i2 < a.runtime.len() {
                assert(na.runtime[i2] == a.runtime[i2]);
            }
        } else if 0 <= s2 < f.slots.len() {
            assert(new.slots[s2] == f.slots[s2]);
        }
    }
    assert forall|s2: int, i2: int| (s2, i2) != (slot as int, i) && #[trigger] new.active_at(s2, i2) implies new.tick_at(
        s2,
        i2,
    ) == f.tick_at(s2, i2) by {
        if s2 == slot as int {
            assert(na.runtime[i2] == a.runtime[i2]);
        } else {
            assert(new.slots[s2] == f.slots[s2]);
        }
    }
}

/// When some runtime slot is inactive there is a first one.
proof fn lemma_first_free_exists(a: AtlasView)
    requires
        !a.all_active(),
    ensures
        exists|i: int| a.is_first_free(i),
{
    let j = choose|j: int| 0 <= j < a.runtime.len() && !(#[trigger] a.runtime[j].codepoint is Some);
    lemma_first_free_below(a, j);
}

proof fn lemma_first_free_below(a: AtlasView, j: int)
    requires
        0 <= j < a.runtime.len(),
        a.runtime[j].codepoint is None,
    ensures
        exists|i: int| a.is_first_free(i),
    decreases j,
{
    if forall|k: int| 0 <= k < j ==> #[trigger] a.runtime[k].codepoint is Some {
        assert(a.is_first_free(j));
    } else {
        let k = choose|k: int| 0 <= k < j && !(#[trigger] a.runtime[k].codepoint is Some);
        lemma_first_free_below(a, k);
    }
}

/// After a budgeted insert that succeeded, the accounted runtime bytes are
/// within the budget.
pub proof fn lemma_ensured_within_budget(
    f: FontsView,
    slot: u8,
    codepoint: u32,
    advance: u8,
    xoff: u8,
    coverage: Seq<u8>,
    g: u16,
    changed: bool,
    evicted: bool,
    new: FontsView,
)
    requires
        f.ensured(slot, codepoint, advance, xoff, coverage, Some((g, changed, evicted)), new),
        f.runtime_bytes <= f.budget,
    ensures
        new.runtime_bytes <= new.budget,
{
    match f.atlas(slot) {
        Some(a) => match find_index(a.cmap, codepoint) {
            Some(k) => {
                assert(new.runtime_bytes == f.touched(slot, a.cmap[k].gid).runtime_bytes);
            },
            None => {
                Fonts::lemma_settle_keeps_slots(f, a.cell_len());
            },
        },
        None => {},
    }
}
} // verus!
