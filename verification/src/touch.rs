use vstd::prelude::*;

verus! {

/// Logical panel width of the reader host, in px.
pub const LOGICAL_W: u32 = 309;
/// Logical panel height of the reader host, in px.
pub const LOGICAL_H: u32 = 412;
/// Width of the always-on exit corner, in logical px.
pub const EXIT_CORNER_W: u32 = 40;
/// Height of the always-on exit corner, in logical px.
pub const EXIT_CORNER_H: u32 = 40;

/// Mask of the contact id inside a packed touch word.
pub const TOUCH_ID_MASK: u32 = 0xff;

/// The packed touch word: contact id in bits 18.., y in bits 9..18, x in bits 0..9.
pub open spec fn spec_pack_touch(id: u32, x: u32, y: u32) -> u32 {
    ((id & TOUCH_ID_MASK) << 18u32) | ((y & 0x1ffu32) << 9u32) | (x & 0x1ffu32)
}

/// Pack one contact into the touch ABI word (9 bits per axis).
pub fn pack_touch(id: u32, x: u32, y: u32) -> (r: u32)
    ensures
        r == spec_pack_touch(id, x, y),
{
    ((id & TOUCH_ID_MASK) << 18u32) | ((y & 0x1ffu32) << 9u32) | (x & 0x1ffu32)
}

/// Logical (x, y) of a packed touch word.
pub fn touch_xy(packed: u32) -> (r: (u32, u32))
    ensures
        r.0 == packed & 0x1ffu32,
        r.1 == (packed >> 9u32) & 0x1ffu32,
        r.0 < 512,
        r.1 < 512,
{
    let x = packed & 0x1ffu32;
    let y = (packed >> 9u32) & 0x1ffu32;
    assert(x < 512 && y < 512) by (bit_vector)
        requires
            x == packed & 0x1ffu32,
            y == (packed >> 9u32) & 0x1ffu32,
    ;
    (x, y)
}

/// Whether a packed touch lies in the bottom-left exit corner.
pub open spec fn spec_in_exit_corner(packed: u32) -> bool {
    &&& (packed & 0x1ffu32) < EXIT_CORNER_W
    &&& ((packed >> 9u32) & 0x1ffu32) + EXIT_CORNER_H >= LOGICAL_H
}

pub fn in_exit_corner(packed: u32) -> (r: bool)
    ensures
        r == spec_in_exit_corner(packed),
{
    let (x, y) = touch_xy(packed);
    x < EXIT_CORNER_W && y + EXIT_CORNER_H >= LOGICAL_H
}

/// True when a single contact is held inside the exit corner.
pub fn exit_hold_active(touches: &[u32]) -> (r: bool)
    ensures
        r == (touches@.len() == 1 && spec_in_exit_corner(touches@[0])),
{
    touches.len() == 1 && in_exit_corner(touches[0])
}

/// How long a corner hold must last before the host exits, in nanoseconds.
pub const EXIT_HOLD_NANOS: u64 = 1_500_000_000;

/// One tick of the exit-hold watch on the host's monotonic clock (ns): while
/// a single contact stays in the corner the hold keeps its start (or starts
/// now) and the host exits once it has lasted `EXIT_HOLD_NANOS`; any other
/// touch state ends the hold. Returns the hold's start and whether to exit.
pub fn exit_hold_update(touches: &[u32], started: Option<u64>, now: u64) -> (r: (Option<u64>, bool))
    ensures
        !(touches@.len() == 1 && spec_in_exit_corner(touches@[0])) ==> r == (None::<u64>, false),
        touches@.len() == 1 && spec_in_exit_corner(touches@[0]) ==> {
            let s = match started {
                Some(t) => t,
                None => now,
            };
            r == (Some(s), now >= s && now - s >= EXIT_HOLD_NANOS)
        },
{
    if !exit_hold_active(touches) {
        return (None, false);
    }
    let s = match started {
        Some(t) => t,
        None => now,
    };
    (Some(s), now >= s && now - s >= EXIT_HOLD_NANOS)
}

/// Unpacking a packed touch gives back the low nine bits of each axis.
pub proof fn lemma_touch_roundtrip(id: u32, x: u32, y: u32)
    ensures
        spec_pack_touch(id, x, y) & 0x1ffu32 == x & 0x1ffu32,
        (spec_pack_touch(id, x, y) >> 9u32) & 0x1ffu32 == y & 0x1ffu32,
{
    assert(((((id & 0xffu32) << 18u32) | ((y & 0x1ffu32) << 9u32) | (x & 0x1ffu32)) & 0x1ffu32)
        == x & 0x1ffu32) by (bit_vector);
    assert((((((id & 0xffu32) << 18u32) | ((y & 0x1ffu32) << 9u32) | (x & 0x1ffu32)) >> 9u32)
        & 0x1ffu32) == y & 0x1ffu32) by (bit_vector);
}

} // verus!
