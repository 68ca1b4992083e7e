use pocket_kindle::touch::{exit_hold_active, in_exit_corner, pack_touch, touch_xy};

#[test]
fn packed_touch_round_trips() {
    let p = pack_touch(1, 100, 200);
    assert_eq!(p, (1 << 18) | (200 << 9) | 100);
    assert_eq!(touch_xy(p), (100, 200));
    // Coordinates keep 9 bits, the id 8.
    assert_eq!(touch_xy(pack_touch(0x1ff, 0x3ff, 0x201)), (0x1ff, 0x001));
    assert_eq!(pack_touch(0x1ff, 0, 0) >> 18, 0xff);
}

#[test]
fn exit_corner_is_bottom_left() {
    assert!(in_exit_corner(pack_touch(1, 0, 411)));
    assert!(in_exit_corner(pack_touch(1, 39, 372)));
    assert!(!in_exit_corner(pack_touch(1, 40, 411)));
    assert!(!in_exit_corner(pack_touch(1, 0, 371)));
}

#[test]
fn exit_hold_needs_a_single_corner_contact() {
    let corner = pack_touch(1, 5, 410);
    let elsewhere = pack_touch(2, 200, 200);
    assert!(exit_hold_active(&[corner]));
    assert!(!exit_hold_active(&[corner, elsewhere]));
    assert!(!exit_hold_active(&[elsewhere]));
    assert!(!exit_hold_active(&[]));
}

use pocket_kindle::touch::{exit_hold_update, EXIT_HOLD_NANOS};

#[test]
fn exit_hold_needs_a_sustained_corner_hold() {
    let corner = [pack_touch(1, 5, 410)];
    assert_eq!(exit_hold_update(&corner, None, 100), (Some(100), false));
    assert_eq!(exit_hold_update(&corner, Some(100), 100 + EXIT_HOLD_NANOS - 1), (Some(100), false));
    assert_eq!(exit_hold_update(&corner, Some(100), 100 + EXIT_HOLD_NANOS), (Some(100), true));
    // Lifting or moving away ends the hold.
    assert_eq!(exit_hold_update(&[], Some(100), 5_000_000_000), (None, false));
    assert_eq!(exit_hold_update(&[pack_touch(1, 200, 200)], Some(100), 5_000_000_000), (None, false));
    // A clock that reads earlier than the start has not elapsed.
    assert_eq!(exit_hold_update(&corner, Some(500), 100), (Some(500), false));
}
