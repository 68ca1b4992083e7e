use pocket_kindle::inject::{
    cooldown_elapsed, cooldown_ok, parse_u32_chars, pgm_bytes, Geometry, Injector,
};
use pocket_kindle::touch::pack_touch;

fn kindle() -> Geometry {
    Geometry { logical_w: 309, logical_h: 412, density: 4, render_w: 1236, render_h: 1648 }
}

fn injector() -> Injector {
    Injector::new("/tmp/run/cmd".to_string(), "/tmp/run/shot.pgm".to_string())
}

#[test]
fn paths_are_kept() {
    let inj = injector();
    assert_eq!(inj.shot_path(), "/tmp/run/shot.pgm");
    assert_eq!(inj.cmd_path(), "/tmp/run/cmd");
    assert!(inj.is_idle());
    assert!(!inj.want_shot);
}

#[test]
fn tap_holds_four_frames_then_releases_two() {
    let g = kindle();
    let mut inj = injector();
    let packed = pack_touch(1, 100, 200);
    assert_eq!(inj.tick(&g, Some("tap 400 800\n")), Some(vec![packed]));
    for _ in 0..3 {
        assert_eq!(inj.tick(&g, None), Some(vec![packed]));
    }
    assert_eq!(inj.tick(&g, None), Some(vec![]));
    assert_eq!(inj.tick(&g, None), Some(vec![]));
    assert!(inj.is_idle());
    assert_eq!(inj.tick(&g, None), None);
}

#[test]
fn logical_tap_scales_by_density() {
    let g = kindle();
    let mut inj = injector();
    assert_eq!(inj.tick(&g, Some("tap-logical 10 20")), Some(vec![pack_touch(1, 10, 20)]));
    let mut inj2 = injector();
    assert_eq!(inj2.tick(&g, Some("tapl 7 9")), Some(vec![pack_touch(1, 7, 9)]));
}

#[test]
fn taps_clamp_to_the_last_logical_pixel() {
    let g = kindle();
    let mut inj = injector();
    assert_eq!(inj.tick(&g, Some("tap 99999 99999")), Some(vec![pack_touch(1, 308, 411)]));
    let mut inj2 = injector();
    // Saturating scale of a huge logical coordinate.
    assert_eq!(
        inj2.tick(&g, Some("tapl 4294967295 0")),
        Some(vec![pack_touch(1, 308, 0)])
    );
}

#[test]
fn shot_and_comments() {
    let g = kindle();
    let mut inj = injector();
    assert_eq!(inj.tick(&g, Some("# note\n\n  shot  \nbogus 1\ntap x 3\n")), None);
    assert!(inj.want_shot);
    assert!(inj.take_shot_request());
    assert!(!inj.take_shot_request());
    let mut inj2 = injector();
    inj2.apply_commands("screenshot", &g);
    assert!(inj2.want_shot);
}

#[test]
fn last_tap_in_a_file_wins() {
    let g = kindle();
    let mut inj = injector();
    assert_eq!(inj.tick(&g, Some("tap 4 4\ntap 8 8")), Some(vec![pack_touch(1, 2, 2)]));
}

#[test]
fn commands_wait_while_a_tap_is_in_flight() {
    let g = kindle();
    let mut inj = injector();
    inj.tick(&g, Some("tap 0 0"));
    assert_eq!(inj.tick(&g, Some("shot")), Some(vec![pack_touch(1, 0, 0)]));
    assert!(!inj.want_shot);
}

#[test]
fn parse_u32_like_str_parse() {
    let p = |s: &str| parse_u32_chars(&s.chars().collect());
    assert_eq!(p("42"), Some(42));
    assert_eq!(p("+7"), Some(7));
    assert_eq!(p("4294967295"), Some(u32::MAX));
    assert_eq!(p("4294967296"), None);
    assert_eq!(p(""), None);
    assert_eq!(p("+"), None);
    assert_eq!(p("-1"), None);
    assert_eq!(p("12a"), None);
}

#[test]
fn pgm_frames_header_and_pixels() {
    let px = [1u8, 2, 3, 4, 5, 6, 7];
    let b = pgm_bytes(3, 2, &px).unwrap();
    let mut want = b"P5\n3 2\n255\n".to_vec();
    want.extend_from_slice(&px[..6]);
    assert_eq!(b, want);
    assert_eq!(pgm_bytes(3, 3, &px), None);
    assert_eq!(pgm_bytes(0, 0, &[]).unwrap(), b"P5\n0 0\n255\n".to_vec());
}

#[test]
fn cooldowns() {
    assert!(cooldown_elapsed(None, 5));
    assert!(!cooldown_elapsed(Some(4), 5));
    assert!(cooldown_elapsed(Some(5), 5));
    assert!(cooldown_ok(None, std::time::Duration::from_secs(1)));
    let now = std::time::Instant::now();
    assert!(!cooldown_ok(Some(now), std::time::Duration::from_secs(3600)));
    assert!(cooldown_ok(Some(now), std::time::Duration::from_secs(0)));
}
