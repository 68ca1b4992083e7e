use pocket_kindle::http::HttpResult;
use pocket_kindle::manga::{
    check_file_len, glyph5x7, resolve_path, stamp_progress_black, FileError, MangaSurface,
    PathError, FILE_CAP, PAGE_CACHE_MAX, STAMP_INK,
};
use pocket_kindle::remote_image::GrayPage;

fn surface() -> MangaSurface {
    MangaSurface::new(4, 2, "/mnt/us/pocketjs-dev".to_string())
}

fn page(fill: u8) -> GrayPage {
    GrayPage { width: 4, height: 2, pixels: vec![fill; 8] }
}

#[test]
fn ensure_chars_queue_drains_once() {
    let mut s = surface();
    assert_eq!(s.take_ensure_chars(), None);
    s.queue_ensure_chars("漫画");
    s.queue_ensure_chars("");
    s.queue_ensure_chars("!");
    assert_eq!(s.take_ensure_chars(), Some("漫画!".to_string()));
    assert_eq!(s.take_ensure_chars(), None);
}

#[test]
fn loads_miss_then_hit_the_cache() {
    let mut s = surface();
    let url = "http://h/p1".to_string();
    let (id, cached) = s.start_load(&url, true);
    assert_eq!((id, cached), (1, false));
    assert_eq!(s.job_status(1), "pending");
    assert!(!s.complete_from_cache(1, &url, true));
    s.finish_load(1, url.clone(), true, Ok(page(9)));
    assert_eq!(s.job_status(1), "ready");
    assert!(s.has_page());
    let shown = s.take_page_dirty().unwrap().unwrap();
    assert_eq!(shown.pixels, vec![9; 8]);
    assert!(s.take_page_dirty().is_none());
    // Second load of the same URL is served from the cache.
    let (id2, cached2) = s.start_load(&url, true);
    assert_eq!((id2, cached2), (2, true));
    assert_eq!(s.job_status(2), "ready");
    assert!(s.take_page_dirty().unwrap().is_some());
}

#[test]
fn prefetch_does_not_change_the_underlay() {
    let mut s = surface();
    let url = "http://h/p2".to_string();
    let (id, _) = s.start_load(&url, false);
    s.finish_load(id, url.clone(), false, Ok(page(3)));
    assert!(!s.has_page());
    assert!(s.take_page_dirty().is_none());
    assert!(s.complete_from_cache(7, &url, true));
    assert_eq!(s.job_status(7), "ready");
    assert_eq!(s.take_page_dirty().unwrap().unwrap().pixels, vec![3; 8]);
}

#[test]
fn cache_keeps_the_newest_pages() {
    let mut s = surface();
    for i in 0..(PAGE_CACHE_MAX + 1) {
        let url = format!("http://h/{i}");
        let (id, _) = s.start_load(&url, false);
        s.finish_load(id, url, false, Ok(page(i as u8)));
    }
    let (_, oldest_cached) = s.start_load(&"http://h/0".to_string(), false);
    assert!(!oldest_cached);
    let (_, newest_cached) = s.start_load(&format!("http://h/{PAGE_CACHE_MAX}"), false);
    assert!(newest_cached);
}

#[test]
fn failed_jobs_report_their_message() {
    let mut s = surface();
    let (id, _) = s.start_load(&"x".to_string(), true);
    s.finish_load(id, "x".to_string(), true, Err("decode failed".to_string()));
    assert_eq!(s.job_status(id), "error:decode failed");
    assert_eq!(s.job_status(99), "error:unknown-job");
    assert!(!s.has_page());
}

#[test]
fn http_results_are_taken_as_json() {
    let mut s = surface();
    let id = s.start_http();
    assert_eq!(s.job_status(id), "pending");
    s.finish_http(
        id,
        Ok(HttpResult {
            status: 200,
            body: "{\"a\":\"b\"}\n".to_string(),
            set_cookie: "s=1".to_string(),
        }),
    );
    assert_eq!(s.job_status(id), "ready");
    assert_eq!(
        s.take_http(id),
        "{\"status\":200,\"body\":\"{\\\"a\\\":\\\"b\\\"}\\n\",\"setCookie\":\"s=1\"}"
    );
    assert_eq!(s.take_http(id), "");
    assert_eq!(s.job_status(id), "error:unknown-job");
    let id2 = s.start_http();
    s.finish_http(id2, Err("GET http://h: refused".to_string()));
    assert_eq!(s.job_status(id2), "error:GET http://h: refused");
    assert_eq!(s.take_http(id2), "");
}

#[test]
fn progress_and_clear() {
    let mut s = surface();
    assert_eq!(s.progress_text(), "");
    s.set_progress("12/32".to_string());
    assert_eq!(s.progress_text(), "12/32");
    s.install_shown_page(page(1));
    assert!(s.take_page_dirty().is_some());
    s.clear_page();
    assert!(!s.has_page());
    assert!(matches!(s.take_page_dirty(), Some(None)));
}

#[test]
fn data_paths_stay_in_the_sandbox() {
    let s = surface();
    assert_eq!(s.resolve_data_path("cfg/a.json"), Ok("/mnt/us/pocketjs-dev/cfg/a.json".to_string()));
    assert_eq!(s.resolve_data_path("//./x//y/."), Ok("/mnt/us/pocketjs-dev/x/y".to_string()));
    assert_eq!(s.resolve_data_path("a/../b"), Err(PathError::Escapes));
    assert_eq!(s.resolve_data_path("///"), Err(PathError::Empty));
    assert_eq!(s.resolve_data_path(""), Err(PathError::Empty));
    assert_eq!(s.resolve_data_path("a\0b"), Err(PathError::Empty));
    assert_eq!(resolve_path(&"/root/".to_string(), "f"), Ok("/root/f".to_string()));
    assert_eq!(resolve_path(&String::new(), "f/g"), Ok("f/g".to_string()));
}

#[test]
fn config_files_are_capped() {
    assert_eq!(check_file_len(FILE_CAP), Ok(()));
    assert_eq!(check_file_len(FILE_CAP + 1), Err(FileError::TooLarge));
    assert_eq!(FILE_CAP, 256 * 1024);
}

#[test]
fn progress_glyphs() {
    assert_eq!(glyph5x7('1'), Some([0b00100, 0b01100, 0b00100, 0b00100, 0b00100, 0b00100, 0b01110]));
    assert_eq!(glyph5x7('/'), Some([0b00001, 0b00010, 0b00100, 0b01000, 0b01000, 0b10000, 0b10000]));
    assert_eq!(glyph5x7('a'), None);
}

#[test]
fn stamp_burns_digits_bottom_left() {
    let (w, h) = (40usize, 30usize);
    let mut px = vec![200u8; w * h];
    stamp_progress_black(&mut px, w, h, "x1");
    // y0 = 30 - 25 = 5; glyph '1' row 0 is 0b00100: column 2 -> x = 4 + 6..9.
    for x in 0..w {
        let expect_ink = (10..13).contains(&x);
        assert_eq!(px[5 * w + x] == STAMP_INK, expect_ink, "row 5 x {x}");
    }
    // Row 6 (3x scale) matches row 5.
    assert_eq!(px[6 * w + 10], STAMP_INK);
    // Bottom glyph row 6 is 0b01110: x = 4 + 3..12, y = 5 + 18..21.
    assert_eq!(px[23 * w + 7], STAMP_INK);
    assert_eq!(px[23 * w + 15], STAMP_INK);
    assert_eq!(px[23 * w + 16], 200);
    assert_eq!(px[26 * w + 10], 200);
}

#[test]
fn stamp_skips_when_it_does_not_fit() {
    let mut small = vec![200u8; 15 * 40];
    stamp_progress_black(&mut small, 15, 40, "1");
    assert!(small.iter().all(|&p| p == 200));
    let mut narrow = vec![200u8; 30 * 30];
    stamp_progress_black(&mut narrow, 30, 30, "12");
    assert!(narrow.iter().all(|&p| p == 200));
    let mut none = vec![200u8; 40 * 30];
    stamp_progress_black(&mut none, 40, 30, "ab");
    assert!(none.iter().all(|&p| p == 200));
}

#[test]
fn stamp_only_needs_the_stamped_rows() {
    // Rows past the stamp may be missing from the buffer.
    let (w, h) = (40usize, 30usize);
    let mut px = vec![200u8; 26 * w];
    stamp_progress_black(&mut px, w, h, "1");
    assert_eq!(px.len(), 26 * w);
    assert_eq!(px[5 * w + 10], STAMP_INK);
    assert_eq!(px[25 * w + 7], STAMP_INK);
}
