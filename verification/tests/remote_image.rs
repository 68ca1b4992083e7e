use pocket_kindle::remote_image::{
    band, check_fetched, check_fit, compose_letterbox, decode_page, letterbox_page, trim_box,
    trim_near_white_margins, DecodedPage, GrayPage, PageError, Samples, LETTERBOX,
};

#[test]
fn fetched_bodies_need_2xx_and_bytes() {
    assert_eq!(check_fetched(200, 10), Ok(()));
    assert_eq!(check_fetched(299, 1), Ok(()));
    assert_eq!(check_fetched(404, 10), Err(PageError::HttpStatus(404)));
    assert_eq!(check_fetched(199, 10), Err(PageError::HttpStatus(199)));
    assert_eq!(check_fetched(204, 0), Err(PageError::EmptyBody));
}

#[test]
fn fit_needs_a_panel_and_an_image() {
    assert_eq!(check_fit(0, 10, 5, 5), Err(PageError::InvalidPanel));
    assert_eq!(check_fit(10, 10, 0, 5), Err(PageError::EmptyImage));
    assert_eq!(check_fit(10, 10, 5, 5), Ok(()));
}

/// A `w` by `h` white image with a dark rectangle.
fn page_with_box(w: u32, h: u32, x0: u32, y0: u32, x1: u32, y1: u32) -> Vec<u8> {
    let mut v = vec![255u8; (w * h) as usize];
    for y in y0..y1 {
        for x in x0..x1 {
            v[(y * w + x) as usize] = 0;
        }
    }
    v
}

#[test]
fn trim_finds_the_ink_box() {
    let img = page_with_box(40, 30, 5, 3, 25, 20);
    assert_eq!(trim_box(&img, 40, 30, 245), Some((5, 3, 20, 17)));
}

#[test]
fn trim_ignores_sparse_noise() {
    let mut img = page_with_box(40, 30, 5, 3, 25, 20);
    // Two specks in the top margin row: below the 3-pixel minimum.
    img[0] = 0;
    img[1] = 0;
    assert_eq!(trim_box(&img, 40, 30, 245), Some((5, 3, 20, 17)));
}

#[test]
fn trim_keeps_small_or_blank_images() {
    let img = vec![0u8; 7 * 20];
    assert_eq!(trim_box(&img, 7, 20, 245), None);
    let blank = vec![255u8; 40 * 30];
    assert_eq!(trim_box(&blank, 40, 30, 245), None);
    // A box of 8 px or less a side is not a crop.
    let thin = page_with_box(40, 30, 5, 3, 13, 20);
    assert_eq!(trim_box(&thin, 40, 30, 245), None);
}

#[test]
fn band_reserves_chrome() {
    assert_eq!(band(100, 200, 0, 0), (0, 100, 200));
    assert_eq!(band(100, 200, 20, 30), (20, 100, 150));
    assert_eq!(band(100, 200, 300, 30), (200, 100, 1));
    assert_eq!(band(0, 200, 150, 100), (150, 1, 1));
}

/// PNG bytes of a `w` by `h` image of one grey level.
fn png_of_gray(w: u32, h: u32, v: u8) -> Vec<u8> {
    let img: image::DynamicImage = image::ImageBuffer::from_fn(w, h, |_, _| image::Luma([v])).into();
    let mut out = std::io::Cursor::new(Vec::new());
    img.write_to(&mut out, image::ImageFormat::Png).unwrap();
    out.into_inner()
}

/// Trim, scale to contain (as the host does, in f32), resample, letterbox.
fn fit(img: &DecodedPage, panel_w: usize, panel_h: usize) -> GrayPage {
    let img = trim_near_white_margins(img, 245);
    let scale = (panel_w as f32 / img.width as f32).min(panel_h as f32 / img.height as f32);
    let dw = ((img.width as f32 * scale).round() as u32).max(1);
    let dh = ((img.height as f32 * scale).round() as u32).max(1);
    letterbox_page(&img, dw, dh, panel_w, panel_h, 0, 0).unwrap()
}

#[test]
fn letterbox_preserves_panel_size() {
    let img = decode_page(&png_of_gray(100, 200, 128)).unwrap();
    let page = fit(&img, 1236, 1648);
    assert_eq!(page.width, 1236);
    assert_eq!(page.height, 1648);
    assert_eq!(page.pixels.len(), 1236 * 1648);
}

#[test]
fn contain_shows_full_tall_page() {
    // Tall dark page on wider panel: fit height, white side letterbox.
    let img = decode_page(&png_of_gray(100, 200, 20)).unwrap();
    let page = fit(&img, 1236, 1648);
    assert_eq!(page.pixels.len(), 1236 * 1648);
    let mid_x = 1236 / 2;
    assert!(page.pixels[mid_x] < 50, "top-center content");
    assert!(page.pixels[(1647) * 1236 + mid_x] < 50, "bottom-center content");
    assert_eq!(page.pixels[0], 0xff, "side letterbox white");
}

#[test]
fn letterbox_gutters_flank_the_page() {
    let raw = vec![20u8; 824 * 1648];
    let page = compose_letterbox(&raw, 824, 1648, 1236, 1648, 0, 0);
    // Gutters of (1236 - 824) / 2 = 206 px each side.
    assert_eq!(page.pixels[205], LETTERBOX);
    assert_eq!(page.pixels[206], 20);
    assert_eq!(page.pixels[206 + 823], 20);
    assert_eq!(page.pixels[206 + 824], LETTERBOX);
}

#[test]
fn decode_gives_rgba_or_nothing() {
    let img = decode_page(&png_of_gray(3, 2, 77)).unwrap();
    assert_eq!((img.width, img.height), (3, 2));
    match img.samples {
        Samples::Rgba8(v) => assert_eq!(v, [77, 77, 77, 255].repeat(6)),
        Samples::Rgba16(_) => panic!("an 8-bit page decodes at 8 bits"),
    }
    assert!(decode_page(b"not an image").is_none());
    assert!(decode_page(&[]).is_none());
}

#[test]
fn trimming_crops_colour_pages_to_the_ink() {
    // 40x30 white RGBA page with a dark red box at x 5..25, y 3..20.
    let (w, h) = (40u32, 30u32);
    let mut rgba = Vec::new();
    for y in 0..h {
        for x in 0..w {
            if (5..25).contains(&x) && (3..20).contains(&y) {
                rgba.extend_from_slice(&[120, 0, 0, 255]);
            } else {
                rgba.extend_from_slice(&[255, 255, 255, 255]);
            }
        }
    }
    let page = DecodedPage { width: w, height: h, samples: Samples::Rgba8(rgba) };
    let t = trim_near_white_margins(&page, 245);
    assert_eq!((t.width, t.height), (20, 17));
    match t.samples {
        Samples::Rgba8(v) => assert_eq!(v, [120, 0, 0, 255].repeat(20 * 17)),
        Samples::Rgba16(_) => panic!("depth kept"),
    }
    // A blank page is kept whole.
    let blank = DecodedPage { width: w, height: h, samples: Samples::Rgba8(vec![255; (w * h * 4) as usize]) };
    let kept = trim_near_white_margins(&blank, 245);
    assert_eq!((kept.width, kept.height), (w, h));
}

#[test]
fn letterbox_page_refuses_what_does_not_fit() {
    let img = DecodedPage { width: 2, height: 2, samples: Samples::Rgba8(vec![0; 16]) };
    // A 2x2 page asked at 4x1 resamples keeping its aspect ratio.
    assert!(letterbox_page(&img, 4, 1, 10, 10, 0, 0).is_none());
    // Taller than the panel.
    assert!(letterbox_page(&img, 20, 20, 10, 10, 0, 0).is_none());
    let ok = letterbox_page(&img, 4, 4, 10, 10, 0, 0).unwrap();
    assert_eq!(ok.pixels[3 * 10 + 3], 0);
    assert_eq!(ok.pixels[0], LETTERBOX);
}

#[test]
fn letterbox_places_rows_in_the_band() {
    // 2x1 page into a 4x6 panel with 1 px chrome on top and bottom:
    // band rows 1..5 (4 rows), page row at 1 + (4 - 1) / 2 = 2, column 1.
    let page = compose_letterbox(&vec![7u8, 9], 2, 1, 4, 6, 1, 1);
    let mut want = vec![LETTERBOX; 24];
    want[2 * 4 + 1] = 7;
    want[2 * 4 + 2] = 9;
    assert_eq!(page.pixels, want);
}

#[test]
fn page_copy_is_identical() {
    let p = GrayPage { width: 2, height: 1, pixels: vec![1, 2] };
    let q = p.copy();
    assert_eq!((q.width, q.height, q.pixels), (2, 1, vec![1, 2]));
}

/// PNG bytes of a 16-bit grey image given by `f`.
fn png16_of(w: u32, h: u32, f: impl Fn(u32, u32) -> u16) -> Vec<u8> {
    let img: image::DynamicImage =
        image::ImageBuffer::from_fn(w, h, |x, y| image::Luma([f(x, y)])).into();
    let mut out = std::io::Cursor::new(Vec::new());
    img.write_to(&mut out, image::ImageFormat::Png).unwrap();
    out.into_inner()
}

#[test]
fn sixteen_bit_pages_keep_their_depth() {
    // A 16-bit gradient with a near-white frame; trim and resample must match
    // what the image crate gives on the image in its own pixel type.
    let (w, h) = (30u32, 24u32);
    let f = |x: u32, y: u32| {
        if x < 3 || y < 2 || x >= 27 || y >= 21 { 65535 } else { (x * 1700 + y * 911) as u16 }
    };
    let bytes = png16_of(w, h, f);
    let page = decode_page(&bytes).unwrap();
    match &page.samples {
        Samples::Rgba16(v) => assert_eq!(&v[..4], &[65535, 65535, 65535, 65535]),
        Samples::Rgba8(_) => panic!("a 16-bit page decodes at 16 bits"),
    }
    let t = trim_near_white_margins(&page, 245);
    assert_eq!((t.width, t.height), (24, 19));
    let direct = image::load_from_memory(&bytes).unwrap().crop_imm(3, 2, 24, 19);
    let want = direct.resize(48, 38, image::imageops::FilterType::Triangle).to_luma8();
    let got = letterbox_page(&t, 48, 38, 48, 38, 0, 0).unwrap();
    assert_eq!(got.pixels, want.into_raw());
}
