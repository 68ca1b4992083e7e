use pocket_kindle::text::{Atlas, Fonts, ATLAS_MAGIC, DEFAULT_RUNTIME_GLYPH_BUDGET_BYTES};

fn blob_with(
    version: u16,
    slot: u8,
    cell: (u8, u8),
    density: u8,
    entries: &[(u32, u16, u8, u8)],
    bitmap: &[u8],
) -> Vec<u8> {
    let mut b = Vec::new();
    b.extend_from_slice(&ATLAS_MAGIC.to_le_bytes());
    b.extend_from_slice(&version.to_le_bytes());
    b.extend_from_slice(&(entries.len() as u16).to_le_bytes());
    b.push(cell.0);
    b.push(cell.1);
    b.push(8);
    b.push(10);
    b.push(slot);
    b.push(0);
    b.push(density);
    b.push(0);
    for &(cp, gid, adv, xoff) in entries {
        b.extend_from_slice(&cp.to_le_bytes());
        b.extend_from_slice(&gid.to_le_bytes());
        b.push(adv);
        b.push(xoff);
    }
    b.extend_from_slice(bitmap);
    b
}

/// Two 2x2 glyphs, 'A' -> gid 0 and 'B' -> gid 1, density 1.
fn two_glyph_blob(slot: u8) -> Vec<u8> {
    blob_with(
        3,
        slot,
        (2, 2),
        1,
        &[(65, 0, 5, 0), (66, 1, 6, 1)],
        &[1, 2, 3, 4, 5, 6, 7, 8],
    )
}

#[test]
fn parse_reads_header_and_cmap() {
    let atlas = Atlas::parse(&two_glyph_blob(2)).unwrap();
    assert_eq!(atlas.lookup(65), Some((0, 5)));
    assert_eq!(atlas.lookup(66), Some((1, 6)));
    assert_eq!(atlas.lookup(67), None);
    let e = atlas.lookup_entry(66).unwrap();
    assert_eq!((e.codepoint, e.gid, e.advance, e.xoff), (66, 1, 6, 1));
    assert_eq!(atlas.coverage_width(), 2);
    assert_eq!(atlas.coverage_height(), 2);
    assert_eq!(atlas.bytes_per_row(), 2);
    assert_eq!(atlas.slot, 2);
    assert_eq!(atlas.line_height, 10);
}

#[test]
fn parse_rejects_malformed_blobs() {
    let good = two_glyph_blob(0);
    assert!(Atlas::parse(&good).is_some());
    let mut bad_magic = good.clone();
    bad_magic[0] ^= 1;
    assert!(Atlas::parse(&bad_magic).is_none());
    let mut bad_version = good.clone();
    bad_version[4] = 9;
    assert!(Atlas::parse(&bad_version).is_none());
    let mut zero_density = good.clone();
    zero_density[14] = 0;
    assert!(Atlas::parse(&zero_density).is_none());
    let mut bad_slot = good.clone();
    bad_slot[12] = 8;
    assert!(Atlas::parse(&bad_slot).is_none());
    let short = &good[..good.len() - 1];
    assert!(Atlas::parse(short).is_none());
    let gid_out_of_range = blob_with(3, 0, (2, 2), 1, &[(65, 2, 5, 0)], &[0, 0, 0, 0]);
    assert!(Atlas::parse(&gid_out_of_range).is_none());
    assert!(Atlas::parse(&[]).is_none());
}

#[test]
fn legacy_version_has_density_one() {
    let b = blob_with(2, 0, (1, 1), 7, &[(65, 0, 3, 0)], &[200]);
    let atlas = Atlas::parse(&b).unwrap();
    assert_eq!(atlas.raster_density, 1);
    assert_eq!(atlas.coverage_width(), 1);
    assert_eq!(atlas.logical_coverage(0, 0, 0), 200);
}

#[test]
fn glyph_rows_are_cells() {
    let atlas = Atlas::parse(&two_glyph_blob(0)).unwrap();
    assert_eq!(atlas.glyph_rows(0), &[1, 2, 3, 4]);
    assert_eq!(atlas.glyph_rows(1), &[5, 6, 7, 8]);
}

#[test]
fn logical_coverage_averages_density_block() {
    let b = blob_with(3, 0, (1, 1), 2, &[(65, 0, 3, 0)], &[10, 20, 30, 41]);
    let atlas = Atlas::parse(&b).unwrap();
    // (10 + 20 + 30 + 41 + 2) / 4
    assert_eq!(atlas.logical_coverage(0, 0, 0), 25);
    assert_eq!(atlas.logical_coverage(0, 1, 0), 0);
    assert_eq!(atlas.logical_coverage(1, 0, 0), 0);
}

#[test]
fn atlas_runtime_insert_then_lookup() {
    let mut atlas = Atlas::parse(&two_glyph_blob(0)).unwrap();
    let gid = atlas.insert_runtime_glyph(0x4e00, 7, 0, &[9, 9, 9, 9]).unwrap();
    assert_eq!(gid, 2);
    assert_eq!(atlas.lookup(0x4e00), Some((2, 7)));
    assert_eq!(atlas.glyph_rows(2), &[9, 9, 9, 9]);
    assert_eq!(atlas.logical_coverage(2, 1, 1), 9);
    // Already mapped: keeps its gid.
    assert_eq!(atlas.insert_runtime_glyph(0x4e00, 1, 1, &[1, 1, 1, 1]), Some(2));
    assert_eq!(atlas.lookup(0x4e00), Some((2, 7)));
    // Wrong coverage size is refused.
    assert_eq!(atlas.insert_runtime_glyph(0x4e01, 7, 0, &[1, 2, 3]), None);
}

#[test]
fn fonts_start_empty_with_default_budget() {
    let mut fonts = Fonts::new();
    assert_eq!(fonts.runtime_budget_bytes(), DEFAULT_RUNTIME_GLYPH_BUDGET_BYTES);
    assert_eq!(fonts.runtime_bytes(), 0);
    assert!(fonts.atlas(0).is_none());
    assert!(fonts.shape_run("A", 0).is_none());
    assert!(fonts.take_missing_glyphs().is_empty());
    let d = Fonts::default();
    assert_eq!(d.runtime_bytes(), 0);
}

#[test]
fn fonts_load_registers_at_header_slot() {
    let mut fonts = Fonts::new();
    assert!(fonts.load(&two_glyph_blob(3)));
    assert!(fonts.atlas(3).is_some());
    assert!(fonts.atlas(0).is_none());
    assert!(!fonts.load(&[1, 2, 3]));
}

#[test]
fn shape_run_misses_queue_host_work_once() {
    let mut fonts = Fonts::new();
    fonts.load(&two_glyph_blob(0));
    let lines = fonts.shape_run("AZZ\nB", 0).unwrap();
    assert_eq!(lines.len(), 2);
    assert_eq!(lines[0].len(), 3);
    assert_eq!((lines[0][0].gid, lines[0][0].advance), (0, 5));
    // A miss draws gid 0 with a cell-width advance.
    assert_eq!((lines[0][1].gid, lines[0][1].advance, lines[0][1].xoff), (0, 2, 0));
    assert_eq!((lines[1][0].gid, lines[1][0].advance, lines[1][0].xoff), (1, 6, 1));
    assert_eq!(fonts.misses, 2);
    assert_eq!(fonts.take_missing_glyphs(), vec![(0u8, 90u32)]);
    assert!(fonts.take_missing_glyphs().is_empty());
    assert!(fonts.shape_run("", 0).is_none());
}

#[test]
fn runtime_glyph_resolves_a_miss() {
    let mut fonts = Fonts::new();
    fonts.load(&two_glyph_blob(0));
    fonts.shape_run("Z", 0);
    let gid = fonts.insert_runtime_glyph(0, 90, 4, 0, &[1, 2, 3, 4]).unwrap();
    assert_eq!(gid, 2);
    assert_eq!(fonts.runtime_bytes(), 4);
    assert!(fonts.take_missing_glyphs().is_empty());
    let lines = fonts.shape_run("Z", 0).unwrap();
    assert_eq!((lines[0][0].gid, lines[0][0].advance), (2, 4));
    // No atlas in slot 5.
    assert_eq!(fonts.insert_runtime_glyph(5, 91, 4, 0, &[1, 2, 3, 4]), None);
}

#[test]
fn budget_evicts_least_recently_used() {
    let mut fonts = Fonts::new();
    fonts.load(&two_glyph_blob(0));
    assert!(!fonts.set_runtime_budget_bytes(8));
    fonts.insert_runtime_glyph(0, 0x100, 4, 0, &[1, 1, 1, 1]).unwrap();
    fonts.insert_runtime_glyph(0, 0x101, 4, 0, &[2, 2, 2, 2]).unwrap();
    // Touch 0x100 so 0x101 is the least recently used.
    fonts.shape_run("\u{100}", 0);
    fonts.insert_runtime_glyph(0, 0x102, 4, 0, &[3, 3, 3, 3]).unwrap();
    assert_eq!(fonts.runtime_bytes(), 8);
    let atlas = fonts.atlas(0).unwrap();
    assert!(atlas.lookup(0x100).is_some());
    assert!(atlas.lookup(0x101).is_none());
    assert!(atlas.lookup(0x102).is_some());
    // Lowering the budget evicts.
    assert!(fonts.set_runtime_budget_bytes(4));
    assert!(fonts.runtime_bytes() <= 4);
    // A glyph larger than the budget is refused.
    assert!(fonts.set_runtime_budget_bytes(3));
    assert_eq!(fonts.runtime_bytes(), 0);
    assert!(!fonts.set_runtime_budget_bytes(3));
    assert_eq!(fonts.insert_runtime_glyph(0, 0x103, 4, 0, &[1, 1, 1, 1]), None);
}

#[test]
fn reloading_a_slot_releases_its_runtime_bytes() {
    let mut fonts = Fonts::new();
    fonts.load(&two_glyph_blob(0));
    fonts.insert_runtime_glyph(0, 0x100, 4, 0, &[1, 1, 1, 1]).unwrap();
    fonts.shape_run("Q", 0);
    assert_eq!(fonts.runtime_bytes(), 4);
    assert!(fonts.load(&two_glyph_blob(0)));
    assert_eq!(fonts.runtime_bytes(), 0);
    assert!(fonts.take_missing_glyphs().is_empty());
}

#[test]
fn shape_run_keeps_empty_lines() {
    let mut fonts = Fonts::new();
    fonts.load(&two_glyph_blob(0));
    let lines = fonts.shape_run("A\n\nBA", 0).unwrap();
    assert_eq!(lines.len(), 3);
    assert_eq!(lines[0].len(), 1);
    assert!(lines[1].is_empty());
    assert_eq!(lines[2].len(), 2);
    let trailing = fonts.shape_run("A\n", 0).unwrap();
    assert_eq!(trailing.len(), 2);
    assert!(trailing[1].is_empty());
}

#[test]
fn accounted_bytes_follow_the_active_cells() {
    let mut fonts = Fonts::new();
    assert!(fonts.load(&two_glyph_blob(0)));
    assert!(fonts.load(&two_glyph_blob(1)));
    assert!(!fonts.set_runtime_budget_bytes(12));
    for cp in 0x200..0x205u32 {
        let slot = (cp % 2) as u8;
        assert!(fonts.insert_runtime_glyph(slot, cp, 4, 0, &[9, 9, 9, 9]).is_some());
    }
    // Five 4-byte cells under a 12-byte budget: the two oldest were reclaimed.
    let live: Vec<u32> = (0x200..0x205u32)
        .filter(|&cp| fonts.atlas((cp % 2) as u8).unwrap().lookup(cp).is_some())
        .collect();
    assert_eq!(live, vec![0x202, 0x203, 0x204]);
    assert_eq!(fonts.runtime_bytes(), 4 * live.len());
    // Lowering the budget reclaims until the bytes fit.
    assert!(fonts.set_runtime_budget_bytes(5));
    assert_eq!(fonts.runtime_bytes(), 4);
    assert!(fonts.atlas(0).unwrap().lookup(0x204).is_some());
    // Reloading a slot without runtime glyphs leaves the accounting alone;
    // reloading the one that holds the last glyph releases it.
    assert!(fonts.load(&two_glyph_blob(1)));
    assert_eq!(fonts.runtime_bytes(), 4);
    assert!(fonts.load(&two_glyph_blob(0)));
    assert_eq!(fonts.runtime_bytes(), 0);
}

#[test]
fn atlas_mut_reaches_the_registered_atlas() {
    let mut fonts = Fonts::new();
    assert!(fonts.atlas_mut(2).is_none());
    assert!(fonts.load(&two_glyph_blob(2)));
    let atlas = fonts.atlas_mut(2).unwrap();
    assert_eq!(atlas.insert_runtime_glyph(0x300, 4, 0, &[7, 7, 7, 7]), Some(2));
    assert_eq!(fonts.atlas(2).unwrap().lookup(0x300), Some((2, 4)));
    // An insert made directly on the atlas is not accounted by the registry.
    assert_eq!(fonts.runtime_bytes(), 0);
}

#[test]
fn drain_lists_each_miss_once_in_first_miss_order() {
    let mut fonts = Fonts::new();
    fonts.load(&two_glyph_blob(0));
    fonts.shape_run("QZQ\nAYZ", 0);
    fonts.shape_run("YBX", 0);
    assert_eq!(
        fonts.take_missing_glyphs(),
        vec![(0u8, 'Q' as u32), (0, 'Z' as u32), (0, 'Y' as u32), (0, 'X' as u32)]
    );
    assert!(fonts.take_missing_glyphs().is_empty());
}

#[test]
fn parse_ignores_bytes_after_the_cells() {
    let mut b = two_glyph_blob(1);
    let plain = Atlas::parse(&b).unwrap();
    b.extend_from_slice(&[0xde, 0xad, 0xbe, 0xef]);
    let padded = Atlas::parse(&b).unwrap();
    assert_eq!((padded.cell_w, padded.cell_h, padded.slot), (plain.cell_w, plain.cell_h, plain.slot));
    assert_eq!(padded.glyph_rows(1), plain.glyph_rows(1));
    assert_eq!(padded.lookup(66), plain.lookup(66));
}

#[test]
fn runtime_insert_takes_a_fresh_gid_then_reuses_reclaimed_ones() {
    let mut fonts = Fonts::new();
    fonts.load(&two_glyph_blob(0));
    assert!(!fonts.set_runtime_budget_bytes(4));
    assert_eq!(fonts.insert_runtime_glyph(0, 0x400, 3, 0, &[1, 1, 1, 1]), Some(2));
    assert_eq!(fonts.atlas(0).unwrap().glyph_count, 3);
    // Over budget: 0x400 is reclaimed and its gid 2 reused, count kept.
    assert_eq!(fonts.insert_runtime_glyph(0, 0x401, 3, 0, &[2, 2, 2, 2]), Some(2));
    let atlas = fonts.atlas(0).unwrap();
    assert_eq!(atlas.glyph_count, 3);
    assert_eq!(atlas.lookup(0x400), None);
    assert_eq!(atlas.lookup(0x401), Some((2, 3)));
    assert_eq!(atlas.glyph_rows(2), &[2, 2, 2, 2]);
    assert_eq!(atlas.lookup(65), Some((0, 5)));
    assert_eq!(fonts.misses(), 0);
    fonts.shape_run("?", 0);
    assert_eq!(fonts.misses(), 1);
}
