use markview::export::{
    next_paste_serial, paste_file_name, plan, sanitize_filename, PlanError, MAX_PNG_PIXELS,
};

// An A4 page at 96 pixels per inch: 210 mm across, with 22 mm margins above
// and below the text.
const A4_WIDTH_PX: u32 = 794;
const A4_MARGINS_PX: u32 = 166;

#[test]
fn a_document_is_split_into_covering_tiles() {
    let short = plan(A4_WIDTH_PX, A4_MARGINS_PX + 1000, 8192).unwrap();
    assert_eq!(short.tiles.len(), 1);
    assert_eq!(short.tiles[0].y_px, 0);

    let tall = plan(A4_WIDTH_PX, A4_MARGINS_PX + 40_000, 8192).unwrap();
    assert!(tall.tiles.len() >= 5, "{:?}", tall.tiles);
    // The strips tile the image exactly, in order, within the texture limit.
    let mut next = 0;
    for tile in &tall.tiles {
        assert_eq!(tile.y_px, next);
        assert!(tile.height_px <= 8192);
        next += tile.height_px;
    }
    assert_eq!(next, tall.height_px);
}

#[test]
fn a_document_past_the_pixel_cap_is_refused() {
    let error = plan(2 * A4_WIDTH_PX, 2 * (A4_MARGINS_PX + 10_000_000), 8192)
        .err()
        .unwrap()
        .message();
    assert!(error.contains("PDF"), "{error}");
}

#[test]
fn a_page_wider_than_the_gpu_limit_is_refused() {
    // 1000 mm across at four times the scale.
    let error = plan(15_118, 3_000, 8192).err().unwrap().message();
    assert!(error.contains("wide"), "{error}");
}

#[test]
fn a_plan_gives_exact_strips_and_messages() {
    let p = plan(10, 25, 10).unwrap();
    let strips: Vec<(u32, u32)> = p.tiles.iter().map(|t| (t.y_px, t.height_px)).collect();
    assert_eq!(strips, vec![(0, 10), (10, 10), (20, 5)]);
    assert!(plan(10, 0, 10).unwrap().tiles.is_empty());
    // A zero limit counts as one pixel.
    assert_eq!(plan(1, 3, 0).unwrap().tiles.len(), 3);
    assert_eq!(plan(2, 3, 0).err(), Some(PlanError::TooWide { width_px: 2, max_tile: 1 }));
    assert_eq!(
        PlanError::TooWide { width_px: 9000, max_tile: 8192 }.message(),
        "PNG would be 9000 px wide, past the 8192 px GPU limit; use a smaller scale"
    );
    assert_eq!(
        PlanError::TooLarge { width_px: 8000, height_px: 9000 }.message(),
        "PNG would be 8000×9000 px; use a smaller scale or export a PDF"
    );
    // The cap itself is allowed.
    assert!(plan(8000, 8000, 8192).is_ok());
    assert_eq!(8000u64 * 8000, MAX_PNG_PIXELS);
    assert!(plan(8000, 8001, 8192).is_err());
}

#[test]
fn a_pasted_title_becomes_a_safe_file_name() {
    assert_eq!(sanitize_filename("  My: notes / draft?  "), "My notes draft");
    assert_eq!(sanitize_filename("a\tb\nc"), "a b c");
    assert_eq!(sanitize_filename(""), "Pasted Markdown");
    assert_eq!(sanitize_filename("<>|*"), "Pasted Markdown");
    assert_eq!(sanitize_filename(&"x".repeat(60)), "x".repeat(48));
    assert_eq!(sanitize_filename("中文 标题"), "中文 标题");
}

#[test]
fn a_paste_is_named_after_its_title_and_serial() {
    assert_eq!(paste_file_name("Notes: week 3", 2), "Notes week 3-2.md");
    assert_eq!(paste_file_name("", 1), "Pasted Markdown-1.md");
    assert_eq!(next_paste_serial(1), 2);
    assert_eq!(next_paste_serial(u64::MAX), 0);
}
