use md_view::theme::{
    BG, BG_SELECTION, BLOCK_BG, BLUE, BODY, BORDER, COMMENT, CONSTANT, DIAGRAM_FILL, DIAGRAM_LINE, FG,
    FG_GUTTER, FUNCTION, GREEN, KEYWORD, LINK, MAGENTA, MARK_BG, MARK_FG, OPERATOR, PAGE_BG, ROW_ALT_BG,
    STRING, TYPE,
};

/// Approximate relative luminance used to pin the chrome contrast order.
/// Only ever consumed by these tests.
fn luminance(rgb: u32) -> f32 {
    let channel = |shift: u32| ((rgb >> shift) & 0xFF) as f32 / 255.0;
    0.2126 * channel(16) + 0.7152 * channel(8) + 0.0722 * channel(0)
}

#[test]
fn chrome_stays_readable() {
    assert_ne!(BG, FG);
    assert_ne!(BG, BG_SELECTION);
    assert_ne!(FG, FG_GUTTER);
}

#[test]
fn chrome_contrast_ordering() {
    assert!(luminance(BODY) > luminance(BLOCK_BG));
    assert!(luminance(BLOCK_BG) > luminance(PAGE_BG));
    assert!(luminance(ROW_ALT_BG) > luminance(PAGE_BG));
    assert!(luminance(LINK) > luminance(PAGE_BG));
    assert!(luminance(MARK_BG) > luminance(MARK_FG));
    assert!(luminance(DIAGRAM_LINE) > luminance(DIAGRAM_FILL));
}

#[test]
fn chrome_entries_stay_distinct() {
    let entries = [
        PAGE_BG,
        BLOCK_BG,
        ROW_ALT_BG,
        BORDER,
        BODY,
        LINK,
        MARK_BG,
        MARK_FG,
        DIAGRAM_FILL,
        DIAGRAM_LINE,
    ];
    for (i, a) in entries.iter().enumerate() {
        for b in &entries[i + 1..] {
            assert_ne!(a, b);
        }
    }
}

#[test]
fn palette_entries_stay_distinct() {
    // Touch every token color so two roles can never silently merge.
    let entries = [
        BG,
        FG,
        FG_GUTTER,
        COMMENT,
        STRING,
        CONSTANT,
        FUNCTION,
        KEYWORD,
        TYPE,
        OPERATOR,
        BLUE,
        MAGENTA,
        GREEN,
        BG_SELECTION,
    ];
    for (i, a) in entries.iter().enumerate() {
        for b in &entries[i + 1..] {
            assert_ne!(a, b);
        }
    }
}
