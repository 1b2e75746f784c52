//! Dark theme values: document chrome from the dark GitHub-style reference
//! rendering, code token colors from the Neovim `tokyo_custom` palette.

use vstd::prelude::*;

verus! {

/// Window background (`tokyo_custom` `bg`).
pub const BG: u32 = 0x1a1b26;
/// Primary text (`tokyo_custom` `fg`).
pub const FG: u32 = 0xc0caf5;
/// Muted text and gutters (`tokyo_custom` `fg_gutter`).
pub const FG_GUTTER: u32 = 0x3b4261;
/// Comments (`tokyo_custom` `comment`).
pub const COMMENT: u32 = 0x565f89;
/// Strings (`tokyo_custom` light green).
pub const STRING: u32 = 0x9ece6a;
/// Constants and numbers (`tokyo_custom` orange).
pub const CONSTANT: u32 = 0xff9e64;
/// Functions (`tokyo_custom` love).
pub const FUNCTION: u32 = 0xeb6f92;
/// Keywords (`tokyo_custom` purple).
pub const KEYWORD: u32 = 0x9d7cd8;
/// Types (`tokyo_custom` aqua).
pub const TYPE: u32 = 0x2ac3de;
/// Operators and punctuation (`tokyo_custom` turquoise).
pub const OPERATOR: u32 = 0x89ddff;
/// Links and headings accent (`tokyo_custom` blue).
pub const BLUE: u32 = 0x7aa2f7;
/// Visual selection background (`tokyo_custom` `bg_selection`).
pub const BG_SELECTION: u32 = 0x283457;

// ---------------------------------------------------------------------------
// Document chrome sampled from `example-rendered.pdf` (150 DPI render).
// These govern page, block, table, link, highlight, and diagram colors;
// code token colors above stay on the Neovim palette by design.
// ---------------------------------------------------------------------------

/// Document canvas: page background (`#0D1117` sampled).
pub const PAGE_BG: u32 = 0x0D1117;
/// Code blocks, table cells, tag pills (`#161B22` sampled).
pub const BLOCK_BG: u32 = 0x161B22;
/// Alternate table row (`#1C2128` sampled zebra stripe).
pub const ROW_ALT_BG: u32 = 0x1C2128;
/// Borders and rules (`#30363D` sampled).
pub const BORDER: u32 = 0x30363D;
/// Body and heading text (`#C9D1D9` sampled).
pub const BODY: u32 = 0xC9D1D9;
/// Links and tag pills (`#58A6FF` sampled).
pub const LINK: u32 = 0x58A6FF;
/// Tags and section headers (`tokyo_custom` magenta).
pub const MAGENTA: u32 = 0xbb9af7;
/// Member and property access (`tokyo_custom` green).
pub const GREEN: u32 = 0x73daca;
/// `==mark==` background (`#FFF8C5` sampled) and its dark text (`#24292F`).
pub const MARK_BG: u32 = 0xFFF8C5;
pub const MARK_FG: u32 = 0x24292F;
/// Native diagram node fill (`#1F2020`) and edges (`#CCCCCC` sampled).
pub const DIAGRAM_FILL: u32 = 0x1F2020;
pub const DIAGRAM_LINE: u32 = 0xCCCCCC;

/// Red, green and blue channels of a `0xRRGGBB` color.
pub open spec fn channels(rgb: u32) -> (int, int, int) {
    (((rgb / 0x10000) % 0x100) as int, ((rgb / 0x100) % 0x100) as int, (rgb % 0x100) as int)
}

/// Relative luminance (Rec. 709 weights), scaled by 10000 * 255.
pub open spec fn luminance(rgb: u32) -> int {
    let (r, g, b) = channels(rgb);
    2126 * r + 7152 * g + 722 * b
}

/// The document chrome entries.
pub open spec fn chrome() -> Seq<u32> {
    seq![PAGE_BG, BLOCK_BG, ROW_ALT_BG, BORDER, BODY, LINK, MARK_BG, MARK_FG, DIAGRAM_FILL, DIAGRAM_LINE]
}

/// The code token and editor palette entries.
pub open spec fn palette() -> Seq<u32> {
    seq![
        BG, FG, FG_GUTTER, COMMENT, STRING, CONSTANT, FUNCTION, KEYWORD, TYPE, OPERATOR, BLUE, MAGENTA,
        GREEN, BG_SELECTION,
    ]
}

/// No two chrome entries share a color, and no two palette entries do, so
/// two roles can never silently merge.
pub proof fn lemma_entries_distinct()
    ensures
        forall|i: int, j: int| 0 <= i < j < chrome().len() ==> chrome()[i] != chrome()[j],
        forall|i: int, j: int| 0 <= i < j < palette().len() ==> palette()[i] != palette()[j],
{
}

/// The chrome stays readable: text, selection and gutter differ from the
/// background and text; text is lighter than blocks, blocks and zebra rows
/// lighter than the page, links lighter than the page, mark text darker
/// than its background, diagram lines lighter than their fill.
pub proof fn lemma_chrome_contrast()
    ensures
        BG != FG && BG != BG_SELECTION && FG != FG_GUTTER,
        luminance(BODY) > luminance(BLOCK_BG),
        luminance(BLOCK_BG) > luminance(PAGE_BG),
        luminance(ROW_ALT_BG) > luminance(PAGE_BG),
        luminance(LINK) > luminance(PAGE_BG),
        luminance(MARK_BG) > luminance(MARK_FG),
        luminance(DIAGRAM_LINE) > luminance(DIAGRAM_FILL),
{
}

} // verus!
