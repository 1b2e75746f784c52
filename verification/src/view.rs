//! The viewer's decisions that do not depend on the windowing toolkit:
//! selection segments, copy text, diagram cache, painted-row bookkeeping,
//! status texts, key mapping, the path bar, and loading and reloading the
//! document.

use vstd::prelude::*;
use std::collections::HashMap;
use std::path::Path;
use crate::ast::comrak_events;
use crate::highlight::{code_rows, Engine, Token};
use crate::markdown::parse::{spec_document, viewer_options};
use crate::markdown::{blocks_v, document_v, parse_markdown, Block, Document};
use crate::mermaid::{diagram_v, parse_diagram, spec_diagram, Diagram};
use crate::text::{chars_of, eq_str, push_str, string_of};
use crate::vim::state::{spec_highlight, spec_place, spec_rebase, spec_status, vim_v};
use crate::vim::{build_lines, depths_fit, lines_v, nesting_fits, spec_build_lines, texts, Highlight, Key, Line, Vim};

verus! {

// ---------------------------------------------------------------------------
// Selection segments
// ---------------------------------------------------------------------------

/// Whether the character at absolute index `at` lies in the highlighted
/// character range `[start, end)`.
pub open spec fn selected_at(at: int, highlight: Option<(usize, usize)>) -> bool {
    match highlight {
        Some((start, end)) => start <= at < end,
        None => false,
    }
}

/// The texts of the first `k` segments, joined.
pub open spec fn seg_concat(segs: Seq<(Seq<char>, bool)>, k: int) -> Seq<char>
    decreases k,
{
    if k <= 0 || k > segs.len() {
        Seq::empty()
    } else {
        seg_concat(segs, k - 1) + segs[k - 1].0
    }
}

/// `segs` are the maximal runs of `text` (whose first character has
/// absolute index `offset`) that are all selected or all unselected: they
/// join to `text`, none is empty, neighbours differ in the flag, and each
/// character's flag is the flag of its run.
pub open spec fn runs_of(segs: Seq<(Seq<char>, bool)>, text: Seq<char>, offset: int, highlight: Option<(usize, usize)>) -> bool {
    &&& seg_concat(segs, segs.len() as int) == text
    &&& forall|k: int| 0 <= k < segs.len() ==> (#[trigger] segs[k]).0.len() > 0
    &&& forall|k: int| 0 <= k < segs.len() - 1 ==> (#[trigger] segs[k]).1 != segs[k + 1].1
    &&& forall|k: int, j: int|
        0 <= k < segs.len() && 0 <= j < segs[k].0.len() ==> #[trigger] selected_at(
            offset + seg_concat(segs, k).len() + j,
            highlight,
        ) == (#[trigger] segs[k]).1
}

pub open spec fn segments_v(v: Seq<(String, bool)>) -> Seq<(Seq<char>, bool)> {
    Seq::new(v.len(), |i: int| (v[i].0@, v[i].1))
}

proof fn lemma_concat_push(segs: Seq<(Seq<char>, bool)>, x: (Seq<char>, bool), k: int)
    requires
        0 <= k <= segs.len(),
    ensures
        seg_concat(segs.push(x), k) == seg_concat(segs, k),
    decreases k,
{
    if k > 0 {
        lemma_concat_push(segs, x, k - 1);
        assert(segs.push(x)[k - 1] == segs[k - 1]);
    }
}

proof fn lemma_concat_update_last(segs: Seq<(Seq<char>, bool)>, x: (Seq<char>, bool), k: int)
    requires
        0 <= k < segs.len(),
    ensures
        seg_concat(segs.update(segs.len() - 1, x), k) == seg_concat(segs, k),
    decreases k,
{
    if k > 0 {
        lemma_concat_update_last(segs, x, k - 1);
    }
}

/// Split `text` into runs that are inside or outside the highlighted
/// character range; `char_offset` is the absolute index of its first
/// character. An empty text gives one empty run, selected when there is a
/// range at all.
pub fn split_highlight(text: &str, char_offset: usize, highlight: Option<(usize, usize)>) -> (segs: Vec<(String, bool)>)
    requires
        char_offset + text@.len() <= usize::MAX,
    ensures
        text@.len() == 0 ==> segments_v(segs@) == seq![(Seq::<char>::empty(), highlight is Some)],
        text@.len() > 0 ==> runs_of(segments_v(segs@), text@, char_offset as int, highlight),
{
    let v = chars_of(text);
    let mut out: Vec<(String, bool)> = Vec::new();
    if v.len() == 0 {
        let is_some = match highlight {
            Some(_) => true,
            None => false,
        };
        out.push((String::new(), is_some));
        assert(segments_v(out@) =~= seq![(Seq::<char>::empty(), highlight is Some)]);
        return out;
    }
    let mut cur: Vec<char> = Vec::new();
    let mut cur_sel = false;
    let mut i: usize = 0;
    while i < v.len()
        invariant
            i <= v.len(),
            v@ == text@,
            char_offset + v@.len() <= usize::MAX,
            i == 0 ==> cur@.len() == 0 && out@.len() == 0,
            i > 0 ==> cur@.len() > 0 && runs_of(
                segments_v(out@).push((cur@, cur_sel)),
                v@.subrange(0, i as int),
                char_offset as int,
                highlight,
            ),
        decreases v.len() - i,
    {
        let at = char_offset + i;
        let sel = match highlight {
            Some((start, end)) => at >= start && at < end,
            None => false,
        };
        let c = v[i];
        let ghost before = segments_v(out@).push((cur@, cur_sel));
        if i == 0 {
            cur.push(c);
            cur_sel = sel;
            assert(cur@ =~= seq![c]);
            assert(segments_v(out@) =~= Seq::<(Seq<char>, bool)>::empty());
            let ghost s = segments_v(out@).push((cur@, cur_sel));
            assert(s =~= seq![(seq![c], sel)]);
            assert(seg_concat(s, 0) =~= Seq::<char>::empty());
            assert(seg_concat(s, 1) =~= v@.subrange(0, 1));
        } else if sel == cur_sel {
            cur.push(c);
            let ghost s = segments_v(out@).push((cur@, cur_sel));
            assert(s =~= before.update(before.len() - 1, (cur@, cur_sel)));
            let ghost n: int = before.len() - 1;
            proof {
                lemma_concat_update_last(before, (cur@, cur_sel), n);
                assert(seg_concat(s, n) == seg_concat(before, n));
                assert(seg_concat(s, n + 1) =~= seg_concat(before, n + 1).push(c));
                assert(v@.subrange(0, i + 1) =~= v@.subrange(0, i as int).push(c));
                assert forall|k: int, j: int|
                    0 <= k < s.len() && 0 <= j < s[k].0.len() implies #[trigger] selected_at(
                        char_offset + seg_concat(s, k).len() + j,
                        highlight,
                    ) == (#[trigger] s[k]).1 by {
                    if k < n {
                        lemma_concat_update_last(before, (cur@, cur_sel), k);
                        assert(s[k] == before[k]);
                    } else {
                        if j < s[k].0.len() - 1 {
                            assert(s[k].0[j] == before[k].0[j]);
                        } else {
                            assert(seg_concat(s, k).len() + j == i);
                        }
                    }
                }
            }
        } else {
            let seg = string_of(cur.as_slice());
            out.push((seg, cur_sel));
            assert(segments_v(out@) =~= before);
            cur = Vec::new();
            cur.push(c);
            cur_sel = sel;
            let ghost s = segments_v(out@).push((cur@, cur_sel));
            assert(s =~= before.push((seq![c], sel)));
            proof {
                lemma_concat_push(before, (seq![c], sel), before.len() as int);
                assert(seg_concat(s, before.len() + 1int) =~= seg_concat(before, before.len() as int).push(c));
                assert(v@.subrange(0, i + 1) =~= v@.subrange(0, i as int).push(c));
                assert forall|k: int, j: int|
                    0 <= k < s.len() && 0 <= j < s[k].0.len() implies #[trigger] selected_at(
                        char_offset + seg_concat(s, k).len() + j,
                        highlight,
                    ) == (#[trigger] s[k]).1 by {
                    if k < before.len() {
                        lemma_concat_push(before, (seq![c], sel), k);
                        assert(s[k] == before[k]);
                    }
                }
                assert forall|k: int| 0 <= k < s.len() - 1 implies (#[trigger] s[k]).1 != s[k + 1].1 by {
                    if k < before.len() - 1 {
                        assert(s[k] == before[k] && s[k + 1] == before[k + 1]);
                    }
                }
            }
        }
        i += 1;
    }
    let seg = string_of(cur.as_slice());
    let ghost s = segments_v(out@).push((cur@, cur_sel));
    out.push((seg, cur_sel));
    assert(segments_v(out@) =~= s);
    assert(v@.subrange(0, v@.len() as int) =~= v@);
    out
}

// ---------------------------------------------------------------------------
// Text runs
// ---------------------------------------------------------------------------

/// How one styled span is painted: its weight and slant, text color,
/// background, and whether it is underlined or struck through.
#[derive(Debug, Clone, Copy, PartialEq, Eq, Structural)]
pub struct RunStyle {
    pub bold: bool,
    pub italic: bool,
    pub color: u32,
    pub background: Option<u32>,
    pub underline: bool,
    pub strikethrough: bool,
}

/// Body text; links in the link color; inline code on the block
/// background; `==mark==` dark on the mark background (over link and code);
/// `++insert++` underlined; struck text struck through.
pub open spec fn run_style_spec(span: crate::markdown::Span) -> RunStyle {
    RunStyle {
        bold: span.bold,
        italic: span.italic,
        color: if span.mark {
            crate::theme::MARK_FG
        } else if span.link {
            crate::theme::LINK
        } else {
            crate::theme::BODY
        },
        background: if span.mark {
            Some(crate::theme::MARK_BG)
        } else if span.code {
            Some(crate::theme::BLOCK_BG)
        } else {
            None
        },
        underline: span.insert,
        strikethrough: span.strike,
    }
}

/// How a span is painted (see [`run_style_spec`]).
pub fn run_style(span: &crate::markdown::Span) -> (r: RunStyle)
    ensures
        r == run_style_spec(*span),
{
    let mut color = crate::theme::BODY;
    let mut background = None;
    if span.code {
        background = Some(crate::theme::BLOCK_BG);
    }
    if span.link {
        color = crate::theme::LINK;
    }
    if span.mark {
        color = crate::theme::MARK_FG;
        background = Some(crate::theme::MARK_BG);
    }
    RunStyle {
        bold: span.bold,
        italic: span.italic,
        color,
        background,
        underline: span.insert,
        strikethrough: span.strike,
    }
}

// ---------------------------------------------------------------------------
// Code blocks
// ---------------------------------------------------------------------------

/// The text of block `block` when it is a fenced code block, for copying.
pub fn code_block_text(doc: &Document, block: usize) -> (r: Option<&str>)
    ensures
        match r {
            Some(t) => block < doc.blocks@.len() && doc.blocks@[block as int] is Code && t@
                == doc.blocks@[block as int]->Code_text@,
            None => !(block < doc.blocks@.len() && doc.blocks@[block as int] is Code),
        },
{
    if block < doc.blocks.len() {
        match &doc.blocks[block] {
            crate::markdown::Block::Code { text, .. } => Some(text.as_str()),
            _ => None,
        }
    } else {
        None
    }
}

// ---------------------------------------------------------------------------
// Status texts
// ---------------------------------------------------------------------------

/// Rows to stride for a visual-mode half page: half of the rows visible
/// between `top` and `bottom` (at least one), or a fallback of twenty
/// before anything has been painted.
pub fn half_page(top: usize, bottom: usize) -> (h: usize)
    ensures
        h == (if bottom <= top {
            20
        } else if (bottom - top) / 2 >= 1 {
            ((bottom - top) / 2) as usize
        } else {
            1
        }),
{
    let visible = if bottom > top {
        bottom - top
    } else {
        0
    };
    if visible == 0 {
        20
    } else if visible / 2 >= 1 {
        visible / 2
    } else {
        1
    }
}

/// The banner over the document: `missing: <path>` while the file is gone,
/// else nothing.
pub fn banner(missing: bool, path_display: &str) -> (s: String)
    ensures
        s@ == (if missing {
            "missing: "@ + path_display@
        } else {
            Seq::<char>::empty()
        }),
{
    if missing {
        let mut s = String::from_str("missing: ");
        proof {
            reveal_strlit("missing: ");
        }
        push_str(&mut s, path_display);
        s
    } else {
        String::new()
    }
}

/// The status line: the mode label, then the vim message after two spaces
/// when there is one.
pub fn status_line(vim: &Vim) -> (s: String)
    ensures
        s@ == (if vim.message@.len() == 0 {
            spec_status(vim_v(*vim))
        } else {
            spec_status(vim_v(*vim)) + "  "@ + vim.message@
        }),
{
    let mut s = vim.status();
    if vim.message.as_str().unicode_len() == 0 {
        s
    } else {
        proof {
            reveal_strlit("  ");
        }
        push_str(&mut s, "  ");
        push_str(&mut s, vim.message.as_str());
        s
    }
}

// ---------------------------------------------------------------------------
// Diagrams
// ---------------------------------------------------------------------------

/// A fenced block tagged exactly `mermaid`.
pub open spec fn is_mermaid(b: Block) -> bool {
    b matches Block::Code { language, .. } && language@ == "mermaid"@
}

/// `m` holds, for each `mermaid` block of `blocks` that parses and nothing
/// else, its diagram, keyed by the block's index.
pub open spec fn diagrams_of(m: Map<usize, Diagram>, blocks: Seq<Block>) -> bool {
    &&& forall|i: usize|
        #[trigger] m.contains_key(i) <==> (i < blocks.len() && is_mermaid(blocks[i as int]) && spec_diagram(
            blocks[i as int]->Code_text@,
        ) is Some)
    &&& forall|i: usize|
        #[trigger] m.contains_key(i) ==> spec_diagram(blocks[i as int]->Code_text@) == Some(diagram_v(m[i]))
}

/// Parsed diagrams by block index. Mermaid blocks that fail to parse stay
/// out of this map and render as styled code instead.
pub fn diagram_cache(doc: &Document) -> (m: HashMap<usize, Diagram>)
    ensures
        diagrams_of(m@, doc.blocks@),
{
    broadcast use vstd::std_specs::hash::group_hash_axioms;

    let mut m: HashMap<usize, Diagram> = HashMap::new();
    let mut i: usize = 0;
    while i < doc.blocks.len()
        invariant
            i <= doc.blocks.len(),
            forall|j: usize|
                #[trigger] m@.contains_key(j) <==> (j < i && is_mermaid(doc.blocks@[j as int]) && spec_diagram(
                    doc.blocks@[j as int]->Code_text@,
                ) is Some),
            forall|j: usize|
                #[trigger] m@.contains_key(j) ==> spec_diagram(doc.blocks@[j as int]->Code_text@) == Some(
                    diagram_v(m@[j]),
                ),
        decreases doc.blocks.len() - i,
    {
        if let Block::Code { language, text } = &doc.blocks[i] {
            proof {
                reveal_strlit("mermaid");
            }
            if eq_str(&chars_of(language.as_str()), "mermaid") {
                if let Some(d) = parse_diagram(text.as_str()) {
                    m.insert(i, d);
                }
            }
        }
        i += 1;
    }
    m
}

// ---------------------------------------------------------------------------
// Painted rows
// ---------------------------------------------------------------------------

/// The blocks the lines come from.
pub open spec fn blocks_of(lines: Seq<Line>) -> Seq<usize> {
    Seq::new(lines.len(), |i: int| lines[i].block)
}

/// Line `i` starts a painted row: a diagram paints once for all its lines,
/// so a line continuing the previous line's diagram block starts none.
pub open spec fn starts_row(bs: Seq<usize>, diagrams: Set<usize>, i: int) -> bool {
    !(i > 0 && diagrams.contains(bs[i]) && bs[i - 1] == bs[i])
}

/// How many of the first `i` lines start a painted row.
pub open spec fn rows_before(bs: Seq<usize>, diagrams: Set<usize>, i: int) -> int
    decreases i,
{
    if i <= 0 {
        0
    } else {
        rows_before(bs, diagrams, i - 1) + if starts_row(bs, diagrams, i - 1) {
            1int
        } else {
            0
        }
    }
}

/// The first line that paints as row `row`, or the last line when there
/// are fewer rows (zero when there are no lines).
pub open spec fn line_for_row(bs: Seq<usize>, diagrams: Set<usize>, row: int) -> int {
    if row < rows_before(bs, diagrams, bs.len() as int) {
        choose|i: int| 0 <= i < bs.len() && starts_row(bs, diagrams, i) && rows_before(bs, diagrams, i) == row
    } else if bs.len() == 0 {
        0
    } else {
        bs.len() - 1
    }
}

proof fn lemma_rows_before_grow(bs: Seq<usize>, d: Set<usize>, i: int, j: int)
    requires
        0 <= i <= j,
    ensures
        rows_before(bs, d, i) <= rows_before(bs, d, j),
        rows_before(bs, d, j) <= rows_before(bs, d, i) + (j - i),
        i < j && starts_row(bs, d, i) ==> rows_before(bs, d, i) < rows_before(bs, d, j),
    decreases j - i,
{
    if i < j {
        lemma_rows_before_grow(bs, d, i, j - 1);
    }
}

/// Row `row` starts at exactly one line, if it exists at all.
proof fn lemma_row_line_unique(bs: Seq<usize>, d: Set<usize>, i: int, j: int)
    requires
        0 <= i,
        0 <= j,
        starts_row(bs, d, i),
        starts_row(bs, d, j),
        rows_before(bs, d, i) == rows_before(bs, d, j),
    ensures
        i == j,
{
    if i < j {
        lemma_rows_before_grow(bs, d, i, j);
    } else if j < i {
        lemma_rows_before_grow(bs, d, j, i);
    }
}

/// Some line starts row `row` when there are more rows than `row`.
proof fn lemma_row_line_exists(bs: Seq<usize>, d: Set<usize>, row: int, n: int)
    requires
        0 <= row < rows_before(bs, d, n),
        0 <= n <= bs.len(),
    ensures
        exists|i: int| 0 <= i < n && starts_row(bs, d, i) && rows_before(bs, d, i) == row,
    decreases n,
{
    if rows_before(bs, d, n - 1) > row {
        lemma_row_line_exists(bs, d, row, n - 1);
        let i = choose|i: int| 0 <= i < n - 1 && starts_row(bs, d, i) && rows_before(bs, d, i) == row;
        assert(0 <= i < n && starts_row(bs, d, i) && rows_before(bs, d, i) == row);
    } else {
        assert(starts_row(bs, d, n - 1) && rows_before(bs, d, n - 1) == row);
    }
}

/// First navigable line that paints as scroll child `row`.
pub fn line_index_for_row(lines: &[Line], diagrams: &HashMap<usize, Diagram>, row: usize) -> (r: usize)
    ensures
        r == line_for_row(blocks_of(lines@), diagrams@.dom(), row as int),
{
    broadcast use vstd::std_specs::hash::group_hash_axioms;

    let ghost bs = blocks_of(lines@);
    let ghost d = diagrams@.dom();
    let mut current_row: usize = 0;
    let mut last_diagram: Option<usize> = None;
    let mut index: usize = 0;
    while index < lines.len()
        invariant
            index <= lines.len(),
            bs == blocks_of(lines@),
            d == diagrams@.dom(),
            current_row == rows_before(bs, d, index as int),
            current_row <= index,
            current_row <= row,
            forall|k: int| 0 <= k < index && starts_row(bs, d, k) ==> rows_before(bs, d, k) != row,
            index > 0 && d.contains(bs[index - 1]) ==> last_diagram == Some(bs[index - 1]),
            index > 0 && !d.contains(bs[index - 1]) ==> last_diagram is None,
            index == 0 ==> last_diagram is None,
        decreases lines.len() - index,
    {
        let block = lines[index].block;
        let mut fresh = true;
        if diagrams.contains_key(&block) {
            if last_diagram == Some(block) {
                fresh = false;
            } else {
                last_diagram = Some(block);
            }
        } else {
            last_diagram = None;
        }
        assert(fresh == starts_row(bs, d, index as int));
        if fresh {
            if current_row == row {
                proof {
                    assert(starts_row(bs, d, index as int) && rows_before(bs, d, index as int) == row);
                    lemma_row_line_exists(bs, d, row as int, index + 1);
                    lemma_rows_before_grow(bs, d, index + 1, bs.len() as int);
                    let c = choose|i: int| 0 <= i < bs.len() && starts_row(bs, d, i) && rows_before(bs, d, i) == row;
                    lemma_row_line_unique(bs, d, c, index as int);
                }
                return index;
            }
            current_row += 1;
        }
        index += 1;
    }
    proof {
        if (row as int) < rows_before(bs, d, bs.len() as int) {
            lemma_row_line_exists(bs, d, row as int, bs.len() as int);
        }
    }
    if lines.len() > 0 {
        lines.len() - 1
    } else {
        0
    }
}

proof fn lemma_last_start(bs: Seq<usize>, d: Set<usize>, i: int)
    requires
        0 <= i < bs.len(),
    ensures
        exists|j: int| 0 <= j <= i && starts_row(bs, d, j) && rows_before(bs, d, j) == rows_before(bs, d, i + 1) - 1,
    decreases i,
{
    if starts_row(bs, d, i) {
        assert(rows_before(bs, d, i) == rows_before(bs, d, i + 1) - 1);
    } else {
        lemma_last_start(bs, d, i - 1);
        let j = choose|j: int| 0 <= j <= i - 1 && starts_row(bs, d, j) && rows_before(bs, d, j) == rows_before(bs, d, i) - 1;
        assert(0 <= j <= i && starts_row(bs, d, j));
    }
}

/// The two views of painted rows agree: the line [`line_index_for_row`]
/// gives for the row of line `i` (as [`rows_for_lines`] numbers it) starts
/// that same row, at or before `i`.
pub proof fn lemma_row_round_trip(bs: Seq<usize>, diagrams: Set<usize>, i: int)
    requires
        0 <= i < bs.len(),
    ensures
        ({
            let r = rows_before(bs, diagrams, i + 1) - 1;
            let j = line_for_row(bs, diagrams, r);
            &&& 0 <= j <= i
            &&& starts_row(bs, diagrams, j)
            &&& rows_before(bs, diagrams, j + 1) - 1 == r
        }),
{
    let r = rows_before(bs, diagrams, i + 1) - 1;
    lemma_last_start(bs, diagrams, i);
    let k = choose|k: int| 0 <= k <= i && starts_row(bs, diagrams, k) && rows_before(bs, diagrams, k) == r;
    lemma_rows_before_grow(bs, diagrams, 0, k);
    lemma_rows_before_grow(bs, diagrams, i + 1, bs.len() as int);
    lemma_row_line_exists(bs, diagrams, r, bs.len() as int);
    let j = line_for_row(bs, diagrams, r);
    lemma_row_line_unique(bs, diagrams, j, k);
}

/// The painted row each line belongs to: lines that continue a diagram
/// share the diagram's row, every other line starts a row of its own.
pub fn rows_for_lines(lines: &[Line], diagrams: &HashMap<usize, Diagram>) -> (rows: Vec<usize>)
    ensures
        rows@.len() == lines@.len(),
        forall|i: int| 0 <= i < rows@.len() ==> #[trigger] rows@[i] == rows_before(blocks_of(lines@), diagrams@.dom(), i + 1) - 1,
{
    broadcast use vstd::std_specs::hash::group_hash_axioms;

    let ghost bs = blocks_of(lines@);
    let ghost d = diagrams@.dom();
    let mut rows: Vec<usize> = Vec::new();
    let mut count: usize = 0;
    let mut index: usize = 0;
    while index < lines.len()
        invariant
            index <= lines.len(),
            bs == blocks_of(lines@),
            d == diagrams@.dom(),
            count == rows_before(bs, d, index as int),
            count <= index,
            index > 0 ==> count >= 1,
            rows@.len() == index,
            forall|i: int| 0 <= i < index ==> #[trigger] rows@[i] == rows_before(bs, d, i + 1) - 1,
        decreases lines.len() - index,
    {
        let block = lines[index].block;
        let continues = index > 0 && diagrams.contains_key(&block) && lines[index - 1].block == block;
        assert(continues == !starts_row(bs, d, index as int));
        if !continues {
            count += 1;
        }
        proof {
            if index == 0 {
                assert(starts_row(bs, d, 0));
            }
        }
        rows.push(count - 1);
        index += 1;
    }
    rows
}

/// Before a key that enters cursor or visual mode: when the cursor is
/// outside the rows from `top_item` to `bottom_item`, move it to the first
/// line of the top row.
pub fn snap_cursor_if_offscreen(
    vim: &mut Vim,
    lines: &[Line],
    diagrams: &HashMap<usize, Diagram>,
    top_item: usize,
    bottom_item: usize,
)
    ensures
        ({
            let top = line_for_row(blocks_of(lines@), diagrams@.dom(), top_item as int);
            let bottom = line_for_row(blocks_of(lines@), diagrams@.dom(), bottom_item as int);
            vim_v(*final(vim)) == if lines@.len() > 0 && (old(vim).cursor.line < top || old(vim).cursor.line
                > bottom) {
                spec_place(vim_v(*old(vim)), texts(lines@), top as usize)
            } else {
                vim_v(*old(vim))
            }
        }),
{
    if lines.len() == 0 {
        return;
    }
    let top = line_index_for_row(lines, diagrams, top_item);
    let bottom = line_index_for_row(lines, diagrams, bottom_item);
    if vim.cursor.line < top || vim.cursor.line > bottom {
        vim.place_cursor(lines, top);
    }
}

// ---------------------------------------------------------------------------
// Selection per line
// ---------------------------------------------------------------------------

/// The character count of line `index`, zero past the end.
pub open spec fn char_count_at(lines: Seq<Line>, index: int) -> usize {
    if 0 <= index < lines.len() {
        lines[index].text@.len() as usize
    } else {
        0
    }
}

/// How line `index` is highlighted (cursor or visual selection).
pub fn line_highlight(vim: &Vim, lines: &[Line], index: usize) -> (r: Option<Highlight>)
    ensures
        r == spec_highlight(vim_v(*vim), index, char_count_at(lines@, index as int)),
{
    let count = if index < lines.len() {
        chars_of(lines[index].text.as_str()).len()
    } else {
        0
    };
    vim.highlight_for_line(index, count)
}

/// Whether any line of block `block` is highlighted.
pub fn block_selected(vim: &Vim, lines: &[Line], block: usize) -> (b: bool)
    ensures
        b == exists|i: int|
            0 <= i < lines@.len() && lines@[i].block == block && (#[trigger] spec_highlight(
                vim_v(*vim),
                i as usize,
                char_count_at(lines@, i),
            )) is Some,
{
    let mut i: usize = 0;
    while i < lines.len()
        invariant
            i <= lines.len(),
            forall|k: int|
                0 <= k < i && lines@[k].block == block ==> (#[trigger] spec_highlight(
                    vim_v(*vim),
                    k as usize,
                    char_count_at(lines@, k),
                )) is None,
        decreases lines.len() - i,
    {
        if lines[i].block == block {
            if line_highlight(vim, lines, i).is_some() {
                let ghost k = i as int;
                assert(spec_highlight(vim_v(*vim), k as usize, char_count_at(lines@, k)) is Some);
                return true;
            }
        }
        i += 1;
    }
    false
}

// ---------------------------------------------------------------------------
// Keys
// ---------------------------------------------------------------------------

/// Modifier keys held during a keystroke.
#[derive(Debug, Clone, Copy, PartialEq, Eq, Structural)]
pub struct Modifiers {
    pub control: bool,
    pub alt: bool,
    pub shift: bool,
    pub platform: bool,
}

/// A platform keystroke: the key's name, the character it types (if any)
/// and the modifiers held.
pub struct KeyStroke {
    pub modifiers: Modifiers,
    pub key: String,
    pub key_char: Option<String>,
}

/// What a keystroke asks of the viewer: move focus (backwards when
/// `true`), a vim key, or a zoom step of one point in or out.
#[derive(Debug, Clone, Copy, PartialEq, Eq, Structural)]
pub enum Input {
    Focus(bool),
    Vim(Key),
    Zoom(i32),
}

pub open spec fn key_char_v(c: Option<String>) -> Option<Seq<char>> {
    match c {
        Some(s) => Some(s@),
        None => None,
    }
}

/// `char::to_ascii_uppercase`.
pub open spec fn ascii_upper_char(c: char) -> char {
    if 'a' <= c && c <= 'z' {
        ((c as u32) - 32) as char
    } else {
        c
    }
}

/// The character a keystroke types: the typed character when it is a single
/// one (so Shift+v gives `V`), else a one-character key name, upper-cased
/// under Shift.
pub open spec fn spec_typed_char(key: Seq<char>, key_char: Option<Seq<char>>, shift: bool) -> Option<char> {
    if key_char matches Some(c) && c.len() == 1 {
        Some(key_char->0[0])
    } else if key.len() == 1 {
        Some(
            if shift {
                ascii_upper_char(key[0])
            } else {
                key[0]
            },
        )
    } else {
        None
    }
}

/// The named keys without modifiers.
pub open spec fn named_key(key: Seq<char>) -> Option<Key> {
    if key == "escape"@ {
        Some(Key::Esc)
    } else if key == "enter"@ {
        Some(Key::Enter)
    } else if key == "backspace"@ {
        Some(Key::Backspace)
    } else if key == "left"@ {
        Some(Key::Left)
    } else if key == "right"@ {
        Some(Key::Right)
    } else if key == "up"@ {
        Some(Key::Up)
    } else if key == "down"@ {
        Some(Key::Down)
    } else if key == "pageup"@ {
        Some(Key::PageUp)
    } else if key == "pagedown"@ {
        Some(Key::PageDown)
    } else if key == " "@ || key == "space"@ {
        Some(Key::Char(' '))
    } else {
        None
    }
}

/// What a key pressed with Control alone means.
pub open spec fn control_key(key: Seq<char>, shift: bool) -> Option<Input> {
    if key == "d"@ && !shift {
        Some(Input::Vim(Key::Ctrl('d')))
    } else if key == "u"@ && !shift {
        Some(Input::Vim(Key::Ctrl('u')))
    } else if key == "c"@ && !shift {
        Some(Input::Vim(Key::Esc))
    } else if key == "="@ || key == "+"@ {
        Some(Input::Zoom(1))
    } else if key == "-"@ {
        Some(Input::Zoom(-1i32))
    } else {
        None
    }
}

/// With Control held (and neither Alt nor the platform key), a vim control
/// key always names the key pressed: Control+`d` scrolls down and
/// Control+`u` up, and no two keys share a vim key.
pub proof fn lemma_control_keys(m: Modifiers, key: Seq<char>, key_char: Option<Seq<char>>)
    requires
        m.control,
        !m.alt,
        !m.platform,
    ensures
        spec_map_keystroke(m, key, key_char) matches Some(Input::Vim(Key::Ctrl(c))) ==> key == seq![c] && !m.shift,
        (key == seq!['d'] || key == seq!['u']) && !m.shift ==> spec_map_keystroke(m, key, key_char) == Some(
            Input::Vim(Key::Ctrl(key[0])),
        ),
{
    reveal_strlit("d");
    reveal_strlit("u");
    reveal_strlit("c");
    reveal_strlit("tab");
    reveal_strlit("=");
    reveal_strlit("+");
    reveal_strlit("-");
    assert(seq!['d'] =~= "d"@);
    assert(seq!['u'] =~= "u"@);
}

/// The viewer's key map: Tab and Shift+Tab move focus; Control with
/// `d`/`u` scrolls, `c` escapes and `=`/`+`/`-` zoom; other modified keys
/// do nothing; named keys map to vim keys, and the rest to the character
/// they type.
pub open spec fn spec_map_keystroke(m: Modifiers, key: Seq<char>, key_char: Option<Seq<char>>) -> Option<Input> {
    if key == "tab"@ && !m.control && !m.alt && !m.platform {
        Some(Input::Focus(m.shift))
    } else if m.control || m.alt || m.platform {
        if m.control && !m.alt && !m.platform {
            control_key(key, m.shift)
        } else {
            None
        }
    } else if named_key(key) is Some {
        Some(Input::Vim(named_key(key)->0))
    } else {
        match spec_typed_char(key, key_char, m.shift) {
            Some(c) => Some(Input::Vim(Key::Char(c))),
            None => None,
        }
    }
}

fn ascii_upper(c: char) -> (u: char)
    ensures
        u == ascii_upper_char(c),
{
    if 'a' <= c && c <= 'z' {
        let u = ((c as u8) - 32) as char;
        assert((c as u8) as int == c as u32 as int);
        u
    } else {
        c
    }
}

/// The character a keystroke types (see [`spec_typed_char`]).
pub fn typed_char(stroke: &KeyStroke) -> (c: Option<char>)
    ensures
        c == spec_typed_char(stroke.key@, key_char_v(stroke.key_char), stroke.modifiers.shift),
{
    if let Some(ch) = &stroke.key_char {
        let cs = chars_of(ch.as_str());
        if cs.len() == 1 {
            return Some(cs[0]);
        }
    }
    let ks = chars_of(stroke.key.as_str());
    if ks.len() == 1 {
        let c = ks[0];
        if stroke.modifiers.shift {
            Some(ascii_upper(c))
        } else {
            Some(c)
        }
    } else {
        None
    }
}

fn named_key_of(key: &Vec<char>) -> (k: Option<Key>)
    ensures
        k == named_key(key@),
{
    proof {
        reveal_strlit("escape");
        reveal_strlit("enter");
        reveal_strlit("backspace");
        reveal_strlit("left");
        reveal_strlit("right");
        reveal_strlit("up");
        reveal_strlit("down");
        reveal_strlit("pageup");
        reveal_strlit("pagedown");
        reveal_strlit(" ");
        reveal_strlit("space");
    }
    if eq_str(key, "escape") {
        Some(Key::Esc)
    } else if eq_str(key, "enter") {
        Some(Key::Enter)
    } else if eq_str(key, "backspace") {
        Some(Key::Backspace)
    } else if eq_str(key, "left") {
        Some(Key::Left)
    } else if eq_str(key, "right") {
        Some(Key::Right)
    } else if eq_str(key, "up") {
        Some(Key::Up)
    } else if eq_str(key, "down") {
        Some(Key::Down)
    } else if eq_str(key, "pageup") {
        Some(Key::PageUp)
    } else if eq_str(key, "pagedown") {
        Some(Key::PageDown)
    } else if eq_str(key, " ") || eq_str(key, "space") {
        Some(Key::Char(' '))
    } else {
        None
    }
}

fn control_key_of(key: &Vec<char>, shift: bool) -> (i: Option<Input>)
    ensures
        i == control_key(key@, shift),
{
    proof {
        reveal_strlit("d");
        reveal_strlit("u");
        reveal_strlit("c");
        reveal_strlit("=");
        reveal_strlit("+");
        reveal_strlit("-");
    }
    if eq_str(key, "d") && !shift {
        Some(Input::Vim(Key::Ctrl('d')))
    } else if eq_str(key, "u") && !shift {
        Some(Input::Vim(Key::Ctrl('u')))
    } else if eq_str(key, "c") && !shift {
        Some(Input::Vim(Key::Esc))
    } else if eq_str(key, "=") || eq_str(key, "+") {
        Some(Input::Zoom(1))
    } else if eq_str(key, "-") {
        Some(Input::Zoom(-1i32))
    } else {
        None
    }
}

/// Map a platform keystroke to what it asks of the viewer (see
/// [`spec_map_keystroke`]).
pub fn map_keystroke(stroke: &KeyStroke) -> (i: Option<Input>)
    ensures
        i == spec_map_keystroke(stroke.modifiers, stroke.key@, key_char_v(stroke.key_char)),
{
    let m = stroke.modifiers;
    let key = chars_of(stroke.key.as_str());
    proof {
        reveal_strlit("tab");
    }
    if eq_str(&key, "tab") && !m.control && !m.alt && !m.platform {
        return Some(Input::Focus(m.shift));
    }
    if m.control || m.alt || m.platform {
        if m.control && !m.alt && !m.platform {
            return control_key_of(&key, m.shift);
        }
        return None;
    }
    match named_key_of(&key) {
        Some(k) => Some(Input::Vim(k)),
        None => match typed_char(stroke) {
            Some(c) => Some(Input::Vim(Key::Char(c))),
            None => None,
        },
    }
}

// ---------------------------------------------------------------------------
// Paths
// ---------------------------------------------------------------------------

/// A path component that reads the same under every platform's path
/// rules: not empty, neither `.` nor `..`, and without `/`, `\\` or `:`.
pub open spec fn plain_name(s: Seq<char>) -> bool {
    &&& s.len() > 0
    &&& s != "."@
    &&& s != ".."@
    &&& forall|i: int| 0 <= i < s.len() ==> #[trigger] s[i] != '/' && s[i] != '\\' && s[i] != ':'
}

/// The index of the last `/` among the first `n` characters, or -1.
pub open spec fn last_slash_before(p: Seq<char>, n: int) -> int
    decreases n,
{
    if n <= 0 {
        -1
    } else if p[n - 1] == '/' {
        n - 1
    } else {
        last_slash_before(p, n - 1)
    }
}

/// The index of the last `/` of `p`, or -1.
pub open spec fn last_slash(p: Seq<char>) -> int {
    last_slash_before(p, p.len() as int)
}

/// Where the last `/` before `n` lies.
pub proof fn lemma_last_slash(p: Seq<char>, n: int)
    requires
        0 <= n <= p.len(),
    ensures
        -1 <= last_slash_before(p, n) < n,
        last_slash_before(p, n) >= 0 ==> p[last_slash_before(p, n)] == '/',
        forall|i: int| last_slash_before(p, n) < i < n ==> #[trigger] p[i] != '/',
    decreases n,
{
    if n > 0 && p[n - 1] != '/' {
        lemma_last_slash(p, n - 1);
    }
}

/// Plain components joined by single `/`s.
pub open spec fn plain_rel(p: Seq<char>) -> bool
    decreases p.len(),
{
    let k = last_slash(p);
    if k < 0 {
        plain_name(p)
    } else {
        proof {
            lemma_last_slash(p, p.len() as int);
        }
        plain_name(p.subrange(k + 1, p.len() as int)) && plain_rel(p.subrange(0, k))
    }
}

/// A plain relative path, or one with a single leading `/`.
pub open spec fn plain_path(p: Seq<char>) -> bool {
    plain_rel(p) || (p.len() > 1 && p[0] == '/' && plain_rel(p.subrange(1, p.len() as int)))
}

/// The last component of a plain path.
pub open spec fn file_of(p: Seq<char>) -> Seq<char> {
    p.subrange(last_slash(p) + 1, p.len() as int)
}

/// A plain path without its last component: empty for a single relative
/// component, `/` for a single component under the root.
pub open spec fn parent_of(p: Seq<char>) -> Seq<char> {
    let k = last_slash(p);
    if k < 0 {
        Seq::empty()
    } else if k == 0 {
        "/"@
    } else {
        p.subrange(0, k)
    }
}

/// What is left of `path` after the components of `base`, for plain paths:
/// nothing when they are equal, the rest after `base/` when `path` lies
/// inside it.
pub open spec fn home_rest(path: Seq<char>, base: Seq<char>) -> Option<Seq<char>> {
    if path == base {
        Some(Seq::empty())
    } else if path.len() > base.len() + 1 && path.subrange(0, base.len() as int) == base && path[base.len() as int]
        == '/' {
        Some(path.subrange(base.len() + 1int, path.len() as int))
    } else {
        None
    }
}

/// `joined` is `path` after `base` and at most one separator.
pub open spec fn joined_onto(joined: Seq<char>, base: Seq<char>, path: Seq<char>) -> bool {
    exists|sep: Seq<char>|
        (sep == Seq::<char>::empty() || sep == seq!['/'] || sep == seq!['\\']) && joined == base + sep + path
}

pub open spec fn opt_text(o: Option<String>) -> Option<Seq<char>> {
    match o {
        Some(s) => Some(s@),
        None => None,
    }
}

/// Wraps `Path::is_absolute` on `path`. A path of plain components with no
/// root and no prefix is relative on every platform; which other paths are
/// absolute depends on the platform, so nothing more is stated.
#[verifier::external_body]
fn is_absolute_path(path: &str) -> (b: bool)
    ensures
        plain_rel(path@) ==> !b,
{
    Path::new(path).is_absolute()
}

/// Wraps `Path::join`: `path` appended to `base`, as text. For plain
/// relative components, `Path::push` adds a separator (`/`, or `\\` on
/// Windows) unless `base` is empty or already ends with one, then the text
/// of `path` as it is; only a Windows verbatim `base` (which holds `\\`)
/// rebuilds it. Other cases depend on the platform, so nothing more is
/// stated.
#[verifier::external_body]
fn join_path(base: &str, path: &str) -> (joined: String)
    ensures
        plain_rel(path@) && !base@.contains('\\') ==> joined_onto(joined@, base@, path@),
{
    Path::new(base).join(path).to_string_lossy().into_owned()
}

/// Wraps `Path::file_name`: the last component of `path`, as text. For a
/// path of plain components the components are the same on every
/// platform, so the result is the text after the last `/`.
#[verifier::external_body]
fn path_file_name(path: &str) -> (name: Option<String>)
    ensures
        plain_path(path@) ==> opt_text(name) == Some(file_of(path@)),
{
    Path::new(path).file_name().map(|name| name.to_string_lossy().into_owned())
}

/// Wraps `Path::parent`: `path` without its last component, as text; `None`
/// for a root, a prefix or the empty path, as its documentation says. For a
/// path of plain components: the text before the last `/`, `/` when that is
/// the root, and the empty path for a single relative component.
#[verifier::external_body]
fn path_parent(path: &str) -> (parent: Option<String>)
    ensures
        path@.len() == 0 ==> parent is None,
        plain_path(path@) ==> opt_text(parent) == Some(parent_of(path@)),
{
    Path::new(path).parent().map(|parent| parent.to_string_lossy().into_owned())
}

/// Wraps `Path::strip_prefix`: what is left of `path` after the
/// components of `base`, as text, or `None` when `base` is not a prefix of
/// it. For two paths of plain components, components match exactly when
/// the texts do (see [`home_rest`]); other cases depend on the platform.
#[verifier::external_body]
fn strip_path_prefix(path: &str, base: &str) -> (rest: Option<String>)
    ensures
        plain_path(path@) && plain_path(base@) ==> opt_text(rest) == home_rest(path@, base@),
{
    Path::new(path).strip_prefix(base).ok().map(|rest| rest.to_string_lossy().into_owned())
}

/// A directory for the path bar: `.` for the empty path, `~` for the home
/// directory itself, `~/rest` inside it (`relative` is what is left after
/// the home directory, if it is a prefix), the path itself otherwise.
pub open spec fn compact_spec(path: Seq<char>, relative: Option<Seq<char>>) -> Seq<char> {
    if path.len() == 0 {
        "."@
    } else {
        match relative {
            Some(rest) => if rest.len() == 0 {
                "~"@
            } else {
                "~/"@ + rest
            },
            None => path,
        }
    }
}

/// The path-bar text for a file name and a directory.
pub open spec fn label_spec(file_name: Seq<char>, directory: Seq<char>) -> Seq<char> {
    "filename: "@ + file_name + "    directory: "@ + directory
}

/// The directory text of [`compact_spec`], given what is left of `path`
/// after the home directory.
pub fn compact_with(path: &str, relative: Option<&str>) -> (s: String)
    ensures
        s@ == compact_spec(
            path@,
            match relative {
                Some(r) => Some(r@),
                None => None,
            },
        ),
{
    proof {
        reveal_strlit(".");
        reveal_strlit("~");
        reveal_strlit("~/");
    }
    if path.unicode_len() == 0 {
        return String::from_str(".");
    }
    match relative {
        Some(rest) => if rest.unicode_len() == 0 {
            String::from_str("~")
        } else {
            let mut s = String::from_str("~/");
            push_str(&mut s, rest);
            s
        },
        None => String::from_str(path),
    }
}

/// The path-bar directory for `path` under home directory `home`, when
/// both are plain paths (or there is no home directory).
pub open spec fn compact_known(path: Seq<char>, home: Option<Seq<char>>) -> Seq<char> {
    compact_spec(
        path,
        match home {
            Some(h) => home_rest(path, h),
            None => None,
        },
    )
}

pub open spec fn opt_str(o: Option<&str>) -> Option<Seq<char>> {
    match o {
        Some(s) => Some(s@),
        None => None,
    }
}

/// Shorten a directory for the path bar: see [`compact_spec`]. For plain
/// paths (and always without a home directory) the result is
/// [`compact_known`]; otherwise whether the home directory is a prefix is
/// up to the platform's path rules, and the text is one of those forms.
pub fn compact_path(path: &str, home: Option<&str>) -> (s: String)
    ensures
        exists|relative: Option<Seq<char>>|
            (home is None ==> relative is None) && s@ == #[trigger] compact_spec(path@, relative),
        (path@.len() == 0 || home is None || (plain_path(path@) && plain_path(home->0@))) ==> s@ == compact_known(
            path@,
            opt_str(home),
        ),
{
    let relative = match home {
        Some(h) => strip_path_prefix(path, h),
        None => None,
    };
    let s = match &relative {
        Some(r) => compact_with(path, Some(r.as_str())),
        None => compact_with(path, None),
    };
    let ghost rv = match relative {
        Some(r) => Some(r@),
        None => None,
    };
    assert(s@ == compact_spec(path@, rv));
    s
}

/// The path-bar text: `filename: <name>    directory: <dir>`.
pub fn path_label(file_name: &str, directory: &str) -> (s: String)
    ensures
        s@ == label_spec(file_name@, directory@),
{
    proof {
        reveal_strlit("filename: ");
        reveal_strlit("    directory: ");
    }
    let mut s = String::from_str("filename: ");
    push_str(&mut s, file_name);
    push_str(&mut s, "    directory: ");
    push_str(&mut s, directory);
    s
}

/// The path bar for `path` and home directory `home`, for plain paths
/// whose parent is empty or plain: the last component, and the parent
/// shortened by [`compact_known`].
pub open spec fn display_known(path: Seq<char>, home: Option<Seq<char>>) -> Seq<char> {
    label_spec(file_of(path), compact_known(parent_of(path), home))
}

/// The path bar for `path`: its file name (empty when it has none) and its
/// parent directory shortened by [`compact_path`] (`.` when it has none).
/// For plain paths the result is [`display_known`]; otherwise the
/// components follow the platform's path rules.
pub fn path_display(path: &str, home: Option<&str>) -> (s: String)
    ensures
        exists|name: Seq<char>, directory: Seq<char>| s@ == #[trigger] label_spec(name, directory),
        path@.len() == 0 ==> exists|name: Seq<char>| s@ == #[trigger] label_spec(name, "."@),
        plain_path(path@) && (parent_of(path@).len() == 0 || plain_path(parent_of(path@))) && (home is None
            || plain_path(home->0@)) ==> s@ == display_known(path@, opt_str(home)),
{
    let name = match path_file_name(path) {
        Some(n) => n,
        None => String::new(),
    };
    let directory = match path_parent(path) {
        Some(parent) => compact_path(parent.as_str(), home),
        None => {
            proof {
                reveal_strlit(".");
            }
            String::from_str(".")
        },
    };
    let s = path_label(name.as_str(), directory.as_str());
    assert(s@ == label_spec(name@, directory@));
    s
}

/// The path shown for `path` when the viewer was started in
/// `current_directory`: the path itself when it is absolute, else joined
/// onto the current directory. Plain relative components are relative on
/// every platform, so they come out after the current directory and at most
/// one separator; which other paths are absolute, and how they join, follow
/// the platform's path rules.
pub fn absolute_display_path(path: &str, current_directory: &str) -> (p: String)
    ensures
        plain_rel(path@) && !current_directory@.contains('\\') ==> joined_onto(p@, current_directory@, path@),
{
    if is_absolute_path(path) {
        String::from_str(path)
    } else {
        join_path(current_directory, path)
    }
}

// ---------------------------------------------------------------------------
// Loading and reloading
// ---------------------------------------------------------------------------

/// What the viewer paints from one version of the file: the document, its
/// navigable lines, the highlighted code blocks and the parsed diagrams.
pub struct DocView {
    pub doc: Document,
    pub lines: Vec<Line>,
    pub code: HashMap<usize, Vec<Vec<Token>>>,
    pub diagrams: HashMap<usize, Diagram>,
}

/// `v` is what the viewer derives from source `text`, highlighting code
/// with engine `engine`.
pub open spec fn view_of(v: DocView, text: Seq<char>, engine: Engine) -> bool {
    &&& document_v(v.doc) == spec_document(comrak_events(text, viewer_options()))
    &&& lines_v(v.lines@) == spec_build_lines(blocks_v(v.doc.blocks@))
    &&& code_rows(v.code@, v.doc.blocks@, engine)
    &&& diagrams_of(v.diagrams@, v.doc.blocks@)
}

/// The blocks source `text` parses to.
pub open spec fn parsed_blocks(text: Seq<char>) -> Seq<crate::markdown::BlockV> {
    spec_document(comrak_events(text, viewer_options())).blocks
}

/// The key of the line under the cursor, which a reload keeps the cursor
/// on.
pub open spec fn cursor_key(lines: Seq<Line>, line: usize) -> Option<Seq<char>> {
    if line < lines.len() {
        Some(lines[line as int].key@)
    } else {
        None
    }
}

impl DocView {
    /// Parse `text` and derive everything the viewer paints from it;
    /// `None` only when quotes and lists nest deeper than the depth
    /// counters can count.
    pub fn load(engine: &Engine, text: &str) -> (r: Option<DocView>)
        ensures
            match r {
                Some(v) => view_of(v, text@, *engine),
                None => !depths_fit(parsed_blocks(text@)),
            },
    {
        let doc = parse_markdown(text);
        if !nesting_fits(&doc) {
            return None;
        }
        let lines = build_lines(&doc);
        let code = engine.highlight_document(&doc);
        let diagrams = diagram_cache(&doc);
        Some(DocView { doc, lines, code, diagrams })
    }

    /// After the file changed: derive everything from the new `text`, and
    /// put the cursor back on the line whose key it was on (see
    /// [`Vim::rebase`]). When the new text nests too deeply nothing changes
    /// and the result is `false`.
    pub fn reload(&mut self, vim: &mut Vim, engine: &Engine, text: &str) -> (ok: bool)
        ensures
            ok ==> view_of(*final(self), text@, *engine) && vim_v(*final(vim)) == spec_rebase(
                vim_v(*old(vim)),
                cursor_key(old(self).lines@, old(vim).cursor.line),
                final(self).lines@,
            ),
            !ok ==> !depths_fit(parsed_blocks(text@)) && *final(self) == *old(self) && *final(vim) == *old(vim),
    {
        let old_key = if vim.cursor.line < self.lines.len() {
            Some(self.lines[vim.cursor.line].key.clone())
        } else {
            None
        };
        match DocView::load(engine, text) {
            Some(v) => {
                *self = v;
                vim.rebase(old_key, &self.lines);
                true
            },
            None => false,
        }
    }
}

} // verus!
