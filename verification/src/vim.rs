//! Vim-style navigation over a document's flattened lines.
//!
//! Pure state machine over [`Line`]s: every motion, selection, search, and
//! yank is decided here. The viewer maps platform keystrokes to [`Key`] and
//! writes [`Outcome::Yanked`] text to the clipboard itself.

use vstd::prelude::*;
use crate::markdown::{
    block_key, block_v, blocks_v, clone_aligns, clone_inlines, clone_row, flat, flat_cells,
    flatten, inline_v, inlines_v, item_v, items_v, join, join_prefix, key_of, lemma_block_v,
    lemma_inline_v, row_v, Align, Block, BlockV, Document, Inline, InlineV, ListItem, ListItemV,
};
use crate::text::{
    chars_of, decimal, lines, push_char, push_chars, push_decimal, push_str, split_lines,
    string_of,
};

pub mod state;

pub use state::{Highlight, Key, Mode, Outcome, Pos, Vim};

verus! {

/// What kind of block a navigable row renders, carrying whatever structure
/// (heading level, inline spans, table cells/alignment, ...) the renderer
/// needs. `Line::text` stays the flattened plain form used for search/yank;
/// this is the parallel rich-rendering view of the same row.
#[derive(Debug)]
pub enum RowContent {
    Heading { level: u8, spans: Vec<Inline> },
    Paragraph { spans: Vec<Inline> },
    Code,
    ListItem { ordered: bool, number: usize, checked: Option<bool>, spans: Vec<Inline> },
    TableRow { cells: Vec<Vec<Inline>>, alignments: Vec<Align>, header: bool },
    Rule,
}

/// One navigable row: its source block, the block's content-derived key for
/// scroll retention, its flattened text, and the structure needed to render
/// it richly.
#[derive(Debug)]
pub struct Line {
    pub block: usize,
    pub key: String,
    pub text: String,
    /// Nested `>` levels this row sits inside, for left-border indent.
    pub quote_depth: usize,
    /// Nested list levels this row sits inside, for marker indent.
    pub list_depth: usize,
    pub content: RowContent,
}

/// One row produced while walking a block's structure.
struct Row {
    text: String,
    quote_depth: usize,
    list_depth: usize,
    content: RowContent,
}

pub enum RowContentV {
    Heading { level: u8, spans: Seq<InlineV> },
    Paragraph { spans: Seq<InlineV> },
    Code,
    ListItem { ordered: bool, number: usize, checked: Option<bool>, spans: Seq<InlineV> },
    TableRow { cells: Seq<Seq<InlineV>>, alignments: Seq<Align>, header: bool },
    Rule,
}

pub struct RowV {
    pub text: Seq<char>,
    pub quote_depth: nat,
    pub list_depth: nat,
    pub content: RowContentV,
}

pub struct LineV {
    pub block: nat,
    pub key: Seq<char>,
    pub text: Seq<char>,
    pub quote_depth: nat,
    pub list_depth: nat,
    pub content: RowContentV,
}

pub open spec fn content_v(c: RowContent) -> RowContentV {
    match c {
        RowContent::Heading { level, spans } => RowContentV::Heading {
            level,
            spans: inlines_v(spans@),
        },
        RowContent::Paragraph { spans } => RowContentV::Paragraph { spans: inlines_v(spans@) },
        RowContent::Code => RowContentV::Code,
        RowContent::ListItem { ordered, number, checked, spans } => RowContentV::ListItem {
            ordered,
            number,
            checked,
            spans: inlines_v(spans@),
        },
        RowContent::TableRow { cells, alignments, header } => RowContentV::TableRow {
            cells: row_v(cells@),
            alignments: alignments@,
            header,
        },
        RowContent::Rule => RowContentV::Rule,
    }
}

spec fn row_value(r: Row) -> RowV {
    RowV {
        text: r.text@,
        quote_depth: r.quote_depth as nat,
        list_depth: r.list_depth as nat,
        content: content_v(r.content),
    }
}

spec fn rows_value(v: Seq<Row>) -> Seq<RowV> {
    Seq::new(v.len(), |i: int| row_value(v[i]))
}

/// The value of a navigable line.
pub open spec fn line_v(l: Line) -> LineV {
    LineV {
        block: l.block as nat,
        key: l.key@,
        text: l.text@,
        quote_depth: l.quote_depth as nat,
        list_depth: l.list_depth as nat,
        content: content_v(l.content),
    }
}

pub open spec fn lines_v(v: Seq<Line>) -> Seq<LineV> {
    Seq::new(v.len(), |i: int| line_v(v[i]))
}

/// The texts of the lines: what motions, search and yank see.
pub open spec fn texts(v: Seq<Line>) -> Seq<Seq<char>> {
    Seq::new(v.len(), |i: int| v[i].text@)
}

// ---------------------------------------------------------------------------
// Rows of a block
// ---------------------------------------------------------------------------

/// `start + i` as a `usize` (wrapping, as release builds compute it).
pub open spec fn item_number(start: usize, i: int) -> usize {
    if start + i <= usize::MAX {
        (start + i) as usize
    } else {
        (start + i - usize::MAX - 1) as usize
    }
}

/// `"N. "` for ordered lists, `"- "` otherwise.
pub open spec fn marker(ordered: bool, number: usize) -> Seq<char> {
    if ordered {
        decimal(number as nat) + seq!['.', ' ']
    } else {
        seq!['-', ' ']
    }
}

/// `"[x] "`, `"[ ] "`, or nothing.
pub open spec fn check_text(checked: Option<bool>) -> Seq<char> {
    match checked {
        Some(true) => seq!['[', 'x', ']', ' '],
        Some(false) => seq!['[', ' ', ']', ' '],
        None => Seq::empty(),
    }
}

/// Rows of a code block: its lines, or one empty row when it has none.
pub open spec fn code_rows(text: Seq<char>, qd: nat, ld: nat) -> Seq<RowV> {
    let ls = lines(text);
    let ls2 = if ls.len() == 0 {
        seq![Seq::<char>::empty()]
    } else {
        ls
    };
    Seq::new(
        ls2.len(),
        |k: int| RowV { text: ls2[k], quote_depth: qd, list_depth: ld, content: RowContentV::Code },
    )
}

/// Rows with `"> "` put in front of their text.
pub open spec fn quoted(rs: Seq<RowV>) -> Seq<RowV> {
    Seq::new(rs.len(), |k: int| RowV { text: seq!['>', ' '] + rs[k].text, ..rs[k] })
}

/// Rows with `"  "` put in front of their text.
pub open spec fn indented(rs: Seq<RowV>) -> Seq<RowV> {
    Seq::new(rs.len(), |k: int| RowV { text: seq![' ', ' '] + rs[k].text, ..rs[k] })
}

/// The spans a list item's first row renders: the inlines of a paragraph or
/// heading, or its text.
pub open spec fn lead_spans(r: RowV) -> Seq<InlineV> {
    match r.content {
        RowContentV::Paragraph { spans } => spans,
        RowContentV::Heading { spans, .. } => spans,
        _ => seq![InlineV::Text(r.text)],
    }
}

/// Rows of list item `i` (0-based) given the rows of its nested blocks.
pub open spec fn item_rows_from(
    nested: Seq<RowV>,
    ordered: bool,
    start: usize,
    i: int,
    checked: Option<bool>,
    qd: nat,
    ld: nat,
) -> Seq<RowV> {
    let number = item_number(start, i);
    let prefix = marker(ordered, number) + check_text(checked);
    if nested.len() > 0 {
        let first = nested[0];
        seq![
            RowV {
                text: prefix + first.text,
                quote_depth: first.quote_depth,
                list_depth: ld,
                content: RowContentV::ListItem {
                    ordered,
                    number,
                    checked,
                    spans: lead_spans(first),
                },
            },
        ] + indented(nested.drop_first())
    } else {
        seq![
            RowV {
                text: prefix,
                quote_depth: qd,
                list_depth: ld,
                content: RowContentV::ListItem { ordered, number, checked, spans: Seq::empty() },
            },
        ]
    }
}

/// Rows of the first `n` blocks, in order.
pub open spec fn blocks_rows(bs: Seq<BlockV>, n: int, qd: nat, ld: nat) -> Seq<RowV>
    decreases bs, n,
{
    if 0 < n <= bs.len() {
        blocks_rows(bs, n - 1, qd, ld) + block_rows_v(bs[n - 1], qd, ld)
    } else {
        Seq::empty()
    }
}

/// Rows of the first `n` list items.
pub open spec fn items_rows(
    items: Seq<ListItemV>,
    n: int,
    ordered: bool,
    start: usize,
    qd: nat,
    ld: nat,
) -> Seq<RowV>
    decreases items, n,
{
    if 0 < n <= items.len() {
        let item = items[n - 1];
        items_rows(items, n - 1, ordered, start, qd, ld) + item_rows_from(
            blocks_rows(item.blocks, item.blocks.len() as int, qd, ld + 1),
            ordered,
            start,
            n - 1,
            item.checked,
            qd,
            ld,
        )
    } else {
        Seq::empty()
    }
}

/// Rows for one block: code keeps its lines, quotes are `> `-prefixed and
/// increment the quote depth, list items increment the list depth for their
/// nested content, tables give one row per table row.
pub open spec fn block_rows_v(b: BlockV, qd: nat, ld: nat) -> Seq<RowV>
    decreases b,
{
    match b {
        BlockV::Heading { level, text } => seq![
            RowV {
                text: flat(text),
                quote_depth: qd,
                list_depth: ld,
                content: RowContentV::Heading { level, spans: text },
            },
        ],
        BlockV::Paragraph(text) => seq![
            RowV {
                text: flat(text),
                quote_depth: qd,
                list_depth: ld,
                content: RowContentV::Paragraph { spans: text },
            },
        ],
        BlockV::Code { text, .. } => code_rows(text, qd, ld),
        BlockV::Quote(inner) => quoted(blocks_rows(inner, inner.len() as int, qd + 1, ld)),
        BlockV::List { ordered, start, items } => items_rows(
            items,
            items.len() as int,
            ordered,
            start,
            qd,
            ld,
        ),
        BlockV::Table { alignments, header, rows } => seq![
            RowV {
                text: join(flat_cells(header), seq![' ', '|', ' ']),
                quote_depth: qd,
                list_depth: ld,
                content: RowContentV::TableRow { cells: header, alignments, header: true },
            },
        ] + Seq::new(
            rows.len(),
            |k: int|
                RowV {
                    text: join(flat_cells(rows[k]), seq![' ', '|', ' ']),
                    quote_depth: qd,
                    list_depth: ld,
                    content: RowContentV::TableRow { cells: rows[k], alignments, header: false },
                },
        ),
        BlockV::Rule => seq![
            RowV {
                text: seq!['-', '-', '-'],
                quote_depth: qd,
                list_depth: ld,
                content: RowContentV::Rule,
            },
        ],
    }
}

/// Lines of the first `n` blocks of a document.
pub open spec fn doc_lines_prefix(bs: Seq<BlockV>, n: int) -> Seq<LineV>
    decreases n,
{
    if 0 < n <= bs.len() {
        let rows = block_rows_v(bs[n - 1], 0, 0);
        doc_lines_prefix(bs, n - 1) + Seq::new(
            rows.len(),
            |k: int|
                LineV {
                    block: (n - 1) as nat,
                    key: key_of(bs[n - 1]),
                    text: rows[k].text,
                    quote_depth: rows[k].quote_depth,
                    list_depth: rows[k].list_depth,
                    content: rows[k].content,
                },
        )
    } else {
        Seq::empty()
    }
}

proof fn lemma_lines_prefix_blocks(bs: Seq<BlockV>, n: int)
    requires
        0 <= n <= bs.len(),
    ensures
        forall|i: int| 0 <= i < doc_lines_prefix(bs, n).len() ==> #[trigger] doc_lines_prefix(bs, n)[i].block < n,
        forall|i: int, j: int|
            0 <= i <= j < doc_lines_prefix(bs, n).len() ==> #[trigger] doc_lines_prefix(bs, n)[i].block
                <= #[trigger] doc_lines_prefix(bs, n)[j].block,
    decreases n,
{
    if n > 0 {
        lemma_lines_prefix_blocks(bs, n - 1);
        let p = doc_lines_prefix(bs, n - 1);
        let l = doc_lines_prefix(bs, n);
        assert forall|i: int| 0 <= i < l.len() implies #[trigger] l[i].block < n by {
            if i < p.len() {
                assert(l[i] == p[i]);
            }
        }
        assert forall|i: int, j: int| 0 <= i <= j < l.len() implies #[trigger] l[i].block <= #[trigger] l[j].block by {
            if j < p.len() {
                assert(l[i] == p[i] && l[j] == p[j]);
            } else if i < p.len() {
                assert(l[i] == p[i]);
            }
        }
    }
}

/// Lines come in document order: block indices never decrease along the
/// lines and always name a block of the document.
pub proof fn lemma_lines_in_block_order(bs: Seq<BlockV>)
    ensures
        forall|i: int| 0 <= i < spec_build_lines(bs).len() ==> #[trigger] spec_build_lines(bs)[i].block < bs.len(),
        forall|i: int, j: int|
            0 <= i <= j < spec_build_lines(bs).len() ==> #[trigger] spec_build_lines(bs)[i].block
                <= #[trigger] spec_build_lines(bs)[j].block,
{
    lemma_lines_prefix_blocks(bs, bs.len() as int);
}

/// The navigable lines of a document, one per row of each block.
pub open spec fn spec_build_lines(bs: Seq<BlockV>) -> Seq<LineV> {
    doc_lines_prefix(bs, bs.len() as int)
}


// ---------------------------------------------------------------------------
// Nesting depth
// ---------------------------------------------------------------------------

/// How deeply quotes and lists nest inside a block.
pub open spec fn nesting(b: BlockV) -> nat
    decreases b,
{
    match b {
        BlockV::Quote(inner) => 1 + max_nesting(inner, inner.len() as int),
        BlockV::List { items, .. } => 1 + max_item_nesting(items, items.len() as int),
        _ => 0,
    }
}

/// Deepest nesting among the first `n` blocks.
pub open spec fn max_nesting(bs: Seq<BlockV>, n: int) -> nat
    decreases bs, n,
{
    if 0 < n <= bs.len() {
        let a = max_nesting(bs, n - 1);
        let b = nesting(bs[n - 1]);
        if a >= b {
            a
        } else {
            b
        }
    } else {
        0
    }
}

/// Deepest nesting among the blocks of the first `n` items.
pub open spec fn max_item_nesting(items: Seq<ListItemV>, n: int) -> nat
    decreases items, n,
{
    if 0 < n <= items.len() {
        let a = max_item_nesting(items, n - 1);
        let b = max_nesting(items[n - 1].blocks, items[n - 1].blocks.len() as int);
        if a >= b {
            a
        } else {
            b
        }
    } else {
        0
    }
}

proof fn lemma_max_nesting(bs: Seq<BlockV>, n: int, j: int)
    requires
        0 <= j < n <= bs.len(),
    ensures
        nesting(bs[j]) <= max_nesting(bs, n),
    decreases n,
{
    if j < n - 1 {
        lemma_max_nesting(bs, n - 1, j);
    }
}

proof fn lemma_max_item_nesting(items: Seq<ListItemV>, n: int, j: int)
    requires
        0 <= j < n <= items.len(),
    ensures
        max_nesting(items[j].blocks, items[j].blocks.len() as int) <= max_item_nesting(items, n),
    decreases n,
{
    if j < n - 1 {
        lemma_max_item_nesting(items, n - 1, j);
    }
}

// ---------------------------------------------------------------------------
// Executable row building
// ---------------------------------------------------------------------------

fn text_row(text: String, qd: usize, ld: usize, content: RowContent) -> (r: Row)
    ensures
        r.text == text,
        r.quote_depth == qd,
        r.list_depth == ld,
        r.content == content,
{
    Row { text, quote_depth: qd, list_depth: ld, content }
}

/// Append the rows of `bs` (in order).
fn push_blocks_rows(out: &mut Vec<Row>, bs: &Vec<Block>, qd: usize, ld: usize)
    requires
        qd + max_nesting(blocks_v(bs@), bs@.len() as int) <= usize::MAX,
        ld + max_nesting(blocks_v(bs@), bs@.len() as int) <= usize::MAX,
    ensures
        rows_value(final(out)@) == rows_value(old(out)@) + blocks_rows(
            blocks_v(bs@),
            bs@.len() as int,
            qd as nat,
            ld as nat,
        ),
    decreases bs@,
{
    let ghost v = blocks_v(bs@);
    let ghost start = rows_value(out@);
    let mut j: usize = 0;
    while j < bs.len()
        invariant
            j <= bs.len(),
            v == blocks_v(bs@),
            qd + max_nesting(v, bs@.len() as int) <= usize::MAX,
            ld + max_nesting(v, bs@.len() as int) <= usize::MAX,
            rows_value(out@) == start + blocks_rows(v, j as int, qd as nat, ld as nat),
        decreases bs.len() - j,
    {
        proof {
            lemma_max_nesting(v, bs@.len() as int, j as int);
        }
        assert(decreases_to!(bs@ => bs@[j as int]));
        let rows = block_rows(&bs[j], qd, ld);
        let ghost before = rows_value(out@);
        append_rows(out, rows);
        assert(start + blocks_rows(v, j + 1, qd as nat, ld as nat) =~= before + rows_value(rows@)) by {
            assert(v[j as int] == block_v(bs@[j as int]));
        }
        j += 1;
    }
}

fn append_rows(out: &mut Vec<Row>, rows: Vec<Row>)
    ensures
        rows_value(final(out)@) == rows_value(old(out)@) + rows_value(rows@),
{
    let mut rows = rows;
    let ghost all = rows@;
    let total = rows.len();
    let ghost start = rows_value(out@);
    let mut taken: usize = 0;
    while rows.len() > 0
        invariant
            all.len() == total,
            taken + rows@.len() == all.len(),
            rows@ == all.skip(taken as int),
            rows_value(out@) =~= start + rows_value(all.take(taken as int)),
        decreases rows.len(),
    {
        let r = rows.remove(0);
        let ghost before = rows_value(out@);
        out.push(r);
        assert(rows_value(out@) =~= before.push(row_value(r)));
        assert(all.take(taken + 1) =~= all.take(taken as int).push(r));
        assert(rows_value(all.take(taken + 1)) =~= rows_value(all.take(taken as int)).push(row_value(r)));
        assert(rows@ =~= all.skip(taken + 1));
        taken += 1;
    }
    assert(all.take(taken as int) =~= all);
}

/// `"N. "` or `"- "`, then the check box.
fn item_prefix(ordered: bool, number: usize, checked: Option<bool>) -> (s: String)
    ensures
        s@ == marker(ordered, number) + check_text(checked),
{
    let mut s = String::new();
    if ordered {
        push_decimal(&mut s, number);
        push_char(&mut s, '.');
        push_char(&mut s, ' ');
    } else {
        push_char(&mut s, '-');
        push_char(&mut s, ' ');
    }
    match checked {
        Some(true) => push_chars(&mut s, &['[', 'x', ']', ' ']),
        Some(false) => push_chars(&mut s, &['[', ' ', ']', ' ']),
        None => {},
    }
    assert(s@ =~= marker(ordered, number) + check_text(checked));
    s
}

/// Rows of one list item, given its number.
fn item_rows(item: &ListItem, ordered: bool, start: usize, i: usize, qd: usize, ld: usize) -> (out: Vec<Row>)
    requires
        qd + max_nesting(blocks_v(item.blocks@), item.blocks@.len() as int) <= usize::MAX,
        ld + 1 + max_nesting(blocks_v(item.blocks@), item.blocks@.len() as int) <= usize::MAX,
    ensures
        rows_value(out@) == item_rows_from(
            blocks_rows(blocks_v(item.blocks@), item.blocks@.len() as int, qd as nat, ld as nat + 1),
            ordered,
            start,
            i as int,
            item.checked,
            qd as nat,
            ld as nat,
        ),
    decreases *item,
{
    let mut nested: Vec<Row> = Vec::new();
    assert(rows_value(nested@) =~= Seq::<RowV>::empty());
    push_blocks_rows(&mut nested, &item.blocks, qd, ld + 1);
    let ghost nv = rows_value(nested@);
    let number = start.wrapping_add(i);
    assert(number == item_number(start, i as int));
    let prefix = item_prefix(ordered, number, item.checked);
    let mut out: Vec<Row> = Vec::new();
    if nested.len() > 0 {
        let first = nested.remove(0);
        assert(row_value(first) == nv[0]);
        let spans = match &first.content {
            RowContent::Paragraph { spans } => clone_inlines(spans.as_slice()),
            RowContent::Heading { spans, .. } => clone_inlines(spans.as_slice()),
            _ => {
                let mut v: Vec<Inline> = Vec::new();
                v.push(Inline::Text(first.text.clone()));
                assert(inlines_v(v@) =~= seq![InlineV::Text(first.text@)]);
                v
            },
        };
        assert(inlines_v(spans@) == lead_spans(nv[0]));
        let mut text = prefix;
        push_str(&mut text, first.text.as_str());
        out.push(
            Row {
                text,
                quote_depth: first.quote_depth,
                list_depth: ld,
                content: RowContent::ListItem { ordered, number, checked: item.checked, spans },
            },
        );
        let ghost first_v = rows_value(out@)[0];
        assert(first_v == RowV {
            text: marker(ordered, number) + check_text(item.checked) + nv[0].text,
            quote_depth: nv[0].quote_depth,
            list_depth: ld as nat,
            content: RowContentV::ListItem { ordered, number, checked: item.checked, spans: lead_spans(nv[0]) },
        });
        let ghost rest = nv.drop_first();
        assert(rows_value(nested@) =~= rest);
        let mut k: usize = 0;
        let ghost all = nested@;
        let total = nested.len();
        while nested.len() > 0
            invariant
                all.len() == total,
                k + nested@.len() == all.len(),
                nested@ == all.skip(k as int),
                rows_value(all) == rest,
                out@.len() == k + 1,
                rows_value(out@) =~= seq![first_v] + indented(rest.take(k as int)),
            decreases nested.len(),
        {
            let r = nested.remove(0);
            let mut t = String::new();
            push_char(&mut t, ' ');
            push_char(&mut t, ' ');
            push_str(&mut t, r.text.as_str());
            assert(t@ =~= seq![' ', ' '] + r.text@);
            let ghost before = rows_value(out@);
            let nr = Row { text: t, quote_depth: r.quote_depth, list_depth: r.list_depth, content: r.content };
            out.push(nr);
            assert(row_value(r) == rest[k as int]);
            assert(row_value(nr) == RowV { text: seq![' ', ' '] + rest[k as int].text, ..rest[k as int] });
            assert(indented(rest.take(k + 1)) =~= indented(rest.take(k as int)).push(row_value(nr)));
            assert(rows_value(out@) =~= before.push(row_value(nr)));
            assert(nested@ =~= all.skip(k + 1));
            k += 1;
        }
        assert(rest.take(k as int) =~= rest);
    } else {
        let spans: Vec<Inline> = Vec::new();
        assert(inlines_v(spans@) =~= Seq::<InlineV>::empty());
        out.push(
            Row {
                text: prefix,
                quote_depth: qd,
                list_depth: ld,
                content: RowContent::ListItem { ordered, number, checked: item.checked, spans },
            },
        );
    }
    assert(rows_value(out@) =~= item_rows_from(nv, ordered, start, i as int, item.checked, qd as nat, ld as nat));
    out
}

/// `" | "`-joined flat text of a table row's cells.
fn row_text(cells: &Vec<Vec<Inline>>) -> (s: String)
    ensures
        s@ == join(flat_cells(row_v(cells@)), seq![' ', '|', ' ']),
{
    let ghost fc = flat_cells(row_v(cells@));
    let mut out = String::new();
    let mut i: usize = 0;
    while i < cells.len()
        invariant
            i <= cells.len(),
            fc == flat_cells(row_v(cells@)),
            out@ == join_prefix(fc, seq![' ', '|', ' '], i as int),
        decreases cells.len() - i,
    {
        if i > 0 {
            push_chars(&mut out, &[' ', '|', ' ']);
        }
        push_str(&mut out, flatten(cells[i].as_slice()).as_str());
        assert(join_prefix(fc, seq![' ', '|', ' '], i + 1) =~= out@);
        i += 1;
    }
    out
}

/// Rows for one block (see [`block_rows_v`]).
fn block_rows(block: &Block, qd: usize, ld: usize) -> (out: Vec<Row>)
    requires
        qd + nesting(block_v(*block)) <= usize::MAX,
        ld + nesting(block_v(*block)) <= usize::MAX,
    ensures
        rows_value(out@) == block_rows_v(block_v(*block), qd as nat, ld as nat),
    decreases *block,
{
    proof {
        lemma_block_v(*block);
    }
    let mut out: Vec<Row> = Vec::new();
    match block {
        Block::Heading { level, text } => {
            let t = flatten(text.as_slice());
            out.push(text_row(t, qd, ld, RowContent::Heading { level: *level, spans: clone_inlines(text.as_slice()) }));
        },
        Block::Paragraph(text) => {
            let t = flatten(text.as_slice());
            out.push(text_row(t, qd, ld, RowContent::Paragraph { spans: clone_inlines(text.as_slice()) }));
        },
        Block::Code { text, .. } => {
            let cs = chars_of(text.as_str());
            let ls = split_lines(&cs);
            let ghost ls2 = if lines(text@).len() == 0 {
                seq![Seq::<char>::empty()]
            } else {
                lines(text@)
            };
            if ls.len() == 0 {
                out.push(text_row(String::new(), qd, ld, RowContent::Code));
            } else {
                let mut i: usize = 0;
                while i < ls.len()
                    invariant
                        i <= ls.len(),
                        ls@.len() == lines(text@).len(),
                        ls@.len() > 0,
                        ls2 == lines(text@),
                        forall|k: int| 0 <= k < ls@.len() ==> #[trigger] ls@[k]@ == lines(text@)[k],
                        rows_value(out@) =~= code_rows(text@, qd as nat, ld as nat).take(i as int),
                    decreases ls.len() - i,
                {
                    let ghost before = rows_value(out@);
                    out.push(text_row(string_of(ls[i].as_slice()), qd, ld, RowContent::Code));
                    assert(rows_value(out@) =~= before.push(code_rows(text@, qd as nat, ld as nat)[i as int]));
                    i += 1;
                }
            }
            assert(rows_value(out@) =~= code_rows(text@, qd as nat, ld as nat));
        },
        Block::Quote(inner) => {
            let mut rows: Vec<Row> = Vec::new();
            assert(rows_value(rows@) =~= Seq::<RowV>::empty());
            push_blocks_rows(&mut rows, inner, qd + 1, ld);
            let ghost all = rows@;
            let ghost rv = rows_value(all);
            let total = rows.len();
            let mut k: usize = 0;
            while rows.len() > 0
                invariant
                    all.len() == total,
                    k + rows@.len() == all.len(),
                    rows@ == all.skip(k as int),
                    rv == rows_value(all),
                    rows_value(out@) =~= quoted(rv.take(k as int)),
                decreases rows.len(),
            {
                let r = rows.remove(0);
                let mut t = String::new();
                push_char(&mut t, '>');
                push_char(&mut t, ' ');
                push_str(&mut t, r.text.as_str());
                assert(t@ =~= seq!['>', ' '] + r.text@);
                let ghost before = rows_value(out@);
                let nr = Row { text: t, quote_depth: r.quote_depth, list_depth: r.list_depth, content: r.content };
                out.push(nr);
                assert(row_value(r) == rv[k as int]);
                assert(quoted(rv.take(k + 1)) =~= quoted(rv.take(k as int)).push(row_value(nr)));
                assert(rows_value(out@) =~= before.push(row_value(nr)));
                assert(rows@ =~= all.skip(k + 1));
                k += 1;
            }
            assert(rv.take(k as int) =~= rv);
        },
        Block::List { ordered, start, items } => {
            let ghost iv = items_v(items@);
            let mut i: usize = 0;
            assert(rows_value(out@) =~= Seq::<RowV>::empty());
            assert(forall|k: int| 0 <= k < items@.len() ==> decreases_to!(*block => items@[k]));
            while i < items.len()
                invariant
                    i <= items.len(),
                    forall|k: int| 0 <= k < items@.len() ==> decreases_to!(*block => items@[k]),
                    iv == items_v(items@),
                    qd + 1 + max_item_nesting(iv, iv.len() as int) <= usize::MAX,
                    ld + 1 + max_item_nesting(iv, iv.len() as int) <= usize::MAX,
                    rows_value(out@) == items_rows(iv, i as int, *ordered, *start, qd as nat, ld as nat),
                decreases items.len() - i,
            {
                proof {
                    lemma_max_item_nesting(iv, iv.len() as int, i as int);
                }
                let rows = item_rows(&items[i], *ordered, *start, i, qd, ld);
                let ghost before = rows_value(out@);
                append_rows(&mut out, rows);
                i += 1;
            }
        },
        Block::Table { alignments, header, rows } => {
            out.push(text_row(row_text(header), qd, ld, RowContent::TableRow {
                cells: clone_row(header),
                alignments: clone_aligns(alignments),
                header: true,
            }));
            let ghost hv = rows_value(out@);
            let mut i: usize = 0;
            while i < rows.len()
                invariant
                    i <= rows.len(),
                    out@.len() == i + 1,
                    rows_value(out@) =~= hv + Seq::new(
                        i as nat,
                        |k: int|
                            RowV {
                                text: join(flat_cells(row_v(rows@[k]@)), seq![' ', '|', ' ']),
                                quote_depth: qd as nat,
                                list_depth: ld as nat,
                                content: RowContentV::TableRow {
                                    cells: row_v(rows@[k]@),
                                    alignments: alignments@,
                                    header: false,
                                },
                            },
                    ),
                decreases rows.len() - i,
            {
                let r = text_row(row_text(&rows[i]), qd, ld, RowContent::TableRow {
                    cells: clone_row(&rows[i]),
                    alignments: clone_aligns(alignments),
                    header: false,
                });
                let ghost before = rows_value(out@);
                out.push(r);
                assert(rows_value(out@) =~= before.push(row_value(r)));
                i += 1;
            }
        },
        Block::Rule => {
            let mut t = String::new();
            push_chars(&mut t, &['-', '-', '-']);
            out.push(text_row(t, qd, ld, RowContent::Rule));
        },
    }
    assert(rows_value(out@) =~= block_rows_v(block_v(*block), qd as nat, ld as nat));
    out
}


/// Every block's quote/list nesting fits the depth counters.
pub open spec fn depths_fit(bs: Seq<BlockV>) -> bool {
    forall|k: int| 0 <= k < bs.len() ==> nesting(#[trigger] bs[k]) <= usize::MAX
}

/// The deepest nesting among `bs`, or `None` when it does not fit a
/// `usize`.
fn blocks_nesting(bs: &Vec<Block>) -> (r: Option<usize>)
    ensures
        match r {
            Some(n) => n == max_nesting(blocks_v(bs@), bs@.len() as int),
            None => max_nesting(blocks_v(bs@), bs@.len() as int) > usize::MAX,
        },
    decreases bs@,
{
    let ghost v = blocks_v(bs@);
    let mut best: usize = 0;
    let mut j: usize = 0;
    while j < bs.len()
        invariant
            j <= bs.len(),
            v == blocks_v(bs@),
            best == max_nesting(v, j as int),
        decreases bs.len() - j,
    {
        assert(decreases_to!(bs@ => bs@[j as int]));
        assert(v[j as int] == block_v(bs@[j as int]));
        match block_nesting(&bs[j]) {
            Some(n) => {
                if n > best {
                    best = n;
                }
            },
            None => {
                proof {
                    lemma_max_nesting(v, bs@.len() as int, j as int);
                }
                return None;
            },
        }
        j += 1;
    }
    Some(best)
}

/// How deeply quotes and lists nest inside `block`, or `None` when it does
/// not fit a `usize`.
fn block_nesting(block: &Block) -> (r: Option<usize>)
    ensures
        match r {
            Some(n) => n == nesting(block_v(*block)),
            None => nesting(block_v(*block)) > usize::MAX,
        },
    decreases *block,
{
    proof {
        lemma_block_v(*block);
    }
    match block {
        Block::Quote(inner) => {
            assert(decreases_to!(*block => *inner));
            match blocks_nesting(inner) {
                Some(n) => n.checked_add(1),
                None => None,
            }
        },
        Block::List { items, .. } => {
            let ghost iv = items_v(items@);
            let mut best: usize = 0;
            let mut i: usize = 0;
            assert(forall|k: int| 0 <= k < items@.len() ==> decreases_to!(*block => items@[k]));
            assert(nesting(block_v(*block)) == 1 + max_item_nesting(iv, iv.len() as int));
            while i < items.len()
                invariant
                    i <= items.len(),
                    forall|k: int| 0 <= k < items@.len() ==> decreases_to!(*block => items@[k]),
                    iv == items_v(items@),
                    nesting(block_v(*block)) == 1 + max_item_nesting(iv, iv.len() as int),
                    best == max_item_nesting(iv, i as int),
                decreases items.len() - i,
            {
                let item = &items[i];
                assert(decreases_to!(*item => item.blocks));
                assert(iv[i as int].blocks == blocks_v(item.blocks@));
                match blocks_nesting(&item.blocks) {
                    Some(n) => {
                        if n > best {
                            best = n;
                        }
                    },
                    None => {
                        proof {
                            lemma_max_item_nesting(iv, iv.len() as int, i as int);
                        }
                        return None;
                    },
                }
                i += 1;
            }
            best.checked_add(1)
        },
        _ => Some(0),
    }
}

/// Whether every block's nesting fits the depth counters, as
/// [`build_lines`] needs.
pub fn nesting_fits(doc: &Document) -> (b: bool)
    ensures
        b == depths_fit(blocks_v(doc.blocks@)),
{
    let ghost v = blocks_v(doc.blocks@);
    let mut k: usize = 0;
    while k < doc.blocks.len()
        invariant
            k <= doc.blocks.len(),
            v == blocks_v(doc.blocks@),
            forall|j: int| 0 <= j < k ==> nesting(#[trigger] v[j]) <= usize::MAX,
        decreases doc.blocks.len() - k,
    {
        assert(v[k as int] == block_v(doc.blocks@[k as int]));
        if block_nesting(&doc.blocks[k]).is_none() {
            return false;
        }
        k += 1;
    }
    true
}

/// Flatten a document into navigable lines, one entry per row.
pub fn build_lines(doc: &Document) -> (lines: Vec<Line>)
    requires
        depths_fit(blocks_v(doc.blocks@)),
    ensures
        lines_v(lines@) == spec_build_lines(blocks_v(doc.blocks@)),
{
    let ghost bs = blocks_v(doc.blocks@);
    let mut lines: Vec<Line> = Vec::new();
    let mut k: usize = 0;
    assert(lines_v(lines@) =~= doc_lines_prefix(bs, 0));
    while k < doc.blocks.len()
        invariant
            k <= doc.blocks.len(),
            bs == blocks_v(doc.blocks@),
            depths_fit(bs),
            lines_v(lines@) == doc_lines_prefix(bs, k as int),
        decreases doc.blocks.len() - k,
    {
        let block = &doc.blocks[k];
        assert(bs[k as int] == block_v(*block));
        assert(nesting(bs[k as int]) <= usize::MAX);
        let mut rows = block_rows(block, 0, 0);
        let key = block_key(block);
        let ghost rv = rows_value(rows@);
        let ghost all = rows@;
        let ghost start = lines_v(lines@);
        let total = rows.len();
        let mut j: usize = 0;
        while rows.len() > 0
            invariant
                all.len() == total,
                j + rows@.len() == all.len(),
                rows@ == all.skip(j as int),
                rv == rows_value(all),
                key@ == key_of(bs[k as int]),
                lines_v(lines@) =~= start + Seq::new(
                    j as nat,
                    |m: int|
                        LineV {
                            block: k as nat,
                            key: key_of(bs[k as int]),
                            text: rv[m].text,
                            quote_depth: rv[m].quote_depth,
                            list_depth: rv[m].list_depth,
                            content: rv[m].content,
                        },
                ),
            decreases rows.len(),
        {
            let r = rows.remove(0);
            assert(row_value(r) == rv[j as int]);
            let line = Line {
                block: k,
                key: key.clone(),
                text: r.text,
                quote_depth: r.quote_depth,
                list_depth: r.list_depth,
                content: r.content,
            };
            let ghost before = lines_v(lines@);
            lines.push(line);
            assert(lines_v(lines@) =~= before.push(line_v(line)));
            assert(rows@ =~= all.skip(j + 1));
            j += 1;
        }
        assert(lines_v(lines@) =~= doc_lines_prefix(bs, k + 1));
        k += 1;
    }
    lines
}

} // verus!
