//! Markdown document model: blocks, inline runs, and their flattened and
//! styled text forms.
//!
//! The parse enables GFM tables, task lists, strikethrough, autolinks,
//! superscript, highlight (`==mark==`), insert (`++ins++`) and `---` front
//! matter. Unknown blocks are skipped; unknown inlines are flattened so no
//! text is lost.

use vstd::prelude::*;
use crate::math::{flat_atom, flatten_tex, script_text, spec_parse_tex, unicode_script};
use crate::text::{
    char_width, chars_of, decimal, find_char, find_char_from, fit_end, lemma_find_char,
    lemma_fit_end, lines, push_char, push_chars, push_decimal, push_str, split_from, split_lines,
    string_of_range, trim, trim_bounds, trim_char, trim_char_bounds, utf8_width, is_ws, skip_ws,
    trim_start_char, trim_end_char,
};

pub mod parse;

pub use parse::parse_markdown;

verus! {

/// A parsed document: front matter plus top-level blocks.
pub struct Document {
    pub front_matter: Vec<(String, String)>,
    pub blocks: Vec<Block>,
}

/// Block-level layout element.
#[derive(Debug)]
#[allow(inconsistent_fields)]
pub enum Block {
    Heading { level: u8, text: Vec<Inline> },
    Paragraph(Vec<Inline>),
    Code { language: String, text: String },
    Quote(Vec<Block>),
    List { ordered: bool, start: usize, items: Vec<ListItem> },
    Table { alignments: Vec<Align>, header: Vec<Vec<Inline>>, rows: Vec<Vec<Vec<Inline>>> },
    Rule,
}

/// One list item. `checked` is `Some` for `- [ ]` / `- [x]` items.
#[derive(Debug)]
pub struct ListItem {
    pub checked: Option<bool>,
    pub blocks: Vec<Block>,
}

/// Inline-level layout element.
#[derive(Debug)]
pub enum Inline {
    Text(String),
    Code(String),
    Emph(Vec<Inline>),
    Strong(Vec<Inline>),
    Strike(Vec<Inline>),
    /// `==highlighted==` text.
    Mark(Vec<Inline>),
    /// `++inserted++` text, rendered underlined.
    Insert(Vec<Inline>),
    Link { label: Vec<Inline>, url: String },
    Image { alt: String, url: String },
    /// `$...$` / `$$...$$` TeX fragment. `display` is true for `$$`.
    Math { display: bool, tex: String },
    /// `^super^` or `<sup>`.
    Super(Vec<Inline>),
    /// `<sub>`.
    Sub(Vec<Inline>),
    Break,
}

/// Column alignment from the table delimiter row.
#[derive(Debug, Clone, Copy, PartialEq, Eq, Structural)]
pub enum Align {
    Left,
    Center,
    Right,
    Unaligned,
}

// ---------------------------------------------------------------------------
// Mathematical values of the model
// ---------------------------------------------------------------------------

pub enum InlineV {
    Text(Seq<char>),
    Code(Seq<char>),
    Emph(Seq<InlineV>),
    Strong(Seq<InlineV>),
    Strike(Seq<InlineV>),
    Mark(Seq<InlineV>),
    Insert(Seq<InlineV>),
    Link { label: Seq<InlineV>, url: Seq<char> },
    Image { alt: Seq<char>, url: Seq<char> },
    Math { display: bool, tex: Seq<char> },
    Super(Seq<InlineV>),
    Sub(Seq<InlineV>),
    Break,
}

pub struct ListItemV {
    pub checked: Option<bool>,
    pub blocks: Seq<BlockV>,
}

#[allow(inconsistent_fields)]
pub enum BlockV {
    Heading { level: u8, text: Seq<InlineV> },
    Paragraph(Seq<InlineV>),
    Code { language: Seq<char>, text: Seq<char> },
    Quote(Seq<BlockV>),
    List { ordered: bool, start: usize, items: Seq<ListItemV> },
    Table { alignments: Seq<Align>, header: Seq<Seq<InlineV>>, rows: Seq<Seq<Seq<InlineV>>> },
    Rule,
}

pub struct DocumentV {
    pub front_matter: Seq<(Seq<char>, Seq<char>)>,
    pub blocks: Seq<BlockV>,
}

/// The value of an inline run.
pub open spec fn inline_v(x: Inline) -> InlineV
    decreases x,
{
    match x {
        Inline::Text(s) => InlineV::Text(s@),
        Inline::Code(s) => InlineV::Code(s@),
        Inline::Emph(v) => InlineV::Emph(
            Seq::new(v@.len(), |i: int| if 0 <= i < v@.len() { inline_v(v@[i]) } else { InlineV::Break }),
        ),
        Inline::Strong(v) => InlineV::Strong(
            Seq::new(v@.len(), |i: int| if 0 <= i < v@.len() { inline_v(v@[i]) } else { InlineV::Break }),
        ),
        Inline::Strike(v) => InlineV::Strike(
            Seq::new(v@.len(), |i: int| if 0 <= i < v@.len() { inline_v(v@[i]) } else { InlineV::Break }),
        ),
        Inline::Mark(v) => InlineV::Mark(
            Seq::new(v@.len(), |i: int| if 0 <= i < v@.len() { inline_v(v@[i]) } else { InlineV::Break }),
        ),
        Inline::Insert(v) => InlineV::Insert(
            Seq::new(v@.len(), |i: int| if 0 <= i < v@.len() { inline_v(v@[i]) } else { InlineV::Break }),
        ),
        Inline::Link { label, url } => InlineV::Link {
            label: Seq::new(
                label@.len(),
                |i: int| if 0 <= i < label@.len() { inline_v(label@[i]) } else { InlineV::Break },
            ),
            url: url@,
        },
        Inline::Image { alt, url } => InlineV::Image { alt: alt@, url: url@ },
        Inline::Math { display, tex } => InlineV::Math { display, tex: tex@ },
        Inline::Super(v) => InlineV::Super(
            Seq::new(v@.len(), |i: int| if 0 <= i < v@.len() { inline_v(v@[i]) } else { InlineV::Break }),
        ),
        Inline::Sub(v) => InlineV::Sub(
            Seq::new(v@.len(), |i: int| if 0 <= i < v@.len() { inline_v(v@[i]) } else { InlineV::Break }),
        ),
        Inline::Break => InlineV::Break,
    }
}

/// The values of a run of inlines.
pub open spec fn inlines_v(v: Seq<Inline>) -> Seq<InlineV> {
    Seq::new(v.len(), |i: int| inline_v(v[i]))
}

/// The values of a table row's cells.
pub open spec fn row_v(r: Seq<Vec<Inline>>) -> Seq<Seq<InlineV>> {
    Seq::new(r.len(), |i: int| inlines_v(r[i]@))
}

/// Inner runs of the wrapping inline variants, as values.
pub proof fn lemma_inline_v(x: Inline)
    ensures
        match x {
            Inline::Emph(v) => inline_v(x) == InlineV::Emph(inlines_v(v@)),
            Inline::Strong(v) => inline_v(x) == InlineV::Strong(inlines_v(v@)),
            Inline::Strike(v) => inline_v(x) == InlineV::Strike(inlines_v(v@)),
            Inline::Mark(v) => inline_v(x) == InlineV::Mark(inlines_v(v@)),
            Inline::Insert(v) => inline_v(x) == InlineV::Insert(inlines_v(v@)),
            Inline::Super(v) => inline_v(x) == InlineV::Super(inlines_v(v@)),
            Inline::Sub(v) => inline_v(x) == InlineV::Sub(inlines_v(v@)),
            Inline::Link { label, url } => inline_v(x) == InlineV::Link {
                label: inlines_v(label@),
                url: url@,
            },
            _ => true,
        },
{
    match x {
        Inline::Emph(v) => assert(inline_v(x)->Emph_0 =~= inlines_v(v@)),
        Inline::Strong(v) => assert(inline_v(x)->Strong_0 =~= inlines_v(v@)),
        Inline::Strike(v) => assert(inline_v(x)->Strike_0 =~= inlines_v(v@)),
        Inline::Mark(v) => assert(inline_v(x)->Mark_0 =~= inlines_v(v@)),
        Inline::Insert(v) => assert(inline_v(x)->Insert_0 =~= inlines_v(v@)),
        Inline::Super(v) => assert(inline_v(x)->Super_0 =~= inlines_v(v@)),
        Inline::Sub(v) => assert(inline_v(x)->Sub_0 =~= inlines_v(v@)),
        Inline::Link { label, url } => assert(inline_v(x)->label =~= inlines_v(label@)),
        _ => {},
    }
}

/// The value of a block.
pub open spec fn block_v(b: Block) -> BlockV
    decreases b,
{
    match b {
        Block::Heading { level, text } => BlockV::Heading { level, text: inlines_v(text@) },
        Block::Paragraph(text) => BlockV::Paragraph(inlines_v(text@)),
        Block::Code { language, text } => BlockV::Code { language: language@, text: text@ },
        Block::Quote(inner) => BlockV::Quote(
            Seq::new(
                inner@.len(),
                |i: int| if 0 <= i < inner@.len() { block_v(inner@[i]) } else { BlockV::Rule },
            ),
        ),
        Block::List { ordered, start, items } => BlockV::List {
            ordered,
            start,
            items: Seq::new(
                items@.len(),
                |i: int|
                    if 0 <= i < items@.len() {
                        ListItemV {
                            checked: items@[i].checked,
                            blocks: Seq::new(
                                items@[i].blocks@.len(),
                                |j: int|
                                    if 0 <= j < items@[i].blocks@.len() {
                                        block_v(items@[i].blocks@[j])
                                    } else {
                                        BlockV::Rule
                                    },
                            ),
                        }
                    } else {
                        ListItemV { checked: None, blocks: Seq::empty() }
                    },
            ),
        },
        Block::Table { alignments, header, rows } => BlockV::Table {
            alignments: alignments@,
            header: row_v(header@),
            rows: Seq::new(rows@.len(), |i: int| row_v(rows@[i]@)),
        },
        Block::Rule => BlockV::Rule,
    }
}

pub open spec fn blocks_v(v: Seq<Block>) -> Seq<BlockV> {
    Seq::new(v.len(), |i: int| block_v(v[i]))
}

pub open spec fn item_v(item: ListItem) -> ListItemV {
    ListItemV { checked: item.checked, blocks: blocks_v(item.blocks@) }
}

pub open spec fn items_v(v: Seq<ListItem>) -> Seq<ListItemV> {
    Seq::new(v.len(), |i: int| item_v(v[i]))
}

/// Nested sequences of the container blocks, as values.
pub proof fn lemma_block_v(b: Block)
    ensures
        match b {
            Block::Quote(inner) => block_v(b) == BlockV::Quote(blocks_v(inner@)),
            Block::List { ordered, start, items } => block_v(b) == BlockV::List {
                ordered,
                start,
                items: items_v(items@),
            },
            _ => true,
        },
{
    match b {
        Block::Quote(inner) => assert(block_v(b)->Quote_0 =~= blocks_v(inner@)),
        Block::List { ordered, start, items } => {
            let s = block_v(b)->List_items;
            assert forall|i: int| 0 <= i < items@.len() implies s[i] == item_v(items@[i]) by {
                assert(s[i].blocks =~= blocks_v(items@[i].blocks@));
            }
            assert(s =~= items_v(items@));
        },
        _ => {},
    }
}

pub open spec fn document_v(d: Document) -> DocumentV {
    DocumentV {
        front_matter: Seq::new(
            d.front_matter@.len(),
            |i: int| (d.front_matter@[i].0@, d.front_matter@[i].1@),
        ),
        blocks: blocks_v(d.blocks@),
    }
}


// ---------------------------------------------------------------------------
// Flattened text
// ---------------------------------------------------------------------------

/// `" (url)"` when `url` is non-empty.
pub open spec fn url_suffix(url: Seq<char>) -> Seq<char> {
    if url.len() > 0 {
        seq![' ', '('] + url + seq![')']
    } else {
        Seq::empty()
    }
}

/// Plain text of one inline: markup removed, breaks as spaces, link and
/// image destinations appended in parentheses, math flattened.
pub open spec fn flat_inline(x: InlineV) -> Seq<char>
    decreases x,
{
    match x {
        InlineV::Text(t) => t,
        InlineV::Code(t) => t,
        InlineV::Emph(v) => flat_prefix(v, v.len() as int),
        InlineV::Strong(v) => flat_prefix(v, v.len() as int),
        InlineV::Strike(v) => flat_prefix(v, v.len() as int),
        InlineV::Mark(v) => flat_prefix(v, v.len() as int),
        InlineV::Insert(v) => flat_prefix(v, v.len() as int),
        InlineV::Super(v) => flat_prefix(v, v.len() as int),
        InlineV::Sub(v) => flat_prefix(v, v.len() as int),
        InlineV::Math { tex, .. } => flat_atom(spec_parse_tex(tex)),
        InlineV::Link { label, url } => flat_prefix(label, label.len() as int) + url_suffix(url),
        InlineV::Image { alt, url } => alt + url_suffix(url),
        InlineV::Break => seq![' '],
    }
}

/// Plain text of the first `n` inlines of `v`.
pub open spec fn flat_prefix(v: Seq<InlineV>, n: int) -> Seq<char>
    decreases v, n,
{
    if 0 < n <= v.len() {
        flat_prefix(v, n - 1) + flat_inline(v[n - 1])
    } else {
        Seq::empty()
    }
}

proof fn lemma_flat_prefix_left(a: Seq<InlineV>, b: Seq<InlineV>, j: int)
    requires
        0 <= j <= a.len(),
    ensures
        flat_prefix(a + b, j) == flat_prefix(a, j),
    decreases j,
{
    if j > 0 {
        lemma_flat_prefix_left(a, b, j - 1);
        assert((a + b)[j - 1] == a[j - 1]);
    }
}

proof fn lemma_flat_prefix_right(a: Seq<InlineV>, b: Seq<InlineV>, k: int)
    requires
        0 <= k <= b.len(),
    ensures
        flat_prefix(a + b, a.len() + k) == flat_prefix(a, a.len() as int) + flat_prefix(b, k),
    decreases k,
{
    if k > 0 {
        lemma_flat_prefix_right(a, b, k - 1);
        assert((a + b)[a.len() + k - 1] == b[k - 1]);
        assert(flat_prefix(a, a.len() as int) + flat_prefix(b, k - 1) + flat_inline(b[k - 1]) =~= flat_prefix(
            a,
            a.len() as int,
        ) + (flat_prefix(b, k - 1) + flat_inline(b[k - 1])));
    } else {
        lemma_flat_prefix_left(a, b, a.len() as int);
        assert(flat_prefix(a, a.len() as int) + Seq::<char>::empty() =~= flat_prefix(a, a.len() as int));
    }
}

/// Flattening distributes over concatenation: the plain text of two runs
/// side by side is the plain text of each, joined.
pub proof fn lemma_flat_concat(a: Seq<InlineV>, b: Seq<InlineV>)
    ensures
        flat(a + b) == flat(a) + flat(b),
{
    lemma_flat_prefix_right(a, b, b.len() as int);
    assert((a + b).len() == a.len() + b.len());
}

/// Plain text of a run of inlines.
pub open spec fn flat(v: Seq<InlineV>) -> Seq<char> {
    flat_prefix(v, v.len() as int)
}

fn push_url_suffix(out: &mut String, url: &String)
    ensures
        final(out)@ == old(out)@ + url_suffix(url@),
{
    let u = url.as_str();
    if u.unicode_len() > 0 {
        push_char(out, ' ');
        push_char(out, '(');
        push_str(out, u);
        push_char(out, ')');
        assert(final(out)@ =~= old(out)@ + url_suffix(url@));
    } else {
        assert(url_suffix(url@) =~= Seq::<char>::empty());
        assert(old(out)@ + url_suffix(url@) =~= old(out)@);
    }
}

/// Flattened text of inline runs: markup removed, breaks as spaces.
pub fn flatten(inlines: &[Inline]) -> (s: String)
    ensures
        s@ == flat(inlines_v(inlines@)),
{
    let mut out = String::new();
    push_flat(inlines, &mut out);
    out
}

fn push_flat(inlines: &[Inline], out: &mut String)
    ensures
        final(out)@ == old(out)@ + flat(inlines_v(inlines@)),
    decreases inlines@,
{
    let ghost v = inlines_v(inlines@);
    let ghost start = out@;
    let mut i: usize = 0;
    while i < inlines.len()
        invariant
            i <= inlines.len(),
            v == inlines_v(inlines@),
            out@ == start + flat_prefix(v, i as int),
        decreases inlines.len() - i,
    {
        assert(decreases_to!(inlines@ => inlines@[i as int]));
        push_flat_one(&inlines[i], out);
        assert(start + flat_prefix(v, i as int) + flat_inline(v[i as int]) =~= start + flat_prefix(v, i + 1));
        i += 1;
    }
}

fn push_flat_one(inline: &Inline, out: &mut String)
    ensures
        final(out)@ == old(out)@ + flat_inline(inline_v(*inline)),
    decreases *inline,
{
    proof {
        lemma_inline_v(*inline);
    }
    match inline {
        Inline::Text(text) => push_str(out, text.as_str()),
        Inline::Code(text) => push_str(out, text.as_str()),
        Inline::Emph(inner) => push_flat(inner.as_slice(), out),
        Inline::Strong(inner) => push_flat(inner.as_slice(), out),
        Inline::Strike(inner) => push_flat(inner.as_slice(), out),
        Inline::Mark(inner) => push_flat(inner.as_slice(), out),
        Inline::Insert(inner) => push_flat(inner.as_slice(), out),
        Inline::Super(inner) => push_flat(inner.as_slice(), out),
        Inline::Sub(inner) => push_flat(inner.as_slice(), out),
        Inline::Math { tex, .. } => {
            let f = flatten_tex(tex.as_str());
            push_str(out, f.as_str());
        },
        Inline::Link { label, url } => {
            push_flat(label.as_slice(), out);
            push_url_suffix(out, url);
            assert(final(out)@ =~= old(out)@ + flat_inline(inline_v(*inline)));
        },
        Inline::Image { alt, url } => {
            push_str(out, alt.as_str());
            push_url_suffix(out, url);
            assert(final(out)@ =~= old(out)@ + flat_inline(inline_v(*inline)));
        },
        Inline::Break => push_char(out, ' '),
    }
}


// ---------------------------------------------------------------------------
// Display math
// ---------------------------------------------------------------------------

/// Whether an inline is, or wraps, display (`$$`) math.
pub open spec fn inline_has_display(x: InlineV) -> bool
    decreases x,
{
    match x {
        InlineV::Math { display, .. } => display,
        InlineV::Emph(v) => any_display(v, v.len() as int),
        InlineV::Strong(v) => any_display(v, v.len() as int),
        InlineV::Strike(v) => any_display(v, v.len() as int),
        InlineV::Mark(v) => any_display(v, v.len() as int),
        InlineV::Insert(v) => any_display(v, v.len() as int),
        InlineV::Super(v) => any_display(v, v.len() as int),
        InlineV::Sub(v) => any_display(v, v.len() as int),
        InlineV::Link { label, .. } => any_display(label, label.len() as int),
        _ => false,
    }
}

/// Whether any of the first `n` inlines has display math.
pub open spec fn any_display(v: Seq<InlineV>, n: int) -> bool
    decreases v, n,
{
    if 0 < n <= v.len() {
        any_display(v, n - 1) || inline_has_display(v[n - 1])
    } else {
        false
    }
}

/// True when any inline is display (`$$`) math.
pub fn has_display_math(inlines: &[Inline]) -> (b: bool)
    ensures
        b == any_display(inlines_v(inlines@), inlines@.len() as int),
    decreases inlines@,
{
    let ghost v = inlines_v(inlines@);
    let mut i: usize = 0;
    while i < inlines.len()
        invariant
            i <= inlines.len(),
            v == inlines_v(inlines@),
            !any_display(v, i as int),
        decreases inlines.len() - i,
    {
        assert(decreases_to!(inlines@ => inlines@[i as int]));
        let inline = &inlines[i];
        proof {
            lemma_inline_v(*inline);
        }
        let hit = match inline {
            Inline::Math { display, .. } => *display,
            Inline::Emph(inner) => has_display_math(inner.as_slice()),
            Inline::Strong(inner) => has_display_math(inner.as_slice()),
            Inline::Strike(inner) => has_display_math(inner.as_slice()),
            Inline::Mark(inner) => has_display_math(inner.as_slice()),
            Inline::Insert(inner) => has_display_math(inner.as_slice()),
            Inline::Super(inner) => has_display_math(inner.as_slice()),
            Inline::Sub(inner) => has_display_math(inner.as_slice()),
            Inline::Link { label, .. } => has_display_math(label.as_slice()),
            _ => false,
        };
        assert(hit == inline_has_display(v[i as int]));
        if hit {
            proof {
                lemma_any_display_mono(v, i as int + 1, v.len() as int);
            }
            return true;
        }
        i += 1;
    }
    false
}

pub proof fn lemma_any_display_mono(v: Seq<InlineV>, i: int, n: int)
    requires
        0 < i <= n <= v.len(),
        any_display(v, i),
    ensures
        any_display(v, n),
    decreases n - i,
{
    if n > i {
        lemma_any_display_mono(v, i, n - 1);
    }
}

// ---------------------------------------------------------------------------
// Styled spans
// ---------------------------------------------------------------------------

/// One styled run of flattened inline text: unlike [`flatten`], style flags
/// are preserved per run instead of stripped, so a rich renderer can turn
/// each span into a colored/weighted text run.
#[derive(Debug, Clone, PartialEq, Default)]
pub struct Span {
    pub text: String,
    pub bold: bool,
    pub italic: bool,
    pub strike: bool,
    pub mark: bool,
    pub insert: bool,
    pub code: bool,
    pub link: bool,
}

/// Style flags carried down through recursive inline runs.
#[derive(Debug, Clone, Copy, PartialEq, Eq, Structural)]
pub struct SpanStyle {
    pub bold: bool,
    pub italic: bool,
    pub strike: bool,
    pub mark: bool,
    pub insert: bool,
    pub code: bool,
    pub link: bool,
}

/// Value of a [`Span`]: its text and its style.
pub struct SpanV {
    pub text: Seq<char>,
    pub style: SpanStyle,
}

pub open spec fn span_v(s: Span) -> SpanV {
    SpanV {
        text: s.text@,
        style: SpanStyle {
            bold: s.bold,
            italic: s.italic,
            strike: s.strike,
            mark: s.mark,
            insert: s.insert,
            code: s.code,
            link: s.link,
        },
    }
}

pub open spec fn spans_v(v: Seq<Span>) -> Seq<SpanV> {
    Seq::new(v.len(), |i: int| span_v(v[i]))
}

pub open spec fn plain_style() -> SpanStyle {
    SpanStyle {
        bold: false,
        italic: false,
        strike: false,
        mark: false,
        insert: false,
        code: false,
        link: false,
    }
}

impl SpanStyle {
    /// A span with this style.
    pub fn span(self, text: String) -> (s: Span)
        ensures
            span_v(s) == (SpanV { text: text@, style: self }),
    {
        Span {
            text,
            bold: self.bold,
            italic: self.italic,
            strike: self.strike,
            mark: self.mark,
            insert: self.insert,
            code: self.code,
            link: self.link,
        }
    }
}

/// Append `text` in `style`: empty text adds nothing, and text in the
/// style of the last span extends that span.
pub open spec fn add_span(out: Seq<SpanV>, style: SpanStyle, text: Seq<char>) -> Seq<SpanV> {
    if text.len() == 0 {
        out
    } else if out.len() > 0 && out.last().style == style {
        out.update(out.len() - 1, SpanV { text: out.last().text + text, style })
    } else {
        out.push(SpanV { text, style })
    }
}

/// Spans of one inline, appended to `out`.
pub open spec fn spans_one(out: Seq<SpanV>, x: InlineV, style: SpanStyle) -> Seq<SpanV>
    decreases x,
{
    match x {
        InlineV::Text(t) => add_span(out, style, t),
        InlineV::Code(t) => add_span(out, SpanStyle { code: true, ..style }, t),
        InlineV::Emph(v) => spans_prefix(out, v, v.len() as int, SpanStyle { italic: true, ..style }),
        InlineV::Strong(v) => spans_prefix(out, v, v.len() as int, SpanStyle { bold: true, ..style }),
        InlineV::Strike(v) => spans_prefix(out, v, v.len() as int, SpanStyle { strike: true, ..style }),
        InlineV::Mark(v) => spans_prefix(out, v, v.len() as int, SpanStyle { mark: true, ..style }),
        InlineV::Insert(v) => spans_prefix(out, v, v.len() as int, SpanStyle { insert: true, ..style }),
        InlineV::Super(v) => add_span(out, style, script_text(flat(v), true)),
        InlineV::Sub(v) => add_span(out, style, script_text(flat(v), false)),
        InlineV::Math { tex, .. } => add_span(out, style, flat_atom(spec_parse_tex(tex))),
        InlineV::Link { label, .. } => spans_prefix(
            out,
            label,
            label.len() as int,
            SpanStyle { link: true, ..style },
        ),
        InlineV::Image { alt, url } => {
            let with_alt = if alt.len() > 0 {
                add_span(out, style, alt)
            } else {
                out
            };
            if url.len() > 0 {
                add_span(with_alt, style, url_suffix(url))
            } else {
                with_alt
            }
        },
        InlineV::Break => add_span(out, style, seq![' ']),
    }
}

/// Spans of the first `n` inlines of `v`, appended to `out`.
pub open spec fn spans_prefix(out: Seq<SpanV>, v: Seq<InlineV>, n: int, style: SpanStyle) -> Seq<
    SpanV,
>
    decreases v, n,
{
    if 0 < n <= v.len() {
        spans_one(spans_prefix(out, v, n - 1, style), v[n - 1], style)
    } else {
        out
    }
}

/// Styled spans of a run of inlines.
pub open spec fn spec_spans(v: Seq<InlineV>) -> Seq<SpanV> {
    spans_prefix(Seq::empty(), v, v.len() as int, plain_style())
}

/// No span is empty, and no two neighbouring spans share a style.
pub open spec fn merged(out: Seq<SpanV>) -> bool {
    &&& forall|k: int| 0 <= k < out.len() ==> (#[trigger] out[k]).text.len() > 0
    &&& forall|k: int| 0 <= k < out.len() - 1 ==> (#[trigger] out[k]).style != out[k + 1].style
}

proof fn lemma_add_span_merged(out: Seq<SpanV>, style: SpanStyle, text: Seq<char>)
    requires
        merged(out),
    ensures
        merged(add_span(out, style, text)),
{
    let r = add_span(out, style, text);
    if text.len() > 0 {
        assert forall|k: int| 0 <= k < r.len() - 1 implies (#[trigger] r[k]).style != r[k + 1].style by {
            if k < out.len() - 1 {
                assert(r[k].style == out[k].style);
                assert(r[k + 1].style == out[k + 1].style);
            }
        }
    }
}

proof fn lemma_spans_one_merged(out: Seq<SpanV>, x: InlineV, style: SpanStyle)
    requires
        merged(out),
    ensures
        merged(spans_one(out, x, style)),
    decreases x,
{
    match x {
        InlineV::Emph(v) => lemma_spans_prefix_merged(out, v, v.len() as int, SpanStyle { italic: true, ..style }),
        InlineV::Strong(v) => lemma_spans_prefix_merged(out, v, v.len() as int, SpanStyle { bold: true, ..style }),
        InlineV::Strike(v) => lemma_spans_prefix_merged(out, v, v.len() as int, SpanStyle { strike: true, ..style }),
        InlineV::Mark(v) => lemma_spans_prefix_merged(out, v, v.len() as int, SpanStyle { mark: true, ..style }),
        InlineV::Insert(v) => lemma_spans_prefix_merged(out, v, v.len() as int, SpanStyle { insert: true, ..style }),
        InlineV::Link { label, .. } => lemma_spans_prefix_merged(
            out,
            label,
            label.len() as int,
            SpanStyle { link: true, ..style },
        ),
        InlineV::Text(t) => lemma_add_span_merged(out, style, t),
        InlineV::Code(t) => lemma_add_span_merged(out, SpanStyle { code: true, ..style }, t),
        InlineV::Super(v) => lemma_add_span_merged(out, style, script_text(flat(v), true)),
        InlineV::Sub(v) => lemma_add_span_merged(out, style, script_text(flat(v), false)),
        InlineV::Math { tex, .. } => lemma_add_span_merged(out, style, flat_atom(spec_parse_tex(tex))),
        InlineV::Image { alt, url } => {
            lemma_add_span_merged(out, style, alt);
            let with_alt = if alt.len() > 0 {
                add_span(out, style, alt)
            } else {
                out
            };
            lemma_add_span_merged(with_alt, style, url_suffix(url));
        },
        InlineV::Break => lemma_add_span_merged(out, style, seq![' ']),
    }
}

proof fn lemma_spans_prefix_merged(out: Seq<SpanV>, v: Seq<InlineV>, n: int, style: SpanStyle)
    requires
        merged(out),
    ensures
        merged(spans_prefix(out, v, n, style)),
    decreases v, n,
{
    if 0 < n <= v.len() {
        lemma_spans_prefix_merged(out, v, n - 1, style);
        assert(decreases_to!(v => v[n - 1]));
        lemma_spans_one_merged(spans_prefix(out, v, n - 1, style), v[n - 1], style);
    }
}

/// Styled spans are maximal: none is empty, and runs that end up with the
/// same styling are merged, so neighbouring spans always differ in style.
pub proof fn lemma_spans_merged(v: Seq<InlineV>)
    ensures
        merged(spec_spans(v)),
{
    lemma_spans_prefix_merged(Seq::empty(), v, v.len() as int, plain_style());
}

/// The texts of the spans, joined.
pub open spec fn spans_text(out: Seq<SpanV>) -> Seq<char>
    decreases out.len(),
{
    if out.len() == 0 {
        Seq::empty()
    } else {
        spans_text(out.drop_last()) + out.last().text
    }
}

/// Whether the plain text of an inline reads the same as its spans: no
/// link with a destination (spans keep only the label) and no superscript
/// or subscript (spans show those in Unicode script), at any depth.
pub open spec fn reads_as_spans(x: InlineV) -> bool
    decreases x,
{
    match x {
        InlineV::Emph(v) => all_read_as_spans(v, v.len() as int),
        InlineV::Strong(v) => all_read_as_spans(v, v.len() as int),
        InlineV::Strike(v) => all_read_as_spans(v, v.len() as int),
        InlineV::Mark(v) => all_read_as_spans(v, v.len() as int),
        InlineV::Insert(v) => all_read_as_spans(v, v.len() as int),
        InlineV::Link { label, url } => url.len() == 0 && all_read_as_spans(label, label.len() as int),
        InlineV::Super(_) => false,
        InlineV::Sub(_) => false,
        _ => true,
    }
}

/// [`reads_as_spans`] of each of the first `n` inlines of `v`.
pub open spec fn all_read_as_spans(v: Seq<InlineV>, n: int) -> bool
    decreases v, n,
{
    if 0 < n <= v.len() {
        all_read_as_spans(v, n - 1) && reads_as_spans(v[n - 1])
    } else {
        true
    }
}

proof fn lemma_add_span_text(out: Seq<SpanV>, style: SpanStyle, text: Seq<char>)
    ensures
        spans_text(add_span(out, style, text)) == spans_text(out) + text,
{
    let r = add_span(out, style, text);
    if text.len() == 0 {
        assert(spans_text(out) + text =~= spans_text(out));
    } else if out.len() > 0 && out.last().style == style {
        assert(r.drop_last() =~= out.drop_last());
        assert(spans_text(r) =~= spans_text(out) + text);
    } else {
        assert(r.drop_last() =~= out);
    }
}

proof fn lemma_spans_one_text(out: Seq<SpanV>, x: InlineV, style: SpanStyle)
    requires
        reads_as_spans(x),
    ensures
        spans_text(spans_one(out, x, style)) == spans_text(out) + flat_inline(x),
    decreases x,
{
    match x {
        InlineV::Emph(v) => lemma_spans_prefix_text(out, v, v.len() as int, SpanStyle { italic: true, ..style }),
        InlineV::Strong(v) => lemma_spans_prefix_text(out, v, v.len() as int, SpanStyle { bold: true, ..style }),
        InlineV::Strike(v) => lemma_spans_prefix_text(out, v, v.len() as int, SpanStyle { strike: true, ..style }),
        InlineV::Mark(v) => lemma_spans_prefix_text(out, v, v.len() as int, SpanStyle { mark: true, ..style }),
        InlineV::Insert(v) => lemma_spans_prefix_text(out, v, v.len() as int, SpanStyle { insert: true, ..style }),
        InlineV::Link { label, url } => {
            lemma_spans_prefix_text(out, label, label.len() as int, SpanStyle { link: true, ..style });
            assert(flat_prefix(label, label.len() as int) + url_suffix(url) =~= flat_prefix(label, label.len() as int));
        },
        InlineV::Text(t) => lemma_add_span_text(out, style, t),
        InlineV::Code(t) => lemma_add_span_text(out, SpanStyle { code: true, ..style }, t),
        InlineV::Super(_) => {},
        InlineV::Sub(_) => {},
        InlineV::Math { tex, .. } => lemma_add_span_text(out, style, flat_atom(spec_parse_tex(tex))),
        InlineV::Image { alt, url } => {
            lemma_add_span_text(out, style, alt);
            let with_alt = if alt.len() > 0 {
                add_span(out, style, alt)
            } else {
                out
            };
            assert(spans_text(with_alt) == spans_text(out) + alt) by {
                if alt.len() == 0 {
                    assert(spans_text(out) + alt =~= spans_text(out));
                }
            }
            lemma_add_span_text(with_alt, style, url_suffix(url));
            if url.len() == 0 {
                assert(url_suffix(url) =~= Seq::<char>::empty());
                assert(spans_text(with_alt) + url_suffix(url) =~= spans_text(with_alt));
            }
            assert(spans_text(out) + alt + url_suffix(url) =~= spans_text(out) + (alt + url_suffix(url)));
        },
        InlineV::Break => lemma_add_span_text(out, style, seq![' ']),
    }
}

proof fn lemma_spans_prefix_text(out: Seq<SpanV>, v: Seq<InlineV>, n: int, style: SpanStyle)
    requires
        all_read_as_spans(v, n),
    ensures
        spans_text(spans_prefix(out, v, n, style)) == spans_text(out) + flat_prefix(v, n),
    decreases v, n,
{
    if 0 < n <= v.len() {
        lemma_spans_prefix_text(out, v, n - 1, style);
        assert(decreases_to!(v => v[n - 1]));
        lemma_spans_one_text(spans_prefix(out, v, n - 1, style), v[n - 1], style);
        assert(spans_text(out) + flat_prefix(v, n - 1) + flat_inline(v[n - 1]) =~= spans_text(out) + (flat_prefix(
            v,
            n - 1,
        ) + flat_inline(v[n - 1])));
    } else {
        assert(spans_text(out) + flat_prefix(v, n) =~= spans_text(out));
    }
}

/// Where no link carries a destination and no superscript or subscript
/// occurs, the styled spans read exactly as the flattened plain text.
pub proof fn lemma_spans_read_as_flat(v: Seq<InlineV>)
    requires
        all_read_as_spans(v, v.len() as int),
    ensures
        spans_text(spec_spans(v)) == flat(v),
{
    lemma_spans_prefix_text(Seq::empty(), v, v.len() as int, plain_style());
    assert(spans_text(Seq::<SpanV>::empty()) + flat(v) =~= flat(v));
}

/// Whether an inline holds no struck-through text that its spans show
/// (superscripts and subscripts show their text flattened, unstyled).
pub open spec fn strike_free(x: InlineV) -> bool
    decreases x,
{
    match x {
        InlineV::Strike(_) => false,
        InlineV::Emph(v) => all_strike_free(v, v.len() as int),
        InlineV::Strong(v) => all_strike_free(v, v.len() as int),
        InlineV::Mark(v) => all_strike_free(v, v.len() as int),
        InlineV::Insert(v) => all_strike_free(v, v.len() as int),
        InlineV::Link { label, .. } => all_strike_free(label, label.len() as int),
        _ => true,
    }
}

/// [`strike_free`] of each of the first `n` inlines of `v`.
pub open spec fn all_strike_free(v: Seq<InlineV>, n: int) -> bool
    decreases v, n,
{
    if 0 < n <= v.len() {
        all_strike_free(v, n - 1) && strike_free(v[n - 1])
    } else {
        true
    }
}

/// Every span is struck through (`on`), or none is (`!on`).
pub open spec fn all_struck(out: Seq<SpanV>, on: bool) -> bool {
    forall|k: int| 0 <= k < out.len() ==> (#[trigger] out[k]).style.strike == on
}

proof fn lemma_add_span_struck(out: Seq<SpanV>, style: SpanStyle, text: Seq<char>)
    requires
        all_struck(out, style.strike),
    ensures
        all_struck(add_span(out, style, text), style.strike),
{
    let r = add_span(out, style, text);
    assert forall|k: int| 0 <= k < r.len() implies (#[trigger] r[k]).style.strike == style.strike by {
        if k < out.len() && !(text.len() > 0 && out.len() > 0 && out.last().style == style && k == out.len() - 1) {
            assert(r[k] == out[k]);
        }
    }
}

proof fn lemma_spans_one_struck(out: Seq<SpanV>, x: InlineV, style: SpanStyle)
    requires
        all_struck(out, style.strike),
        style.strike || strike_free(x),
    ensures
        all_struck(spans_one(out, x, style), style.strike),
    decreases x,
{
    match x {
        InlineV::Emph(v) => lemma_spans_prefix_struck(out, v, v.len() as int, SpanStyle { italic: true, ..style }),
        InlineV::Strong(v) => lemma_spans_prefix_struck(out, v, v.len() as int, SpanStyle { bold: true, ..style }),
        InlineV::Strike(v) => lemma_spans_prefix_struck(out, v, v.len() as int, SpanStyle { strike: true, ..style }),
        InlineV::Mark(v) => lemma_spans_prefix_struck(out, v, v.len() as int, SpanStyle { mark: true, ..style }),
        InlineV::Insert(v) => lemma_spans_prefix_struck(out, v, v.len() as int, SpanStyle { insert: true, ..style }),
        InlineV::Link { label, .. } => lemma_spans_prefix_struck(
            out,
            label,
            label.len() as int,
            SpanStyle { link: true, ..style },
        ),
        InlineV::Text(t) => lemma_add_span_struck(out, style, t),
        InlineV::Code(t) => lemma_add_span_struck(out, SpanStyle { code: true, ..style }, t),
        InlineV::Super(v) => lemma_add_span_struck(out, style, script_text(flat(v), true)),
        InlineV::Sub(v) => lemma_add_span_struck(out, style, script_text(flat(v), false)),
        InlineV::Math { tex, .. } => lemma_add_span_struck(out, style, flat_atom(spec_parse_tex(tex))),
        InlineV::Image { alt, url } => {
            lemma_add_span_struck(out, style, alt);
            let with_alt = if alt.len() > 0 {
                add_span(out, style, alt)
            } else {
                out
            };
            lemma_add_span_struck(with_alt, style, url_suffix(url));
        },
        InlineV::Break => lemma_add_span_struck(out, style, seq![' ']),
    }
}

proof fn lemma_spans_prefix_struck(out: Seq<SpanV>, v: Seq<InlineV>, n: int, style: SpanStyle)
    requires
        all_struck(out, style.strike),
        style.strike || all_strike_free(v, n),
    ensures
        all_struck(spans_prefix(out, v, n, style), style.strike),
    decreases v, n,
{
    if 0 < n <= v.len() {
        lemma_spans_prefix_struck(out, v, n - 1, style);
        assert(decreases_to!(v => v[n - 1]));
        lemma_spans_one_struck(spans_prefix(out, v, n - 1, style), v[n - 1], style);
    }
}

/// Struck-through text keeps its strike line: every span of the inlines
/// inside a `~~strike~~` has `strike` set, and no span of inlines without
/// one has it.
pub proof fn lemma_strike_spans(v: Seq<InlineV>)
    ensures
        all_struck(spec_spans(seq![InlineV::Strike(v)]), true),
        all_strike_free(v, v.len() as int) ==> all_struck(spec_spans(v), false),
{
    let one = seq![InlineV::Strike(v)];
    assert(one[0] == InlineV::Strike(v));
    assert(spans_prefix(Seq::empty(), one, 0, plain_style()) == Seq::<SpanV>::empty());
    assert(spec_spans(one) == spans_one(Seq::empty(), InlineV::Strike(v), plain_style()));
    assert(spans_one(Seq::empty(), InlineV::Strike(v), plain_style()) == spans_prefix(
        Seq::empty(),
        v,
        v.len() as int,
        SpanStyle { strike: true, ..plain_style() },
    ));
    lemma_spans_prefix_struck(Seq::empty(), v, v.len() as int, SpanStyle { strike: true, ..plain_style() });
    if all_strike_free(v, v.len() as int) {
        lemma_spans_prefix_struck(Seq::empty(), v, v.len() as int, plain_style());
    }
}

/// Flatten inline runs into styled [`Span`]s for rich rendering. Adjacent
/// runs that end up with identical styling are merged into one span.
pub fn spans(inlines: &[Inline]) -> (out: Vec<Span>)
    ensures
        spans_v(out@) == spec_spans(inlines_v(inlines@)),
{
    let mut out: Vec<Span> = Vec::new();
    assert(spans_v(out@) =~= Seq::<SpanV>::empty());
    push_spans(inlines, plain_style_value(), &mut out);
    out
}

fn plain_style_value() -> (s: SpanStyle)
    ensures
        s == plain_style(),
{
    SpanStyle {
        bold: false,
        italic: false,
        strike: false,
        mark: false,
        insert: false,
        code: false,
        link: false,
    }
}

fn same_style(span: &Span, style: SpanStyle) -> (b: bool)
    ensures
        b == (span_v(*span).style == style),
{
    span.bold == style.bold && span.italic == style.italic && span.strike == style.strike
        && span.mark == style.mark && span.insert == style.insert && span.code == style.code
        && span.link == style.link
}

fn push_span(out: &mut Vec<Span>, style: SpanStyle, text: String)
    ensures
        spans_v(final(out)@) == add_span(spans_v(old(out)@), style, text@),
{
    let t = text.as_str();
    if t.unicode_len() == 0 {
        return;
    }
    let n = out.len();
    if n > 0 && same_style(&out[n - 1], style) {
        let mut last = out.pop().unwrap();
        push_str(&mut last.text, t);
        out.push(last);
        assert(spans_v(out@) =~= add_span(spans_v(old(out)@), style, text@));
        return;
    }
    out.push(style.span(text));
    assert(spans_v(out@) =~= add_span(spans_v(old(out)@), style, text@));
}

fn push_spans(inlines: &[Inline], style: SpanStyle, out: &mut Vec<Span>)
    ensures
        spans_v(final(out)@) == spans_prefix(
            spans_v(old(out)@),
            inlines_v(inlines@),
            inlines@.len() as int,
            style,
        ),
    decreases inlines@,
{
    let ghost v = inlines_v(inlines@);
    let ghost start = spans_v(out@);
    let mut i: usize = 0;
    while i < inlines.len()
        invariant
            i <= inlines.len(),
            v == inlines_v(inlines@),
            spans_v(out@) == spans_prefix(start, v, i as int, style),
        decreases inlines.len() - i,
    {
        assert(decreases_to!(inlines@ => inlines@[i as int]));
        let inline = &inlines[i];
        proof {
            lemma_inline_v(*inline);
        }
        let ghost before = spans_v(out@);
        assert(v[i as int] == inline_v(*inline));
        match inline {
            Inline::Text(text) => push_span(out, style, text.clone()),
            Inline::Code(text) => push_span(out, SpanStyle { code: true, ..style }, text.clone()),
            Inline::Emph(inner) => push_spans(inner.as_slice(), SpanStyle { italic: true, ..style }, out),
            Inline::Strong(inner) => push_spans(inner.as_slice(), SpanStyle { bold: true, ..style }, out),
            Inline::Strike(inner) => push_spans(inner.as_slice(), SpanStyle { strike: true, ..style }, out),
            Inline::Mark(inner) => push_spans(inner.as_slice(), SpanStyle { mark: true, ..style }, out),
            Inline::Insert(inner) => push_spans(inner.as_slice(), SpanStyle { insert: true, ..style }, out),
            Inline::Super(inner) => {
                let text = flatten(inner.as_slice());
                push_span(out, style, unicode_script(text.as_str(), true));
            },
            Inline::Sub(inner) => {
                let text = flatten(inner.as_slice());
                push_span(out, style, unicode_script(text.as_str(), false));
            },
            Inline::Math { tex, .. } => push_span(out, style, flatten_tex(tex.as_str())),
            Inline::Link { label, .. } => push_spans(label.as_slice(), SpanStyle { link: true, ..style }, out),
            Inline::Image { alt, url } => {
                if alt.as_str().unicode_len() > 0 {
                    push_span(out, style, alt.clone());
                }
                if url.as_str().unicode_len() > 0 {
                    let mut suffix = String::new();
                    push_url_suffix(&mut suffix, url);
                    assert(suffix@ =~= url_suffix(url@));
                    push_span(out, style, suffix);
                }
            },
            Inline::Break => {
                let mut sp = String::new();
                push_char(&mut sp, ' ');
                assert(sp@ =~= seq![' ']);
                push_span(out, style, sp);
            },
        }
        assert(spans_v(out@) == spans_one(before, v[i as int], style));
        i += 1;
    }
}


// ---------------------------------------------------------------------------
// Front matter and tags
// ---------------------------------------------------------------------------

/// Inside of a `[...]` list, or the text itself when not bracketed.
pub open spec fn tag_body(t: Seq<char>) -> Seq<char> {
    if t.len() >= 2 && t[0] == '[' && t.last() == ']' {
        t.subrange(1, t.len() - 1)
    } else {
        t
    }
}

/// One tag label: trimmed, with surrounding quotes removed.
pub open spec fn tag_of(piece: Seq<char>) -> Seq<char> {
    trim(trim_char(trim_char(trim(piece), '"'), '\''))
}

/// Non-empty labels among the first `n` pieces.
pub open spec fn tags_prefix(pieces: Seq<Seq<char>>, n: int) -> Seq<Seq<char>>
    decreases n,
{
    if 0 < n <= pieces.len() {
        let rest = tags_prefix(pieces, n - 1);
        if tag_of(pieces[n - 1]).len() > 0 {
            rest.push(tag_of(pieces[n - 1]))
        } else {
            rest
        }
    } else {
        Seq::empty()
    }
}

/// Pill labels of a tags value.
pub open spec fn spec_tags(value: Seq<char>) -> Seq<Seq<char>> {
    let pieces = split_from(tag_body(trim(value)), 0, ',');
    tags_prefix(pieces, pieces.len() as int)
}

pub open spec fn strings_v(v: Seq<String>) -> Seq<Seq<char>> {
    Seq::new(v.len(), |i: int| v[i]@)
}

/// Split a YAML/plain tags value into pill labels.
/// Accepts `a, b`, `[a, b]`, and `["a", "b"]`.
pub fn tag_list(value: &str) -> (tags: Vec<String>)
    ensures
        strings_v(tags@) == spec_tags(value@),
{
    let v = chars_of(value);
    let (a, b) = trim_bounds(&v, 0, v.len());
    let ghost t = v@.subrange(a as int, b as int);
    let (from, to) = if b - a >= 2 && v[a] == '[' && v[b - 1] == ']' {
        assert(t.subrange(1, t.len() - 1) =~= v@.subrange(a + 1, b - 1));
        (a + 1, b - 1)
    } else {
        (a, b)
    };
    assert(v@.subrange(0, v@.len() as int) =~= value@);
    let ghost body = v@.subrange(from as int, to as int);
    assert(body == tag_body(trim(value@)));
    let ghost pieces = split_from(body, 0, ',');
    let mut tags: Vec<String> = Vec::new();
    let mut i = from;
    let ghost mut n: int = 0;
    assert(strings_v(tags@) =~= tags_prefix(pieces, 0));
    loop
        invariant_except_break
            from <= i <= to <= v.len(),
            0 <= n,
            pieces == split_from(body, 0, ','),
            body == v@.subrange(from as int, to as int),
            body == tag_body(trim(value@)),
            split_from(body, i - from, ',') == pieces.skip(n),
            n <= pieces.len(),
            strings_v(tags@) == tags_prefix(pieces, n),
        ensures
            pieces == split_from(body, 0, ','),
            body == tag_body(trim(value@)),
            n == pieces.len(),
            strings_v(tags@) == tags_prefix(pieces, n),
        decreases to - i + 1,
    {
        let ghost j = i - from;
        proof {
            lemma_find_char(body, j, ',');
            lemma_find_local(v@, from as int, to as int, i as int, ',');
        }
        let k = find_in(&v, i, to, ',');
        let (p0, p1) = trim_bounds(&v, i, k);
        let (q0, q1) = trim_char_bounds(&v, p0, p1, '"');
        let (r0, r1) = trim_char_bounds(&v, q0, q1, '\'');
        let (s0, s1) = trim_bounds(&v, r0, r1);
        let ghost piece = body.subrange(j, k - from);
        assert(piece =~= v@.subrange(i as int, k as int));
        assert(find_char(body, j, ',') == k - from);
        assert(split_from(body, j, ',')[0] == piece);
        assert(pieces.skip(n).len() > 0);
        assert(pieces[n] == pieces.skip(n)[0]);
        assert(v@.subrange(s0 as int, s1 as int) == tag_of(piece));
        if s1 > s0 {
            tags.push(string_of_range(&v, s0, s1));
        }
        assert(strings_v(tags@) =~= tags_prefix(pieces, n + 1));
        if k < to {
            proof {
                assert(split_from(body, j, ',') == seq![piece] + split_from(body, k - from + 1, ','));
                assert(pieces.skip(n + 1) =~= pieces.skip(n).drop_first());
                n = n + 1;
            }
            i = k + 1;
        } else {
            proof {
                assert(split_from(body, j, ',') == seq![piece]);
                assert(pieces.len() == n + 1);
                n = n + 1;
            }
            break;
        }
    }
    tags
}

// ---------------------------------------------------------------------------
// The three tags forms
// ---------------------------------------------------------------------------

/// Labels joined by `, `.
pub open spec fn join_tags(xs: Seq<Seq<char>>) -> Seq<char>
    decreases xs.len(),
{
    if xs.len() == 0 {
        Seq::empty()
    } else if xs.len() == 1 {
        xs[0]
    } else {
        xs[0] + seq![',', ' '] + join_tags(xs.drop_first())
    }
}

/// A label in double quotes.
pub open spec fn quoted(x: Seq<char>) -> Seq<char> {
    seq!['"'] + x + seq!['"']
}

/// Each label in double quotes.
pub open spec fn quoted_all(xs: Seq<Seq<char>>) -> Seq<Seq<char>> {
    Seq::new(xs.len(), |i: int| quoted(xs[i]))
}

/// Text in square brackets.
pub open spec fn bracketed(s: Seq<char>) -> Seq<char> {
    seq!['['] + s + seq![']']
}

/// A label that every tags form carries unchanged: not empty, no white
/// space at either end, and none of `,` `"` `'` `[` `]`.
pub open spec fn simple_tag(x: Seq<char>) -> bool {
    &&& x.len() > 0
    &&& !is_ws(x[0])
    &&& !is_ws(x.last())
    &&& forall|i: int|
        0 <= i < x.len() ==> #[trigger] x[i] != ',' && x[i] != '"' && x[i] != '\'' && x[i] != '[' && x[i] != ']'
}

pub open spec fn no_comma(s: Seq<char>) -> bool {
    forall|i: int| 0 <= i < s.len() ==> #[trigger] s[i] != ','
}

/// The pieces `p + ys[0]`, ` ys[1]`, ` ys[2]`, ...
pub open spec fn spaced(p: Seq<char>, ys: Seq<Seq<char>>) -> Seq<Seq<char>> {
    Seq::new(ys.len(), |i: int| if i == 0 { p + ys[0] } else { seq![' '] + ys[i] })
}

proof fn lemma_find_at(s: Seq<char>, i: int, m: int, c: char)
    requires
        0 <= i <= m < s.len(),
        s[m] == c,
        forall|k: int| i <= k < m ==> s[k] != c,
    ensures
        find_char(s, i, c) == m,
    decreases m - i,
{
    if i < m {
        lemma_find_at(s, i + 1, m, c);
    }
}

proof fn lemma_find_none(s: Seq<char>, i: int, c: char)
    requires
        0 <= i <= s.len(),
        forall|k: int| i <= k < s.len() ==> s[k] != c,
    ensures
        find_char(s, i, c) == s.len(),
    decreases s.len() - i,
{
    if i < s.len() {
        lemma_find_none(s, i + 1, c);
    }
}

proof fn lemma_find_shift(a: Seq<char>, b: Seq<char>, j: int, c: char)
    requires
        0 <= j <= b.len(),
    ensures
        find_char(a + b, a.len() + j, c) == a.len() + find_char(b, j, c),
    decreases b.len() - j,
{
    if j < b.len() && b[j] != c {
        assert((a + b)[a.len() + j] == b[j]);
        lemma_find_shift(a, b, j + 1, c);
    } else if j < b.len() {
        assert((a + b)[a.len() + j] == b[j]);
    }
}

proof fn lemma_split_shift(a: Seq<char>, b: Seq<char>, j: int, c: char)
    requires
        0 <= j <= b.len(),
    ensures
        split_from(a + b, a.len() + j, c) == split_from(b, j, c),
    decreases b.len() - j,
{
    let s = a + b;
    lemma_find_shift(a, b, j, c);
    lemma_find_char(b, j, c);
    let k = find_char(b, j, c);
    if k < b.len() {
        lemma_split_shift(a, b, k + 1, c);
        assert(s.subrange(a.len() + j, a.len() + k) =~= b.subrange(j, k));
    } else {
        assert(s.subrange(a.len() + j, s.len() as int) =~= b.subrange(j, b.len() as int));
    }
}

proof fn lemma_split_join(p: Seq<char>, ys: Seq<Seq<char>>)
    requires
        ys.len() > 0,
        no_comma(p),
        forall|i: int| 0 <= i < ys.len() ==> no_comma(#[trigger] ys[i]),
    ensures
        split_from(p + join_tags(ys), 0, ',') == spaced(p, ys),
    decreases ys.len(),
{
    let s = p + join_tags(ys);
    let head = p + ys[0];
    assert(no_comma(ys[0]));
    if ys.len() == 1 {
        assert(s == head);
        lemma_find_none(s, 0, ',');
        assert(s.subrange(0, s.len() as int) =~= head);
        assert(spaced(p, ys) =~= seq![head]);
    } else {
        let rest = ys.drop_first();
        let tail = seq![' '] + join_tags(rest);
        let a = head + seq![','];
        assert(s =~= a + tail);
        let m = head.len() as int;
        assert(s[m] == ',');
        lemma_find_at(s, 0, m, ',');
        assert(s.subrange(0, m) =~= head);
        lemma_split_shift(a, tail, 0, ',');
        assert forall|i: int| 0 <= i < rest.len() implies no_comma(#[trigger] rest[i]) by {
            assert(rest[i] == ys[i + 1]);
        }
        assert(no_comma(seq![' ']));
        lemma_split_join(seq![' '], rest);
        assert(seq![head] + spaced(seq![' '], rest) =~= spaced(p, ys));
    }
}

proof fn lemma_join_ends(ys: Seq<Seq<char>>)
    requires
        ys.len() > 0,
        forall|i: int| 0 <= i < ys.len() ==> (#[trigger] ys[i]).len() > 0,
    ensures
        join_tags(ys).len() > 0,
        join_tags(ys)[0] == ys[0][0],
        join_tags(ys).last() == ys.last().last(),
    decreases ys.len(),
{
    assert(ys[0].len() > 0);
    if ys.len() > 1 {
        let rest = ys.drop_first();
        assert forall|i: int| 0 <= i < rest.len() implies (#[trigger] rest[i]).len() > 0 by {
            assert(rest[i] == ys[i + 1]);
        }
        lemma_join_ends(rest);
        assert(rest.last() == ys.last());
    }
}

pub(crate) proof fn lemma_trim_id(s: Seq<char>)
    requires
        s.len() > 0,
        !is_ws(s[0]),
        !is_ws(s.last()),
    ensures
        trim(s) == s,
{
    assert(skip_ws(s, 0) == 0);
    assert(s.skip(0) =~= s);
}

proof fn lemma_trim_space(s: Seq<char>)
    requires
        s.len() > 0,
        !is_ws(s[0]),
        !is_ws(s.last()),
    ensures
        trim(seq![' '] + s) == s,
{
    let t = seq![' '] + s;
    assert(t[1] == s[0]);
    assert(skip_ws(t, 1) == 1);
    assert(skip_ws(t, 0) == 1);
    assert(t.skip(1) =~= s);
}

proof fn lemma_trim_empty()
    ensures
        trim(Seq::<char>::empty()) == Seq::<char>::empty(),
        trim_char(Seq::<char>::empty(), '"') == Seq::<char>::empty(),
        trim_char(Seq::<char>::empty(), '\'') == Seq::<char>::empty(),
{
    assert(Seq::<char>::empty().skip(0) =~= Seq::<char>::empty());
}

proof fn lemma_tag_of_simple(x: Seq<char>)
    requires
        simple_tag(x),
    ensures
        tag_of(x) == x,
        tag_of(seq![' '] + x) == x,
        tag_of(quoted(x)) == x,
        tag_of(seq![' '] + quoted(x)) == x,
{
    assert(x[0] != '"' && x[0] != '\'');
    assert(x[x.len() - 1] != '"' && x[x.len() - 1] != '\'');
    lemma_trim_id(x);
    lemma_trim_space(x);
    assert(trim_char(x, '"') == x);
    assert(trim_char(x, '\'') == x);
    let q = quoted(x);
    assert(!is_ws(q[0]));
    assert(!is_ws(q.last()));
    lemma_trim_id(q);
    lemma_trim_space(q);
    assert(q.drop_first() =~= x + seq!['"']);
    assert((x + seq!['"'])[0] == x[0]);
    assert(trim_start_char(x + seq!['"'], '"') == x + seq!['"']);
    assert(q[0] == '"');
    assert(trim_start_char(q, '"') == trim_start_char(q.drop_first(), '"'));
    assert((x + seq!['"']).drop_last() =~= x);
    assert(trim_end_char(x + seq!['"'], '"') == trim_end_char(x, '"'));
    assert(trim_char(q, '"') == x);
}

proof fn lemma_tags_of(pieces: Seq<Seq<char>>, xs: Seq<Seq<char>>, n: int)
    requires
        pieces.len() == xs.len(),
        0 <= n <= xs.len(),
        forall|i: int| 0 <= i < xs.len() ==> tag_of(#[trigger] pieces[i]) == xs[i] && xs[i].len() > 0,
    ensures
        tags_prefix(pieces, n) == xs.take(n),
    decreases n,
{
    if n > 0 {
        lemma_tags_of(pieces, xs, n - 1);
        assert(tag_of(pieces[n - 1]) == xs[n - 1]);
        assert(xs.take(n - 1).push(xs[n - 1]) =~= xs.take(n));
    } else {
        assert(xs.take(0) =~= Seq::<Seq<char>>::empty());
    }
}

/// The tags of a value whose body is `body`, given how the body splits.
proof fn lemma_tags_of_body(value: Seq<char>, body: Seq<char>, xs: Seq<Seq<char>>, p: Seq<Seq<char>>)
    requires
        tag_body(trim(value)) == body,
        split_from(body, 0, ',') == p,
        p.len() == xs.len(),
        forall|i: int| 0 <= i < xs.len() ==> tag_of(#[trigger] p[i]) == xs[i] && xs[i].len() > 0,
    ensures
        spec_tags(value) == xs,
{
    lemma_tags_of(p, xs, xs.len() as int);
    assert(xs.take(xs.len() as int) =~= xs);
}

/// An empty tags value, bare or bracketed, has no labels.
proof fn lemma_no_tags(value: Seq<char>)
    requires
        value == Seq::<char>::empty() || value == bracketed(Seq::<char>::empty()),
    ensures
        spec_tags(value) == Seq::<Seq<char>>::empty(),
{
    let e = Seq::<char>::empty();
    lemma_trim_empty();
    if value != e {
        lemma_trim_id(value);
        assert(value.subrange(1, value.len() - 1) =~= e);
    }
    assert(tag_body(trim(value)) == e);
    assert(find_char(e, 0, ',') == 0);
    assert(split_from(e, 0, ',') =~= seq![e]);
    assert(e.subrange(0, 0) =~= e);
    assert(tag_of(e) == e);
    let pieces = split_from(e, 0, ',');
    assert(pieces[0] == e);
    assert(tags_prefix(pieces, 0) == Seq::<Seq<char>>::empty());
    assert(tags_prefix(pieces, 1) == tags_prefix(pieces, 0));
}

/// The three accepted tags forms give back the same labels: `a, b`,
/// `[a, b]` and `["a", "b"]` all list exactly `a` and `b`, for labels
/// without white space at their ends and without `,` `"` `'` `[` `]`.
pub proof fn lemma_tag_forms(xs: Seq<Seq<char>>)
    requires
        forall|i: int| 0 <= i < xs.len() ==> simple_tag(#[trigger] xs[i]),
    ensures
        spec_tags(join_tags(xs)) == xs,
        spec_tags(bracketed(join_tags(xs))) == xs,
        spec_tags(bracketed(join_tags(quoted_all(xs)))) == xs,
{
    let e = Seq::<char>::empty();
    if xs.len() == 0 {
        assert(join_tags(xs) == e);
        assert(quoted_all(xs).len() == 0);
        lemma_no_tags(e);
        lemma_no_tags(bracketed(e));
    } else {
        let qs = quoted_all(xs);
        let v = join_tags(xs);
        let w = join_tags(qs);
        assert forall|i: int| 0 <= i < xs.len() implies no_comma(#[trigger] xs[i]) && xs[i].len() > 0 && no_comma(
            qs[i],
        ) && qs[i].len() > 0 && tag_of(spaced(e, xs)[i]) == xs[i] && tag_of(spaced(e, qs)[i]) == xs[i] by {
            assert(simple_tag(xs[i]));
            lemma_tag_of_simple(xs[i]);
            assert(qs[i] == quoted(xs[i]));
            assert forall|k: int| 0 <= k < qs[i].len() implies qs[i][k] != ',' by {
                if 0 < k < qs[i].len() - 1 {
                    assert(qs[i][k] == xs[i][k - 1]);
                }
            }
            if i == 0 {
                assert(e + xs[0] =~= xs[0]);
                assert(e + qs[0] =~= qs[0]);
            }
        }
        assert forall|i: int| 0 <= i < qs.len() implies no_comma(#[trigger] qs[i]) && qs[i].len() > 0 by {
            assert(no_comma(xs[i]));
        }
        assert forall|i: int| 0 <= i < xs.len() implies (#[trigger] xs[i]).len() > 0 by {
            assert(no_comma(xs[i]));
        }
        assert(no_comma(e));
        lemma_split_join(e, xs);
        lemma_split_join(e, qs);
        assert(e + v =~= v);
        assert(e + w =~= w);
        lemma_join_ends(xs);
        lemma_join_ends(qs);
        assert(simple_tag(xs[0]) && simple_tag(xs.last()));
        // the bare form
        lemma_trim_id(v);
        assert(v[0] != '[');
        lemma_tags_of_body(v, v, xs, spaced(e, xs));
        // the bracketed forms
        let bv = bracketed(v);
        let bw = bracketed(w);
        lemma_trim_id(bv);
        lemma_trim_id(bw);
        assert(bv.subrange(1, bv.len() - 1) =~= v);
        assert(bw.subrange(1, bw.len() - 1) =~= w);
        lemma_tags_of_body(bv, v, xs, spaced(e, xs));
        lemma_tags_of_body(bw, w, xs, spaced(e, qs));
    }
}

/// `find_char` on a window of `v` is `find_char` on the window's text.
pub proof fn lemma_find_local(v: Seq<char>, from: int, to: int, i: int, c: char)
    requires
        0 <= from <= i <= to <= v.len(),
    ensures
        find_char(v.subrange(from, to), i - from, c) + from == find_window(v, i, to, c),
    decreases to - i,
{
    let w = v.subrange(from, to);
    if i < to && v[i] != c {
        lemma_find_local(v, from, to, i + 1, c);
    }
}

/// First `c` in `v[i..to]`, or `to`.
pub open spec fn find_window(v: Seq<char>, i: int, to: int, c: char) -> int
    decreases to - i,
{
    if i < to && v[i] != c {
        find_window(v, i + 1, to, c)
    } else {
        i
    }
}

/// Position of the first `c` in `v[i..to]`, or `to`.
pub fn find_in(v: &Vec<char>, i: usize, to: usize, c: char) -> (k: usize)
    requires
        i <= to <= v.len(),
    ensures
        k == find_window(v@, i as int, to as int, c),
        i <= k <= to,
        k < to ==> v@[k as int] == c,
{
    let mut k = i;
    while k < to && v[k] != c
        invariant
            i <= k <= to <= v.len(),
            find_window(v@, i as int, to as int, c) == find_window(v@, k as int, to as int, c),
        decreases to - k,
    {
        k += 1;
    }
    k
}

/// The `(key, value)` a front-matter line holds, if any: blank lines and
/// `#` comments hold none, nor do lines without a colon.
pub open spec fn front_matter_pair(line: Seq<char>) -> Option<(Seq<char>, Seq<char>)> {
    let l = trim(line);
    if l.len() == 0 || l[0] == '#' {
        None
    } else {
        let k = find_char(l, 0, ':');
        if k < l.len() {
            Some((trim(l.subrange(0, k)), trim(l.subrange(k + 1, l.len() as int))))
        } else {
            None
        }
    }
}

/// Pairs of the first `n` lines.
pub open spec fn front_matter_prefix(ls: Seq<Seq<char>>, n: int) -> Seq<(Seq<char>, Seq<char>)>
    decreases n,
{
    if 0 < n <= ls.len() {
        match front_matter_pair(ls[n - 1]) {
            Some(p) => front_matter_prefix(ls, n - 1).push(p),
            None => front_matter_prefix(ls, n - 1),
        }
    } else {
        Seq::empty()
    }
}

/// `key: value` pairs of a front-matter block.
pub open spec fn spec_front_matter(raw: Seq<char>) -> Seq<(Seq<char>, Seq<char>)> {
    front_matter_prefix(lines(raw), lines(raw).len() as int)
}

pub open spec fn pairs_v(v: Seq<(String, String)>) -> Seq<(Seq<char>, Seq<char>)> {
    Seq::new(v.len(), |i: int| (v[i].0@, v[i].1@))
}

/// Parse `key: value` lines of front matter.
pub fn parse_front_matter(raw: &str) -> (pairs: Vec<(String, String)>)
    ensures
        pairs_v(pairs@) == spec_front_matter(raw@),
{
    let text = chars_of(raw);
    let ls = split_lines(&text);
    let ghost lv = lines(raw@);
    let mut pairs: Vec<(String, String)> = Vec::new();
    let mut i: usize = 0;
    assert(pairs_v(pairs@) =~= front_matter_prefix(lv, 0));
    while i < ls.len()
        invariant
            i <= ls.len(),
            lv == lines(raw@),
            text@ == raw@,
            ls@.len() == lv.len(),
            forall|k: int| 0 <= k < ls@.len() ==> #[trigger] ls@[k]@ == lv[k],
            pairs_v(pairs@) == front_matter_prefix(lv, i as int),
        decreases ls.len() - i,
    {
        let line = &ls[i];
        assert(line@ == lv[i as int]);
        assert(line@.subrange(0, line@.len() as int) =~= line@);
        let (a, b) = trim_bounds(line, 0, line.len());
        let ghost l = line@.subrange(a as int, b as int);
        if b > a && line[a] != '#' {
            let k = find_in(line, a, b, ':');
            proof {
                lemma_find_local(line@, a as int, b as int, a as int, ':');
            }
            if k < b {
                let (k0, k1) = trim_bounds(line, a, k);
                let (v0, v1) = trim_bounds(line, k + 1, b);
                assert(l.subrange(0, k - a) =~= line@.subrange(a as int, k as int));
                assert(l.subrange(k - a + 1, l.len() as int) =~= line@.subrange(k + 1, b as int));
                pairs.push((string_of_range(line, k0, k1), string_of_range(line, v0, v1)));
            }
        }
        assert(pairs_v(pairs@) =~= front_matter_prefix(lv, i + 1));
        i += 1;
    }
    pairs
}


// ---------------------------------------------------------------------------
// Block identity
// ---------------------------------------------------------------------------

/// The first line of `s` (empty when `s` has none).
pub open spec fn first_line(s: Seq<char>) -> Seq<char> {
    if lines(s).len() > 0 {
        lines(s)[0]
    } else {
        Seq::empty()
    }
}

/// Longest prefix of `t` that fits in 64 bytes of UTF-8.
pub open spec fn truncated(t: Seq<char>) -> Seq<char> {
    t.take(fit_end(t, 0, 64))
}

pub open spec fn bool_text(b: bool) -> Seq<char> {
    if b {
        seq!['t', 'r', 'u', 'e']
    } else {
        seq!['f', 'a', 'l', 's', 'e']
    }
}

/// `parts[..n]` joined with `sep`.
pub open spec fn join_prefix(parts: Seq<Seq<char>>, sep: Seq<char>, n: int) -> Seq<char>
    decreases n,
{
    if n <= 0 || n > parts.len() {
        Seq::empty()
    } else if n == 1 {
        parts[0]
    } else {
        join_prefix(parts, sep, n - 1) + sep + parts[n - 1]
    }
}

pub open spec fn join(parts: Seq<Seq<char>>, sep: Seq<char>) -> Seq<char> {
    join_prefix(parts, sep, parts.len() as int)
}

/// Flat text of each cell of a row.
pub open spec fn flat_cells(row: Seq<Seq<InlineV>>) -> Seq<Seq<char>> {
    Seq::new(row.len(), |i: int| flat(row[i]))
}

/// Index of the first paragraph among `blocks[i..]`, or `blocks.len()`.
pub open spec fn first_paragraph(blocks: Seq<BlockV>, i: int) -> int
    decreases blocks.len() - i,
{
    if 0 <= i < blocks.len() && !(blocks[i] is Paragraph) {
        first_paragraph(blocks, i + 1)
    } else {
        i
    }
}

/// Truncated text of an item's first paragraph (empty when it has none).
pub open spec fn item_key_line(item: ListItemV) -> Seq<char> {
    let k = first_paragraph(item.blocks, 0);
    if 0 <= k < item.blocks.len() {
        truncated(flat(item.blocks[k]->Paragraph_0))
    } else {
        Seq::empty()
    }
}

/// Content-derived identity for a block.
pub open spec fn key_of(b: BlockV) -> Seq<char>
    decreases b,
{
    match b {
        BlockV::Heading { level, text } => seq!['h'] + decimal(level as nat) + seq![':'] + flat(text),
        BlockV::Paragraph(t) => seq!['p', ':'] + truncated(flat(t)),
        BlockV::Code { language, text } => seq!['c', ':'] + language + seq![':'] + first_line(text),
        BlockV::Quote(inner) => seq!['q', ':'] + if inner.len() > 0 {
            key_of(inner[0])
        } else {
            Seq::empty()
        },
        BlockV::List { ordered, items, .. } => seq!['l', ':'] + bool_text(ordered) + seq![':']
            + if items.len() > 0 {
            item_key_line(items[0])
        } else {
            Seq::empty()
        },
        BlockV::Table { header, .. } => seq!['t', ':'] + join(flat_cells(header), seq!['|']),
        BlockV::Rule => seq!['-', '-', '-'],
    }
}

fn truncate(text: &String) -> (t: String)
    ensures
        t@ == truncated(text@),
{
    let cs = chars_of(text.as_str());
    let mut i: usize = 0;
    let mut budget: usize = 64;
    proof {
        lemma_fit_end(cs@, 0, 64);
    }
    while i < cs.len() && char_width(cs[i]) <= budget
        invariant
            i <= cs.len(),
            cs@ == text@,
            fit_end(cs@, 0, 64) == fit_end(cs@, i as int, budget as int),
        decreases cs.len() - i,
    {
        budget -= char_width(cs[i]);
        i += 1;
    }
    assert(cs@.subrange(0, i as int) =~= cs@.take(i as int));
    string_of_range(&cs, 0, i)
}

fn push_first_line(out: &mut String, text: &String)
    ensures
        final(out)@ == old(out)@ + first_line(text@),
{
    let cs = chars_of(text.as_str());
    proof {
        lemma_find_char(cs@, 0, '\n');
    }
    if cs.len() == 0 {
        assert(first_line(text@) =~= Seq::<char>::empty());
        assert(old(out)@ + first_line(text@) =~= old(out)@);
        return;
    }
    let k = find_char_from(&cs, 0, '\n');
    let mut end = k;
    if k < cs.len() && k > 0 && cs[k - 1] == '\r' {
        end = k - 1;
    }
    assert(first_line(text@) =~= cs@.subrange(0, end as int));
    let line = string_of_range(&cs, 0, end);
    push_str(out, line.as_str());
}

fn push_item_line(out: &mut String, item: &ListItem)
    ensures
        final(out)@ == old(out)@ + item_key_line(item_v(*item)),
{
    let ghost bs = blocks_v(item.blocks@);
    let mut i: usize = 0;
    while i < item.blocks.len()
        invariant
            i <= item.blocks.len(),
            bs == blocks_v(item.blocks@),
            out@ == old(out)@,
            first_paragraph(bs, 0) == first_paragraph(bs, i as int),
        decreases item.blocks.len() - i,
    {
        if let Block::Paragraph(lines) = &item.blocks[i] {
            assert(bs[i as int] is Paragraph);
            assert(bs[i as int]->Paragraph_0 == inlines_v(lines@));
            let t = truncate(&flatten(lines.as_slice()));
            push_str(out, t.as_str());
            assert(first_paragraph(bs, i as int) == i);
            return;
        }
        i += 1;
    }
    assert(first_paragraph(bs, i as int) == i);
    assert(item_key_line(item_v(*item)) =~= Seq::<char>::empty());
    assert(old(out)@ + item_key_line(item_v(*item)) =~= old(out)@);
}

/// Content-derived identity for a block. Keys survive edits elsewhere in
/// the file and drive scroll retention across reloads.
pub fn block_key(block: &Block) -> (key: String)
    ensures
        key@ == key_of(block_v(*block)),
    decreases *block,
{
    proof {
        lemma_block_v(*block);
    }
    let mut out = String::new();
    match block {
        Block::Heading { level, text } => {
            push_char(&mut out, 'h');
            push_decimal(&mut out, *level as usize);
            push_char(&mut out, ':');
            push_str(&mut out, flatten(text.as_slice()).as_str());
        },
        Block::Paragraph(lines) => {
            push_char(&mut out, 'p');
            push_char(&mut out, ':');
            push_str(&mut out, truncate(&flatten(lines.as_slice())).as_str());
        },
        Block::Code { language, text } => {
            push_char(&mut out, 'c');
            push_char(&mut out, ':');
            push_str(&mut out, language.as_str());
            push_char(&mut out, ':');
            push_first_line(&mut out, text);
        },
        Block::Quote(inner) => {
            push_char(&mut out, 'q');
            push_char(&mut out, ':');
            if inner.len() > 0 {
                assert(decreases_to!(*block => inner@[0]));
                push_str(&mut out, block_key(&inner[0]).as_str());
            }
        },
        Block::List { ordered, items, .. } => {
            push_char(&mut out, 'l');
            push_char(&mut out, ':');
            if *ordered {
                push_chars(&mut out, &['t', 'r', 'u', 'e']);
            } else {
                push_chars(&mut out, &['f', 'a', 'l', 's', 'e']);
            }
            push_char(&mut out, ':');
            if items.len() > 0 {
                push_item_line(&mut out, &items[0]);
            }
        },
        Block::Table { header, .. } => {
            push_char(&mut out, 't');
            push_char(&mut out, ':');
            let ghost cells = flat_cells(row_v(header@));
            let ghost start = out@;
            let mut i: usize = 0;
            while i < header.len()
                invariant
                    i <= header.len(),
                    cells == flat_cells(row_v(header@)),
                    out@ == start + join_prefix(cells, seq!['|'], i as int),
                decreases header.len() - i,
            {
                if i > 0 {
                    push_char(&mut out, '|');
                }
                push_str(&mut out, flatten(header[i].as_slice()).as_str());
                assert(start + join_prefix(cells, seq!['|'], i + 1) =~= out@);
                i += 1;
            }
        },
        Block::Rule => {
            push_chars(&mut out, &['-', '-', '-']);
        },
    }
    assert(out@ =~= key_of(block_v(*block)));
    out
}


// ---------------------------------------------------------------------------
// Copies
// ---------------------------------------------------------------------------

/// A copy of an inline with the same value.
pub fn clone_inline(x: &Inline) -> (r: Inline)
    ensures
        inline_v(r) == inline_v(*x),
    decreases *x,
{
    proof {
        lemma_inline_v(*x);
    }
    let r = match x {
        Inline::Text(t) => Inline::Text(t.clone()),
        Inline::Code(t) => Inline::Code(t.clone()),
        Inline::Emph(v) => Inline::Emph(clone_inlines(v.as_slice())),
        Inline::Strong(v) => Inline::Strong(clone_inlines(v.as_slice())),
        Inline::Strike(v) => Inline::Strike(clone_inlines(v.as_slice())),
        Inline::Mark(v) => Inline::Mark(clone_inlines(v.as_slice())),
        Inline::Insert(v) => Inline::Insert(clone_inlines(v.as_slice())),
        Inline::Link { label, url } => Inline::Link { label: clone_inlines(label.as_slice()), url: url.clone() },
        Inline::Image { alt, url } => Inline::Image { alt: alt.clone(), url: url.clone() },
        Inline::Math { display, tex } => Inline::Math { display: *display, tex: tex.clone() },
        Inline::Super(v) => Inline::Super(clone_inlines(v.as_slice())),
        Inline::Sub(v) => Inline::Sub(clone_inlines(v.as_slice())),
        Inline::Break => Inline::Break,
    };
    proof {
        lemma_inline_v(r);
    }
    r
}

/// A copy of a run of inlines with the same value.
pub fn clone_inlines(v: &[Inline]) -> (r: Vec<Inline>)
    ensures
        inlines_v(r@) == inlines_v(v@),
    decreases v@,
{
    let mut r: Vec<Inline> = Vec::new();
    let mut i: usize = 0;
    while i < v.len()
        invariant
            i <= v.len(),
            inlines_v(r@) =~= inlines_v(v@).take(i as int),
        decreases v.len() - i,
    {
        assert(decreases_to!(v@ => v@[i as int]));
        let x = clone_inline(&v[i]);
        let ghost old_r = r@;
        r.push(x);
        assert(inlines_v(r@) =~= inlines_v(old_r).push(inline_v(x)));
        assert(inlines_v(v@).take(i + 1) =~= inlines_v(v@).take(i as int).push(inline_v(v@[i as int])));
        i += 1;
    }
    assert(inlines_v(v@).take(v@.len() as int) =~= inlines_v(v@));
    r
}

/// A copy of a table row with the same value.
pub fn clone_row(v: &Vec<Vec<Inline>>) -> (r: Vec<Vec<Inline>>)
    ensures
        row_v(r@) == row_v(v@),
{
    let mut r: Vec<Vec<Inline>> = Vec::new();
    let mut i: usize = 0;
    while i < v.len()
        invariant
            i <= v.len(),
            row_v(r@) =~= row_v(v@).take(i as int),
        decreases v.len() - i,
    {
        let x = clone_inlines(v[i].as_slice());
        let ghost old_r = r@;
        r.push(x);
        assert(row_v(r@) =~= row_v(old_r).push(inlines_v(x@)));
        assert(row_v(v@).take(i + 1) =~= row_v(v@).take(i as int).push(inlines_v(v@[i as int]@)));
        i += 1;
    }
    assert(row_v(v@).take(v@.len() as int) =~= row_v(v@));
    r
}

/// A copy of the alignments.
pub fn clone_aligns(v: &Vec<Align>) -> (r: Vec<Align>)
    ensures
        r@ == v@,
{
    let mut r: Vec<Align> = Vec::new();
    let mut i: usize = 0;
    while i < v.len()
        invariant
            i <= v.len(),
            r@ =~= v@.take(i as int),
        decreases v.len() - i,
    {
        r.push(v[i]);
        i += 1;
    }
    assert(v@.take(v@.len() as int) =~= v@);
    r
}

} // verus!
