//! From comrak's syntax tree to the document model.
//!
//! Paragraph-like blocks become runs of inlines; wrapping HTML tags
//! (`<mark>`, `<u>`/`<ins>`, `<sub>`, `<sup>`, `<kbd>`) wrap the sibling
//! inlines between them; unknown inline nodes are flattened so no text is
//! lost; unknown blocks are skipped.

use vstd::prelude::*;
use crate::ast::{
    build_tree, events_v, kind_v, lemma_node_v, node_v, nodes_v, options_v, parse_tree, read_events,
    tree_of, Event, EventV, MdNode, MdNodeV, NodeKind, NodeKindV, ParseOptions, ParseOptionsV,
};
use crate::markdown::{
    block_v, blocks_v, document_v, flat, flatten, inline_v, inlines_v, item_v, items_v, lemma_block_v,
    lemma_inline_v, pairs_v, parse_front_matter, row_v, spec_front_matter, Block, BlockV, Document,
    DocumentV, Inline, InlineV, ListItem, ListItemV,
};
use crate::text::{
    chars_of, first_word, first_word_of, lowercase, string_of_range, to_lowercase, trim, trim_bounds,
};

verus! {

/// An HTML tag that wraps the inlines up to its closing tag.
#[derive(Debug, Clone, Copy, PartialEq, Eq, Structural)]
pub enum HtmlWrap {
    Mark,
    Underline,
    Sub,
    Sup,
    Kbd,
}

/// `c` in lower case when it is an ASCII capital.
pub open spec fn ascii_lower_char(c: char) -> char {
    if 'A' <= c && c <= 'Z' {
        ((c as u32) + 32) as char
    } else {
        c
    }
}

/// `str::to_ascii_lowercase`.
pub open spec fn ascii_lower(s: Seq<char>) -> Seq<char> {
    Seq::new(s.len(), |i: int| ascii_lower_char(s[i]))
}

/// The wrap an (already lower-cased) opening tag starts.
pub open spec fn html_open(tag: Seq<char>) -> Option<HtmlWrap> {
    if tag == "<mark>"@ {
        Some(HtmlWrap::Mark)
    } else if tag == "<u>"@ || tag == "<ins>"@ {
        Some(HtmlWrap::Underline)
    } else if tag == "<sub>"@ {
        Some(HtmlWrap::Sub)
    } else if tag == "<sup>"@ {
        Some(HtmlWrap::Sup)
    } else if tag == "<kbd>"@ {
        Some(HtmlWrap::Kbd)
    } else {
        None
    }
}

/// Whether an (already lower-cased) tag closes one of the wraps.
pub open spec fn html_close(tag: Seq<char>) -> bool {
    ||| tag == "</mark>"@
    ||| tag == "</u>"@
    ||| tag == "</ins>"@
    ||| tag == "</sub>"@
    ||| tag == "</sup>"@
    ||| tag == "</kbd>"@
}

/// The inline a closed wrap makes of its runs.
pub open spec fn wrapped(kind: HtmlWrap, inner: Seq<InlineV>) -> InlineV {
    match kind {
        HtmlWrap::Mark => InlineV::Mark(inner),
        HtmlWrap::Underline => InlineV::Insert(inner),
        HtmlWrap::Sub => InlineV::Sub(inner),
        HtmlWrap::Sup => InlineV::Super(inner),
        HtmlWrap::Kbd => InlineV::Code(flat(inner)),
    }
}

/// An open wrap (or the outermost run, `None`) and the runs gathered in it.
pub type FrameV = (Option<HtmlWrap>, Seq<InlineV>);

/// `runs` appended to the top frame.
pub open spec fn append_top(frames: Seq<FrameV>, runs: Seq<InlineV>) -> Seq<FrameV> {
    if frames.len() == 0 {
        frames
    } else {
        frames.update(frames.len() - 1, (frames.last().0, frames.last().1 + runs))
    }
}

/// The top frame closed into its parent: wrapped, or spliced in when it
/// has no wrap.
pub open spec fn close_frame(frames: Seq<FrameV>) -> Seq<FrameV> {
    if frames.len() == 0 {
        frames
    } else {
        let (kind, inner) = frames.last();
        let rest = frames.drop_last();
        match kind {
            Some(k) => append_top(rest, seq![wrapped(k, inner)]),
            None => append_top(rest, inner),
        }
    }
}

/// Every frame but the outermost closed.
pub open spec fn close_all(frames: Seq<FrameV>) -> Seq<FrameV>
    decreases frames.len(),
{
    if frames.len() > 1 {
        close_all(close_frame(frames))
    } else {
        frames
    }
}

/// An inline HTML tag: opening tags push a frame, closing tags close the
/// top one (never the outermost).
pub open spec fn apply_tag(tag: Seq<char>, frames: Seq<FrameV>) -> Seq<FrameV> {
    let lower = ascii_lower(trim(tag));
    match html_open(lower) {
        Some(k) => frames.push((Some(k), Seq::empty())),
        None => if html_close(lower) && frames.len() > 1 {
            close_frame(frames)
        } else {
            frames
        },
    }
}

/// Frames after the first `k` children of a paragraph-like node.
pub open spec fn frames_after(ns: Seq<MdNodeV>, k: int) -> Seq<FrameV>
    decreases ns, 1int, k,
{
    if k <= 0 || k > ns.len() {
        seq![(None::<HtmlWrap>, Seq::<InlineV>::empty())]
    } else {
        let frames = frames_after(ns, k - 1);
        match ns[k - 1].kind {
            NodeKindV::HtmlInline(tag) => apply_tag(tag, frames),
            _ => append_top(frames, collect(ns[k - 1])),
        }
    }
}

/// The runs of inlines the children `ns` make.
pub open spec fn node_inlines(ns: Seq<MdNodeV>) -> Seq<InlineV>
    decreases ns, 2int, 0int,
{
    let frames = close_all(frames_after(ns, ns.len() as int));
    if frames.len() > 0 {
        frames[0].1
    } else {
        Seq::empty()
    }
}

/// The inlines one node contributes; unknown nodes contribute their
/// children's.
pub open spec fn collect(n: MdNodeV) -> Seq<InlineV>
    decreases n, 3int, 0int,
{
    match n.kind {
        NodeKindV::Text(t) => seq![InlineV::Text(t)],
        NodeKindV::Code(c) => seq![InlineV::Code(c)],
        NodeKindV::Emph => seq![InlineV::Emph(node_inlines(n.children))],
        NodeKindV::Strong => seq![InlineV::Strong(node_inlines(n.children))],
        NodeKindV::Strikethrough => seq![InlineV::Strike(node_inlines(n.children))],
        NodeKindV::Highlight => seq![InlineV::Mark(node_inlines(n.children))],
        NodeKindV::Insert => seq![InlineV::Insert(node_inlines(n.children))],
        NodeKindV::Superscript => seq![InlineV::Super(node_inlines(n.children))],
        NodeKindV::Math { display, literal } => seq![InlineV::Math { display, tex: trim(literal) }],
        NodeKindV::Link(url) => seq![InlineV::Link { label: node_inlines(n.children), url }],
        NodeKindV::Image(url) => seq![InlineV::Image { alt: plain_text(n.children, n.children.len() as int), url }],
        NodeKindV::SoftBreak | NodeKindV::LineBreak => seq![InlineV::Break],
        _ => collect_prefix(n.children, n.children.len() as int),
    }
}

/// The inlines of the first `k` of `ns`, in order.
pub open spec fn collect_prefix(ns: Seq<MdNodeV>, k: int) -> Seq<InlineV>
    decreases ns, 2int, k,
{
    if k <= 0 || k > ns.len() {
        Seq::empty()
    } else {
        collect_prefix(ns, k - 1) + collect(ns[k - 1])
    }
}

/// Text and code of the first `k` of `ns` and their descendants (image
/// alt text).
pub open spec fn plain_text(ns: Seq<MdNodeV>, k: int) -> Seq<char>
    decreases ns, k,
{
    if k <= 0 || k > ns.len() {
        Seq::empty()
    } else {
        plain_text(ns, k - 1) + match ns[k - 1].kind {
            NodeKindV::Text(t) => t,
            NodeKindV::Code(c) => c,
            _ => plain_text(ns[k - 1].children, ns[k - 1].children.len() as int),
        }
    }
}

/// There is always an outermost frame.
pub proof fn lemma_frames_after_len(ns: Seq<MdNodeV>, k: int)
    ensures
        frames_after(ns, k).len() >= 1,
    decreases k,
{
    if 0 < k <= ns.len() {
        lemma_frames_after_len(ns, k - 1);
    }
}

/// Closing all frames leaves only the outermost.
pub proof fn lemma_close_all_len(frames: Seq<FrameV>)
    requires
        frames.len() >= 1,
    ensures
        close_all(frames).len() == 1,
    decreases frames.len(),
{
    if frames.len() > 1 {
        lemma_close_all_len(close_frame(frames));
    }
}

// ---------------------------------------------------------------------------
// Inline runs, executable
// ---------------------------------------------------------------------------

/// `v[from..to]` with ASCII capitals lowered.
pub(crate) fn ascii_lowercase(v: &Vec<char>, from: usize, to: usize) -> (r: Vec<char>)
    requires
        from <= to <= v.len(),
    ensures
        r@ == ascii_lower(v@.subrange(from as int, to as int)),
{
    let mut r: Vec<char> = Vec::new();
    let mut i = from;
    while i < to
        invariant
            from <= i <= to <= v.len(),
            r@ =~= ascii_lower(v@.subrange(from as int, i as int)),
        decreases to - i,
    {
        let c = v[i];
        let l = if 'A' <= c && c <= 'Z' {
            ((c as u8) + 32) as char
        } else {
            c
        };
        proof {
            if 'A' <= c && c <= 'Z' {
                assert((c as u8) as int == c as u32 as int);
            }
        }
        r.push(l);
        assert(ascii_lower(v@.subrange(from as int, i + 1)) =~= ascii_lower(v@.subrange(from as int, i as int)).push(l));
        i += 1;
    }
    r
}

/// Whether `v` is exactly `word`.
fn is_word(v: &Vec<char>, word: &str) -> (b: bool)
    ensures
        b == (v@ == word@),
{
    let w = chars_of(word);
    let b = crate::text::range_is(v, 0, v.len(), w.as_slice());
    assert(v@.subrange(0, v@.len() as int) =~= v@);
    b
}

fn open_tag(tag: &Vec<char>) -> (r: Option<HtmlWrap>)
    ensures
        r == html_open(tag@),
{
    if is_word(tag, "<mark>") {
        Some(HtmlWrap::Mark)
    } else if is_word(tag, "<u>") || is_word(tag, "<ins>") {
        Some(HtmlWrap::Underline)
    } else if is_word(tag, "<sub>") {
        Some(HtmlWrap::Sub)
    } else if is_word(tag, "<sup>") {
        Some(HtmlWrap::Sup)
    } else if is_word(tag, "<kbd>") {
        Some(HtmlWrap::Kbd)
    } else {
        None
    }
}

fn close_tag(tag: &Vec<char>) -> (b: bool)
    ensures
        b == html_close(tag@),
{
    is_word(tag, "</mark>") || is_word(tag, "</u>") || is_word(tag, "</ins>") || is_word(tag, "</sub>")
        || is_word(tag, "</sup>") || is_word(tag, "</kbd>")
}

/// An open wrap and the inlines gathered in it.
type Frame = (Option<HtmlWrap>, Vec<Inline>);

pub open spec fn frames_v(v: Seq<(Option<HtmlWrap>, Vec<Inline>)>) -> Seq<FrameV> {
    Seq::new(v.len(), |i: int| (v[i].0, inlines_v(v[i].1@)))
}

/// Appends `runs` to the top frame.
fn append_to_top(frames: &mut Vec<Frame>, runs: Vec<Inline>)
    ensures
        frames_v(final(frames)@) == append_top(frames_v(old(frames)@), inlines_v(runs@)),
{
    if frames.len() == 0 {
        return;
    }
    let ghost before = frames_v(frames@);
    let ghost r0 = runs@;
    let mut runs = runs;
    let (kind, mut inner) = frames.pop().unwrap();
    let ghost inner0 = inner@;
    inner.append(&mut runs);
    assert(inlines_v(inner@) =~= inlines_v(inner0) + inlines_v(r0));
    frames.push((kind, inner));
    assert(frames_v(frames@) =~= append_top(before, inlines_v(r0)));
}

/// Closes the top frame into its parent.
fn close_html_frame(frames: &mut Vec<Frame>)
    ensures
        frames_v(final(frames)@) == close_frame(frames_v(old(frames)@)),
{
    if frames.len() == 0 {
        return;
    }
    let ghost before = frames_v(frames@);
    let (kind, inner) = frames.pop().unwrap();
    proof {
        assert(frames_v(frames@) =~= before.drop_last());
    }
    match kind {
        Some(k) => {
            let w = match k {
                HtmlWrap::Mark => Inline::Mark(inner),
                HtmlWrap::Underline => Inline::Insert(inner),
                HtmlWrap::Sub => Inline::Sub(inner),
                HtmlWrap::Sup => Inline::Super(inner),
                HtmlWrap::Kbd => Inline::Code(flatten(inner.as_slice())),
            };
            proof {
                lemma_inline_v(w);
                assert(inline_v(w) == wrapped(k, before.last().1));
            }
            let mut runs: Vec<Inline> = Vec::new();
            runs.push(w);
            assert(inlines_v(runs@) =~= seq![wrapped(k, before.last().1)]);
            append_to_top(frames, runs);
        },
        None => {
            append_to_top(frames, inner);
        },
    }
}

/// Applies an inline HTML tag to the frames.
fn apply_html_tag(tag: &String, frames: &mut Vec<Frame>)
    ensures
        frames_v(final(frames)@) == apply_tag(tag@, frames_v(old(frames)@)),
{
    let v = chars_of(tag.as_str());
    let (a, b) = trim_bounds(&v, 0, v.len());
    assert(v@.subrange(0, v@.len() as int) =~= v@);
    let lower = ascii_lowercase(&v, a, b);
    match open_tag(&lower) {
        Some(k) => {
            let ghost before = frames_v(frames@);
            let empty: Vec<Inline> = Vec::new();
            assert(inlines_v(empty@) =~= Seq::<InlineV>::empty());
            frames.push((Some(k), empty));
            assert(frames_v(frames@) =~= before.push((Some(k), Seq::<InlineV>::empty())));
        },
        None => {
            if close_tag(&lower) && frames.len() > 1 {
                close_html_frame(frames);
            }
        },
    }
}

/// Closes every frame but the outermost.
fn close_all_frames(frames: &mut Vec<Frame>)
    ensures
        frames_v(final(frames)@) == close_all(frames_v(old(frames)@)),
{
    while frames.len() > 1
        invariant
            close_all(frames_v(frames@)) == close_all(frames_v(old(frames)@)),
        decreases frames.len(),
    {
        close_html_frame(frames);
        assert(frames_v(frames@).len() == frames.len());
    }
}

/// Runs of inlines made from the children of a paragraph-like node.
pub fn inlines_of(children: &Vec<MdNode>) -> (out: Vec<Inline>)
    ensures
        inlines_v(out@) == node_inlines(nodes_v(children@)),
    decreases children@,
{
    let ghost ns = nodes_v(children@);
    let mut frames: Vec<Frame> = Vec::new();
    let empty: Vec<Inline> = Vec::new();
    assert(inlines_v(empty@) =~= Seq::<InlineV>::empty());
    frames.push((None, empty));
    assert(frames_v(frames@) =~= frames_after(ns, 0));
    let mut i: usize = 0;
    while i < children.len()
        invariant
            i <= children.len(),
            ns == nodes_v(children@),
            frames_v(frames@) == frames_after(ns, i as int),
        decreases children.len() - i,
    {
        let child = &children[i];
        proof {
            lemma_node_v(*child);
            assert(decreases_to!(children@ => children@[i as int]));
        }
        match &child.kind {
            NodeKind::HtmlInline(tag) => {
                apply_html_tag(tag, &mut frames);
            },
            _ => {
                let mut runs: Vec<Inline> = Vec::new();
                collect_inline(child, &mut runs);
                assert(inlines_v(runs@) =~= collect(ns[i as int]));
                append_to_top(&mut frames, runs);
            },
        }
        i += 1;
    }
    proof {
        lemma_frames_after_len(ns, children.len() as int);
        lemma_close_all_len(frames_v(frames@));
    }
    close_all_frames(&mut frames);
    if frames.len() > 0 {
        let (_, out) = frames.pop().unwrap();
        out
    } else {
        Vec::new()
    }
}

/// Appends the inlines `node` contributes.
fn collect_inline(node: &MdNode, out: &mut Vec<Inline>)
    ensures
        inlines_v(final(out)@) == inlines_v(old(out)@) + collect(node_v(*node)),
    decreases *node,
{
    proof {
        lemma_node_v(*node);
    }
    let ghost n = node_v(*node);
    let x = match &node.kind {
        NodeKind::Text(t) => Inline::Text(t.clone()),
        NodeKind::Code(c) => Inline::Code(c.clone()),
        NodeKind::Emph => Inline::Emph(inlines_of(&node.children)),
        NodeKind::Strong => Inline::Strong(inlines_of(&node.children)),
        NodeKind::Strikethrough => Inline::Strike(inlines_of(&node.children)),
        NodeKind::Highlight => Inline::Mark(inlines_of(&node.children)),
        NodeKind::Insert => Inline::Insert(inlines_of(&node.children)),
        NodeKind::Superscript => Inline::Super(inlines_of(&node.children)),
        NodeKind::Math { display, literal } => {
            let v = chars_of(literal.as_str());
            let (a, b) = trim_bounds(&v, 0, v.len());
            assert(v@.subrange(0, v@.len() as int) =~= v@);
            Inline::Math { display: *display, tex: string_of_range(&v, a, b) }
        },
        NodeKind::Link(url) => Inline::Link { label: inlines_of(&node.children), url: url.clone() },
        NodeKind::Image(url) => {
            let mut alt = String::new();
            push_plain_text(&node.children, &mut alt);
            Inline::Image { alt, url: url.clone() }
        },
        NodeKind::SoftBreak | NodeKind::LineBreak => Inline::Break,
        _ => {
            let mut i: usize = 0;
            while i < node.children.len()
                invariant
                    i <= node.children.len(),
                    n == node_v(*node),
                    n.children == nodes_v(node.children@),
                    inlines_v(out@) == inlines_v(old(out)@) + collect_prefix(n.children, i as int),
                decreases node.children.len() - i,
            {
                assert(decreases_to!(*node => node.children@[i as int]));
                let ghost before = out@;
                collect_inline(&node.children[i], out);
                assert(inlines_v(out@) =~= inlines_v(old(out)@) + collect_prefix(n.children, i + 1));
                i += 1;
            }
            return;
        },
    };
    proof {
        lemma_inline_v(x);
    }
    let ghost before = out@;
    out.push(x);
    assert(inlines_v(out@) =~= inlines_v(before) + seq![inline_v(x)]);
}

/// Appends the text and code under `children` (image alt text).
fn push_plain_text(children: &Vec<MdNode>, out: &mut String)
    ensures
        final(out)@ == old(out)@ + plain_text(nodes_v(children@), children@.len() as int),
    decreases children@,
{
    let ghost ns = nodes_v(children@);
    let mut i: usize = 0;
    while i < children.len()
        invariant
            i <= children.len(),
            ns == nodes_v(children@),
            out@ == old(out)@ + plain_text(ns, i as int),
        decreases children.len() - i,
    {
        let child = &children[i];
        proof {
            lemma_node_v(*child);
        }
        match &child.kind {
            NodeKind::Text(t) => crate::text::push_str(out, t.as_str()),
            NodeKind::Code(c) => crate::text::push_str(out, c.as_str()),
            _ => {
                assert(decreases_to!(children@ => children@[i as int].children@));
                push_plain_text(&child.children, out);
            },
        }
        assert(out@ =~= old(out)@ + plain_text(ns, i + 1));
        i += 1;
    }
}

// ---------------------------------------------------------------------------
// Blocks
// ---------------------------------------------------------------------------

/// The block a node makes, if it is a kind the model keeps.
pub open spec fn block_of(n: MdNodeV) -> Option<BlockV>
    decreases n, 2int, 0int,
{
    match n.kind {
        NodeKindV::Paragraph => Some(BlockV::Paragraph(node_inlines(n.children))),
        NodeKindV::Heading(level) => Some(BlockV::Heading { level, text: node_inlines(n.children) }),
        NodeKindV::CodeBlock { info, literal } => Some(
            BlockV::Code { language: lowercase(first_word(info)), text: literal },
        ),
        NodeKindV::BlockQuote => Some(BlockV::Quote(blocks_prefix(n.children, n.children.len() as int))),
        NodeKindV::List { ordered, start } => Some(
            BlockV::List { ordered, start, items: items_prefix(n.children, n.children.len() as int) },
        ),
        NodeKindV::Table(alignments) => Some(
            BlockV::Table {
                alignments,
                header: header_prefix(n.children, n.children.len() as int),
                rows: rows_prefix(n.children, n.children.len() as int),
            },
        ),
        NodeKindV::ThematicBreak => Some(BlockV::Rule),
        _ => None,
    }
}

/// The blocks the first `k` of `ns` make, skipping unknown kinds.
pub open spec fn blocks_prefix(ns: Seq<MdNodeV>, k: int) -> Seq<BlockV>
    decreases ns, 1int, k,
{
    if k <= 0 || k > ns.len() {
        Seq::empty()
    } else {
        blocks_prefix(ns, k - 1) + match block_of(ns[k - 1]) {
            Some(b) => seq![b],
            None => Seq::empty(),
        }
    }
}

/// The list items among the first `k` of `ns`.
pub open spec fn items_prefix(ns: Seq<MdNodeV>, k: int) -> Seq<ListItemV>
    decreases ns, 1int, k,
{
    if k <= 0 || k > ns.len() {
        Seq::empty()
    } else {
        let c = ns[k - 1];
        proof {
            assert(decreases_to!(ns => c));
        }
        items_prefix(ns, k - 1) + match c.kind {
            NodeKindV::Item => seq![ListItemV { checked: None, blocks: blocks_prefix(c.children, c.children.len() as int) }],
            NodeKindV::TaskItem(symbol) => seq![
                ListItemV {
                    checked: Some(symbol is Some),
                    blocks: blocks_prefix(c.children, c.children.len() as int),
                },
            ],
            _ => Seq::empty(),
        }
    }
}

/// The cells among the first `k` children of a table row.
pub open spec fn cells_prefix(ns: Seq<MdNodeV>, k: int) -> Seq<Seq<InlineV>>
    decreases k,
{
    if k <= 0 || k > ns.len() {
        Seq::empty()
    } else {
        cells_prefix(ns, k - 1) + match ns[k - 1].kind {
            NodeKindV::TableCell => seq![node_inlines(ns[k - 1].children)],
            _ => Seq::empty(),
        }
    }
}

/// The cells of the last header row among the first `k` rows.
pub open spec fn header_prefix(ns: Seq<MdNodeV>, k: int) -> Seq<Seq<InlineV>>
    decreases k,
{
    if k <= 0 || k > ns.len() {
        Seq::empty()
    } else {
        match ns[k - 1].kind {
            NodeKindV::TableRow(true) => cells_prefix(ns[k - 1].children, ns[k - 1].children.len() as int),
            _ => header_prefix(ns, k - 1),
        }
    }
}

/// The body rows among the first `k` rows, in order.
pub open spec fn rows_prefix(ns: Seq<MdNodeV>, k: int) -> Seq<Seq<Seq<InlineV>>>
    decreases k,
{
    if k <= 0 || k > ns.len() {
        Seq::empty()
    } else {
        rows_prefix(ns, k - 1) + match ns[k - 1].kind {
            NodeKindV::TableRow(false) => seq![cells_prefix(ns[k - 1].children, ns[k - 1].children.len() as int)],
            _ => Seq::empty(),
        }
    }
}

/// The pairs of the last front-matter block among the first `k` of `ns`.
pub open spec fn front_matter_prefix_of(ns: Seq<MdNodeV>, k: int) -> Seq<(Seq<char>, Seq<char>)>
    decreases k,
{
    if k <= 0 || k > ns.len() {
        Seq::empty()
    } else {
        match ns[k - 1].kind {
            NodeKindV::FrontMatter(raw) => spec_front_matter(raw),
            _ => front_matter_prefix_of(ns, k - 1),
        }
    }
}

/// The document the traversal edges `ev` describe: front matter from the
/// root's front-matter child, blocks from its other children.
pub open spec fn spec_document(ev: Seq<EventV>) -> DocumentV {
    let roots = tree_of(ev);
    let top = if roots.len() > 0 {
        roots[0].children
    } else {
        Seq::empty()
    };
    DocumentV {
        front_matter: front_matter_prefix_of(top, top.len() as int),
        blocks: blocks_prefix(top, top.len() as int),
    }
}

/// The extensions the viewer enables: GFM tables, task lists,
/// strikethrough, autolinks, superscript, `==mark==`, `++insert++`, `$`
/// math and `---` front matter.
pub open spec fn viewer_options() -> ParseOptionsV {
    ParseOptionsV {
        strikethrough: true,
        table: true,
        autolink: true,
        tasklist: true,
        superscript: true,
        highlight: true,
        insert: true,
        math_dollars: true,
        front_matter_delimiter: Some("---"@),
    }
}

pub open spec fn opt_block_v(b: Option<Block>) -> Option<BlockV> {
    match b {
        Some(b) => Some(block_v(b)),
        None => None,
    }
}

/// The block a node makes, if it is a kind the model keeps.
fn convert_block(node: &MdNode) -> (r: Option<Block>)
    ensures
        opt_block_v(r) == block_of(node_v(*node)),
    decreases *node,
{
    proof {
        lemma_node_v(*node);
    }
    let b = match &node.kind {
        NodeKind::Paragraph => Block::Paragraph(inlines_of(&node.children)),
        NodeKind::Heading(level) => Block::Heading { level: *level, text: inlines_of(&node.children) },
        NodeKind::CodeBlock { info, literal } => {
            let word = first_word_of(info.as_str());
            Block::Code { language: to_lowercase(word.as_str()), text: literal.clone() }
        },
        NodeKind::BlockQuote => Block::Quote(children_blocks(&node.children)),
        NodeKind::List { ordered, start } => Block::List {
            ordered: *ordered,
            start: *start,
            items: list_items(&node.children),
        },
        NodeKind::Table(alignments) => Block::Table {
            alignments: crate::markdown::clone_aligns(alignments),
            header: table_header(&node.children),
            rows: table_rows(&node.children),
        },
        NodeKind::ThematicBreak => Block::Rule,
        _ => return None,
    };
    proof {
        lemma_block_v(b);
    }
    Some(b)
}

/// The blocks `children` make, skipping unknown kinds.
fn children_blocks(children: &Vec<MdNode>) -> (out: Vec<Block>)
    ensures
        blocks_v(out@) == blocks_prefix(nodes_v(children@), children@.len() as int),
    decreases children@,
{
    let ghost ns = nodes_v(children@);
    let mut out: Vec<Block> = Vec::new();
    let mut i: usize = 0;
    while i < children.len()
        invariant
            i <= children.len(),
            ns == nodes_v(children@),
            blocks_v(out@) == blocks_prefix(ns, i as int),
        decreases children.len() - i,
    {
        assert(decreases_to!(children@ => children@[i as int]));
        let ghost before = out@;
        match convert_block(&children[i]) {
            Some(b) => {
                out.push(b);
                assert(blocks_v(out@) =~= blocks_v(before).push(block_v(b)));
            },
            None => {},
        }
        assert(blocks_v(out@) =~= blocks_prefix(ns, i + 1));
        i += 1;
    }
    out
}

/// The items of a list node's children.
fn list_items(children: &Vec<MdNode>) -> (out: Vec<ListItem>)
    ensures
        items_v(out@) == items_prefix(nodes_v(children@), children@.len() as int),
    decreases children@,
{
    let ghost ns = nodes_v(children@);
    let mut out: Vec<ListItem> = Vec::new();
    let mut i: usize = 0;
    while i < children.len()
        invariant
            i <= children.len(),
            ns == nodes_v(children@),
            items_v(out@) == items_prefix(ns, i as int),
        decreases children.len() - i,
    {
        let child = &children[i];
        proof {
            lemma_node_v(*child);
            assert(decreases_to!(children@ => children@[i as int].children@));
        }
        let ghost before = out@;
        let checked = match &child.kind {
            NodeKind::Item => Some(None),
            NodeKind::TaskItem(symbol) => Some(Some(symbol.is_some())),
            _ => None,
        };
        if let Some(checked) = checked {
            let item = ListItem { checked, blocks: children_blocks(&child.children) };
            out.push(item);
            assert(items_v(out@) =~= items_v(before).push(item_v(item)));
        }
        assert(items_v(out@) =~= items_prefix(ns, i + 1));
        i += 1;
    }
    out
}

/// The cells of a table row's children.
fn row_cells(children: &Vec<MdNode>) -> (out: Vec<Vec<Inline>>)
    ensures
        row_v(out@) == cells_prefix(nodes_v(children@), children@.len() as int),
{
    let ghost ns = nodes_v(children@);
    let mut out: Vec<Vec<Inline>> = Vec::new();
    let mut i: usize = 0;
    while i < children.len()
        invariant
            i <= children.len(),
            ns == nodes_v(children@),
            row_v(out@) == cells_prefix(ns, i as int),
        decreases children.len() - i,
    {
        let child = &children[i];
        proof {
            lemma_node_v(*child);
        }
        let ghost before = out@;
        if let NodeKind::TableCell = &child.kind {
            let cell = inlines_of(&child.children);
            out.push(cell);
            assert(row_v(out@) =~= row_v(before).push(inlines_v(cell@)));
        }
        assert(row_v(out@) =~= cells_prefix(ns, i + 1));
        i += 1;
    }
    out
}

/// The cells of the last header row.
fn table_header(children: &Vec<MdNode>) -> (out: Vec<Vec<Inline>>)
    ensures
        row_v(out@) == header_prefix(nodes_v(children@), children@.len() as int),
{
    let ghost ns = nodes_v(children@);
    let mut i = children.len();
    while i > 0
        invariant
            i <= children.len(),
            ns == nodes_v(children@),
            header_prefix(ns, children@.len() as int) == header_prefix(ns, i as int),
        decreases i,
    {
        let child = &children[i - 1];
        proof {
            lemma_node_v(*child);
        }
        if let NodeKind::TableRow(true) = &child.kind {
            return row_cells(&child.children);
        }
        i -= 1;
    }
    let out: Vec<Vec<Inline>> = Vec::new();
    assert(row_v(out@) =~= Seq::<Seq<InlineV>>::empty());
    out
}

pub open spec fn rows_v(v: Seq<Vec<Vec<Inline>>>) -> Seq<Seq<Seq<InlineV>>> {
    Seq::new(v.len(), |i: int| row_v(v[i]@))
}

/// The body rows of a table's children.
fn table_rows(children: &Vec<MdNode>) -> (out: Vec<Vec<Vec<Inline>>>)
    ensures
        rows_v(out@) == rows_prefix(nodes_v(children@), children@.len() as int),
{
    let ghost ns = nodes_v(children@);
    let mut out: Vec<Vec<Vec<Inline>>> = Vec::new();
    let mut i: usize = 0;
    while i < children.len()
        invariant
            i <= children.len(),
            ns == nodes_v(children@),
            rows_v(out@) == rows_prefix(ns, i as int),
        decreases children.len() - i,
    {
        let child = &children[i];
        proof {
            lemma_node_v(*child);
        }
        let ghost before = out@;
        if let NodeKind::TableRow(false) = &child.kind {
            let row = row_cells(&child.children);
            out.push(row);
            assert(rows_v(out@) =~= rows_v(before).push(row_v(row@)));
        }
        assert(rows_v(out@) =~= rows_prefix(ns, i + 1));
        i += 1;
    }
    out
}

/// The document the traversal edges `events` describe.
pub fn document_of_events(events: &Vec<Event>) -> (doc: Document)
    ensures
        document_v(doc) == spec_document(events_v(events@)),
{
    let roots = build_tree(events);
    if roots.len() == 0 {
        let doc = Document { front_matter: Vec::new(), blocks: Vec::new() };
        assert(document_v(doc).front_matter =~= Seq::<(Seq<char>, Seq<char>)>::empty());
        assert(document_v(doc).blocks =~= Seq::<BlockV>::empty());
        return doc;
    }
    let root = &roots[0];
    proof {
        lemma_node_v(*root);
    }
    let ghost top = nodes_v(root.children@);
    let mut front_matter: Vec<(String, String)> = Vec::new();
    let mut found = false;
    let mut i = root.children.len();
    while i > 0
        invariant
            i <= root.children.len(),
            top == nodes_v(root.children@),
            !found ==> front_matter_prefix_of(top, top.len() as int) == front_matter_prefix_of(top, i as int),
            !found ==> front_matter@.len() == 0,
            found ==> pairs_v(front_matter@) == front_matter_prefix_of(top, top.len() as int),
        decreases i,
    {
        if let NodeKind::FrontMatter(raw) = &root.children[i - 1].kind {
            if !found {
                front_matter = parse_front_matter(raw.as_str());
                found = true;
            }
        }
        i -= 1;
    }
    if !found {
        assert(pairs_v(front_matter@) =~= Seq::<(Seq<char>, Seq<char>)>::empty());
    }
    let blocks = children_blocks(&root.children);
    let doc = Document { front_matter, blocks };
    assert(document_v(doc).front_matter =~= pairs_v(front_matter@));
    doc
}

/// The extensions the viewer enables (see [`viewer_options`]).
pub fn gfm_options() -> (o: ParseOptions)
    ensures
        options_v(o) == viewer_options(),
{
    ParseOptions {
        strikethrough: true,
        table: true,
        autolink: true,
        tasklist: true,
        superscript: true,
        highlight: true,
        insert: true,
        math_dollars: true,
        front_matter_delimiter: Some(String::from_str("---")),
    }
}

/// Parse Markdown source into a [`Document`]: comrak parses with the
/// viewer's extensions, and the tree becomes the document model.
pub fn parse_markdown(text: &str) -> (doc: Document)
    ensures
        document_v(doc) == spec_document(crate::ast::comrak_events(text@, viewer_options())),
{
    let tree = parse_tree(text, &gfm_options());
    let events = read_events(&tree);
    document_of_events(&events)
}

} // verus!
