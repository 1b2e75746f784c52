//! The syntax tree comrak builds for a Markdown source, read as plain
//! values: the edges of its traversal, and the tree they describe.

use vstd::prelude::*;
use comrak::arena_tree::NodeEdge;
use comrak::nodes::{ListType, NodeValue, TableAlignment};
use comrak::{parse_document, Arena, Options};
use crate::markdown::{clone_aligns, Align};

verus! {

/// The comrak extensions a parse enables.
pub struct ParseOptions {
    pub strikethrough: bool,
    pub table: bool,
    pub autolink: bool,
    pub tasklist: bool,
    pub superscript: bool,
    pub highlight: bool,
    pub insert: bool,
    pub math_dollars: bool,
    pub front_matter_delimiter: Option<String>,
}

pub struct ParseOptionsV {
    pub strikethrough: bool,
    pub table: bool,
    pub autolink: bool,
    pub tasklist: bool,
    pub superscript: bool,
    pub highlight: bool,
    pub insert: bool,
    pub math_dollars: bool,
    pub front_matter_delimiter: Option<Seq<char>>,
}

pub open spec fn options_v(o: ParseOptions) -> ParseOptionsV {
    ParseOptionsV {
        strikethrough: o.strikethrough,
        table: o.table,
        autolink: o.autolink,
        tasklist: o.tasklist,
        superscript: o.superscript,
        highlight: o.highlight,
        insert: o.insert,
        math_dollars: o.math_dollars,
        front_matter_delimiter: match o.front_matter_delimiter {
            Some(d) => Some(d@),
            None => None,
        },
    }
}

/// What a syntax-tree node is, with the data the document model reads.
#[derive(Debug)]
pub enum NodeKind {
    FrontMatter(String),
    Paragraph,
    Heading(u8),
    CodeBlock { info: String, literal: String },
    BlockQuote,
    List { ordered: bool, start: usize },
    Item,
    /// A task-list item and its checkbox symbol (`None` when unchecked).
    TaskItem(Option<char>),
    Table(Vec<Align>),
    TableRow(bool),
    TableCell,
    ThematicBreak,
    HtmlInline(String),
    Text(String),
    Code(String),
    Emph,
    Strong,
    Strikethrough,
    Highlight,
    Insert,
    Superscript,
    Math { display: bool, literal: String },
    Link(String),
    Image(String),
    SoftBreak,
    LineBreak,
    /// Any node the document model does not read (the root among them).
    Other,
}

pub enum NodeKindV {
    FrontMatter(Seq<char>),
    Paragraph,
    Heading(u8),
    CodeBlock { info: Seq<char>, literal: Seq<char> },
    BlockQuote,
    List { ordered: bool, start: usize },
    Item,
    TaskItem(Option<char>),
    Table(Seq<Align>),
    TableRow(bool),
    TableCell,
    ThematicBreak,
    HtmlInline(Seq<char>),
    Text(Seq<char>),
    Code(Seq<char>),
    Emph,
    Strong,
    Strikethrough,
    Highlight,
    Insert,
    Superscript,
    Math { display: bool, literal: Seq<char> },
    Link(Seq<char>),
    Image(Seq<char>),
    SoftBreak,
    LineBreak,
    Other,
}

pub open spec fn kind_v(k: NodeKind) -> NodeKindV {
    match k {
        NodeKind::FrontMatter(s) => NodeKindV::FrontMatter(s@),
        NodeKind::Paragraph => NodeKindV::Paragraph,
        NodeKind::Heading(l) => NodeKindV::Heading(l),
        NodeKind::CodeBlock { info, literal } => NodeKindV::CodeBlock { info: info@, literal: literal@ },
        NodeKind::BlockQuote => NodeKindV::BlockQuote,
        NodeKind::List { ordered, start } => NodeKindV::List { ordered, start },
        NodeKind::Item => NodeKindV::Item,
        NodeKind::TaskItem(s) => NodeKindV::TaskItem(s),
        NodeKind::Table(a) => NodeKindV::Table(a@),
        NodeKind::TableRow(h) => NodeKindV::TableRow(h),
        NodeKind::TableCell => NodeKindV::TableCell,
        NodeKind::ThematicBreak => NodeKindV::ThematicBreak,
        NodeKind::HtmlInline(s) => NodeKindV::HtmlInline(s@),
        NodeKind::Text(s) => NodeKindV::Text(s@),
        NodeKind::Code(s) => NodeKindV::Code(s@),
        NodeKind::Emph => NodeKindV::Emph,
        NodeKind::Strong => NodeKindV::Strong,
        NodeKind::Strikethrough => NodeKindV::Strikethrough,
        NodeKind::Highlight => NodeKindV::Highlight,
        NodeKind::Insert => NodeKindV::Insert,
        NodeKind::Superscript => NodeKindV::Superscript,
        NodeKind::Math { display, literal } => NodeKindV::Math { display, literal: literal@ },
        NodeKind::Link(u) => NodeKindV::Link(u@),
        NodeKind::Image(u) => NodeKindV::Image(u@),
        NodeKind::SoftBreak => NodeKindV::SoftBreak,
        NodeKind::LineBreak => NodeKindV::LineBreak,
        NodeKind::Other => NodeKindV::Other,
    }
}

/// One edge of a depth-first traversal: a node's start or its end.
#[derive(Debug)]
pub struct Event {
    pub start: bool,
    pub kind: NodeKind,
}

pub struct EventV {
    pub start: bool,
    pub kind: NodeKindV,
}

pub open spec fn event_v(e: Event) -> EventV {
    EventV { start: e.start, kind: kind_v(e.kind) }
}

pub open spec fn events_v(v: Seq<Event>) -> Seq<EventV> {
    Seq::new(v.len(), |i: int| event_v(v[i]))
}

/// Block-level kinds read by [`ComrakTree::block_kind`].
pub open spec fn is_block_kind(k: NodeKindV) -> bool {
    ||| k is FrontMatter
    ||| k is Paragraph
    ||| k is Heading
    ||| k is CodeBlock
    ||| k is BlockQuote
    ||| k is List
    ||| k is Item
    ||| k is TaskItem
    ||| k is TableRow
    ||| k is TableCell
    ||| k is ThematicBreak
}

/// Inline containers and breaks, read by [`ComrakTree::span_kind`].
pub open spec fn is_span_kind(k: NodeKindV) -> bool {
    ||| k is Emph
    ||| k is Strong
    ||| k is Strikethrough
    ||| k is Highlight
    ||| k is Insert
    ||| k is Superscript
    ||| k is SoftBreak
    ||| k is LineBreak
}

/// Inline kinds carrying text, read by [`ComrakTree::leaf_kind`].
pub open spec fn is_leaf_kind(k: NodeKindV) -> bool {
    ||| k is HtmlInline
    ||| k is Text
    ||| k is Code
    ||| k is Math
    ||| k is Link
    ||| k is Image
}

// ---------------------------------------------------------------------------
// The parsed tree
// ---------------------------------------------------------------------------

/// The edges of comrak's traversal of a parsed document, in order: each
/// node's start, its descendants, then its end.
#[verifier::external_body]
pub struct ComrakTree {
    edges: Vec<(bool, NodeValue)>,
}

/// What a [`ComrakTree`] holds: its edges as plain values.
pub uninterp spec fn tree_events(t: ComrakTree) -> Seq<EventV>;

/// The traversal edges of the tree comrak's `parse_document` builds for
/// `text` under `options`.
pub uninterp spec fn comrak_events(text: Seq<char>, options: ParseOptionsV) -> Seq<EventV>;

/// Runs comrak's `parse_document` on `text` with the extensions of
/// `options` and records the edges of `traverse` from the root. The
/// contract names the result; nothing about comrak's grammar is assumed.
#[verifier::external_body]
pub(crate) fn parse_tree(text: &str, options: &ParseOptions) -> (t: ComrakTree)
    ensures
        tree_events(t) == comrak_events(text@, options_v(*options)),
{
    let mut o = Options::default();
    let e = &mut o.extension;
    e.strikethrough = options.strikethrough;
    e.table = options.table;
    e.autolink = options.autolink;
    e.tasklist = options.tasklist;
    e.superscript = options.superscript;
    e.highlight = options.highlight;
    e.insert = options.insert;
    e.math_dollars = options.math_dollars;
    e.front_matter_delimiter = options.front_matter_delimiter.clone();
    let arena = Arena::new();
    let root = parse_document(&arena, text, &o);
    let edges = root.traverse().map(|x| match x { NodeEdge::Start(n) => (true, n.data().value.clone()), NodeEdge::End(n) => (false, n.data().value.clone()) }).collect();
    ComrakTree { edges }
}

impl ComrakTree {
    /// Number of edges.
    #[verifier::external_body]
    pub(crate) fn len(&self) -> (n: usize)
        ensures
            n == tree_events(*self).len(),
    {
        self.edges.len()
    }

    /// Whether edge `i` starts its node (rather than ends it).
    #[verifier::external_body]
    pub(crate) fn is_start(&self, i: usize) -> (b: bool)
        requires
            i < tree_events(*self).len(),
        ensures
            b == tree_events(*self)[i as int].start,
    {
        self.edges[i].0
    }

    /// The node of edge `i` when it is a block-level kind, converted field
    /// by field from comrak's `NodeValue`.
    #[verifier::external_body]
    pub(crate) fn block_kind(&self, i: usize) -> (k: Option<NodeKind>)
        requires
            i < tree_events(*self).len(),
        ensures
            match k {
                Some(k) => kind_v(k) == tree_events(*self)[i as int].kind,
                None => !is_block_kind(tree_events(*self)[i as int].kind),
            },
    {
        Some(match &self.edges[i].1 {
            NodeValue::FrontMatter(s) => NodeKind::FrontMatter(s.clone()),
            NodeValue::Paragraph => NodeKind::Paragraph,
            NodeValue::Heading(h) => NodeKind::Heading(h.level),
            NodeValue::CodeBlock(c) => NodeKind::CodeBlock { info: c.info.clone(), literal: c.literal.clone() },
            NodeValue::BlockQuote => NodeKind::BlockQuote,
            NodeValue::List(l) => NodeKind::List { ordered: matches!(l.list_type, ListType::Ordered), start: l.start },
            NodeValue::Item(_) => NodeKind::Item,
            NodeValue::TaskItem(t) => NodeKind::TaskItem(t.symbol),
            NodeValue::TableRow(h) => NodeKind::TableRow(*h),
            NodeValue::TableCell => NodeKind::TableCell,
            NodeValue::ThematicBreak => NodeKind::ThematicBreak,
            _ => return None,
        })
    }

    /// The column alignments when edge `i` is a table, converted one for one
    /// from comrak's `TableAlignment`.
    #[verifier::external_body]
    pub(crate) fn table_kind(&self, i: usize) -> (k: Option<NodeKind>)
        requires
            i < tree_events(*self).len(),
        ensures
            match k {
                Some(k) => kind_v(k) == tree_events(*self)[i as int].kind,
                None => !(tree_events(*self)[i as int].kind is Table),
            },
    {
        let NodeValue::Table(t) = &self.edges[i].1 else { return None };
        Some(NodeKind::Table(t.alignments.iter().map(|a| match a {
            TableAlignment::Left => Align::Left,
            TableAlignment::Center => Align::Center,
            TableAlignment::Right => Align::Right,
            TableAlignment::None => Align::Unaligned,
        }).collect()))
    }

    /// The node of edge `i` when it is an inline container or a break.
    #[verifier::external_body]
    pub(crate) fn span_kind(&self, i: usize) -> (k: Option<NodeKind>)
        requires
            i < tree_events(*self).len(),
        ensures
            match k {
                Some(k) => kind_v(k) == tree_events(*self)[i as int].kind,
                None => !is_span_kind(tree_events(*self)[i as int].kind),
            },
    {
        Some(match &self.edges[i].1 {
            NodeValue::Emph => NodeKind::Emph,
            NodeValue::Strong => NodeKind::Strong,
            NodeValue::Strikethrough => NodeKind::Strikethrough,
            NodeValue::Highlight => NodeKind::Highlight,
            NodeValue::Insert => NodeKind::Insert,
            NodeValue::Superscript => NodeKind::Superscript,
            NodeValue::SoftBreak => NodeKind::SoftBreak,
            NodeValue::LineBreak => NodeKind::LineBreak,
            _ => return None,
        })
    }

    /// The node of edge `i` when it is an inline carrying text or a URL.
    #[verifier::external_body]
    pub(crate) fn leaf_kind(&self, i: usize) -> (k: Option<NodeKind>)
        requires
            i < tree_events(*self).len(),
        ensures
            match k {
                Some(k) => kind_v(k) == tree_events(*self)[i as int].kind,
                None => !is_leaf_kind(tree_events(*self)[i as int].kind),
            },
    {
        Some(match &self.edges[i].1 {
            NodeValue::HtmlInline(s) => NodeKind::HtmlInline(s.clone()),
            NodeValue::Text(s) => NodeKind::Text(s.to_string()),
            NodeValue::Code(c) => NodeKind::Code(c.literal.clone()),
            NodeValue::Math(m) => NodeKind::Math { display: m.display_math, literal: m.literal.clone() },
            NodeValue::Link(l) => NodeKind::Link(l.url.clone()),
            NodeValue::Image(l) => NodeKind::Image(l.url.clone()),
            _ => return None,
        })
    }
}

/// The edges of `t` as plain values.
pub fn read_events(t: &ComrakTree) -> (out: Vec<Event>)
    ensures
        events_v(out@) == tree_events(*t),
{
    let n = t.len();
    let mut out: Vec<Event> = Vec::new();
    let mut i: usize = 0;
    while i < n
        invariant
            i <= n,
            n == tree_events(*t).len(),
            events_v(out@) == tree_events(*t).take(i as int),
        decreases n - i,
    {
        let kind = match t.block_kind(i) {
            Some(k) => k,
            None => match t.table_kind(i) {
                Some(k) => k,
                None => match t.span_kind(i) {
                    Some(k) => k,
                    None => match t.leaf_kind(i) {
                        Some(k) => k,
                        None => NodeKind::Other,
                    },
                },
            },
        };
        let e = Event { start: t.is_start(i), kind };
        let ghost before = out@;
        out.push(e);
        assert(events_v(out@) =~= events_v(before).push(event_v(e)));
        assert(tree_events(*t).take(i + 1) =~= tree_events(*t).take(i as int).push(tree_events(*t)[i as int]));
        i += 1;
    }
    assert(tree_events(*t).take(n as int) =~= tree_events(*t));
    out
}

// ---------------------------------------------------------------------------
// The tree the edges describe
// ---------------------------------------------------------------------------

/// A syntax-tree node with its children.
#[derive(Debug)]
pub struct MdNode {
    pub kind: NodeKind,
    pub children: Vec<MdNode>,
}

pub struct MdNodeV {
    pub kind: NodeKindV,
    pub children: Seq<MdNodeV>,
}

pub open spec fn node_v(n: MdNode) -> MdNodeV
    decreases n,
{
    MdNodeV {
        kind: kind_v(n.kind),
        children: Seq::new(
            n.children@.len(),
            |i: int|
                if 0 <= i < n.children@.len() {
                    node_v(n.children@[i])
                } else {
                    MdNodeV { kind: NodeKindV::Other, children: Seq::empty() }
                },
        ),
    }
}

pub open spec fn nodes_v(v: Seq<MdNode>) -> Seq<MdNodeV> {
    Seq::new(v.len(), |i: int| node_v(v[i]))
}

pub proof fn lemma_node_v(n: MdNode)
    ensures
        node_v(n) == (MdNodeV { kind: kind_v(n.kind), children: nodes_v(n.children@) }),
{
    assert(node_v(n).children =~= nodes_v(n.children@));
}

/// The sibling nodes whose edges begin at `i`, up to the end edge that
/// closes their parent (consumed) or the end of the edges, and the index
/// after them. The `i < j <= ev.len()` guard never fails; it makes termination evident.
pub open spec fn nodes_from(ev: Seq<EventV>, i: int) -> (Seq<MdNodeV>, int)
    decreases ev.len() - i,
{
    if i < 0 || i >= ev.len() {
        (Seq::empty(), ev.len() as int)
    } else if !ev[i].start {
        (Seq::empty(), i + 1)
    } else {
        let (kids, j) = nodes_from(ev, i + 1);
        let node = MdNodeV { kind: ev[i].kind, children: kids };
        if i < j <= ev.len() {
            let (rest, k) = nodes_from(ev, j);
            (seq![node] + rest, k)
        } else {
            (seq![node], j)
        }
    }
}

/// The trees the edges describe (the root, for a whole traversal).
pub open spec fn tree_of(ev: Seq<EventV>) -> Seq<MdNodeV> {
    nodes_from(ev, 0).0
}

pub proof fn lemma_nodes_from(ev: Seq<EventV>, i: int)
    requires
        0 <= i <= ev.len(),
    ensures
        i <= nodes_from(ev, i).1 <= ev.len(),
        i < ev.len() ==> i < nodes_from(ev, i).1,
    decreases ev.len() - i,
{
    if i < ev.len() && ev[i].start {
        lemma_nodes_from(ev, i + 1);
        let j = nodes_from(ev, i + 1).1;
        lemma_nodes_from(ev, j);
    }
}

/// A copy of a node kind.
pub fn clone_kind(k: &NodeKind) -> (r: NodeKind)
    ensures
        kind_v(r) == kind_v(*k),
{
    match k {
        NodeKind::FrontMatter(s) => NodeKind::FrontMatter(s.clone()),
        NodeKind::Paragraph => NodeKind::Paragraph,
        NodeKind::Heading(l) => NodeKind::Heading(*l),
        NodeKind::CodeBlock { info, literal } => NodeKind::CodeBlock { info: info.clone(), literal: literal.clone() },
        NodeKind::BlockQuote => NodeKind::BlockQuote,
        NodeKind::List { ordered, start } => NodeKind::List { ordered: *ordered, start: *start },
        NodeKind::Item => NodeKind::Item,
        NodeKind::TaskItem(s) => NodeKind::TaskItem(*s),
        NodeKind::Table(a) => NodeKind::Table(clone_aligns(a)),
        NodeKind::TableRow(h) => NodeKind::TableRow(*h),
        NodeKind::TableCell => NodeKind::TableCell,
        NodeKind::ThematicBreak => NodeKind::ThematicBreak,
        NodeKind::HtmlInline(s) => NodeKind::HtmlInline(s.clone()),
        NodeKind::Text(s) => NodeKind::Text(s.clone()),
        NodeKind::Code(s) => NodeKind::Code(s.clone()),
        NodeKind::Emph => NodeKind::Emph,
        NodeKind::Strong => NodeKind::Strong,
        NodeKind::Strikethrough => NodeKind::Strikethrough,
        NodeKind::Highlight => NodeKind::Highlight,
        NodeKind::Insert => NodeKind::Insert,
        NodeKind::Superscript => NodeKind::Superscript,
        NodeKind::Math { display, literal } => NodeKind::Math { display: *display, literal: literal.clone() },
        NodeKind::Link(u) => NodeKind::Link(u.clone()),
        NodeKind::Image(u) => NodeKind::Image(u.clone()),
        NodeKind::SoftBreak => NodeKind::SoftBreak,
        NodeKind::LineBreak => NodeKind::LineBreak,
        NodeKind::Other => NodeKind::Other,
    }
}

/// The sibling nodes whose edges begin at `i` (see [`nodes_from`]).
fn read_nodes(events: &Vec<Event>, i: usize) -> (r: (Vec<MdNode>, usize))
    requires
        i <= events.len(),
    ensures
        nodes_v(r.0@) == nodes_from(events_v(events@), i as int).0,
        r.1 == nodes_from(events_v(events@), i as int).1,
    decreases events.len() - i,
{
    let ghost ev = events_v(events@);
    let mut out: Vec<MdNode> = Vec::new();
    let mut j = i;
    loop
        invariant
            i <= j <= events.len(),
            ev == events_v(events@),
            nodes_from(ev, i as int).0 == nodes_v(out@) + nodes_from(ev, j as int).0,
            nodes_from(ev, i as int).1 == nodes_from(ev, j as int).1,
        decreases events.len() - j,
    {
        if j >= events.len() {
            assert(nodes_v(out@) + Seq::<MdNodeV>::empty() =~= nodes_v(out@));
            return (out, events.len());
        }
        if !events[j].start {
            assert(nodes_v(out@) + Seq::<MdNodeV>::empty() =~= nodes_v(out@));
            return (out, j + 1);
        }
        let (kids, k) = read_nodes(events, j + 1);
        proof {
            lemma_nodes_from(ev, j + 1);
        }
        let node = MdNode { kind: clone_kind(&events[j].kind), children: kids };
        proof {
            lemma_node_v(node);
            let rest = nodes_from(ev, k as int);
            assert(nodes_from(ev, j as int).0 == seq![node_v(node)] + rest.0);
            assert(nodes_v(out@.push(node)) =~= nodes_v(out@).push(node_v(node)));
            assert(nodes_v(out@) + (seq![node_v(node)] + rest.0) =~= nodes_v(out@).push(node_v(node)) + rest.0);
        }
        out.push(node);
        j = k;
    }
}

/// The trees `events` describe.
pub fn build_tree(events: &Vec<Event>) -> (nodes: Vec<MdNode>)
    ensures
        nodes_v(nodes@) == tree_of(events_v(events@)),
{
    read_nodes(events, 0).0
}

} // verus!
