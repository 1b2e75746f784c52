//! Native Mermaid subset: flowcharts and sequence diagrams.
//!
//! Supported flowchart input: `graph`/`flowchart` with TD/TB/BT/LR/RL,
//! rect/round/diamond/circle/stadium/subroutine/hexagon nodes, the
//! `-->`, `---`, `==>`, and `-.->` edges with `|label|` or `-- label --`
//! labels, chains, `;` separators, and `%%` comments. Supported sequence
//! input: `sequenceDiagram` with participant/actor declarations (including
//! `as` aliases), `->`, `-->`, `->>`, `-->>` messages, over/left/right
//! notes, and loop/alt/else/end dividers. Anything else parses to `None`
//! and the caller renders the block as code, so diagrams never corrupt.
//!
//! The parse is stated as spec functions over the characters of the
//! source; layered ranks for flowchart layout are computed here too.

use vstd::prelude::*;
use crate::text::{
    alphanumeric, chars_of, eq_str, find_char, is_alphanumeric, is_whitespace, is_ws, lines,
    occurs_at_str, skip_spaces, skip_ws, slice_of, trim, trim_end, trim_end_char, trim_start,
    trimmed, trimmed_end, trimmed_start, word_end,
};
use crate::text::split_on;

pub mod indices;
pub mod rank;

verus! {

// ---------------------------------------------------------------------------
// The diagram model
// ---------------------------------------------------------------------------

/// A parsed diagram.
#[derive(Debug, Clone)]
pub enum Diagram {
    Flow(Flowchart),
    /// A sequence diagram.
    Sequence(Sequence),
}

/// Which way flowchart ranks run.
#[derive(Debug, Clone, Copy, PartialEq, Eq, Structural)]
pub enum FlowDir {
    TopDown,
    BottomUp,
    LeftRight,
    RightLeft,
}

#[derive(Debug, Clone)]
pub struct Flowchart {
    pub direction: FlowDir,
    pub nodes: Vec<FNode>,
    pub edges: Vec<FEdge>,
}

#[derive(Debug, Clone)]
pub struct FNode {
    pub id: String,
    pub label: String,
    pub shape: Shape,
}

#[derive(Debug, Clone, Copy, PartialEq, Eq, Structural)]
pub enum Shape {
    Rect,
    Round,
    Diamond,
    Circle,
    Stadium,
    Subroutine,
    Hexagon,
}

#[derive(Debug, Clone)]
pub struct FEdge {
    pub from: usize,
    pub to: usize,
    pub label: String,
    pub dashed: bool,
    pub thick: bool,
    /// Whether the target end carries an arrowhead (`-->` yes, `---` no).
    pub arrow: bool,
}

#[derive(Debug, Clone)]
pub struct Sequence {
    pub actors: Vec<Actor>,
    pub events: Vec<SEvent>,
}

#[derive(Debug, Clone)]
pub struct Actor {
    pub id: String,
    pub label: String,
}

#[derive(Debug, Clone)]
pub enum SEvent {
    Message { from: usize, to: usize, text: String, dotted: bool },
    Note { actors: Vec<usize>, place: NotePlace, text: String },
    Divider { text: String },
}

#[derive(Debug, Clone, Copy, PartialEq, Eq, Structural)]
pub enum NotePlace {
    Over,
    Left,
    Right,
}

pub struct FNodeV {
    pub id: Seq<char>,
    pub label: Seq<char>,
    pub shape: Shape,
}

pub struct FEdgeV {
    pub from: int,
    pub to: int,
    pub label: Seq<char>,
    pub dashed: bool,
    pub thick: bool,
    pub arrow: bool,
}

/// Nodes and edges gathered so far.
pub struct FlowV {
    pub nodes: Seq<FNodeV>,
    pub edges: Seq<FEdgeV>,
}

pub struct ActorV {
    pub id: Seq<char>,
    pub label: Seq<char>,
}

pub enum SEventV {
    Message { from: int, to: int, text: Seq<char>, dotted: bool },
    Note { actors: Seq<int>, place: NotePlace, text: Seq<char> },
    Divider { text: Seq<char> },
}

/// Actors and events gathered so far.
pub struct SeqV {
    pub actors: Seq<ActorV>,
    pub events: Seq<SEventV>,
}

pub enum DiagramV {
    Flow { direction: FlowDir, chart: FlowV },
    Sequence(SeqV),
}

pub open spec fn fnode_v(n: FNode) -> FNodeV {
    FNodeV { id: n.id@, label: n.label@, shape: n.shape }
}

pub open spec fn fedge_v(e: FEdge) -> FEdgeV {
    FEdgeV { from: e.from as int, to: e.to as int, label: e.label@, dashed: e.dashed, thick: e.thick, arrow: e.arrow }
}

pub open spec fn flow_v(nodes: Seq<FNode>, edges: Seq<FEdge>) -> FlowV {
    FlowV {
        nodes: Seq::new(nodes.len(), |i: int| fnode_v(nodes[i])),
        edges: Seq::new(edges.len(), |i: int| fedge_v(edges[i])),
    }
}

pub open spec fn actor_v(a: Actor) -> ActorV {
    ActorV { id: a.id@, label: a.label@ }
}

pub open spec fn sevent_v(e: SEvent) -> SEventV {
    match e {
        SEvent::Message { from, to, text, dotted } => SEventV::Message {
            from: from as int,
            to: to as int,
            text: text@,
            dotted,
        },
        SEvent::Note { actors, place, text } => SEventV::Note {
            actors: Seq::new(actors@.len(), |i: int| actors@[i] as int),
            place,
            text: text@,
        },
        SEvent::Divider { text } => SEventV::Divider { text: text@ },
    }
}

pub open spec fn seq_v(actors: Seq<Actor>, events: Seq<SEvent>) -> SeqV {
    SeqV {
        actors: Seq::new(actors.len(), |i: int| actor_v(actors[i])),
        events: Seq::new(events.len(), |i: int| sevent_v(events[i])),
    }
}

pub open spec fn diagram_v(d: Diagram) -> DiagramV {
    match d {
        Diagram::Flow(f) => DiagramV::Flow { direction: f.direction, chart: flow_v(f.nodes@, f.edges@) },
        Diagram::Sequence(s) => DiagramV::Sequence(seq_v(s.actors@, s.events@)),
    }
}

// ---------------------------------------------------------------------------
// Character-level helpers
// ---------------------------------------------------------------------------

/// `p` occurs in `t` at `i`.
pub open spec fn starts_at(t: Seq<char>, i: int, p: Seq<char>) -> bool {
    0 <= i && i + p.len() <= t.len() && t.subrange(i, i + p.len()) == p
}

/// `t` ends with `p`.
pub open spec fn ends_with(t: Seq<char>, p: Seq<char>) -> bool {
    p.len() <= t.len() && t.subrange(t.len() - p.len(), t.len() as int) == p
}

/// `t[a..]`, empty past the end.
pub open spec fn tail(t: Seq<char>, a: int) -> Seq<char> {
    if a >= t.len() {
        Seq::empty()
    } else {
        t.subrange(a, t.len() as int)
    }
}

/// First index at or after `i` where `p` occurs (`None` when it does not).
pub open spec fn find_seq(t: Seq<char>, p: Seq<char>, i: int) -> Option<int>
    decreases t.len() + 1 - i,
{
    if i < 0 || i > t.len() {
        None
    } else if starts_at(t, i, p) {
        Some(i)
    } else {
        find_seq(t, p, i + 1)
    }
}

/// A character of an identifier: alphanumeric or `_`.
pub open spec fn is_id_char(c: char) -> bool {
    alphanumeric(c) || c == '_'
}

/// Length of the identifier at the start of `t[i..]`.
pub open spec fn id_end(t: Seq<char>, i: int) -> int
    decreases t.len() - i,
{
    if 0 <= i < t.len() && is_id_char(t[i]) {
        id_end(t, i + 1)
    } else {
        i
    }
}

/// A non-empty run without white space.
pub open spec fn valid_actor_id(id: Seq<char>) -> bool {
    id.len() > 0 && forall|i: int| 0 <= i < id.len() ==> !is_ws(#[trigger] id[i])
}

// ---------------------------------------------------------------------------
// Flowcharts
// ---------------------------------------------------------------------------

/// The direction a flowchart head names: `graph`/`flowchart` and at most
/// one direction word (TD by default).
pub open spec fn flow_head(head: Seq<char>) -> Option<FlowDir> {
    let a = skip_ws(head, 0);
    let b = word_end(head, a);
    let c = skip_ws(head, b);
    let d = word_end(head, c);
    let kind = head.subrange(a, b);
    let dir = head.subrange(c, d);
    if a >= head.len() || skip_ws(head, d) < head.len() {
        None
    } else if kind != "graph"@ && kind != "flowchart"@ {
        None
    } else if c >= head.len() || dir == "TD"@ || dir == "TB"@ {
        Some(FlowDir::TopDown)
    } else if dir == "BT"@ {
        Some(FlowDir::BottomUp)
    } else if dir == "LR"@ {
        Some(FlowDir::LeftRight)
    } else if dir == "RL"@ {
        Some(FlowDir::RightLeft)
    } else {
        None
    }
}

/// The statements of a line: split at `;` and cut at `%%`, both outside
/// double quotes. `cur` is the statement being read.
pub open spec fn statements_from(t: Seq<char>, i: int, cur: Seq<char>, quoted: bool) -> Seq<Seq<char>>
    decreases t.len() - i,
{
    if i < 0 || i >= t.len() {
        seq![cur]
    } else if t[i] == '"' {
        statements_from(t, i + 1, cur.push(t[i]), !quoted)
    } else if !quoted && t[i] == '%' && i + 1 < t.len() && t[i + 1] == '%' {
        seq![cur]
    } else if !quoted && t[i] == ';' {
        seq![cur] + statements_from(t, i + 1, Seq::empty(), quoted)
    } else {
        statements_from(t, i + 1, cur.push(t[i]), quoted)
    }
}

pub open spec fn statements(t: Seq<char>) -> Seq<Seq<char>> {
    statements_from(t, 0, Seq::empty(), false)
}

/// The edge operator at `i`, longest forms first.
pub open spec fn edge_op_at(t: Seq<char>, i: int) -> Option<Seq<char>> {
    if starts_at(t, i, "-.->"@) {
        Some("-.->"@)
    } else if starts_at(t, i, "-->"@) {
        Some("-->"@)
    } else if starts_at(t, i, "==>"@) {
        Some("==>"@)
    } else if starts_at(t, i, "---"@) {
        Some("---"@)
    } else if starts_at(t, i, "--"@) {
        Some("--"@)
    } else {
        None
    }
}

/// The first edge operator outside double quotes at or after `i`.
pub open spec fn find_op_from(t: Seq<char>, i: int, quoted: bool) -> Option<(int, Seq<char>)>
    decreases t.len() - i,
{
    if i < 0 || i >= t.len() {
        None
    } else if t[i] == '"' {
        find_op_from(t, i + 1, !quoted)
    } else if !quoted && edge_op_at(t, i) is Some {
        Some((i, edge_op_at(t, i)->Some_0))
    } else {
        find_op_from(t, i + 1, quoted)
    }
}

pub open spec fn find_op(t: Seq<char>) -> Option<(int, Seq<char>)> {
    find_op_from(t, 0, false)
}

/// The closing bracket of an opening one.
pub open spec fn closer_of(c: char) -> Option<char> {
    if c == '(' {
        Some(')')
    } else if c == '[' {
        Some(']')
    } else if c == '{' {
        Some('}')
    } else if c == '<' {
        Some('>')
    } else {
        None
    }
}

/// `t` without one surrounding bracket pair, trimmed.
pub open spec fn strip_pair(t: Seq<char>) -> Option<Seq<char>> {
    if t.len() == 0 {
        None
    } else {
        match closer_of(t[0]) {
            Some(c) => if t.len() >= 2 && t.last() == c {
                Some(trim(t.subrange(1, t.len() - 1)))
            } else {
                None
            },
            None => None,
        }
    }
}

/// Up to two bracket layers peeled off (`((x))` is a circle labelled `x`).
pub open spec fn peel(label: Seq<char>) -> Seq<char> {
    match strip_pair(label) {
        Some(once) => match strip_pair(once) {
            Some(twice) => twice,
            None => once,
        },
        None => label,
    }
}

/// Shape, opener length and closer a node body starts with.
pub open spec fn shape_opener(t: Seq<char>) -> Option<(Shape, int, Seq<char>)> {
    if starts_at(t, 0, "(("@) {
        Some((Shape::Circle, 2, "))"@))
    } else if starts_at(t, 0, "(["@) {
        Some((Shape::Stadium, 2, "])"@))
    } else if starts_at(t, 0, "[["@) {
        Some((Shape::Subroutine, 2, "]]"@))
    } else if starts_at(t, 0, "{{"@) {
        Some((Shape::Hexagon, 2, "}}"@))
    } else if starts_at(t, 0, "[("@) {
        Some((Shape::Round, 2, ")]"@))
    } else if starts_at(t, 0, "[/"@) {
        Some((Shape::Rect, 2, "/]"@))
    } else if starts_at(t, 0, "[\\"@) {
        Some((Shape::Rect, 2, "\\]"@))
    } else if starts_at(t, 0, "["@) {
        Some((Shape::Rect, 1, "]"@))
    } else if starts_at(t, 0, "("@) {
        Some((Shape::Round, 1, ")"@))
    } else if starts_at(t, 0, "{"@) {
        Some((Shape::Diamond, 1, "}"@))
    } else if starts_at(t, 0, ">"@) {
        Some((Shape::Rect, 1, "]"@))
    } else {
        None
    }
}

/// Shape and label of a node body such as `[text]` or `{{text}}`.
pub open spec fn parse_shape(t: Seq<char>) -> Option<(Shape, Seq<char>)> {
    match shape_opener(t) {
        Some((shape, n, closer)) => {
            let body = trim_end(tail(t, n));
            if ends_with(body, closer) {
                Some((shape, peel(trim(body.subrange(0, body.len() - closer.len())))))
            } else {
                None
            }
        },
        None => None,
    }
}

/// Index of the node with id `id` among `nodes[i..]`.
pub open spec fn find_node(nodes: Seq<FNodeV>, id: Seq<char>, i: int) -> Option<int>
    decreases nodes.len() - i,
{
    if i < 0 || i >= nodes.len() {
        None
    } else if nodes[i].id == id {
        Some(i)
    } else {
        find_node(nodes, id, i + 1)
    }
}

/// The node `id` (added as a labelled rectangle when new) and its index.
pub open spec fn node_idx(b: FlowV, id: Seq<char>) -> (FlowV, int) {
    match find_node(b.nodes, id, 0) {
        Some(i) => (b, i),
        None => (
            FlowV { nodes: b.nodes.push(FNodeV { id, label: id, shape: Shape::Rect }), ..b },
            b.nodes.len() as int,
        ),
    }
}

/// A node reference `id` or `id<shape>`: its index, the node added or
/// relabelled.
pub open spec fn parse_node(t: Seq<char>, b: FlowV) -> Option<(FlowV, int)> {
    let s = trim(t);
    let n = id_end(s, 0);
    if n == 0 {
        None
    } else {
        let (b1, idx) = node_idx(b, s.subrange(0, n));
        let rest = trim_start(s.subrange(n, s.len() as int));
        if rest.len() == 0 {
            Some((b1, idx))
        } else {
            match parse_shape(rest) {
                Some((shape, label)) => Some(
                    (
                        FlowV {
                            nodes: b1.nodes.update(idx, FNodeV { label, shape, ..b1.nodes[idx] }),
                            ..b1
                        },
                        idx,
                    ),
                ),
                None => None,
            }
        }
    }
}

/// The label and rest after an operator: `|label|` (or no label).
pub open spec fn pipe_label(rest: Seq<char>) -> Option<(Seq<char>, Seq<char>)> {
    if rest.len() > 0 && rest[0] == '|' {
        let after = rest.subrange(1, rest.len() as int);
        let end = find_char(after, 0, '|');
        if end < after.len() {
            Some((trim(after.subrange(0, end)), trim_start(tail(after, end + 1))))
        } else {
            None
        }
    } else {
        Some((Seq::empty(), rest))
    }
}

/// For `A -- text --> B`, the closing operator, label and rest.
pub open spec fn dash_label(label: Seq<char>, rest: Seq<char>) -> Option<(Seq<char>, Seq<char>, Seq<char>)> {
    match find_op(rest) {
        Some((p, closer)) => {
            let between = trim(rest.subrange(0, p));
            if closer == "--"@ {
                None
            } else if label.len() == 0 {
                Some((closer, between, trim_start(tail(rest, p + closer.len()))))
            } else if between.len() > 0 {
                None
            } else {
                Some((closer, label, trim_start(tail(rest, p + closer.len()))))
            }
        },
        None => Some(("--"@, label, rest)),
    }
}

/// The edge `from -> to` that operator `op` draws.
pub open spec fn edge_of(from: int, to: int, label: Seq<char>, op: Seq<char>) -> FEdgeV {
    FEdgeV {
        from,
        to,
        label,
        dashed: op == "-.->"@,
        thick: op == "==>"@,
        arrow: !(op == "---"@ || op == "--"@),
    }
}

/// A statement: `left op [label] right [op ...]` chains, or a bare node.
pub open spec fn parse_chain(t: Seq<char>, b: FlowV) -> Option<FlowV>
    decreases t.len(),
{
    match find_op(t) {
        None => match parse_node(t, b) {
            Some((b1, _)) => Some(b1),
            None => None,
        },
        Some((pos, op)) => {
            let left = trim(t.subrange(0, pos));
            let after = trim_start(tail(t, pos + op.len()));
            match pipe_label(after) {
                None => None,
                Some((label0, rest0)) => {
                    let labelled = if op == "--"@ {
                        dash_label(label0, rest0)
                    } else {
                        Some((op, label0, rest0))
                    };
                    match labelled {
                        None => None,
                        Some((edge_op, label, rest)) => {
                            let (target, more) = match find_op(rest) {
                                Some((q, _)) => (trim(rest.subrange(0, q)), trim_start(tail(rest, q))),
                                None => (trim(rest), Seq::empty()),
                            };
                            if left.len() == 0 || target.len() == 0 {
                                None
                            } else {
                                match parse_node(left, b) {
                                    None => None,
                                    Some((b1, from)) => match parse_node(target, b1) {
                                        None => None,
                                        Some((b2, to)) => {
                                            let b3 = FlowV {
                                                edges: b2.edges.push(edge_of(from, to, label, edge_op)),
                                                ..b2
                                            };
                                            let next = target + seq![' '] + more;
                                            if more.len() == 0 {
                                                Some(b3)
                                            } else if next.len() < t.len() {
                                                parse_chain(next, b3)
                                            } else {
                                                None
                                            }
                                        },
                                    },
                                }
                            }
                        },
                    }
                },
            }
        },
    }
}

/// The first `k` statements of a line applied in turn (blank ones skipped).
pub open spec fn flow_statements(st: Seq<Seq<char>>, k: int, b: FlowV) -> Option<FlowV>
    decreases k,
{
    if k <= 0 || k > st.len() {
        Some(b)
    } else {
        match flow_statements(st, k - 1, b) {
            None => None,
            Some(b1) => if trim(st[k - 1]).len() == 0 {
                Some(b1)
            } else {
                parse_chain(trim(st[k - 1]), b1)
            },
        }
    }
}

/// The first `k` lines of a flowchart body applied in turn.
pub open spec fn flow_lines(ls: Seq<Seq<char>>, k: int) -> Option<FlowV>
    decreases k,
{
    if k <= 0 || k > ls.len() {
        Some(FlowV { nodes: Seq::empty(), edges: Seq::empty() })
    } else {
        match flow_lines(ls, k - 1) {
            None => None,
            Some(b) => flow_statements(statements(ls[k - 1]), statements(ls[k - 1]).len() as int, b),
        }
    }
}

// ---------------------------------------------------------------------------
// Sequence diagrams
// ---------------------------------------------------------------------------

/// Index of the actor with id `id` among `actors[i..]`.
pub open spec fn find_actor(actors: Seq<ActorV>, id: Seq<char>, i: int) -> Option<int>
    decreases actors.len() - i,
{
    if i < 0 || i >= actors.len() {
        None
    } else if actors[i].id == id {
        Some(i)
    } else {
        find_actor(actors, id, i + 1)
    }
}

/// The actor `id` (added, labelled `label` or its id, when new) and its
/// index.
pub open spec fn actor_idx(b: SeqV, id: Seq<char>, label: Option<Seq<char>>) -> (SeqV, int) {
    match find_actor(b.actors, id, 0) {
        Some(i) => (b, i),
        None => (
            SeqV {
                actors: b.actors.push(
                    ActorV {
                        id,
                        label: match label {
                            Some(l) => l,
                            None => id,
                        },
                    },
                ),
                ..b
            },
            b.actors.len() as int,
        ),
    }
}

/// The message operator at `i`, longest forms first.
pub open spec fn seq_op_at(t: Seq<char>, i: int) -> Option<Seq<char>> {
    if starts_at(t, i, "-->>"@) {
        Some("-->>"@)
    } else if starts_at(t, i, "->>"@) {
        Some("->>"@)
    } else if starts_at(t, i, "-->"@) {
        Some("-->"@)
    } else if starts_at(t, i, "->"@) {
        Some("->"@)
    } else {
        None
    }
}

/// The first message operator at or after `i`.
pub open spec fn find_seq_op(t: Seq<char>, i: int) -> Option<(int, Seq<char>)>
    decreases t.len() - i,
{
    if i < 0 || i >= t.len() {
        None
    } else if seq_op_at(t, i) is Some {
        Some((i, seq_op_at(t, i)->Some_0))
    } else {
        find_seq_op(t, i + 1)
    }
}

/// `from op to[: text]`.
pub open spec fn parse_message(line: Seq<char>, b: SeqV) -> Option<SeqV> {
    match find_seq_op(line, 0) {
        None => None,
        Some((pos, op)) => {
            let from = trim(line.subrange(0, pos));
            let rest = trim(tail(line, pos + op.len()));
            let colon = find_char(rest, 0, ':');
            let to = if colon < rest.len() {
                trim(rest.subrange(0, colon))
            } else {
                rest
            };
            let text = if colon < rest.len() {
                trim(tail(rest, colon + 1))
            } else {
                Seq::empty()
            };
            if !valid_actor_id(from) || !valid_actor_id(to) {
                None
            } else {
                let (b1, f) = actor_idx(b, from, None);
                let (b2, g) = actor_idx(b1, to, None);
                Some(
                    SeqV {
                        events: b2.events.push(
                            SEventV::Message { from: f, to: g, text, dotted: starts_at(op, 0, "--"@) },
                        ),
                        ..b2
                    },
                )
            }
        },
    }
}

/// The actors a note's comma-separated targets name, added as needed.
pub open spec fn note_targets(parts: Seq<Seq<char>>, k: int, b: SeqV) -> Option<(SeqV, Seq<int>)>
    decreases k,
{
    if k <= 0 || k > parts.len() {
        Some((b, Seq::empty()))
    } else {
        match note_targets(parts, k - 1, b) {
            None => None,
            Some((b1, ids)) => {
                let id = trim(parts[k - 1]);
                if valid_actor_id(id) {
                    let (b2, i) = actor_idx(b1, id, None);
                    Some((b2, ids.push(i)))
                } else {
                    None
                }
            },
        }
    }
}

/// `Note over|left of|right of targets: text`.
pub open spec fn parse_note(line: Seq<char>, b: SeqV) -> Option<SeqV> {
    let rest = trim_start(tail(line, 4));
    let placed = if starts_at(rest, 0, "over "@) {
        Some((NotePlace::Over, tail(rest, 5)))
    } else if starts_at(rest, 0, "left of "@) {
        Some((NotePlace::Left, tail(rest, 8)))
    } else if starts_at(rest, 0, "right of "@) {
        Some((NotePlace::Right, tail(rest, 9)))
    } else {
        None
    };
    match placed {
        None => None,
        Some((place, r)) => {
            let colon = find_char(r, 0, ':');
            if colon >= r.len() {
                None
            } else {
                let parts = crate::text::split_from(r.subrange(0, colon), 0, ',');
                match note_targets(parts, parts.len() as int, b) {
                    None => None,
                    Some((b1, ids)) => if ids.len() == 0 {
                        None
                    } else {
                        Some(
                            SeqV {
                                events: b1.events.push(
                                    SEventV::Note { actors: ids, place, text: trim(tail(r, colon + 1)) },
                                ),
                                ..b1
                            },
                        )
                    },
                }
            }
        },
    }
}

/// One (trimmed, non-empty) line of a sequence diagram.
pub open spec fn parse_seq_line(line: Seq<char>, b: SeqV) -> Option<SeqV> {
    let kw = line.subrange(0, word_end(line, 0));
    let rest = trim(tail(line, kw.len() as int));
    if kw == "participant"@ || kw == "actor"@ {
        let at = find_seq(rest, " as "@, 0);
        let id = match at {
            Some(a) => trim(rest.subrange(0, a)),
            None => rest,
        };
        let label = match at {
            Some(a) => Some(trim(tail(rest, a + 4))),
            None => None,
        };
        if valid_actor_id(id) {
            Some(actor_idx(b, id, label).0)
        } else {
            None
        }
    } else if kw == "autonumber"@ || kw == "end"@ {
        Some(b)
    } else if kw == "activate"@ || kw == "deactivate"@ {
        if valid_actor_id(rest) {
            Some(actor_idx(b, rest, None).0)
        } else {
            None
        }
    } else if kw == "loop"@ || kw == "alt"@ || kw == "opt"@ {
        if rest.len() == 0 {
            None
        } else {
            Some(SeqV { events: b.events.push(SEventV::Divider { text: kw + ": "@ + rest }), ..b })
        }
    } else if kw == "else"@ {
        Some(
            SeqV {
                events: b.events.push(
                    SEventV::Divider {
                        text: if rest.len() == 0 {
                            "else"@
                        } else {
                            "else: "@ + rest
                        },
                    },
                ),
                ..b
            },
        )
    } else if kw == "Note"@ {
        parse_note(line, b)
    } else {
        parse_message(line, b)
    }
}

/// A line of a sequence diagram with its `%%` comment cut off, trimmed.
pub open spec fn seq_content(line: Seq<char>) -> Seq<char> {
    match find_seq(line, "%%"@, 0) {
        Some(a) => trim(line.subrange(0, a)),
        None => trim(line),
    }
}

/// The first `k` lines of a sequence body applied in turn.
pub open spec fn seq_lines(ls: Seq<Seq<char>>, k: int) -> Option<SeqV>
    decreases k,
{
    if k <= 0 || k > ls.len() {
        Some(SeqV { actors: Seq::empty(), events: Seq::empty() })
    } else {
        match seq_lines(ls, k - 1) {
            None => None,
            Some(b) => if seq_content(ls[k - 1]).len() == 0 {
                Some(b)
            } else {
                parse_seq_line(seq_content(ls[k - 1]), b)
            },
        }
    }
}

// ---------------------------------------------------------------------------
// Diagrams
// ---------------------------------------------------------------------------

/// The head line, trimmed and without trailing `;`.
pub open spec fn head_of(line: Seq<char>) -> Seq<char> {
    trim(trim_end_char(trim(line), ';'))
}

/// The diagram a fenced `mermaid` block holds, or `None` when it is not in
/// the supported subset.
pub open spec fn spec_diagram(text: Seq<char>) -> Option<DiagramV> {
    let ls = lines(text);
    if ls.len() == 0 {
        None
    } else {
        let head = head_of(ls[0]);
        let body = ls.subrange(1, ls.len() as int);
        match flow_head(head) {
            Some(direction) => match flow_lines(body, body.len() as int) {
                Some(chart) => if chart.nodes.len() > 0 {
                    Some(DiagramV::Flow { direction, chart })
                } else {
                    None
                },
                None => None,
            },
            None => if head == "sequenceDiagram"@ {
                match seq_lines(body, body.len() as int) {
                    Some(s) => if s.actors.len() > 0 || s.events.len() > 0 {
                        Some(DiagramV::Sequence(s))
                    } else {
                        None
                    },
                    None => None,
                }
            } else {
                None
            },
        }
    }
}

// ---------------------------------------------------------------------------
// Executable parse: pieces
// ---------------------------------------------------------------------------

/// `t[a..]`, empty past the end.
fn tail_of(t: &Vec<char>, a: usize) -> (r: Vec<char>)
    ensures
        r@ == tail(t@, a as int),
{
    if a >= t.len() {
        Vec::new()
    } else {
        slice_of(t, a, t.len())
    }
}

/// The flowchart direction a head line names.
fn parse_flow_head(head: &Vec<char>) -> (r: Option<FlowDir>)
    ensures
        r == flow_head(head@),
{
    let a = skip_spaces(head, 0);
    let b = word_end_of(head, a);
    let c = skip_spaces(head, b);
    let d = word_end_of(head, c);
    let kind = slice_of(head, a, b);
    let dir = slice_of(head, c, d);
    if a >= head.len() || skip_spaces(head, d) < head.len() {
        None
    } else if !eq_str(&kind, "graph") && !eq_str(&kind, "flowchart") {
        None
    } else if c >= head.len() || eq_str(&dir, "TD") || eq_str(&dir, "TB") {
        Some(FlowDir::TopDown)
    } else if eq_str(&dir, "BT") {
        Some(FlowDir::BottomUp)
    } else if eq_str(&dir, "LR") {
        Some(FlowDir::LeftRight)
    } else if eq_str(&dir, "RL") {
        Some(FlowDir::RightLeft)
    } else {
        None
    }
}

/// End of the word starting at `i`.
fn word_end_of(t: &Vec<char>, i: usize) -> (j: usize)
    requires
        i <= t.len(),
    ensures
        j == word_end(t@, i as int),
        i <= j <= t.len(),
{
    let mut j = i;
    while j < t.len() && !is_whitespace(t[j])
        invariant
            i <= j <= t.len(),
            word_end(t@, i as int) == word_end(t@, j as int),
        decreases t.len() - j,
    {
        j += 1;
    }
    j
}

/// The statements of a line (see [`statements`]).
fn split_statements(t: &Vec<char>) -> (out: Vec<Vec<char>>)
    ensures
        out@.len() == statements(t@).len(),
        forall|k: int| 0 <= k < out@.len() ==> #[trigger] out@[k]@ == statements(t@)[k],
{
    let mut out: Vec<Vec<char>> = Vec::new();
    let mut cur: Vec<char> = Vec::new();
    let mut quoted = false;
    let mut i: usize = 0;
    let ghost mut done: Seq<Seq<char>> = Seq::empty();
    while i < t.len()
        invariant
            i <= t.len(),
            statements(t@) == done + statements_from(t@, i as int, cur@, quoted),
            out@.len() == done.len(),
            forall|k: int| 0 <= k < out@.len() ==> #[trigger] out@[k]@ == done[k],
        ensures
            statements(t@) == done + seq![cur@],
            out@.len() == done.len(),
            forall|k: int| 0 <= k < out@.len() ==> #[trigger] out@[k]@ == done[k],
        decreases t.len() - i,
    {
        let c = t[i];
        if c == '"' {
            quoted = !quoted;
            cur.push(c);
        } else if !quoted && c == '%' && i + 1 < t.len() && t[i + 1] == '%' {
            assert(statements_from(t@, i as int, cur@, quoted) == seq![cur@]);
            break;
        } else if !quoted && c == ';' {
            proof {
                done = done.push(cur@);
            }
            out.push(cur);
            cur = Vec::new();
            assert(statements(t@) == done + statements_from(t@, i + 1, cur@, quoted));
        } else {
            cur.push(c);
        }
        i += 1;
    }
    proof {
        done = done.push(cur@);
    }
    out.push(cur);
    assert(statements(t@) =~= done);
    out
}

/// The edge operator at `i`, longest forms first.
fn edge_op(t: &Vec<char>, i: usize) -> (r: Option<&'static str>)
    ensures
        match r {
            Some(op) => edge_op_at(t@, i as int) == Some(op@) && i + op@.len() <= t@.len(),
            None => edge_op_at(t@, i as int) is None,
        },
{
    if occurs_at_str(t, i, "-.->") {
        Some("-.->")
    } else if occurs_at_str(t, i, "-->") {
        Some("-->")
    } else if occurs_at_str(t, i, "==>") {
        Some("==>")
    } else if occurs_at_str(t, i, "---") {
        Some("---")
    } else if occurs_at_str(t, i, "--") {
        Some("--")
    } else {
        None
    }
}

/// The first edge operator outside double quotes (see [`find_op`]).
fn find_edge_op(t: &Vec<char>) -> (r: Option<(usize, &'static str)>)
    ensures
        match r {
            Some((p, op)) => find_op(t@) == Some((p as int, op@)) && p + op@.len() <= t@.len(),
            None => find_op(t@) is None,
        },
{
    let mut quoted = false;
    let mut i: usize = 0;
    while i < t.len()
        invariant
            i <= t.len(),
            find_op(t@) == find_op_from(t@, i as int, quoted),
        decreases t.len() - i,
    {
        if t[i] == '"' {
            quoted = !quoted;
        } else if !quoted {
            if let Some(op) = edge_op(t, i) {
                return Some((i, op));
            }
        }
        i += 1;
    }
    None
}

/// The closing bracket of an opening one.
fn closer_for(c: char) -> (r: Option<char>)
    ensures
        r == closer_of(c),
{
    if c == '(' {
        Some(')')
    } else if c == '[' {
        Some(']')
    } else if c == '{' {
        Some('}')
    } else if c == '<' {
        Some('>')
    } else {
        None
    }
}

/// `t` without one surrounding bracket pair, trimmed.
fn strip_bracket_pair(t: &Vec<char>) -> (r: Option<Vec<char>>)
    ensures
        match r {
            Some(v) => strip_pair(t@) == Some(v@),
            None => strip_pair(t@) is None,
        },
{
    if t.len() == 0 {
        return None;
    }
    match closer_for(t[0]) {
        Some(c) => {
            if t.len() >= 2 && t[t.len() - 1] == c {
                let inner = slice_of(t, 1, t.len() - 1);
                Some(trimmed(&inner))
            } else {
                None
            }
        },
        None => None,
    }
}

/// Up to two bracket layers peeled off.
fn peel_label(label: Vec<char>) -> (r: Vec<char>)
    ensures
        r@ == peel(label@),
{
    match strip_bracket_pair(&label) {
        Some(once) => match strip_bracket_pair(&once) {
            Some(twice) => twice,
            None => once,
        },
        None => label,
    }
}

/// Shape, opener length and closer a node body starts with.
fn opener(t: &Vec<char>) -> (r: Option<(Shape, usize, &'static str)>)
    ensures
        match r {
            Some((shape, n, closer)) => shape_opener(t@) == Some((shape, n as int, closer@)),
            None => shape_opener(t@) is None,
        },
{
    if occurs_at_str(t, 0, "((") {
        Some((Shape::Circle, 2, "))"))
    } else if occurs_at_str(t, 0, "([") {
        Some((Shape::Stadium, 2, "])"))
    } else if occurs_at_str(t, 0, "[[") {
        Some((Shape::Subroutine, 2, "]]"))
    } else if occurs_at_str(t, 0, "{{") {
        Some((Shape::Hexagon, 2, "}}"))
    } else if occurs_at_str(t, 0, "[(") {
        Some((Shape::Round, 2, ")]"))
    } else if occurs_at_str(t, 0, "[/") {
        Some((Shape::Rect, 2, "/]"))
    } else if occurs_at_str(t, 0, "[\\") {
        Some((Shape::Rect, 2, "\\]"))
    } else if occurs_at_str(t, 0, "[") {
        Some((Shape::Rect, 1, "]"))
    } else if occurs_at_str(t, 0, "(") {
        Some((Shape::Round, 1, ")"))
    } else if occurs_at_str(t, 0, "{") {
        Some((Shape::Diamond, 1, "}"))
    } else if occurs_at_str(t, 0, ">") {
        Some((Shape::Rect, 1, "]"))
    } else {
        None
    }
}

/// Whether `t` ends with `p`.
fn ends_with_str(t: &Vec<char>, p: &str) -> (b: bool)
    ensures
        b == ends_with(t@, p@),
{
    let w = chars_of(p);
    if w.len() > t.len() {
        return false;
    }
    occurs_at_str(t, t.len() - w.len(), p)
}

/// Shape and label of a node body (see [`parse_shape`]).
fn shape_of(t: &Vec<char>) -> (r: Option<(Shape, Vec<char>)>)
    ensures
        match r {
            Some((shape, label)) => parse_shape(t@) == Some((shape, label@)),
            None => parse_shape(t@) is None,
        },
{
    match opener(t) {
        Some((shape, n, closer)) => {
            let rest = tail_of(t, n);
            let body = trimmed_end(&rest);
            if ends_with_str(&body, closer) {
                let w = chars_of(closer);
                let inner = slice_of(&body, 0, body.len() - w.len());
                let label = trimmed(&inner);
                Some((shape, peel_label(label)))
            } else {
                None
            }
        },
        None => None,
    }
}

/// End of the identifier at the start of `t[i..]`.
fn id_end_of(t: &Vec<char>, i: usize) -> (j: usize)
    requires
        i <= t.len(),
    ensures
        j == id_end(t@, i as int),
        i <= j <= t.len(),
{
    let mut j = i;
    while j < t.len() && (is_alphanumeric(t[j]) || t[j] == '_')
        invariant
            i <= j <= t.len(),
            id_end(t@, i as int) == id_end(t@, j as int),
        decreases t.len() - j,
    {
        j += 1;
    }
    j
}

/// Nodes and edges gathered while parsing a flowchart.
struct FlowBuilder {
    nodes: Vec<FNode>,
    edges: Vec<FEdge>,
}

spec fn builder_v(b: FlowBuilder) -> FlowV {
    flow_v(b.nodes@, b.edges@)
}

impl FlowBuilder {
    /// Index of node `id`, adding it as a labelled rectangle when new.
    fn node_idx(&mut self, id: &Vec<char>) -> (i: usize)
        ensures
            (builder_v(*final(self)), i as int) == node_idx(builder_v(*old(self)), id@),
            final(self).edges@ == old(self).edges@,
            i < final(self).nodes@.len(),
    {
        let ghost nv = builder_v(*self).nodes;
        let mut i: usize = 0;
        while i < self.nodes.len()
            invariant
                i <= self.nodes.len(),
                nv == builder_v(*self).nodes,
                find_node(nv, id@, 0) == find_node(nv, id@, i as int),
            decreases self.nodes.len() - i,
        {
            if eq_str(id, self.nodes[i].id.as_str()) {
                return i;
            }
            i += 1;
        }
        let n = self.nodes.len();
        let name = crate::text::string_of(id.as_slice());
        let node = FNode { id: name.clone(), label: name, shape: Shape::Rect };
        let ghost before = self.nodes@;
        self.nodes.push(node);
        assert(builder_v(*self).nodes =~= nv.push(FNodeV { id: id@, label: id@, shape: Shape::Rect }));
        assert(builder_v(*self).edges =~= builder_v(*old(self)).edges);
        n
    }

    /// A node reference (see [`parse_node`]).
    fn parse_node(&mut self, t: &Vec<char>) -> (r: Option<usize>)
        ensures
            match r {
                Some(i) => parse_node(t@, builder_v(*old(self))) == Some((builder_v(*final(self)), i as int)),
                None => parse_node(t@, builder_v(*old(self))) is None,
            },
    {
        let s = trimmed(t);
        let n = id_end_of(&s, 0);
        if n == 0 {
            return None;
        }
        let id = slice_of(&s, 0, n);
        let index = self.node_idx(&id);
        let after = slice_of(&s, n, s.len());
        let rest = trimmed_start(&after);
        if rest.len() == 0 {
            return Some(index);
        }
        match shape_of(&rest) {
            Some((shape, label)) => {
                let ghost b1 = builder_v(*self);
                let label = crate::text::string_of(label.as_slice());
                let ghost lv = label@;
                let old_node = self.nodes[index].id.clone();
                let node = FNode { id: old_node, label, shape };
                self.nodes.set(index, node);
                assert(builder_v(*self).nodes =~= b1.nodes.update(
                    index as int,
                    FNodeV { label: lv, shape, ..b1.nodes[index as int] },
                ));
                assert(builder_v(*self).edges =~= b1.edges);
                Some(index)
            },
            None => None,
        }
    }
}

/// Whether two strings are equal.
fn same_str(a: &str, b: &str) -> (r: bool)
    ensures
        r == (a@ == b@),
{
    eq_str(&chars_of(a), b)
}

/// The label and rest after an operator (see [`pipe_label`]).
fn pipe_split(rest: &Vec<char>) -> (r: Option<(Vec<char>, Vec<char>)>)
    ensures
        match r {
            Some((label, more)) => pipe_label(rest@) == Some((label@, more@)),
            None => pipe_label(rest@) is None,
        },
{
    if rest.len() > 0 && rest[0] == '|' {
        let after = slice_of(rest, 1, rest.len());
        let end = crate::text::find_char_from(&after, 0, '|');
        if end < after.len() {
            let label = trimmed(&slice_of(&after, 0, end));
            let more = trimmed_start(&tail_of(&after, end + 1));
            Some((label, more))
        } else {
            None
        }
    } else {
        Some((Vec::new(), slice_of(rest, 0, rest.len())))
    }
}

/// The closing operator, label and rest of `-- text -->` (see
/// [`dash_label`]).
fn dash_split(label: Vec<char>, rest: Vec<char>) -> (r: Option<(&'static str, Vec<char>, Vec<char>)>)
    ensures
        match r {
            Some((op, l, more)) => dash_label(label@, rest@) == Some((op@, l@, more@)),
            None => dash_label(label@, rest@) is None,
        },
{
    match find_edge_op(&rest) {
        Some((p, closer)) => {
            let between = trimmed(&slice_of(&rest, 0, p));
            let w = chars_of(closer);
            if same_str(closer, "--") {
                None
            } else if label.len() == 0 {
                Some((closer, between, trimmed_start(&tail_of(&rest, p + w.len()))))
            } else if between.len() > 0 {
                None
            } else {
                Some((closer, label, trimmed_start(&tail_of(&rest, p + w.len()))))
            }
        },
        None => Some(("--", label, rest)),
    }
}

impl FlowBuilder {
    /// A statement (see [`parse_chain`]).
    fn parse_chain(&mut self, t: &Vec<char>) -> (ok: bool)
        ensures
            ok ==> parse_chain(t@, builder_v(*old(self))) == Some(builder_v(*final(self))),
            !ok ==> parse_chain(t@, builder_v(*old(self))) is None,
        decreases t@.len(),
    {
        let ghost b0 = builder_v(*self);
        let (pos, op) = match find_edge_op(t) {
            None => {
                return self.parse_node(t).is_some();
            },
            Some(found) => found,
        };
        let left = trimmed(&slice_of(t, 0, pos));
        let w = chars_of(op);
        let after = trimmed_start(&tail_of(t, pos + w.len()));
        let (label0, rest0) = match pipe_split(&after) {
            None => {
                return false;
            },
            Some(split) => split,
        };
        let (edge_op, label, rest) = if same_str(op, "--") {
            match dash_split(label0, rest0) {
                None => {
                    return false;
                },
                Some(split) => split,
            }
        } else {
            (op, label0, rest0)
        };
        let (target, more) = match find_edge_op(&rest) {
            Some((q, _)) => (trimmed(&slice_of(&rest, 0, q)), trimmed_start(&tail_of(&rest, q))),
            None => (trimmed(&rest), Vec::new()),
        };
        if left.len() == 0 || target.len() == 0 {
            return false;
        }
        let from = match self.parse_node(&left) {
            None => {
                return false;
            },
            Some(i) => i,
        };
        let to = match self.parse_node(&target) {
            None => {
                return false;
            },
            Some(i) => i,
        };
        let edge = FEdge {
            from,
            to,
            label: crate::text::string_of(label.as_slice()),
            dashed: same_str(edge_op, "-.->"),
            thick: same_str(edge_op, "==>"),
            arrow: !(same_str(edge_op, "---") || same_str(edge_op, "--")),
        };
        let ghost b2 = builder_v(*self);
        self.edges.push(edge);
        assert(builder_v(*self).edges =~= b2.edges.push(fedge_v(edge)));
        assert(builder_v(*self).nodes =~= b2.nodes);
        if more.len() == 0 {
            return true;
        }
        let mut next = slice_of(&target, 0, target.len());
        next.push(' ');
        let mut i: usize = 0;
        while i < more.len()
            invariant
                i <= more.len(),
                next@ == target@ + seq![' '] + more@.take(i as int),
            decreases more.len() - i,
        {
            next.push(more[i]);
            assert(more@.take(i + 1) =~= more@.take(i as int).push(more@[i as int]));
            i += 1;
        }
        assert(more@.take(more@.len() as int) =~= more@);
        if next.len() < t.len() {
            self.parse_chain(&next)
        } else {
            false
        }
    }
}

/// Once a statement fails, the rest of the line fails.
proof fn lemma_statements_fail(st: Seq<Seq<char>>, m: int, n: int, b: FlowV)
    requires
        1 <= m <= n <= st.len(),
        flow_statements(st, m, b) is None,
    ensures
        flow_statements(st, n, b) is None,
    decreases n - m,
{
    if m < n {
        lemma_statements_fail(st, m + 1, n, b);
    }
}

/// Once a line fails, the whole body fails.
proof fn lemma_lines_fail(ls: Seq<Seq<char>>, m: int, n: int)
    requires
        1 <= m <= n <= ls.len(),
        flow_lines(ls, m) is None,
    ensures
        flow_lines(ls, n) is None,
    decreases n - m,
{
    if m < n {
        lemma_lines_fail(ls, m + 1, n);
    }
}

/// A flowchart body: every statement of every line (see [`flow_lines`]).
fn parse_flowchart(direction: FlowDir, ls: &Vec<Vec<char>>, first: usize) -> (r: Option<Flowchart>)
    requires
        first <= ls.len(),
    ensures
        match r {
            Some(f) => {
                let body = Seq::new((ls.len() - first) as nat, |k: int| ls@[first + k]@);
                &&& flow_lines(body, body.len() as int) == Some(flow_v(f.nodes@, f.edges@))
                &&& f.nodes@.len() > 0
                &&& f.direction == direction
            },
            None => {
                let body = Seq::new((ls.len() - first) as nat, |k: int| ls@[first + k]@);
                flow_lines(body, body.len() as int) matches Some(b) ==> b.nodes.len() == 0
            },
        },
{
    let ghost body = Seq::new((ls.len() - first) as nat, |k: int| ls@[first + k]@);
    let mut b = FlowBuilder { nodes: Vec::new(), edges: Vec::new() };
    assert(builder_v(b).nodes =~= Seq::<FNodeV>::empty());
    assert(builder_v(b).edges =~= Seq::<FEdgeV>::empty());
    let mut k = first;
    while k < ls.len()
        invariant
            first <= k <= ls.len(),
            body == Seq::new((ls.len() - first) as nat, |j: int| ls@[first + j]@),
            flow_lines(body, k - first) == Some(builder_v(b)),
        decreases ls.len() - k,
    {
        let st = split_statements(&ls[k]);
        let ghost sv = statements(ls@[k as int]@);
        assert(body[k - first] == ls@[k as int]@);
        let mut j: usize = 0;
        while j < st.len()
            invariant
                j <= st.len(),
                first <= k < ls.len(),
                body == Seq::new((ls.len() - first) as nat, |m: int| ls@[first + m]@),
                sv == statements(body[k - first]),
                st@.len() == sv.len(),
                forall|m: int| 0 <= m < st@.len() ==> #[trigger] st@[m]@ == sv[m],
                flow_lines(body, k - first) matches Some(b0) && flow_statements(sv, j as int, b0) == Some(
                    builder_v(b),
                ),
            decreases st.len() - j,
        {
            let stmt = trimmed(&st[j]);
            if stmt.len() > 0 {
                if !b.parse_chain(&stmt) {
                    proof {
                        lemma_statements_fail(sv, j + 1, sv.len() as int, flow_lines(body, k - first)->Some_0);
                        lemma_lines_fail(body, k - first + 1, body.len() as int);
                    }
                    return None;
                }
            }
            j += 1;
        }
        k += 1;
    }
    if b.nodes.len() == 0 {
        return None;
    }
    Some(Flowchart { direction, nodes: b.nodes, edges: b.edges })
}

// ---------------------------------------------------------------------------
// Executable parse: sequence diagrams
// ---------------------------------------------------------------------------

/// Actors and events gathered while parsing a sequence diagram.
struct SeqBuilder {
    actors: Vec<Actor>,
    events: Vec<SEvent>,
}

spec fn seq_builder_v(b: SeqBuilder) -> SeqV {
    seq_v(b.actors@, b.events@)
}

/// First index at or after `i` where `p` occurs (see [`find_seq`]).
fn find_str(t: &Vec<char>, p: &str, i: usize) -> (r: Option<usize>)
    requires
        i <= t.len(),
    ensures
        match r {
            Some(a) => find_seq(t@, p@, i as int) == Some(a as int) && a + p@.len() <= t@.len(),
            None => find_seq(t@, p@, i as int) is None,
        },
{
    let mut j = i;
    loop
        invariant
            i <= j <= t.len(),
            find_seq(t@, p@, i as int) == find_seq(t@, p@, j as int),
        decreases t.len() - j,
    {
        if occurs_at_str(t, j, p) {
            return Some(j);
        }
        if j == t.len() {
            assert(find_seq(t@, p@, j + 1) is None);
            return None;
        }
        j += 1;
    }
}

/// Whether `id` is non-empty and holds no white space.
fn valid_id(id: &Vec<char>) -> (b: bool)
    ensures
        b == valid_actor_id(id@),
{
    if id.len() == 0 {
        return false;
    }
    let mut i: usize = 0;
    while i < id.len()
        invariant
            i <= id.len(),
            forall|k: int| 0 <= k < i ==> !is_ws(#[trigger] id@[k]),
        decreases id.len() - i,
    {
        if is_whitespace(id[i]) {
            return false;
        }
        i += 1;
    }
    true
}

/// The message operator at `i`, longest forms first.
fn seq_op(t: &Vec<char>, i: usize) -> (r: Option<&'static str>)
    ensures
        match r {
            Some(op) => seq_op_at(t@, i as int) == Some(op@) && i + op@.len() <= t@.len(),
            None => seq_op_at(t@, i as int) is None,
        },
{
    if occurs_at_str(t, i, "-->>") {
        Some("-->>")
    } else if occurs_at_str(t, i, "->>") {
        Some("->>")
    } else if occurs_at_str(t, i, "-->") {
        Some("-->")
    } else if occurs_at_str(t, i, "->") {
        Some("->")
    } else {
        None
    }
}

/// The first message operator (see [`find_seq_op`]).
fn find_message_op(t: &Vec<char>) -> (r: Option<(usize, &'static str)>)
    ensures
        match r {
            Some((p, op)) => find_seq_op(t@, 0) == Some((p as int, op@)) && p + op@.len() <= t@.len(),
            None => find_seq_op(t@, 0) is None,
        },
{
    let mut i: usize = 0;
    while i < t.len()
        invariant
            i <= t.len(),
            find_seq_op(t@, 0) == find_seq_op(t@, i as int),
        decreases t.len() - i,
    {
        if let Some(op) = seq_op(t, i) {
            return Some((i, op));
        }
        i += 1;
    }
    None
}

impl SeqBuilder {
    /// Index of actor `id`, adding it (labelled `label` or its id) when new.
    fn actor_idx(&mut self, id: &Vec<char>, label: Option<Vec<char>>) -> (i: usize)
        ensures
            (seq_builder_v(*final(self)), i as int) == actor_idx(
                seq_builder_v(*old(self)),
                id@,
                match label {
                    Some(l) => Some(l@),
                    None => None,
                },
            ),
    {
        let ghost av = seq_builder_v(*self).actors;
        let mut i: usize = 0;
        while i < self.actors.len()
            invariant
                i <= self.actors.len(),
                av == seq_builder_v(*self).actors,
                find_actor(av, id@, 0) == find_actor(av, id@, i as int),
            decreases self.actors.len() - i,
        {
            if eq_str(id, self.actors[i].id.as_str()) {
                return i;
            }
            i += 1;
        }
        let n = self.actors.len();
        let name = crate::text::string_of(id.as_slice());
        let shown = match label {
            Some(l) => crate::text::string_of(l.as_slice()),
            None => name.clone(),
        };
        let actor = Actor { id: name, label: shown };
        self.actors.push(actor);
        assert(seq_builder_v(*self).actors =~= av.push(actor_v(actor)));
        assert(seq_builder_v(*self).events =~= seq_builder_v(*old(self)).events);
        n
    }

    /// Appends an event.
    fn push_event(&mut self, e: SEvent)
        ensures
            seq_builder_v(*final(self)) == (SeqV {
                events: seq_builder_v(*old(self)).events.push(sevent_v(e)),
                ..seq_builder_v(*old(self))
            }),
    {
        let ghost b = seq_builder_v(*self);
        self.events.push(e);
        assert(seq_builder_v(*self).events =~= b.events.push(sevent_v(e)));
        assert(seq_builder_v(*self).actors =~= b.actors);
    }

    /// `from op to[: text]` (see [`parse_message`]).
    fn parse_message(&mut self, line: &Vec<char>) -> (ok: bool)
        ensures
            ok ==> parse_message(line@, seq_builder_v(*old(self))) == Some(seq_builder_v(*final(self))),
            !ok ==> parse_message(line@, seq_builder_v(*old(self))) is None,
    {
        let (pos, op) = match find_message_op(line) {
            None => {
                return false;
            },
            Some(found) => found,
        };
        let from = trimmed(&slice_of(line, 0, pos));
        let w = chars_of(op);
        assert(w@.len() == op@.len());
        assert(pos + op@.len() <= line@.len());
        assert(pos + w.len() <= line.len());
        let rest = trimmed(&tail_of(line, pos + w.len()));
        let colon = crate::text::find_char_from(&rest, 0, ':');
        let to = if colon < rest.len() {
            trimmed(&slice_of(&rest, 0, colon))
        } else {
            assert(rest@.subrange(0, rest@.len() as int) =~= rest@);
            slice_of(&rest, 0, rest.len())
        };
        let text = if colon < rest.len() {
            trimmed(&tail_of(&rest, colon + 1))
        } else {
            Vec::new()
        };
        if !valid_id(&from) || !valid_id(&to) {
            return false;
        }
        let f = self.actor_idx(&from, None);
        let g = self.actor_idx(&to, None);
        let dotted = occurs_at_str(&w, 0, "--");
        self.push_event(
            SEvent::Message { from: f, to: g, text: crate::text::string_of(text.as_slice()), dotted },
        );
        true
    }
}

impl SeqBuilder {
    /// `Note over|left of|right of targets: text` (see [`parse_note`]).
    fn parse_note(&mut self, line: &Vec<char>) -> (ok: bool)
        ensures
            ok ==> parse_note(line@, seq_builder_v(*old(self))) == Some(seq_builder_v(*final(self))),
            !ok ==> parse_note(line@, seq_builder_v(*old(self))) is None,
    {
        let rest = trimmed_start(&tail_of(line, 4));
        let (place, r) = if occurs_at_str(&rest, 0, "over ") {
            (NotePlace::Over, tail_of(&rest, 5))
        } else if occurs_at_str(&rest, 0, "left of ") {
            (NotePlace::Left, tail_of(&rest, 8))
        } else if occurs_at_str(&rest, 0, "right of ") {
            (NotePlace::Right, tail_of(&rest, 9))
        } else {
            return false;
        };
        proof {
            reveal_strlit("over ");
            reveal_strlit("left of ");
            reveal_strlit("right of ");
        }
        let colon = crate::text::find_char_from(&r, 0, ':');
        if colon >= r.len() {
            return false;
        }
        let targets = slice_of(&r, 0, colon);
        let parts = split_on(&targets, ',');
        let ghost pv = crate::text::split_from(targets@, 0, ',');
        let mut actors: Vec<usize> = Vec::new();
        let mut k: usize = 0;
        assert(note_targets(pv, pv.len() as int, seq_builder_v(*old(self))) is None ==> parse_note(
            line@,
            seq_builder_v(*old(self)),
        ) is None);
        while k < parts.len()
            invariant
                k <= parts.len(),
                note_targets(pv, pv.len() as int, seq_builder_v(*old(self))) is None ==> parse_note(
                    line@,
                    seq_builder_v(*old(self)),
                ) is None,
                parts@.len() == pv.len(),
                forall|m: int| 0 <= m < parts@.len() ==> #[trigger] parts@[m]@ == pv[m],
                note_targets(pv, k as int, seq_builder_v(*old(self))) == Some(
                    (seq_builder_v(*self), Seq::new(actors@.len(), |m: int| actors@[m] as int)),
                ),
            decreases parts.len() - k,
        {
            let id = trimmed(&parts[k]);
            if !valid_id(&id) {
                proof {
                    lemma_note_targets_fail(pv, k as int + 1, pv.len() as int, seq_builder_v(*old(self)));
                }
                return false;
            }
            let i = self.actor_idx(&id, None);
            let ghost before = actors@;
            actors.push(i);
            assert(Seq::new(actors@.len(), |m: int| actors@[m] as int) =~= Seq::new(
                before.len(),
                |m: int| before[m] as int,
            ).push(i as int));
            k += 1;
        }
        if actors.len() == 0 {
            return false;
        }
        let text = trimmed(&tail_of(&r, colon + 1));
        let ghost ids = Seq::new(actors@.len(), |m: int| actors@[m] as int);
        let e = SEvent::Note { actors, place, text: crate::text::string_of(text.as_slice()) };
        assert(sevent_v(e) == SEventV::Note { actors: ids, place, text: text@ });
        self.push_event(e);
        true
    }
}

/// Once a target fails, the note fails.
proof fn lemma_note_targets_fail(parts: Seq<Seq<char>>, m: int, n: int, b: SeqV)
    requires
        1 <= m <= n <= parts.len(),
        note_targets(parts, m, b) is None,
    ensures
        note_targets(parts, n, b) is None,
    decreases n - m,
{
    if m < n {
        lemma_note_targets_fail(parts, m + 1, n, b);
    }
}

impl SeqBuilder {
    /// One trimmed, non-empty line (see [`parse_seq_line`]).
    fn parse_seq_line(&mut self, line: &Vec<char>) -> (ok: bool)
        ensures
            ok ==> parse_seq_line(line@, seq_builder_v(*old(self))) == Some(seq_builder_v(*final(self))),
            !ok ==> parse_seq_line(line@, seq_builder_v(*old(self))) is None,
    {
        let e = word_end_of(line, 0);
        let kw = slice_of(line, 0, e);
        let rest = trimmed(&tail_of(line, e));
        if eq_str(&kw, "participant") || eq_str(&kw, "actor") {
            let (id, label) = match find_str(&rest, " as ", 0) {
                Some(a) => {
                    proof {
                        reveal_strlit(" as ");
                    }
                    (trimmed(&slice_of(&rest, 0, a)), Some(trimmed(&tail_of(&rest, a + 4))))
                },
                None => (slice_of(&rest, 0, rest.len()), None),
            };
            assert(rest@.subrange(0, rest@.len() as int) =~= rest@);
            if valid_id(&id) {
                self.actor_idx(&id, label);
                true
            } else {
                false
            }
        } else if eq_str(&kw, "autonumber") || eq_str(&kw, "end") {
            true
        } else if eq_str(&kw, "activate") || eq_str(&kw, "deactivate") {
            if valid_id(&rest) {
                self.actor_idx(&rest, None);
                true
            } else {
                false
            }
        } else if eq_str(&kw, "loop") || eq_str(&kw, "alt") || eq_str(&kw, "opt") {
            if rest.len() == 0 {
                false
            } else {
                let mut text = crate::text::string_of(kw.as_slice());
                crate::text::push_str(&mut text, ": ");
                crate::text::push_chars(&mut text, rest.as_slice());
                self.push_event(SEvent::Divider { text });
                true
            }
        } else if eq_str(&kw, "else") {
            let text = if rest.len() == 0 {
                String::from_str("else")
            } else {
                let mut t = String::from_str("else: ");
                crate::text::push_chars(&mut t, rest.as_slice());
                t
            };
            self.push_event(SEvent::Divider { text });
            true
        } else if eq_str(&kw, "Note") {
            self.parse_note(line)
        } else {
            self.parse_message(line)
        }
    }
}

/// A line with its `%%` comment cut off, trimmed (see [`seq_content`]).
fn seq_line_content(line: &Vec<char>) -> (r: Vec<char>)
    ensures
        r@ == seq_content(line@),
{
    match find_str(line, "%%", 0) {
        Some(a) => trimmed(&slice_of(line, 0, a)),
        None => trimmed(line),
    }
}

/// A sequence body (see [`seq_lines`]).
fn parse_sequence(ls: &Vec<Vec<char>>, first: usize) -> (r: Option<Sequence>)
    requires
        first <= ls.len(),
    ensures
        match r {
            Some(q) => {
                let body = Seq::new((ls.len() - first) as nat, |k: int| ls@[first + k]@);
                &&& seq_lines(body, body.len() as int) == Some(seq_v(q.actors@, q.events@))
                &&& (q.actors@.len() > 0 || q.events@.len() > 0)
            },
            None => {
                let body = Seq::new((ls.len() - first) as nat, |k: int| ls@[first + k]@);
                seq_lines(body, body.len() as int) matches Some(b) ==> b.actors.len() == 0 && b.events.len() == 0
            },
        },
{
    let ghost body = Seq::new((ls.len() - first) as nat, |k: int| ls@[first + k]@);
    let mut b = SeqBuilder { actors: Vec::new(), events: Vec::new() };
    assert(seq_builder_v(b).actors =~= Seq::<ActorV>::empty());
    assert(seq_builder_v(b).events =~= Seq::<SEventV>::empty());
    let mut k = first;
    while k < ls.len()
        invariant
            first <= k <= ls.len(),
            body == Seq::new((ls.len() - first) as nat, |j: int| ls@[first + j]@),
            seq_lines(body, k - first) == Some(seq_builder_v(b)),
        decreases ls.len() - k,
    {
        let content = seq_line_content(&ls[k]);
        assert(body[k - first] == ls@[k as int]@);
        if content.len() > 0 {
            if !b.parse_seq_line(&content) {
                proof {
                    lemma_seq_lines_fail(body, k - first + 1, body.len() as int);
                }
                return None;
            }
        }
        k += 1;
    }
    if b.actors.len() == 0 && b.events.len() == 0 {
        return None;
    }
    Some(Sequence { actors: b.actors, events: b.events })
}

/// Once a line fails, the whole body fails.
proof fn lemma_seq_lines_fail(ls: Seq<Seq<char>>, m: int, n: int)
    requires
        1 <= m <= n <= ls.len(),
        seq_lines(ls, m) is None,
    ensures
        seq_lines(ls, n) is None,
    decreases n - m,
{
    if m < n {
        lemma_seq_lines_fail(ls, m + 1, n);
    }
}

/// Parse a fenced `mermaid` block into a diagram, or `None` for the styled
/// code fallback.
pub fn parse_diagram(text: &str) -> (r: Option<Diagram>)
    ensures
        match r {
            Some(d) => spec_diagram(text@) == Some(diagram_v(d)),
            None => spec_diagram(text@) is None,
        },
{
    let v = chars_of(text);
    let ls = crate::text::split_lines(&v);
    let ghost lv = lines(text@);
    if ls.len() == 0 {
        return None;
    }
    let first = trimmed(&ls[0]);
    let mut e = first.len();
    assert(first@.subrange(0, first@.len() as int) =~= first@);
    while e > 0 && first[e - 1] == ';'
        invariant
            e <= first.len(),
            trim_end_char(first@, ';') == trim_end_char(first@.subrange(0, e as int), ';'),
        decreases e,
    {
        assert(first@.subrange(0, e as int).drop_last() =~= first@.subrange(0, e - 1));
        e -= 1;
    }
    let head = trimmed(&slice_of(&first, 0, e));
    proof {
        assert(first@.subrange(0, first@.len() as int) =~= first@);
        assert(ls@[0]@ == lv[0]);
        let body = Seq::new((ls.len() - 1) as nat, |k: int| ls@[1 + k]@);
        assert(body =~= lv.subrange(1, lv.len() as int));
    }
    match parse_flow_head(&head) {
        Some(direction) => match parse_flowchart(direction, &ls, 1) {
            Some(f) => Some(Diagram::Flow(f)),
            None => None,
        },
        None => {
            if eq_str(&head, "sequenceDiagram") {
                match parse_sequence(&ls, 1) {
                    Some(q) => Some(Diagram::Sequence(q)),
                    None => None,
                }
            } else {
                None
            }
        },
    }
}

} // verus!
