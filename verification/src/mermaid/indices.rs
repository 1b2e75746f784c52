//! A parsed diagram is well formed: every index it holds names one of its
//! nodes or actors, so layout can look boxes and columns up by them, and
//! its node and actor ids are valid and distinct.

use vstd::prelude::*;
use super::{
    actor_idx, find_actor, find_node, flow_lines, flow_statements, id_end, is_id_char, note_targets,
    parse_chain, valid_actor_id, find_seq_op, seq_op_at, starts_at, tail,
    parse_message, parse_node, parse_note, parse_seq_line, seq_lines, spec_diagram, ActorV, DiagramV,
    FNodeV, FlowV, SEventV, SeqV,
};

verus! {

/// Every edge of `b` joins two of its nodes.
pub open spec fn flow_indices_ok(b: FlowV) -> bool {
    forall|k: int|
        0 <= k < b.edges.len() ==> 0 <= (#[trigger] b.edges[k]).from < b.nodes.len() && 0 <= b.edges[k].to
            < b.nodes.len()
}

/// Every index event `e` holds names one of `n` actors.
pub open spec fn event_indices_ok(e: SEventV, n: int) -> bool {
    match e {
        SEventV::Message { from, to, .. } => 0 <= from < n && 0 <= to < n,
        SEventV::Note { actors, .. } => actors.len() > 0 && forall|j: int|
            0 <= j < actors.len() ==> 0 <= #[trigger] actors[j] < n,
        SEventV::Divider { .. } => true,
    }
}

/// Every message and note of `b` names its actors (a note at least one).
pub open spec fn seq_indices_ok(b: SeqV) -> bool {
    forall|k: int| 0 <= k < b.events.len() ==> event_indices_ok(#[trigger] b.events[k], b.actors.len() as int)
}

/// Node ids are non-empty identifiers (alphanumeric or `_`), no two alike.
pub open spec fn node_ids_ok(nodes: Seq<FNodeV>) -> bool {
    &&& forall|k: int|
        0 <= k < nodes.len() ==> (#[trigger] nodes[k]).id.len() > 0 && forall|c: int|
            0 <= c < nodes[k].id.len() ==> is_id_char(#[trigger] nodes[k].id[c])
    &&& forall|j: int, k: int| #![trigger nodes[j], nodes[k]] 0 <= j < k < nodes.len() ==> nodes[j].id != nodes[k].id
}

/// Actor ids are non-empty and free of white space, no two alike.
pub open spec fn actor_ids_ok(actors: Seq<ActorV>) -> bool {
    &&& forall|k: int| 0 <= k < actors.len() ==> valid_actor_id(#[trigger] actors[k].id)
    &&& forall|j: int, k: int| #![trigger actors[j], actors[k]] 0 <= j < k < actors.len() ==> actors[j].id != actors[k].id
}

proof fn lemma_find_node_none(nodes: Seq<FNodeV>, id: Seq<char>, i: int)
    requires
        0 <= i,
        find_node(nodes, id, i) is None,
    ensures
        forall|k: int| i <= k < nodes.len() ==> (#[trigger] nodes[k]).id != id,
    decreases nodes.len() - i,
{
    if i < nodes.len() {
        lemma_find_node_none(nodes, id, i + 1);
    }
}

proof fn lemma_find_actor_none(actors: Seq<ActorV>, id: Seq<char>, i: int)
    requires
        0 <= i,
        find_actor(actors, id, i) is None,
    ensures
        forall|k: int| i <= k < actors.len() ==> (#[trigger] actors[k]).id != id,
    decreases actors.len() - i,
{
    if i < actors.len() {
        lemma_find_actor_none(actors, id, i + 1);
    }
}

proof fn lemma_id_end(t: Seq<char>, i: int)
    requires
        0 <= i <= t.len(),
    ensures
        i <= id_end(t, i) <= t.len(),
        forall|c: int| i <= c < id_end(t, i) ==> is_id_char(#[trigger] t[c]),
    decreases t.len() - i,
{
    if i < t.len() && is_id_char(t[i]) {
        lemma_id_end(t, i + 1);
    }
}

proof fn lemma_find_node(nodes: Seq<FNodeV>, id: Seq<char>, i: int)
    ensures
        find_node(nodes, id, i) matches Some(k) ==> 0 <= k < nodes.len(),
    decreases nodes.len() - i,
{
    if 0 <= i < nodes.len() && nodes[i].id != id {
        lemma_find_node(nodes, id, i + 1);
    }
}

proof fn lemma_find_actor(actors: Seq<ActorV>, id: Seq<char>, i: int)
    ensures
        find_actor(actors, id, i) matches Some(k) ==> 0 <= k < actors.len(),
    decreases actors.len() - i,
{
    if 0 <= i < actors.len() && actors[i].id != id {
        lemma_find_actor(actors, id, i + 1);
    }
}

proof fn lemma_parse_node(t: Seq<char>, b: FlowV)
    ensures
        parse_node(t, b) matches Some((b1, i)) ==> {
            &&& b1.nodes.len() >= b.nodes.len()
            &&& b1.edges == b.edges
            &&& 0 <= i < b1.nodes.len()
            &&& node_ids_ok(b.nodes) ==> node_ids_ok(b1.nodes)
        },
{
    let s = crate::text::trim(t);
    let n = id_end(s, 0);
    let id = s.subrange(0, n);
    lemma_find_node(b.nodes, id, 0);
    lemma_id_end(s, 0);
    if n > 0 && node_ids_ok(b.nodes) {
        let (b1, idx) = super::node_idx(b, id);
        assert(node_ids_ok(b1.nodes)) by {
            if find_node(b.nodes, id, 0) is None {
                lemma_find_node_none(b.nodes, id, 0);
                assert(b1.nodes == b.nodes.push(FNodeV { id, label: id, shape: super::Shape::Rect }));
                assert forall|k: int| 0 <= k < b1.nodes.len() implies (#[trigger] b1.nodes[k]).id.len() > 0 && forall|c: int|
                    0 <= c < b1.nodes[k].id.len() ==> is_id_char(#[trigger] b1.nodes[k].id[c]) by {
                    if k < b.nodes.len() {
                        assert(b1.nodes[k] == b.nodes[k]);
                    } else {
                        assert(b1.nodes[k].id == id);
                        assert forall|c: int| 0 <= c < id.len() implies is_id_char(#[trigger] id[c]) by {
                            assert(id[c] == s[c]);
                        }
                    }
                }
                assert forall|j: int, k: int| #![trigger b1.nodes[j], b1.nodes[k]] 0 <= j < k < b1.nodes.len() implies b1.nodes[j].id
                    != b1.nodes[k].id by {
                    assert(b1.nodes[j] == b.nodes[j]);
                    if k < b.nodes.len() {
                        assert(b1.nodes[k] == b.nodes[k]);
                    }
                }
            }
        }
        if let Some((b2, i2)) = parse_node(t, b) {
            assert forall|k: int| 0 <= k < b2.nodes.len() implies (#[trigger] b2.nodes[k]).id == b1.nodes[k].id by {}
            assert(b2.nodes.len() == b1.nodes.len());
            assert forall|k: int| 0 <= k < b2.nodes.len() implies (#[trigger] b2.nodes[k]).id.len() > 0 && forall|c: int|
                0 <= c < b2.nodes[k].id.len() ==> is_id_char(#[trigger] b2.nodes[k].id[c]) by {
                assert(b2.nodes[k].id == b1.nodes[k].id);
                assert(b1.nodes[k].id.len() > 0);
            }
            assert forall|j: int, k: int| #![trigger b2.nodes[j], b2.nodes[k]] 0 <= j < k < b2.nodes.len() implies b2.nodes[j].id
                != b2.nodes[k].id by {
                assert(b2.nodes[j].id == b1.nodes[j].id);
                assert(b2.nodes[k].id == b1.nodes[k].id);
                assert(b1.nodes[j].id != b1.nodes[k].id);
            }
        }
    }
}

proof fn lemma_parse_chain(t: Seq<char>, b: FlowV)
    requires
        flow_indices_ok(b),
        node_ids_ok(b.nodes),
    ensures
        parse_chain(t, b) matches Some(b1) ==> flow_indices_ok(b1) && b1.nodes.len() >= b.nodes.len() && node_ids_ok(
            b1.nodes,
        ),
    decreases t.len(),
{
    lemma_parse_node(t, b);
    match super::find_op(t) {
        None => {},
        Some((pos, op)) => {
            let left = crate::text::trim(t.subrange(0, pos));
            lemma_parse_node(left, b);
            match parse_node(left, b) {
                None => {},
                Some((b1, from)) => {
                    assert(flow_indices_ok(b1));
                    if let Some(r) = parse_chain(t, b) {
                        let after = crate::text::trim_start(super::tail(t, pos + op.len()));
                        let (label0, rest0) = super::pipe_label(after)->0;
                        let labelled = if op == "--"@ {
                            super::dash_label(label0, rest0)
                        } else {
                            Some((op, label0, rest0))
                        };
                        let (edge_op, label, rest) = labelled->0;
                        let (target, more) = match super::find_op(rest) {
                            Some((q, _)) => (crate::text::trim(rest.subrange(0, q)), crate::text::trim_start(super::tail(rest, q))),
                            None => (crate::text::trim(rest), Seq::empty()),
                        };
                        lemma_parse_node(target, b1);
                        let (b2, to) = parse_node(target, b1)->0;
                        let b3 = FlowV { edges: b2.edges.push(super::edge_of(from, to, label, edge_op)), ..b2 };
                        assert(flow_indices_ok(b3)) by {
                            assert forall|k: int| 0 <= k < b3.edges.len() implies 0 <= (#[trigger] b3.edges[k]).from < b3.nodes.len()
                                && 0 <= b3.edges[k].to < b3.nodes.len() by {
                                if k < b2.edges.len() {
                                    assert(b3.edges[k] == b1.edges[k]);
                                }
                            }
                        }
                        let next = target + seq![' '] + more;
                        if more.len() != 0 {
                            lemma_parse_chain(next, b3);
                        }
                    }
                },
            }
        },
    }
}

proof fn lemma_flow_statements(st: Seq<Seq<char>>, k: int, b: FlowV)
    requires
        flow_indices_ok(b),
        node_ids_ok(b.nodes),
    ensures
        flow_statements(st, k, b) matches Some(b1) ==> flow_indices_ok(b1) && node_ids_ok(b1.nodes),
    decreases k,
{
    if 0 < k <= st.len() {
        lemma_flow_statements(st, k - 1, b);
        if let Some(b1) = flow_statements(st, k - 1, b) {
            lemma_parse_chain(crate::text::trim(st[k - 1]), b1);
        }
    }
}

proof fn lemma_flow_lines(ls: Seq<Seq<char>>, k: int)
    ensures
        flow_lines(ls, k) matches Some(b) ==> flow_indices_ok(b) && node_ids_ok(b.nodes),
    decreases k,
{
    if 0 < k <= ls.len() {
        lemma_flow_lines(ls, k - 1);
        if let Some(b) = flow_lines(ls, k - 1) {
            let st = super::statements(ls[k - 1]);
            lemma_flow_statements(st, st.len() as int, b);
        }
    }
}

proof fn lemma_actor_idx(b: SeqV, id: Seq<char>, label: Option<Seq<char>>)
    requires
        seq_indices_ok(b),
    ensures
        seq_indices_ok(actor_idx(b, id, label).0),
        actor_idx(b, id, label).0.actors.len() >= b.actors.len(),
        actor_idx(b, id, label).0.events == b.events,
        0 <= actor_idx(b, id, label).1 < actor_idx(b, id, label).0.actors.len(),
        actor_ids_ok(b.actors) && valid_actor_id(id) ==> actor_ids_ok(actor_idx(b, id, label).0.actors),
{
    lemma_find_actor(b.actors, id, 0);
    let b1 = actor_idx(b, id, label).0;
    if actor_ids_ok(b.actors) && valid_actor_id(id) && find_actor(b.actors, id, 0) is None {
        lemma_find_actor_none(b.actors, id, 0);
        assert forall|k: int| 0 <= k < b1.actors.len() implies valid_actor_id(#[trigger] b1.actors[k].id) by {
            if k < b.actors.len() {
                assert(b1.actors[k] == b.actors[k]);
            }
        }
        assert forall|j: int, k: int| #![trigger b1.actors[j], b1.actors[k]] 0 <= j < k < b1.actors.len() implies b1.actors[j].id
            != b1.actors[k].id by {
            assert(b1.actors[j] == b.actors[j]);
            if k < b.actors.len() {
                assert(b1.actors[k] == b.actors[k]);
            }
        }
    }
    assert forall|k: int| 0 <= k < b1.events.len() implies event_indices_ok(#[trigger] b1.events[k], b1.actors.len() as int) by {
        assert(event_indices_ok(b.events[k], b.actors.len() as int));
    }
}

proof fn lemma_note_targets(parts: Seq<Seq<char>>, k: int, b: SeqV)
    requires
        seq_indices_ok(b),
        actor_ids_ok(b.actors),
    ensures
        note_targets(parts, k, b) matches Some((b1, ids)) ==> {
            &&& seq_indices_ok(b1)
            &&& actor_ids_ok(b1.actors)
            &&& b1.actors.len() >= b.actors.len()
            &&& b1.events == b.events
            &&& forall|j: int| 0 <= j < ids.len() ==> 0 <= #[trigger] ids[j] < b1.actors.len()
        },
    decreases k,
{
    if 0 < k <= parts.len() {
        lemma_note_targets(parts, k - 1, b);
        if let Some((b1, ids)) = note_targets(parts, k - 1, b) {
            let id = crate::text::trim(parts[k - 1]);
            lemma_actor_idx(b1, id, None);
        }
    }
}

proof fn lemma_push_event(b: SeqV, e: SEventV)
    requires
        seq_indices_ok(b),
        event_indices_ok(e, b.actors.len() as int),
    ensures
        seq_indices_ok(SeqV { events: b.events.push(e), ..b }),
{
    let b1 = SeqV { events: b.events.push(e), ..b };
    assert forall|k: int| 0 <= k < b1.events.len() implies event_indices_ok(#[trigger] b1.events[k], b1.actors.len() as int) by {
        if k < b.events.len() {
            assert(b1.events[k] == b.events[k]);
        }
    }
}

proof fn lemma_seq_line(line: Seq<char>, b: SeqV)
    requires
        seq_indices_ok(b),
        actor_ids_ok(b.actors),
    ensures
        parse_seq_line(line, b) matches Some(b1) ==> seq_indices_ok(b1) && actor_ids_ok(b1.actors),
{
    let kw = line.subrange(0, crate::text::word_end(line, 0));
    let rest = crate::text::trim(super::tail(line, kw.len() as int));
    let at = super::find_seq(rest, " as "@, 0);
    let id = match at {
        Some(a) => crate::text::trim(rest.subrange(0, a)),
        None => rest,
    };
    let label = match at {
        Some(a) => Some(crate::text::trim(super::tail(rest, a + 4))),
        None => None,
    };
    lemma_actor_idx(b, id, label);
    lemma_actor_idx(b, rest, None);
    if rest.len() > 0 {
        lemma_push_event(b, SEventV::Divider { text: kw + ": "@ + rest });
    }
    lemma_push_event(b, SEventV::Divider { text: if rest.len() == 0 { "else"@ } else { "else: "@ + rest } });
    lemma_note(line, b);
    lemma_message(line, b);
}

proof fn lemma_message(line: Seq<char>, b: SeqV)
    requires
        seq_indices_ok(b),
        actor_ids_ok(b.actors),
    ensures
        parse_message(line, b) matches Some(b1) ==> seq_indices_ok(b1) && actor_ids_ok(b1.actors),
{
    if let Some((pos, op)) = super::find_seq_op(line, 0) {
        let from = crate::text::trim(line.subrange(0, pos));
        let rest = crate::text::trim(super::tail(line, pos + op.len()));
        let colon = crate::text::find_char(rest, 0, ':');
        let to = if colon < rest.len() {
            crate::text::trim(rest.subrange(0, colon))
        } else {
            rest
        };
        let text = if colon < rest.len() {
            crate::text::trim(super::tail(rest, colon + 1))
        } else {
            Seq::empty()
        };
        lemma_actor_idx(b, from, None);
        let (b1, f) = actor_idx(b, from, None);
        lemma_actor_idx(b1, to, None);
        let (b2, g) = actor_idx(b1, to, None);
        lemma_push_event(b2, SEventV::Message { from: f, to: g, text, dotted: super::starts_at(op, 0, "--"@) });
    }
}

proof fn lemma_note(line: Seq<char>, b: SeqV)
    requires
        seq_indices_ok(b),
        actor_ids_ok(b.actors),
    ensures
        parse_note(line, b) matches Some(b1) ==> seq_indices_ok(b1) && actor_ids_ok(b1.actors),
{
    if let Some(b1) = parse_note(line, b) {
        let rest = crate::text::trim_start(super::tail(line, 4));
        let placed = if super::starts_at(rest, 0, "over "@) {
            Some((super::NotePlace::Over, super::tail(rest, 5)))
        } else if super::starts_at(rest, 0, "left of "@) {
            Some((super::NotePlace::Left, super::tail(rest, 8)))
        } else if super::starts_at(rest, 0, "right of "@) {
            Some((super::NotePlace::Right, super::tail(rest, 9)))
        } else {
            None
        };
        let (place, r) = placed->0;
        let colon = crate::text::find_char(r, 0, ':');
        let parts = crate::text::split_from(r.subrange(0, colon), 0, ',');
        lemma_note_targets(parts, parts.len() as int, b);
        let (b2, ids) = note_targets(parts, parts.len() as int, b)->0;
        lemma_push_event(b2, SEventV::Note { actors: ids, place, text: crate::text::trim(super::tail(r, colon + 1)) });
    }
}

proof fn lemma_seq_lines(ls: Seq<Seq<char>>, k: int)
    ensures
        seq_lines(ls, k) matches Some(b) ==> seq_indices_ok(b) && actor_ids_ok(b.actors),
    decreases k,
{
    if 0 < k <= ls.len() {
        lemma_seq_lines(ls, k - 1);
        if let Some(b) = seq_lines(ls, k - 1) {
            lemma_seq_line(super::seq_content(ls[k - 1]), b);
        }
    }
}

/// A parsed diagram only ever points at its own parts: every flowchart edge
/// joins two of its nodes, and every message and note of a sequence names
/// its actors.
pub proof fn lemma_diagram_indices(text: Seq<char>)
    ensures
        match spec_diagram(text) {
            Some(DiagramV::Flow { chart, .. }) => flow_indices_ok(chart),
            Some(DiagramV::Sequence(s)) => seq_indices_ok(s),
            None => true,
        },
{
    let ls = crate::text::lines(text);
    if ls.len() > 0 {
        let body = ls.subrange(1, ls.len() as int);
        lemma_flow_lines(body, body.len() as int);
        lemma_seq_lines(body, body.len() as int);
    }
}

/// A parsed diagram is well formed: a flowchart has nodes, their ids are
/// non-empty identifiers with no two alike, and every edge joins two of
/// them; a sequence diagram has actors or events, actor ids are non-empty,
/// free of white space and distinct, every message names two actors and
/// every note at least one.
pub proof fn lemma_diagram_well_formed(text: Seq<char>)
    ensures
        match spec_diagram(text) {
            Some(DiagramV::Flow { chart, .. }) => chart.nodes.len() > 0 && node_ids_ok(chart.nodes) && flow_indices_ok(
                chart,
            ),
            Some(DiagramV::Sequence(s)) => (s.actors.len() > 0 || s.events.len() > 0) && actor_ids_ok(s.actors)
                && seq_indices_ok(s),
            None => true,
        },
{
    let ls = crate::text::lines(text);
    if ls.len() > 0 {
        let body = ls.subrange(1, ls.len() as int);
        lemma_flow_lines(body, body.len() as int);
        lemma_seq_lines(body, body.len() as int);
    }
}

/// An actor id with none of `-`, `>` or `:`, so it cannot run into an
/// arrow or a message text.
pub open spec fn plain_actor(s: Seq<char>) -> bool {
    &&& valid_actor_id(s)
    &&& forall|i: int| 0 <= i < s.len() ==> #[trigger] s[i] != '-' && s[i] != '>' && s[i] != ':'
}

/// The four message arrows: `->`, `->>`, `-->` and `-->>`.
pub open spec fn message_arrow(op: Seq<char>) -> bool {
    op == seq!['-', '>'] || op == seq!['-', '>', '>'] || op == seq!['-', '-', '>'] || op == seq!['-', '-', '>', '>']
}

/// `e` is a message from actor `x` to actor `y` of `actors`, without text.
pub open spec fn message_between(e: SEventV, actors: Seq<ActorV>, x: Seq<char>, y: Seq<char>, dotted: bool) -> bool {
    match e {
        SEventV::Message { from, to, text, dotted: d } => {
            &&& 0 <= from < actors.len() && actors[from].id == x
            &&& 0 <= to < actors.len() && actors[to].id == y
            &&& text.len() == 0
            &&& d == dotted
        },
        _ => false,
    }
}

proof fn lemma_not_starts(t: Seq<char>, i: int, p: Seq<char>, j: int)
    requires
        0 <= j < p.len(),
        0 <= i + j < t.len(),
        t[i + j] != p[j],
    ensures
        !starts_at(t, i, p),
{
    if starts_at(t, i, p) {
        assert(t.subrange(i, i + p.len())[j] == p[j]);
    }
}

proof fn lemma_find_actor_id(actors: Seq<ActorV>, id: Seq<char>, i: int)
    ensures
        find_actor(actors, id, i) matches Some(k) ==> 0 <= k < actors.len() && actors[k].id == id,
    decreases actors.len() - i,
{
    if 0 <= i < actors.len() && actors[i].id != id {
        lemma_find_actor_id(actors, id, i + 1);
    }
}

proof fn lemma_actor_idx_id(b: SeqV, id: Seq<char>, label: Option<Seq<char>>)
    ensures
        ({
            let (b1, k) = actor_idx(b, id, label);
            &&& 0 <= k < b1.actors.len() && b1.actors[k].id == id
            &&& b1.actors.len() >= b.actors.len()
            &&& forall|j: int| 0 <= j < b.actors.len() ==> #[trigger] b1.actors[j] == b.actors[j]
            &&& b1.events == b.events
        }),
{
    lemma_find_actor_id(b.actors, id, 0);
}

proof fn lemma_no_arrow_before(t: Seq<char>, n: int, i: int)
    requires
        0 <= i <= n <= t.len(),
        forall|k: int| 0 <= k < n ==> #[trigger] t[k] != '-',
        find_seq_op(t, n) is Some,
    ensures
        find_seq_op(t, i) == find_seq_op(t, n),
    decreases n - i,
{
    reveal_strlit("-->>");
    reveal_strlit("->>");
    reveal_strlit("-->");
    reveal_strlit("->");
    if i < n {
        lemma_not_starts(t, i, "-->>"@, 0);
        lemma_not_starts(t, i, "->>"@, 0);
        lemma_not_starts(t, i, "-->"@, 0);
        lemma_not_starts(t, i, "->"@, 0);
        lemma_no_arrow_before(t, n, i + 1);
    }
}

/// A sequence message `x op y` between two plain actor ids is one message
/// from `x` to `y` with no text, and it is dotted exactly when its arrow
/// starts with `--` (`-->` or `-->>`); `->` and `->>` are solid.
pub proof fn lemma_message_arrows(x: Seq<char>, y: Seq<char>, op: Seq<char>, b: SeqV)
    requires
        plain_actor(x),
        plain_actor(y),
        message_arrow(op),
    ensures
        parse_message(x + op + y, b) matches Some(b1) && b1.events.drop_last() == b.events && message_between(
            b1.events.last(),
            b1.actors,
            x,
            y,
            op == seq!['-', '-', '>'] || op == seq!['-', '-', '>', '>'],
        ) && b1.events.len() == b.events.len() + 1,
{
    reveal_strlit("-->>");
    reveal_strlit("->>");
    reveal_strlit("-->");
    reveal_strlit("->");
    reveal_strlit("--");
    let t = x + op + y;
    let n = x.len() as int;
    let m = n + op.len();
    assert(t[n] == '-');
    assert(t[m] == y[0]);
    assert(forall|k: int| 0 <= k < op.len() ==> t[n + k] == #[trigger] op[k]);
    // which arrow is found at `n`
    if op == seq!['-', '>'] {
        lemma_not_starts(t, n, "-->>"@, 1);
        lemma_not_starts(t, n, "->>"@, 2);
        lemma_not_starts(t, n, "-->"@, 1);
        assert(t.subrange(n, n + 2) =~= "->"@);
    } else if op == seq!['-', '>', '>'] {
        lemma_not_starts(t, n, "-->>"@, 1);
        assert(t.subrange(n, n + 3) =~= "->>"@);
    } else if op == seq!['-', '-', '>'] {
        lemma_not_starts(t, n, "-->>"@, 3);
        lemma_not_starts(t, n, "->>"@, 1);
        assert(t.subrange(n, n + 3) =~= "-->"@);
    } else {
        assert(t.subrange(n, n + 4) =~= "-->>"@);
    }
    assert(seq_op_at(t, n) == Some(op));
    assert(find_seq_op(t, n) == Some((n, op)));
    assert forall|k: int| 0 <= k < n implies #[trigger] t[k] != '-' by {
        assert(t[k] == x[k]);
    }
    lemma_no_arrow_before(t, n, 0);
    // the two ids and the text
    assert(t.subrange(0, n) =~= x);
    crate::markdown::lemma_trim_id(x);
    assert(tail(t, m) =~= y);
    crate::markdown::lemma_trim_id(y);
    crate::text::lemma_find_char(y, 0, ':');
    assert(crate::text::find_char(y, 0, ':') == y.len());
    let (b1, f) = actor_idx(b, x, None);
    let (b2, g) = actor_idx(b1, y, None);
    lemma_actor_idx_id(b, x, None);
    lemma_actor_idx_id(b1, y, None);
    assert(b2.actors[f] == b1.actors[f]);
    let dotted = starts_at(op, 0, "--"@);
    if op == seq!['-', '>'] || op == seq!['-', '>', '>'] {
        lemma_not_starts(op, 0, "--"@, 1);
    } else {
        assert(op.subrange(0, 2) =~= "--"@);
    }
    let b3 = SeqV { events: b2.events.push(SEventV::Message { from: f, to: g, text: Seq::empty(), dotted }), ..b2 };
    assert(parse_message(t, b) == Some(b3));
    assert(b3.events.drop_last() =~= b.events);
}

} // verus!
