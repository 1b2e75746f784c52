use md_view::mermaid::rank::{flow_ranks, rank_rows};
use md_view::mermaid::{parse_diagram, Diagram, FlowDir, Flowchart, NotePlace, SEvent, Sequence, Shape};

fn flow(text: &str) -> Flowchart {
    match parse_diagram(text) {
        Some(Diagram::Flow(chart)) => chart,
        other => panic!("expected flowchart, got {other:?}"),
    }
}

fn seq(text: &str) -> Sequence {
    match parse_diagram(text) {
        Some(Diagram::Sequence(sequence)) => sequence,
        other => panic!("expected sequence, got {other:?}"),
    }
}

#[test]
fn directions_and_head_forms() {
    assert_eq!(flow("graph TD\nA-->B\n").direction, FlowDir::TopDown);
    assert_eq!(flow("graph TB\nA-->B\n").direction, FlowDir::TopDown);
    assert_eq!(flow("graph BT\nA-->B\n").direction, FlowDir::BottomUp);
    assert_eq!(flow("graph LR\nA-->B\n").direction, FlowDir::LeftRight);
    assert_eq!(flow("graph RL\nA-->B\n").direction, FlowDir::RightLeft);
    assert_eq!(flow("flowchart LR\nA-->B\n").direction, FlowDir::LeftRight);
    assert_eq!(flow("graph\nA-->B\n").direction, FlowDir::TopDown);
    assert!(parse_diagram("graph XX\nA-->B\n").is_none());
    assert!(parse_diagram("flowchart-elk TD\nA-->B\n").is_none());
    assert!(parse_diagram("gantt\nA-->B\n").is_none());
}

#[test]
fn node_shapes_and_redefinition() {
    let chart = flow(
        "graph TD\nA[rect]\nB(round)\nC{diamond}\nD((circle))\nE([stadium])\nF[[sub]]\nG{{hex}}\nH[/para/]\nI[\\alt\\]\nJ>asym]\nK[(cyl)]\nL\n",
    );
    let shapes: Vec<Shape> = chart.nodes.iter().map(|node| node.shape).collect();
    assert_eq!(
        shapes,
        vec![
            Shape::Rect,
            Shape::Round,
            Shape::Diamond,
            Shape::Circle,
            Shape::Stadium,
            Shape::Subroutine,
            Shape::Hexagon,
            Shape::Rect,
            Shape::Rect,
            Shape::Rect,
            Shape::Round,
            Shape::Rect,
        ]
    );
    assert_eq!(chart.nodes[0].label, "rect");
    assert_eq!(chart.nodes[11].label, "L");
    // Ids survive parsing: edges resolve through them.
    assert_eq!(chart.nodes[0].id, "A");
    assert_eq!(chart.nodes[11].id, "L");
    // Later definitions override the label.
    let chart = flow("graph TD\nA[first]\nA[second]\n");
    assert_eq!(chart.nodes.len(), 1);
    assert_eq!(chart.nodes[0].label, "second");
}

#[test]
fn edge_forms_labels_and_chains() {
    let chart = flow(
        "graph LR\nA --> B\nC --- D\nE ==> F\nG -.-> H\nI -->|yes| J\nK -- maybe --> L\nM-->N-->O\n",
    );
    assert_eq!(chart.edges.len(), 8);
    let flags: Vec<(bool, bool, bool)> = chart
        .edges
        .iter()
        .map(|edge| (edge.dashed, edge.thick, edge.arrow))
        .collect();
    assert_eq!(
        flags,
        vec![
            (false, false, true),
            (false, false, false),
            (false, true, true),
            (true, false, true),
            (false, false, true),
            (false, false, true),
            (false, false, true),
            (false, false, true),
        ]
    );
    assert_eq!(chart.edges[4].label, "yes");
    assert_eq!(chart.edges[5].label, "maybe");
    assert_eq!(chart.nodes.len(), 15);
}

#[test]
fn comments_semicolons_and_strictness() {
    let chart = flow("graph TD\n%% a comment\nA --> B; C --> D %% trailing\n");
    assert_eq!(chart.edges.len(), 2);
    assert_eq!(chart.nodes.len(), 4);
    assert!(parse_diagram("graph TD\nA -->\n").is_none());
    assert!(parse_diagram("graph TD\n???\n").is_none());
    assert!(parse_diagram("graph TD\n").is_none());
    assert!(parse_diagram("classDiagram\nA --> B\n").is_none());
}

#[test]
fn sequence_actors_messages_and_notes() {
    let sequence = seq(
        "sequenceDiagram\nparticipant User\nparticipant Editor as Ed\nUser->Editor: Type\nEditor-->>Preview: Render\nNote over User,Editor: hi\nloop Keys\nUser->User: think\nend\n",
    );
    assert_eq!(sequence.actors.len(), 3);
    assert_eq!(sequence.actors[1].label, "Ed");
    assert_eq!(sequence.actors[2].id, "Preview");
    assert_eq!(sequence.events.len(), 5);
    match &sequence.events[0] {
        SEvent::Message {
            from,
            to,
            text,
            dotted,
        } => {
            assert_eq!((*from, *to), (0, 1));
            assert_eq!(text, "Type");
            assert!(!dotted);
        }
        other => panic!("expected message, got {other:?}"),
    }
    match &sequence.events[1] {
        SEvent::Message { dotted, .. } => assert!(dotted),
        other => panic!("expected message, got {other:?}"),
    }
    match &sequence.events[2] {
        SEvent::Note {
            actors,
            place,
            text,
        } => {
            assert_eq!(actors.len(), 2);
            assert_eq!(*place, NotePlace::Over);
            assert_eq!(text, "hi");
        }
        other => panic!("expected note, got {other:?}"),
    }
    assert!(matches!(sequence.events[3], SEvent::Divider { .. }));
}

#[test]
fn sequence_strictness_and_aliases() {
    assert!(parse_diagram("sequenceDiagram\nUser frobnicate Editor\n").is_none());
    assert!(parse_diagram("sequenceDiagram\n-> B: x\n").is_none());
    assert!(parse_diagram("sequenceDiagram\nNote sideways A: x\n").is_none());
    assert!(parse_diagram("sequenceDiagram\nrect rgb(1,2,3)\n").is_none());
    let sequence = seq("sequenceDiagram\nactor A as Alice\nA->>B: hi\n");
    assert_eq!(sequence.actors[0].label, "Alice");
    assert_eq!(sequence.actors[1].id, "B");
}

#[test]
fn dash_labels_and_pipes_exclude_each_other() {
    assert!(parse_diagram("graph TD\nA -->|x| B\n").is_some());
    // `-- label -- B` closes with a bare `--`: refused.
    assert!(parse_diagram("graph TD\nA -- x -- B\n").is_none());
    // A pipe label and a dash label on one edge: refused.
    assert!(parse_diagram("graph TD\nA --|x| y --> B\n").is_none());
    // Bare `A -- B` is an undirected edge with no label.
    let chart = flow("graph TD\nA -- B\n");
    assert_eq!(chart.edges.len(), 1);
    assert!(!chart.edges[0].arrow);
    assert_eq!(chart.edges[0].label, "");
}

#[test]
fn quoted_operators_and_semicolons_stay_in_labels() {
    let chart = flow("graph TD\nA[\"a;b\"] --> B\n");
    assert_eq!(chart.nodes[0].label, "\"a;b\"");
    assert_eq!(chart.edges.len(), 1);
}

#[test]
fn head_line_tolerates_trailing_semicolons() {
    assert_eq!(flow("graph LR;;\nA-->B\n").direction, FlowDir::LeftRight);
    assert!(parse_diagram("graph TD LR\nA-->B\n").is_none());
    assert!(parse_diagram("").is_none());
}

#[test]
fn sequence_notes_dividers_and_comments() {
    let sequence = seq(
        "sequenceDiagram\n%% comment\nA->B: hi %% trailing\nNote left of A: l\nNote right of B: r\nalt ok\nelse\nelse nope\nopt maybe\nactivate C\nautonumber\n",
    );
    assert_eq!(sequence.actors.len(), 3);
    assert_eq!(sequence.events.len(), 7);
    match &sequence.events[0] {
        SEvent::Message { text, .. } => assert_eq!(text, "hi"),
        other => panic!("expected message, got {other:?}"),
    }
    match &sequence.events[1] {
        SEvent::Note { place, .. } => assert_eq!(*place, NotePlace::Left),
        other => panic!("expected note, got {other:?}"),
    }
    match &sequence.events[2] {
        SEvent::Note { place, .. } => assert_eq!(*place, NotePlace::Right),
        other => panic!("expected note, got {other:?}"),
    }
    let dividers: Vec<String> = sequence.events[3..]
        .iter()
        .map(|event| match event {
            SEvent::Divider { text } => text.clone(),
            other => panic!("expected divider, got {other:?}"),
        })
        .collect();
    assert_eq!(dividers, vec!["alt: ok", "else", "else: nope", "opt: maybe"]);
    assert!(parse_diagram("sequenceDiagram\nloop\n").is_none());
    assert!(parse_diagram("sequenceDiagram\n").is_none());
    assert!(parse_diagram("sequenceDiagram\nNote over A,,B: x\n").is_none());
}

#[test]
fn ranks_follow_longest_forward_paths() {
    let chart = flow("graph TD\nA-->B-->C\n");
    assert_eq!(flow_ranks(chart.nodes.len(), &chart.edges), vec![0, 1, 2]);
    let chart = flow("graph TD\nStart --> Is{ok?} -->|yes| Great\nIs -->|no| Debug\n");
    assert_eq!(flow_ranks(chart.nodes.len(), &chart.edges), vec![0, 1, 2, 2]);
    let chart = flow("graph TD\nA-->B\nA-->C\nC-->B\n");
    assert_eq!(flow_ranks(chart.nodes.len(), &chart.edges), vec![0, 2, 1]);
}

#[test]
fn back_edges_do_not_inflate_ranks() {
    let chart = flow(
        "flowchart LR\nA[Start] --> B{Is it working?}\nB -->|Yes| C[Great!]\nB -->|No| D[Debug]\nC --> E[Deploy]\nD --> B\n",
    );
    assert_eq!(flow_ranks(chart.nodes.len(), &chart.edges), vec![0, 1, 2, 2, 3]);
    let chart = flow("graph TD\nA-->B-->C-->A\nA-->A\n");
    assert_eq!(flow_ranks(chart.nodes.len(), &chart.edges), vec![0, 1, 2]);
}

#[test]
fn layers_group_nodes_by_rank() {
    assert_eq!(rank_rows(&vec![0, 2, 1, 2]), vec![vec![0], vec![2], vec![1, 3]]);
    assert_eq!(rank_rows(&vec![]), vec![Vec::<usize>::new()]);
    let chart = flow("graph TD\nA-->B\nA-->C\nB-->D\nC-->D\n");
    let ranks = flow_ranks(chart.nodes.len(), &chart.edges);
    assert_eq!(rank_rows(&ranks), vec![vec![0], vec![1, 2], vec![3]]);
}

#[test]
fn ranks_stay_below_the_node_count_and_sources_start_at_zero() {
    let chart = flow("graph TD\nA-->B\nB-->C\nC-->B\nD-->C\n");
    let ranks = flow_ranks(chart.nodes.len(), &chart.edges);
    assert!(ranks.iter().all(|&r| r < chart.nodes.len()));
    assert_eq!(ranks[0], 0);
    assert_eq!(ranks[3], 0);
    for edge in &chart.edges {
        if !(edge.from == 2 && edge.to == 1) {
            assert!(ranks[edge.to] > ranks[edge.from]);
        }
    }
}

#[test]
fn parsed_diagrams_only_point_at_their_parts() {
    let chart = flow("graph LR\nA --> B --> C\nB -.-> D\nD --> A\nE\n");
    assert!(chart.edges.iter().all(|e| e.from < chart.nodes.len() && e.to < chart.nodes.len()));
    let s = seq("sequenceDiagram\nAlice->>Bob: hi\nNote over Alice,Bob: both\nBob-->>Carol: fwd\n");
    for event in &s.events {
        match event {
            SEvent::Message { from, to, .. } => assert!(*from < s.actors.len() && *to < s.actors.len()),
            SEvent::Note { actors, .. } => assert!(actors.iter().all(|&a| a < s.actors.len())),
            SEvent::Divider { .. } => {}
        }
    }
}

#[test]
fn parsed_ids_are_valid_and_distinct() {
    let chart = flow("graph TD\nA-->B\nB-->A\nA_1[Start]-->B\n");
    let ids: Vec<&str> = chart.nodes.iter().map(|n| n.id.as_str()).collect();
    assert_eq!(ids, vec!["A", "B", "A_1"]);
    let sequence = seq("sequenceDiagram\nparticipant A\nA->>B: hi\nB-->>A: ok\nNote over A,B: both\n");
    let actors: Vec<&str> = sequence.actors.iter().map(|a| a.id.as_str()).collect();
    assert_eq!(actors, vec!["A", "B"]);
    assert!(sequence.events.iter().all(|e| match e {
        SEvent::Note { actors, .. } => !actors.is_empty(),
        _ => true,
    }));
    assert!(parse_diagram("sequenceDiagram\nNote over : x\n").is_none());
}
