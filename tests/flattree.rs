use grus::datetime::{Date, DateTime, Session, Time};
use grus::flattree::{children_nodes, root_node, ChildEntry, Columns, FlatTreeBuilder, FlatTreeState};
use grus::node::{Node, NodeData, Priority};

fn create_node(pid: u64, id: u64, name: &str, pri: Priority) -> Node {
    Node {
        id,
        pid,
        depth: 0,
        data: NodeData { name: name.to_string(), due_date: None },
        session: None,
        priority: pri,
        name_splits: vec![0, 1],
        session_text: String::new(),
        session_splits: vec![0, 0],
        due_date_text: String::new(),
        due_date_splits: vec![0, 0],
    }
}

fn node(k: usize) -> Node {
    match k {
        0 => create_node(0, 0, "/", Priority { det: 0, total: 1 }),
        1 => create_node(0, 1, "a", Priority { det: 0, total: 3 }),
        2 => create_node(1, 4, "x", Priority { det: 0, total: 2 }),
        3 => create_node(1, 5, "y", Priority { det: 1, total: 2 }),
        4 => create_node(0, 3, "b", Priority { det: 1, total: 3 }),
        _ => create_node(0, 2, "c", Priority { det: 2, total: 3 }),
    }
}

#[test]
fn build_flattree() {
    let first_level_nodes = vec![node(5), node(1), node(4)];
    let a_children = vec![node(2), node(3)];

    let mut builder = FlatTreeBuilder::new(node(0), 10);

    assert_eq!(builder.step(), FlatTreeState::Refill);
    assert_eq!(builder.fill_range(), 0..1);
    builder.fill(first_level_nodes, 0);
    builder.finish_fill();

    assert_eq!(builder.step(), FlatTreeState::Build);
    assert_eq!(builder.step(), FlatTreeState::Build);
    assert_eq!(builder.step(), FlatTreeState::Build);
    assert_eq!(builder.step(), FlatTreeState::Build);

    assert_eq!(builder.step(), FlatTreeState::Refill);
    assert_eq!(builder.fill_range(), 1..4);
    builder.fill(a_children, 1);
    builder.fill(Vec::new(), 2);
    builder.fill(Vec::new(), 3);
    builder.finish_fill();

    assert_eq!(builder.step(), FlatTreeState::Build);
    assert_eq!(builder.step(), FlatTreeState::Build);
    assert_eq!(builder.step(), FlatTreeState::Build);
    assert_eq!(builder.step(), FlatTreeState::Build);
    assert_eq!(builder.step(), FlatTreeState::Build);

    assert_eq!(builder.step(), FlatTreeState::Refill);
    assert_eq!(builder.fill_range(), 4..6);
    builder.fill(Vec::new(), 4);
    builder.fill(Vec::new(), 5);
    builder.finish_fill();

    assert_eq!(builder.step(), FlatTreeState::Build);
    assert_eq!(builder.step(), FlatTreeState::Build);

    assert_eq!(builder.step(), FlatTreeState::Done);
    let ids: Vec<u64> = builder.finish().iter().map(|n| n.id).collect();
    let expected: Vec<u64> = (0..6).map(|k| node(k).id).collect();
    assert_eq!(ids, expected);
}

#[test]
fn flattree_stops_when_full() {
    let mut builder = FlatTreeBuilder::new(node(0), 2);
    assert_eq!(builder.step(), FlatTreeState::Refill);
    builder.fill(vec![node(5), node(1), node(4)], 0);
    builder.finish_fill();
    assert_eq!(builder.step(), FlatTreeState::Build);
    assert_eq!(builder.step(), FlatTreeState::Done);
    let names: Vec<String> = builder.finish().into_iter().map(|n| n.data.name).collect();
    assert_eq!(names, vec!["/", "a"]);
}

#[test]
fn flattree_claims_each_id_once() {
    let mut builder = FlatTreeBuilder::new(node(0), 5);
    assert!(builder.claim(7));
    assert!(!builder.claim(7));
    assert!(builder.claim(8));
}

fn cols() -> Columns {
    let now = DateTime { date: Date { year: 2024, month: 5, day: 15 }, time: Time { hour: 10, minute: 0 } };
    Columns { now, session_width: 20, due_date_width: 6 }
}

#[test]
fn flattree_root_node() {
    let data = NodeData { name: "abcdefgh".to_string(), due_date: None };
    let root = root_node(0, data, None, 3, 5, cols()).unwrap();
    assert_eq!(root.name_splits, vec![0, 4, 8]);
    assert_eq!(root.height(), 2);
    assert_eq!(root.pid, 0);
    let data = NodeData { name: "abcdefgh".to_string(), due_date: None };
    assert!(root_node(0, data, None, 1, 5, cols()).is_none());
    let data = NodeData { name: "r".to_string(), due_date: None };
    assert!(root_node(0, data, None, 10, 1, cols()).is_none());
}

#[test]
fn flattree_children_take_indent() {
    let entries = vec![
        ChildEntry { id: 4, data: NodeData { name: "abc def".to_string(), due_date: None }, session: None },
        ChildEntry { id: 9, data: NodeData { name: "g".to_string(), due_date: None }, session: None },
    ];
    // depth 1 leaves 11 - 3 columns.
    let kids = children_nodes(1, entries, 0, 11, cols());
    assert_eq!(kids.len(), 2);
    assert_eq!(kids[0].id, 4);
    assert_eq!(kids[0].pid, 1);
    assert_eq!(kids[0].depth, 1);
    assert_eq!(kids[0].name_splits, vec![0, 7]);
    assert_eq!(kids[1].priority, Priority { det: 1, total: 2 });
    let entries = vec![ChildEntry { id: 4, data: NodeData { name: "x".to_string(), due_date: None }, session: None }];
    assert!(children_nodes(1, entries, 3, 9, cols()).is_empty());
}

#[test]
fn flattree_session_and_due_columns() {
    let day = Date { year: 2024, month: 5, day: 15 };
    let at = |hour, minute| DateTime { date: day, time: Time { hour, minute } };
    let due = DateTime { date: Date { year: 2023, month: 1, day: 5 }, time: Time { hour: 9, minute: 30 } };
    let entries = vec![ChildEntry {
        id: 4,
        data: NodeData { name: "a".to_string(), due_date: Some(due) },
        session: Some(Session { start: at(15, 0), end: at(17, 0) }),
    }];
    let kids = children_nodes(1, entries, 0, 11, cols());
    assert_eq!(kids[0].session_text, "3:00 PM to 5:00 PM");
    assert_eq!(kids[0].session_splits, vec![0, 18]);
    assert_eq!(kids[0].due_date_text, " 5 Jan 2023 9:30 AM");
    assert_eq!(kids[0].due_date_splits.len() - 1, kids[0].height());
    assert!(kids[0].height() > 1);
}
