use grus::node::{Node, NodeData, Priority};
use grus::treeview::TreeView;

fn node(pid: u64, id: u64, det: u64) -> Node {
    Node {
        id,
        pid,
        depth: 0,
        data: NodeData { name: format!("n{}", id), due_date: None },
        session: None,
        priority: Priority { det, total: 3 },
        name_splits: vec![0, 2],
        session_text: String::new(),
        session_splits: Vec::new(),
        due_date_text: String::new(),
        due_date_splits: Vec::new(),
    }
}

fn tree() -> Vec<Node> {
    vec![node(0, 0, 0), node(0, 1, 0), node(0, 2, 1), node(0, 3, 2)]
}

#[test]
fn treeview_reset_keeps_same_node() {
    let mut v = TreeView::new(tree());
    v.cursor_down();
    v.cursor_down();
    assert_eq!(v.cursor_node().unwrap().id, 2);
    v.reset(vec![node(0, 0, 0), node(0, 2, 0), node(0, 1, 1), node(0, 3, 2)]);
    assert_eq!(v.cursor, 1);
}

#[test]
fn treeview_reset_falls_back_to_sibling_then_parent() {
    let mut v = TreeView::new(tree());
    v.cursor_down();
    v.cursor_down();
    // Node 2 (priority 1) is gone: the node now at priority 1 takes over.
    v.reset(vec![node(0, 0, 0), node(0, 1, 0), node(0, 3, 1)]);
    assert_eq!(v.cursor, 2);
    // Node 3 (priority 1) is gone and nothing holds its priority: the one above.
    v.reset(vec![node(0, 0, 0), node(0, 1, 0)]);
    assert_eq!(v.cursor, 1);
    // Only the parent is left.
    v.reset(vec![node(0, 0, 0), node(5, 6, 0)]);
    assert_eq!(v.cursor, 0);
}

#[test]
fn treeview_toggle_and_selections() {
    let mut v = TreeView::new(tree());
    assert_eq!(v.selections(), vec![(0, 0)]);
    assert_eq!(v.selection_ids(), vec![0]);
    v.cursor_down();
    v.toggle();
    v.cursor_down();
    v.toggle();
    assert!(v.is_selected(0, 1));
    assert!(v.is_selected(0, 2));
    assert_eq!(v.selections(), vec![(0, 1), (0, 2)]);
    assert_eq!(v.selection_ids(), vec![1, 2]);
    v.toggle();
    assert!(!v.is_selected(0, 2));
    v.cursor_up();
    v.deselect();
    assert!(!v.is_selected(0, 1));
    assert_eq!(v.selection_ids(), vec![1]);
    v.toggle();
    v.clear_selections();
    assert_eq!(v.selections(), vec![(0, 1)]);
}

#[test]
fn treeview_move_into_and_out() {
    let mut v = TreeView::new(tree());
    v.move_into();
    assert_eq!(v.root_id(), 0);
    assert!(v.is_cursor_at_root());
    v.cursor_down();
    v.cursor_down();
    v.cursor_down();
    v.cursor_down();
    assert_eq!(v.cursor, 3);
    v.move_into();
    assert_eq!(v.root_id(), 3);
    assert_eq!(v.stack, vec![0]);
    v.move_out();
    assert_eq!(v.root_id(), 0);
    assert!(v.stack.is_empty());
}

#[test]
fn treeview_empty_tree() {
    let mut v = TreeView::new(Vec::new());
    assert!(v.cursor_node().is_none());
    assert!(v.selections().is_empty());
    assert!(v.selection_ids().is_empty());
    v.toggle();
    v.cursor_down();
    assert_eq!(v.cursor, 0);
}
