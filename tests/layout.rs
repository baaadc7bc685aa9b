use grus::layout::{Rect, SessionViewConstraints, SessionViewMode, StatusViewConstraints, TreeViewConstraints};

#[test]
fn tree_view_columns() {
    let c = TreeViewConstraints::new(100, 40);
    assert_eq!(c.height(), 40);
    assert_eq!(c.tree_width(), 49);
    assert_eq!(c.session_width(), 33);
    assert_eq!(c.due_date_width(), 100 - 4 - 49 - 33);
    assert_eq!(c.tree_height(), 38);
    assert!(c.session == Rect { x: 51, y: 1, w: 33, h: 38 });
    assert!(c.due_date == Rect { x: 85, y: 1, w: 14, h: 38 });
}

#[test]
fn tree_view_too_short_keeps_layout() {
    let mut c = TreeViewConstraints::new(100, 40);
    c.update(10, 1);
    assert_eq!(c.tree_width(), 49);
    assert_eq!(c.height(), 40);
}

#[test]
fn tree_view_narrow_due_date_saturates() {
    let c = TreeViewConstraints::new(3, 10);
    assert_eq!(c.tree_width(), 1);
    assert_eq!(c.session_width(), 0);
    assert_eq!(c.due_date_width(), 0);
}

#[test]
fn session_view_columns() {
    let mut c = SessionViewConstraints::new(80, 24);
    assert_eq!(c.session_width(), 39);
    assert_eq!(c.tasks_width(), 39);
    assert_eq!(c.session_height(), 22);
    c.mode = SessionViewMode::Task(3);
    c.update(80, 24);
    assert_eq!(c.session_width(), 79);
    assert_eq!(c.tasks_width(), 0);
}

#[test]
fn status_line_is_last_row() {
    let c = StatusViewConstraints::new(80, 24);
    assert!(c.status == Rect { x: 0, y: 23, w: 80, h: 1 });
}
