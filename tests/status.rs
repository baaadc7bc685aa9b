use grus::layout::StatusViewConstraints;
use grus::status::{CommandType, Mode, StatusView};

fn view(w: u16) -> StatusView<0> {
    let mut v = StatusView::<0>::new(StatusViewConstraints::new(w, 10));
    v.mode = Mode::Command(CommandType::AddChild);
    v
}

#[test]
fn status_insert_and_read() {
    let mut v = view(80);
    for c in "hello".chars() {
        v.insert(c);
    }
    assert_eq!(v.input(), "hello");
    assert_eq!(v.start, 0);
}

#[test]
fn status_cursor_moves_keep_text() {
    let mut v = view(80);
    for c in "abc".chars() {
        v.insert(c);
    }
    v.move_left();
    v.move_left();
    v.insert('x');
    assert_eq!(v.input(), "axbc");
    v.move_right();
    v.delete();
    assert_eq!(v.input(), "axc");
    v.move_right();
    v.move_right();
    assert_eq!(v.input(), "axc");
}

#[test]
fn status_set_input_and_clear() {
    let mut v = view(80);
    v.set_input("rename me");
    assert_eq!(v.input(), "rename me");
    v.clear();
    assert_eq!(v.input(), "");
    assert_eq!(v.start, 0);
}

#[test]
fn status_scrolls_when_full() {
    // 20 columns less "add: " (5) and " TREE VIEW " (11) leave 4.
    let mut v = view(20);
    assert_eq!(v.cmd_width(), 4);
    for c in "abcdef".chars() {
        v.insert(c);
    }
    assert_eq!(v.start, 3);
    v.delete();
    v.delete();
    v.delete();
    assert_eq!(v.start, 1);
}

#[test]
fn status_command_titles() {
    assert_eq!(CommandType::AddSession.title(), "add session: ");
    assert_eq!(CommandType::Rename.title(), "rename: ");
    let v = StatusView::<1>::new(StatusViewConstraints::new(10, 10));
    assert_eq!(v.cmd_width(), 0);
}
