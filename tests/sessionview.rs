use grus::datetime::{Date, DateTime, Session, Time};
use grus::layout::SessionViewConstraints;
use grus::sessionview::{Item, SessionView};

fn at(day: u32, hour: u32) -> DateTime {
    DateTime { date: Date { year: 2024, month: 1, day }, time: Time { hour, minute: 0 } }
}

fn item(day: u32, id: u64, rows: usize) -> Item {
    let name = "x".repeat(rows);
    let splits: Vec<usize> = (0..=rows).collect();
    Item {
        session: Session { start: at(day, 9), end: at(day, 10) },
        id,
        name,
        name_splits: splits,
        session_text: String::new(),
        session_splits: vec![0, 0],
    }
}

fn view(items: Vec<Item>, h: u16) -> SessionView {
    // Session height is h - 2.
    SessionView::new(items, SessionViewConstraints::new(40, h))
}

#[test]
fn sessionview_window_fits_height() {
    let v = view(vec![item(1, 1, 1), item(2, 2, 2), item(3, 3, 1), item(4, 4, 1)], 6);
    assert_eq!(v.start, 0);
    assert_eq!(v.heights, vec![0, 1, 3]);
}

#[test]
fn sessionview_scrolls_down_and_up() {
    let mut v = view(vec![item(1, 1, 1), item(2, 2, 2), item(3, 3, 1), item(4, 4, 1)], 6);
    v.cursor_down();
    v.cursor_down();
    assert_eq!(v.cursor, 2);
    assert_eq!(v.start, 0);
    v.cursor_down();
    assert_eq!(v.cursor, 3);
    assert_eq!(v.heights, vec![0, 2, 3]);
    assert_eq!(v.start, 1);
    v.cursor_down();
    assert_eq!(v.cursor, 3);
    v.cursor_up();
    v.cursor_up();
    v.cursor_up();
    assert_eq!(v.cursor, 0);
    assert_eq!(v.start, 0);
    assert_eq!(v.session_and_id().unwrap().0, 1);
}

#[test]
fn sessionview_reset_finds_position() {
    let mut v = view(vec![item(1, 1, 1), item(3, 3, 1), item(5, 5, 1)], 10);
    v.cursor_down();
    assert_eq!(v.cursor, 1);
    v.reset(vec![item(1, 1, 1), item(2, 2, 1), item(4, 4, 1)]);
    assert_eq!(v.cursor, 2);
    v.reset(vec![item(1, 1, 1)]);
    assert_eq!(v.cursor, 0);
}

#[test]
fn sessionview_resize_rewraps() {
    let mut it = item(1, 1, 1);
    it.name = "abcdef".to_string();
    it.session_text = "01 to 02".to_string();
    let mut v = view(vec![it], 10);
    v.resize(3, 5);
    assert_eq!(v.items[0].name_splits, vec![0, 3, 6]);
    assert_eq!(v.items[0].session_splits, vec![0, 3, 6, 8]);
}
