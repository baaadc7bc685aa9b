use grus::node::wrap_text;

fn lines<'a>(text: &'a str, w: usize) -> Vec<&'a str> {
    wrap_text(text, w).windows(2).map(|s| &text[s[0]..s[1]]).collect()
}

#[test]
fn wrap_text_test() {
    let expected = &[
        "Lorem ipsum dolor sit amet, consectetur adipiscing elit, sed do eiusmod tempor ",
        "incididunt ut labore et dolore magna aliqua. Ut enim ad minim veniam, quis ",
        "nostrud exercitation ullamco laboris nisi ut aliquip ex ea commodo consequat. ",
        "Duis aute irure dolor in reprehenderit in voluptate velit esse cillum dolore eu ",
        "fugiat nulla pariatur. Excepteur sint occaecat cupidatat non proident, sunt in ",
        "culpa qui officia deserunt mollit anim id est laborum.",
    ];
    let text = expected.concat();
    let result: Vec<_> = wrap_text(&text, 80).windows(2).map(|w| &text[w[0]..w[1]]).collect();
    assert_eq!(result, expected);

    let expected = &["   ", "   ", "   ", "  "];
    let text = expected.concat();
    let result: Vec<_> = wrap_text(&text, 3).windows(2).map(|w| &text[w[0]..w[1]]).collect();
    assert_eq!(result, expected);

    let expected = &["###", "###", "###"];
    let text = expected.concat();
    let result: Vec<_> = wrap_text(&text, 3).windows(2).map(|w| &text[w[0]..w[1]]).collect();
    assert_eq!(result, expected);

    let expected = &[" ##", "###", "###", "#"];
    let text = expected.concat();
    let result: Vec<_> = wrap_text(&text, 3).windows(2).map(|w| &text[w[0]..w[1]]).collect();
    assert_eq!(result, expected);

    let expected = &["  #", "###", "###", "##"];
    let text = expected.concat();
    let result: Vec<_> = wrap_text(&text, 3).windows(2).map(|w| &text[w[0]..w[1]]).collect();
    assert_eq!(result, expected);

    let expected = &[" ", "###"];
    let text = expected.concat();
    let result: Vec<_> = wrap_text(&text, 3).windows(2).map(|w| &text[w[0]..w[1]]).collect();
    assert_eq!(result, expected);

    let expected = &[" ", "###", " "];
    let text = expected.concat();
    let result: Vec<_> = wrap_text(&text, 3).windows(2).map(|w| &text[w[0]..w[1]]).collect();
    assert_eq!(result, expected);

    let expected = &["###", "#  ", " ", "###", "   ", " ", "###"];
    let text = expected.concat();
    let result: Vec<_> = wrap_text(&text, 3).windows(2).map(|w| &text[w[0]..w[1]]).collect();
    assert_eq!(result, expected);
}

#[test]
fn wrap_long_word_splits() {
    assert_eq!(wrap_text("aaaaaa bb", 3), vec![0, 3, 6, 7, 9]);
    assert_eq!(lines("aaaaaa bb", 3), vec!["aaa", "aaa", " ", "bb"]);
}

#[test]
fn wrap_word_ending_on_the_edge_moves_down() {
    assert_eq!(lines("ab cd ef", 5), vec!["ab ", "cd ", "ef"]);
    assert_eq!(wrap_text("abc def", 7), vec![0, 4, 7]);
}

#[test]
fn wrap_zero_width_is_one_empty_line() {
    assert_eq!(wrap_text("abc", 0), vec![0, 0]);
    assert_eq!(wrap_text("", 0), vec![0, 0]);
}

#[test]
fn wrap_empty_text_has_no_lines() {
    assert_eq!(wrap_text("", 5), Vec::<usize>::new());
}

#[test]
fn wrap_lines_concatenate_back() {
    for text in ["hello world foo", "a  b   c", "xxxxxxxxxxxxx y", "  lead", "trail  ", "héllo wörld ünïcode"] {
        for w in 1..12 {
            let s = wrap_text(text, w);
            assert_eq!(s[0], 0);
            assert_eq!(*s.last().unwrap(), text.len());
            assert!(s.windows(2).all(|p| p[0] <= p[1]));
            assert_eq!(lines(text, w).concat(), text);
            assert!(lines(text, w).iter().all(|l| l.chars().count() <= w));
        }
    }
}

#[test]
fn wrap_short_text_fits_one_line() {
    assert_eq!(wrap_text("ab cd", 10), vec![0, 5]);
    assert_eq!(wrap_text("abc def", 8), vec![0, 7]);
}
