use ringsnap::process_selected_text;

#[test]
fn test_process_selected_text() {
    let text = "  hello  world  ";
    let result = process_selected_text(text);
    assert_eq!(result, "hello world");
}

#[test]
fn normalize_multiline_input() {
    let text = " first line \n\t second\tline \r\n third ";
    assert_eq!(process_selected_text(text), "first line second line third");
}

#[test]
fn normalize_empty_and_blank_input() {
    assert_eq!(process_selected_text(""), "");
    assert_eq!(process_selected_text("   \n\t  "), "");
}

#[test]
fn normalize_unicode_whitespace() {
    let text = "a\u{00A0}\u{2003}b\u{3000}c";
    assert_eq!(process_selected_text(text), "a b c");
}

#[test]
fn normalize_is_idempotent_on_samples() {
    let samples = [
        "  check out github.com/foo/bar today ",
        "one\ntwo\nthree",
        "already normal",
        "",
        " \t ",
    ];
    for s in samples.iter() {
        let once = process_selected_text(s);
        let twice = process_selected_text(&once);
        assert_eq!(once, twice);
    }
}
