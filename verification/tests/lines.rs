use minigrep::{search, split_first_line};

#[test]
fn first_line_ends_at_the_line_feed() {
    assert_eq!(split_first_line("one\ntwo\nthree"), ("one", "two\nthree"));
    assert_eq!(split_first_line("one\n"), ("one", ""));
    assert_eq!(split_first_line("\nrest"), ("", "rest"));
}

#[test]
fn text_without_line_feed_is_one_line() {
    assert_eq!(split_first_line("only"), ("only", ""));
    assert_eq!(split_first_line(""), ("", ""));
}

#[test]
fn carriage_return_belongs_to_its_line() {
    assert_eq!(split_first_line("one\r\ntwo"), ("one\r", "two"));
    assert_eq!(split_first_line("\r\n"), ("\r", ""));
    assert_eq!(split_first_line("one\r\r\ntwo"), ("one\r\r", "two"));
    assert_eq!(split_first_line("a\rb\nc"), ("a\rb", "c"));
    assert_eq!(split_first_line("end\r"), ("end\r", ""));
    assert_eq!(split_first_line("\rstart\n"), ("\rstart", ""));
}

#[test]
fn lines_before_a_line_feed_keep_their_carriage_return() {
    assert_eq!(search("", "a\r\nb\n"), vec!["a\r", "b"]);
    assert_eq!(search("", "a\r\nb\r\n"), vec!["a\r", "b\r"]);
    assert_eq!(search("\r", "a\r\nb\n"), vec!["a\r"]);
    assert_eq!(search("a\r", "a\r\nb\n"), vec!["a\r"]);
}

#[test]
fn first_line_may_hold_any_characters() {
    assert_eq!(split_first_line("héllo wörld\n日本"), ("héllo wörld", "日本"));
    assert_eq!(split_first_line("日本\r\n語"), ("日本\r", "語"));
}

#[test]
fn trailing_line_feed_adds_no_line() {
    assert_eq!(search("", "a\nb\n"), vec!["a", "b"]);
    assert_eq!(search("", "a\nb"), vec!["a", "b"]);
}

#[test]
fn blank_lines_are_lines() {
    assert_eq!(search("", "\n"), vec![""]);
    assert_eq!(search("", "\n\n"), vec!["", ""]);
    assert_eq!(search("", "a\n\nb\n"), vec!["a", "", "b"]);
}

#[test]
fn returned_lines_are_parts_of_the_text() {
    let contents = String::from("alpha\nbeta\ngamma\n");
    let found = search("a", &contents);
    assert_eq!(found, vec!["alpha", "beta", "gamma"]);
    let start = contents.as_ptr() as usize;
    let end = start + contents.len();
    for line in found {
        let at = line.as_ptr() as usize;
        assert!(start <= at && at + line.len() <= end);
    }
}
