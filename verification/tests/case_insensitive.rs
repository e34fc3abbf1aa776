use minigrep::{search, search_case_insensitive};

#[test]
fn lib_no_result() {
    let query = "this is not in the text bellow";
    let contents = "\
this is text is so exclusive
no one is going to find any string in here...
";

    let result: Vec<&str> = vec![];
    assert_eq!(result, search_case_insensitive(query, contents))
}

#[test]
fn lib_one_result() {
    let query = "RuST";
    let contents = "\
Rust:
Safe, fast, productive.
Pick three.
Trust me.
";

    assert_eq!(
        vec!["Rust:", "Trust me."],
        search_case_insensitive(query, contents)
    )
}

#[test]
fn insensitive_search_returns_lines_as_written() {
    let contents = "HELLO World\nhello there\nGoodbye\n";
    assert_eq!(
        search_case_insensitive("hello", contents),
        vec!["HELLO World", "hello there"]
    );
    assert_eq!(
        search_case_insensitive("HELLO", contents),
        vec!["HELLO World", "hello there"]
    );
}

#[test]
fn insensitive_search_folds_letters_beyond_ascii() {
    let contents = "ÀÉÎ one\nàéî two\nxyz\n";
    assert_eq!(
        search_case_insensitive("Àéî", contents),
        vec!["ÀÉÎ one", "àéî two"]
    );
    assert_eq!(search("àéî", contents), vec!["àéî two"]);
}
