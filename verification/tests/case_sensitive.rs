use minigrep::search;

#[test]
fn no_result() {
    let query = "this is not in the text bellow";
    let contents = "\
this is text is so exclusive
no one is going to find any string in here...
";

    let result: Vec<&str> = vec![];
    assert_eq!(result, search(query, contents))
}

#[test]
fn one_result() {
    let query = "rough";
    let contents = "\
meow, meow, meow! The cat said wisely.
rough, rough, rough! The dog said happily.
";

    assert_eq!(
        vec!["rough, rough, rough! The dog said happily."],
        search(query, contents)
    )
}

#[test]
fn two_results() {
    let query = "but";
    let contents = "\
I should write a line here, but what should I say?
I should also write another one because it is two results, but.... This line will match?
And this? This should not match!
";

    assert_eq!(
            vec![
                "I should write a line here, but what should I say?",
                "I should also write another one because it is two results, but.... This line will match?"
                ],
            search(query, contents))
}

#[test]
fn sensitive_search_tells_case_apart() {
    let contents = "Rust:\nSafe, fast, productive.\nPick three.\nTrust me.\n";
    let none: Vec<&str> = vec![];
    assert_eq!(search("RuST", contents), none);
    assert_eq!(search("rust", contents), vec!["Trust me."]);
    assert_eq!(search("Rust", contents), vec!["Rust:"]);
}
