use minigrep::{
    contains, folds_like_ascii, is_own_lowercase, search, search_case_insensitive, search_with,
    CaseSensitivity,
};

#[test]
fn empty_query_returns_every_line() {
    let contents = "first\n\nthird\r\n  \nlast";
    assert_eq!(search("", contents), vec!["first", "", "third\r", "  ", "last"]);
    assert_eq!(
        search_case_insensitive("", contents),
        vec!["first", "", "third\r", "  ", "last"]
    );
}

#[test]
fn empty_body_returns_nothing() {
    let none: Vec<&str> = vec![];
    assert_eq!(search("", ""), none);
    assert_eq!(search("anything", ""), none);
    assert_eq!(search_case_insensitive("", ""), none);
    assert_eq!(search_case_insensitive("Anything", ""), none);
}

#[test]
fn same_inputs_give_same_result() {
    let contents = "one fish\ntwo fish\nred fish\nblue whale\n";
    let first = search("fish", contents);
    let second = search("fish", contents);
    assert_eq!(first, second);
    assert_eq!(first, vec!["one fish", "two fish", "red fish"]);
    let third = search_case_insensitive("FISH", contents);
    let fourth = search_case_insensitive("FISH", contents);
    assert_eq!(third, fourth);
    assert_eq!(third, first);
}

#[test]
fn modes_agree_on_lowercase_text() {
    let contents = "the quick brown fox\njumps over\nthe lazy dog\n";
    for query in ["the", "o", "fox", "cat", ""] {
        assert_eq!(
            search(query, contents),
            search_case_insensitive(query, contents)
        );
    }
    assert_eq!(
        search("the", contents),
        vec!["the quick brown fox", "the lazy dog"]
    );
}

#[test]
fn modes_agree_on_text_in_capitals() {
    let contents = "THE QUICK BROWN FOX\nJUMPS OVER 2 FENCES\nTHE LAZY DOG\n";
    for query in ["THE", "O", "FOX", "CAT", "2 F", ""] {
        assert!(folds_like_ascii(query));
        assert_eq!(
            search(query, contents),
            search_case_insensitive(query, contents)
        );
    }
    assert_eq!(
        search_case_insensitive("THE", contents),
        vec!["THE QUICK BROWN FOX", "THE LAZY DOG"]
    );
}

#[test]
fn modes_part_on_text_of_mixed_case() {
    let contents = "The quick\nTHE SLOW\nthe end\n";
    assert_eq!(search("the", contents), vec!["the end"]);
    assert_eq!(
        search_case_insensitive("the", contents),
        vec!["The quick", "THE SLOW", "the end"]
    );
}

#[test]
fn own_lowercase_is_told() {
    assert!(is_own_lowercase(""));
    assert!(is_own_lowercase("plain text, 123"));
    assert!(is_own_lowercase("été à la rivière"));
    assert!(!is_own_lowercase("Plain"));
    assert!(!is_own_lowercase("plaiN"));
    assert!(!is_own_lowercase("été À"));
}

#[test]
fn ascii_fold_is_told() {
    assert!(folds_like_ascii(""));
    assert!(folds_like_ascii("HELLO, World 42"));
    assert!(folds_like_ascii("already small"));
    assert!(folds_like_ascii("été"));
    assert!(!folds_like_ascii("ÉTÉ"));
    assert!(!folds_like_ascii("ΑΒΓ"));
}

#[test]
fn search_with_follows_the_mode() {
    let contents = "Alpha\nalpha\nBETA\n";
    assert_eq!(
        search_with("alpha", contents, CaseSensitivity::Sensitive),
        vec!["alpha"]
    );
    assert_eq!(
        search_with("alpha", contents, CaseSensitivity::Insensitive),
        vec!["Alpha", "alpha"]
    );
    assert_eq!(
        search_with("beta", contents, CaseSensitivity::Insensitive),
        vec!["BETA"]
    );
}

#[test]
fn matching_lines_keep_their_order_and_repeats() {
    let contents = "b\na\nb\nc\nb";
    assert_eq!(search("b", contents), vec!["b", "b", "b"]);
    assert_eq!(search("a", contents), vec!["a"]);
}

#[test]
fn a_match_does_not_reach_across_lines() {
    let contents = "ab\ncd\n";
    let none: Vec<&str> = vec![];
    assert_eq!(search("b\nc", contents), none);
    assert_eq!(search("bc", contents), none);
    assert_eq!(search("\n", contents), none);
}

#[test]
fn query_may_be_the_whole_line() {
    let contents = "needle\nneedles\nneedl\n";
    assert_eq!(search("needle", contents), vec!["needle", "needles"]);
}

#[test]
fn search_agrees_with_a_filter_over_split_text() {
    let bodies = [
        "",
        "\n",
        "\n\n",
        "a",
        "a\n",
        "a\nb",
        "a\r\nb\r\n",
        "a\rb\n",
        "tail\r",
        "x\r\r\ny",
        "\r\n",
        "été\nÉTÉ\nhiver\n",
        "日本語\n本\n語日\n",
    ];
    let queries = ["", "a", "b", "\r", "é", "É", "本", "日本", "zz"];
    for body in bodies {
        for query in queries {
            let exact: Vec<&str> = body
                .split_terminator('\n')
                .filter(|line| line.contains(query))
                .collect();
            assert_eq!(search(query, body), exact);
            let lowered = query.to_lowercase();
            let loose: Vec<&str> = body
                .split_terminator('\n')
                .filter(|line| line.to_lowercase().contains(&lowered))
                .collect();
            assert_eq!(search_case_insensitive(query, body), loose);
        }
    }
}

#[test]
fn contains_finds_a_needle_anywhere() {
    assert!(contains("haystack", "hay"));
    assert!(contains("haystack", "yst"));
    assert!(contains("haystack", "stack"));
    assert!(contains("haystack", "haystack"));
    assert!(!contains("haystack", "needle"));
    assert!(!contains("haystack", "haystacks"));
    assert!(!contains("haystack", "Hay"));
}

#[test]
fn contains_takes_the_empty_needle_everywhere() {
    assert!(contains("", ""));
    assert!(contains("abc", ""));
    assert!(!contains("", "a"));
}

#[test]
fn contains_compares_whole_characters() {
    assert!(contains("日本語", "本"));
    assert!(contains("日本語", "本語"));
    assert!(!contains("日本語", "語本"));
    assert!(contains("naïve", "ï"));
    assert!(!contains("naive", "ï"));
    assert!(contains("aaab", "aab"));
}
