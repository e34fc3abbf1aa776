use minigrep::pattern::Pattern;

fn words_over_ab(longest: usize) -> Vec<String> {
    let mut all = vec![String::new()];
    let mut last = vec![String::new()];
    for _ in 0..longest {
        let mut next = Vec::new();
        for word in &last {
            next.push(format!("{}a", word));
            next.push(format!("{}b", word));
        }
        all.extend(next.iter().cloned());
        last = next;
    }
    all
}

#[test]
fn pattern_serves_many_texts() {
    let pattern = Pattern::new("abab");
    assert!(pattern.found_in("abab"));
    assert!(pattern.found_in("xxababxx"));
    assert!(pattern.found_in("abaabab"));
    assert!(pattern.found_in("aabababb"));
    assert!(!pattern.found_in("aba"));
    assert!(!pattern.found_in("abba abba"));
    assert!(!pattern.found_in(""));
}

#[test]
fn pattern_that_repeats_itself_is_found_after_a_false_start() {
    assert!(Pattern::new("aaab").found_in("aaaaaaab"));
    assert!(Pattern::new("abcabd").found_in("abcabcabd"));
    assert!(Pattern::new("aabaaab").found_in("aabaabaaab"));
    assert!(!Pattern::new("aabaaab").found_in("aabaabaabaa"));
    assert!(!Pattern::new("abcabd").found_in("abcabcabc"));
}

#[test]
fn empty_pattern_is_found_everywhere() {
    let pattern = Pattern::new("");
    assert!(pattern.found_in(""));
    assert!(pattern.found_in("anything"));
}

#[test]
fn pattern_longer_than_the_text_is_not_found() {
    assert!(!Pattern::new("abc").found_in("ab"));
    assert!(!Pattern::new("a").found_in(""));
}

#[test]
fn pattern_of_wide_characters_is_found_whole() {
    let pattern = Pattern::new("é");
    assert!(pattern.found_in("café"));
    assert!(!pattern.found_in("cafe"));
    assert!(!pattern.found_in("cafè"));
    assert!(Pattern::new("🦀🦀").found_in("a🦀🦀b"));
    assert!(!Pattern::new("🦀🦀").found_in("a🦀b🦀"));
}

#[test]
fn pattern_agrees_with_the_standard_library_on_short_words() {
    let needles = words_over_ab(5);
    let texts = words_over_ab(9);
    for needle in &needles {
        let pattern = Pattern::new(needle);
        for text in &texts {
            assert_eq!(pattern.found_in(text), text.contains(needle.as_str()));
        }
    }
}
