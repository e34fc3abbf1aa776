//! The search itself: the lines of a text that contain a query.

use vstd::prelude::*;
use crate::casefold::{
    ascii_lowercase, ascii_lowercase_char, has_no_ascii_capital, has_no_ascii_small,
    lemma_ascii_lowercase_char_apart, lemma_ascii_lowercase_without_capitals, lowercase,
    to_lowercase,
};
use crate::lines::{
    after_first_line, first_line, lemma_after_first_line_shorter, split_first_line, split_lines,
};
use crate::pattern::{
    is_substring, lemma_empty_is_substring, lemma_map_keeps_substring, Pattern,
};
use crate::sequences::{
    is_subsequence, lemma_filter_agree, lemma_filter_is_subsequence, lemma_filter_keeps_all,
};

verus! {

/// Whether letter case counts in a comparison.
#[derive(Clone, Copy, Debug, PartialEq, Eq, Structural)]
pub enum CaseSensitivity {
    /// Characters match only themselves.
    Sensitive,
    /// Both sides are folded to lowercase before they are compared.
    Insensitive,
}

/// The form of `text` that is compared under `mode`.
pub open spec fn folded(text: Seq<char>, mode: CaseSensitivity) -> Seq<char> {
    match mode {
        CaseSensitivity::Sensitive => text,
        CaseSensitivity::Insensitive => lowercase(text),
    }
}

/// `line` contains `query` under `mode`.
pub open spec fn line_matches(query: Seq<char>, line: Seq<char>, mode: CaseSensitivity) -> bool {
    is_substring(folded(query, mode), folded(line, mode))
}

/// The lines of `body` that contain `query` under `mode`: each as it stands in
/// `body`, in the order of `body`.
pub open spec fn matching_lines(
    query: Seq<char>,
    body: Seq<char>,
    mode: CaseSensitivity,
) -> Seq<Seq<char>> {
    split_lines(body).filter(|line: Seq<char>| line_matches(query, line, mode))
}

/// Filtering a text that is not empty filters its first line and then the
/// text after it.
pub proof fn lemma_matching_lines_step(query: Seq<char>, body: Seq<char>, mode: CaseSensitivity)
    requires
        body.len() > 0,
    ensures
        matching_lines(query, body, mode) == if line_matches(query, first_line(body), mode) {
            seq![first_line(body)] + matching_lines(query, after_first_line(body), mode)
        } else {
            matching_lines(query, after_first_line(body), mode)
        },
{
    let test = |line: Seq<char>| line_matches(query, line, mode);
    let head = seq![first_line(body)];
    let tail = split_lines(after_first_line(body));
    Seq::filter_distributes_over_add(head, tail, test);
    assert(head =~= Seq::<Seq<char>>::empty().push(first_line(body)));
    Seq::<Seq<char>>::empty().lemma_filter_push(first_line(body), test);
    reveal(Seq::filter);
    assert(Seq::<Seq<char>>::empty().filter(test) =~= Seq::<Seq<char>>::empty());
    if line_matches(query, first_line(body), mode) {
        assert(head.filter(test) =~= head);
    } else {
        assert(head.filter(test) + tail.filter(test) =~= tail.filter(test));
    }
}

/// Tests whether the form of `line` that is compared under `mode` contains
/// `needle`.
fn line_contains(line: &str, needle: &Pattern, mode: CaseSensitivity) -> (hit: bool)
    ensures
        hit == is_substring(needle@, folded(line@, mode)),
{
    match mode {
        CaseSensitivity::Sensitive => needle.found_in(line),
        CaseSensitivity::Insensitive => {
            let lowered = to_lowercase(line);
            needle.found_in(lowered.as_str())
        },
    }
}

/// Collects the lines of `contents` that contain `query` under `mode`, where
/// `needle` is the form of `query` that is compared under `mode`.
fn select_lines<'a>(
    needle: &str,
    contents: &'a str,
    mode: CaseSensitivity,
    Ghost(query): Ghost<Seq<char>>,
) -> (found: Vec<&'a str>)
    requires
        needle@ == folded(query, mode),
    ensures
        found.deep_view() == matching_lines(query, contents@, mode),
{
    let pattern = Pattern::new(needle);
    let mut found: Vec<&'a str> = Vec::new();
    let mut rest: &'a str = contents;
    assert(found.deep_view() + matching_lines(query, rest@, mode) =~= matching_lines(
        query,
        contents@,
        mode,
    ));
    while !rest.is_empty()
        invariant
            pattern@ == folded(query, mode),
            matching_lines(query, contents@, mode) == found.deep_view() + matching_lines(
                query,
                rest@,
                mode,
            ),
        decreases rest@.len(),
    {
        proof {
            lemma_matching_lines_step(query, rest@, mode);
            lemma_after_first_line_shorter(rest@);
        }
        let ghost before = found.deep_view();
        let (line, next) = split_first_line(rest);
        if line_contains(line, &pattern, mode) {
            found.push(line);
            assert(found.deep_view() =~= before.push(line@));
            assert(before.push(line@) + matching_lines(query, next@, mode) =~= before + (seq![
                line@,
            ] + matching_lines(query, next@, mode)));
        }
        rest = next;
    }
    proof {
        lemma_empty_body_returns_nothing(query, mode);
        assert(rest@ =~= Seq::<char>::empty());
        assert(found.deep_view() + Seq::<Seq<char>>::empty() =~= found.deep_view());
    }
    found
}

/// Returns the lines of `contents` that contain `query`, character for
/// character, in the order in which they stand in `contents`.
pub fn search<'a>(query: &str, contents: &'a str) -> (found: Vec<&'a str>)
    ensures
        found.deep_view() == matching_lines(query@, contents@, CaseSensitivity::Sensitive),
{
    select_lines(query, contents, CaseSensitivity::Sensitive, Ghost(query@))
}

/// Returns the lines of `contents` whose lowercase form contains the lowercase
/// form of `query`, each as it stands in `contents` and in that order.
pub fn search_case_insensitive<'a>(query: &str, contents: &'a str) -> (found: Vec<&'a str>)
    ensures
        found.deep_view() == matching_lines(query@, contents@, CaseSensitivity::Insensitive),
{
    let needle = to_lowercase(query);
    select_lines(needle.as_str(), contents, CaseSensitivity::Insensitive, Ghost(query@))
}

/// Returns the lines of `contents` that contain `query` under `mode`.
pub fn search_with<'a>(query: &str, contents: &'a str, mode: CaseSensitivity) -> (found: Vec<
    &'a str,
>)
    ensures
        found.deep_view() == matching_lines(query@, contents@, mode),
{
    match mode {
        CaseSensitivity::Sensitive => search(query, contents),
        CaseSensitivity::Insensitive => search_case_insensitive(query, contents),
    }
}

/// With the empty query, a case-sensitive search returns every line of the
/// text, unchanged and in order.
pub proof fn lemma_empty_query_returns_every_line(body: Seq<char>)
    ensures
        matching_lines(Seq::empty(), body, CaseSensitivity::Sensitive) == split_lines(body),
{
    let empty = Seq::<char>::empty();
    let test = |line: Seq<char>| line_matches(empty, line, CaseSensitivity::Sensitive);
    let whole = split_lines(body);
    assert forall|i: int| 0 <= i < whole.len() implies test(whole[i]) by {
        lemma_empty_is_substring(whole[i]);
    }
    lemma_filter_keeps_all(whole, test);
}

/// In the empty text no line is found, whatever the query and the mode.
pub proof fn lemma_empty_body_returns_nothing(query: Seq<char>, mode: CaseSensitivity)
    ensures
        matching_lines(query, Seq::empty(), mode) == Seq::<Seq<char>>::empty(),
{
    reveal(Seq::filter);
    assert(split_lines(Seq::<char>::empty()) =~= Seq::<Seq<char>>::empty());
}

/// The query, the text and the mode determine what a search returns: two
/// results for the same three are the same lines in the same order.
pub proof fn lemma_result_is_determined(
    query: Seq<char>,
    body: Seq<char>,
    mode: CaseSensitivity,
    first: Seq<Seq<char>>,
    second: Seq<Seq<char>>,
)
    requires
        first == matching_lines(query, body, mode),
        second == matching_lines(query, body, mode),
    ensures
        first == second,
{
}

/// Where the query and every line of the text are their own lowercase form,
/// the two modes find the same lines. `is_own_lowercase` tests this of a
/// text.
pub proof fn lemma_modes_agree_on_lowercase(query: Seq<char>, body: Seq<char>)
    requires
        lowercase(query) == query,
        forall|i: int|
            0 <= i < split_lines(body).len() ==> lowercase(#[trigger] split_lines(body)[i])
                == split_lines(body)[i],
    ensures
        matching_lines(query, body, CaseSensitivity::Sensitive) == matching_lines(
            query,
            body,
            CaseSensitivity::Insensitive,
        ),
{
    let exact = |line: Seq<char>| line_matches(query, line, CaseSensitivity::Sensitive);
    let loose = |line: Seq<char>| line_matches(query, line, CaseSensitivity::Insensitive);
    lemma_filter_agree(split_lines(body), exact, loose);
}

/// Where the query and every line of the text hold no small letter from `a` to
/// `z`, and the lowercase form of each is its ASCII lowercase, the two modes
/// find the same lines. `folds_like_ascii` tests the second of a text.
pub proof fn lemma_modes_agree_on_capitals(query: Seq<char>, body: Seq<char>)
    requires
        has_no_ascii_small(query),
        lowercase(query) == ascii_lowercase(query),
        forall|i: int|
            0 <= i < split_lines(body).len() ==> has_no_ascii_small(
                #[trigger] split_lines(body)[i],
            ) && lowercase(split_lines(body)[i]) == ascii_lowercase(split_lines(body)[i]),
    ensures
        matching_lines(query, body, CaseSensitivity::Sensitive) == matching_lines(
            query,
            body,
            CaseSensitivity::Insensitive,
        ),
{
    let exact = |line: Seq<char>| line_matches(query, line, CaseSensitivity::Sensitive);
    let loose = |line: Seq<char>| line_matches(query, line, CaseSensitivity::Insensitive);
    let small = |c: char| ascii_lowercase_char(c);
    let whole = split_lines(body);
    assert forall|k: int| 0 <= k < whole.len() implies exact(whole[k]) == loose(whole[k]) by {
        let line = whole[k];
        assert forall|i: int, j: int|
            0 <= i < query.len() && 0 <= j < line.len() && small(query[i]) == small(
                line[j],
            ) implies query[i] == line[j] by {
            lemma_ascii_lowercase_char_apart(query[i], line[j]);
        }
        lemma_map_keeps_substring(query, line, small);
    }
    lemma_filter_agree(whole, exact, loose);
}

/// Where the query and the lines of the text are in one case, the two modes
/// find the same lines: either none of them holds a capital letter from `A`
/// to `Z`, or none of them holds a small letter from `a` to `z`, and the
/// lowercase form of each is its ASCII lowercase, which `folds_like_ascii`
/// tests.
pub proof fn lemma_modes_agree_on_one_case(query: Seq<char>, body: Seq<char>)
    requires
        lowercase(query) == ascii_lowercase(query),
        forall|i: int|
            0 <= i < split_lines(body).len() ==> lowercase(#[trigger] split_lines(body)[i])
                == ascii_lowercase(split_lines(body)[i]),
        ({
            &&& has_no_ascii_capital(query)
            &&& forall|i: int|
                0 <= i < split_lines(body).len() ==> has_no_ascii_capital(
                    #[trigger] split_lines(body)[i],
                )
        }) || ({
            &&& has_no_ascii_small(query)
            &&& forall|i: int|
                0 <= i < split_lines(body).len() ==> has_no_ascii_small(
                    #[trigger] split_lines(body)[i],
                )
        }),
    ensures
        matching_lines(query, body, CaseSensitivity::Sensitive) == matching_lines(
            query,
            body,
            CaseSensitivity::Insensitive,
        ),
{
    let whole = split_lines(body);
    if has_no_ascii_small(query) && forall|i: int|
        0 <= i < whole.len() ==> has_no_ascii_small(#[trigger] whole[i]) {
        lemma_modes_agree_on_capitals(query, body);
    } else {
        lemma_ascii_lowercase_without_capitals(query);
        assert forall|i: int| 0 <= i < whole.len() implies lowercase(#[trigger] whole[i])
            == whole[i] by {
            lemma_ascii_lowercase_without_capitals(whole[i]);
        }
        lemma_modes_agree_on_lowercase(query, body);
    }
}

/// What a search returns is a subsequence of the lines of the text: lines of
/// the text, in the order of the text, none of them twice over.
pub proof fn lemma_matches_are_lines_in_order(
    query: Seq<char>,
    body: Seq<char>,
    mode: CaseSensitivity,
)
    ensures
        is_subsequence(matching_lines(query, body, mode), split_lines(body)),
        matching_lines(query, body, mode).len() <= split_lines(body).len(),
{
    let test = |line: Seq<char>| line_matches(query, line, mode);
    lemma_filter_is_subsequence(split_lines(body), test);
    split_lines(body).lemma_filter_len(test);
}

/// A search returns the lines that match and no others: every line it
/// returns contains the query, and every line of the text that contains the
/// query is among those it returns.
pub proof fn lemma_matches_are_exact(query: Seq<char>, body: Seq<char>, mode: CaseSensitivity)
    ensures
        forall|i: int|
            0 <= i < matching_lines(query, body, mode).len() ==> line_matches(
                query,
                #[trigger] matching_lines(query, body, mode)[i],
                mode,
            ),
        forall|i: int|
            0 <= i < split_lines(body).len() && line_matches(
                query,
                #[trigger] split_lines(body)[i],
                mode,
            ) ==> matching_lines(query, body, mode).contains(split_lines(body)[i]),
{
    let test = |line: Seq<char>| line_matches(query, line, mode);
    let whole = split_lines(body);
    assert forall|i: int| 0 <= i < whole.filter(test).len() implies line_matches(
        query,
        #[trigger] whole.filter(test)[i],
        mode,
    ) by {
        whole.lemma_filter_pred(test, i);
    }
    assert forall|i: int| 0 <= i < whole.len() && line_matches(query, #[trigger] whole[i], mode)
        implies whole.filter(test).contains(whole[i]) by {
        whole.lemma_filter_contains(test, i);
    }
}

} // verus!
