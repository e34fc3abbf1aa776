//! Facts about sequences and what a filter keeps of them.

use vstd::prelude::*;

verus! {

/// `part` is made of the elements of `whole` at the indices `places`, which
/// go upward.
pub open spec fn picked_at<T>(part: Seq<T>, whole: Seq<T>, places: Seq<int>) -> bool {
    &&& places.len() == part.len()
    &&& forall|i: int|
        0 <= i < places.len() ==> 0 <= #[trigger] places[i] < whole.len() && whole[places[i]]
            == part[i]
    &&& forall|i: int, j: int|
        0 <= i < j < places.len() ==> #[trigger] places[i] < #[trigger] places[j]
}

/// `part` is `whole` with some elements left out: what stays keeps its order,
/// and no element of `whole` is taken twice.
pub open spec fn is_subsequence<T>(part: Seq<T>, whole: Seq<T>) -> bool {
    exists|places: Seq<int>| picked_at(part, whole, places)
}

/// What a filter keeps is a subsequence of what it was given.
pub proof fn lemma_filter_is_subsequence<T>(whole: Seq<T>, test: spec_fn(T) -> bool)
    ensures
        is_subsequence(whole.filter(test), whole),
    decreases whole.len(),
{
    reveal(Seq::filter);
    if whole.len() == 0 {
        assert(picked_at(whole.filter(test), whole, Seq::<int>::empty()));
    } else {
        let shorter = whole.drop_last();
        lemma_filter_is_subsequence(shorter, test);
        let before = choose|places: Seq<int>| picked_at(shorter.filter(test), shorter, places);
        if test(whole.last()) {
            let places = before.push(whole.len() - 1);
            assert(picked_at(whole.filter(test), whole, places));
        } else {
            assert(picked_at(whole.filter(test), whole, before));
        }
    }
}

/// Two tests that agree on every element of `whole` keep the same elements.
pub proof fn lemma_filter_agree<T>(
    whole: Seq<T>,
    one: spec_fn(T) -> bool,
    other: spec_fn(T) -> bool,
)
    requires
        forall|i: int| 0 <= i < whole.len() ==> one(whole[i]) == other(whole[i]),
    ensures
        whole.filter(one) == whole.filter(other),
    decreases whole.len(),
{
    reveal(Seq::filter);
    if whole.len() > 0 {
        let shorter = whole.drop_last();
        assert forall|i: int| 0 <= i < shorter.len() implies one(shorter[i]) == other(
            shorter[i],
        ) by {
            assert(shorter[i] == whole[i]);
        }
        lemma_filter_agree(shorter, one, other);
    }
}

/// A test that holds of every element of `whole` keeps all of `whole`.
pub proof fn lemma_filter_keeps_all<T>(whole: Seq<T>, test: spec_fn(T) -> bool)
    requires
        forall|i: int| 0 <= i < whole.len() ==> test(whole[i]),
    ensures
        whole.filter(test) == whole,
    decreases whole.len(),
{
    reveal(Seq::filter);
    if whole.len() > 0 {
        let shorter = whole.drop_last();
        assert forall|i: int| 0 <= i < shorter.len() implies test(shorter[i]) by {
            assert(shorter[i] == whole[i]);
        }
        lemma_filter_keeps_all(shorter, test);
        assert(shorter.push(whole.last()) =~= whole);
    }
}

} // verus!
