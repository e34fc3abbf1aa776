//! Substring containment, and a search for it that reads each byte of the
//! text once.
//!
//! The search is that of Knuth, Morris and Pratt. It keeps, for the part of
//! the text read so far, the length of the longest beginning of the pattern
//! that ends there. A table made from the pattern alone says where to go on
//! from when the next byte does not fit: for each beginning of the pattern,
//! the longest shorter beginning that also ends it, its longest border.

use vstd::prelude::*;
use vstd::utf8::encode_utf8;
use crate::encoding::lemma_substring_encoding;

verus! {

/// `needle` stands in `haystack` at index `at`: the `needle.len()` elements of
/// `haystack` from `at` on are those of `needle`.
pub open spec fn occurs_at<T>(needle: Seq<T>, haystack: Seq<T>, at: int) -> bool {
    &&& 0 <= at
    &&& at + needle.len() <= haystack.len()
    &&& haystack.subrange(at, at + needle.len()) == needle
}

/// `needle` stands somewhere in `haystack`. The empty sequence stands in every
/// sequence.
pub open spec fn is_substring<T>(needle: Seq<T>, haystack: Seq<T>) -> bool {
    exists|at: int| occurs_at(needle, haystack, at)
}

/// The empty sequence is a substring of every sequence.
pub proof fn lemma_empty_is_substring<T>(haystack: Seq<T>)
    ensures
        is_substring(Seq::<T>::empty(), haystack),
{
    assert(haystack.subrange(0, 0) =~= Seq::<T>::empty());
    assert(occurs_at(Seq::<T>::empty(), haystack, 0));
}

/// Where `change` tells every element of `needle` apart from every other
/// element of `haystack`, `needle` stands in `haystack` just when it does so
/// after `change` is applied to each element of both.
pub proof fn lemma_map_keeps_substring<A, B>(
    needle: Seq<A>,
    haystack: Seq<A>,
    change: spec_fn(A) -> B,
)
    requires
        forall|i: int, j: int|
            0 <= i < needle.len() && 0 <= j < haystack.len() && change(needle[i]) == change(
                haystack[j],
            ) ==> needle[i] == haystack[j],
    ensures
        is_substring(needle.map_values(change), haystack.map_values(change)) <==> is_substring(
            needle,
            haystack,
        ),
{
    let small = needle.map_values(change);
    let large = haystack.map_values(change);
    if is_substring(needle, haystack) {
        let at = choose|at: int| occurs_at(needle, haystack, at);
        assert forall|i: int| 0 <= i < small.len() implies large.subrange(at, at + small.len())[i]
            == small[i] by {
            assert(haystack.subrange(at, at + needle.len())[i] == needle[i]);
        }
        assert(large.subrange(at, at + small.len()) =~= small);
        assert(occurs_at(small, large, at));
    }
    if is_substring(small, large) {
        let at = choose|at: int| occurs_at(small, large, at);
        assert forall|i: int| 0 <= i < needle.len() implies haystack.subrange(
            at,
            at + needle.len(),
        )[i] == needle[i] by {
            assert(large.subrange(at, at + small.len())[i] == small[i]);
            assert(change(haystack[at + i]) == change(needle[i]));
        }
        assert(haystack.subrange(at, at + needle.len()) =~= needle);
        assert(occurs_at(needle, haystack, at));
    }
}

/// The first `len` bytes of `pattern` are the last `len` bytes of `seen`.
pub open spec fn prefix_ends(pattern: Seq<u8>, len: int, seen: Seq<u8>) -> bool {
    &&& 0 <= len <= pattern.len()
    &&& len <= seen.len()
    &&& forall|i: int| 0 <= i < len ==> #[trigger] pattern[i] == seen[seen.len() - len + i]
}

/// Of the beginnings of `pattern` shorter than `upto` that end its first
/// `upto` bytes, the one of length `len` is the longest.
pub open spec fn is_longest_border(pattern: Seq<u8>, upto: int, len: int) -> bool {
    &&& len < upto
    &&& prefix_ends(pattern, len, pattern.subrange(0, upto))
    &&& forall|other: int|
        len < other < upto ==> !#[trigger] prefix_ends(pattern, other, pattern.subrange(0, upto))
}

/// `table` holds, for each length from 1 up to its own, the longest border of
/// the beginning of `pattern` of that length, at the index one below.
pub open spec fn table_fits(pattern: Seq<u8>, table: Seq<usize>) -> bool {
    &&& table.len() <= pattern.len()
    &&& forall|k: int|
        0 <= k < table.len() ==> is_longest_border(pattern, k + 1, #[trigger] table[k] as int)
}

/// Where the first `longer` bytes of `pattern` end `seen`, a shorter beginning
/// of `pattern` ends `seen` just when it ends those first `longer` bytes.
proof fn lemma_shorter_prefix(pattern: Seq<u8>, seen: Seq<u8>, longer: int, len: int)
    requires
        prefix_ends(pattern, longer, seen),
        0 <= len <= longer,
    ensures
        prefix_ends(pattern, len, seen) <==> prefix_ends(pattern, len, pattern.subrange(0, longer)),
{
    let front = pattern.subrange(0, longer);
    if prefix_ends(pattern, len, seen) {
        assert forall|i: int| 0 <= i < len implies #[trigger] pattern[i] == front[front.len() - len
            + i] by {
            let j = longer - len + i;
            assert(pattern[j] == seen[seen.len() - longer + j]);
            assert(front[front.len() - len + i] == pattern[j]);
        }
    }
    if prefix_ends(pattern, len, front) {
        assert forall|i: int| 0 <= i < len implies #[trigger] pattern[i] == seen[seen.len() - len
            + i] by {
            let j = longer - len + i;
            assert(pattern[j] == seen[seen.len() - longer + j]);
            assert(front[front.len() - len + i] == pattern[j]);
        }
    }
}

/// A beginning of `pattern` that ends `seen` and the next byte ends, less its
/// last byte, `seen`; and that last byte is the next byte.
proof fn lemma_prefix_before_push(pattern: Seq<u8>, seen: Seq<u8>, next: u8, len: int)
    requires
        len > 0,
        prefix_ends(pattern, len, seen.push(next)),
    ensures
        prefix_ends(pattern, len - 1, seen),
        pattern[len - 1] == next,
{
    let more = seen.push(next);
    assert(pattern[len - 1] == more[more.len() - len + (len - 1)]);
    assert forall|i: int| 0 <= i < len - 1 implies #[trigger] pattern[i] == seen[seen.len() - (len
        - 1) + i] by {
        assert(pattern[i] == more[more.len() - len + i]);
    }
}

/// A beginning of `pattern` that ends `seen`, and whose next byte is `next`,
/// ends `seen` and `next` when it is made one byte longer.
proof fn lemma_prefix_after_push(pattern: Seq<u8>, seen: Seq<u8>, next: u8, len: int)
    requires
        prefix_ends(pattern, len, seen),
        len < pattern.len(),
        pattern[len] == next,
    ensures
        prefix_ends(pattern, len + 1, seen.push(next)),
{
    let more = seen.push(next);
    assert forall|i: int| 0 <= i < len + 1 implies #[trigger] pattern[i] == more[more.len() - (len
        + 1) + i] by {
        if i < len {
            assert(pattern[i] == seen[seen.len() - len + i]);
        }
    }
}

/// The whole of `pattern` ends the first `end` bytes of `text` just when it
/// stands in `text` at the index where it would then begin.
proof fn lemma_whole_prefix_is_occurrence(pattern: Seq<u8>, text: Seq<u8>, end: int)
    requires
        pattern.len() <= end <= text.len(),
    ensures
        prefix_ends(pattern, pattern.len() as int, text.subrange(0, end)) <==> occurs_at(
            pattern,
            text,
            end - pattern.len(),
        ),
{
    let seen = text.subrange(0, end);
    let at = end - pattern.len();
    let part = text.subrange(at, at + pattern.len());
    if prefix_ends(pattern, pattern.len() as int, seen) {
        assert forall|i: int| 0 <= i < pattern.len() implies part[i] == pattern[i] by {
            assert(pattern[i] == seen[seen.len() - pattern.len() + i]);
        }
        assert(part =~= pattern);
    }
    if occurs_at(pattern, text, at) {
        assert forall|i: int| 0 <= i < pattern.len() implies #[trigger] pattern[i] == seen[
            seen.len() - pattern.len() + i
        ] by {
            assert(part[i] == pattern[i]);
        }
    }
}

/// Reads one more byte. Given the longest beginning of `pattern`, shorter than
/// `cap`, that ends `seen`, returns the longest one, not longer than `cap`,
/// that ends `seen` and `next`.
fn advance(
    pattern: &[u8],
    table: &Vec<usize>,
    matched: usize,
    next: u8,
    Ghost(seen): Ghost<Seq<u8>>,
    Ghost(cap): Ghost<int>,
) -> (now: usize)
    requires
        table_fits(pattern@, table@),
        matched <= table@.len(),
        matched < cap <= pattern@.len(),
        prefix_ends(pattern@, matched as int, seen),
        forall|len: int| matched < len < cap ==> !#[trigger] prefix_ends(pattern@, len, seen),
    ensures
        now <= matched + 1,
        prefix_ends(pattern@, now as int, seen.push(next)),
        forall|len: int|
            now < len <= cap ==> !#[trigger] prefix_ends(pattern@, len, seen.push(next)),
{
    let mut k: usize = matched;
    while k > 0 && pattern[k] != next
        invariant
            table_fits(pattern@, table@),
            k <= matched <= table@.len(),
            matched < cap <= pattern@.len(),
            prefix_ends(pattern@, k as int, seen),
            forall|len: int|
                k < len < cap ==> !(#[trigger] prefix_ends(pattern@, len, seen) && pattern@[len]
                    == next),
        decreases k,
    {
        let shorter: usize = table[k - 1];
        proof {
            assert(is_longest_border(pattern@, k as int, shorter as int));
            lemma_shorter_prefix(pattern@, seen, k as int, shorter as int);
            assert forall|len: int| shorter < len < cap implies !(#[trigger] prefix_ends(
                pattern@,
                len,
                seen,
            ) && pattern@[len] == next) by {
                if len < k {
                    lemma_shorter_prefix(pattern@, seen, k as int, len);
                }
            }
        }
        k = shorter;
    }
    let now: usize = if pattern[k] == next {
        proof {
            lemma_prefix_after_push(pattern@, seen, next, k as int);
        }
        k + 1
    } else {
        0
    };
    proof {
        assert forall|len: int| now < len <= cap implies !#[trigger] prefix_ends(
            pattern@,
            len,
            seen.push(next),
        ) by {
            if prefix_ends(pattern@, len, seen.push(next)) {
                lemma_prefix_before_push(pattern@, seen, next, len);
            }
        }
    }
    now
}

/// Makes the table of longest borders for `pattern`.
fn border_table(pattern: &[u8]) -> (table: Vec<usize>)
    ensures
        table@.len() == pattern@.len(),
        table_fits(pattern@, table@),
{
    let total: usize = pattern.len();
    let mut table: Vec<usize> = Vec::new();
    if total == 0 {
        return table;
    }
    table.push(0);
    let mut border: usize = 0;
    let mut upto: usize = 1;
    while upto < total
        invariant
            total == pattern@.len(),
            1 <= upto <= total,
            table@.len() == upto,
            table_fits(pattern@, table@),
            border == table@[upto - 1],
        decreases total - upto,
    {
        let ghost seen = pattern@.subrange(0, upto as int);
        proof {
            assert(is_longest_border(pattern@, upto as int, border as int));
        }
        border = advance(pattern, &table, border, pattern[upto], Ghost(seen), Ghost(upto as int));
        proof {
            assert(seen.push(pattern@[upto as int]) =~= pattern@.subrange(0, upto + 1));
        }
        table.push(border);
        upto += 1;
    }
    table
}

/// Tests whether `pattern` stands somewhere in `text`, with the table of
/// longest borders of `pattern` at hand.
fn search_bytes(pattern: &[u8], table: &Vec<usize>, text: &[u8]) -> (found: bool)
    requires
        table@.len() == pattern@.len(),
        table_fits(pattern@, table@),
    ensures
        found == is_substring(pattern@, text@),
{
    let width: usize = pattern.len();
    let total: usize = text.len();
    if width == 0 {
        proof {
            lemma_empty_is_substring(text@);
            assert(pattern@ =~= Seq::<u8>::empty());
        }
        return true;
    }
    let mut matched: usize = 0;
    let mut read: usize = 0;
    while read < total
        invariant
            width == pattern@.len(),
            total == text@.len(),
            table@.len() == pattern@.len(),
            table_fits(pattern@, table@),
            read <= total,
            matched < width,
            prefix_ends(pattern@, matched as int, text@.subrange(0, read as int)),
            forall|len: int|
                matched < len <= width ==> !#[trigger] prefix_ends(
                    pattern@,
                    len,
                    text@.subrange(0, read as int),
                ),
            forall|at: int| at + width <= read ==> !occurs_at(pattern@, text@, at),
        decreases total - read,
    {
        let ghost seen = text@.subrange(0, read as int);
        matched = advance(pattern, table, matched, text[read], Ghost(seen), Ghost(width as int));
        proof {
            assert(seen.push(text@[read as int]) =~= text@.subrange(0, read + 1));
        }
        read += 1;
        proof {
            if read >= width {
                lemma_whole_prefix_is_occurrence(pattern@, text@, read as int);
            }
        }
        if matched == width {
            return true;
        }
    }
    false
}

/// A text to look for, made ready for searching: the table that the search
/// goes by is made once and serves for every text that is searched.
pub struct Pattern<'a> {
    text: &'a str,
    table: Vec<usize>,
}

impl<'a> View for Pattern<'a> {
    type V = Seq<char>;

    /// The characters to look for.
    closed spec fn view(&self) -> Seq<char> {
        self.text@
    }
}

impl<'a> Pattern<'a> {
    #[verifier::type_invariant]
    spec fn table_is_ready(self) -> bool {
        &&& self.table@.len() == encode_utf8(self.text@).len()
        &&& table_fits(encode_utf8(self.text@), self.table@)
    }

    /// Makes `text` ready to be searched for.
    pub fn new(text: &'a str) -> (pattern: Pattern<'a>)
        ensures
            pattern@ == text@,
    {
        Pattern { text, table: border_table(text.as_bytes()) }
    }

    /// Tests whether the pattern stands somewhere in `haystack`, character
    /// for character.
    pub fn found_in(&self, haystack: &str) -> (found: bool)
        ensures
            found == is_substring(self@, haystack@),
    {
        proof {
            use_type_invariant(self);
            lemma_substring_encoding(self@, haystack@);
        }
        search_bytes(self.text.as_bytes(), &self.table, haystack.as_bytes())
    }
}

/// Tests whether `needle` stands somewhere in `haystack`, character for
/// character.
pub fn contains(haystack: &str, needle: &str) -> (found: bool)
    ensures
        found == is_substring(needle@, haystack@),
{
    Pattern::new(needle).found_in(haystack)
}

} // verus!
