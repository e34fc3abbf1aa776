//! The lines of a text.
//!
//! A line is a longest run of characters without a line feed: it ends at a
//! line feed, or at the end of the text. The line feed does not belong to the
//! line; every other character does, a carriage return too. A text that ends
//! with a line feed has no empty line after it.

use vstd::prelude::*;
use vstd::utf8::*;
use crate::encoding::{
    lemma_absent_byte_absent_char, lemma_ascii_byte_is_boundary, lemma_boundary_after_ascii,
    lemma_encode_injective, lemma_single_ascii, lemma_split_views,
};

verus! {

const LINE_FEED: u8 = 0x0a;

/// The index of the first line feed in `text`, or `text.len()` if it has none.
pub open spec fn first_newline(text: Seq<char>) -> int
    decreases text.len(),
{
    if text.len() == 0 || text[0] == '\n' {
        0
    } else {
        1 + first_newline(text.drop_first())
    }
}

/// The first line of `text`: what stands before its first line feed; all of
/// `text` if it has no line feed.
pub open spec fn first_line(text: Seq<char>) -> Seq<char> {
    text.subrange(0, first_newline(text))
}

/// What follows the first line feed of `text`; empty if it has none.
pub open spec fn after_first_line(text: Seq<char>) -> Seq<char> {
    let end = first_newline(text);
    if end < text.len() {
        text.subrange(end + 1, text.len() as int)
    } else {
        Seq::empty()
    }
}

/// The lines of `text`, in order. The empty text has no line.
pub open spec fn split_lines(text: Seq<char>) -> Seq<Seq<char>>
    decreases text.len(),
    via split_lines_terminates
{
    if text.len() == 0 {
        Seq::empty()
    } else {
        seq![first_line(text)] + split_lines(after_first_line(text))
    }
}

#[via_fn]
proof fn split_lines_terminates(text: Seq<char>) {
    lemma_first_newline(text);
}

/// `first_newline` is in range, no line feed stands before it, and a line feed
/// stands at it unless it is the length.
pub proof fn lemma_first_newline(text: Seq<char>)
    ensures
        0 <= first_newline(text) <= text.len(),
        forall|i: int| 0 <= i < first_newline(text) ==> text[i] != '\n',
        first_newline(text) < text.len() ==> text[first_newline(text)] == '\n',
    decreases text.len(),
{
    if text.len() == 0 || text[0] == '\n' {
    } else {
        let rest = text.drop_first();
        lemma_first_newline(rest);
        assert forall|i: int| 0 <= i < first_newline(text) implies text[i] != '\n' by {
            if i > 0 {
                assert(text[i] == rest[i - 1]);
            }
        }
    }
}

/// The index `at` is `first_newline(text)` where no line feed stands before it
/// and one stands at it, unless it is the length.
pub proof fn lemma_first_newline_unique(text: Seq<char>, at: int)
    requires
        0 <= at <= text.len(),
        forall|i: int| 0 <= i < at ==> text[i] != '\n',
        at < text.len() ==> text[at] == '\n',
    ensures
        first_newline(text) == at,
    decreases text.len(),
{
    if text.len() == 0 || text[0] == '\n' {
    } else {
        let rest = text.drop_first();
        assert forall|i: int| 0 <= i < at - 1 implies rest[i] != '\n' by {
            assert(rest[i] == text[i + 1]);
        }
        lemma_first_newline_unique(rest, at - 1);
    }
}

/// No line holds a line feed.
pub proof fn lemma_lines_hold_no_line_feed(text: Seq<char>)
    ensures
        forall|i: int, j: int|
            0 <= i < split_lines(text).len() && 0 <= j < split_lines(text)[i].len()
                ==> #[trigger] split_lines(text)[i][j] != '\n',
    decreases text.len(),
{
    if text.len() > 0 {
        lemma_first_newline(text);
        let first = first_line(text);
        let rest = split_lines(after_first_line(text));
        lemma_lines_hold_no_line_feed(after_first_line(text));
        assert forall|j: int| 0 <= j < first.len() implies first[j] != '\n' by {
            assert(first[j] == text[j]);
        }
        assert forall|i: int, j: int|
            0 <= i < split_lines(text).len() && 0 <= j < split_lines(text)[i].len()
                implies #[trigger] split_lines(text)[i][j] != '\n' by {
            if i > 0 {
                assert(split_lines(text)[i] == rest[i - 1]);
            }
        }
    }
}

/// The text made of `lines`, each with a line feed after it.
pub open spec fn join_lines(lines: Seq<Seq<char>>) -> Seq<char>
    decreases lines.len(),
{
    if lines.len() == 0 {
        Seq::empty()
    } else {
        lines[0].push('\n') + join_lines(lines.drop_first())
    }
}

/// The lines of a text, each with a line feed after it, make up the text
/// again; where the text did not end with a line feed, they make up the text
/// and one line feed. So nothing but line feeds is left out of the lines, and
/// no line could be longer.
pub proof fn lemma_lines_make_up_the_text(text: Seq<char>)
    ensures
        join_lines(split_lines(text)) == if text.len() == 0 || text.last() == '\n' {
            text
        } else {
            text.push('\n')
        },
    decreases text.len(),
{
    if text.len() == 0 {
        assert(join_lines(split_lines(text)) =~= text);
    } else {
        let end = first_newline(text);
        let first = first_line(text);
        let rest = after_first_line(text);
        lemma_first_newline(text);
        lemma_lines_make_up_the_text(rest);
        assert(split_lines(text).drop_first() =~= split_lines(rest));
        assert(join_lines(split_lines(text)) == first.push('\n') + join_lines(split_lines(rest)));
        if end < text.len() {
            assert(text =~= first.push('\n') + rest);
            if rest.len() > 0 {
                assert(rest.last() == text.last());
                if text.last() != '\n' {
                    assert(text.push('\n') =~= first.push('\n') + rest.push('\n'));
                }
            } else {
                assert(first.push('\n') + rest =~= first.push('\n'));
            }
        } else {
            assert(first =~= text);
            assert(first.push('\n') + rest =~= text.push('\n'));
        }
    }
}

/// A line feed at the end of the text adds no line: a text that does not end
/// with a line feed has the same lines with a line feed after it.
pub proof fn lemma_final_line_feed_adds_no_line(text: Seq<char>)
    requires
        text.len() > 0,
        text.last() != '\n',
    ensures
        split_lines(text.push('\n')) == split_lines(text),
    decreases text.len(),
{
    let more = text.push('\n');
    let end = first_newline(text);
    lemma_first_newline(text);
    assert forall|i: int| 0 <= i < end implies more[i] != '\n' by {
        assert(more[i] == text[i]);
    }
    lemma_first_newline_unique(more, end);
    assert(first_line(more) =~= first_line(text));
    if end < text.len() {
        let rest = after_first_line(text);
        assert(after_first_line(more) =~= rest.push('\n'));
        assert(rest.last() == text.last());
        lemma_final_line_feed_adds_no_line(rest);
    } else {
        assert(after_first_line(more) =~= after_first_line(text));
    }
}

/// The text after the first line is shorter than a text that is not empty.
pub proof fn lemma_after_first_line_shorter(text: Seq<char>)
    requires
        text.len() > 0,
    ensures
        after_first_line(text).len() < text.len(),
{
    lemma_first_newline(text);
}

/// The index of the first byte of `bytes` that equals `byte`, or the length of
/// `bytes` if none does.
fn find_byte(bytes: &[u8], byte: u8) -> (at: usize)
    ensures
        at <= bytes@.len(),
        forall|i: int| 0 <= i < at ==> bytes@[i] != byte,
        at < bytes@.len() ==> bytes@[at as int] == byte,
{
    let total: usize = bytes.len();
    let mut at: usize = 0;
    while at < total && bytes[at] != byte
        invariant
            total == bytes@.len(),
            at <= total,
            forall|i: int| 0 <= i < at ==> bytes@[i] != byte,
        decreases total - at,
    {
        at += 1;
    }
    at
}

/// Splits `text` into its first line and what follows that line.
pub fn split_first_line<'a>(text: &'a str) -> (parts: (&'a str, &'a str))
    ensures
        parts.0@ == first_line(text@),
        parts.1@ == after_first_line(text@),
{
    let bytes = text.as_bytes();
    let end: usize = find_byte(bytes, LINE_FEED);
    if end == bytes.len() {
        proof {
            lemma_absent_byte_absent_char(text@, '\n');
            lemma_first_newline_unique(text@, text@.len() as int);
            encode_utf8_valid_utf8(text@);
            is_char_boundary_start_end_of_seq(bytes@);
        }
        let (all, rest) = text.split_at(end);
        proof {
            assert(encode_utf8(all@) =~= encode_utf8(text@));
            lemma_encode_injective(all@, text@);
            assert(encode_utf8(rest@) =~= Seq::<u8>::empty());
            lemma_encode_injective(rest@, Seq::<char>::empty());
        }
        (all, rest)
    } else {
        proof {
            lemma_ascii_byte_is_boundary(text@, end as int);
        }
        let (head, tail) = text.split_at(end);
        proof {
            lemma_boundary_after_ascii(tail@);
        }
        let (feed, rest) = tail.split_at(1);
        proof {
            assert(encode_utf8(feed@) =~= seq!['\n' as u8]);
            lemma_single_ascii(feed@, '\n');
            lemma_split_views(tail@, feed@, rest@, 1);
            lemma_split_views(text@, head@, tail@, end as int);
            lemma_absent_byte_absent_char(head@, '\n');
            let at = head@.len() as int;
            assert(text@ =~= head@ + seq!['\n'] + rest@);
            lemma_first_newline_unique(text@, at);
            assert(text@.subrange(0, at) =~= head@);
            assert(text@.subrange(at + 1, text@.len() as int) =~= rest@);
        }
        (head, rest)
    }
}

} // verus!
