//! Case folding: the lowercase form under which letters are compared when case
//! is not to count, and tests that tell what it does to a given text.

use vstd::prelude::*;
use vstd::utf8::*;
use crate::encoding::lemma_encode_injective;

verus! {

/// The lowercase form of `text`, as `str::to_lowercase` of the standard
/// library gives it. It depends on `text` alone; nothing more is stated of it.
pub uninterp spec fn lowercase(text: Seq<char>) -> Seq<char>;

/// Folds `text` to lowercase by a call of `str::to_lowercase`.
///
/// Not proved, but taken from the standard library: the characters of the
/// string that comes back are `lowercase` of the characters of `text`.
#[verifier::external_body]
pub(crate) fn to_lowercase(text: &str) -> (folded: String)
    ensures
        folded@ == lowercase(text@),
{
    text.to_lowercase()
}

/// `c` with the capital letters `A` to `Z` made small; any other character
/// is itself.
pub open spec fn ascii_lowercase_char(c: char) -> char {
    if 'A' <= c && c <= 'Z' {
        ((c as u8 + 32) as u8) as char
    } else {
        c
    }
}

/// `text` with each capital letter from `A` to `Z` made small.
pub open spec fn ascii_lowercase(text: Seq<char>) -> Seq<char> {
    text.map_values(|c: char| ascii_lowercase_char(c))
}

/// `text` holds none of the capital letters `A` to `Z`.
pub open spec fn has_no_ascii_capital(text: Seq<char>) -> bool {
    forall|i: int| 0 <= i < text.len() ==> !('A' <= #[trigger] text[i] && text[i] <= 'Z')
}

/// `text` holds none of the small letters `a` to `z`.
pub open spec fn has_no_ascii_small(text: Seq<char>) -> bool {
    forall|i: int| 0 <= i < text.len() ==> !('a' <= #[trigger] text[i] && text[i] <= 'z')
}

/// The byte `b` with the codes of `A` to `Z` moved to those of `a` to `z`.
pub open spec fn ascii_lowercase_byte(b: u8) -> u8 {
    if 0x41 <= b && b <= 0x5a {
        (b + 32) as u8
    } else {
        b
    }
}

/// A text without capital letters from `A` to `Z` is its own ASCII lowercase.
pub proof fn lemma_ascii_lowercase_without_capitals(text: Seq<char>)
    requires
        has_no_ascii_capital(text),
    ensures
        ascii_lowercase(text) == text,
{
    assert(ascii_lowercase(text) =~= text);
}

/// On characters that are not small letters from `a` to `z`, the ASCII
/// lowercase tells any two apart.
pub proof fn lemma_ascii_lowercase_char_apart(c: char, d: char)
    requires
        !('a' <= c && c <= 'z'),
        !('a' <= d && d <= 'z'),
        ascii_lowercase_char(c) == ascii_lowercase_char(d),
    ensures
        c == d,
{
}

/// A scalar below 0x80 is encoded as the byte of its own value.
proof fn lemma_narrow_byte(v: u32)
    by (bit_vector)
    requires
        v <= 0x7f,
    ensures
        leading_byte_width_1(v) == v,
{
}

/// No byte of an encoding of two, three or four bytes is below 0x80.
proof fn lemma_wide_bytes(v: u32)
    by (bit_vector)
    ensures
        leading_byte_width_2(v) >= 0x80,
        leading_byte_width_3(v) >= 0x80,
        leading_byte_width_4(v) >= 0x80,
        last_continuation_byte(v) >= 0x80,
        second_last_continuation_byte(v) >= 0x80,
        third_last_continuation_byte(v) >= 0x80,
{
}

/// The encoding of the ASCII lowercase of a character is the encoding of the
/// character with each byte made lowercase.
proof fn lemma_encode_ascii_lowercase_char(c: char)
    ensures
        encode_scalar(ascii_lowercase_char(c) as u32) == encode_scalar(c as u32).map_values(
            |b: u8| ascii_lowercase_byte(b),
        ),
{
    let v = c as u32;
    let small = ascii_lowercase_char(c) as u32;
    let low = |b: u8| ascii_lowercase_byte(b);
    char_is_scalar(c);
    lemma_wide_bytes(v);
    if v <= 0x7f {
        lemma_narrow_byte(v);
        lemma_narrow_byte(small);
    }
    assert(encode_scalar(small) =~= encode_scalar(v).map_values(low));
}

/// The encoding of the ASCII lowercase of a text is the encoding of the text
/// with each byte made lowercase.
pub proof fn lemma_encode_ascii_lowercase(text: Seq<char>)
    ensures
        encode_utf8(ascii_lowercase(text)) == encode_utf8(text).map_values(
            |b: u8| ascii_lowercase_byte(b),
        ),
    decreases text.len(),
{
    let low = |b: u8| ascii_lowercase_byte(b);
    if text.len() == 0 {
        assert(encode_utf8(ascii_lowercase(text)) =~= encode_utf8(text).map_values(low));
    } else {
        let rest = text.drop_first();
        assert(ascii_lowercase(text).drop_first() =~= ascii_lowercase(rest));
        lemma_encode_ascii_lowercase(rest);
        lemma_encode_ascii_lowercase_char(text[0]);
        assert(encode_utf8(ascii_lowercase(text)) =~= encode_utf8(text).map_values(low));
    }
}

/// Tests whether `folded` is `text` with each byte made lowercase, where
/// `lower` is set, or `text` itself, where it is not.
fn same_bytes(folded: &[u8], text: &[u8], lower: bool) -> (same: bool)
    ensures
        same == (folded@ == if lower {
            text@.map_values(|b: u8| ascii_lowercase_byte(b))
        } else {
            text@
        }),
{
    let ghost wanted = if lower {
        text@.map_values(|b: u8| ascii_lowercase_byte(b))
    } else {
        text@
    };
    let total: usize = text.len();
    if folded.len() != total {
        return false;
    }
    let mut at: usize = 0;
    while at < total
        invariant
            total == text@.len(),
            total == folded@.len(),
            wanted.len() == total,
            wanted == if lower {
                text@.map_values(|b: u8| ascii_lowercase_byte(b))
            } else {
                text@
            },
            at <= total,
            forall|i: int| 0 <= i < at ==> folded@[i] == wanted[i],
        decreases total - at,
    {
        let byte: u8 = text[at];
        let want: u8 = if lower && 0x41 <= byte && byte <= 0x5a {
            byte + 32
        } else {
            byte
        };
        if folded[at] != want {
            assert(folded@[at as int] != wanted[at as int]);
            return false;
        }
        at += 1;
    }
    assert(folded@ =~= wanted);
    true
}

/// Tests whether `text` is its own lowercase form.
pub fn is_own_lowercase(text: &str) -> (own: bool)
    ensures
        own == (lowercase(text@) == text@),
{
    let folded = to_lowercase(text);
    proof {
        if encode_utf8(folded@) == encode_utf8(text@) {
            lemma_encode_injective(folded@, text@);
        }
    }
    same_bytes(folded.as_str().as_bytes(), text.as_bytes(), false)
}

/// Tests whether the lowercase form of `text` is its ASCII lowercase: `text`
/// with the capital letters `A` to `Z` made small and nothing else changed.
pub fn folds_like_ascii(text: &str) -> (like: bool)
    ensures
        like == (lowercase(text@) == ascii_lowercase(text@)),
{
    let folded = to_lowercase(text);
    proof {
        lemma_encode_ascii_lowercase(text@);
        if encode_utf8(folded@) == encode_utf8(ascii_lowercase(text@)) {
            lemma_encode_injective(folded@, ascii_lowercase(text@));
        }
    }
    same_bytes(folded.as_str().as_bytes(), text.as_bytes(), true)
}

} // verus!
