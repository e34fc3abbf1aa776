//! How the characters of a string relate to the bytes that encode it.
//!
//! The executable code scans the UTF-8 bytes of a string, while the contracts
//! speak of its characters. The lemmas here carry facts from one to the other.

use vstd::prelude::*;
use vstd::utf8::*;
use crate::pattern::{is_substring, occurs_at};

verus! {

/// Encoding distributes over concatenation.
pub proof fn lemma_encode_concat(a: Seq<char>, b: Seq<char>)
    ensures
        encode_utf8(a + b) == encode_utf8(a) + encode_utf8(b),
    decreases a.len(),
{
    if a.len() == 0 {
        assert(a + b =~= b);
        assert(encode_utf8(a) + encode_utf8(b) =~= encode_utf8(b));
    } else {
        assert((a + b).drop_first() =~= a.drop_first() + b);
        lemma_encode_concat(a.drop_first(), b);
        assert(encode_utf8(a + b) =~= encode_utf8(a) + encode_utf8(b));
    }
}

/// Two character sequences with the same encoding are the same.
pub proof fn lemma_encode_injective(a: Seq<char>, b: Seq<char>)
    requires
        encode_utf8(a) == encode_utf8(b),
    ensures
        a == b,
{
    encode_utf8_decode_utf8(a);
    encode_utf8_decode_utf8(b);
}

/// Where the encoding of `whole` is cut at `mid` into the encodings of `head`
/// and `tail`, `whole` is `head` followed by `tail`.
pub proof fn lemma_split_views(whole: Seq<char>, head: Seq<char>, tail: Seq<char>, mid: int)
    requires
        0 <= mid <= encode_utf8(whole).len(),
        encode_utf8(head) == encode_utf8(whole).subrange(0, mid),
        encode_utf8(tail) == encode_utf8(whole).subrange(mid, encode_utf8(whole).len() as int),
    ensures
        whole == head + tail,
{
    lemma_encode_concat(head, tail);
    assert(encode_utf8(head) + encode_utf8(tail) =~= encode_utf8(whole));
    lemma_encode_injective(head + tail, whole);
}

/// An ASCII character is encoded as the one byte of its code.
pub proof fn lemma_encode_ascii(c: char)
    requires
        c <= '\u{7f}',
    ensures
        encode_utf8(seq![c]) == seq![c as u8],
{
    let s = seq![c];
    assert(is_ascii_chars(s));
    is_ascii_chars_encode_utf8(s);
    assert(encode_utf8(s) =~= seq![c as u8]);
}

/// An ASCII character of `text` shows as its byte in the encoding of `text`.
pub proof fn lemma_ascii_char_has_byte(text: Seq<char>, j: int)
    requires
        0 <= j < text.len(),
        text[j] <= '\u{7f}',
    ensures
        exists|k: int| 0 <= k < encode_utf8(text).len() && encode_utf8(text)[k] == text[j] as u8,
{
    let before = text.subrange(0, j);
    let one = seq![text[j]];
    let after = text.subrange(j + 1, text.len() as int);
    assert(text =~= before + one + after);
    lemma_encode_concat(before + one, after);
    lemma_encode_concat(before, one);
    lemma_encode_ascii(text[j]);
    let k = encode_utf8(before).len() as int;
    assert(encode_utf8(text)[k] == text[j] as u8);
}

/// Where no byte of the encoding of `text` is the byte of the ASCII character
/// `c`, no character of `text` is `c`.
pub proof fn lemma_absent_byte_absent_char(text: Seq<char>, c: char)
    requires
        c <= '\u{7f}',
        forall|k: int| 0 <= k < encode_utf8(text).len() ==> encode_utf8(text)[k] != c as u8,
    ensures
        forall|j: int| 0 <= j < text.len() ==> text[j] != c,
{
    assert forall|j: int| 0 <= j < text.len() implies text[j] != c by {
        if text[j] == c {
            lemma_ascii_char_has_byte(text, j);
        }
    }
}

/// A text whose encoding is the one byte of the ASCII character `c` is `c`
/// alone.
pub proof fn lemma_single_ascii(text: Seq<char>, c: char)
    requires
        c <= '\u{7f}',
        encode_utf8(text) == seq![c as u8],
    ensures
        text == seq![c],
{
    lemma_encode_ascii(c);
    lemma_encode_injective(text, seq![c]);
}

/// An ASCII byte in the encoding of `text` begins a character.
pub proof fn lemma_ascii_byte_is_boundary(text: Seq<char>, k: int)
    requires
        0 <= k < encode_utf8(text).len(),
        encode_utf8(text)[k] <= 0x7f,
    ensures
        is_char_boundary(encode_utf8(text), k),
{
    encode_utf8_valid_utf8(text);
    is_char_boundary_iff_not_is_continuation_byte(encode_utf8(text), k);
}

/// Where the encoding of `text` begins with an ASCII byte, the second byte
/// begins a character, or the encoding ends there.
pub proof fn lemma_boundary_after_ascii(text: Seq<char>)
    requires
        encode_utf8(text).len() > 0,
        encode_utf8(text)[0] <= 0x7f,
    ensures
        is_char_boundary(encode_utf8(text), 1),
{
    encode_utf8_valid_utf8(text);
    reveal_with_fuel(is_char_boundary, 2);
    reveal_with_fuel(valid_utf8, 2);
}

/// Where the encoding of `needle` begins the encoding of `text`, `needle`
/// begins `text`: no character's encoding is the beginning of another's.
pub proof fn lemma_prefix_from_bytes(needle: Seq<char>, text: Seq<char>)
    requires
        occurs_at(encode_utf8(needle), encode_utf8(text), 0),
    ensures
        occurs_at(needle, text, 0),
    decreases needle.len(),
{
    if needle.len() == 0 {
        assert(text.subrange(0, 0) =~= needle);
    } else {
        let en = encode_utf8(needle);
        let et = encode_utf8(text);
        encode_utf8_first_scalar(needle);
        assert(et.len() >= en.len() >= 1);
        assert(text.len() > 0);
        encode_utf8_first_scalar(text);
        assert forall|i: int| 0 <= i < en.len() implies et[i] == en[i] by {
            assert(et.subrange(0, en.len() as int)[i] == en[i]);
        }
        let width = length_of_first_scalar(en);
        assert(width == length_of_first_scalar(et));
        assert(decode_first_scalar(et) == decode_first_scalar(en));
        char_u32_cast(needle[0], needle[0] as u32);
        char_u32_cast(text[0], text[0] as u32);
        assert(text[0] == needle[0]);
        let needle_rest = needle.drop_first();
        let text_rest = text.drop_first();
        assert(encode_utf8(needle_rest) =~= en.subrange(width, en.len() as int));
        assert(encode_utf8(text_rest) =~= et.subrange(width, et.len() as int));
        assert(encode_utf8(text_rest).subrange(0, encode_utf8(needle_rest).len() as int)
            =~= encode_utf8(needle_rest));
        lemma_prefix_from_bytes(needle_rest, text_rest);
        assert forall|i: int| 0 <= i < needle.len() implies text[i] == needle[i] by {
            if i > 0 {
                assert(text_rest.subrange(0, needle_rest.len() as int)[i - 1] == needle_rest[i
                    - 1]);
            }
        }
        assert(text.subrange(0, needle.len() as int) =~= needle);
    }
}

/// An occurrence of `needle` in `haystack` is an occurrence of its encoding in
/// the encoding of `haystack`, at the offset where the characters before it end.
pub proof fn lemma_occurrence_to_bytes(needle: Seq<char>, haystack: Seq<char>, at: int)
    requires
        occurs_at(needle, haystack, at),
    ensures
        occurs_at(
            encode_utf8(needle),
            encode_utf8(haystack),
            encode_utf8(haystack.subrange(0, at)).len() as int,
        ),
{
    let before = haystack.subrange(0, at);
    let after = haystack.subrange(at + needle.len(), haystack.len() as int);
    assert(haystack =~= before + needle + after);
    lemma_encode_concat(before + needle, after);
    lemma_encode_concat(before, needle);
    let offset = encode_utf8(before).len() as int;
    assert(encode_utf8(haystack).subrange(offset, offset + encode_utf8(needle).len())
        =~= encode_utf8(needle));
}

/// An occurrence of the encoding of `needle` in the encoding of `haystack` is
/// the encoding of an occurrence of `needle` in `haystack`: it cannot begin or
/// end inside the encoding of a character.
pub proof fn lemma_occurrence_from_bytes(needle: Seq<char>, haystack: Seq<char>, offset: int)
    requires
        occurs_at(encode_utf8(needle), encode_utf8(haystack), offset),
    ensures
        is_substring(needle, haystack),
{
    if needle.len() == 0 {
        assert(haystack.subrange(0, 0) =~= needle);
        assert(occurs_at(needle, haystack, 0));
    } else {
        let en = encode_utf8(needle);
        let eh = encode_utf8(haystack);
        encode_utf8_valid_utf8(needle);
        encode_utf8_valid_utf8(haystack);
        encode_utf8_first_scalar(needle);
        assert(eh.subrange(offset, offset + en.len())[0] == en[0]);
        is_char_boundary_iff_not_is_continuation_byte(eh, offset);
        valid_utf8_split(eh, offset);
        let head_bytes = eh.subrange(0, offset);
        let tail_bytes = eh.subrange(offset, eh.len() as int);
        let head = decode_utf8(head_bytes);
        let tail = decode_utf8(tail_bytes);
        decode_utf8_encode_utf8(head_bytes);
        decode_utf8_encode_utf8(tail_bytes);
        lemma_split_views(haystack, head, tail, offset);
        assert(tail_bytes.subrange(0, en.len() as int) =~= eh.subrange(offset, offset + en.len()));
        lemma_prefix_from_bytes(needle, tail);
        let at = head.len() as int;
        assert(haystack.subrange(at, at + needle.len()) =~= tail.subrange(0, needle.len() as int));
        assert(occurs_at(needle, haystack, at));
    }
}

/// Searching the bytes finds what searching the characters finds.
pub proof fn lemma_substring_encoding(needle: Seq<char>, haystack: Seq<char>)
    ensures
        is_substring(encode_utf8(needle), encode_utf8(haystack)) <==> is_substring(
            needle,
            haystack,
        ),
{
    if is_substring(encode_utf8(needle), encode_utf8(haystack)) {
        let offset = choose|k: int| occurs_at(encode_utf8(needle), encode_utf8(haystack), k);
        lemma_occurrence_from_bytes(needle, haystack, offset);
    }
    if is_substring(needle, haystack) {
        let at = choose|j: int| occurs_at(needle, haystack, j);
        lemma_occurrence_to_bytes(needle, haystack, at);
    }
}

} // verus!
