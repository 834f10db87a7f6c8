//! What the white space of `text` means on UTF-8 text: the byte patterns
//! that are trimmed are the encodings of the characters with the Unicode
//! property White_Space, and of no others.

use crate::text::{
    is_space_byte, is_space_pair, is_space_triple, leading_space, trailing_space, trim_end,
    trim_space, trim_start,
};
use vstd::prelude::*;
use vstd::utf8::{
    codepoint_width_1, codepoint_width_2, codepoint_width_3, decode_first_scalar,
    decode_last_scalar, decode_utf8, is_continuation_byte, is_leading_byte_width_1,
    is_leading_byte_width_2, is_leading_byte_width_3, length_of_first_scalar,
    length_of_last_scalar, not_overlong_encoding, pop_first_scalar, valid_first_scalar,
    valid_utf8,
};

verus! {

/// Whether a Unicode scalar has the property White_Space.
pub open spec fn is_white_space(scalar: u32) -> bool {
    ||| 0x09 <= scalar <= 0x0d
    ||| scalar == 0x20
    ||| scalar == 0x85
    ||| scalar == 0xa0
    ||| scalar == 0x1680
    ||| 0x2000 <= scalar <= 0x200a
    ||| scalar == 0x2028
    ||| scalar == 0x2029
    ||| scalar == 0x202f
    ||| scalar == 0x205f
    ||| scalar == 0x3000
}

/// `chars` without the white space it starts with.
pub open spec fn trim_chars_start(chars: Seq<char>) -> Seq<char>
    decreases chars.len(),
{
    if chars.len() > 0 && is_white_space(chars.first() as u32) {
        trim_chars_start(chars.drop_first())
    } else {
        chars
    }
}

/// `chars` without the white space it ends with.
pub open spec fn trim_chars_end(chars: Seq<char>) -> Seq<char>
    decreases chars.len(),
{
    if chars.len() > 0 && is_white_space(chars.last() as u32) {
        trim_chars_end(chars.drop_last())
    } else {
        chars
    }
}

/// `chars` without the white space around it.
pub open spec fn trim_chars(chars: Seq<char>) -> Seq<char> {
    trim_chars_end(trim_chars_start(chars))
}

proof fn lemma_space_width_1(a: u8)
    by (bit_vector)
    requires
        is_leading_byte_width_1(a),
    ensures
        is_white_space(codepoint_width_1(a)) == is_space_byte(a),
{
}

proof fn lemma_space_width_2(a: u8, b: u8)
    by (bit_vector)
    requires
        is_leading_byte_width_2(a),
        is_continuation_byte(b),
        not_overlong_encoding(codepoint_width_2(a, b), 2),
    ensures
        is_white_space(codepoint_width_2(a, b)) == is_space_pair(a, b),
{
}

proof fn lemma_space_width_3(a: u8, b: u8, c: u8)
    by (bit_vector)
    requires
        is_leading_byte_width_3(a),
        is_continuation_byte(b),
        is_continuation_byte(c),
        not_overlong_encoding(codepoint_width_3(a, b, c), 3),
    ensures
        is_white_space(codepoint_width_3(a, b, c)) == is_space_triple(a, b, c),
{
}

/// Where text starts with a well-formed character, the white space
/// measured at its start is that character if it has the property
/// White_Space, and nothing otherwise.
pub proof fn lemma_leading_space(text: Seq<u8>)
    requires
        valid_first_scalar(text),
    ensures
        leading_space(text) == (if is_white_space(decode_first_scalar(text)) {
            length_of_first_scalar(text)
        } else {
            0
        }),
{
    let a = text[0];
    if is_leading_byte_width_1(a) {
        lemma_space_width_1(a);
    } else if is_leading_byte_width_2(a) {
        lemma_space_width_2(a, text[1]);
    } else if is_leading_byte_width_3(a) {
        lemma_space_width_3(a, text[1], text[2]);
    }
}

/// The last character of UTF-8 text is well formed by itself, and is as
/// long as the run of continuation bytes at the end of the text says.
pub proof fn lemma_last_scalar(text: Seq<u8>)
    requires
        valid_utf8(text),
        text.len() > 0,
    ensures
        1 <= length_of_last_scalar(text) <= text.len(),
        valid_first_scalar(text.skip(text.len() - length_of_last_scalar(text))),
        length_of_first_scalar(text.skip(text.len() - length_of_last_scalar(text)))
            == length_of_last_scalar(text),
        decode_first_scalar(text.skip(text.len() - length_of_last_scalar(text)))
            == decode_last_scalar(text),
        !is_continuation_byte(text[text.len() - length_of_last_scalar(text)]),
    decreases text.len(),
{
    let rest = pop_first_scalar(text);
    let first_len = length_of_first_scalar(text);
    if rest.len() == 0 {
        assert(text.skip(0) == text);
    } else {
        lemma_last_scalar(rest);
        let n = text.len() as int;
        let m = rest.len() as int;
        let last_len = length_of_last_scalar(rest);
        assert(forall|k: int| 0 <= k < m ==> rest[k] == text[first_len + k]);
        assert(rest[m - 1] == text[n - 1]);
        if last_len >= 2 {
            assert(rest[m - 2] == text[n - 2]);
        }
        if last_len >= 3 {
            assert(rest[m - 3] == text[n - 3]);
        }
        assert(length_of_last_scalar(text) == last_len);
        assert(rest.skip(m - last_len) == text.skip(n - last_len));
        if last_len >= 4 {
            assert(rest[m - 4] == text[n - 4]);
        }
    }
}

/// Where UTF-8 text ends, the white space measured at its end is its last
/// character if that has the property White_Space, and nothing otherwise.
pub proof fn lemma_trailing_space(text: Seq<u8>)
    requires
        valid_utf8(text),
        text.len() > 0,
    ensures
        trailing_space(text) == (if is_white_space(decode_last_scalar(text)) {
            length_of_last_scalar(text)
        } else {
            0
        }),
{
    lemma_last_scalar(text);
    let n = text.len() as int;
    let last_len = length_of_last_scalar(text);
    let tail = text.skip(n - last_len);
    assert(forall|k: int| 0 <= k < last_len ==> tail[k] == text[n - last_len + k]);
    lemma_leading_space(tail);
    if last_len == 1 {
        assert(tail[0] == text[n - 1]);
    } else if last_len == 2 {
        assert(tail[0] == text[n - 2]);
        assert(tail[1] == text[n - 1]);
    } else if last_len == 3 {
        assert(tail[0] == text[n - 3]);
        assert(tail[1] == text[n - 2]);
        assert(tail[2] == text[n - 1]);
    } else {
        assert(tail[0] == text[n - 4]);
    }
}

/// The scalar that a well-formed character decodes to is the number of the
/// character it is read as.
proof fn lemma_first_char(text: Seq<u8>)
    requires
        valid_first_scalar(text),
    ensures
        (decode_first_scalar(text) as char) as u32 == decode_first_scalar(text),
{
    let scalar = decode_first_scalar(text);
    let a = text[0];
    if is_leading_byte_width_1(a) {
        assert(codepoint_width_1(a) <= 0x7f) by (bit_vector);
    } else if is_leading_byte_width_2(a) {
        let b = text[1];
        assert(codepoint_width_2(a, b) <= 0x7ff) by (bit_vector);
    } else if is_leading_byte_width_3(a) {
        let b = text[1];
        let c = text[2];
        assert(codepoint_width_3(a, b, c) <= 0xffff) by (bit_vector);
    }
}

/// On UTF-8 text, trimming at the start removes exactly the leading
/// characters with the property White_Space.
pub proof fn lemma_trim_start_decodes(text: Seq<u8>)
    requires
        valid_utf8(text),
    ensures
        valid_utf8(trim_start(text)),
        decode_utf8(trim_start(text)) == trim_chars_start(decode_utf8(text)),
    decreases text.len(),
{
    if text.len() > 0 {
        lemma_leading_space(text);
        lemma_first_char(text);
        let rest = pop_first_scalar(text);
        let chars = decode_utf8(text);
        assert(chars.drop_first() == decode_utf8(rest));
        assert(chars.first() == decode_first_scalar(text) as char);
        if is_white_space(decode_first_scalar(text)) {
            assert(text.skip(length_of_first_scalar(text)) == rest);
            lemma_trim_start_decodes(rest);
        }
    }
}

/// On UTF-8 text, trimming at the end removes exactly the trailing
/// characters with the property White_Space.
pub proof fn lemma_trim_end_decodes(text: Seq<u8>)
    requires
        valid_utf8(text),
    ensures
        valid_utf8(trim_end(text)),
        decode_utf8(trim_end(text)) == trim_chars_end(decode_utf8(text)),
    decreases text.len(),
{
    if text.len() > 0 {
        lemma_last_scalar(text);
        lemma_trailing_space(text);
        let n = text.len() as int;
        let cut = n - length_of_last_scalar(text);
        let head = text.subrange(0, cut);
        let tail = text.subrange(cut, n);
        assert(tail == text.skip(cut));
        assert(head == text.take(cut));
        vstd::utf8::is_char_boundary_iff_not_is_continuation_byte(text, cut);
        vstd::utf8::valid_utf8_split(text, cut);
        vstd::utf8::decode_utf8_split(text, cut);
        lemma_first_char(tail);
        assert(pop_first_scalar(tail).len() == 0);
        assert(decode_utf8(pop_first_scalar(tail)) == Seq::<char>::empty());
        assert(decode_utf8(tail) == seq![decode_first_scalar(tail) as char]);
        let chars = decode_utf8(text);
        assert(chars == decode_utf8(head).push(decode_first_scalar(tail) as char));
        assert(chars.drop_last() == decode_utf8(head));
        assert(chars.last() == decode_first_scalar(tail) as char);
        if is_white_space(decode_last_scalar(text)) {
            lemma_trim_end_decodes(head);
        }
    }
}

/// On UTF-8 text, trimming removes exactly the characters with the
/// property White_Space from both ends: what is left is UTF-8 text again,
/// and its characters are those of the text without the white space around
/// them.
pub proof fn lemma_trim_decodes(text: Seq<u8>)
    requires
        valid_utf8(text),
    ensures
        valid_utf8(trim_space(text)),
        decode_utf8(trim_space(text)) == trim_chars(decode_utf8(text)),
{
    lemma_trim_start_decodes(text);
    lemma_trim_end_decodes(trim_start(text));
}

} // verus!
