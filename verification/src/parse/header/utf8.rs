//! UTF-8 at the boundary between raw header bytes and header text: the
//! decoder of the standard library, and how ASCII characters of a text lie
//! in its encoding.

use crate::parse::header::text::{text_crlf_at, text_has_no_crlf};
use crate::parse::util::{crlf_at, has_no_crlf, CR, LF};
use std::str::Utf8Error;
use vstd::prelude::*;
use vstd::string::StringSliceAdditionalSpecFns;
use vstd::utf8::{
    encode_utf8, encode_utf8_decode_utf8, is_char_boundary,
    is_char_boundary_iff_not_is_continuation_byte, leading_byte_width_1, length_of_first_scalar,
    pop_first_scalar, valid_utf8,
};

verus! {

/// `std::str::Utf8Error`: why and where a byte slice is not UTF-8.  Nothing of
/// its contents is visible here; it is carried to the caller as it came.
#[verifier::external_type_specification]
#[verifier::external_body]
pub struct ExUtf8Error(Utf8Error);

/// The error that `std::str::from_utf8` gives for `bytes` where they are not
/// valid UTF-8.
pub uninterp spec fn utf8_error(bytes: Seq<u8>) -> Utf8Error;

/// `std::str::from_utf8` succeeds exactly on valid UTF-8, and then gives the
/// same bytes back as a string slice.  Its error depends on the bytes alone.
pub assume_specification[ std::str::from_utf8 ](v: &[u8]) -> (text: Result<&str, Utf8Error>)
    ensures
        text is Ok <==> valid_utf8(v@),
        text matches Ok(s) ==> s.spec_bytes() == v@,
        text matches Err(e) ==> e == utf8_error(v@),
;

/// An ASCII character is encoded as the one byte of the same value.
pub proof fn lemma_encode_ascii(c: char)
    requires
        c as u32 <= 0x7f,
    ensures
        encode_utf8(seq![c]) == seq![c as u8],
{
    let scalar = c as u32;
    assert(leading_byte_width_1(scalar) == scalar as u8) by (bit_vector)
        requires
            scalar <= 0x7f,
    ;
    reveal_with_fuel(encode_utf8, 2);
}

/// The encoding of a concatenation is the concatenation of the encodings.
pub proof fn lemma_encode_concat(front: Seq<char>, back: Seq<char>)
    ensures
        encode_utf8(front + back) == encode_utf8(front) + encode_utf8(back),
    decreases front.len(),
{
    if front.len() > 0 {
        lemma_encode_concat(front.drop_first(), back);
        assert((front + back).drop_first() == front.drop_first() + back);
    }
}

/// Two texts with the same encoding are the same text.
pub proof fn lemma_encode_injective(a: Seq<char>, b: Seq<char>)
    requires
        encode_utf8(a) == encode_utf8(b),
    ensures
        a == b,
{
    encode_utf8_decode_utf8(a);
    encode_utf8_decode_utf8(b);
}

/// A text whose encoding is the encodings of three texts in a row is those
/// three texts in a row.
pub proof fn lemma_encoding_in_parts(
    whole: Seq<char>,
    first: Seq<char>,
    second: Seq<char>,
    third: Seq<char>,
)
    requires
        encode_utf8(whole) =~= encode_utf8(first) + encode_utf8(second) + encode_utf8(third),
    ensures
        whole == first + second + third,
{
    lemma_encode_concat(first + second, third);
    lemma_encode_concat(first, second);
    lemma_encode_injective(whole, first + second + third);
}

/// A text that is encoded as the one byte of an ASCII character is that
/// character.
pub proof fn lemma_encoding_of_ascii(text: Seq<char>, c: char)
    requires
        c as u32 <= 0x7f,
        encode_utf8(text) =~= seq![c as u8],
    ensures
        text == seq![c],
{
    lemma_encode_ascii(c);
    lemma_encode_injective(text, seq![c]);
}

/// A text that is encoded as the two bytes of a CRLF pair is a CRLF pair.
pub proof fn lemma_encoding_of_crlf(text: Seq<char>)
    requires
        encode_utf8(text) =~= seq![CR, LF],
    ensures
        text == seq!['\r', '\n'],
{
    lemma_encode_ascii('\r');
    lemma_encode_ascii('\n');
    lemma_encode_concat(seq!['\r'], seq!['\n']);
    assert(seq!['\r'] + seq!['\n'] == seq!['\r', '\n']);
    assert(encode_utf8(seq!['\r', '\n']) == seq![CR, LF]);
    lemma_encode_injective(text, seq!['\r', '\n']);
}

/// An ASCII character at index `i` of `text` shows as its byte in the
/// encoding of `text`, just behind the encoding of what stands before it.
pub proof fn lemma_ascii_char_in_encoding(text: Seq<char>, i: int)
    requires
        0 <= i < text.len(),
        text[i] as u32 <= 0x7f,
    ensures
        encode_utf8(text) == encode_utf8(text.take(i)) + seq![text[i] as u8] + encode_utf8(
            text.skip(i + 1),
        ),
{
    assert(text == text.take(i) + seq![text[i]] + text.skip(i + 1));
    lemma_encode_concat(text.take(i) + seq![text[i]], text.skip(i + 1));
    lemma_encode_concat(text.take(i), seq![text[i]]);
    lemma_encode_ascii(text[i]);
}

/// A text whose encoding lacks the byte of an ASCII character lacks the
/// character.
pub proof fn lemma_ascii_byte_absent(text: Seq<char>, c: char)
    requires
        c as u32 <= 0x7f,
        forall|j: int| 0 <= j < encode_utf8(text).len() ==> encode_utf8(text)[j] != c as u8,
    ensures
        forall|k: int| 0 <= k < text.len() ==> text[k] != c,
{
    assert forall|k: int| 0 <= k < text.len() implies text[k] != c by {
        if text[k] == c {
            lemma_ascii_char_in_encoding(text, k);
            let at = encode_utf8(text.take(k)).len() as int;
            assert(encode_utf8(text)[at] == c as u8);
        }
    }
}

/// A text whose encoding holds no CRLF pair holds none itself.
pub proof fn lemma_crlf_bytes_absent(text: Seq<char>)
    requires
        has_no_crlf(encode_utf8(text)),
    ensures
        text_has_no_crlf(text),
{
    assert forall|k: int| !text_crlf_at(text, k) by {
        if text_crlf_at(text, k) {
            let back = text.skip(k + 1);
            lemma_ascii_char_in_encoding(text, k);
            lemma_ascii_char_in_encoding(back, 0);
            let at = encode_utf8(text.take(k)).len() as int;
            assert(crlf_at(encode_utf8(text), at));
        }
    }
}

/// In valid UTF-8, a character boundary lies behind an ASCII byte that
/// stands at one.
proof fn lemma_boundary_behind_ascii(bytes: Seq<u8>, i: int)
    requires
        valid_utf8(bytes),
        0 <= i < bytes.len(),
        bytes[i] <= 0x7f,
        is_char_boundary(bytes, i),
    ensures
        is_char_boundary(bytes, i + 1),
    decreases bytes.len(),
{
    if i == 0 {
        reveal_with_fuel(is_char_boundary, 2);
    } else {
        lemma_boundary_behind_ascii(pop_first_scalar(bytes), i - length_of_first_scalar(bytes));
    }
}

/// In valid UTF-8, an ASCII byte stands between two character boundaries.
pub proof fn lemma_ascii_byte_boundaries(bytes: Seq<u8>, i: int)
    requires
        valid_utf8(bytes),
        0 <= i < bytes.len(),
        bytes[i] <= 0x7f,
    ensures
        is_char_boundary(bytes, i),
        is_char_boundary(bytes, i + 1),
{
    is_char_boundary_iff_not_is_continuation_byte(bytes, i);
    lemma_boundary_behind_ascii(bytes, i);
}

} // verus!
