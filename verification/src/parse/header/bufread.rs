//! Header segmentation: carving the header section of a buffer into raw
//! header ranges, folded continuation lines included.

use crate::parse::util::{crlf_at, next_crlf};
use vstd::prelude::*;
use vstd::slice::slice_subrange;

verus! {

/// A line that begins with `c` continues the header before it: `c` is ASCII
/// whitespace other than `\r` and `\n` (space, horizontal tab or form feed).
pub open spec fn is_fold_start(c: u8) -> bool {
    c == 0x20 || c == 0x09 || c == 0x0c
}

/// The header at the front of `bytes` can end at index `i`: a CRLF pair
/// starts there, and what follows the pair is not a continuation line.
pub open spec fn header_ends_at(bytes: Seq<u8>, i: int) -> bool {
    crlf_at(bytes, i) && !(i + 2 < bytes.len() && is_fold_start(bytes[i + 2]))
}

/// The least index from `from` on at which the header at the front of
/// `bytes` can end, or the length of `bytes` where there is none.
pub open spec fn header_len_from(bytes: Seq<u8>, from: int) -> int
    decreases bytes.len() - from,
{
    if from >= bytes.len() {
        bytes.len() as int
    } else if header_ends_at(bytes, from) {
        from
    } else {
        header_len_from(bytes, from + 1)
    }
}

/// Length of the (possibly folded) header at the front of `bytes`, its
/// terminating CRLF excluded.  It is 0 for a blank line and for no bytes at
/// all, and the whole length where the header is not terminated.
pub open spec fn header_len(bytes: Seq<u8>) -> int {
    header_len_from(bytes, 0)
}

/// The raw headers of the header section at the front of `bytes`, in order.
/// The section stops at the first blank line, which is no header, or at the
/// end of `bytes`, where the last header need not be terminated.
pub open spec fn headers_of(bytes: Seq<u8>) -> Seq<Seq<u8>>
    decreases bytes.len(),
{
    let n = header_len(bytes);
    if n <= 0 {
        Seq::empty()
    } else if n + 2 <= bytes.len() {
        seq![bytes.take(n)] + headers_of(bytes.skip(n + 2))
    } else {
        seq![bytes]
    }
}

/// Offset in `bytes` at which the message body begins: just behind the CRLF
/// of the first blank line, or the length of `bytes` where no blank line
/// separates a body from the headers.
pub open spec fn body_offset(bytes: Seq<u8>) -> int
    decreases bytes.len(),
{
    let n = header_len(bytes);
    if bytes.len() == 0 {
        0
    } else if n <= 0 {
        2
    } else if n + 2 <= bytes.len() {
        n + 2 + body_offset(bytes.skip(n + 2))
    } else {
        bytes.len() as int
    }
}

/// `header_len_from` is the least index from `from` on at which the header
/// can end.
pub proof fn lemma_header_len_from(bytes: Seq<u8>, from: int)
    requires
        0 <= from <= bytes.len(),
    ensures
        from <= header_len_from(bytes, from) <= bytes.len(),
        forall|j: int| from <= j < header_len_from(bytes, from) ==> !header_ends_at(bytes, j),
        header_len_from(bytes, from) == bytes.len() || header_ends_at(
            bytes,
            header_len_from(bytes, from),
        ),
    decreases bytes.len() - from,
{
    if from < bytes.len() && !header_ends_at(bytes, from) {
        lemma_header_len_from(bytes, from + 1);
    }
}

/// What `header_len` is: no header end lies before it, and it is either a
/// header end or the length of `bytes`.  A header end leaves room for its
/// CRLF pair.
pub proof fn lemma_header_len(bytes: Seq<u8>)
    ensures
        0 <= header_len(bytes) <= bytes.len(),
        forall|j: int| 0 <= j < header_len(bytes) ==> !header_ends_at(bytes, j),
        header_len(bytes) == bytes.len() || (header_ends_at(bytes, header_len(bytes))
            && header_len(bytes) + 2 <= bytes.len()),
{
    lemma_header_len_from(bytes, 0);
}

/// An index with no header end before it, which is a header end or the
/// length of `bytes`, is `header_len(bytes)`.
pub proof fn lemma_header_len_unique(bytes: Seq<u8>, n: int)
    requires
        0 <= n <= bytes.len(),
        forall|j: int| 0 <= j < n ==> !header_ends_at(bytes, j),
        n == bytes.len() || header_ends_at(bytes, n),
    ensures
        header_len(bytes) == n,
{
    lemma_header_len_from(bytes, 0);
}

/// Whether a line that begins with `c` continues the header before it.
pub fn starts_fold(c: u8) -> (fold: bool)
    ensures
        fold == is_fold_start(c),
{
    c == 0x20 || c == 0x09 || c == 0x0c
}

/// Takes the (possibly folded) header at the front of `buffer`: the range
/// up to its terminating CRLF, and the length of that range.
pub fn take_header(buffer: &[u8]) -> (taken: (&[u8], usize))
    ensures
        taken.1 == header_len(buffer@),
        taken.0@ == buffer@.take(taken.1 as int),
        taken.1 <= buffer@.len(),
        forall|j: int| 0 <= j < taken.1 ==> !header_ends_at(buffer@, j),
        taken.1 == buffer@.len() || header_ends_at(buffer@, taken.1 as int),
{
    let mut includes_next_line = true;
    let mut end: usize = 0;
    while includes_next_line
        invariant
            end <= buffer.len(),
            forall|j: int| 0 <= j < end ==> !header_ends_at(buffer@, j),
            !includes_next_line ==> end == buffer.len() || header_ends_at(buffer@, end as int),
        decreases buffer.len() - end + if includes_next_line { 1int } else { 0int },
    {
        let buffer_rem = slice_subrange(buffer, end, buffer.len());
        match next_crlf(buffer_rem) {
            None => {
                assert forall|j: int| end <= j < buffer.len() implies !header_ends_at(
                    buffer@,
                    j,
                ) by {
                    assert(!crlf_at(buffer_rem@, j - end));
                }
                end = buffer.len();
                includes_next_line = false;
            },
            Some(k) => {
                assert forall|j: int| end <= j < end + k implies !header_ends_at(buffer@, j) by {
                    assert(!crlf_at(buffer_rem@, j - end));
                }
                end = end + k;
                includes_next_line = end + 2 < buffer.len() && starts_fold(buffer[end + 2]);
                if includes_next_line {
                    end += 2;
                }
            },
        }
    }
    proof {
        lemma_header_len_unique(buffer@, end as int);
    }
    (slice_subrange(buffer, 0, end), end)
}

/// What each of `ranges` holds, in order.
pub open spec fn contents(ranges: Seq<&[u8]>) -> Seq<Seq<u8>> {
    ranges.map_values(|range: &[u8]| range@)
}

/// Takes every header of the header section at the front of `buffer`, in
/// order, and tells where the message body begins.
pub fn take_headers(buffer: &[u8]) -> (taken: (Vec<&[u8]>, usize))
    ensures
        contents(taken.0@) == headers_of(buffer@),
        taken.1 == body_offset(buffer@),
        taken.1 <= buffer@.len(),
{
    let mut index: usize = 0;
    let mut headers: Vec<&[u8]> = Vec::new();
    assert(buffer@.skip(0) == buffer@);
    while index < buffer.len()
        invariant_except_break
            headers_of(buffer@) == contents(headers@) + headers_of(buffer@.skip(index as int)),
            body_offset(buffer@) == index + body_offset(buffer@.skip(index as int)),
        invariant
            index <= buffer.len(),
        ensures
            headers_of(buffer@) == contents(headers@),
            body_offset(buffer@) == index,
        decreases buffer.len() - index,
    {
        let ghost rest = buffer@.skip(index as int);
        let (header_buf, size) = take_header(slice_subrange(buffer, index, buffer.len()));
        proof {
            lemma_header_len(rest);
        }
        if size == 0 {
            index += 2;
            break;
        }
        headers.push(header_buf);
        if buffer.len() - index - size >= 2 {
            index = index + size + 2;
            assert(rest.skip(size + 2) == buffer@.skip(index as int));
        } else {
            index = buffer.len();
            assert(rest.take(size as int) == rest);
        }
    }
    (headers, index)
}

} // verus!
