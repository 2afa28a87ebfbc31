//! Line scanning: where the next CRLF line terminator lies in a byte slice.

use vstd::prelude::*;

verus! {

/// Carriage return.
pub const CR: u8 = 13;

/// Line feed.
pub const LF: u8 = 10;

/// A CRLF pair starts at index `i` of `bytes`.
pub open spec fn crlf_at(bytes: Seq<u8>, i: int) -> bool {
    0 <= i && i + 1 < bytes.len() && bytes[i] == CR && bytes[i + 1] == LF
}

/// No CRLF pair starts before index `end` of `bytes`.
pub open spec fn no_crlf_before(bytes: Seq<u8>, end: int) -> bool {
    forall|j: int| 0 <= j < end ==> !crlf_at(bytes, j)
}

/// `bytes` holds no CRLF pair at all.
pub open spec fn has_no_crlf(bytes: Seq<u8>) -> bool {
    forall|j: int| !crlf_at(bytes, j)
}

/// Index of the `\r` of the leftmost CRLF pair in `buffer`, if there is one.
pub fn next_crlf(buffer: &[u8]) -> (found: Option<usize>)
    ensures
        has_no_crlf(buffer@) <==> found is None,
        found matches Some(i) ==> crlf_at(buffer@, i as int) && no_crlf_before(buffer@, i as int),
{
    let mut last_char_cr = false;
    let mut i: usize = 0;
    while i < buffer.len()
        invariant
            i <= buffer.len(),
            no_crlf_before(buffer@, i - 1),
            last_char_cr <==> (i > 0 && buffer@[i - 1] == CR),
        decreases buffer.len() - i,
    {
        let c = buffer[i];
        if c == CR {
            last_char_cr = true;
        } else if last_char_cr && c == LF {
            assert(crlf_at(buffer@, i - 1));
            return Some(i - 1);
        } else {
            last_char_cr = false;
        }
        i += 1;
    }
    None
}

/// The part of `bytes` before index `end` holds no CRLF pair where none
/// starts before `end`.
pub proof fn lemma_no_crlf_in_front(bytes: Seq<u8>, end: int)
    requires
        0 <= end <= bytes.len(),
        no_crlf_before(bytes, end),
    ensures
        has_no_crlf(bytes.take(end)),
{
    assert forall|j: int| !crlf_at(bytes.take(end), j) by {
        if crlf_at(bytes.take(end), j) {
            assert(crlf_at(bytes, j));
        }
    }
}

} // verus!
