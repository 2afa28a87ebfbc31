//! Header text: where its first colon stands, and what it is without its
//! CRLF pairs.

use vstd::prelude::*;

verus! {

/// The least index from `from` on at which `text` holds a colon, or the
/// length of `text` where there is none.
pub open spec fn colon_from(text: Seq<char>, from: int) -> int
    decreases text.len() - from,
{
    if from >= text.len() {
        text.len() as int
    } else if text[from] == ':' {
        from
    } else {
        colon_from(text, from + 1)
    }
}

/// Index of the first colon of `text`, or the length of `text` where it has
/// none.
pub open spec fn colon_index(text: Seq<char>) -> int {
    colon_from(text, 0)
}

/// `text` holds a colon.
pub open spec fn has_colon(text: Seq<char>) -> bool {
    colon_index(text) < text.len()
}

/// A CRLF pair starts at index `i` of `text`.
pub open spec fn text_crlf_at(text: Seq<char>, i: int) -> bool {
    0 <= i && i + 1 < text.len() && text[i] == '\r' && text[i + 1] == '\n'
}

/// `text` holds no CRLF pair.
pub open spec fn text_has_no_crlf(text: Seq<char>) -> bool {
    forall|i: int| !text_crlf_at(text, i)
}

/// `text` without its CRLF pairs: read from left to right, each pair is
/// dropped and every other character is kept.
pub open spec fn strip_crlf(text: Seq<char>) -> Seq<char>
    decreases text.len(),
{
    if text.len() == 0 {
        text
    } else if text_crlf_at(text, 0) {
        strip_crlf(text.skip(2))
    } else {
        seq![text[0]] + strip_crlf(text.skip(1))
    }
}

/// `colon_from` is the least index from `from` on that holds a colon.
pub proof fn lemma_colon_from(text: Seq<char>, from: int)
    requires
        0 <= from <= text.len(),
    ensures
        from <= colon_from(text, from) <= text.len(),
        forall|j: int| from <= j < colon_from(text, from) ==> text[j] != ':',
        colon_from(text, from) < text.len() ==> text[colon_from(text, from)] == ':',
    decreases text.len() - from,
{
    if from < text.len() && text[from] != ':' {
        lemma_colon_from(text, from + 1);
    }
}

/// What `colon_index` is: no colon stands before it, and a colon stands at
/// it unless it is the length of `text`.
pub proof fn lemma_colon_index(text: Seq<char>)
    ensures
        0 <= colon_index(text) <= text.len(),
        forall|j: int| 0 <= j < colon_index(text) ==> text[j] != ':',
        colon_index(text) < text.len() ==> text[colon_index(text)] == ':',
{
    lemma_colon_from(text, 0);
}

/// An index with no colon before it, which holds a colon or is the length
/// of `text`, is `colon_index(text)`.
pub proof fn lemma_colon_index_unique(text: Seq<char>, i: int)
    requires
        0 <= i <= text.len(),
        forall|j: int| 0 <= j < i ==> text[j] != ':',
        i < text.len() ==> text[i] == ':',
    ensures
        colon_index(text) == i,
{
    lemma_colon_from(text, 0);
}

/// Stripping passes over a front part that holds no CRLF pair and forms
/// none with what follows it.
pub proof fn lemma_strip_crlf_front(front: Seq<char>, back: Seq<char>)
    requires
        text_has_no_crlf(front),
        front.len() > 0 && back.len() > 0 ==> !(front.last() == '\r' && back[0] == '\n'),
    ensures
        strip_crlf(front + back) == front + strip_crlf(back),
    decreases front.len(),
{
    if front.len() > 0 {
        assert(!text_crlf_at(front, 0));
        let rest = front.skip(1);
        assert forall|i: int| !text_crlf_at(rest, i) by {
            assert(!text_crlf_at(front, i + 1));
        }
        assert((front + back).skip(1) == rest + back);
        lemma_strip_crlf_front(rest, back);
    }
}

/// Stripping changes nothing in a text that holds no CRLF pair.
pub proof fn lemma_strip_crlf_none(text: Seq<char>)
    requires
        text_has_no_crlf(text),
    ensures
        strip_crlf(text) == text,
{
    lemma_strip_crlf_front(text, Seq::empty());
}

/// Stripping drops a CRLF pair that follows a front part without one.
pub proof fn lemma_strip_crlf_pair(front: Seq<char>, back: Seq<char>)
    requires
        text_has_no_crlf(front),
    ensures
        strip_crlf(front + seq!['\r', '\n'] + back) == front + strip_crlf(back),
{
    let tail = seq!['\r', '\n'] + back;
    assert(tail.skip(2) == back);
    lemma_strip_crlf_front(front, tail);
    assert(front + seq!['\r', '\n'] + back == front + tail);
}

} // verus!
