//! Header fields: raw ranges of a buffer and their structured form.

pub mod bufread;
pub mod text;
pub mod utf8;

use crate::parse::header::bufread::{body_offset, contents, headers_of, take_headers};
use crate::parse::header::text::{
    colon_index, has_colon, lemma_colon_index, lemma_colon_index_unique, lemma_strip_crlf_none,
    lemma_strip_crlf_pair, strip_crlf, text_crlf_at, text_has_no_crlf,
};
use crate::parse::header::utf8::{
    lemma_ascii_byte_absent, lemma_ascii_byte_boundaries, lemma_crlf_bytes_absent,
    lemma_encoding_in_parts, lemma_encoding_of_ascii, lemma_encoding_of_crlf, utf8_error,
};
use crate::parse::util::{has_no_crlf, lemma_no_crlf_in_front, next_crlf};
use std::str::Utf8Error;
use vstd::prelude::*;
use vstd::string::{StringExecFns, StringSliceAdditionalSpecFns};
use vstd::utf8::{
    decode_utf8, decode_utf8_encode_utf8, encode_utf8, encode_utf8_decode_utf8,
    encode_utf8_valid_utf8, valid_utf8,
};

verus! {

/// The byte of the colon that parts a header's name from its body.
pub const COLON: u8 = 0x3a;

/// One header field: its name and its body, both as they stand in the
/// message, untrimmed.
#[derive(Debug, PartialEq, Eq)]
pub struct Header {
    pub name: String,
    pub body: String,
}

/// What a `Header` holds, as text.
pub struct HeaderView {
    pub name: Seq<char>,
    pub body: Seq<char>,
}

impl View for Header {
    type V = HeaderView;

    open spec fn view(&self) -> HeaderView {
        HeaderView { name: self.name@, body: self.body@ }
    }
}

impl HeaderView {
    /// The name holds no colon, so that the header, rendered, is read again
    /// under the same name.
    pub open spec fn well_formed(self) -> bool {
        colon_index(self.name) == self.name.len()
    }
}

/// Why a raw header is no header field.
#[derive(Debug)]
pub enum HeaderParseError {
    /// Its bytes are not valid UTF-8; the decoder's error says where and why.
    EncodingError(Utf8Error),
    /// Its text holds no colon.
    Malformed,
}

/// Why the header section of a message could not be parsed.
#[derive(Debug)]
pub enum EmailParseError {
    /// At least one of its headers is no header field.
    InvalidHeaders,
}

/// The field that `text` denotes: the name is what stands before the first
/// colon, the body is what stands behind it without its CRLF pairs.  A text
/// without a colon denotes none.
pub open spec fn field_of(text: Seq<char>) -> Option<HeaderView> {
    let colon = colon_index(text);
    if has_colon(text) {
        Some(HeaderView { name: text.take(colon), body: strip_crlf(text.skip(colon + 1)) })
    } else {
        None
    }
}

/// The outcome of parsing the raw header `raw`: it is decoded as UTF-8, and
/// the decoded text is read as a field.
pub open spec fn parse_spec(raw: Seq<u8>) -> Result<HeaderView, HeaderParseError> {
    if !valid_utf8(raw) {
        Err(HeaderParseError::EncodingError(utf8_error(raw)))
    } else {
        match field_of(decode_utf8(raw)) {
            Some(field) => Ok(field),
            None => Err(HeaderParseError::Malformed),
        }
    }
}

/// The header `header` as one line of text: its name, a colon and a space,
/// its body.
pub open spec fn rendered(header: HeaderView) -> Seq<char> {
    header.name + seq![':', ' '] + header.body
}

/// Every one of the raw headers `raws` parses.
pub open spec fn all_parse(raws: Seq<Seq<u8>>) -> bool {
    forall|i: int| 0 <= i < raws.len() ==> parse_spec(#[trigger] raws[i]) is Ok
}

/// The fields of the raw headers `raws`, in order, where all of them parse.
pub open spec fn fields_of(raws: Seq<Seq<u8>>) -> Seq<HeaderView> {
    raws.map_values(|raw: Seq<u8>| parse_spec(raw)->Ok_0)
}

/// What each of `headers` holds, in order.
pub open spec fn views(headers: Seq<Header>) -> Seq<HeaderView> {
    headers.map_values(|header: Header| header@)
}

/// Index of the first colon byte in `bytes`, if there is one.
fn find_colon(bytes: &[u8]) -> (found: Option<usize>)
    ensures
        found is None ==> forall|j: int| 0 <= j < bytes@.len() ==> bytes@[j] != COLON,
        found matches Some(i) ==> i < bytes@.len() && bytes@[i as int] == COLON && forall|j: int|
            0 <= j < i ==> bytes@[j] != COLON,
{
    let mut i: usize = 0;
    while i < bytes.len()
        invariant
            i <= bytes.len(),
            forall|j: int| 0 <= j < i ==> bytes@[j] != COLON,
        decreases bytes.len() - i,
    {
        if bytes[i] == COLON {
            return Some(i);
        }
        i += 1;
    }
    None
}

/// `text` without its CRLF pairs, which joins the lines of a folded header
/// body.  The whitespace that begins a continuation line stays.
pub fn unfold(text: &str) -> (unfolded: String)
    ensures
        unfolded@ == strip_crlf(text@),
{
    let mut unfolded = String::new();
    let mut rest = text;
    let mut folded = true;
    while folded
        invariant
            strip_crlf(text@) == unfolded@ + if folded {
                strip_crlf(rest@)
            } else {
                Seq::empty()
            },
        decreases rest.spec_bytes().len() + if folded { 1int } else { 0int },
    {
        broadcast use encode_utf8_valid_utf8;

        match next_crlf(rest.as_bytes()) {
            None => {
                proof {
                    lemma_crlf_bytes_absent(rest@);
                    lemma_strip_crlf_none(rest@);
                }
                unfolded.append(rest);
                folded = false;
            },
            Some(k) => {
                proof {
                    lemma_ascii_byte_boundaries(rest.spec_bytes(), k as int);
                }
                let (line, tail) = rest.split_at(k);
                proof {
                    lemma_ascii_byte_boundaries(tail.spec_bytes(), 1);
                }
                let (pair, next) = tail.split_at(2);
                proof {
                    lemma_encoding_of_crlf(pair@);
                    lemma_encoding_in_parts(rest@, line@, pair@, next@);
                    lemma_no_crlf_in_front(rest.spec_bytes(), k as int);
                    lemma_crlf_bytes_absent(line@);
                    lemma_strip_crlf_pair(line@, next@);
                }
                unfolded.append(line);
                rest = next;
            },
        }
    }
    unfolded
}

impl Header {
    /// Parses one raw header: decodes it as UTF-8, takes what stands before
    /// the first colon as the name, and what stands behind it, without its
    /// CRLF pairs, as the body.  Nothing is trimmed.
    pub fn parse(buffer: &[u8]) -> (parsed: Result<Header, HeaderParseError>)
        ensures
            parsed matches Ok(header) ==> parse_spec(buffer@) == Ok::<
                HeaderView,
                HeaderParseError,
            >(header@),
            parsed matches Err(error) ==> parse_spec(buffer@) == Err::<
                HeaderView,
                HeaderParseError,
            >(error),
            !valid_utf8(buffer@) ==> parsed matches Err(HeaderParseError::EncodingError(_)),
            valid_utf8(buffer@) && !has_colon(decode_utf8(buffer@)) ==> parsed matches Err(
                HeaderParseError::Malformed,
            ),
            valid_utf8(buffer@) && has_colon(decode_utf8(buffer@)) ==> parsed is Ok,
            parsed matches Ok(header) ==> header@.well_formed(),
    {
        broadcast use {encode_utf8_valid_utf8, encode_utf8_decode_utf8};

        let text = match std::str::from_utf8(buffer) {
            Ok(s) => s,
            Err(e) => return Err(HeaderParseError::EncodingError(e)),
        };
        let colon = match find_colon(buffer) {
            Some(i) => i,
            None => {
                proof {
                    lemma_ascii_byte_absent(text@, ':');
                    lemma_colon_index_unique(text@, text@.len() as int);
                }
                return Err(HeaderParseError::Malformed);
            },
        };
        proof {
            lemma_ascii_byte_boundaries(buffer@, colon as int);
        }
        let (name, rest) = text.split_at(colon);
        proof {
            lemma_ascii_byte_boundaries(rest.spec_bytes(), 0);
        }
        let (mark, body) = rest.split_at(1);
        proof {
            lemma_encoding_of_ascii(mark@, ':');
            lemma_encoding_in_parts(text@, name@, mark@, body@);
            lemma_ascii_byte_absent(name@, ':');
            lemma_colon_index_unique(text@, name@.len() as int);
            assert(text@.take(name@.len() as int) == name@);
            assert(text@.skip(name@.len() as int + 1) == body@);
            lemma_field_is_well_formed(text@);
        }
        Ok(Header { name: name.to_owned(), body: unfold(body) })
    }

    /// The header as one line of text: its name, a colon and a space, its
    /// body.
    pub fn render(&self) -> (line: String)
        ensures
            line@ == rendered(self@),
    {
        proof {
            reveal_strlit(": ");
        }
        let mut line = self.name.clone();
        line.append(": ");
        line.append(self.body.as_str());
        line
    }
}

/// Parses the header section at the front of `buffer`: every header of it,
/// in order, and the offset at which the message body begins.  One header
/// that does not parse fails the whole section.
pub fn parse_email_headers(buffer: &[u8]) -> (parsed: Result<(Vec<Header>, usize), EmailParseError>)
    ensures
        parsed is Ok <==> all_parse(headers_of(buffer@)),
        parsed matches Ok(found) ==> views(found.0@) == fields_of(headers_of(buffer@)) && found.1
            == body_offset(buffer@) && found.1 <= buffer@.len(),
        parsed matches Ok(found) ==> forall|i: int|
            0 <= i < found.0@.len() ==> (#[trigger] found.0@[i])@.well_formed(),
        !all_parse(headers_of(buffer@)) ==> parsed matches Err(EmailParseError::InvalidHeaders),
{
    let (header_bufs, size) = take_headers(buffer);
    let ghost raws = headers_of(buffer@);
    let mut headers: Vec<Header> = Vec::new();
    let mut i: usize = 0;
    while i < header_bufs.len()
        invariant
            i <= header_bufs.len(),
            raws == headers_of(buffer@),
            raws == contents(header_bufs@),
            headers@.len() == i,
            forall|j: int| 0 <= j < i ==> parse_spec(#[trigger] raws[j]) == Ok::<
                HeaderView,
                HeaderParseError,
            >(headers@[j]@),
            forall|j: int| 0 <= j < i ==> (#[trigger] headers@[j])@.well_formed(),
        decreases header_bufs.len() - i,
    {
        match Header::parse(header_bufs[i]) {
            Ok(header) => headers.push(header),
            Err(_) => {
                assert(parse_spec(raws[i as int]) is Err);
                return Err(EmailParseError::InvalidHeaders);
            },
        }
        i += 1;
    }
    Ok((headers, size))
}

/// The name of a field holds no colon.
pub proof fn lemma_field_is_well_formed(text: Seq<char>)
    ensures
        field_of(text) matches Some(field) ==> field.well_formed(),
{
    lemma_colon_index(text);
    let colon = colon_index(text);
    if has_colon(text) {
        lemma_colon_index_unique(text.take(colon), colon);
    }
}

/// Round trip from text: a text with a colon and without a CRLF pair is the
/// name of its field, a colon, and the body of its field.  Rendered, the
/// field is that text with one space added behind its first colon.
pub proof fn lemma_render_after_parse(text: Seq<char>)
    requires
        has_colon(text),
        text_has_no_crlf(text),
    ensures
        field_of(text) matches Some(field) && field.name + seq![':'] + field.body == text
            && rendered(field) == text.take(colon_index(text) + 1) + seq![' '] + text.skip(
            colon_index(text) + 1,
        ),
{
    lemma_colon_index(text);
    let colon = colon_index(text);
    let behind = text.skip(colon + 1);
    assert forall|i: int| !text_crlf_at(behind, i) by {
        if text_crlf_at(behind, i) {
            assert(text_crlf_at(text, colon + 1 + i));
        }
    }
    lemma_strip_crlf_none(behind);
}

/// Round trip from bytes: a raw header that is valid UTF-8 with a colon and
/// without a CRLF pair is the encoding of its field's name, a colon, and its
/// field's body.
pub proof fn lemma_parsed_spells_raw(raw: Seq<u8>)
    requires
        valid_utf8(raw),
        has_colon(decode_utf8(raw)),
        has_no_crlf(raw),
    ensures
        parse_spec(raw) matches Ok(field) && encode_utf8(field.name + seq![':'] + field.body)
            == raw,
{
    let text = decode_utf8(raw);
    decode_utf8_encode_utf8(raw);
    lemma_crlf_bytes_absent(text);
    lemma_render_after_parse(text);
}

/// Round trip from a header: rendered, a well-formed header is read again
/// under the same name; its body comes back behind the space that rendering
/// put before it, and without its CRLF pairs.
pub proof fn lemma_parse_after_render(header: HeaderView)
    requires
        header.well_formed(),
    ensures
        field_of(rendered(header)) == Some(
            HeaderView { name: header.name, body: seq![' '] + strip_crlf(header.body) },
        ),
{
    let line = rendered(header);
    let colon = header.name.len() as int;
    lemma_colon_index(header.name);
    lemma_colon_index_unique(line, colon);
    let behind = line.skip(colon + 1);
    assert(line.take(colon) == header.name);
    assert(behind.skip(1) == header.body);
}

} // verus!
