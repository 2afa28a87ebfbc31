//! Header-section parsing for RFC 5322 style messages held in memory.
//!
//! A message is a byte buffer.  Its header section is carved into raw header
//! ranges by [`parse::header::bufread`], each range is decoded and split into a
//! name and a body by [`parse::header::Header::parse`], and
//! [`parse::header::parse_email_headers`] runs both over a whole buffer.

pub mod parse;
