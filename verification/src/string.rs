//! The payload of a string: its length in four bytes, then its UTF-8 bytes.

use crate::hashio::{short_read, ErrorView, HashIOError, ParseFault};
use crate::io::{be_u32, lemma_be_u32_round_trip, lemma_u32_from_be_prefix, u32_from_be, ByteReader};
use crate::value::{encodable, len_word, value_bytes, ValueView};
use vstd::prelude::*;
use vstd::utf8::{decode_utf8, encode_utf8, encode_utf8_decode_utf8, encode_utf8_valid_utf8, valid_utf8};

verus! {

/// The string that a payload holds: a read that comes up short is an I/O
/// error, bytes that are not UTF-8 a parse error. What follows the string is
/// not looked at.
pub open spec fn spec_parse_str(bytes: Seq<u8>) -> Result<Seq<char>, ErrorView> {
    if bytes.len() < 4 {
        Err(short_read())
    } else if bytes.len() - 4 < u32_from_be(bytes) {
        Err(short_read())
    } else if !valid_utf8(bytes.subrange(4, 4 + u32_from_be(bytes))) {
        Err(ErrorView::ParseError(ParseFault::InvalidUtf8))
    } else {
        Ok(decode_utf8(bytes.subrange(4, 4 + u32_from_be(bytes))))
    }
}

/// Calls `String::from_utf8`, which gives the string that the bytes encode
/// and fails where they are not UTF-8.
#[verifier::external_body]
fn string_from_utf8(bytes: Vec<u8>) -> (r: Option<String>)
    ensures
        match r {
            Some(s) => valid_utf8(bytes@) && s@ == decode_utf8(bytes@),
            None => !valid_utf8(bytes@),
        },
{
    String::from_utf8(bytes).ok()
}

/// Reads a string from its payload.
pub fn parse_string(bytes: &[u8]) -> (r: Result<String, HashIOError>)
    ensures
        match r {
            Ok(s) => spec_parse_str(bytes@) == Ok::<Seq<char>, ErrorView>(s@),
            Err(e) => spec_parse_str(bytes@) == Err::<Seq<char>, ErrorView>(e@),
        },
{
    let mut reader = ByteReader::new(bytes);
    let raw = match reader.read_prefixed() {
        Ok(b) => b,
        Err(e) => {
            return Err(e);
        },
    };
    match string_from_utf8(raw) {
        Some(s) => Ok(s),
        None => Err(HashIOError::ParseError(ParseFault::InvalidUtf8)),
    }
}

/// A string that was written is read back as it was, whatever follows it.
pub proof fn lemma_string_round_trip(s: Seq<char>, rest: Seq<u8>)
    requires
        encodable(ValueView::Str(s)),
    ensures
        spec_parse_str(value_bytes(ValueView::Str(s)) + rest) == Ok::<Seq<char>, ErrorView>(s),
{
    let raw = encode_utf8(s);
    let n = len_word(raw.len());
    let bytes = value_bytes(ValueView::Str(s)) + rest;
    lemma_be_u32_round_trip(n);
    assert(bytes =~= be_u32(n) + (raw + rest));
    lemma_u32_from_be_prefix(be_u32(n), raw + rest);
    assert(bytes.subrange(4, 4 + n) =~= raw);
    encode_utf8_valid_utf8(s);
    encode_utf8_decode_utf8(s);
}

/// Bytes that are all there and are not UTF-8 are a parse error.
pub proof fn lemma_invalid_utf8_is_parse_error(bytes: Seq<u8>)
    requires
        bytes.len() >= 4,
        bytes.len() - 4 >= u32_from_be(bytes),
        !valid_utf8(bytes.subrange(4, 4 + u32_from_be(bytes))),
    ensures
        spec_parse_str(bytes) == Err::<Seq<char>, ErrorView>(
            ErrorView::ParseError(ParseFault::InvalidUtf8),
        ),
{
}

/// A payload that ends before the string does is an I/O error.
pub proof fn lemma_short_string_is_io_error(bytes: Seq<u8>)
    requires
        bytes.len() < 4 || bytes.len() - 4 < u32_from_be(bytes),
    ensures
        spec_parse_str(bytes) == Err::<Seq<char>, ErrorView>(short_read()),
{
}

} // verus!
