//! The string literal of RFC 7541 section 5.2: a Huffman flag, the length
//! in a seven-bit prefix, and the octets, raw or Huffman-coded.

use vstd::prelude::*;
use vstd::utf8::*;

use super::huffman::{coded, huffman_decoded, string_bits};
use super::{huffman, integer};
use crate::http2::error::{ErrorCode, Violation};
use crate::text::string_from_utf8;

verus! {

/// `bytes` as a string literal: Huffman-coded where `huffman` asks for it
/// and the code is no longer than the octets, raw otherwise.
pub open spec fn literal(bytes: Seq<u8>, huffman: bool) -> Seq<u8> {
    let length = (string_bits(bytes).len() + 7) / 8;
    if huffman && length <= bytes.len() {
        integer::encoded(length, 7, 0x80) + coded(bytes)
    } else {
        integer::encoded(bytes.len(), 7, 0) + bytes
    }
}

/// The octets of the string literal at the start of `input`, Huffman-coded
/// where its first bit says so, and the octets it takes.
pub open spec fn string_literal(input: Seq<u8>) -> Option<(Seq<u8>, nat)> {
    if input.len() == 0 {
        None
    } else if let Some((length, at)) = integer::decoded(input, 7) {
        let end = at + length;
        if end > input.len() {
            None
        } else if input[0] >= 128 {
            match huffman_decoded(input.subrange(at as int, end as int)) {
                Some(bytes) => Some((bytes, end)),
                None => None,
            }
        } else {
            Some((input.subrange(at as int, end as int), end))
        }
    } else {
        None
    }
}

/// Append `text`, Huffman-coded where `huffman` asks for it and the code
/// is no longer than the octets themselves.
pub fn encode(text: &str, huffman: bool, out: &mut Vec<u8>)
    requires
        encode_utf8(text@).len() <= usize::MAX / 4,
    ensures
        final(out)@ == old(out)@ + literal(encode_utf8(text@), huffman),
{
    let bytes = text.as_bytes();
    let length = huffman::encoded_len(bytes);
    if huffman && length <= bytes.len() {
        integer::encode(length, 7, 0x80, out);
        huffman::encode(bytes, out);
    } else {
        integer::encode(bytes.len(), 7, 0, out);
        let ghost before = out@;
        out.extend_from_slice(bytes);
        assert(out@ =~= before + bytes@);
    }
}

/// The string at the start of `input`, and the octets it took.
///
/// # Errors
///
/// A `COMPRESSION_ERROR` where the input ends inside it, its Huffman code
/// is broken, or it is not UTF-8.
pub fn decode(input: &[u8]) -> (r: Result<(String, usize), Violation>)
    ensures
        r matches Ok((text, used)) ==> string_literal(input@) == Some(
            (encode_utf8(text@), used as nat),
        ) && used <= input@.len(),
        r is Err ==> (string_literal(input@) matches Some((bytes, _)) ==> !valid_utf8(bytes)),
        r matches Err(violation) ==> violation.code == ErrorCode::Compression,
{
    let (length, at) = integer::decode(input, 7)?;
    let coded_flag = input[0] >= 128;
    if length > input.len() - at {
        return Err(Violation::compression("the block ends inside a string"));
    }
    let end = at + length;
    let raw = &input[at..end];
    let bytes = if coded_flag {
        huffman::decode(raw)?
    } else {
        vstd::slice::slice_to_vec(raw)
    };
    match string_from_utf8(bytes) {
        Some(text) => Ok((text, end)),
        None => Err(Violation::compression("a header string that is not UTF-8")),
    }
}

/// A string written as a literal reads back as itself, whatever follows
/// it, where its length is one an integer can carry.
pub proof fn law_literal_reads_back(bytes: Seq<u8>, huffman: bool, tail: Seq<u8>)
    requires
        bytes.len() <= 0xffff_ffff,
    ensures
        string_literal(literal(bytes, huffman) + tail) == Some(
            (bytes, literal(bytes, huffman).len()),
        ),
{
    let length = (string_bits(bytes).len() + 7) / 8;
    let written = literal(bytes, huffman);
    let input = written + tail;
    if huffman && length <= bytes.len() {
        let head = integer::encoded(length, 7, 0x80);
        huffman::law_huffman_reads_back(bytes);
        assert(input =~= head + (coded(bytes) + tail));
        integer::law_integer_round_trips(length, 7, 0x80, coded(bytes) + tail);
        integer::lemma_first_octet(length, 7, 0x80);
        let low: u8 = if length < 127 { length as u8 } else { 127u8 };
        assert(0x80u8 | low >= 128) by (bit_vector);
        assert(input.subrange(head.len() as int, (head.len() + length) as int) =~= coded(bytes));
    } else {
        let head = integer::encoded(bytes.len(), 7, 0);
        assert(input =~= head + (bytes + tail));
        integer::law_integer_round_trips(bytes.len(), 7, 0, bytes + tail);
        integer::lemma_first_octet(bytes.len(), 7, 0);
        let low: u8 = if bytes.len() < 127 { bytes.len() as u8 } else { 127u8 };
        assert(low < 128 ==> 0u8 | low < 128) by (bit_vector);
        assert(input.subrange(head.len() as int, (head.len() + bytes.len()) as int) =~= bytes);
    }
}

} // verus!
