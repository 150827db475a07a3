//! One HTTP/1.1 message as it is written: the first line, the headers,
//! the framing its body needs, the body and, where it has one, the
//! trailer.

use vstd::prelude::*;

use super::{field_octets, find, found};
use crate::ascii::{decimal, hex, push_decimal, push_hex};
use crate::text::{push_str, utf8};

verus! {

/// A line's end.
pub open spec fn crlf() -> Seq<u8> {
    seq![0x0du8, 0x0au8]
}

/// One field as a line: `name: value`.
pub open spec fn field_line(field: (Seq<u8>, Seq<u8>)) -> Seq<u8> {
    field.0 + seq![0x3au8, 0x20u8] + field.1 + crlf()
}

/// The fields as lines, in their order.
pub open spec fn field_lines(fields: Seq<(Seq<u8>, Seq<u8>)>) -> Seq<u8>
    decreases fields.len(),
{
    if fields.len() == 0 {
        seq![]
    } else {
        field_lines(fields.drop_last()) + field_line(fields.last())
    }
}

/// The line that closes the connection after the message, where its
/// headers name no `Connection` of their own.
pub open spec fn close_line(headers: Seq<(Seq<u8>, Seq<u8>)>) -> Seq<u8> {
    if found(headers, utf8("connection"@)) is None {
        utf8("Connection: close\r\n"@)
    } else {
        seq![]
    }
}

/// What follows the headers of a message without a trailer: its length,
/// the connection closing unless a header says otherwise, the blank line
/// and the body.
pub open spec fn length_framed(headers: Seq<(Seq<u8>, Seq<u8>)>, body: Seq<u8>) -> Seq<u8> {
    utf8("Content-Length: "@) + decimal(body.len()) + crlf() + close_line(headers) + crlf() + body
}

/// What follows the headers of a message with a trailer: the body as one
/// chunk, the last chunk, and the trailer.
pub open spec fn chunked(
    headers: Seq<(Seq<u8>, Seq<u8>)>,
    body: Seq<u8>,
    trailers: Seq<(Seq<u8>, Seq<u8>)>,
) -> Seq<u8> {
    utf8("Transfer-Encoding: chunked\r\n"@) + close_line(headers) + crlf() + one_chunk(body) + utf8(
        "0\r\n"@,
    ) + field_lines(trailers) + crlf()
}

/// One message as it is written: its first line, its headers, the length,
/// the connection closing unless a header says otherwise, the blank line
/// and the body — or, where it has a trailer, the body as one chunk and the
/// trailer after the last.
pub open spec fn message_octets(
    first: Seq<u8>,
    headers: Seq<(Seq<u8>, Seq<u8>)>,
    body: Seq<u8>,
    trailers: Seq<(Seq<u8>, Seq<u8>)>,
) -> Seq<u8> {
    first + crlf() + field_lines(headers) + if trailers.len() == 0 {
        length_framed(headers, body)
    } else {
        chunked(headers, body, trailers)
    }
}

fn push_crlf(out: &mut Vec<u8>)
    ensures
        final(out)@ == old(out)@ + crlf(),
{
    out.push(0x0d);
    out.push(0x0a);
    assert(final(out)@ =~= old(out)@ + crlf());
}

fn push_bytes(out: &mut Vec<u8>, bytes: &[u8])
    ensures
        final(out)@ == old(out)@ + bytes@,
{
    let ghost start = out@;
    let mut i: usize = 0;
    while i < bytes.len()
        invariant
            i <= bytes@.len(),
            out@ == start + bytes@.subrange(0, i as int),
        decreases bytes.len() - i,
    {
        out.push(bytes[i]);
        i = i + 1;
        assert(out@ =~= start + bytes@.subrange(0, i as int));
    }
    assert(bytes@.subrange(0, bytes@.len() as int) =~= bytes@);
}

/// The fields as lines, after what `out` holds.
fn push_fields(out: &mut Vec<u8>, fields: &[(String, String)])
    ensures
        final(out)@ == old(out)@ + field_lines(field_octets(fields@)),
{
    let ghost start = out@;
    let ghost f = field_octets(fields@);
    let mut k: usize = 0;
    while k < fields.len()
        invariant
            k <= fields@.len(),
            f == field_octets(fields@),
            out@ == start + field_lines(f.subrange(0, k as int)),
        decreases fields.len() - k,
    {
        proof {
            assert(f.subrange(0, k + 1).drop_last() =~= f.subrange(0, k as int));
            assert(f.subrange(0, k + 1).last() == f[k as int]);
        }
        push_str(out, fields[k].0.as_str());
        out.push(0x3a);
        out.push(0x20);
        push_str(out, fields[k].1.as_str());
        push_crlf(out);
        k = k + 1;
        proof {
            assert(out@ =~= start + field_lines(f.subrange(0, k as int)));
        }
    }
    proof {
        assert(f.subrange(0, f.len() as int) =~= f);
    }
}

fn write_length_framed(out: &mut Vec<u8>, headers: &[(String, String)], body: &[u8])
    ensures
        final(out)@ == old(out)@ + length_framed(field_octets(headers@), body@),
{
    let ghost start = out@;
    push_str(out, "Content-Length: ");
    push_decimal(out, body.len() as u64);
    push_crlf(out);
    write_close(out, headers);
    push_crlf(out);
    push_bytes(out, body);
    assert(out@ =~= start + length_framed(field_octets(headers@), body@));
}

/// The body as one chunk, where it is not empty.
pub open spec fn one_chunk(body: Seq<u8>) -> Seq<u8> {
    if body.len() == 0 {
        seq![]
    } else {
        hex(body.len()) + crlf() + body + crlf()
    }
}

fn write_chunk(out: &mut Vec<u8>, body: &[u8])
    ensures
        final(out)@ == old(out)@ + one_chunk(body@),
{
    let ghost start = out@;
    if body.len() > 0 {
        push_hex(out, body.len() as u64);
        push_crlf(out);
        push_bytes(out, body);
        push_crlf(out);
    }
    assert(out@ =~= start + one_chunk(body@));
}

fn write_close(out: &mut Vec<u8>, headers: &[(String, String)])
    ensures
        final(out)@ == old(out)@ + close_line(field_octets(headers@)),
{
    let ghost start = out@;
    if find(headers, "connection").is_none() {
        push_str(out, "Connection: close\r\n");
    }
    assert(out@ =~= start + close_line(field_octets(headers@)));
}

fn write_chunked(
    out: &mut Vec<u8>,
    headers: &[(String, String)],
    body: &[u8],
    trailers: &[(String, String)],
)
    ensures
        final(out)@ == old(out)@ + chunked(field_octets(headers@), body@, field_octets(trailers@)),
{
    let ghost s0 = out@;
    push_str(out, "Transfer-Encoding: chunked\r\n");
    write_close(out, headers);
    push_crlf(out);
    let ghost s1 = out@;
    write_chunk(out, body);
    let ghost s2 = out@;
    push_str(out, "0\r\n");
    push_fields(out, trailers);
    push_crlf(out);
    let ghost s3 = out@;
    proof {
        let h = field_octets(headers@);
        let t = field_octets(trailers@);
        assert(s1 =~= s0 + (utf8("Transfer-Encoding: chunked\r\n"@) + close_line(h) + crlf()));
        assert(s3 =~= s2 + (utf8("0\r\n"@) + field_lines(t) + crlf()));
        assert(chunked(h, body@, t) =~= (utf8("Transfer-Encoding: chunked\r\n"@) + close_line(h)
            + crlf()) + one_chunk(body@) + (utf8("0\r\n"@) + field_lines(t) + crlf()));
    }
}

/// Write one message after what `out` holds: see [`message_octets`].
pub fn write_message(
    out: &mut Vec<u8>,
    first: &[u8],
    headers: &[(String, String)],
    body: &[u8],
    trailers: &[(String, String)],
)
    ensures
        final(out)@ == old(out)@ + message_octets(
            first@,
            field_octets(headers@),
            body@,
            field_octets(trailers@),
        ),
{
    let ghost start = out@;
    push_bytes(out, first);
    push_crlf(out);
    push_fields(out, headers);
    let ghost prefix = out@;
    if trailers.len() == 0 {
        write_length_framed(out, headers, body);
    } else {
        write_chunked(out, headers, body, trailers);
    }
    assert(out@ =~= start + message_octets(
        first@,
        field_octets(headers@),
        body@,
        field_octets(trailers@),
    ));
}

} // verus!
