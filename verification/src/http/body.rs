//! The body a head frames: its chunks, its `Content-Length`, or the
//! connection's end, and never more than [`MAX_BODY`](super::MAX_BODY).

use vstd::prelude::*;
use vstd::utf8::*;

use super::MAX_BODY;
use crate::ascii::{
    all_digits, all_hex, decimal, decimal_value, hex_value, hex_value_of, index_of, is_hex_digit,
    lemma_decimal_ascii, lemma_ascii_valid, lemma_index_of, push_decimal, same_letters, trimmed,
};
use crate::head::{head_from, head_message, header, header_from, line_after, octets_of, without_eol, HeadRefusal, LF};
use crate::text::{owned, push_str, string_of, utf8};
use crate::NetError;

verus! {

broadcast use {encode_utf8_valid_utf8, valid_utf8_concat};

/// Why a body is refused.
pub enum BodyRefusal {
    /// A transfer coding other than chunked, as the head wrote it.
    Coding(Seq<u8>),
    /// A `Content-Length` that is not a length, as the head wrote it.
    Length(Seq<u8>),
    /// A body of this many octets, over [`MAX_BODY`].
    TooLarge(nat),
    /// The octets ended before the body did; `true` within a chunk.
    Short(bool),
    /// A chunk's size line or its end is not what the coding writes.
    Broken,
    /// The trailer after the last chunk is refused as a head.
    Trailer(HeadRefusal),
}

/// The chunks of a chunked body from `i` of `s` on, `whole` put together
/// before them: the body, the trailer after the last chunk, and where the
/// trailer ends.
pub open spec fn chunks_from(s: Seq<u8>, i: int, whole: Seq<u8>) -> Result<
    (Seq<u8>, Seq<Seq<u8>>, int),
    BodyRefusal,
>
    decreases s.len() - i,
{
    if i < 0 || i > s.len() {
        Err(BodyRefusal::Broken)
    } else {
        let next = line_after(s, i);
        let line = without_eol(s.subrange(i, next));
        let size_text = trimmed(line.subrange(0, index_of(line, 0x3b, 0)));
        if !valid_utf8(line) || !all_hex(size_text) || hex_value_of(size_text) > usize::MAX {
            Err(BodyRefusal::Broken)
        } else if hex_value_of(size_text) == 0 {
            match head_from(s, next, 0) {
                Ok((trailer, end)) => Ok((whole, trailer, end)),
                Err(why) => Err(BodyRefusal::Trailer(why)),
            }
        } else if whole.len() + hex_value_of(size_text) > MAX_BODY {
            Err(
                BodyRefusal::TooLarge(
                    if whole.len() + hex_value_of(size_text) > usize::MAX {
                        usize::MAX as nat
                    } else {
                        whole.len() + hex_value_of(size_text)
                    },
                ),
            )
        } else if next + hex_value_of(size_text) + 2 > s.len() {
            Err(BodyRefusal::Short(true))
        } else if s.subrange(next + hex_value_of(size_text), next + hex_value_of(size_text) + 2)
            != seq![0x0du8, 0x0au8] {
            Err(BodyRefusal::Broken)
        } else {
            proof {
                lemma_index_of(s, LF, i);
            }
            chunks_from(
                s,
                next + hex_value_of(size_text) + 2,
                whole + s.subrange(next, next + hex_value_of(size_text)),
            )
        }
    }
}

/// The body `head` frames at the start of `s`: its chunks, its
/// `Content-Length`, or — for an answer, `to_end` — all of `s`, refused
/// once it passes [`MAX_BODY`], as a reader that stops one octet past the
/// most reports it; a request with neither has none. The body, the trailer, and how many octets of
/// `s` they took.
pub open spec fn body_of(s: Seq<u8>, head: Seq<Seq<u8>>, to_end: bool) -> Result<
    (Seq<u8>, Seq<Seq<u8>>, int),
    BodyRefusal,
> {
    match header_from(head, utf8("transfer-encoding"@), 1) {
        Some(codings) => if !same_letters(trimmed(codings), utf8("chunked"@)) {
            Err(BodyRefusal::Coding(codings))
        } else {
            chunks_from(s, 0, seq![])
        },
        None => match header_from(head, utf8("content-length"@), 1) {
            Some(value) => if !all_digits(value) || decimal_value(value) > usize::MAX {
                Err(BodyRefusal::Length(value))
            } else if decimal_value(value) > MAX_BODY {
                Err(BodyRefusal::TooLarge(decimal_value(value)))
            } else if decimal_value(value) > s.len() {
                Err(BodyRefusal::Short(false))
            } else {
                Ok((s.subrange(0, decimal_value(value) as int), seq![], decimal_value(value) as int))
            },
            None => if !to_end {
                Ok((seq![], seq![], 0))
            } else if s.len() > MAX_BODY {
                Err(BodyRefusal::TooLarge(MAX_BODY as nat + 1))
            } else {
                Ok((s, seq![], s.len() as int))
            },
        },
    }
}

/// What a refused body is reported with.
pub open spec fn refusal_message(why: BodyRefusal) -> Seq<u8> {
    match why {
        BodyRefusal::Coding(codings) => utf8("a transfer coding this client does not read: "@)
            + codings,
        BodyRefusal::Length(value) => utf8("a Content-Length '"@) + value + utf8("' is not one"@),
        BodyRefusal::TooLarge(length) => utf8("a body of "@) + decimal(length) + utf8(
            " bytes, over the 67108864 bytes Xmip reads"@,
        ),
        BodyRefusal::Short(in_chunk) => if in_chunk {
            utf8("reading a chunk: failed to fill whole buffer"@)
        } else {
            utf8("reading the body: failed to fill whole buffer"@)
        },
        BodyRefusal::Broken => utf8("a chunked body is broken"@),
        BodyRefusal::Trailer(why) => utf8(head_message(why)),
    }
}

/// The kind of a failure to read octets that ended first.
#[verifier::external_body]
fn ended_early() -> (kind: std::io::ErrorKind) {
    std::io::ErrorKind::UnexpectedEof
}

fn short(in_chunk: bool) -> (e: NetError)
    ensures
        utf8(e.message@) == refusal_message(BodyRefusal::Short(in_chunk)),
        e.io is Some,
{
    let message = if in_chunk {
        owned("reading a chunk: failed to fill whole buffer")
    } else {
        owned("reading the body: failed to fill whole buffer")
    };
    NetError { message, io: Some(ended_early()) }
}

fn too_large(length: usize) -> (e: NetError)
    ensures
        utf8(e.message@) == refusal_message(BodyRefusal::TooLarge(length as nat)),
        e.io is None,
{
    let mut out: Vec<u8> = Vec::new();
    push_str(&mut out, "a body of ");
    push_decimal(&mut out, length as u64);
    proof {
        assert(valid_utf8(Seq::<u8>::empty()));
        lemma_decimal_ascii(length as nat);
        lemma_ascii_valid(decimal(length as nat));
    }
    push_str(&mut out, " bytes, over the 67108864 bytes Xmip reads");
    NetError::new(string_of(out))
}

fn broken() -> (e: NetError)
    ensures
        utf8(e.message@) == refusal_message(BodyRefusal::Broken),
        e.io is None,
{
    NetError::new(owned("a chunked body is broken"))
}

/// The value of a chunk size, hex digits, where it fits a `usize`.
fn hex_size(s: &[u8]) -> (r: Option<usize>)
    ensures
        match r {
            Some(v) => all_hex(s@) && hex_value_of(s@) == v,
            None => !all_hex(s@) || hex_value_of(s@) > usize::MAX,
        },
{
    if s.len() == 0 {
        return None;
    }
    let mut value: usize = 0;
    let mut i: usize = 0;
    while i < s.len()
        invariant
            0 < s@.len(),
            i <= s@.len(),
            forall|j: int| 0 <= j < i ==> is_hex_digit(#[trigger] s@[j]),
            value == hex_value_of(s@.subrange(0, i as int)),
        decreases s.len() - i,
    {
        let b = s[i];
        let d: usize = if 0x30 <= b && b <= 0x39 {
            (b - 0x30) as usize
        } else if 0x41 <= b && b <= 0x46 {
            (b - 0x41 + 10) as usize
        } else if 0x61 <= b && b <= 0x66 {
            (b - 0x61 + 10) as usize
        } else {
            return None;
        };
        proof {
            assert(s@.subrange(0, i + 1).drop_last() =~= s@.subrange(0, i as int));
            assert(hex_value_of(s@.subrange(0, i + 1)) == value * 16 + d);
        }
        if value > (usize::MAX - d) / 16 {
            proof {
                assert(value * 16 + d > usize::MAX) by (nonlinear_arith)
                    requires
                        value > (usize::MAX - d) / 16,
                        d <= 15,
                ;
                lemma_hex_monotone(s@, i as int + 1);
            }
            return None;
        }
        assert(value * 16 + d <= usize::MAX) by (nonlinear_arith)
            requires
                value <= (usize::MAX - d) / 16,
                d <= 15,
        ;
        value = value * 16 + d;
        i = i + 1;
    }
    assert(s@.subrange(0, s@.len() as int) =~= s@);
    Some(value)
}

proof fn lemma_hex_monotone(s: Seq<u8>, k: int)
    requires
        0 <= k <= s.len(),
    ensures
        all_hex(s) ==> hex_value_of(s) >= hex_value_of(s.subrange(0, k)),
    decreases s.len() - k,
{
    if k < s.len() && all_hex(s) {
        lemma_hex_monotone(s, k + 1);
        assert(s.subrange(0, k + 1).drop_last() =~= s.subrange(0, k));
    }
    if k == s.len() {
        assert(s.subrange(0, k) =~= s);
    }
}

/// The chunks of a chunked body, put back together, and the trailer after
/// the last: the body, the trailer's lines, and how many octets they took.
#[verifier::spinoff_prover]
#[verifier::rlimit(50)]
fn unchunk(s: &[u8]) -> (r: Result<(Vec<u8>, Vec<String>, usize), NetError>)
    ensures
        match r {
            Ok((body, trailer, used)) => chunks_from(s@, 0, seq![]) == Ok::<
                (Seq<u8>, Seq<Seq<u8>>, int),
                BodyRefusal,
            >((body@, octets_of(trailer@), used as int)),
            Err(e) => chunks_from(s@, 0, seq![]) matches Err(why) && utf8(e.message@)
                == refusal_message(why) && (e.io is Some <==> why is Short),
        },
{
    let mut whole: Vec<u8> = Vec::new();
    let mut i: usize = 0;
    loop
        invariant
            i <= s@.len(),
            whole@.len() <= MAX_BODY,
            chunks_from(s@, 0, seq![]) == chunks_from(s@, i as int, whole@),
        decreases s.len() - i,
    {
        let e = crate::ascii::find_from(s, LF, i);
        proof {
            lemma_index_of(s@, LF, i as int);
        }
        let next = if e < s.len() {
            e + 1
        } else {
            s.len()
        };
        let line = crate::head::trim_eol(vstd::slice::slice_subrange(s, i, next));
        let text = match crate::text::string_from_utf8(vstd::slice::slice_to_vec(line)) {
            Some(text) => text,
            None => {
                return Err(broken());
            },
        };
        let lb = text.as_str().as_bytes();
        let semi = crate::ascii::find_from(lb, 0x3b, 0);
        proof {
            lemma_index_of(lb@, 0x3b, 0);
            if semi < lb@.len() {
                crate::ascii::lemma_cuttable_ascii(lb@, semi as int);
            }
        }
        let (before, _) = crate::ascii::cut(text.as_str(), semi);
        let size_text = crate::ascii::trim(before);
        let size = match hex_size(size_text.as_bytes()) {
            Some(size) => size,
            None => {
                return Err(broken());
            },
        };
        if size == 0 {
            return match crate::head::read_head_at(s, next) {
                Ok((trailer, end)) => Ok((whole, trailer, end)),
                Err(failed) => Err(failed),
            };
        }
        if size > MAX_BODY - whole.len() {
            return Err(too_large(if size > usize::MAX - whole.len() { usize::MAX } else { whole.len() + size }));
        }
        if s.len() - next < size || s.len() - next - size < 2 {
            return Err(short(true));
        }
        if s[next + size] != 0x0d || s[next + size + 1] != 0x0a {
            proof {
                let t = s@.subrange(next + size, next + size + 2);
                assert(t[0] == s@[next + size] && t[1] == s@[next + size + 1]);
            }
            return Err(broken());
        }
        proof {
            assert(s@.subrange(next + size, next + size + 2) =~= seq![0x0du8, 0x0au8]);
        }
        let mut k = next;
        let stop = next + size;
        let ghost start = whole@;
        while k < stop
            invariant
                stop == next + size,
                next <= k <= next + size <= s@.len(),
                whole@ == start + s@.subrange(next as int, k as int),
            decreases stop - k,
        {
            whole.push(s[k]);
            k = k + 1;
            proof {
                assert(whole@ =~= start + s@.subrange(next as int, k as int));
            }
        }
        i = next + size + 2;
    }
}

/// The body `head` frames at the start of `s`: its chunks, its
/// `Content-Length`, or — for an answer, `to_end` — everything up to the
/// close. A request with neither has none. The body, the trailer's lines,
/// and how many octets of `s` they took.
///
/// # Errors
///
/// A transfer coding other than chunked, a `Content-Length` that is not a
/// length, a body over [`MAX_BODY`], octets that end before the body does,
/// a broken chunk, or a trailer refused as a head.
pub fn read(s: &[u8], head: &[String], to_end: bool) -> (r: Result<
    (Vec<u8>, Vec<String>, usize),
    NetError,
>)
    ensures
        match r {
            Ok((body, trailer, used)) => body_of(s@, octets_of(head@), to_end) == Ok::<
                (Seq<u8>, Seq<Seq<u8>>, int),
                BodyRefusal,
            >((body@, octets_of(trailer@), used as int)),
            Err(e) => body_of(s@, octets_of(head@), to_end) matches Err(why) && utf8(e.message@)
                == refusal_message(why) && (e.io is Some <==> why is Short),
        },
{
    if let Some(codings) = header(head, "transfer-encoding") {
        if !crate::ascii::eq_ignore_case(crate::ascii::trim(codings).as_bytes(), "chunked".as_bytes()) {
            let mut out: Vec<u8> = Vec::new();
            push_str(&mut out, "a transfer coding this client does not read: ");
            proof {
                assert(valid_utf8(utf8("a transfer coding this client does not read: "@)));
            }
            push_str(&mut out, codings);
            return Err(NetError::new(string_of(out)));
        }
        return unchunk(s);
    }
    if let Some(value) = header(head, "content-length") {
        let length = match crate::ascii::decimal_at_most(value.as_bytes(), usize::MAX as u64) {
            Some(length) => length as usize,
            None => {
                let mut out: Vec<u8> = Vec::new();
                push_str(&mut out, "a Content-Length '");
                proof {
                    assert(valid_utf8(utf8("a Content-Length '"@)));
                }
                push_str(&mut out, value);
                push_str(&mut out, "' is not one");
                return Err(NetError::new(string_of(out)));
            },
        };
        if length > MAX_BODY {
            return Err(too_large(length));
        }
        if length > s.len() {
            return Err(short(false));
        }
        let none: Vec<String> = Vec::new();
        proof {
            assert(octets_of(none@) =~= Seq::<Seq<u8>>::empty());
        }
        return Ok((vstd::slice::slice_to_vec(vstd::slice::slice_subrange(s, 0, length)), none, length));
    }
    let none: Vec<String> = Vec::new();
    let nothing: Vec<u8> = Vec::new();
    proof {
        assert(octets_of(none@) =~= Seq::<Seq<u8>>::empty());
        assert(nothing@ =~= Seq::<u8>::empty());
    }
    if !to_end {
        return Ok((nothing, none, 0));
    }
    if s.len() > MAX_BODY {
        return Err(too_large(MAX_BODY + 1));
    }
    proof {
        assert(s@.subrange(0, s@.len() as int) =~= s@);
    }
    Ok((vstd::slice::slice_to_vec(s), none, s.len()))
}

/// Chunks read from `i` end at or after `i`, and within the octets.
pub proof fn lemma_chunks_bounds(s: Seq<u8>, i: int, whole: Seq<u8>)
    requires
        0 <= i <= s.len(),
    ensures
        chunks_from(s, i, whole) matches Ok((_, _, end)) ==> i <= end <= s.len(),
    decreases s.len() - i,
{
    lemma_index_of(s, LF, i);
    let next = line_after(s, i);
    crate::head::lemma_head_bounds(s, next, 0);
    let line = without_eol(s.subrange(i, next));
    let size_text = trimmed(line.subrange(0, index_of(line, 0x3b, 0)));
    let size = hex_value_of(size_text);
    if valid_utf8(line) && all_hex(size_text) && size <= usize::MAX && size != 0 && next + size + 2 <= s.len() {
        lemma_chunks_bounds(s, next + size + 2, whole + s.subrange(next, next + size));
    }
}

/// A body read takes no more octets than there are.
pub proof fn lemma_body_bounds(s: Seq<u8>, head: Seq<Seq<u8>>, to_end: bool)
    ensures
        body_of(s, head, to_end) matches Ok((_, _, used)) ==> 0 <= used <= s.len(),
{
    lemma_chunks_bounds(s, 0, seq![]);
}

} // verus!
