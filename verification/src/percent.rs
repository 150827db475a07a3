//! Percent-encoding (RFC 3986 section 2.1): every byte outside the
//! unreserved set written as `%XX`, and the escapes read back.
//!
//! Written with RFC 3986's unreserved set and nothing more: `a b` is
//! `a%20b`, never `a+b`, and a `/` is kept only where the caller says it
//! separates the segments of a path. Read in two ways, over one walk:
//! [`decode`] leaves a `%` that two hex digits do not follow as it is, for a
//! far end that takes what it is sent; [`decode_strict`] refuses it, for a
//! credential or a form that must not be guessed at. What a `+` means is the
//! form's, not the URI's, and stays with the form.

use vstd::prelude::*;
use vstd::utf8::*;

use crate::ascii::{
    all_ascii, decimal, hex_value, is_hex_digit, lemma_ascii_valid, lemma_decimal_ascii,
    push_decimal, text_of,
};
use crate::text::utf8;

verus! {

broadcast use {encode_utf8_valid_utf8, valid_utf8_concat};

/// Whether `b` is written as it is: a letter, a digit, `-`, `_`, `.`, `~`,
/// and `/` where `keep_slash` says so.
pub open spec fn unreserved(b: u8, keep_slash: bool) -> bool {
    (0x30 <= b <= 0x39) || (0x41 <= b <= 0x5a) || (0x61 <= b <= 0x7a) || b == 0x2d || b == 0x5f
        || b == 0x2e || b == 0x7e || (keep_slash && b == 0x2f)
}

/// The upper-case hex digit of value `d`.
pub open spec fn upper_hex(d: nat) -> u8 {
    if d < 10 {
        (0x30 + d) as u8
    } else {
        (0x41 + d - 10) as u8
    }
}

/// How `b` is written.
pub open spec fn piece(b: u8, keep_slash: bool) -> Seq<u8> {
    if unreserved(b, keep_slash) {
        seq![b]
    } else {
        seq![0x25u8, upper_hex((b / 16) as nat), upper_hex((b % 16) as nat)]
    }
}

/// `text` percent-encoded.
pub open spec fn encoded(text: Seq<u8>, keep_slash: bool) -> Seq<u8>
    decreases text.len(),
{
    if text.len() == 0 {
        seq![]
    } else {
        piece(text[0], keep_slash) + encoded(text.drop_first(), keep_slash)
    }
}

/// Whether an escape, `%` and two hex digits, opens `text`.
pub open spec fn escape_opens(text: Seq<u8>) -> bool {
    text.len() >= 3 && text[0] == 0x25 && is_hex_digit(text[1]) && is_hex_digit(text[2])
}

/// The one walk: each escape decoded, and a broken one refused where
/// `strict` says so — at the octet it stands at — and kept as written where
/// it does not.
pub open spec fn walked(text: Seq<u8>, strict: bool) -> Result<Seq<u8>, nat>
    decreases text.len(),
{
    if text.len() == 0 {
        Ok(seq![])
    } else if escape_opens(text) {
        let byte = (hex_value(text[1]) * 16 + hex_value(text[2])) as u8;
        match walked(text.subrange(3, text.len() as int), strict) {
            Ok(rest) => Ok(seq![byte] + rest),
            Err(at) => Err(at + 3),
        }
    } else if strict && text[0] == 0x25 {
        Err(0)
    } else {
        match walked(text.drop_first(), strict) {
            Ok(rest) => Ok(seq![text[0]] + rest),
            Err(at) => Err(at + 1),
        }
    }
}

/// The text the octets `bytes` make, each run that is not UTF-8 replaced
/// by U+FFFD, as `String::from_utf8_lossy` makes it.
pub uninterp spec fn lossy(bytes: Seq<u8>) -> Seq<char>;

/// The text the octets `bytes` make: decoded where they are UTF-8, each
/// run that is not replaced by U+FFFD where they are not.
pub open spec fn text_of_octets(bytes: Seq<u8>) -> Seq<char> {
    if valid_utf8(bytes) {
        decode_utf8(bytes)
    } else {
        lossy(bytes)
    }
}

/// `bytes` as text, each run that is not UTF-8 replaced by U+FFFD
/// (`String::from_utf8_lossy`): what is UTF-8 is kept as it is, and the
/// rest is given its name.
#[verifier::external_body]
fn from_utf8_lossy(bytes: &[u8]) -> (r: String)
    ensures
        r@ == lossy(bytes@),
        valid_utf8(bytes@) ==> encode_utf8(r@) == bytes@,
{
    String::from_utf8_lossy(bytes).into_owned()
}

/// A `%` that two hex digits do not follow, at byte `at` of the text.
#[derive(Clone, Copy, Debug, PartialEq, Eq, Structural)]
pub struct BrokenEscape {
    /// Where the `%` is, counted in bytes from the start.
    pub at: usize,
}

impl BrokenEscape {
    /// What went wrong, in words, and where.
    pub fn to_string(&self) -> (r: String)
        ensures
            utf8(r@) == utf8("a % without two hex digits at byte "@) + decimal(self.at as nat),
    {
        let mut out = vstd::slice::slice_to_vec("a % without two hex digits at byte ".as_bytes());
        push_decimal(&mut out, self.at as u64);
        proof {
            lemma_decimal_ascii(self.at as nat);
            lemma_ascii_valid(decimal(self.at as nat));
        }
        crate::text::string_of(out)
    }
}

fn upper_digit(d: u8) -> (r: u8)
    requires
        d < 16,
    ensures
        r == upper_hex(d as nat),
{
    if d < 10 {
        0x30 + d
    } else {
        0x41 + d - 10
    }
}

proof fn lemma_encoded_push(text: Seq<u8>, b: u8, keep_slash: bool)
    ensures
        encoded(text.push(b), keep_slash) == encoded(text, keep_slash) + piece(b, keep_slash),
    decreases text.len(),
{
    if text.len() == 0 {
        assert(text.push(b).drop_first() =~= Seq::<u8>::empty());
        assert(encoded(Seq::<u8>::empty(), keep_slash) =~= Seq::<u8>::empty());
        assert(text =~= Seq::<u8>::empty());
        assert(encoded(text.push(b), keep_slash) =~= piece(b, keep_slash));
    } else {
        lemma_encoded_push(text.drop_first(), b, keep_slash);
        assert(text.push(b).drop_first() =~= text.drop_first().push(b));
        assert(encoded(text.push(b), keep_slash) =~= encoded(text, keep_slash) + piece(b, keep_slash));
    }
}

proof fn lemma_encoded_ascii(text: Seq<u8>, keep_slash: bool)
    ensures
        all_ascii(encoded(text, keep_slash)),
    decreases text.len(),
{
    if text.len() > 0 {
        lemma_encoded_ascii(text.drop_first(), keep_slash);
        let p = piece(text[0], keep_slash);
        let rest = encoded(text.drop_first(), keep_slash);
        assert forall|i: int| 0 <= i < (p + rest).len() implies #[trigger] (p + rest)[i] < 0x80 by {
            if i >= p.len() {
                assert((p + rest)[i] == rest[i - p.len()]);
            }
        }
    }
}

/// `text` with every byte outside the unreserved set as `%XX`, and `/` kept
/// where it separates the segments of a path.
pub fn encode(text: &str, keep_slash: bool) -> (r: String)
    ensures
        utf8(r@) == encoded(utf8(text@), keep_slash),
{
    let bytes = text.as_bytes();
    let mut out: Vec<u8> = Vec::new();
    let mut i: usize = 0;
    while i < bytes.len()
        invariant
            i <= bytes@.len(),
            out@ == encoded(bytes@.subrange(0, i as int), keep_slash),
        decreases bytes.len() - i,
    {
        let byte = bytes[i];
        proof {
            lemma_encoded_push(bytes@.subrange(0, i as int), byte, keep_slash);
            assert(bytes@.subrange(0, i + 1) =~= bytes@.subrange(0, i as int).push(byte));
        }
        let plain = (0x30 <= byte && byte <= 0x39) || (0x41 <= byte && byte <= 0x5a) || (0x61
            <= byte && byte <= 0x7a) || byte == 0x2d || byte == 0x5f || byte == 0x2e || byte
            == 0x7e || (keep_slash && byte == 0x2f);
        if plain {
            out.push(byte);
        } else {
            out.push(0x25);
            out.push(upper_digit(byte / 16));
            out.push(upper_digit(byte % 16));
        }
        i = i + 1;
    }
    proof {
        assert(bytes@.subrange(0, bytes@.len() as int) =~= bytes@);
        lemma_encoded_ascii(bytes@, keep_slash);
        lemma_ascii_valid(out@);
    }
    crate::text::string_of(out)
}

/// The value of the hex digit `b`.
fn digit_value(b: u8) -> (r: u8)
    requires
        is_hex_digit(b),
    ensures
        r == hex_value(b),
        r < 16,
{
    if b <= 0x39 {
        b - 0x30
    } else if b <= 0x46 {
        b - 0x41 + 10
    } else {
        b - 0x61 + 10
    }
}

fn is_hex(b: u8) -> (r: bool)
    ensures
        r == is_hex_digit(b),
{
    (0x30 <= b && b <= 0x39) || (0x41 <= b && b <= 0x46) || (0x61 <= b && b <= 0x66)
}

/// The walk's result, `out` decoded from the octets before `at` and `rest`
/// from those after.
pub open spec fn joined(out: Seq<u8>, at: nat, rest: Result<Seq<u8>, nat>) -> Result<Seq<u8>, nat> {
    match rest {
        Ok(tail) => Ok(out + tail),
        Err(e) => Err(at + e),
    }
}

fn walk(text: &[u8], strict: bool) -> (r: Result<Vec<u8>, BrokenEscape>)
    ensures
        match r {
            Ok(out) => walked(text@, strict) == Ok::<Seq<u8>, nat>(out@),
            Err(broken) => walked(text@, strict) == Err::<Seq<u8>, nat>(broken.at as nat),
        },
{
    let mut out: Vec<u8> = Vec::new();
    let mut at: usize = 0;
    proof {
        assert(text@.subrange(0, text@.len() as int) =~= text@);
        match walked(text@, strict) {
            Ok(t) => assert(Seq::<u8>::empty() + t =~= t),
            Err(_) => {},
        }
    }
    while at < text.len()
        invariant
            at <= text@.len(),
            walked(text@, strict) == joined(
                out@,
                at as nat,
                walked(text@.subrange(at as int, text@.len() as int), strict),
            ),
        decreases text.len() - at,
    {
        let ghost rest = text@.subrange(at as int, text@.len() as int);
        let escaped = text[at] == 0x25 && text.len() - at >= 3 && is_hex(text[at + 1]) && is_hex(
            text[at + 2],
        );
        if escaped {
            let byte = digit_value(text[at + 1]) * 16 + digit_value(text[at + 2]);
            proof {
                assert(rest.subrange(3, rest.len() as int) =~= text@.subrange(
                    at + 3,
                    text@.len() as int,
                ));
                assert(escape_opens(rest));
                assert(out@.push(byte) + Seq::<u8>::empty() =~= out@.push(byte));
                assert forall|tail: Seq<u8>| #[trigger] (out@ + (seq![byte] + tail)) == out@.push(
                    byte,
                ) + tail by {
                    assert(out@ + (seq![byte] + tail) =~= out@.push(byte) + tail);
                }
            }
            out.push(byte);
            at = at + 3;
        } else if strict && text[at] == 0x25 {
            proof {
                assert(!escape_opens(rest));
            }
            return Err(BrokenEscape { at });
        } else {
            let byte = text[at];
            proof {
                assert(rest.drop_first() =~= text@.subrange(at + 1, text@.len() as int));
                assert(!escape_opens(rest));
                assert forall|tail: Seq<u8>| #[trigger] (out@ + (seq![byte] + tail)) == out@.push(
                    byte,
                ) + tail by {
                    assert(out@ + (seq![byte] + tail) =~= out@.push(byte) + tail);
                }
            }
            out.push(byte);
            at = at + 1;
        }
    }
    proof {
        assert(text@.subrange(at as int, text@.len() as int) =~= Seq::<u8>::empty());
        assert(out@ + Seq::<u8>::empty() =~= out@);
    }
    Ok(out)
}

/// The lenient walk never refuses.
pub proof fn lemma_lenient_walks(text: Seq<u8>)
    ensures
        walked(text, false) is Ok,
    decreases text.len(),
{
    if text.len() >= 3 {
        lemma_lenient_walks(text.subrange(3, text.len() as int));
    }
    if text.len() > 0 {
        lemma_lenient_walks(text.drop_first());
    }
}

/// `%XX` back to bytes, lossily where they are not UTF-8; a `%` that two
/// hex digits do not follow is left as it is.
pub fn decode(text: &str) -> (r: String)
    ensures
        walked(utf8(text@), false) matches Ok(bytes) && r@ == text_of_octets(bytes),
        walked(utf8(text@), false) matches Ok(bytes) && (valid_utf8(bytes) ==> utf8(r@) == bytes),
{
    proof {
        lemma_lenient_walks(utf8(text@));
    }
    let decoded = match walk(text.as_bytes(), false) {
        Ok(bytes) => bytes,
        Err(_) => vstd::slice::slice_to_vec(text.as_bytes()),
    };
    let r = from_utf8_lossy(decoded.as_slice());
    proof {
        if valid_utf8(decoded@) {
            encode_utf8_decode_utf8(r@);
        }
    }
    r
}

/// `%XX` back to bytes, refusing a `%` that two hex digits do not follow.
///
/// # Errors
///
/// At the first such `%`, saying where it is.
pub fn decode_strict(text: &[u8]) -> (r: Result<Vec<u8>, BrokenEscape>)
    ensures
        match r {
            Ok(out) => walked(text@, true) == Ok::<Seq<u8>, nat>(out@),
            Err(broken) => walked(text@, true) == Err::<Seq<u8>, nat>(broken.at as nat),
        },
{
    walk(text, true)
}

/// What is encoded decodes back to itself, strictly or leniently, whether
/// or not the slash was kept.
pub proof fn law_decode_undoes_encode(text: Seq<u8>, keep_slash: bool, strict: bool)
    ensures
        walked(encoded(text, keep_slash), strict) == Ok::<Seq<u8>, nat>(text),
    decreases text.len(),
{
    if text.len() > 0 {
        let b = text[0];
        let rest = text.drop_first();
        law_decode_undoes_encode(rest, keep_slash, strict);
        let whole = encoded(text, keep_slash);
        let p = piece(b, keep_slash);
        assert(whole == p + encoded(rest, keep_slash));
        if unreserved(b, keep_slash) {
            assert(whole.drop_first() =~= encoded(rest, keep_slash));
            assert(whole[0] == b);
            assert(!escape_opens(whole));
            assert(seq![b] + rest =~= text);
            assert(walked(whole, strict) == Ok::<Seq<u8>, nat>(seq![whole[0]] + rest));
        } else {
            assert(whole.subrange(3, whole.len() as int) =~= encoded(rest, keep_slash));
            let hi = upper_hex((b / 16) as nat);
            let lo = upper_hex((b % 16) as nat);
            assert(whole[1] == hi && whole[2] == lo);
            assert(hex_value(hi) == b / 16);
            assert(hex_value(lo) == b % 16);
            assert(escape_opens(whole));
            assert(((hex_value(hi) * 16 + hex_value(lo)) as u8) == b);
            assert(seq![((hex_value(hi) * 16 + hex_value(lo)) as u8)] + rest =~= text);
            assert(walked(whole, strict) == Ok::<Seq<u8>, nat>(
                seq![((hex_value(whole[1]) * 16 + hex_value(whole[2])) as u8)] + rest,
            ));
        }
    } else {
        assert(encoded(text, keep_slash) =~= Seq::<u8>::empty());
        assert(text =~= Seq::<u8>::empty());
    }
}

/// A text percent-encoded is ASCII, and so is read as it was written.
pub proof fn law_encoded_is_ascii(text: Seq<u8>, keep_slash: bool)
    ensures
        all_ascii(encoded(text, keep_slash)),
        valid_utf8(encoded(text, keep_slash)),
{
    lemma_encoded_ascii(text, keep_slash);
    lemma_ascii_valid(encoded(text, keep_slash));
}

/// Where the strict decoding reads a text, the lenient one reads it the
/// same: the two differ only where an escape is broken.
pub proof fn law_strict_agrees_with_lenient(text: Seq<u8>)
    ensures
        walked(text, true) matches Ok(bytes) ==> walked(text, false) == Ok::<Seq<u8>, nat>(bytes),
    decreases text.len(),
{
    if text.len() > 0 {
        if escape_opens(text) {
            law_strict_agrees_with_lenient(text.subrange(3, text.len() as int));
        } else {
            law_strict_agrees_with_lenient(text.drop_first());
        }
    }
}

/// The strict decoding refuses a text at the first `%` that two hex
/// digits do not follow, the escapes before it whole.
pub proof fn law_strict_refuses_where_broken(text: Seq<u8>)
    ensures
        walked(text, true) matches Err(at) ==> at < text.len() && text[at as int] == 0x25
            && !escape_opens(text.subrange(at as int, text.len() as int)),
    decreases text.len(),
{
    if text.len() > 0 {
        if escape_opens(text) {
            let rest = text.subrange(3, text.len() as int);
            law_strict_refuses_where_broken(rest);
            if let Err(at) = walked(rest, true) {
                assert(text[at + 3int] == rest[at as int]);
                assert(text.subrange(at + 3int, text.len() as int) =~= rest.subrange(
                    at as int,
                    rest.len() as int,
                ));
            }
        } else if text[0] == 0x25 {
            assert(text.subrange(0, text.len() as int) =~= text);
        } else {
            let rest = text.drop_first();
            law_strict_refuses_where_broken(rest);
            if let Err(at) = walked(rest, true) {
                assert(text[at + 1int] == rest[at as int]);
                assert(text.subrange(at + 1int, text.len() as int) =~= rest.subrange(
                    at as int,
                    rest.len() as int,
                ));
            }
        }
    }
}

} // verus!
