//! Text as its UTF-8 octets: the conversions between `str`, `String` and
//! bytes that the readers and writers share.

use vstd::prelude::*;
use vstd::utf8::*;

verus! {

/// The octets `s` is written with.
pub open spec fn utf8(s: Seq<char>) -> Seq<u8> {
    encode_utf8(s)
}

/// `bytes` as a `String` where they are UTF-8 (`String::from_utf8`).
#[verifier::external_body]
pub fn string_from_utf8(bytes: Vec<u8>) -> (r: Option<String>)
    ensures
        r is Some <==> valid_utf8(bytes@),
        r matches Some(s) ==> encode_utf8(s@) == bytes@,
{
    String::from_utf8(bytes).ok()
}

} // verus!

verus! {

/// Whether two octet strings are the same.
pub fn bytes_equal(a: &[u8], b: &[u8]) -> (r: bool)
    ensures
        r == (a@ == b@),
{
    if a.len() != b.len() {
        return false;
    }
    let mut i: usize = 0;
    while i < a.len()
        invariant
            i <= a@.len() == b@.len(),
            forall|j: int| 0 <= j < i ==> a@[j] == b@[j],
        decreases a.len() - i,
    {
        if a[i] != b[i] {
            return false;
        }
        i = i + 1;
    }
    assert(a@ =~= b@);
    true
}

/// Two texts written with the same octets are the same text.
pub proof fn lemma_utf8_injective(a: Seq<char>, b: Seq<char>)
    requires
        encode_utf8(a) == encode_utf8(b),
    ensures
        a == b,
{
    encode_utf8_decode_utf8(a);
    encode_utf8_decode_utf8(b);
}

/// Whether two texts are the same.
pub fn str_equal(a: &str, b: &str) -> (r: bool)
    ensures
        r == (a@ == b@),
{
    let same = bytes_equal(a.as_bytes(), b.as_bytes());
    proof {
        if same {
            lemma_utf8_injective(a@, b@);
        }
    }
    same
}

/// `bytes`, which are UTF-8, as a `String`.
pub fn string_of(bytes: Vec<u8>) -> (r: String)
    requires
        valid_utf8(bytes@),
    ensures
        encode_utf8(r@) == bytes@,
{
    match string_from_utf8(bytes) {
        Some(text) => text,
        None => String::new(),
    }
}

/// `text` as an owned `String`.
pub fn owned(text: &str) -> (r: String)
    ensures
        r@ == text@,
{
    text.to_owned()
}

/// `text`'s octets after what `out` holds; text after text is text.
pub fn push_str(out: &mut Vec<u8>, text: &str)
    ensures
        final(out)@ == old(out)@ + encode_utf8(text@),
        valid_utf8(old(out)@) ==> valid_utf8(final(out)@),
{
    let bytes = text.as_bytes();
    let mut i: usize = 0;
    let ghost start = out@;
    while i < bytes.len()
        invariant
            i <= bytes@.len(),
            bytes@ == encode_utf8(text@),
            out@ == start + bytes@.subrange(0, i as int),
        decreases bytes.len() - i,
    {
        out.push(bytes[i]);
        i = i + 1;
        assert(out@ =~= start + bytes@.subrange(0, i as int));
    }
    proof {
        assert(bytes@.subrange(0, bytes@.len() as int) =~= bytes@);
        encode_utf8_valid_utf8(text@);
        if valid_utf8(start) {
            valid_utf8_concat(start, bytes@);
        }
    }
}

/// The octets of a text are the text's.
pub proof fn lemma_utf8_of_text(s: Seq<char>)
    ensures
        utf8(s) == encode_utf8(s),
{
}

/// The text `str`'s `Debug` writes `text` with: in double quotes, escaped.
pub uninterp spec fn quoted(text: Seq<char>) -> Seq<char>;

/// `text` as `str`'s `Debug` writes it: quoted and escaped.
#[verifier::external_body]
pub fn quote(text: &str) -> (r: String)
    ensures
        r@ == quoted(text@),
{
    format!("{text:?}")
}

/// `text` with each ASCII upper-case letter in lower case, every other
/// character as it is (`str::to_ascii_lowercase`).
#[verifier::external_body]
pub fn ascii_lowercase(text: &str) -> (r: String)
    ensures
        encode_utf8(r@) == crate::ascii::lower_all(encode_utf8(text@)),
{
    text.to_ascii_lowercase()
}

} // verus!
