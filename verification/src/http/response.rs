//! One HTTP answer, whichever version carried it: its status and phrase,
//! its headers, its body put back together and its trailers.

use vstd::prelude::*;
use vstd::utf8::*;

use super::{field_octets, find, found, reason, reason_text};
use crate::text::{owned, push_str, string_of, utf8};
use crate::NetError;

verus! {

broadcast use {encode_utf8_valid_utf8, valid_utf8_concat};

/// One answer, the body put back together where it was chunked.
#[derive(Clone, Debug, PartialEq, Eq)]
pub struct Response {
    pub status: u16,
    /// The phrase after the status, as the server wrote it:
    /// `Unauthorized`. HTTP/2 carries none, and [`reason`] fills it.
    pub reason: String,
    pub headers: Vec<(String, String)>,
    pub body: Vec<u8>,
    /// The fields after the body: HTTP/2's trailing `HEADERS`, or the
    /// trailer of a chunked HTTP/1.1 answer — where gRPC puts its status.
    pub trailers: Vec<(String, String)>,
}

/// What `std::str::from_utf8` says of octets that are not UTF-8: where the
/// first sequence that is not starts, and how it is broken.
pub uninterp spec fn utf8_refusal(bytes: Seq<u8>) -> Seq<char>;

/// `bytes` as text where they are UTF-8 (`std::str::from_utf8`); where
/// they are not, what the standard library says of them.
#[verifier::external_body]
fn str_of(bytes: &[u8]) -> (r: Result<&str, String>)
    ensures
        r is Ok <==> valid_utf8(bytes@),
        r matches Ok(text) ==> encode_utf8(text@) == bytes@,
        r matches Err(why) ==> why@ == utf8_refusal(bytes@),
{
    std::str::from_utf8(bytes).map_err(|refused| refused.to_string())
}

impl Default for Response {
    /// No status, no phrase, no headers, no body, no trailers.
    fn default() -> (r: Self)
        ensures
            r.status == 0,
            r.reason@.len() == 0,
            r.headers@.len() == 0,
            r.body@.len() == 0,
            r.trailers@.len() == 0,
    {
        Response {
            status: 0,
            reason: String::new(),
            headers: Vec::new(),
            body: Vec::new(),
            trailers: Vec::new(),
        }
    }
}

impl Response {
    /// `status`, with the phrase [`reason`] writes it with.
    pub fn new(status: u16) -> (r: Self)
        ensures
            r.status == status,
            r.reason@ == reason_text(status),
            r.headers@.len() == 0,
            r.body@.len() == 0,
            r.trailers@.len() == 0,
    {
        Response {
            status,
            reason: owned(reason(status)),
            headers: Vec::new(),
            body: Vec::new(),
            trailers: Vec::new(),
        }
    }

    /// With one more header.
    pub fn header(self, name: &str, value: &str) -> (r: Self)
        ensures
            r.headers@.len() == self.headers@.len() + 1,
            r.headers@.drop_last() == self.headers@,
            r.headers@.last().0@ == name@,
            r.headers@.last().1@ == value@,
            r.status == self.status,
            r.reason == self.reason,
            r.body == self.body,
            r.trailers == self.trailers,
    {
        let mut r = self;
        r.headers.push((owned(name), owned(value)));
        proof {
            assert(r.headers@.drop_last() =~= self.headers@);
        }
        r
    }

    /// With `bytes` as the body.
    pub fn body(self, bytes: &[u8]) -> (r: Self)
        ensures
            r.body@ == bytes@,
            r.status == self.status,
            r.reason == self.reason,
            r.headers == self.headers,
            r.trailers == self.trailers,
    {
        let mut r = self;
        r.body = vstd::slice::slice_to_vec(bytes);
        r
    }

    /// With one more trailer field.
    pub fn trailer(self, name: &str, value: &str) -> (r: Self)
        ensures
            r.trailers@.len() == self.trailers@.len() + 1,
            r.trailers@.drop_last() == self.trailers@,
            r.trailers@.last().0@ == name@,
            r.trailers@.last().1@ == value@,
            r.status == self.status,
            r.reason == self.reason,
            r.headers == self.headers,
            r.body == self.body,
    {
        let mut r = self;
        r.trailers.push((owned(name), owned(value)));
        proof {
            assert(r.trailers@.drop_last() =~= self.trailers@);
        }
        r
    }

    /// One header's value, however it was capitalised.
    pub fn header_value(&self, name: &str) -> (r: Option<&str>)
        ensures
            match r {
                Some(v) => found(field_octets(self.headers@), utf8(name@)) == Some(utf8(v@)),
                None => found(field_octets(self.headers@), utf8(name@)) is None,
            },
    {
        find(self.headers.as_slice(), name)
    }

    /// One trailer field's value, however it was capitalised.
    pub fn trailer_value(&self, name: &str) -> (r: Option<&str>)
        ensures
            match r {
                Some(v) => found(field_octets(self.trailers@), utf8(name@)) == Some(utf8(v@)),
                None => found(field_octets(self.trailers@), utf8(name@)) is None,
            },
    {
        find(self.trailers.as_slice(), name)
    }

    /// The body as UTF-8 text, for an answer a protocol writes as text — a
    /// service's XML or JSON, an error's detail. A payload is bytes and is
    /// read from [`Response::body`]; nothing here decodes it lossily.
    ///
    /// # Errors
    ///
    /// Where the body is not UTF-8, naming the first byte that is not.
    pub fn text(&self) -> (r: Result<&str, NetError>)
        ensures
            r is Ok <==> valid_utf8(self.body@),
            r matches Ok(text) ==> utf8(text@) == self.body@,
            r matches Err(e) ==> utf8(e.message@) == utf8("the answer's body is not UTF-8 text: "@)
                + utf8(utf8_refusal(self.body@)) + utf8(" (status "@) + crate::ascii::decimal(
                self.status as nat,
            ) + utf8(")"@),
    {
        match str_of(self.body.as_slice()) {
            Ok(text) => Ok(text),
            Err(why) => {
                let mut out: Vec<u8> = Vec::new();
                push_str(&mut out, "the answer's body is not UTF-8 text: ");
                push_str(&mut out, why.as_str());
                push_str(&mut out, " (status ");
                crate::ascii::push_decimal(&mut out, self.status as u64);
                proof {
                    assert(valid_utf8(Seq::<u8>::empty()));
                    crate::ascii::lemma_decimal_ascii(self.status as nat);
                    crate::ascii::lemma_ascii_valid(crate::ascii::decimal(self.status as nat));
                }
                push_str(&mut out, ")");
                Err(NetError::new(string_of(out)))
            },
        }
    }
}

} // verus!
