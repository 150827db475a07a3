//! Network primitives the capabilities share, one copy of each: an
//! authority as a URI writes it, an `http://` or `https://` endpoint,
//! percent-encoding, a hardware address in IEEE 802 notation, a filesystem
//! path as a URI's path, a network in prefix notation, HTTP/1.1 on the wire
//! and HTTP/2 with its header compression.

use vstd::prelude::*;

use crate::text::utf8;

pub mod ascii;
pub mod authority;
pub mod endpoint;
pub mod head;
pub mod http;
pub mod http2;
pub mod ip;
pub mod mac;
pub mod network;
pub mod percent;
pub mod uri;
pub mod text;

pub use endpoint::Endpoint;
pub use network::Network;

verus! {

#[verifier::external_type_specification]
#[verifier::external_body]
pub struct ExIoErrorKind(std::io::ErrorKind);

#[verifier::external_type_specification]
#[verifier::external_body]
pub struct ExIoError(std::io::Error);

/// What the operating system says of a failed read or write
/// (`io::Error`'s `Display`). Nothing is promised of the text: it is the
/// platform's.
#[verifier::external_body]
fn io_said(error: &std::io::Error) -> String {
    error.to_string()
}

/// The kind of a failed read or write (`io::Error::kind`). Nothing is
/// said of which kind: `ErrorKind` is opaque here.
#[verifier::external_body]
fn io_kind(error: &std::io::Error) -> std::io::ErrorKind {
    error.kind()
}

/// Why text is not the address or network it was read as, or why a
/// connection did not give the answer asked of it.
#[derive(Clone, Debug, PartialEq, Eq)]
pub struct NetError {
    /// What was wrong, in words.
    pub message: String,
    /// The operating system's kind, where the failure was the connection's;
    /// a caller that retries decides by it.
    pub io: Option<std::io::ErrorKind>,
}

impl NetError {
    /// A failure saying `message`.
    pub fn new(message: String) -> (e: Self)
        ensures
            e.message@ == message@,
            e.io is None,
    {
        NetError { message, io: None }
    }

    /// A connection's failure while `doing`: `doing`, a colon, and what
    /// the operating system says of `error`, keeping its kind.
    pub fn from_io(doing: &str, error: &std::io::Error) -> (e: Self)
        ensures
            exists|said: Seq<char>| utf8(e.message@) == utf8(doing@) + utf8(": "@) + utf8(said),
            e.io is Some,
    {
        let said = io_said(error);
        let mut text: Vec<u8> = Vec::new();
        crate::text::push_str(&mut text, doing);
        crate::text::push_str(&mut text, ": ");
        crate::text::push_str(&mut text, said.as_str());
        proof {
            vstd::utf8::encode_utf8_valid_utf8(doing@);
            vstd::utf8::encode_utf8_valid_utf8(": "@);
            vstd::utf8::encode_utf8_valid_utf8(said@);
            vstd::utf8::valid_utf8_concat(utf8(doing@), utf8(": "@));
            vstd::utf8::valid_utf8_concat(utf8(doing@) + utf8(": "@), utf8(said@));
            assert(text@ == utf8(doing@) + utf8(": "@) + utf8(said@));
        }
        NetError { message: crate::text::string_of(text), io: Some(io_kind(error)) }
    }

    /// What went wrong, in words, as the failure is shown.
    pub fn to_string(&self) -> (r: String)
        ensures
            r@ == self.message@,
    {
        self.message.clone()
    }
}

} // verus!
