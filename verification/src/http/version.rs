//! Which HTTP a connection speaks, and the identifier ALPN agrees it by.

use vstd::prelude::*;

use crate::text::{bytes_equal, utf8};

verus! {

/// The version of HTTP a connection speaks, which TLS agrees by ALPN
/// (RFC 7301) and a cleartext connection knows beforehand.
#[derive(Clone, Copy, Debug, PartialEq, Eq, Structural)]
pub enum Version {
    /// HTTP/1.1, what a connection speaks unless something agreed
    /// otherwise.
    Http11,
    /// HTTP/2, [`crate::http2`].
    Http2,
}

/// The protocol identifier ALPN agrees `v` by.
pub open spec fn alpn_id(v: Version) -> Seq<u8> {
    match v {
        Version::Http11 => utf8("http/1.1"@),
        Version::Http2 => utf8("h2"@),
    }
}

/// The version a handshake that agreed `protocol` speaks.
pub open spec fn agreed_on(protocol: Option<Seq<u8>>) -> Version {
    if protocol == Some(alpn_id(Version::Http2)) {
        Version::Http2
    } else {
        Version::Http11
    }
}

impl Default for Version {
    /// HTTP/1.1.
    fn default() -> (v: Self)
        ensures
            v == Version::Http11,
    {
        Version::Http11
    }
}

impl Version {
    /// The protocol identifier ALPN offers and agrees it by, from the IANA
    /// registry RFC 7301 keeps.
    pub fn alpn(self) -> (r: &'static [u8])
        ensures
            r@ == alpn_id(self),
    {
        match self {
            Version::Http11 => "http/1.1".as_bytes(),
            Version::Http2 => "h2".as_bytes(),
        }
    }

    /// The version a handshake agreed: HTTP/2 where ALPN chose `h2`,
    /// HTTP/1.1 where it chose that or nothing at all.
    pub fn agreed(protocol: Option<&[u8]>) -> (v: Self)
        ensures
            v == agreed_on(
                match protocol {
                    Some(p) => Some(p@),
                    None => None,
                },
            ),
    {
        match protocol {
            Some(p) => if bytes_equal(p, Version::Http2.alpn()) {
                Version::Http2
            } else {
                Version::Http11
            },
            None => Version::Http11,
        }
    }
}

/// What ALPN agrees by the identifier of a version is that version.
pub proof fn law_agreed_by_its_identifier(v: Version)
    ensures
        agreed_on(Some(alpn_id(v))) == v,
{
    reveal_strlit("http/1.1");
    reveal_strlit("h2");
    crate::ascii::lemma_ascii_text("http/1.1"@);
    crate::ascii::lemma_ascii_text("h2"@);
    assert(alpn_id(Version::Http11).len() != alpn_id(Version::Http2).len());
}

} // verus!
