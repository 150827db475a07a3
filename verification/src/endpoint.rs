//! Where an HTTP server is: an `http://` or `https://` URL — a host, a port
//! and a path — read once, for [`crate::http`] and for every technology that
//! rides on HTTP.

use vstd::prelude::*;
use vstd::utf8::*;

use crate::ascii::{
    cut, decimal, find_from, index_of, lemma_ascii_valid, lemma_cuttable_ascii,
    lemma_decimal_ascii, lemma_index_of, push_decimal, same_letters, starts_with,
};
use crate::authority::{self, host_part, port_number, refusal, refused_message, COLON};
use crate::ip::{is_loopback, Ip};
use crate::text::{owned, push_str, string_of, utf8};
use crate::NetError;

verus! {

broadcast use {encode_utf8_valid_utf8, valid_utf8_concat};

/// An `http://` or `https://` URL: the host, the port, and the path under
/// it.
#[derive(Clone, Debug, PartialEq, Eq)]
pub struct Endpoint {
    secure: bool,
    host: String,
    port: Option<u16>,
    path: String,
}

/// What an endpoint names: the scheme, the host, the port the URL named or
/// was given, and the path.
pub struct EndpointView {
    pub secure: bool,
    pub host: Seq<u8>,
    pub port: Option<u16>,
    pub path: Seq<u8>,
}

impl View for Endpoint {
    type V = EndpointView;

    closed spec fn view(&self) -> EndpointView {
        EndpointView {
            secure: self.secure,
            host: utf8(self.host@),
            port: self.port,
            path: utf8(self.path@),
        }
    }
}

/// The port of the scheme: 443 for `https://`, 80 for `http://`.
pub open spec fn scheme_port(secure: bool) -> u16 {
    if secure {
        443
    } else {
        80
    }
}

/// The port an endpoint is reached at.
pub open spec fn port_of(e: EndpointView) -> u16 {
    match e.port {
        Some(port) => port,
        None => scheme_port(e.secure),
    }
}

/// The host as a `Host` header or a URI writes it.
pub open spec fn bracketed_host(host: Seq<u8>) -> Seq<u8> {
    if index_of(host, COLON, 0) < host.len() {
        seq![0x5bu8] + host + seq![0x5du8]
    } else {
        host
    }
}

/// `host:port`, an IPv6 host in brackets.
pub open spec fn address_of(e: EndpointView) -> Seq<u8> {
    bracketed_host(e.host) + seq![COLON] + decimal(port_of(e) as nat)
}

/// The URL `url` with its scheme taken off, and whether it was `https://`.
pub open spec fn scheme_rest(url: Seq<u8>) -> Option<(bool, Seq<u8>)> {
    let https = utf8("https://"@);
    let http = utf8("http://"@);
    if https.len() <= url.len() && url.subrange(0, https.len() as int) == https {
        Some((true, url.subrange(https.len() as int, url.len() as int)))
    } else if http.len() <= url.len() && url.subrange(0, http.len() as int) == http {
        Some((false, url.subrange(http.len() as int, url.len() as int)))
    } else {
        None
    }
}

/// The authority and the path of what follows the scheme: the path is from
/// the first `/` on, or `/` where there is none.
pub open spec fn authority_and_path(rest: Seq<u8>) -> (Seq<u8>, Seq<u8>) {
    let slash = index_of(rest, 0x2f, 0);
    if slash < rest.len() {
        (rest.subrange(0, slash), rest.subrange(slash, rest.len() as int))
    } else {
        (rest, seq![0x2fu8])
    }
}

fn not_a_url(url: &str) -> (e: NetError)
    ensures
        utf8(e.message@) == utf8("'"@) + utf8(url@) + utf8("' is not an http:// or https:// URL"@),
{
    let mut out: Vec<u8> = Vec::new();
    push_str(&mut out, "'");
    push_str(&mut out, url);
    push_str(&mut out, "' is not an http:// or https:// URL");
    proof {
        assert(valid_utf8(Seq::<u8>::empty()));
    }
    NetError::new(string_of(out))
}

fn in_url(url: &str, failed: NetError) -> (e: NetError)
    ensures
        utf8(e.message@) == utf8("'"@) + utf8(url@) + utf8("': "@) + utf8(failed.message@),
{
    let mut out: Vec<u8> = Vec::new();
    push_str(&mut out, "'");
    push_str(&mut out, url);
    push_str(&mut out, "': ");
    push_str(&mut out, failed.message.as_str());
    proof {
        assert(valid_utf8(Seq::<u8>::empty()));
    }
    NetError::new(string_of(out))
}

impl Endpoint {
    /// Read `url`: `/` where it names no path, and the scheme's port — 80,
    /// or 443 for `https://` — where it names none and [`Self::or_port`]
    /// gives none.
    ///
    /// # Errors
    ///
    /// Refuses a scheme that is neither `http://` nor `https://`, and an
    /// authority [`authority::parse`] refuses.
    pub fn parse(url: &str) -> (r: Result<Self, NetError>)
        ensures
            match scheme_rest(utf8(url@)) {
                None => r matches Err(e) && utf8(e.message@) == utf8("'"@) + utf8(url@) + utf8(
                    "' is not an http:// or https:// URL"@,
                ),
                Some((secure, rest)) => {
                    let (written, path) = authority_and_path(rest);
                    match refusal(written) {
                        Some(why) => r matches Err(e) && utf8(e.message@) == utf8("'"@) + utf8(
                            url@,
                        ) + utf8("': "@) + refused_message(written, why),
                        None => r matches Ok(endpoint) && endpoint@.secure == secure
                            && endpoint@.host == host_part(written) && endpoint@.port
                            == port_number(written) && endpoint@.path == path,
                    }
                },
            },
    {
        let bytes = url.as_bytes();
        let ghost u = utf8(url@);
        let (secure, rest) = if starts_with(bytes, "https://".as_bytes()) {
            proof {
                reveal_strlit("https://");
                crate::ascii::lemma_ascii_text("https://"@);
                assert(u[7] == utf8("https://"@)[7]);
                lemma_cuttable_ascii(u, 7);
            }
            let (_, rest) = cut(url, "https://".as_bytes().len());
            (true, rest)
        } else if starts_with(bytes, "http://".as_bytes()) {
            proof {
                reveal_strlit("http://");
                crate::ascii::lemma_ascii_text("http://"@);
                assert(u[6] == utf8("http://"@)[6]);
                lemma_cuttable_ascii(u, 6);
            }
            let (_, rest) = cut(url, "http://".as_bytes().len());
            (false, rest)
        } else {
            return Err(not_a_url(url));
        };
        let ghost r = utf8(rest@);
        let rest_bytes = rest.as_bytes();
        let at = find_from(rest_bytes, 0x2f, 0);
        proof {
            lemma_index_of(r, 0x2f, 0);
        }
        let (written, path) = if at < rest_bytes.len() {
            proof {
                lemma_cuttable_ascii(r, at as int);
            }
            let (written, path) = cut(rest, at);
            (written, owned(path))
        } else {
            proof {
                reveal_strlit("/");
                crate::ascii::lemma_ascii_text("/"@);
                assert(utf8("/"@) =~= seq![0x2fu8]);
            }
            (rest, owned("/"))
        };
        proof {
            assert(scheme_rest(u) == Some((secure, r)));
            assert(authority_and_path(r) == (utf8(written@), utf8(path@)));
        }
        let (host, port) = match authority::parse(written) {
            Ok(parts) => parts,
            Err(failed) => {
                return Err(in_url(url, failed));
            },
        };
        Ok(Endpoint { secure, host: owned(host), port, path })
    }

    /// The same endpoint with `port` where the URL named none: the port a
    /// service beside the node listens on by convention, such as an Open
    /// Policy Agent's 8181.
    pub fn or_port(self, port: u16) -> (r: Self)
        ensures
            r@.secure == self@.secure,
            r@.host == self@.host,
            r@.path == self@.path,
            r@.port == Some(
                match self@.port {
                    Some(p) => p,
                    None => port,
                },
            ),
    {
        let mut endpoint = self;
        if endpoint.port.is_none() {
            endpoint.port = Some(port);
        }
        endpoint
    }

    /// The same endpoint, refused where it asks for TLS: [`crate::http`]
    /// speaks plain HTTP/1.1 over whatever connection it is handed, and a
    /// capability that opens its own connection has no TLS to open.
    ///
    /// # Errors
    ///
    /// Where the URL is `https://`.
    pub fn plain(self) -> (r: Result<Self, NetError>)
        ensures
            self@.secure ==> (r matches Err(e) && utf8(e.message@) == utf8("'https://"@)
                + address_of(self@) + utf8(
                "' asks for TLS, and this client speaks plain HTTP/1.1 only"@,
            )),
            !self@.secure ==> (r matches Ok(e) && e == self),
    {
        if self.secure {
            let mut out: Vec<u8> = Vec::new();
            push_str(&mut out, "'https://");
            push_str(&mut out, self.address().as_str());
            push_str(&mut out, "' asks for TLS, and this client speaks plain HTTP/1.1 only");
            proof {
                assert(valid_utf8(Seq::<u8>::empty()));
            }
            return Err(NetError::new(string_of(out)));
        }
        Ok(self)
    }

    /// Whether the URL is `https://`.
    pub fn secure(&self) -> (r: bool)
        ensures
            r == self@.secure,
    {
        self.secure
    }

    /// The host, without brackets.
    pub fn host(&self) -> (r: &str)
        ensures
            utf8(r@) == self@.host,
    {
        self.host.as_str()
    }

    /// The port: the one the URL names, else the one [`Self::or_port`]
    /// gave, else the scheme's.
    pub fn port(&self) -> (r: u16)
        ensures
            r == port_of(self@),
    {
        match self.port {
            Some(port) => port,
            None => self.scheme_port(),
        }
    }

    /// The path, opening with `/`.
    pub fn path(&self) -> (r: &str)
        ensures
            utf8(r@) == self@.path,
    {
        self.path.as_str()
    }

    /// The authority as a `Host` header writes it (RFC 9110 section 7.2):
    /// the host, an IPv6 host in brackets, and the port unless it is the
    /// scheme's own.
    pub fn authority(&self) -> (r: String)
        ensures
            utf8(r@) == if port_of(self@) == scheme_port(self@.secure) {
                bracketed_host(self@.host)
            } else {
                address_of(self@)
            },
    {
        if self.port() == self.scheme_port() {
            authority::bracketed(self.host.as_str())
        } else {
            self.address()
        }
    }

    /// `host:port` as a connection or a bind is given it, an IPv6 host in
    /// brackets and the port always written.
    pub fn address(&self) -> (r: String)
        ensures
            utf8(r@) == address_of(self@),
    {
        let mut out: Vec<u8> = Vec::new();
        push_str(&mut out, authority::bracketed(self.host.as_str()).as_str());
        out.push(COLON);
        push_decimal(&mut out, self.port() as u64);
        proof {
            lemma_decimal_ascii(port_of(self@) as nat);
            assert(out@ =~= bracketed_host(self@.host) + (seq![COLON] + decimal(
                port_of(self@) as nat,
            )));
            lemma_ascii_valid(seq![COLON] + decimal(port_of(self@) as nat));
            assert(valid_utf8(bracketed_host(self@.host)));
            assert(out@ =~= address_of(self@));
        }
        string_of(out)
    }

    /// Whether the endpoint names this machine: `localhost`, or an address
    /// in `127.0.0.0/8` or `::1`, given `host_address`, what the host reads
    /// as an IP address (`None` where it is a name). A name is never
    /// resolved to find out.
    pub fn names_loopback(&self, host_address: Option<Ip>) -> (r: bool)
        ensures
            r == (same_letters(self@.host, utf8("localhost"@)) || (host_address matches Some(ip)
                && is_loopback(ip))),
    {
        crate::ascii::eq_ignore_case(self.host.as_str().as_bytes(), "localhost".as_bytes())
            || match host_address {
            Some(ip) => ip.loopback(),
            None => false,
        }
    }

    fn scheme_port(&self) -> (r: u16)
        ensures
            r == scheme_port(self@.secure),
    {
        if self.secure {
            443
        } else {
            80
        }
    }
}

} // verus!
