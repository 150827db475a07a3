//! An authority as a URI writes it (RFC 3986 section 3.2): a host, and a
//! port where one is given — `example.com`, `example.com:8080`, `[::1]`,
//! `[::1]:8080`.

use vstd::prelude::*;
use vstd::utf8::*;

use crate::ascii::{
    cut, cuttable, decimal, find_from, find_last, index_of, last_index_of, lemma_ascii_valid,
    lemma_cuttable_ascii, lemma_decimal_ascii, lemma_index_of, lemma_last_index_of, piece_of,
    push_decimal, unsigned,
};
use crate::text::{push_str, string_of, utf8};
use crate::NetError;

verus! {

broadcast use {encode_utf8_valid_utf8, valid_utf8_concat};

pub const OPEN_BRACKET: u8 = 0x5b;

pub const CLOSE_BRACKET: u8 = 0x5d;

pub const COLON: u8 = 0x3a;

/// Where the bracket an IPv6 literal opens is closed.
pub open spec fn closing(a: Seq<u8>) -> int {
    index_of(a, CLOSE_BRACKET, 1)
}

/// Whether `a` opens a bracket and closes it.
pub open spec fn in_brackets(a: Seq<u8>) -> bool {
    a.len() > 0 && a[0] == OPEN_BRACKET && closing(a) < a.len()
}

/// Where the last colon of `a` is, or -1.
pub open spec fn last_colon(a: Seq<u8>) -> int {
    last_index_of(a, COLON, a.len() as int)
}

/// The host of the authority `a`: in brackets, what they hold; else what
/// comes before the last colon, or all of it.
pub open spec fn host_part(a: Seq<u8>) -> Seq<u8> {
    if in_brackets(a) {
        a.subrange(1, closing(a))
    } else if last_colon(a) >= 0 {
        a.subrange(0, last_colon(a))
    } else {
        a
    }
}

/// The port text of the authority `a`, where it gives one.
pub open spec fn port_part(a: Seq<u8>) -> Option<Seq<u8>> {
    if in_brackets(a) {
        let after = a.subrange(closing(a) + 1, a.len() as int);
        if after.len() > 0 && after[0] == COLON {
            Some(after.drop_first())
        } else {
            None
        }
    } else if last_colon(a) >= 0 {
        Some(a.subrange(last_colon(a) + 1, a.len() as int))
    } else {
        None
    }
}

/// Why the authority `a` is refused, if it is: a bracket opened and not
/// closed, no host, or a port that is no number from 0 to 65535.
pub open spec fn refusal(a: Seq<u8>) -> Option<Seq<char>> {
    if a.len() > 0 && a[0] == OPEN_BRACKET && index_of(a, CLOSE_BRACKET, 0) == a.len() {
        Some("opens a bracket it does not close"@)
    } else if host_part(a).len() == 0 {
        Some("names no host"@)
    } else if port_part(a) matches Some(port) && unsigned(port, 65535) is None {
        Some("names a port that is not one"@)
    } else {
        None
    }
}

/// The port the authority `a` gives, once it is read.
pub open spec fn port_number(a: Seq<u8>) -> Option<u16> {
    match port_part(a) {
        Some(port) => Some(unsigned(port, 65535)->Some_0 as u16),
        None => None,
    }
}

/// What `parse` says of the authority `a` it refuses, `why`.
pub open spec fn refused_message(a: Seq<u8>, why: Seq<char>) -> Seq<u8> {
    utf8("the authority '"@) + a + utf8("' "@) + utf8(why)
}

/// The host and the port text, brackets taken off an IPv6 literal.
fn parts(authority: &str) -> (r: (&str, Option<&str>))
    ensures
        utf8(r.0@) == host_part(utf8(authority@)),
        match r.1 {
            Some(port) => port_part(utf8(authority@)) == Some(utf8(port@)),
            None => port_part(utf8(authority@)) is None,
        },
{
    let bytes = authority.as_bytes();
    let ghost a = bytes@;
    proof {
        if a.len() >= 1 {
            lemma_index_of(a, CLOSE_BRACKET, 1);
        }
        lemma_last_index_of(a, COLON, a.len() as int);
    }
    if bytes.len() > 0 && bytes[0] == OPEN_BRACKET {
        let close = find_from(bytes, CLOSE_BRACKET, 1);
        if close < bytes.len() {
            proof {
                lemma_cuttable_ascii(a, 0);
                lemma_cuttable_ascii(a, close as int);
            }
            let host = piece_of(authority, 1, close);
            let (_, after) = cut(authority, close + 1);
            let after_bytes = after.as_bytes();
            if after_bytes.len() > 0 && after_bytes[0] == COLON {
                proof {
                    assert(a[close + 1] == COLON);
                    lemma_cuttable_ascii(a, close + 1);
                }
                let (_, port) = cut(authority, close + 2);
                proof {
                    assert(a.subrange(close + 1, a.len() as int).drop_first() =~= a.subrange(
                        close + 2,
                        a.len() as int,
                    ));
                }
                return (host, Some(port));
            }
            return (host, None);
        }
    }
    match find_last(bytes, COLON) {
        Some(colon) => {
            proof {
                lemma_cuttable_ascii(a, colon as int);
            }
            let (host, rest) = cut(authority, colon);
            let (_, port) = cut(authority, colon + 1);
            (host, Some(port))
        },
        None => (authority, None),
    }
}

/// The host without its port, and without the brackets an IPv6 literal
/// carries.
pub fn host_of(authority: &str) -> (r: &str)
    ensures
        utf8(r@) == host_part(utf8(authority@)),
{
    parts(authority).0
}

/// The authority with `default` as its port where it does not carry one.
///
/// The bracket check is what keeps `[::1]` from being read as
/// host-and-port.
pub fn with_default_port(authority: &str, default: u16) -> (r: String)
    ensures
        utf8(r@) == if port_part(utf8(authority@)) is Some {
            utf8(authority@)
        } else {
            utf8(authority@) + seq![COLON] + decimal(default as nat)
        },
{
    if parts(authority).1.is_some() {
        crate::text::owned(authority)
    } else {
        let mut out: Vec<u8> = Vec::new();
        push_str(&mut out, authority);
        out.push(COLON);
        push_decimal(&mut out, default as u64);
        proof {
            lemma_decimal_ascii(default as nat);
            lemma_ascii_valid(seq![COLON] + decimal(default as nat));
            assert(out@ =~= utf8(authority@) + (seq![COLON] + decimal(default as nat)));
            assert(utf8(authority@) + (seq![COLON] + decimal(default as nat)) =~= utf8(authority@)
                + seq![COLON] + decimal(default as nat));
        }
        string_of(out)
    }
}

fn refused(authority: &str, why: &str) -> (e: NetError)
    ensures
        utf8(e.message@) == refused_message(utf8(authority@), why@),
        e.io is None,
{
    let mut out: Vec<u8> = Vec::new();
    push_str(&mut out, "the authority '");
    push_str(&mut out, authority);
    push_str(&mut out, "' ");
    push_str(&mut out, why);
    proof {
        assert(valid_utf8(Seq::<u8>::empty()));
    }
    NetError::new(string_of(out))
}

/// The port `text` names, as a `u16` reads it.
pub fn port_of(text: &[u8]) -> (r: Option<u16>)
    ensures
        match r {
            Some(port) => unsigned(text@, 65535) == Some(port as nat),
            None => unsigned(text@, 65535) is None,
        },
{
    let digits = if text.len() > 0 && text[0] == 0x2b {
        vstd::slice::slice_subrange(text, 1, text.len())
    } else {
        text
    };
    proof {
        if text@.len() > 0 && text@[0] == 0x2b {
            assert(digits@ =~= text@.drop_first());
        }
    }
    match crate::ascii::decimal_at_most(digits, 65535) {
        Some(value) => Some(value as u16),
        None => None,
    }
}

/// The unsigned number `text` writes, as `str::parse` reads it, where it
/// is at most `max`.
pub fn unsigned_of(text: &[u8], max: u64) -> (r: Option<u64>)
    ensures
        match r {
            Some(v) => unsigned(text@, max as nat) == Some(v as nat),
            None => unsigned(text@, max as nat) is None,
        },
{
    let digits = if text.len() > 0 && text[0] == 0x2b {
        vstd::slice::slice_subrange(text, 1, text.len())
    } else {
        text
    };
    proof {
        if text@.len() > 0 && text@[0] == 0x2b {
            assert(digits@ =~= text@.drop_first());
        }
    }
    crate::ascii::decimal_at_most(digits, max)
}

/// The host, brackets off, and the port where one is given.
///
/// # Errors
///
/// Where a bracket is opened and not closed, the host is empty, or the
/// port is not a number from 0 to 65535.
pub fn parse(authority: &str) -> (r: Result<(&str, Option<u16>), NetError>)
    ensures
        match r {
            Ok((host, port)) => refusal(utf8(authority@)) is None && utf8(host@) == host_part(
                utf8(authority@),
            ) && port == port_number(utf8(authority@)),
            Err(e) => refusal(utf8(authority@)) matches Some(why) && utf8(e.message@)
                == refused_message(utf8(authority@), why),
        },
{
    let bytes = authority.as_bytes();
    if bytes.len() > 0 && bytes[0] == OPEN_BRACKET && find_from(bytes, CLOSE_BRACKET, 0)
        == bytes.len() {
        return Err(refused(authority, "opens a bracket it does not close"));
    }
    let (host, port) = parts(authority);
    if host.as_bytes().len() == 0 {
        return Err(refused(authority, "names no host"));
    }
    let port = match port {
        Some(text) => match port_of(text.as_bytes()) {
            Some(number) => Some(number),
            None => {
                return Err(refused(authority, "names a port that is not one"));
            },
        },
        None => None,
    };
    Ok((host, port))
}

/// `host` as a `Host` header writes it: in brackets where it holds a
/// colon, an IPv6 literal; as it is otherwise.
pub open spec fn bracketed_text(host: Seq<u8>) -> Seq<u8> {
    if index_of(host, COLON, 0) < host.len() {
        seq![OPEN_BRACKET] + host + seq![CLOSE_BRACKET]
    } else {
        host
    }
}

/// The host as a `Host` header or a URI writes it: an IPv6 literal in
/// brackets, anything else as it is.
pub fn bracketed(host: &str) -> (r: String)
    ensures
        utf8(r@) == bracketed_text(utf8(host@)),
{
    let bytes = host.as_bytes();
    if find_from(bytes, COLON, 0) < bytes.len() {
        let mut out: Vec<u8> = Vec::new();
        out.push(OPEN_BRACKET);
        proof {
            lemma_ascii_valid(out@);
        }
        push_str(&mut out, host);
        let ghost before = out@;
        out.push(CLOSE_BRACKET);
        proof {
            lemma_ascii_valid(seq![CLOSE_BRACKET]);
            assert(out@ =~= before + seq![CLOSE_BRACKET]);
        }
        string_of(out)
    } else {
        crate::text::owned(host)
    }
}

/// A host with no colon in it, given a port and read back, gives back the
/// host and the port; so does an IPv6 literal in brackets.
pub proof fn law_authority_reads_back(host: Seq<u8>, port: u16)
    requires
        host.len() > 0,
        index_of(host, COLON, 0) == host.len(),
        index_of(host, OPEN_BRACKET, 0) == host.len(),
    ensures
        host_part(host + seq![COLON] + decimal(port as nat)) == host,
        port_part(host + seq![COLON] + decimal(port as nat)) == Some(decimal(port as nat)),
        port_part(host) is None,
{
    let whole = host + seq![COLON] + decimal(port as nat);
    lemma_decimal_ascii(port as nat);
    lemma_index_of(host, COLON, 0);
    lemma_index_of(host, OPEN_BRACKET, 0);
    lemma_last_index_of(whole, COLON, whole.len() as int);
    lemma_last_index_of(host, COLON, host.len() as int);
    assert(whole[0] == host[0]);
    assert(whole[host.len() as int] == COLON);
    let k = last_colon(whole);
    if k > host.len() {
        assert(whole[k] == decimal(port as nat)[k - host.len() - 1]);
    }
    if 0 <= k < host.len() {
        assert(whole[k] == host[k]);
    }
    assert(k == host.len());
    assert(whole.subrange(0, k) =~= host);
    assert(whole.subrange(k + 1, whole.len() as int) =~= decimal(port as nat));
    if 0 <= last_colon(host) {
        assert(host[last_colon(host)] == COLON);
    }
}

/// The host of an authority that is a host bracketed as a `Host` header
/// writes it is that host, where it holds no bracket of its own.
pub proof fn law_host_of_undoes_bracketed(host: Seq<u8>)
    requires
        index_of(host, OPEN_BRACKET, 0) == host.len(),
        index_of(host, CLOSE_BRACKET, 0) == host.len(),
    ensures
        host_part(bracketed_text(host)) == host,
{
    lemma_index_of(host, COLON, 0);
    lemma_index_of(host, OPEN_BRACKET, 0);
    lemma_index_of(host, CLOSE_BRACKET, 0);
    if index_of(host, COLON, 0) < host.len() {
        let whole = seq![OPEN_BRACKET] + host + seq![CLOSE_BRACKET];
        let end: int = host.len() as int + 1;
        assert(whole[end] == CLOSE_BRACKET);
        assert forall|k: int| 1 <= k < end implies whole[k] != CLOSE_BRACKET by {
            assert(whole[k] == host[k - 1]);
        }
        crate::http::round_trip::lemma_index_at(whole, CLOSE_BRACKET, 1, end);
        assert(in_brackets(whole));
        assert(whole.subrange(1, end) =~= host);
    } else {
        lemma_last_index_of(host, COLON, host.len() as int);
        if last_colon(host) >= 0 {
            assert(host[last_colon(host)] == COLON);
        }
        if host.len() > 0 {
            assert(host[0] != OPEN_BRACKET);
        }
    }
}

} // verus!
