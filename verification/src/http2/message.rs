//! A request and its answer as HTTP/2 carries them (RFC 9113 section 8):
//! the pseudo-header fields first, every name in lowercase, and none of
//! the fields that belong to an HTTP/1.1 connection. The same `Request`
//! and `Response` HTTP/1.1 writes and reads, so a caller does not care
//! which version carried them.

use vstd::prelude::*;
use vstd::utf8::*;

use super::error::{ErrorCode, Violation};
use crate::ascii::{decimal, lemma_ascii_valid, lemma_decimal_ascii, lower_all, push_decimal, unsigned};
use crate::http::{
    answer_view, asked_view, field_octets, field_texts, found, query_pairs, reason, reason_text,
    split_target, target_of, target_parts, Answer, Asked, Request, Response,
};
use crate::text::{ascii_lowercase, owned, push_str, quote, quoted, str_equal, string_of, utf8};

verus! {

broadcast use {encode_utf8_valid_utf8, valid_utf8_concat};

/// What a field costs against `SETTINGS_MAX_HEADER_LIST_SIZE`.
pub const FIELD_OVERHEAD: usize = 32;

/// The size of a header list: each field's name and value and 32.
pub open spec fn list_size(fields: Seq<(Seq<u8>, Seq<u8>)>) -> nat
    decreases fields.len(),
{
    if fields.len() == 0 {
        0
    } else {
        list_size(fields.drop_last()) + fields.last().0.len() + fields.last().1.len() + 32
    }
}

/// Whether `name` holds an ASCII upper-case letter.
pub open spec fn has_upper(name: Seq<u8>) -> bool {
    exists|i: int| 0 <= i < name.len() && 0x41 <= #[trigger] name[i] <= 0x5a
}

/// Whether `name` is a pseudo-field's: it opens with `:`.
pub open spec fn is_pseudo(name: Seq<u8>) -> bool {
    name.len() > 0 && name[0] == 0x3a
}

/// How a header list breaks the rules of section 8.2.
pub enum Fault {
    /// A name empty or not lowercase.
    Name(Seq<char>),
    /// A pseudo-field after a regular one.
    Late(Seq<char>),
}

/// The first fault among `fields` from `k` on, `regular` saying whether a
/// regular field came before.
pub open spec fn fault_from(fields: Seq<(Seq<char>, Seq<char>)>, k: int, regular: bool) -> Option<Fault>
    decreases fields.len() - k,
{
    if k < 0 || k >= fields.len() {
        None
    } else {
        let name = utf8(fields[k].0);
        if name.len() == 0 || has_upper(name) {
            Some(Fault::Name(fields[k].0))
        } else if is_pseudo(name) && regular {
            Some(Fault::Late(fields[k].0))
        } else {
            fault_from(fields, k + 1, regular || !is_pseudo(name))
        }
    }
}

/// What `check` says of a list `size` octets large, over `limit`.
pub open spec fn too_large_message(size: nat, limit: usize) -> Seq<u8> {
    utf8("a header list of "@) + decimal(if size > usize::MAX { usize::MAX as nat } else { size })
        + utf8(" octets, over the "@) + decimal(limit as nat) + utf8(" announced"@)
}

/// What `check` says of a fault.
pub open spec fn fault_message(fault: Fault) -> Seq<u8> {
    match fault {
        Fault::Name(name) => utf8("a field name "@) + utf8(quoted(name)),
        Fault::Late(name) => utf8(name) + utf8(" after a regular field"@),
    }
}

/// Refuse a header list that is malformed (section 8.2): larger than
/// `limit`, a name empty or not lowercase, or a pseudo-field after a
/// regular one.
///
/// # Errors
///
/// A `PROTOCOL_ERROR` for the stream it arrived on.
pub fn check(fields: &[(String, String)], limit: usize) -> (r: Result<(), Violation>)
    ensures
        list_size(field_octets(fields@)) > limit ==> (r matches Err(v) && v.code
            == ErrorCode::Protocol && utf8(v.message@) == too_large_message(
            list_size(field_octets(fields@)),
            limit,
        )),
        list_size(field_octets(fields@)) <= limit ==> match fault_from(field_texts(fields@), 0, false) {
            None => r is Ok,
            Some(fault) => r matches Err(v) && v.code == ErrorCode::Protocol && utf8(v.message@)
                == fault_message(fault),
        },
{
    let ghost f = field_octets(fields@);
    let mut size: usize = 0;
    let mut saturated = false;
    let mut k: usize = 0;
    while k < fields.len()
        invariant
            f == field_octets(fields@),
            k <= fields@.len(),
            saturated ==> size == usize::MAX && list_size(f.subrange(0, k as int)) > usize::MAX,
            !saturated ==> size == list_size(f.subrange(0, k as int)),
        decreases fields.len() - k,
    {
        proof {
            assert(f.subrange(0, k + 1).drop_last() =~= f.subrange(0, k as int));
        }
        let name_len = fields[k].0.as_str().as_bytes().len();
        let value_len = fields[k].1.as_str().as_bytes().len();
        if !saturated {
            if name_len <= usize::MAX - size && value_len <= usize::MAX - size - name_len && 32
                <= usize::MAX - size - name_len - value_len {
                size = size + name_len + value_len + 32;
            } else {
                size = usize::MAX;
                saturated = true;
            }
        }
        k = k + 1;
    }
    proof {
        assert(f.subrange(0, f.len() as int) =~= f);
    }
    if saturated || size > limit {
        let mut out: Vec<u8> = Vec::new();
        push_str(&mut out, "a header list of ");
        push_decimal(&mut out, size as u64);
        proof {
            assert(valid_utf8(Seq::<u8>::empty()));
            lemma_decimal_ascii(size as nat);
            lemma_ascii_valid(decimal(size as nat));
        }
        push_str(&mut out, " octets, over the ");
        push_decimal(&mut out, limit as u64);
        proof {
            lemma_decimal_ascii(limit as nat);
            lemma_ascii_valid(decimal(limit as nat));
        }
        push_str(&mut out, " announced");
        return Err(Violation::new(ErrorCode::Protocol, string_of(out).as_str()));
    }
    let mut regular = false;
    let mut k: usize = 0;
    while k < fields.len()
        invariant
            k <= fields@.len(),
            list_size(field_octets(fields@)) <= limit,
            fault_from(field_texts(fields@), 0, false) == fault_from(field_texts(fields@), k as int, regular),
        decreases fields.len() - k,
    {
        let name = fields[k].0.as_str();
        let bytes = name.as_bytes();
        let mut upper = false;
        let mut i: usize = 0;
        while i < bytes.len()
            invariant
                i <= bytes@.len(),
                upper == exists|j: int| 0 <= j < i && 0x41 <= #[trigger] bytes@[j] <= 0x5a,
            decreases bytes.len() - i,
        {
            if 0x41 <= bytes[i] && bytes[i] <= 0x5a {
                upper = true;
            }
            i = i + 1;
        }
        if bytes.len() == 0 || upper {
            let mut out: Vec<u8> = Vec::new();
            push_str(&mut out, "a field name ");
            proof {
                assert(valid_utf8(utf8("a field name "@)));
            }
            push_str(&mut out, quote(name).as_str());
            return Err(Violation::new(ErrorCode::Protocol, string_of(out).as_str()));
        }
        let pseudo = bytes[0] == 0x3a;
        if pseudo && regular {
            let mut out: Vec<u8> = Vec::new();
            push_str(&mut out, name);
            proof {
                assert(valid_utf8(utf8(name@)));
            }
            push_str(&mut out, " after a regular field");
            return Err(Violation::new(ErrorCode::Protocol, string_of(out).as_str()));
        }
        regular = regular || !pseudo;
        k = k + 1;
    }
    Ok(())
}

/// Whether a lowercase `name` names a field of an HTTP/1.1 connection,
/// which HTTP/2 never carries (section 8.2.2).
pub open spec fn connection_specific(name: Seq<u8>) -> bool {
    name == utf8("connection"@) || name == utf8("keep-alive"@) || name == utf8("proxy-connection"@)
        || name == utf8("transfer-encoding"@) || name == utf8("upgrade"@) || name == utf8("host"@)
}

/// Whether HTTP/2 carries the field `f`, its name in lowercase: not a
/// connection's, and `te` only as `trailers`.
pub open spec fn travels(f: (Seq<u8>, Seq<u8>)) -> bool {
    !connection_specific(f.0) && (f.0 != utf8("te"@) || f.1 == utf8("trailers"@))
}

/// `headers` as HTTP/2 carries them: lowercase, without the fields of an
/// HTTP/1.1 connection.
pub open spec fn carried_fields(headers: Seq<(Seq<u8>, Seq<u8>)>) -> Seq<(Seq<u8>, Seq<u8>)>
    decreases headers.len(),
{
    if headers.len() == 0 {
        seq![]
    } else {
        let f = (lower_all(headers.last().0), headers.last().1);
        carried_fields(headers.drop_last()) + if travels(f) {
            seq![f]
        } else {
            seq![]
        }
    }
}

fn is_connection_specific(name: &str) -> (r: bool)
    ensures
        r == connection_specific(utf8(name@)),
{
    let b = name.as_bytes();
    crate::text::bytes_equal(b, "connection".as_bytes()) || crate::text::bytes_equal(
        b,
        "keep-alive".as_bytes(),
    ) || crate::text::bytes_equal(b, "proxy-connection".as_bytes()) || crate::text::bytes_equal(
        b,
        "transfer-encoding".as_bytes(),
    ) || crate::text::bytes_equal(b, "upgrade".as_bytes()) || crate::text::bytes_equal(
        b,
        "host".as_bytes(),
    )
}

/// `headers` as HTTP/2 carries them: lowercase, without the fields of an
/// HTTP/1.1 connection.
pub fn carried(headers: &[(String, String)]) -> (r: Vec<(String, String)>)
    ensures
        field_octets(r@) == carried_fields(field_octets(headers@)),
{
    let ghost h = field_octets(headers@);
    let mut out: Vec<(String, String)> = Vec::new();
    let mut k: usize = 0;
    while k < headers.len()
        invariant
            h == field_octets(headers@),
            k <= headers@.len(),
            field_octets(out@) == carried_fields(h.subrange(0, k as int)),
        decreases headers.len() - k,
    {
        proof {
            assert(h.subrange(0, k + 1).drop_last() =~= h.subrange(0, k as int));
            assert(h.subrange(0, k + 1).last() == h[k as int]);
        }
        let name = ascii_lowercase(headers[k].0.as_str());
        let value = headers[k].1.as_str();
        let keep = !is_connection_specific(name.as_str()) && (!crate::text::bytes_equal(
            name.as_str().as_bytes(),
            "te".as_bytes(),
        ) || crate::text::bytes_equal(value.as_bytes(), "trailers".as_bytes()));
        let ghost before = field_octets(out@);
        if keep {
            out.push((name, owned(value)));
            proof {
                assert(field_octets(out@) =~= before + seq![(lower_all(h[k as int].0), h[k as int].1)]);
            }
        } else {
            proof {
                assert(before + Seq::<(Seq<u8>, Seq<u8>)>::empty() =~= before);
            }
        }
        k = k + 1;
    }
    proof {
        assert(h.subrange(0, h.len() as int) =~= h);
    }
    out
}

/// The fields of the head of `request` sent with `scheme`.
pub open spec fn request_head(scheme: Seq<u8>, request: Request) -> Seq<(Seq<u8>, Seq<u8>)> {
    let target = target_of(utf8(request.path@), field_octets(request.query@));
    let authority = match found(field_octets(request.headers@), utf8("host"@)) {
        Some(host) => seq![(utf8(":authority"@), host)],
        None => seq![],
    };
    seq![(utf8(":method"@), utf8(request.method@)), (utf8(":scheme"@), scheme)] + authority + seq![
        (utf8(":path"@), if target.len() == 0 {
            utf8("/"@)
        } else {
            target
        }),
    ] + carried_fields(field_octets(request.headers@))
}

/// `request` as the fields of its head: `:method`, `:scheme`,
/// `:authority` from its `Host`, `:path`, and its own headers.
pub fn request_fields(scheme: &str, request: &Request) -> (r: Vec<(String, String)>)
    ensures
        field_octets(r@) == request_head(utf8(scheme@), *request),
{
    let target = request.target();
    let mut fields: Vec<(String, String)> = Vec::new();
    fields.push((owned(":method"), request.method.clone()));
    fields.push((owned(":scheme"), owned(scheme)));
    if let Some(host) = request.header_value("host") {
        fields.push((owned(":authority"), owned(host)));
    }
    let path = if target.as_str().as_bytes().len() == 0 {
        owned("/")
    } else {
        target
    };
    fields.push((owned(":path"), path));
    let ghost head = field_octets(fields@);
    let own = carried(request.headers.as_slice());
    let mut k: usize = 0;
    while k < own.len()
        invariant
            k <= own@.len(),
            field_octets(fields@) == head + field_octets(own@).subrange(0, k as int),
        decreases own.len() - k,
    {
        let ghost before = fields@;
        let name = own[k].0.clone();
        let value = own[k].1.clone();
        proof {
            assert(name@ == own@[k as int].0@);
            assert(value@ == own@[k as int].1@);
        }
        fields.push((name, value));
        proof {
            assert(fields@ == before.push((name, value)));
            assert(field_octets(fields@) =~= field_octets(before).push(field_octets(own@)[k as int]));
            assert(field_octets(own@).subrange(0, k + 1) =~= field_octets(own@).subrange(0, k as int).push(field_octets(own@)[k as int]));
        }
        k = k + 1;
    }
    proof {
        assert(field_octets(own@).subrange(0, own@.len() as int) =~= field_octets(own@));
        assert(field_octets(fields@) =~= request_head(utf8(scheme@), *request));
    }
    fields
}

/// What the fields of a request's head gather: its pseudo-fields, the
/// last of each kind, and its headers, `:authority` first as `host`.
pub struct Gathered {
    pub method: Option<Seq<u8>>,
    pub scheme: Option<Seq<u8>>,
    pub path: Option<Seq<u8>>,
    pub headers: Seq<(Seq<u8>, Seq<u8>)>,
}

/// What the fields of a request's head gather, or the pseudo-field, as
/// text, that no request has.
pub open spec fn gathered(fields: Seq<(String, String)>) -> Result<Gathered, Seq<char>>
    decreases fields.len(),
{
    if fields.len() == 0 {
        Ok(Gathered { method: None, scheme: None, path: None, headers: seq![] })
    } else {
        match gathered(fields.drop_last()) {
            Err(name) => Err(name),
            Ok(g) => {
                let name = fields.last().0@;
                let value = utf8(fields.last().1@);
                if name == ":method"@ {
                    Ok(Gathered { method: Some(value), ..g })
                } else if name == ":scheme"@ {
                    Ok(Gathered { scheme: Some(value), ..g })
                } else if name == ":path"@ {
                    Ok(
                        Gathered {
                            path: if value.len() > 0 {
                                Some(value)
                            } else {
                                None
                            },
                            ..g
                        },
                    )
                } else if name == ":authority"@ {
                    Ok(Gathered { headers: seq![(utf8("host"@), value)] + g.headers, ..g })
                } else if is_pseudo(utf8(name)) {
                    Err(name)
                } else {
                    Ok(Gathered { headers: g.headers.push((utf8(name), value)), ..g })
                }
            },
        }
    }
}

/// Why the fields and the body of a request are refused.
pub enum RequestFault {
    /// A pseudo-field no request has.
    Pseudo(Seq<char>),
    /// `:method`, `:scheme` or `:path` missing.
    Missing,
    /// A `content-length` the body does not have.
    Length,
}

/// The request a head and a body carry, or why none.
pub open spec fn request_read(fields: Seq<(String, String)>, body: Seq<u8>) -> Result<
    Asked,
    RequestFault,
> {
    match gathered(fields) {
        Err(name) => Err(RequestFault::Pseudo(name)),
        Ok(g) => if g.method is None || g.scheme is None || g.path is None {
            Err(RequestFault::Missing)
        } else {
            let target = g.path->Some_0;
            match found(g.headers, utf8("content-length"@)) {
                Some(length) if unsigned(length, usize::MAX as nat) != Some(body.len()) => Err(
                    RequestFault::Length,
                ),
                _ => Ok(
                    Asked {
                        method: g.method->Some_0,
                        path: target_parts(target).0,
                        query: query_pairs(target_parts(target).1, 0),
                        headers: g.headers,
                        body,
                    },
                ),
            }
        },
    }
}

/// What a refused request is reported with.
pub open spec fn request_fault_message(fault: RequestFault) -> Seq<u8> {
    match fault {
        RequestFault::Pseudo(name) => utf8(name) + utf8(" in a request"@),
        RequestFault::Missing => utf8("a request without :method, :scheme or :path"@),
        RequestFault::Length => utf8("a content-length the body does not have"@),
    }
}

/// The request a head and a body carry; `:authority` is its `Host`.
///
/// # Errors
///
/// A `PROTOCOL_ERROR` where `:method`, `:scheme` or `:path` is missing, a
/// pseudo-field is not a request's, or a `content-length` disagrees with
/// the body.
pub fn request_of(fields: Vec<(String, String)>, body: Vec<u8>) -> (r: Result<Request, Violation>)
    ensures
        match r {
            Ok(request) => request_read(fields@, body@) == Ok::<Asked, RequestFault>(
                asked_view(request),
            ),
            Err(v) => request_read(fields@, body@) matches Err(fault) && v.code
                == ErrorCode::Protocol && utf8(v.message@) == request_fault_message(fault),
        },
{
    let mut method: Option<String> = None;
    let mut scheme: Option<String> = None;
    let mut path: Option<String> = None;
    let mut headers: Vec<(String, String)> = Vec::new();
    let mut k: usize = 0;
    while k < fields.len()
        invariant
            k <= fields@.len(),
            gathered(fields@.subrange(0, k as int)) matches Ok(g) && g.method == (match method {
                Some(m) => Some(utf8(m@)),
                None => None,
            }) && g.scheme == (match scheme {
                Some(m) => Some(utf8(m@)),
                None => None,
            }) && g.path == (match path {
                Some(m) => Some(utf8(m@)),
                None => None,
            }) && g.headers == field_octets(headers@),
        decreases fields.len() - k,
    {
        proof {
            assert(fields@.subrange(0, k + 1).drop_last() =~= fields@.subrange(0, k as int));
            assert(fields@.subrange(0, k + 1).last() == fields@[k as int]);
        }
        let name = fields[k].0.as_str();
        let value = fields[k].1.clone();
        if str_equal(name, ":method") {
            method = Some(value);
        } else if str_equal(name, ":scheme") {
            scheme = Some(value);
        } else if str_equal(name, ":path") {
            path = if value.as_str().as_bytes().len() > 0 {
                Some(value)
            } else {
                None
            };
        } else if str_equal(name, ":authority") {
            let ghost before = field_octets(headers@);
            headers.insert(0, (owned("host"), value));
            proof {
                assert(field_octets(headers@) =~= seq![(utf8("host"@), utf8(fields@[k as int].1@))]
                    + before);
            }
        } else if name.as_bytes().len() > 0 && name.as_bytes()[0] == 0x3a {
            let mut out: Vec<u8> = Vec::new();
            push_str(&mut out, name);
            proof {
                assert(valid_utf8(utf8(name@)));
            }
            push_str(&mut out, " in a request");
            proof {
                lemma_gathered_fails(fields@, k as int);
            }
            return Err(Violation::new(ErrorCode::Protocol, string_of(out).as_str()));
        } else {
            let ghost before = field_octets(headers@);
            headers.push((owned(name), value));
            proof {
                assert(field_octets(headers@) =~= before.push((utf8(name@), utf8(fields@[k as int].1@))));
            }
        }
        k = k + 1;
    }
    proof {
        assert(fields@.subrange(0, fields@.len() as int) =~= fields@);
    }
    let (method, target) = match (method, scheme, path) {
        (Some(method), Some(_), Some(target)) => (method, target),
        _ => {
            return Err(Violation::protocol("a request without :method, :scheme or :path"));
        },
    };
    let (path, query) = split_target(target.as_str());
    let request = Request { method, path, query, headers, body };
    if let Some(length) = request.header_value("content-length") {
        let parsed = crate::authority::unsigned_of(length.as_bytes(), usize::MAX as u64);
        if parsed != Some(request.body.len() as u64) {
            proof {
                assert(unsigned(utf8(length@), usize::MAX as nat) != Some(request.body@.len()));
            }
            return Err(Violation::protocol("a content-length the body does not have"));
        }
    }
    Ok(request)
}

proof fn lemma_gathered_fails(fields: Seq<(String, String)>, k: int)
    requires
        0 <= k < fields.len(),
        gathered(fields.subrange(0, k + 1)) is Err,
    ensures
        gathered(fields) == gathered(fields.subrange(0, k + 1)),
    decreases fields.len() - k,
{
    if k + 1 < fields.len() {
        assert(fields.subrange(0, k + 2).drop_last() =~= fields.subrange(0, k + 1));
        lemma_gathered_fails(fields, k + 1);
    } else {
        assert(fields.subrange(0, k + 1) =~= fields);
    }
}

/// `response` as the fields of its head: `:status` and its own headers.
pub fn response_fields(response: &Response) -> (r: Vec<(String, String)>)
    ensures
        field_octets(r@) == seq![(utf8(":status"@), decimal(response.status as nat))]
            + carried_fields(field_octets(response.headers@)),
{
    let mut status: Vec<u8> = Vec::new();
    push_decimal(&mut status, response.status as u64);
    proof {
        lemma_decimal_ascii(response.status as nat);
        lemma_ascii_valid(status@);
    }
    let mut fields: Vec<(String, String)> = Vec::new();
    fields.push((owned(":status"), string_of(status)));
    let ghost head = field_octets(fields@);
    let own = carried(response.headers.as_slice());
    let mut k: usize = 0;
    while k < own.len()
        invariant
            k <= own@.len(),
            field_octets(fields@) == head + field_octets(own@).subrange(0, k as int),
        decreases own.len() - k,
    {
        let ghost before = fields@;
        let name = own[k].0.clone();
        let value = own[k].1.clone();
        fields.push((name, value));
        proof {
            assert(field_octets(fields@) =~= field_octets(before).push(field_octets(own@)[k as int]));
            assert(field_octets(own@).subrange(0, k + 1) =~= field_octets(own@).subrange(0, k as int).push(field_octets(own@)[k as int]));
        }
        k = k + 1;
    }
    proof {
        assert(field_octets(own@).subrange(0, own@.len() as int) =~= field_octets(own@));
    }
    fields
}

/// The status a head's fields give: the last `:status`, where it is three
/// digits; and its headers, the fields that are not pseudo-fields.
pub open spec fn answered(fields: Seq<(String, String)>) -> (Option<u16>, Seq<(Seq<u8>, Seq<u8>)>)
    decreases fields.len(),
{
    if fields.len() == 0 {
        (None, seq![])
    } else {
        let (status, headers) = answered(fields.drop_last());
        let name = fields.last().0@;
        let value = utf8(fields.last().1@);
        if name == ":status"@ {
            (
                if value.len() == 3 && unsigned(value, 65535) is Some {
                    Some(unsigned(value, 65535)->Some_0 as u16)
                } else {
                    None
                },
                headers,
            )
        } else if !is_pseudo(utf8(name)) {
            (status, headers.push((utf8(name), value)))
        } else {
            (status, headers)
        }
    }
}

/// The answer a head, a body and trailers carry.
///
/// # Errors
///
/// A `PROTOCOL_ERROR` where `:status` is missing or not three digits.
pub fn response_of(
    fields: Vec<(String, String)>,
    body: Vec<u8>,
    trailers: Vec<(String, String)>,
) -> (r: Result<Response, Violation>)
    ensures
        match answered(fields@).0 {
            Some(status) => r matches Ok(response) && answer_view(response) == (Answer {
                status,
                reason: utf8(reason_text(status)),
                headers: answered(fields@).1,
                body: body@,
                trailers: field_octets(trailers@),
            }),
            None => r matches Err(v) && v.code == ErrorCode::Protocol && v.message@
                == "an answer without a :status"@,
        },
{
    let mut status: Option<u16> = None;
    let mut headers: Vec<(String, String)> = Vec::new();
    let mut k: usize = 0;
    while k < fields.len()
        invariant
            k <= fields@.len(),
            answered(fields@.subrange(0, k as int)) == (status, field_octets(headers@)),
        decreases fields.len() - k,
    {
        proof {
            assert(fields@.subrange(0, k + 1).drop_last() =~= fields@.subrange(0, k as int));
            assert(fields@.subrange(0, k + 1).last() == fields@[k as int]);
        }
        let name = fields[k].0.as_str();
        let value = fields[k].1.as_str();
        if str_equal(name, ":status") {
            let vb = value.as_bytes();
            status = if vb.len() == 3 {
                crate::authority::port_of(vb)
            } else {
                None
            };
        } else if !(name.as_bytes().len() > 0 && name.as_bytes()[0] == 0x3a) {
            let ghost before = field_octets(headers@);
            headers.push((owned(name), owned(value)));
            proof {
                assert(field_octets(headers@) =~= before.push((utf8(name@), utf8(value@))));
            }
        }
        k = k + 1;
    }
    proof {
        assert(fields@.subrange(0, fields@.len() as int) =~= fields@);
    }
    let status = match status {
        Some(status) => status,
        None => {
            return Err(Violation::protocol("an answer without a :status"));
        },
    };
    Ok(Response { status, reason: owned(reason(status)), headers, body, trailers })
}

} // verus!
