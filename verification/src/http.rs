//! HTTP/1.1 on the wire, both halves: a request and its answer, written and
//! read. The connection is the caller's: a message is written into octets
//! it sends, and read off the octets it received.
//!
//! A message is `Content-Length` framed as it is written, and closes its
//! connection unless it names its own `Connection`. An answer is read by
//! its length, its chunks or its end; a 1xx, a 204 or a 304 has no body at
//! all. Both halves are here so the two cannot drift: a header written one
//! way is read the same way.
//!
//! The [`Request`] and [`Response`] are HTTP's, not this version's:
//! [`crate::http2`] carries the same two over HTTP/2, trailers included,
//! and [`Version`] names which a connection speaks.

use vstd::prelude::*;
use vstd::utf8::*;

use crate::ascii::{
    cut, find_from, index_of, lemma_cuttable_ascii, lemma_index_of, same_letters,
};
use crate::head::{field, field_of, octets_of};
use crate::percent::{decode, encode, encoded, text_of_octets, walked};
use crate::text::{owned, push_str, string_of, utf8};

pub mod body;
pub mod message;
pub mod response;
pub mod round_trip;
pub mod version;

pub use response::Response;
pub use version::Version;

verus! {

broadcast use {encode_utf8_valid_utf8, valid_utf8_concat};

/// The largest body read, whether framed by its length, its chunks or the
/// connection's end.
pub const MAX_BODY: usize = 67_108_864;

/// One request, as the asking side builds it and the answering side reads
/// it. `Host` is one of its headers, written as it is given: a signature
/// that covers it signs what travels.
#[derive(Clone, Debug, PartialEq, Eq)]
pub struct Request {
    pub method: String,
    /// The path as it travels: percent-encoded, opening with `/`.
    pub path: String,
    /// The query as names and values, before encoding.
    pub query: Vec<(String, String)>,
    pub headers: Vec<(String, String)>,
    pub body: Vec<u8>,
}

/// The octets of each name and value of `fields`.
pub open spec fn field_octets(fields: Seq<(String, String)>) -> Seq<(Seq<u8>, Seq<u8>)> {
    Seq::new(fields.len(), |k: int| (utf8(fields[k].0@), utf8(fields[k].1@)))
}

/// The text of each name and value of `fields`.
pub open spec fn field_texts(fields: Seq<(String, String)>) -> Seq<(Seq<char>, Seq<char>)> {
    Seq::new(fields.len(), |k: int| (fields[k].0@, fields[k].1@))
}

/// The value of the first of `fields` from `k` on that is named `name`,
/// however either is capitalised.
pub open spec fn found_from(fields: Seq<(Seq<u8>, Seq<u8>)>, name: Seq<u8>, k: int) -> Option<
    Seq<u8>,
>
    decreases fields.len() - k,
{
    if k < 0 || k >= fields.len() {
        None
    } else if same_letters(fields[k].0, name) {
        Some(fields[k].1)
    } else {
        found_from(fields, name, k + 1)
    }
}

/// The value of the first of `fields` named `name`, however capitalised.
pub open spec fn found(fields: Seq<(Seq<u8>, Seq<u8>)>, name: Seq<u8>) -> Option<Seq<u8>> {
    found_from(fields, name, 0)
}

/// The value of the first of `fields` named exactly `name`.
pub open spec fn named_from(fields: Seq<(Seq<char>, Seq<char>)>, name: Seq<char>, k: int) -> Option<
    Seq<char>,
>
    decreases fields.len() - k,
{
    if k < 0 || k >= fields.len() {
        None
    } else if fields[k].0 == name {
        Some(fields[k].1)
    } else {
        named_from(fields, name, k + 1)
    }
}

/// One query parameter as the target carries it: `name=value`, both
/// percent-encoded.
pub open spec fn query_piece(field: (Seq<u8>, Seq<u8>)) -> Seq<u8> {
    encoded(field.0, false) + seq![0x3du8] + encoded(field.1, false)
}

/// The query parameters as the target carries them, joined with `&`.
pub open spec fn joined(query: Seq<(Seq<u8>, Seq<u8>)>) -> Seq<u8>
    decreases query.len(),
{
    if query.len() == 0 {
        seq![]
    } else if query.len() == 1 {
        query_piece(query[0])
    } else {
        query_piece(query[0]) + seq![0x26u8] + joined(query.drop_first())
    }
}

/// The request target: the path, and the query encoded and joined after
/// a `?` where there is one.
pub open spec fn target_of(path: Seq<u8>, query: Seq<(Seq<u8>, Seq<u8>)>) -> Seq<u8> {
    if query.len() == 0 {
        path
    } else {
        path + seq![0x3fu8] + joined(query)
    }
}

/// The text a query name or value decodes to.
pub open spec fn decoded_text(b: Seq<u8>) -> Seq<char> {
    text_of_octets(walked(b, false)->Ok_0)
}

/// One `name=value` of a query, decoded; a value is empty where there is
/// no `=`.
pub open spec fn pair_of(segment: Seq<u8>) -> (Seq<char>, Seq<char>) {
    let eq = index_of(segment, 0x3d, 0);
    if eq < segment.len() {
        (
            decoded_text(segment.subrange(0, eq)),
            decoded_text(segment.subrange(eq + 1, segment.len() as int)),
        )
    } else {
        (decoded_text(segment), decoded_text(Seq::empty()))
    }
}

/// The query parameters of `q` from `i` on: its `&`-separated pieces, the
/// empty ones passed over.
pub open spec fn query_pairs(q: Seq<u8>, i: int) -> Seq<(Seq<char>, Seq<char>)>
    decreases q.len() - i,
{
    if i < 0 || i >= q.len() {
        seq![]
    } else {
        let end = index_of(q, 0x26, i);
        let segment = q.subrange(i, end);
        let rest = if end < q.len() {
            proof {
                crate::ascii::lemma_index_of(q, 0x26, i);
            }
            query_pairs(q, end + 1)
        } else {
            seq![]
        };
        if segment.len() == 0 {
            rest
        } else {
            seq![pair_of(segment)] + rest
        }
    }
}

/// A target as its path and its query, cut at the first `?`.
pub open spec fn target_parts(t: Seq<u8>) -> (Seq<u8>, Seq<u8>) {
    let q = index_of(t, 0x3f, 0);
    if q < t.len() {
        (t.subrange(0, q), t.subrange(q + 1, t.len() as int))
    } else {
        (t, seq![])
    }
}

/// The phrase a status is written with; one the table does not know is
/// written `Status`.
pub open spec fn reason_text(status: u16) -> Seq<char> {
    if status == 200 {
        "OK"@
    } else if status == 201 {
        "Created"@
    } else if status == 202 {
        "Accepted"@
    } else if status == 204 {
        "No Content"@
    } else if status == 207 {
        "Multi-Status"@
    } else if status == 304 {
        "Not Modified"@
    } else if status == 400 {
        "Bad Request"@
    } else if status == 401 {
        "Unauthorized"@
    } else if status == 403 {
        "Forbidden"@
    } else if status == 404 {
        "Not Found"@
    } else if status == 405 {
        "Method Not Allowed"@
    } else if status == 408 {
        "Request Timeout"@
    } else if status == 409 {
        "Conflict"@
    } else if status == 423 {
        "Locked"@
    } else if status == 429 {
        "Too Many Requests"@
    } else if status == 500 {
        "Internal Server Error"@
    } else if status == 503 {
        "Service Unavailable"@
    } else {
        "Status"@
    }
}

/// The header fields `lines` write: each line with a colon, its name and
/// value trimmed; a line without one is passed over.
pub open spec fn fields_of_lines(lines: Seq<Seq<u8>>) -> Seq<(Seq<u8>, Seq<u8>)>
    decreases lines.len(),
{
    if lines.len() == 0 {
        seq![]
    } else {
        let rest = fields_of_lines(lines.drop_first());
        match field_of(lines[0]) {
            Some(f) => seq![f] + rest,
            None => rest,
        }
    }
}

impl Default for Request {
    /// No method, no path, no query, no headers, no body.
    fn default() -> (r: Self)
        ensures
            r.method@.len() == 0,
            r.path@.len() == 0,
            r.query@.len() == 0,
            r.headers@.len() == 0,
            r.body@.len() == 0,
    {
        Request {
            method: String::new(),
            path: String::new(),
            query: Vec::new(),
            headers: Vec::new(),
            body: Vec::new(),
        }
    }
}

impl Request {
    /// `method` on `path`, no query, no headers, no body.
    pub fn new(method: &str, path: &str) -> (r: Self)
        ensures
            r.method@ == method@,
            r.path@ == path@,
            r.query@.len() == 0,
            r.headers@.len() == 0,
            r.body@.len() == 0,
    {
        Request {
            method: owned(method),
            path: owned(path),
            query: Vec::new(),
            headers: Vec::new(),
            body: Vec::new(),
        }
    }

    /// With one more query parameter.
    pub fn query(self, name: &str, value: &str) -> (r: Self)
        ensures
            r.query@.len() == self.query@.len() + 1,
            r.query@.drop_last() == self.query@,
            r.query@.last().0@ == name@,
            r.query@.last().1@ == value@,
            r.method == self.method,
            r.path == self.path,
            r.headers == self.headers,
            r.body == self.body,
    {
        let mut r = self;
        r.query.push((owned(name), owned(value)));
        proof {
            assert(r.query@.drop_last() =~= self.query@);
        }
        r
    }

    /// With one more header.
    pub fn header(self, name: &str, value: &str) -> (r: Self)
        ensures
            r.headers@.len() == self.headers@.len() + 1,
            r.headers@.drop_last() == self.headers@,
            r.headers@.last().0@ == name@,
            r.headers@.last().1@ == value@,
            r.method == self.method,
            r.path == self.path,
            r.query == self.query,
            r.body == self.body,
    {
        let mut r = self;
        r.headers.push((owned(name), owned(value)));
        proof {
            assert(r.headers@.drop_last() =~= self.headers@);
        }
        r
    }

    /// With `bytes` as the body.
    pub fn body(self, bytes: &[u8]) -> (r: Self)
        ensures
            r.body@ == bytes@,
            r.method == self.method,
            r.path == self.path,
            r.query == self.query,
            r.headers == self.headers,
    {
        let mut r = self;
        r.body = vstd::slice::slice_to_vec(bytes);
        r
    }

    /// One header's value, however it was capitalised.
    pub fn header_value(&self, name: &str) -> (r: Option<&str>)
        ensures
            match r {
                Some(v) => found(field_octets(self.headers@), utf8(name@)) == Some(utf8(v@)),
                None => found(field_octets(self.headers@), utf8(name@)) is None,
            },
    {
        find(self.headers.as_slice(), name)
    }

    /// One query parameter's value.
    pub fn query_value(&self, name: &str) -> (r: Option<&str>)
        ensures
            match r {
                Some(v) => named_from(field_texts(self.query@), name@, 0) == Some(v@),
                None => named_from(field_texts(self.query@), name@, 0) is None,
            },
    {
        let mut k: usize = 0;
        while k < self.query.len()
            invariant
                named_from(field_texts(self.query@), name@, 0) == named_from(
                    field_texts(self.query@),
                    name@,
                    k as int,
                ),
            decreases self.query.len() - k,
        {
            if crate::text::str_equal(self.query[k].0.as_str(), name) {
                return Some(self.query[k].1.as_str());
            }
            k = k + 1;
        }
        None
    }

    /// The request target as the request line carries it: the path, and the
    /// query encoded and joined.
    pub fn target(&self) -> (r: String)
        ensures
            utf8(r@) == target_of(utf8(self.path@), field_octets(self.query@)),
    {
        if self.query.len() == 0 {
            return self.path.clone();
        }
        let mut out: Vec<u8> = Vec::new();
        push_str(&mut out, self.path.as_str());
        out.push(0x3f);
        let ghost start = out@;
        let ghost q = field_octets(self.query@);
        let mut k: usize = 0;
        while k < self.query.len()
            invariant
                q == field_octets(self.query@),
                0 < q.len(),
                k <= q.len(),
                out@ == start + if k == 0 {
                    Seq::<u8>::empty()
                } else {
                    joined(q.subrange(0, k as int))
                },
            decreases self.query.len() - k,
        {
            proof {
                lemma_joined_push(q.subrange(0, k as int), q[k as int]);
                assert(q.subrange(0, k + 1) =~= q.subrange(0, k as int).push(q[k as int]));
                if k == 0 {
                    assert(q.subrange(0, 1) =~= seq![q[0]]);
                }
            }
            if k > 0 {
                out.push(0x26);
            }
            push_str(&mut out, encode(self.query[k].0.as_str(), false).as_str());
            out.push(0x3d);
            push_str(&mut out, encode(self.query[k].1.as_str(), false).as_str());
            k = k + 1;
            proof {
                assert(out@ =~= start + joined(q.subrange(0, k as int)));
            }
        }
        proof {
            assert(q.subrange(0, q.len() as int) =~= q);
            crate::percent::law_encoded_is_ascii(utf8(self.path@), false);
            lemma_joined_ascii(q);
            crate::ascii::lemma_ascii_valid(seq![0x3fu8] + joined(q));
            assert(out@ =~= utf8(self.path@) + (seq![0x3fu8] + joined(q)));
        }
        string_of(out)
    }
}

proof fn lemma_joined_push(q: Seq<(Seq<u8>, Seq<u8>)>, f: (Seq<u8>, Seq<u8>))
    ensures
        joined(q.push(f)) == if q.len() == 0 {
            query_piece(f)
        } else {
            joined(q) + seq![0x26u8] + query_piece(f)
        },
    decreases q.len(),
{
    if q.len() == 0 {
        assert(q.push(f) =~= seq![f]);
    } else if q.len() == 1 {
        assert(q.push(f).drop_first() =~= seq![f]);
        assert(joined(seq![f]) == query_piece(f));
        assert(q.push(f)[0] == q[0]);
    } else if q.len() > 1 {
        lemma_joined_push(q.drop_first(), f);
        assert(q.push(f).drop_first() =~= q.drop_first().push(f));
        assert(q.push(f)[0] == q[0]);
        assert(joined(q.push(f)) =~= joined(q) + seq![0x26u8] + query_piece(f));
    }
}

proof fn lemma_joined_ascii(q: Seq<(Seq<u8>, Seq<u8>)>)
    ensures
        crate::ascii::all_ascii(joined(q)),
    decreases q.len(),
{
    if q.len() > 0 {
        crate::percent::law_encoded_is_ascii(q[0].0, false);
        crate::percent::law_encoded_is_ascii(q[0].1, false);
        let p = query_piece(q[0]);
        assert(crate::ascii::all_ascii(p)) by {
            let a = encoded(q[0].0, false);
            let b = encoded(q[0].1, false);
            assert forall|i: int| 0 <= i < p.len() implies #[trigger] p[i] < 0x80 by {
                if i < a.len() {
                    assert(p[i] == a[i]);
                } else if i > a.len() {
                    assert(p[i] == b[i - a.len() - 1]);
                }
            }
        }
        if q.len() > 1 {
            lemma_joined_ascii(q.drop_first());
            let r = joined(q.drop_first());
            let w = joined(q);
            assert forall|i: int| 0 <= i < w.len() implies #[trigger] w[i] < 0x80 by {
                if i < p.len() {
                    assert(w[i] == p[i]);
                } else if i > p.len() {
                    assert(w[i] == r[i - p.len() - 1]);
                }
            }
        }
    }
}

/// One header's value, however the peer capitalised it.
pub fn find<'a>(headers: &'a [(String, String)], name: &str) -> (r: Option<&'a str>)
    ensures
        match r {
            Some(v) => found(field_octets(headers@), utf8(name@)) == Some(utf8(v@)),
            None => found(field_octets(headers@), utf8(name@)) is None,
        },
{
    let mut k: usize = 0;
    while k < headers.len()
        invariant
            found(field_octets(headers@), utf8(name@)) == found_from(
                field_octets(headers@),
                utf8(name@),
                k as int,
            ),
        decreases headers.len() - k,
    {
        if crate::ascii::eq_ignore_case(headers[k].0.as_str().as_bytes(), name.as_bytes()) {
            return Some(headers[k].1.as_str());
        }
        k = k + 1;
    }
    None
}

/// A request target as its path, still encoded, and its query decoded —
/// what the request line carries in HTTP/1.1 and `:path` in HTTP/2.
pub fn split_target(target: &str) -> (r: (String, Vec<(String, String)>))
    ensures
        utf8(r.0@) == target_parts(utf8(target@)).0,
        field_texts(r.1@) == query_pairs(target_parts(utf8(target@)).1, 0),
{
    let t = target.as_bytes();
    let ghost tb = t@;
    let q = find_from(t, 0x3f, 0);
    proof {
        lemma_index_of(tb, 0x3f, 0);
    }
    let (path, query) = if q < t.len() {
        proof {
            lemma_cuttable_ascii(tb, q as int);
        }
        let (path, _) = cut(target, q);
        let (_, query) = cut(target, q + 1);
        (path, query)
    } else {
        proof {
            reveal_strlit("");
            assert(utf8(""@) =~= Seq::<u8>::empty());
        }
        (target, "")
    };
    let qb = query.as_bytes();
    let ghost qs = qb@;
    proof {
        assert(qs == target_parts(tb).1);
    }
    let mut pairs: Vec<(String, String)> = Vec::new();
    let mut i: usize = 0;
    while i < qb.len()
        invariant
            qs == qb@,
            qs == utf8(query@),
            i <= qs.len(),
            i == 0 || i == qs.len() || qs[i - 1] == 0x26,
            query_pairs(qs, 0) == field_texts(pairs@) + query_pairs(qs, i as int),
        decreases qb.len() - i,
    {
        let end = find_from(qb, 0x26, i);
        proof {
            lemma_index_of(qs, 0x26, i as int);
            lemma_cuttable_ascii_or_end(qs, i as int);
            if end < qs.len() {
                lemma_cuttable_ascii(qs, end as int);
            }
        }
        let next = if end < qb.len() {
            end + 1
        } else {
            qb.len()
        };
        if end > i {
            let segment = crate::ascii::piece_of(query, i, end);
            let sb = segment.as_bytes();
            let eq = find_from(sb, 0x3d, 0);
            proof {
                lemma_index_of(sb@, 0x3d, 0);
            }
            let pair = if eq < sb.len() {
                proof {
                    lemma_cuttable_ascii(sb@, eq as int);
                }
                let (name, _) = cut(segment, eq);
                let (_, value) = cut(segment, eq + 1);
                (decode(name), decode(value))
            } else {
                proof {
                    reveal_strlit("");
            assert(utf8(""@) =~= Seq::<u8>::empty());
                }
                (decode(segment), decode(""))
            };
            proof {
                let before = field_texts(pairs@);
                let after = field_texts(pairs@.push(pair));
                assert(after =~= before.push((pair.0@, pair.1@)));
                assert(before + (seq![pair_of(sb@)] + query_pairs(qs, next as int)) =~= after
                    + query_pairs(qs, next as int));
            }
            pairs.push(pair);
        } else {
            proof {
                assert(qs.subrange(i as int, end as int) =~= Seq::<u8>::empty());
            }
        }
        proof {
            if end >= qs.len() {
                assert(query_pairs(qs, next as int) =~= Seq::<(Seq<char>, Seq<char>)>::empty());
            }
        }
        i = next;
    }
    proof {
        assert(field_texts(pairs@) + Seq::<(Seq<char>, Seq<char>)>::empty() =~= field_texts(
            pairs@,
        ));
    }
    (owned(path), pairs)
}

proof fn lemma_cuttable_ascii_or_end(s: Seq<u8>, i: int)
    requires
        valid_utf8(s),
        0 <= i <= s.len(),
        i == 0 || i == s.len() || (s[i - 1] < 0x80),
    ensures
        crate::ascii::cuttable(s, i),
{
    if i > 0 && i < s.len() {
        lemma_cuttable_ascii(s, i - 1);
    }
}

/// The phrase a status is written with; one the table does not know is
/// written `Status`, which a reader ignores.
pub fn reason(status: u16) -> (r: &'static str)
    ensures
        r@ == reason_text(status),
{
    match status {
        200 => "OK",
        201 => "Created",
        202 => "Accepted",
        204 => "No Content",
        207 => "Multi-Status",
        304 => "Not Modified",
        400 => "Bad Request",
        401 => "Unauthorized",
        403 => "Forbidden",
        404 => "Not Found",
        405 => "Method Not Allowed",
        408 => "Request Timeout",
        409 => "Conflict",
        423 => "Locked",
        429 => "Too Many Requests",
        500 => "Internal Server Error",
        503 => "Service Unavailable",
        _ => "Status",
    }
}

/// Header lines as names and values.
pub fn headers_of(lines: &[String]) -> (r: Vec<(String, String)>)
    ensures
        field_octets(r@) == fields_of_lines(octets_of(lines@)),
{
    let mut fields: Vec<(String, String)> = Vec::new();
    let mut i: usize = 0;
    proof {
        assert(octets_of(lines@).subrange(0, lines@.len() as int) =~= octets_of(lines@));
        assert(field_octets(fields@) =~= Seq::<(Seq<u8>, Seq<u8>)>::empty());
        assert(Seq::<(Seq<u8>, Seq<u8>)>::empty() + fields_of_lines(octets_of(lines@)) =~= fields_of_lines(octets_of(lines@)));
    }
    while i < lines.len()
        invariant
            i <= lines@.len(),
            fields_of_lines(octets_of(lines@)) == field_octets(fields@) + fields_of_lines(
                octets_of(lines@).subrange(i as int, lines@.len() as int),
            ),
        decreases lines.len() - i,
    {
        let ghost rest = octets_of(lines@).subrange(i as int, lines@.len() as int);
        proof {
            assert(rest[0] == utf8(lines@[i as int]@));
            assert(rest.drop_first() =~= octets_of(lines@).subrange(i + 1, lines@.len() as int));
        }
        if let Some((name, value)) = field(lines[i].as_str()) {
            let f = (owned(name), owned(value));
            proof {
                assert(field_octets(fields@.push(f)) =~= field_octets(fields@).push(
                    (utf8(name@), utf8(value@)),
                ));
                assert(field_octets(fields@) + (seq![(utf8(name@), utf8(value@))]
                    + fields_of_lines(rest.drop_first())) =~= field_octets(fields@.push(f))
                    + fields_of_lines(rest.drop_first()));
            }
            fields.push(f);
        }
        i = i + 1;
    }
    proof {
        assert(octets_of(lines@).subrange(lines@.len() as int, lines@.len() as int) =~= Seq::<
            Seq<u8>,
        >::empty());
        assert(field_octets(fields@) + Seq::<(Seq<u8>, Seq<u8>)>::empty() =~= field_octets(
            fields@,
        ));
    }
    fields
}

/// An answer as its parts are read: the status, the phrase, the headers,
/// the body and the trailers.
pub struct Answer {
    pub status: u16,
    pub reason: Seq<u8>,
    pub headers: Seq<(Seq<u8>, Seq<u8>)>,
    pub body: Seq<u8>,
    pub trailers: Seq<(Seq<u8>, Seq<u8>)>,
}

/// `response` as its parts.
pub open spec fn answer_view(response: Response) -> Answer {
    Answer {
        status: response.status,
        reason: utf8(response.reason@),
        headers: field_octets(response.headers@),
        body: response.body@,
        trailers: field_octets(response.trailers@),
    }
}

/// Why an answer is refused.
pub enum AnswerRefusal {
    /// Its head is refused.
    Head(crate::head::HeadRefusal),
    /// The octets ended before an answer began.
    Closed,
    /// Its first line, this one, is not an HTTP/1.x status line.
    NotHttp(Seq<u8>),
    /// Its body is refused.
    Body(body::BodyRefusal),
}

/// The status and the phrase an HTTP/1.x status line carries: `HTTP/1.`,
/// a minor version, a space, three digits, and the phrase after the next
/// space, where there is one.
pub open spec fn status_line(line: Seq<u8>) -> Option<(u16, Seq<u8>)> {
    let prefix = utf8("HTTP/1."@);
    if line.len() < prefix.len() || line.subrange(0, prefix.len() as int) != prefix {
        None
    } else {
        let r = line.subrange(prefix.len() as int, line.len() as int);
        let p1 = index_of(r, 0x20, 0);
        if p1 >= r.len() {
            None
        } else {
            let p2 = index_of(r, 0x20, p1 + 1);
            let code = r.subrange(p1 + 1, p2);
            if code.len() != 3 || crate::ascii::unsigned(code, 65535) is None {
                None
            } else {
                Some(
                    (
                        crate::ascii::unsigned(code, 65535)->Some_0 as u16,
                        if p2 < r.len() {
                            r.subrange(p2 + 1, r.len() as int)
                        } else {
                            seq![]
                        },
                    ),
                )
            }
        }
    }
}

/// Whether an answer of `status` has no body at all: a 1xx, a 204, a 304.
pub open spec fn bodiless(status: u16) -> bool {
    status < 200 || status == 204 || status == 304
}

/// The answer at the start of `s`, and how many octets it took.
pub open spec fn answer_of(s: Seq<u8>) -> Result<(Answer, int), AnswerRefusal> {
    match crate::head::head_of(s) {
        Err(why) => Err(AnswerRefusal::Head(why)),
        Ok((lines, end)) => if lines.len() == 0 {
            Err(AnswerRefusal::Closed)
        } else {
            match status_line(lines[0]) {
                None => Err(AnswerRefusal::NotHttp(lines[0])),
                Some((status, phrase)) => {
                    let framed = if bodiless(status) {
                        Ok((Seq::<u8>::empty(), Seq::<Seq<u8>>::empty(), 0int))
                    } else {
                        body::body_of(s.subrange(end, s.len() as int), lines, true)
                    };
                    match framed {
                        Err(why) => Err(AnswerRefusal::Body(why)),
                        Ok((content, trailer, used)) => Ok(
                            (
                                Answer {
                                    status,
                                    reason: phrase,
                                    headers: fields_of_lines(lines.drop_first()),
                                    body: content,
                                    trailers: fields_of_lines(trailer),
                                },
                                end + used,
                            ),
                        ),
                    }
                },
            }
        },
    }
}

/// Whether an answer was refused only because its body had not all
/// arrived: more octets may make it whole.
pub open spec fn answer_short(why: AnswerRefusal) -> bool {
    why matches AnswerRefusal::Body(body::BodyRefusal::Short(_))
}

/// What a refused answer is reported with.
pub open spec fn answer_message(why: AnswerRefusal) -> Seq<u8> {
    match why {
        AnswerRefusal::Head(h) => utf8(crate::head::head_message(h)),
        AnswerRefusal::Closed => utf8("the connection closed before an answer"@),
        AnswerRefusal::NotHttp(line) => utf8("what came back is not an HTTP answer: "@) + line,
        AnswerRefusal::Body(b) => body::refusal_message(b),
    }
}

/// A request as its parts are read.
pub struct Asked {
    pub method: Seq<u8>,
    pub path: Seq<u8>,
    pub query: Seq<(Seq<char>, Seq<char>)>,
    pub headers: Seq<(Seq<u8>, Seq<u8>)>,
    pub body: Seq<u8>,
}

/// `request` as its parts.
pub open spec fn asked_view(request: Request) -> Asked {
    Asked {
        method: utf8(request.method@),
        path: utf8(request.path@),
        query: field_texts(request.query@),
        headers: field_octets(request.headers@),
        body: request.body@,
    }
}

/// Why a request is refused.
pub enum AskedRefusal {
    /// Its head is refused.
    Head(crate::head::HeadRefusal),
    /// Its request line, this one, has no method and target.
    Line(Seq<u8>),
    /// Its body is refused.
    Body(body::BodyRefusal),
}

/// The method and the target of a request line: its first two words.
pub open spec fn request_line(line: Seq<u8>) -> Option<(Seq<u8>, Seq<u8>)> {
    let a = crate::ascii::skip_white(line, 0);
    let b = crate::ascii::word_end(line, a);
    let c = crate::ascii::skip_white(line, b);
    let d = crate::ascii::word_end(line, c);
    if a >= line.len() || c >= line.len() {
        None
    } else {
        Some((line.subrange(a, b), line.subrange(c, d)))
    }
}

/// The request at the start of `s` — `None` where the octets end first —
/// and how many octets it took.
pub open spec fn asked_of(s: Seq<u8>) -> Result<(Option<Asked>, int), AskedRefusal> {
    match crate::head::head_of(s) {
        Err(why) => Err(AskedRefusal::Head(why)),
        Ok((lines, end)) => if lines.len() == 0 {
            Ok((None, end))
        } else {
            match request_line(lines[0]) {
                None => Err(AskedRefusal::Line(lines[0])),
                Some((method, target)) => match body::body_of(
                    s.subrange(end, s.len() as int),
                    lines,
                    false,
                ) {
                    Err(why) => Err(AskedRefusal::Body(why)),
                    Ok((content, _, used)) => Ok(
                        (
                            Some(
                                Asked {
                                    method,
                                    path: target_parts(target).0,
                                    query: query_pairs(target_parts(target).1, 0),
                                    headers: fields_of_lines(lines.drop_first()),
                                    body: content,
                                },
                            ),
                            end + used,
                        ),
                    ),
                },
            }
        },
    }
}

/// What a refused request is reported with.
pub open spec fn asked_message(why: AskedRefusal) -> Seq<u8> {
    match why {
        AskedRefusal::Head(h) => utf8(crate::head::head_message(h)),
        AskedRefusal::Line(line) => utf8("a request line Xmip cannot read: "@) + line,
        AskedRefusal::Body(b) => body::refusal_message(b),
    }
}

/// The request line of `request`: its method, its target and the version.
pub open spec fn request_first(request: Request) -> Seq<u8> {
    utf8(request.method@) + seq![0x20u8] + target_of(utf8(request.path@), field_octets(request.query@))
        + utf8(" HTTP/1.1"@)
}

/// The status line of `response`: the version, the status, and its
/// phrase, or the table's where it has none.
pub open spec fn response_first(response: Response) -> Seq<u8> {
    utf8("HTTP/1.1 "@) + crate::ascii::decimal(response.status as nat) + seq![0x20u8] + if response.reason@.len() == 0 {
        utf8(reason_text(response.status))
    } else {
        utf8(response.reason@)
    }
}

/// Write `request`: its request line, its headers, the length its body
/// has, and `Connection: close` unless it names its own `Connection`.
pub fn write_request(writer: &mut Vec<u8>, request: &Request) -> (r: Result<(), crate::NetError>)
    ensures
        r is Ok,
        final(writer)@ == old(writer)@ + message::message_octets(
            request_first(*request),
            field_octets(request.headers@),
            request.body@,
            Seq::empty(),
        ),
{
    let mut first: Vec<u8> = Vec::new();
    push_str(&mut first, request.method.as_str());
    first.push(0x20);
    push_str(&mut first, request.target().as_str());
    push_str(&mut first, " HTTP/1.1");
    let none: Vec<(String, String)> = Vec::new();
    proof {
        assert(first@ =~= request_first(*request));
        assert(field_octets(none@) =~= Seq::<(Seq<u8>, Seq<u8>)>::empty());
    }
    message::write_message(writer, first.as_slice(), request.headers.as_slice(), request.body.as_slice(), none.as_slice());
    Ok(())
}

/// Write `response` as [`write_request`] writes a request; an answer with
/// trailers goes chunked, the trailer after its last chunk.
pub fn write_response(writer: &mut Vec<u8>, response: &Response) -> (r: Result<(), crate::NetError>)
    ensures
        r is Ok,
        final(writer)@ == old(writer)@ + message::message_octets(
            response_first(*response),
            field_octets(response.headers@),
            response.body@,
            field_octets(response.trailers@),
        ),
{
    let mut first: Vec<u8> = Vec::new();
    push_str(&mut first, "HTTP/1.1 ");
    crate::ascii::push_decimal(&mut first, response.status as u64);
    first.push(0x20);
    if response.reason.as_str().as_bytes().len() == 0 {
        push_str(&mut first, reason(response.status));
    } else {
        push_str(&mut first, response.reason.as_str());
    }
    proof {
        assert(response.reason@.len() == 0 <==> utf8(response.reason@).len() == 0) by {
            if response.reason@.len() > 0 {
                vstd::utf8::encode_utf8_first_scalar(response.reason@);
            }
        }
        assert(first@ =~= response_first(*response));
    }
    message::write_message(writer, first.as_slice(), response.headers.as_slice(), response.body.as_slice(), response.trailers.as_slice());
    Ok(())
}

/// Read one answer off the octets `reader` holds, taking what it read.
///
/// # Errors
///
/// Octets that end before an answer, a status line that is not HTTP/1.x,
/// a transfer coding other than chunked, a broken chunk, or a body over
/// [`MAX_BODY`] or shorter than its `Content-Length`; `reader` is left as
/// it was.
pub fn read_response(reader: &mut &[u8]) -> (r: Result<Response, crate::NetError>)
    ensures
        match r {
            Ok(response) => answer_of(old(reader)@) matches Ok((answer, used)) && answer_view(response)
                == answer && final(reader)@ == old(reader)@.subrange(used, old(reader)@.len() as int),
            Err(e) => answer_of(old(reader)@) matches Err(why) && utf8(e.message@) == answer_message(why)
                && final(reader)@ == old(reader)@ && (e.io is Some <==> answer_short(why)),
        },
{
    let input: &[u8] = *reader;
    let (head, end) = match crate::head::read_head(input) {
        Ok(read) => read,
        Err(failed) => {
            proof {
                crate::text::lemma_utf8_of_text(failed.message@);
            }
            return Err(failed);
        },
    };
    if head.len() == 0 {
        return Err(crate::NetError::new(owned("the connection closed before an answer")));
    }
    let line = head[0].as_str();
    let lb = line.as_bytes();
    proof {
        assert(crate::head::octets_of(head@)[0] == lb@);
    }
    let status_and_phrase = status_of(line);
    let (status, phrase) = match status_and_phrase {
        Some(found) => found,
        None => {
            let mut out: Vec<u8> = Vec::new();
            push_str(&mut out, "what came back is not an HTTP answer: ");
            proof {
                assert(valid_utf8(utf8("what came back is not an HTTP answer: "@)));
            }
            push_str(&mut out, line);
            return Err(crate::NetError::new(string_of(out)));
        },
    };
    proof {
        crate::head::lemma_head_bounds(input@, 0, 0);
    }
    let rest = vstd::slice::slice_subrange(input, end, input.len());
    proof {
        body::lemma_body_bounds(rest@, crate::head::octets_of(head@), true);
    }
    let (content, trailer, used) = if status < 200 || status == 204 || status == 304 {
        let none: Vec<String> = Vec::new();
        let nothing: Vec<u8> = Vec::new();
        proof {
            assert(crate::head::octets_of(none@) =~= Seq::<Seq<u8>>::empty());
            assert(nothing@ =~= Seq::<u8>::empty());
        }
        (nothing, none, 0usize)
    } else {
        match body::read(rest, head.as_slice(), true) {
            Ok(read) => read,
            Err(failed) => {
                return Err(failed);
            },
        }
    };
    let headers = headers_of(vstd::slice::slice_subrange(head.as_slice(), 1, head.len()));
    let trailers = headers_of(trailer.as_slice());
    proof {
        assert(crate::head::octets_of(head@.subrange(1, head@.len() as int)) =~= crate::head::octets_of(head@).drop_first());
    }
    *reader = vstd::slice::slice_subrange(input, end + used, input.len());
    Ok(Response { status, reason: phrase, headers, body: content, trailers })
}

/// The status and the phrase of an HTTP/1.x status line.
fn status_of(line: &str) -> (r: Option<(u16, String)>)
    ensures
        match r {
            Some((status, phrase)) => status_line(utf8(line@)) == Some((status, utf8(phrase@))),
            None => status_line(utf8(line@)) is None,
        },
{
    let lb = line.as_bytes();
    let ghost l = lb@;
    proof {
        reveal_strlit("HTTP/1.");
        crate::ascii::lemma_ascii_text("HTTP/1."@);
    }
    if !crate::ascii::starts_with(lb, "HTTP/1.".as_bytes()) {
        return None;
    }
    proof {
        assert(l[6] == utf8("HTTP/1."@)[6]);
        lemma_cuttable_ascii(l, 6);
    }
    let (_, r) = cut(line, 7);
    let rb = r.as_bytes();
    let ghost rs = rb@;
    let p1 = find_from(rb, 0x20, 0);
    proof {
        lemma_index_of(rs, 0x20, 0);
    }
    if p1 >= rb.len() {
        return None;
    }
    let p2 = find_from(rb, 0x20, p1 + 1);
    proof {
        lemma_index_of(rs, 0x20, p1 + 1);
        lemma_cuttable_ascii(rs, p1 as int);
        if p2 < rs.len() {
            lemma_cuttable_ascii(rs, p2 as int);
        }
    }
    let code = vstd::slice::slice_subrange(rb, p1 + 1, p2);
    if code.len() != 3 {
        return None;
    }
    let status = match crate::authority::port_of(code) {
        Some(status) => status,
        None => {
            return None;
        },
    };
    let phrase = if p2 < rb.len() {
        let (_, after) = cut(r, p2 + 1);
        owned(after)
    } else {
        proof {
            reveal_strlit("");
            assert(utf8(""@) =~= Seq::<u8>::empty());
        }
        owned("")
    };
    Some((status, phrase))
}

/// The answering side: one request off the octets `reader` holds, taking
/// what it read, or `None` where they end before one.
///
/// # Errors
///
/// A head that is refused, a request line without a method and a target,
/// or a body that is broken or over [`MAX_BODY`]; `reader` is left as it
/// was.
pub fn read_request(reader: &mut &[u8]) -> (r: Result<Option<Request>, crate::NetError>)
    ensures
        match r {
            Ok(request) => asked_of(old(reader)@) matches Ok((asked, used)) && (match request {
                Some(request) => asked == Some(asked_view(request)),
                None => asked is None,
            }) && final(reader)@ == old(reader)@.subrange(used, old(reader)@.len() as int),
            Err(e) => asked_of(old(reader)@) matches Err(why) && utf8(e.message@) == asked_message(why)
                && final(reader)@ == old(reader)@,
        },
{
    let input: &[u8] = *reader;
    let (head, end) = match crate::head::read_head(input) {
        Ok(read) => read,
        Err(failed) => {
            proof {
                crate::text::lemma_utf8_of_text(failed.message@);
            }
            return Err(failed);
        },
    };
    proof {
        crate::head::lemma_head_bounds(input@, 0, 0);
    }
    if head.len() == 0 {
        *reader = vstd::slice::slice_subrange(input, end, input.len());
        return Ok(None);
    }
    let line = head[0].as_str();
    let lb = line.as_bytes();
    let ghost l = lb@;
    proof {
        assert(crate::head::octets_of(head@)[0] == l);
        crate::ascii::lemma_skip_white(l, 0);
    }
    let a = crate::ascii::skip_white_from(lb, 0);
    let b = if a < lb.len() { crate::ascii::word_end_from(lb, a) } else { a };
    proof {
        crate::ascii::lemma_word_end(l, a as int);
        crate::ascii::lemma_skip_white(l, b as int);
    }
    let c = crate::ascii::skip_white_from(lb, b);
    let d = if c < lb.len() { crate::ascii::word_end_from(lb, c) } else { c };
    proof {
        crate::ascii::lemma_word_end(l, c as int);
    }
    if a >= lb.len() || c >= lb.len() {
        let mut out: Vec<u8> = Vec::new();
        push_str(&mut out, "a request line Xmip cannot read: ");
        proof {
            assert(valid_utf8(utf8("a request line Xmip cannot read: "@)));
        }
        push_str(&mut out, line);
        return Err(crate::NetError::new(string_of(out)));
    }
    let method = crate::ascii::piece_of(line, a, b);
    let target = crate::ascii::piece_of(line, c, d);
    let (path, query) = split_target(target);
    proof {
        crate::head::lemma_head_bounds(input@, 0, 0);
    }
    let rest = vstd::slice::slice_subrange(input, end, input.len());
    proof {
        body::lemma_body_bounds(rest@, crate::head::octets_of(head@), false);
    }
    let (content, _, used) = match body::read(rest, head.as_slice(), false) {
        Ok(read) => read,
        Err(failed) => {
            return Err(failed);
        },
    };
    let headers = headers_of(vstd::slice::slice_subrange(head.as_slice(), 1, head.len()));
    proof {
        assert(crate::head::octets_of(head@.subrange(1, head@.len() as int)) =~= crate::head::octets_of(head@).drop_first());
    }
    *reader = vstd::slice::slice_subrange(input, end + used, input.len());
    Ok(Some(Request { method: owned(method), path, query, headers, body: content }))
}

/// Whether a blank line stands at `i` of `s`: at a line's start, a line
/// feed alone or after a carriage return.
pub open spec fn blank_at(s: Seq<u8>, i: int) -> bool {
    &&& 0 <= i < s.len()
    &&& (i == 0 || s[i - 1] == crate::head::LF)
    &&& (s[i] == crate::head::LF || (s[i] == crate::head::CR && i + 1 < s.len() && s[i + 1]
        == crate::head::LF))
}

/// Whether a blank line in `s` has ended a head.
pub open spec fn head_closed(s: Seq<u8>) -> bool {
    exists|i: int| blank_at(s, i)
}

/// Whether the answer at the start of `s` has a body that only the
/// connection's end ends: a status that has a body, and neither chunks
/// nor a length named.
pub open spec fn reads_to_end(s: Seq<u8>) -> bool {
    &&& crate::head::head_of(s) matches Ok((lines, _))
    &&& lines.len() > 0
    &&& status_line(lines[0]) matches Some((status, _))
    &&& !bodiless(status)
    &&& crate::head::header_from(lines, utf8("transfer-encoding"@), 1) is None
    &&& crate::head::header_from(lines, utf8("content-length"@), 1) is None
}

/// Whether `r` is what reading `s` as an answer gives.
pub open spec fn answer_given(s: Seq<u8>, r: Result<Response, crate::NetError>) -> bool {
    match r {
        Ok(response) => answer_of(s) matches Ok((answer, _)) && answer_view(response) == answer,
        Err(e) => answer_of(s) matches Err(why) && utf8(e.message@) == answer_message(why),
    }
}

/// Whether a blank line in `s` has ended a head.
fn closes_a_head(s: &[u8]) -> (r: bool)
    ensures
        r == head_closed(s@),
{
    let mut i: usize = 0;
    while i < s.len()
        invariant
            i <= s@.len(),
            forall|j: int| 0 <= j < i ==> !blank_at(s@, j),
        decreases s.len() - i,
    {
        let starts = i == 0 || s[i - 1] == crate::head::LF;
        if starts && (s[i] == crate::head::LF || (s[i] == crate::head::CR && i + 1 < s.len() && s[i + 1]
            == crate::head::LF)) {
            assert(blank_at(s@, i as int));
            return true;
        }
        i = i + 1;
    }
    false
}

/// Whether the answer at the start of `s` has a body that only the
/// connection's end ends.
fn ends_with_the_connection(s: &[u8]) -> (r: bool)
    ensures
        r == reads_to_end(s@),
{
    let lines = match crate::head::read_head(s) {
        Ok((lines, _)) => lines,
        Err(_) => return false,
    };
    if lines.len() == 0 {
        return false;
    }
    let status = match status_of(lines[0].as_str()) {
        Some((status, _)) => status,
        None => return false,
    };
    proof {
        assert(octets_of(lines@)[0] == utf8(lines@[0]@));
    }
    if status < 200 || status == 204 || status == 304 {
        return false;
    }
    crate::head::header(lines.as_slice(), "transfer-encoding").is_none()
        && crate::head::header(lines.as_slice(), "content-length").is_none()
}

/// The answer the octets read so far hold, or `None` where more are to be
/// read first: the connection has not `ended`, and no blank line has ended
/// the head yet, or the body has not all arrived, or it is one that only
/// the connection's end ends. Once the connection has ended, what the
/// octets give.
///
/// # Errors
///
/// As [`read_response`].
pub fn answer_so_far(octets: &[u8], ended: bool) -> (r: Option<Result<Response, crate::NetError>>)
    ensures
        r is None <==> (!ended && (!head_closed(octets@) || (answer_of(octets@) matches Err(why)
            && answer_short(why)) || (answer_of(octets@) is Ok && reads_to_end(octets@)))),
        r matches Some(read) ==> answer_given(octets@, read),
{
    if !ended && !closes_a_head(octets) {
        return None;
    }
    let mut reader = octets;
    let read = read_response(&mut reader);
    if !ended {
        match &read {
            Ok(_) => {
                if ends_with_the_connection(octets) {
                    return None;
                }
            },
            Err(e) => {
                if e.io.is_some() {
                    return None;
                }
            },
        }
    }
    Some(read)
}

/// An answer that has no body — `304 Not Modified`, the answer to a
/// conditional request; `204 No Content`; an informational `1xx` — is read
/// as its head alone, whatever length or coding the head names: its body
/// and trailers are empty, and the octets taken end at the blank line after
/// the head, what follows left for the next answer on the connection.
pub proof fn law_bodiless_answers_end_at_their_head(s: Seq<u8>)
    requires
        crate::head::head_of(s) matches Ok((lines, _)) && lines.len() > 0 && (status_line(lines[0]) matches Some((status, _))
            && (status == 304 || status == 204 || status < 200)),
    ensures
        answer_of(s) matches Ok((answer, used)) && answer.body.len() == 0 && answer.trailers.len() == 0
            && (crate::head::head_of(s) matches Ok((_, end)) && used == end),
{
    assert(fields_of_lines(Seq::<Seq<u8>>::empty()).len() == 0);
}

/// An answer with a body, framed by a `Content-Length` of `n` and no
/// transfer coding, is read as its head and the next `n` octets: its body
/// is those octets, and what follows them is left for the next answer.
pub proof fn law_length_frames_the_body(s: Seq<u8>)
    requires
        crate::head::head_of(s) matches Ok((lines, end)) && lines.len() > 0 && (status_line(lines[0])
            matches Some((status, _)) && status >= 200 && status != 204 && status != 304)
            && crate::head::header_from(lines, utf8("transfer-encoding"@), 1) is None
            && (crate::head::header_from(lines, utf8("content-length"@), 1) matches Some(v)
            && crate::ascii::all_digits(v) && crate::ascii::decimal_value(v) <= MAX_BODY && end
            + crate::ascii::decimal_value(v) <= s.len()),
    ensures
        crate::head::head_of(s) matches Ok((_, end)) && (crate::head::header_from(
            crate::head::head_of(s)->Ok_0.0,
            utf8("content-length"@),
            1,
        ) matches Some(v) && (answer_of(s) matches Ok((answer, used)) && answer.body == s.subrange(
            end,
            end + crate::ascii::decimal_value(v),
        ) && used == end + crate::ascii::decimal_value(v))),
{
    let (lines, end) = crate::head::head_of(s)->Ok_0;
    crate::head::lemma_head_bounds(s, 0, 0);
    let v = crate::head::header_from(lines, utf8("content-length"@), 1)->Some_0;
    let n = crate::ascii::decimal_value(v);
    let rest = s.subrange(end, s.len() as int);
    assert(rest.subrange(0, n as int) =~= s.subrange(end, end + n));
}

} // verus!
