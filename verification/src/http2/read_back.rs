//! A request sent as the fields of an HTTP/2 head reads back, with its
//! body, as the request that was sent.

use vstd::prelude::*;

use super::message::{
    answered, carried_fields, gathered, is_pseudo, request_head, request_read, travels, Gathered,
    RequestFault,
};
use crate::ascii::{
    decimal, lemma_ascii_text, lemma_decimal_ascii, lemma_decimal_value, lower, lower_all,
    same_letters, unsigned, unsigned_digits,
};
use crate::http::Response;
use crate::http::round_trip::{lemma_query_texts, lemma_target_parts};
use crate::http::{field_octets, field_texts, found, found_from, target_of, Asked, Request};
use crate::text::{lemma_utf8_injective, utf8};

verus! {

/// The `Host` a request names, as the header HTTP/2 carries it in
/// (`:authority`) reads back: first, named in lowercase.
pub open spec fn host_field(headers: Seq<(Seq<u8>, Seq<u8>)>) -> Seq<(Seq<u8>, Seq<u8>)> {
    match found(headers, utf8("host"@)) {
        Some(host) => seq![(utf8("host"@), host)],
        None => seq![],
    }
}

/// Whether a request travels as HTTP/2 and reads back as itself: its path
/// holds no `?`, and it has a path or a query; none of its headers is
/// named like a pseudo-field; and a `content-length` among the headers
/// that travel is the length of its body.
pub open spec fn travels_back(request: Request) -> bool {
    let path = utf8(request.path@);
    let headers = field_octets(request.headers@);
    &&& forall|k: int| 0 <= k < path.len() ==> #[trigger] path[k] != 0x3f
    &&& path.len() > 0 || request.query@.len() > 0
    &&& forall|k: int| 0 <= k < headers.len() ==> !is_pseudo(#[trigger] headers[k].0)
    &&& match found(carried_fields(headers), utf8("content-length"@)) {
        Some(length) => unsigned(length, usize::MAX as nat) == Some(request.body@.len()),
        None => true,
    }
}

/// The names of the pseudo-fields a request's head opens with.
proof fn lemma_pseudo_names()
    ensures
        is_pseudo(utf8(":method"@)),
        is_pseudo(utf8(":scheme"@)),
        is_pseudo(utf8(":path"@)),
        is_pseudo(utf8(":authority"@)),
        ":method"@ != ":scheme"@,
        ":method"@ != ":path"@,
        ":method"@ != ":authority"@,
        ":scheme"@ != ":path"@,
        ":scheme"@ != ":authority"@,
        ":path"@ != ":authority"@,
        utf8("host"@).len() == 4,
        utf8("content-length"@).len() == 14,
{
    reveal_strlit(":method");
    reveal_strlit(":scheme");
    reveal_strlit(":path");
    reveal_strlit(":authority");
    reveal_strlit("host");
    reveal_strlit("content-length");
    lemma_ascii_text(":method"@);
    lemma_ascii_text(":scheme"@);
    lemma_ascii_text(":path"@);
    lemma_ascii_text(":authority"@);
    lemma_ascii_text("host"@);
    lemma_ascii_text("content-length"@);
    assert(":method"@[1] != ":scheme"@[1]);
    assert(":method"@.len() != ":path"@.len());
    assert(":method"@.len() != ":authority"@.len());
    assert(":scheme"@.len() != ":path"@.len());
    assert(":scheme"@.len() != ":authority"@.len());
    assert(":path"@.len() != ":authority"@.len());
}

/// Headers none of which is named like a pseudo-field travel as none.
proof fn lemma_carried_not_pseudo(headers: Seq<(Seq<u8>, Seq<u8>)>)
    requires
        forall|k: int| 0 <= k < headers.len() ==> !is_pseudo(#[trigger] headers[k].0),
    ensures
        forall|k: int|
            0 <= k < carried_fields(headers).len() ==> !is_pseudo(#[trigger] carried_fields(headers)[k].0),
    decreases headers.len(),
{
    if headers.len() > 0 {
        let rest = headers.drop_last();
        assert forall|k: int| 0 <= k < rest.len() implies !is_pseudo(#[trigger] rest[k].0) by {
            assert(rest[k] == headers[k]);
        }
        lemma_carried_not_pseudo(rest);
        let name = headers.last().0;
        assert(!is_pseudo(headers[headers.len() - 1].0));
        if name.len() > 0 {
            assert(lower_all(name)[0] == lower(name[0]));
        }
        assert(!is_pseudo(lower_all(name)));
        let f = (lower_all(name), headers.last().1);
        let tail: Seq<(Seq<u8>, Seq<u8>)> = if travels(f) {
            seq![f]
        } else {
            seq![]
        };
        let before = carried_fields(rest);
        assert(carried_fields(headers) == before + tail);
        assert forall|k: int| 0 <= k < carried_fields(headers).len() implies !is_pseudo(
            #[trigger] carried_fields(headers)[k].0,
        ) by {
            if k < before.len() {
                assert(carried_fields(headers)[k] == before[k]);
            } else {
                assert(carried_fields(headers)[k] == f);
            }
        }
    }
}

/// A field in front that is not the one looked for is passed over.
proof fn lemma_found_past(
    first: (Seq<u8>, Seq<u8>),
    rest: Seq<(Seq<u8>, Seq<u8>)>,
    name: Seq<u8>,
    k: int,
)
    requires
        0 <= k,
    ensures
        found_from(seq![first] + rest, name, k + 1) == found_from(rest, name, k),
    decreases rest.len() - k,
{
    let whole = seq![first] + rest;
    if k < rest.len() {
        assert(whole[k + 1] == rest[k]);
        lemma_found_past(first, rest, name, k + 1);
    }
}

/// Regular fields after the head's pseudo-fields add themselves to the
/// headers gathered, in order.
proof fn lemma_gathered_regular(fields: Seq<(String, String)>, n: int, g: Gathered)
    requires
        0 <= n <= fields.len(),
        gathered(fields.take(n)) == Ok::<Gathered, Seq<char>>(g),
        forall|k: int| n <= k < fields.len() ==> !is_pseudo(utf8(#[trigger] fields[k].0@)),
    ensures
        gathered(fields) == Ok::<Gathered, Seq<char>>(
            Gathered { headers: g.headers + field_octets(fields.skip(n)), ..g },
        ),
    decreases fields.len(),
{
    if fields.len() == n {
        assert(fields.take(n) =~= fields);
        assert(field_octets(fields.skip(n)) =~= Seq::<(Seq<u8>, Seq<u8>)>::empty());
        assert(g.headers + field_octets(fields.skip(n)) =~= g.headers);
    } else {
        let shorter = fields.drop_last();
        assert(shorter.take(n) =~= fields.take(n));
        assert forall|k: int| n <= k < shorter.len() implies !is_pseudo(
            utf8(#[trigger] shorter[k].0@),
        ) by {
            assert(shorter[k] == fields[k]);
        }
        lemma_gathered_regular(shorter, n, g);
        let name = fields.last().0@;
        assert(!is_pseudo(utf8(fields[fields.len() - 1].0@)));
        lemma_pseudo_names();
        assert(name != ":method"@ && name != ":scheme"@ && name != ":path"@ && name
            != ":authority"@);
        assert(field_octets(fields.skip(n)) =~= field_octets(shorter.skip(n)).push(
            (utf8(name), utf8(fields.last().1@)),
        ));
        assert(g.headers + field_octets(fields.skip(n)) =~= (g.headers + field_octets(
            shorter.skip(n),
        )).push((utf8(name), utf8(fields.last().1@))));
    }
}

/// The pseudo-fields that open a request's head gather into its method,
/// scheme and path, and its `Host` where `:authority` names one.
#[verifier::rlimit(50)]
#[verifier::spinoff_prover]
proof fn lemma_pseudo_gathered(
    fields: Seq<(String, String)>,
    method: Seq<u8>,
    scheme: Seq<u8>,
    written: Seq<(Seq<u8>, Seq<u8>)>,
    target: Seq<u8>,
    rest: Seq<(Seq<u8>, Seq<u8>)>,
)
    requires
        field_octets(fields) == seq![(utf8(":method"@), method), (utf8(":scheme"@), scheme)] + written
            + seq![(utf8(":path"@), target)] + rest,
        written.len() <= 1,
        written.len() == 1 ==> written[0].0 == utf8(":authority"@),
        target.len() > 0,
    ensures
        gathered(fields.take(3 + written.len() as int)) == Ok::<Gathered, Seq<char>>(
            Gathered {
                method: Some(method),
                scheme: Some(scheme),
                path: Some(target),
                headers: if written.len() == 1 {
                    seq![(utf8("host"@), written[0].1)]
                } else {
                    seq![]
                },
            },
        ),
{
    let head = field_octets(fields);
    let n: int = 3 + written.len() as int;
    lemma_pseudo_names();
    assert(head.len() == fields.len());
    assert(head.len() == n + rest.len());
    assert forall|k: int| 0 <= k < fields.len() implies (utf8(#[trigger] fields[k].0@), utf8(
        fields[k].1@,
    )) == head[k] by {}
    assert(head[0] == (utf8(":method"@), method));
    assert(head[1] == (utf8(":scheme"@), scheme));
    assert(head[n - 1] == (utf8(":path"@), target));
    lemma_utf8_injective(fields[0].0@, ":method"@);
    lemma_utf8_injective(fields[1].0@, ":scheme"@);
    lemma_utf8_injective(fields[n - 1].0@, ":path"@);
    let none = Gathered { method: None, scheme: None, path: None, headers: seq![] };
    let first = Gathered { method: Some(method), ..none };
    let second = Gathered { scheme: Some(scheme), ..first };
    assert(gathered(fields.take(0)) == Ok::<Gathered, Seq<char>>(none));
    assert(fields.take(1).drop_last() =~= fields.take(0));
    assert(gathered(fields.take(1)) == Ok::<Gathered, Seq<char>>(first));
    assert(fields.take(2).drop_last() =~= fields.take(1));
    assert(gathered(fields.take(2)) == Ok::<Gathered, Seq<char>>(second));
    let third = if written.len() == 1 {
        assert(head[2] == written[0]);
        lemma_utf8_injective(fields[2].0@, ":authority"@);
        assert(fields.take(3).drop_last() =~= fields.take(2));
        let with_host = Gathered { headers: seq![(utf8("host"@), written[0].1)], ..second };
        assert(seq![(utf8("host"@), utf8(fields[2].1@))] + second.headers =~= with_host.headers);
        assert(gathered(fields.take(3)) == Ok::<Gathered, Seq<char>>(with_host));
        with_host
    } else {
        second
    };
    assert(gathered(fields.take(n - 1)) == Ok::<Gathered, Seq<char>>(third));
    assert(fields.take(n).drop_last() =~= fields.take(n - 1));
}

/// A head of pseudo-fields and then regular fields gathers into the
/// method, the scheme, the target, the `Host` and the regular fields.
#[verifier::rlimit(50)]
#[verifier::spinoff_prover]
proof fn lemma_fields_gathered(
    fields: Seq<(String, String)>,
    method: Seq<u8>,
    scheme: Seq<u8>,
    written: Seq<(Seq<u8>, Seq<u8>)>,
    target: Seq<u8>,
    rest: Seq<(Seq<u8>, Seq<u8>)>,
)
    requires
        field_octets(fields) == seq![(utf8(":method"@), method), (utf8(":scheme"@), scheme)] + written
            + seq![(utf8(":path"@), target)] + rest,
        written.len() <= 1,
        written.len() == 1 ==> written[0].0 == utf8(":authority"@),
        target.len() > 0,
        forall|k: int| 0 <= k < rest.len() ==> !is_pseudo(#[trigger] rest[k].0),
    ensures
        gathered(fields) == Ok::<Gathered, Seq<char>>(
            Gathered {
                method: Some(method),
                scheme: Some(scheme),
                path: Some(target),
                headers: (if written.len() == 1 {
                    seq![(utf8("host"@), written[0].1)]
                } else {
                    seq![]
                }) + rest,
            },
        ),
{
    let n: int = 3 + written.len() as int;
    lemma_pseudo_gathered(fields, method, scheme, written, target, rest);
    let host: Seq<(Seq<u8>, Seq<u8>)> = if written.len() == 1 {
        seq![(utf8("host"@), written[0].1)]
    } else {
        seq![]
    };
    let headed = Gathered { method: Some(method), scheme: Some(scheme), path: Some(target), headers: host };
    let head = field_octets(fields);
    let front = seq![(utf8(":method"@), method), (utf8(":scheme"@), scheme)] + written + seq![
        (utf8(":path"@), target),
    ];
    assert(front.len() == n);
    assert(head == front + rest);
    assert(head.len() == fields.len());
    assert(fields.len() == n + rest.len());
    assert forall|k: int| n <= k < fields.len() implies !is_pseudo(utf8(#[trigger] fields[k].0@)) by {
        assert(head[k] == (front + rest)[k]);
        assert((front + rest)[k] == rest[k - n]);
        assert(head[k].0 == utf8(fields[k].0@));
        assert(!is_pseudo(rest[k - n].0));
    }
    lemma_gathered_regular(fields, n, headed);
    assert(field_octets(fields.skip(n)) =~= rest) by {
        assert forall|k: int| 0 <= k < rest.len() implies field_octets(fields.skip(n))[k]
            == rest[k] by {
            assert(fields.skip(n)[k] == fields[n + k]);
            assert(head[n + k] == (front + rest)[n + k]);
            assert(head[n + k] == rest[k]);
        }
    }
}

/// The fields of a request's head gather into its method, the scheme,
/// its target, and its `Host` before the headers that travel.
#[verifier::rlimit(50)]
#[verifier::spinoff_prover]
proof fn lemma_head_gathered(scheme: Seq<char>, request: Request, fields: Seq<(String, String)>)
    requires
        field_octets(fields) == request_head(utf8(scheme), request),
        travels_back(request),
    ensures
        ({
            let h = field_octets(request.headers@);
            let target = target_of(utf8(request.path@), field_octets(request.query@));
            gathered(fields) == Ok::<Gathered, Seq<char>>(
                Gathered {
                    method: Some(utf8(request.method@)),
                    scheme: Some(utf8(scheme)),
                    path: Some(target),
                    headers: host_field(h) + carried_fields(h),
                },
            )
        }),
{
    let h = field_octets(request.headers@);
    let path = utf8(request.path@);
    let q = field_octets(request.query@);
    let target = target_of(path, q);
    let carried = carried_fields(h);
    let written: Seq<(Seq<u8>, Seq<u8>)> = match found(h, utf8("host"@)) {
        Some(host) => seq![(utf8(":authority"@), host)],
        None => seq![],
    };
    assert(target.len() > 0) by {
        if q.len() > 0 {
            assert(target == path + seq![0x3fu8] + crate::http::joined(q));
        }
    }
    assert(field_octets(fields) == seq![
        (utf8(":method"@), utf8(request.method@)),
        (utf8(":scheme"@), utf8(scheme)),
    ] + written + seq![(utf8(":path"@), target)] + carried);
    lemma_carried_not_pseudo(h);
    lemma_fields_gathered(fields, utf8(request.method@), utf8(scheme), written, target, carried);
    if written.len() == 1 {
        assert(seq![(utf8("host"@), written[0].1)] =~= host_field(h));
    } else {
        assert(Seq::<(Seq<u8>, Seq<u8>)>::empty() =~= host_field(h));
    }
}

/// A request sent as the fields of an HTTP/2 head, with any scheme, reads
/// back with its body as that request: its method, its path, its query,
/// its `Host` as the first header, and its own headers as HTTP/2 carries
/// them, in lowercase and without those of an HTTP/1.1 connection.
#[verifier::rlimit(100)]
#[verifier::spinoff_prover]
pub proof fn law_request_travels(scheme: Seq<char>, request: Request, fields: Seq<(String, String)>)
    requires
        field_octets(fields) == request_head(utf8(scheme), request),
        travels_back(request),
    ensures
        request_read(fields, request.body@) == Ok::<Asked, RequestFault>(
            Asked {
                method: utf8(request.method@),
                path: utf8(request.path@),
                query: field_texts(request.query@),
                headers: host_field(field_octets(request.headers@)) + carried_fields(
                    field_octets(request.headers@),
                ),
                body: request.body@,
            },
        ),
{
    let h = field_octets(request.headers@);
    let path = utf8(request.path@);
    let q = field_octets(request.query@);
    let auth = host_field(h);
    let carried = carried_fields(h);
    lemma_head_gathered(scheme, request, fields);
    lemma_target_parts(path, q);
    lemma_query_texts(request.query@);
    let headers = auth + carried;
    assert(found(headers, utf8("content-length"@)) == found(carried, utf8("content-length"@))) by {
        lemma_pseudo_names();
        if auth.len() == 1 {
            assert(lower_all(auth[0].0).len() != lower_all(utf8("content-length"@)).len());
            assert(headers =~= seq![auth[0]] + carried);
            lemma_found_past(auth[0], carried, utf8("content-length"@), 0);
        } else {
            assert(headers =~= carried);
        }
    }
}

/// Regular fields after an answer's `:status` add themselves to its
/// headers, in order.
proof fn lemma_answered_regular(fields: Seq<(String, String)>, n: int)
    requires
        0 <= n <= fields.len(),
        forall|k: int| n <= k < fields.len() ==> !is_pseudo(utf8(#[trigger] fields[k].0@)),
    ensures
        answered(fields) == (answered(fields.take(n)).0, answered(fields.take(n)).1 + field_octets(
            fields.skip(n),
        )),
    decreases fields.len(),
{
    if fields.len() == n {
        assert(fields.take(n) =~= fields);
        assert(field_octets(fields.skip(n)) =~= Seq::<(Seq<u8>, Seq<u8>)>::empty());
        assert(answered(fields.take(n)).1 + field_octets(fields.skip(n)) =~= answered(
            fields.take(n),
        ).1);
    } else {
        let shorter = fields.drop_last();
        assert(shorter.take(n) =~= fields.take(n));
        assert forall|k: int| n <= k < shorter.len() implies !is_pseudo(
            utf8(#[trigger] shorter[k].0@),
        ) by {
            assert(shorter[k] == fields[k]);
        }
        lemma_answered_regular(shorter, n);
        let name = fields.last().0@;
        assert(!is_pseudo(utf8(fields[fields.len() - 1].0@)));
        lemma_status_name();
        assert(name != ":status"@);
        assert(field_octets(fields.skip(n)) =~= field_octets(shorter.skip(n)).push(
            (utf8(name), utf8(fields.last().1@)),
        ));
        assert(answered(fields.take(n)).1 + field_octets(fields.skip(n)) =~= (answered(
            fields.take(n),
        ).1 + field_octets(shorter.skip(n))).push((utf8(name), utf8(fields.last().1@))));
    }
}

/// The name of the pseudo-field an answer's head opens with.
proof fn lemma_status_name()
    ensures
        is_pseudo(utf8(":status"@)),
{
    reveal_strlit(":status");
    lemma_ascii_text(":status"@);
}

/// An answer sent as the fields of an HTTP/2 head — its three-digit
/// status and its own headers as HTTP/2 carries them — reads back as that
/// status and those headers, where none of its headers is named like a
/// pseudo-field.
pub proof fn law_response_travels(response: Response, fields: Seq<(String, String)>)
    requires
        field_octets(fields) == seq![(utf8(":status"@), decimal(response.status as nat))]
            + carried_fields(field_octets(response.headers@)),
        100 <= response.status <= 999,
        forall|k: int|
            0 <= k < response.headers@.len() ==> !is_pseudo(
                #[trigger] field_octets(response.headers@)[k].0,
            ),
    ensures
        answered(fields) == (Some(response.status), carried_fields(field_octets(response.headers@))),
{
    let h = field_octets(response.headers@);
    let carried = carried_fields(h);
    let digits = decimal(response.status as nat);
    let head = field_octets(fields);
    lemma_status_name();
    assert(head.len() == fields.len());
    assert(head[0] == (utf8(fields[0].0@), utf8(fields[0].1@)));
    assert(head[0] == (utf8(":status"@), digits));
    lemma_utf8_injective(fields[0].0@, ":status"@);
    crate::http::round_trip::lemma_three_digits(response.status as nat);
    lemma_decimal_ascii(response.status as nat);
    lemma_decimal_value(response.status as nat);
    assert(unsigned_digits(digits) == digits);
    assert(unsigned(digits, 65535) == Some(response.status as nat));
    assert(fields.take(1).drop_last() =~= fields.take(0));
    assert(answered(fields.take(0)) == (None::<u16>, Seq::<(Seq<u8>, Seq<u8>)>::empty()));
    assert(answered(fields.take(1)) == (Some(response.status), Seq::<(Seq<u8>, Seq<u8>)>::empty()));
    assert forall|k: int| 0 <= k < h.len() implies !is_pseudo(#[trigger] h[k].0) by {}
    lemma_carried_not_pseudo(h);
    let front = seq![(utf8(":status"@), digits)];
    assert(head == front + carried);
    assert forall|k: int| 1 <= k < fields.len() implies !is_pseudo(utf8(#[trigger] fields[k].0@)) by {
        assert(head[k] == (front + carried)[k]);
        assert(head[k] == carried[k - 1]);
        assert(head[k].0 == utf8(fields[k].0@));
        assert(!is_pseudo(carried[k - 1].0));
    }
    lemma_answered_regular(fields, 1);
    assert(field_octets(fields.skip(1)) =~= carried) by {
        assert forall|k: int| 0 <= k < carried.len() implies field_octets(fields.skip(1))[k]
            == carried[k] by {
            assert(fields.skip(1)[k] == fields[1 + k]);
            assert(head[1 + k] == (front + carried)[1 + k]);
            assert(head[1 + k] == carried[k]);
        }
    }
    assert(Seq::<(Seq<u8>, Seq<u8>)>::empty() + carried =~= carried);
}

} // verus!
