//! The asking side of HTTP/2: a connection started with the preface, a
//! request sent on a new odd stream, its answer taken back whole — head,
//! body and trailers — and one request after another on the same
//! connection until either side goes away. The connection is the
//! caller's: it sends what `out` gathers, hands each frame the server
//! sends to [`Connection::receive`], writes a body with
//! [`Connection::send_data_step`], reading while a window is shut, and
//! takes the answer once [`Client::answer_ready`] says it ended.

use vstd::prelude::*;

use super::connection::{
    connection_aborted, ended_here, fresh_lane, header_frames, index_of_id, lane_at, refused,
    reset_said, lemma_sizable, sizable_fields, sizable_texts, Connection, Lane,
};
use super::error::{code_written, ErrorCode};
use super::frame::{be32, frame_octets, Kind, MAX_STREAM_ID};
use super::hpack::decoder::fields_of;
use super::hpack::encoder::block_encoded;
use super::message::{answered, request_fields, request_head, response_of};
use super::stream::peer_may_send;
use crate::http::response::Response;
use crate::http::{answer_view, field_octets, reason_text, Answer, Request};
use crate::text::utf8;
use crate::NetError;

verus! {

/// A client connection.
pub struct Client {
    /// The connection; what it holds is the caller's to read.
    pub connection: Connection,
    /// The scheme every request names.
    pub scheme: String,
    /// The stream the next request goes on.
    pub next: u32,
}

/// Whether `after` are `lanes` with the stream `id` opened on `lane` where
/// it was not open.
pub open spec fn opened_as(lanes: Seq<(u32, Lane)>, id: u32, lane: Lane, after: Seq<(u32, Lane)>) -> bool {
    if index_of_id(lanes, id) >= 0 {
        after == lanes
    } else {
        exists|k: int| 0 <= k <= lanes.len() && after == lanes.insert(k, (id, lane))
    }
}

/// What the failure of a request the server's `GOAWAY` came before says.
pub open spec fn gone_said(last: u32, code: ErrorCode) -> Seq<u8> {
    utf8("the server went away ("@) + code_written(code) + utf8(") after stream "@)
        + crate::ascii::decimal(last as nat) + utf8("; the request was not sent"@)
}

/// Whether the server has finished the stream `id` of `lanes`, or it is
/// gone: ended, reset, or not open.
pub open spec fn answer_over(lanes: Seq<(u32, Lane)>, id: u32) -> bool {
    index_of_id(lanes, id) < 0 || lane_at(lanes, id).reset is Some || !peer_may_send(
        lane_at(lanes, id).state,
    )
}

impl Client {
    /// What a client keeps: its connection's, and an odd next stream at
    /// most two past the last there is.
    pub open spec fn wf(&self) -> bool {
        &&& self.connection.wf()
        &&& self.next % 2 == 1
        &&& self.next <= MAX_STREAM_ID + 2
    }

    /// Start a connection for a service at `scheme` — `http` or `https`,
    /// which each request's `:scheme` names: the preface and this side's
    /// `SETTINGS` after what `out` holds.
    pub fn handshake(scheme: &str, out: &mut Vec<u8>) -> (c: Self)
        ensures
            c.wf(),
            c.connection.started(true),
            c.next == 1,
            c.scheme@ == scheme@,
            final(out)@ == old(out)@ + super::preface::preface_octets() + frame_octets(
                Kind::Settings,
                0,
                0,
                super::settings::announced(super::settings::ours_settings()),
            ),
    {
        let connection = Connection::start(true, out);
        Client { connection, scheme: crate::text::owned(scheme), next: 1 }
    }

    /// Send the head of `request` on a stream of its own, after what `out`
    /// holds, ending the stream where it has no body: the stream, on
    /// which the caller then writes the body and awaits the answer.
    ///
    /// # Errors
    ///
    /// Where the server has gone away — a refusal that carries
    /// `ConnectionAborted`, since nothing was processed and the request may
    /// be sent again on a new connection — or the connection has used
    /// every stream it has, or a field is too long to encode.
    #[verifier::spinoff_prover]
    #[verifier::rlimit(50)]
    pub fn send(&mut self, request: &Request, out: &mut Vec<u8>) -> (r: Result<u32, NetError>)
        requires
            old(self).wf(),
        ensures
            final(self).wf(),
            final(self).scheme@ == old(self).scheme@,
            match old(self).connection.goaway {
                Some((last, code)) => (r matches Err(e) && utf8(e.message@) == gone_said(last, code)
                    && e.io is Some) && *final(self) == *old(self) && final(out)@ == old(out)@,
                None => if old(self).next > MAX_STREAM_ID {
                    (r matches Err(e) && e.message@ == "the connection has used every stream it has"@
                        && e.io is None) && *final(self) == *old(self) && final(out)@ == old(out)@
                } else {
                    match r {
                        Err(e) => e.io is None && e.message@ == "a field too long to encode"@
                            && !sizable_texts(request_head(utf8(old(self).scheme@), *request))
                            && *final(self) == *old(self) && final(out)@ == old(out)@,
                        Ok(id) => {
                            let head = request_head(utf8(old(self).scheme@), *request);
                            let c = &old(self).connection;
                            let bodiless = request.body@.len() == 0;
                            let opened = final(self).connection.lanes();
                            &&& sizable_texts(head)
                            &&& id == old(self).next
                            &&& final(self).next == id + 2
                            &&& exists|fields: Seq<(String, String)>, lanes: Seq<(u32, Lane)>|
                                #![trigger field_octets(fields), opened_as(c.lanes(), id, fresh_lane(c.remote.initial_window_size, c.local.initial_window_size), lanes)]
                                field_octets(fields) == head && opened_as(
                                    c.lanes(),
                                    id,
                                    fresh_lane(c.remote.initial_window_size, c.local.initial_window_size),
                                    lanes,
                                ) && opened == (if bodiless {
                                    ended_here(lanes, id)
                                } else {
                                    lanes
                                }) && final(out)@ == old(out)@ + header_frames(
                                    id,
                                    block_encoded(
                                        c.encoder@.0,
                                        c.encoder@.1,
                                        c.encoder@.2,
                                        c.encoder@.3,
                                        fields_of(fields),
                                    ).0,
                                    c.remote.max_frame_size as nat,
                                    bodiless,
                                    true,
                                )
                        },
                    }
                },
            },
    {
        if let Some((last, code)) = self.connection.goaway {
            let mut text: Vec<u8> = Vec::new();
            crate::text::push_str(&mut text, "the server went away (");
            proof {
                vstd::utf8::encode_utf8_valid_utf8("the server went away ("@);
            }
            super::error::push_code(&mut text, code);
            crate::text::push_str(&mut text, ") after stream ");
            crate::ascii::push_decimal(&mut text, last as u64);
            proof {
                crate::ascii::lemma_decimal_ascii(last as nat);
                crate::ascii::lemma_ascii_valid(crate::ascii::decimal(last as nat));
                vstd::utf8::valid_utf8_concat(
                    utf8("the server went away ("@) + code_written(code) + utf8(") after stream "@),
                    crate::ascii::decimal(last as nat),
                );
            }
            crate::text::push_str(&mut text, "; the request was not sent");
            let mut failure = NetError::new(crate::text::string_of(text));
            failure.io = Some(connection_aborted());
            return Err(failure);
        }
        let id = self.next;
        if id > MAX_STREAM_ID {
            return Err(NetError::new(crate::text::owned("the connection has used every stream it has")));
        }
        let fields = request_fields(self.scheme.as_str(), request);
        proof {
            lemma_sizable(fields@);
        }
        if !fields_sizable(fields.as_slice()) {
            return Err(NetError::new(crate::text::owned("a field too long to encode")));
        }
        self.next = id + 2;
        let ghost before = self.connection;
        self.connection.open(id);
        let ghost opened = self.connection.lanes();
        let bodiless = request.body.len() == 0;
        self.connection.send_headers(id, fields.as_slice(), bodiless, out);
        proof {
            assert(field_octets(fields@) == request_head(utf8(old(self).scheme@), *request));
            assert(opened_as(
                before.lanes(),
                id,
                fresh_lane(before.remote.initial_window_size, before.local.initial_window_size),
                opened,
            ));
        }
        Ok(id)
    }

    /// Whether the answer on `id` has ended, or the stream is gone: what
    /// the caller reads frames until.
    pub fn answer_ready(&self, id: u32) -> (r: bool)
        requires
            self.connection.wf(),
        ensures
            r == answer_over(self.connection.lanes(), id),
    {
        match self.connection.find(id) {
            None => true,
            Some(k) => {
                proof {
                    assert(lane_at(self.connection.lanes(), id) == super::connection::lane_of(
                        self.connection.streams@[k as int].1,
                    ));
                }
                self.connection.streams[k].1.finished()
            },
        }
    }
}

/// Whether every name and value of `fields` is short enough to be sized
/// as an HPACK string.
pub fn fields_sizable(fields: &[(String, String)]) -> (r: bool)
    ensures
        r == sizable_fields(fields@),
{
    let mut k: usize = 0;
    while k < fields.len()
        invariant
            k <= fields@.len(),
            forall|j: int|
                0 <= j < k ==> utf8(#[trigger] fields@[j].0@).len() <= usize::MAX / 4 && utf8(
                    fields@[j].1@,
                ).len() <= usize::MAX / 4,
        decreases fields.len() - k,
    {
        if fields[k].0.as_str().as_bytes().len() > usize::MAX / 4 || fields[k].1.as_str().as_bytes().len()
            > usize::MAX / 4 {
            return false;
        }
        k = k + 1;
    }
    true
}

/// What taking the answer of stream `id` off `streams` comes to: the
/// answer its head, body and trailers carry, or what says why there is
/// none.
pub open spec fn answer_taken(streams: Seq<(u32, super::stream::Stream)>, lanes: Seq<(u32, Lane)>, id: u32) -> Result<Answer, Seq<u8>> {
    if index_of_id(lanes, id) < 0 {
        Err(utf8("the stream was lost"@))
    } else {
        let s = streams[index_of_id(lanes, id)].1;
        match s.reset {
            Some(code) => Err(reset_said(id, code)),
            None => match s.head {
                None => Err(utf8("the answer ended without a head"@)),
                Some(head) => match answered(head@).0 {
                    None => Err(super::error::breach_said(ErrorCode::Protocol, "an answer without a :status"@)),
                    Some(status) => Ok(
                        Answer {
                            status,
                            reason: utf8(reason_text(status)),
                            headers: answered(head@).1,
                            body: s.body@,
                            trailers: field_octets(s.trailers@),
                        },
                    ),
                },
            },
        }
    }
}

impl Client {
    /// Take the answer on `id` off the connection, once it ended.
    ///
    /// # Errors
    ///
    /// Where the stream is gone, the server reset it — one it refused
    /// carries `ConnectionAborted` — or the answer has no head, or no
    /// `:status`.
    pub fn take_answer(&mut self, id: u32) -> (r: Result<Response, NetError>)
        requires
            old(self).wf(),
        ensures
            final(self).wf(),
            final(self).scheme == old(self).scheme,
            final(self).next == old(self).next,
            index_of_id(old(self).connection.lanes(), id) >= 0 ==> final(self).connection.lanes() == old(
                self,
            ).connection.lanes().remove(index_of_id(old(self).connection.lanes(), id)),
            index_of_id(old(self).connection.lanes(), id) < 0 ==> final(self).connection.lanes() == old(
                self,
            ).connection.lanes(),
            super::connection::same_but_streams(&final(self).connection, &old(self).connection),
            final(self).connection.encoder == old(self).connection.encoder,
            final(self).connection.stalls == old(self).connection.stalls,
            match answer_taken(old(self).connection.streams@, old(self).connection.lanes(), id) {
                Ok(answer) => r matches Ok(response) && answer_view(response) == answer,
                Err(said) => r matches Err(e) && utf8(e.message@) == said,
            },
            r matches Err(e) ==> (e.io is Some <==> (index_of_id(old(self).connection.lanes(), id) >= 0
                && lane_at(old(self).connection.lanes(), id).reset == Some(ErrorCode::RefusedStream))),
    {
        let k = match self.connection.find(id) {
            Some(k) => k,
            None => {
                return Err(NetError::new(crate::text::owned("the stream was lost")));
            },
        };
        let (_, stream) = self.connection.take_stream(k);
        proof {
            lemma_removed_keeps(old(self).connection, self.connection, k as int);
            assert(self.connection.lanes() =~= old(self).connection.lanes().remove(k as int));
        }
        if let Some(code) = stream.reset {
            return Err(refused(id, code));
        }
        let head = match stream.head {
            Some(head) => head,
            None => {
                return Err(NetError::new(crate::text::owned("the answer ended without a head")));
            },
        };
        match response_of(head, stream.body, stream.trailers) {
            Ok(response) => Ok(response),
            Err(v) => Err(NetError::from(v)),
        }
    }

    /// Let the stream `id` go, unanswered: the connection closed before
    /// its answer ended.
    pub fn abandon(&mut self, id: u32)
        requires
            old(self).wf(),
        ensures
            final(self).wf(),
            final(self).scheme == old(self).scheme,
            final(self).next == old(self).next,
            index_of_id(old(self).connection.lanes(), id) >= 0 ==> final(self).connection.lanes() == old(
                self,
            ).connection.lanes().remove(index_of_id(old(self).connection.lanes(), id)),
            index_of_id(old(self).connection.lanes(), id) < 0 ==> final(self).connection.lanes() == old(
                self,
            ).connection.lanes(),
            super::connection::same_but_streams(&final(self).connection, &old(self).connection),
            final(self).connection.encoder == old(self).connection.encoder,
            final(self).connection.stalls == old(self).connection.stalls,
    {
        if let Some(k) = self.connection.find(id) {
            let _ = self.connection.take_stream(k);
            proof {
                lemma_removed_keeps(old(self).connection, self.connection, k as int);
                assert(self.connection.lanes() =~= old(self).connection.lanes().remove(k as int));
            }
        }
    }

    /// Send a `PING` after what `out` holds, carrying the next stream as
    /// eight octets: the caller reads until its acknowledgement comes back
    /// ([`Connection::has_pong`]) to know the connection is alive.
    pub fn ping(&self, out: &mut Vec<u8>) -> (opaque: [u8; 8])
        ensures
            opaque@ == seq![0u8, 0u8, 0u8, 0u8] + be32(self.next),
            final(out)@ == old(out)@ + frame_octets(Kind::Ping, 0, 0, opaque@),
    {
        let n = self.next;
        let opaque: [u8; 8] = [0, 0, 0, 0, (n >> 24u32) as u8, (n >> 16u32) as u8, (n >> 8u32) as u8, n as u8];
        proof {
            assert(opaque@ =~= seq![0u8, 0u8, 0u8, 0u8] + be32(n));
        }
        self.connection.ping(opaque, out);
        opaque
    }

    /// How often a request's body waited for the server to open a window.
    pub fn stalls(&self) -> (n: usize)
        ensures
            n == self.connection.stalls,
    {
        self.connection.stalls
    }

    /// Say goodbye with a `GOAWAY`, after what `out` holds.
    pub fn close(&mut self, out: &mut Vec<u8>)
        requires
            old(self).wf(),
        ensures
            final(self).connection.going_away,
            final(out)@ == old(out)@ + frame_octets(
                Kind::Goaway,
                0,
                0,
                be32(old(self).connection.last_peer & MAX_STREAM_ID) + be32(
                    super::error::wire_code(ErrorCode::NoError),
                ) + super::connection::debug_of(""@),
            ),
    {
        self.connection.go_away(ErrorCode::NoError, "", out);
    }
}

/// Taking one stream out keeps what a connection keeps.
pub proof fn lemma_removed_keeps(a: Connection, b: Connection, k: int)
    requires
        a.wf(),
        0 <= k < a.streams@.len(),
        b.streams@ == a.streams@.remove(k),
        super::connection::same_but_streams(&b, &a),
        b.encoder == a.encoder,
    ensures
        b.wf(),
{
    assert forall|i: int, j: int| 0 <= i < j < b.lanes().len() implies b.lanes()[i].0 < b.lanes()[j].0 by {
        let ii = if i < k { i } else { i + 1 };
        let jj = if j < k { j } else { j + 1 };
        assert(b.lanes()[i].0 == a.lanes()[ii].0 && b.lanes()[j].0 == a.lanes()[jj].0);
    }
    assert forall|j: int| 0 <= j < b.streams@.len() implies #[trigger] b.streams@[j].0 <= b.highest by {
        let jj = if j < k { j } else { j + 1 };
        assert(b.streams@[j] == a.streams@[jj]);
    }
    assert forall|j: int| 0 <= j < b.streams@.len() implies #[trigger] b.streams@[j].1.receive@ <= MAX_STREAM_ID
        && b.streams@[j].1.body@.len() <= crate::http::MAX_BODY by {
        let jj = if j < k { j } else { j + 1 };
        assert(b.streams@[j] == a.streams@[jj]);
        assert(a.streams@[jj].1.receive@ <= MAX_STREAM_ID);
    }
}

} // verus!
