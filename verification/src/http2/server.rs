//! The answering side of HTTP/2: a connection whose preface has been
//! read, each request taken whole off its stream as it ends, answered on
//! the same stream — head, body and trailers — and a `GOAWAY` when this
//! side is done. The connection is the caller's: it sends what `out`
//! gathers, hands each frame the client sends to
//! [`Connection::receive`] when [`Server::next_request`] asks for one,
//! and writes an answer's body with [`Connection::send_data_step`].

use vstd::prelude::*;

use super::client::fields_sizable;
use super::connection::{
    debug_of, header_frames, index_of_id, lane_of, sizable_fields, Connection, Lane,
};
use super::error::{wire_code, ErrorCode};
use super::frame::{be32, frame_octets, Kind, MAX_STREAM_ID};
use super::message::{carried, request_of, request_read, response_fields};
use super::stream::{stream_finished, Stream};
use crate::http::response::Response;
use crate::http::{asked_view, Asked, Request};
use crate::NetError;

verus! {

/// The frames read after this side's `GOAWAY` while the client finishes,
/// so the connection is not closed under what it is still sending.
pub const DRAIN: usize = 1024;

/// After this side's `GOAWAY`, whether to read another frame: the client
/// sent one at the last read, and fewer than [`DRAIN`] have been read.
pub fn drain_more(read: usize, got_frame: bool) -> (r: bool)
    ensures
        r == (got_frame && read < DRAIN),
{
    got_frame && read < DRAIN
}

/// A server connection.
pub struct Server {
    /// The connection; what it holds is the caller's to read.
    pub connection: Connection,
    /// The streams taken off and not yet answered.
    pub answering: Vec<u32>,
}

/// What [`Server::next_request`] found.
pub enum Next {
    /// A request the client ended, and the stream to answer it on.
    Request(u32, Request),
    /// A stream the client ended that holds no request — reset, or
    /// malformed and reset now — let go; ask again.
    Dropped(u32),
    /// No request yet: read a frame and ask again.
    Read,
    /// The client went away.
    Done,
}

/// Whether the stream at `k` of `s` holds what the client has finished
/// sending, not taken off yet.
pub open spec fn ready_at(s: &Server, k: int) -> bool {
    stream_finished(s.connection.streams@[k].1) && !s.answering@.contains(s.connection.streams@[k].0)
}

/// Whether `k` is the first stream of `s` that is ready.
pub open spec fn first_ready(s: &Server, k: int) -> bool {
    0 <= k < s.connection.streams@.len() && ready_at(s, k) && forall|j: int| 0 <= j < k ==> !ready_at(s, j)
}

/// The request the stream `entry` carries, where it carries one: not
/// reset, with a head.
pub open spec fn carries(entry: Stream) -> Option<Result<Asked, super::message::RequestFault>> {
    if entry.reset is None && entry.head is Some {
        Some(request_read(entry.head->Some_0@, entry.body@))
    } else {
        None
    }
}

impl Server {
    /// What a server keeps: its connection's, as the side that answers.
    pub open spec fn wf(&self) -> bool {
        &&& self.connection.wf()
        &&& !self.connection.client
        &&& self.answering@.no_duplicates()
    }

    /// Start a connection whose first octets, `preface`, the caller read:
    /// they must be the preface, after which this side's `SETTINGS` goes
    /// after what `out` holds.
    ///
    /// # Errors
    ///
    /// Where the connection did not open with the preface.
    pub fn handshake(preface: &[u8], out: &mut Vec<u8>) -> (r: Result<Self, NetError>)
        ensures
            match r {
                Ok(s) => preface@ == super::preface::preface_octets() && s.wf() && s.connection.started(false)
                    && s.answering@.len() == 0 && final(out)@ == old(out)@ + frame_octets(
                    Kind::Settings,
                    0,
                    0,
                    super::settings::announced(super::settings::ours_settings()),
                ),
                Err(e) => preface@ != super::preface::preface_octets() && e.message@
                    == "the connection did not open with the HTTP/2 preface"@ && e.io is None
                    && final(out)@ == old(out)@,
            },
    {
        if !crate::text::bytes_equal(preface, super::preface::preface()) {
            return Err(NetError::new(crate::text::owned("the connection did not open with the HTTP/2 preface")));
        }
        let connection = Connection::start(false, out);
        proof {
            assert(old(out)@ + Seq::<u8>::empty() =~= old(out)@);
        }
        Ok(Server { connection, answering: Vec::new() })
    }

    /// Whether a request waits on `stream`.
    fn waiting(&self, stream: u32) -> (r: Option<usize>)
        ensures
            match r {
                Some(k) => k < self.answering@.len() && self.answering@[k as int] == stream && forall|j: int|
                    0 <= j < k ==> self.answering@[j] != stream,
                None => !self.answering@.contains(stream),
            },
    {
        let mut k: usize = 0;
        while k < self.answering.len()
            invariant
                k <= self.answering@.len(),
                forall|j: int| 0 <= j < k ==> self.answering@[j] != stream,
            decreases self.answering.len() - k,
        {
            if self.answering[k] == stream {
                return Some(k);
            }
            k = k + 1;
        }
        None
    }

    /// The first stream the client has finished sending on and that is
    /// not taken off yet.
    fn ready(&self) -> (r: Option<usize>)
        ensures
            match r {
                Some(k) => first_ready(self, k as int),
                None => forall|j: int| 0 <= j < self.connection.streams@.len() ==> !ready_at(self, j),
            },
    {
        let mut k: usize = 0;
        while k < self.connection.streams.len()
            invariant
                k <= self.connection.streams@.len(),
                forall|j: int| 0 <= j < k ==> !ready_at(self, j),
            decreases self.connection.streams.len() - k,
        {
            let id = self.connection.streams[k].0;
            if self.connection.streams[k].1.finished() && self.waiting(id).is_none() {
                return Some(k);
            }
            k = k + 1;
        }
        None
    }
}

/// Whether `b` is the stream `a` with its head and body taken off.
pub open spec fn taken_off(a: Stream, b: Stream) -> bool {
    &&& b.head is None
    &&& b.body@.len() == 0
    &&& b.state == a.state
    &&& b.send == a.send
    &&& b.receive == a.receive
    &&& b.trailers == a.trailers
    &&& b.reset == a.reset
}

impl Server {
    /// One step towards the next request whose stream the client has
    /// ended — on a stream the client opened, so an odd one: the first such stream taken off, or let go where it holds
    /// no request — a malformed one reset with `RST_STREAM` after what
    /// `out` holds; else, where the client has not gone away, the word to
    /// read another frame.
    pub fn next_request(&mut self, out: &mut Vec<u8>) -> (r: Next)
        requires
            old(self).wf(),
        ensures
            final(self).wf(),
            r matches Next::Request(id, _) ==> id % 2 == 1,
            (exists|k: int| first_ready(old(self), k)) ==> ({
                let k = choose|k: int| first_ready(old(self), k);
                let (id, stream) = old(self).connection.streams@[k];
                &&& super::connection::same_but_streams(&final(self).connection, &old(self).connection)
                &&& final(self).connection.encoder == old(self).connection.encoder
                &&& final(self).connection.stalls == old(self).connection.stalls
                &&& match carries(stream) {
                    Some(Ok(asked)) => {
                        &&& r matches Next::Request(i, request) && i == id && asked_view(request) == asked
                        &&& final(self).answering@ == old(self).answering@.push(id)
                        &&& final(self).connection.streams@.len() == old(self).connection.streams@.len()
                        &&& forall|j: int|
                            0 <= j < old(self).connection.streams@.len() && j != k ==> (#[trigger] final(self).connection.streams@[j]) == old(self).connection.streams@[j]
                        &&& final(self).connection.streams@[k].0 == id
                        &&& taken_off(stream, final(self).connection.streams@[k].1)
                        &&& final(out)@ == old(out)@
                    },
                    Some(Err(_)) => {
                        &&& r == Next::Dropped(id)
                        &&& final(self).answering == old(self).answering
                        &&& final(self).connection.streams@ == old(self).connection.streams@.remove(k)
                        &&& final(out)@ == old(out)@ + frame_octets(
                            Kind::RstStream,
                            0,
                            id,
                            be32(wire_code(ErrorCode::Protocol)),
                        )
                    },
                    None => {
                        &&& r == Next::Dropped(id)
                        &&& final(self).answering == old(self).answering
                        &&& final(self).connection.streams@ == old(self).connection.streams@.remove(k)
                        &&& final(out)@ == old(out)@
                    },
                }
            }),
            !(exists|k: int| first_ready(old(self), k)) ==> *final(self) == *old(self) && final(out)@ == old(
                out,
            )@ && if old(self).connection.goaway is Some {
                r is Done
            } else {
                r is Read
            },
    {
        let k = match self.ready() {
            Some(k) => k,
            None => {
                proof {
                    if exists|k: int| first_ready(old(self), k) {
                        let j = choose|k: int| first_ready(old(self), k);
                        assert(ready_at(old(self), j));
                    }
                }
                return if self.connection.goaway.is_some() {
                    Next::Done
                } else {
                    Next::Read
                };
            },
        };
        proof {
            let j = choose|j: int| first_ready(old(self), j);
            if j < k {
                assert(ready_at(old(self), j));
            } else if j > k {
                assert(ready_at(old(self), k as int));
            }
        }
        let (id, mut stream) = self.connection.take_stream(k);
        proof {
            super::client::lemma_removed_keeps(old(self).connection, self.connection, k as int);
        }
        let head = stream.head.take();
        let mut body: Vec<u8> = Vec::new();
        std::mem::swap(&mut body, &mut stream.body);
        if stream.reset.is_none() {
            if let Some(fields) = head {
                match request_of(fields, body) {
                    Ok(request) => {
                        let ghost removed = self.connection;
                        self.connection.put_stream(k, (id, stream));
                        proof {
                            assert(self.connection.streams@ =~= old(self).connection.streams@.update(
                                k as int,
                                (id, stream),
                            ));
                            super::receive::lemma_body_update_keeps(
                                old(self).connection,
                                self.connection,
                                k as int,
                                (id, stream),
                            );
                        }
                        self.answering.push(id);
                        return Next::Request(id, request);
                    },
                    Err(v) => {
                        let reset = super::frame::Frame::reset(id, v.code);
                        super::frame::write(out, &reset);
                        return Next::Dropped(id);
                    },
                }
            }
        }
        Next::Dropped(id)
    }
}

/// What the failure of an answer on a stream no request waits on says.
pub open spec fn unasked_said(stream: u32) -> Seq<u8> {
    crate::text::utf8("no request waits on stream "@) + crate::ascii::decimal(stream as nat)
}

/// The fields of the head of `response`, as the wire's text.
pub open spec fn response_head(response: Response) -> Seq<(Seq<u8>, Seq<u8>)> {
    seq![(crate::text::utf8(":status"@), crate::ascii::decimal(response.status as nat))]
        + super::message::carried_fields(crate::http::field_octets(response.headers@))
}

/// Whether `out` is `before` with a header block of `fields`, as
/// `c`'s encoder writes them, on `stream`.
pub open spec fn block_sent(
    c: &Connection,
    stream: u32,
    fields: Seq<(Seq<u8>, Seq<u8>)>,
    end: bool,
    before: Seq<u8>,
    out: Seq<u8>,
) -> bool {
    exists|list: Seq<(String, String)>|
        #![trigger crate::http::field_octets(list)]
        crate::http::field_octets(list) == fields && out == before + header_frames(
            stream,
            super::hpack::encoder::block_encoded(
                c.encoder@.0,
                c.encoder@.1,
                c.encoder@.2,
                c.encoder@.3,
                super::hpack::decoder::fields_of(list),
            ).0,
            c.remote.max_frame_size as nat,
            end,
            true,
        )
}

impl Server {
    /// Let `stream` go: its answer is written, or cannot be.
    pub fn forget(&mut self, stream: u32)
        requires
            old(self).wf(),
        ensures
            final(self).wf(),
            final(self).answering == old(self).answering,
            index_of_id(old(self).connection.lanes(), stream) >= 0 ==> final(self).connection.lanes()
                == old(self).connection.lanes().remove(index_of_id(old(self).connection.lanes(), stream)),
            index_of_id(old(self).connection.lanes(), stream) < 0 ==> final(self).connection.lanes() == old(
                self,
            ).connection.lanes(),
            super::connection::same_but_streams(&final(self).connection, &old(self).connection),
            final(self).connection.encoder == old(self).connection.encoder,
            final(self).connection.stalls == old(self).connection.stalls,
    {
        if let Some(k) = self.connection.find(stream) {
            let _ = self.connection.take_stream(k);
            proof {
                super::client::lemma_removed_keeps(old(self).connection, self.connection, k as int);
                assert(self.connection.lanes() =~= old(self).connection.lanes().remove(k as int));
            }
        }
    }

    /// Begin the answer to the request taken off `stream` with `response`:
    /// its head after what `out` holds, ending the stream where there is
    /// neither body nor trailers. Whether a body follows, which the caller
    /// writes with [`Connection::send_data_step`] before
    /// [`Server::finish`].
    ///
    /// # Errors
    ///
    /// Where no request waits on `stream`, or a field is too long to
    /// encode.
    pub fn respond(&mut self, stream: u32, response: &Response, out: &mut Vec<u8>) -> (r: Result<bool, NetError>)
        requires
            old(self).wf(),
        ensures
            final(self).wf(),
            !old(self).answering@.contains(stream) ==> (r matches Err(e) && crate::text::utf8(e.message@)
                == unasked_said(stream) && e.io is None) && *final(self) == *old(self) && final(out)@ == old(
                out,
            )@,
            old(self).answering@.contains(stream) ==> exists|w: int|
                0 <= w < old(self).answering@.len() && old(self).answering@[w] == stream && (forall|j: int|
                    0 <= j < w ==> old(self).answering@[j] != stream) && final(self).answering@ == old(
                    self,
                ).answering@.remove(w),
            old(self).answering@.contains(stream) ==> ({
                let fits = super::connection::sizable_texts(response_head(*response))
                    && super::connection::sizable_texts(
                    super::message::carried_fields(crate::http::field_octets(response.trailers@)),
                );
                let lanes = old(self).connection.lanes();
                let at = index_of_id(lanes, stream);
                &&& (r is Ok <==> fits)
                &&& (r matches Err(e) ==> e.message@ == "a field too long to encode"@ && e.io is None
                    && final(out)@ == old(out)@ && final(self).connection.lanes() == (if at >= 0 {
                    lanes.remove(at)
                } else {
                    lanes
                }))
            }),
            r matches Ok(body) ==> ({
                let trailers = super::message::carried_fields(crate::http::field_octets(response.trailers@));
                let bodiless = response.body@.len() == 0;
                &&& body == !bodiless
                &&& block_sent(
                    &old(self).connection,
                    stream,
                    response_head(*response),
                    bodiless && trailers.len() == 0,
                    old(out)@,
                    final(out)@,
                )
                &&& final(self).connection.lanes() == if bodiless && trailers.len() == 0 {
                    super::connection::ended_here(old(self).connection.lanes(), stream)
                } else {
                    old(self).connection.lanes()
                }
            }),
    {
        let w = match self.waiting(stream) {
            Some(w) => w,
            None => {
                let mut text: Vec<u8> = Vec::new();
                crate::text::push_str(&mut text, "no request waits on stream ");
                crate::ascii::push_decimal(&mut text, stream as u64);
                proof {
                    vstd::utf8::encode_utf8_valid_utf8("no request waits on stream "@);
                    crate::ascii::lemma_decimal_ascii(stream as nat);
                    crate::ascii::lemma_ascii_valid(crate::ascii::decimal(stream as nat));
                    vstd::utf8::valid_utf8_concat(
                        crate::text::utf8("no request waits on stream "@),
                        crate::ascii::decimal(stream as nat),
                    );
                }
                return Err(NetError::new(crate::text::string_of(text)));
            },
        };
        let ghost before = self.answering@;
        self.answering.remove(w);
        proof {
            assert(self.answering@ == before.remove(w as int));
        }
        let head = response_fields(response);
        let trailers = carried(response.trailers.as_slice());
        let bodiless = response.body.len() == 0;
        proof {
            super::connection::lemma_sizable(head@);
            super::connection::lemma_sizable(trailers@);
        }
        if !fields_sizable(head.as_slice()) || !fields_sizable(trailers.as_slice()) {
            self.forget(stream);
            return Err(NetError::new(crate::text::owned("a field too long to encode")));
        }
        self.connection.send_headers(stream, head.as_slice(), bodiless && trailers.len() == 0, out);
        Ok(!bodiless)
    }

    /// End the answer on `stream` with the trailers of `response`, after
    /// what `out` holds, where it has any, and let the stream go.
    pub fn finish(&mut self, stream: u32, response: &Response, out: &mut Vec<u8>)
        requires
            old(self).wf(),
        ensures
            final(self).wf(),
            final(self).answering == old(self).answering,
            ({
                let trailers = super::message::carried_fields(crate::http::field_octets(response.trailers@));
                &&& trailers.len() == 0 ==> final(out)@ == old(out)@
                &&& trailers.len() > 0 && super::connection::sizable_texts(trailers) ==> block_sent(
                    &old(self).connection,
                    stream,
                    trailers,
                    true,
                    old(out)@,
                    final(out)@,
                )
            }),
            index_of_id(final(self).connection.lanes(), stream) < 0,
    {
        let trailers = carried(response.trailers.as_slice());
        proof {
            super::connection::lemma_sizable(trailers@);
        }
        if trailers.len() > 0 && fields_sizable(trailers.as_slice()) {
            self.connection.send_headers(stream, trailers.as_slice(), true, out);
        }
        self.forget(stream);
        proof {
            let lanes = self.connection.lanes();
            if index_of_id(lanes, stream) >= 0 {
                let j = index_of_id(lanes, stream);
                assert(lanes[j].0 == stream);
            }
        }
    }

    /// Take no new stream: a `GOAWAY` after what `out` holds, naming the
    /// last one taken, which can still be answered.
    pub fn go_away(&mut self, out: &mut Vec<u8>)
        requires
            old(self).wf(),
        ensures
            final(self).wf(),
            final(self).connection.going_away,
            final(self).answering == old(self).answering,
            final(out)@ == old(out)@ + frame_octets(
                Kind::Goaway,
                0,
                0,
                be32(old(self).connection.last_peer & MAX_STREAM_ID) + be32(wire_code(ErrorCode::NoError))
                    + debug_of(""@),
            ),
    {
        self.connection.go_away(ErrorCode::NoError, "", out);
    }

    /// Go away gracefully: a `GOAWAY` where [`Server::go_away`] has not
    /// sent one, after which the caller reads what the client still sends,
    /// up to [`DRAIN`] frames, until it closes.
    pub fn close(&mut self, out: &mut Vec<u8>)
        requires
            old(self).wf(),
        ensures
            final(self).wf(),
            final(self).connection.going_away,
            old(self).connection.going_away ==> final(out)@ == old(out)@,
            !old(self).connection.going_away ==> final(out)@ == old(out)@ + frame_octets(
                Kind::Goaway,
                0,
                0,
                be32(old(self).connection.last_peer & MAX_STREAM_ID) + be32(wire_code(ErrorCode::NoError))
                    + debug_of(""@),
            ),
    {
        if !self.connection.going_away {
            self.go_away(out);
        }
    }

    /// How often an answer's body waited for the client to open a window.
    pub fn stalls(&self) -> (n: usize)
        ensures
            n == self.connection.stalls,
    {
        self.connection.stalls
    }
}

/// A stream is answered once: `respond` takes the stream off a waiting
/// list that holds no stream twice, so the stream waits no more, and a
/// second `respond` on it is refused with nothing written.
pub proof fn law_answered_once(waiting: Seq<u32>, w: int, stream: u32)
    requires
        waiting.no_duplicates(),
        0 <= w < waiting.len(),
        waiting[w] == stream,
    ensures
        !waiting.remove(w).contains(stream),
{
    if waiting.remove(w).contains(stream) {
        let j = choose|j: int| 0 <= j < waiting.remove(w).len() && waiting.remove(w)[j] == stream;
        if j < w {
            assert(waiting[j] == stream);
        } else {
            assert(waiting[j + 1] == stream);
        }
    }
}

/// A request is handed out once: the stream it is taken off keeps neither
/// head nor body, so it carries no request for a later `next_request`.
pub proof fn law_taken_carries_nothing(a: Stream, b: Stream)
    requires
        taken_off(a, b),
    ensures
        carries(b) is None,
{
}

} // verus!
