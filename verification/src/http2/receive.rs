//! The reading half of a [`Connection`]: one frame at a time, each type
//! handled as RFC 9113 section 6 says, a breach of the connection ended
//! with `GOAWAY` and a breach of one stream with `RST_STREAM` (section
//! 5.4). What this side answers — acknowledgements, window updates, the
//! `RST_STREAM` or the `GOAWAY` — goes after what the caller's `out`
//! holds.

use vstd::prelude::*;

use super::connection::{
    fresh_lane, index_of_id, lane_at, lane_changed, lanes_of, lemma_entry_update_keeps, reset_lane,
    same_but_streams, Connection, Continuing, Lane, MAX_BLOCK,
};
use super::hpack::decoder::{block_from, fields_of};
use super::message::{check, fault_from, list_size};
use super::stream::informational;
use crate::http::{field_octets, field_texts};
use crate::text::utf8;
use super::connection::debug_of;
use super::error::{code_of, violation_said, wire_code, ErrorCode, Violation};
use crate::NetError;
use super::frame::{
    be32, content_of, frame_octets, word_at, Frame, Kind, ACK, DEFAULT_MAX_FRAME_SIZE, END_HEADERS,
    END_STREAM,
    MAX_FRAME_SIZE_LIMIT, MAX_STREAM_ID,
};
use super::settings::{applied, Settings};
use super::stream::{after_remote_end, peer_may_send, State, Stream};
use crate::http::MAX_BODY;
use super::window::Window;
use crate::ascii::with_number;

verus! {

/// A breach of the whole connection, or of one stream.
pub enum Breach {
    Connection(Violation),
    Stream(u32, Violation),
}

/// What a frame came to: handled, or a breach of the connection or of one
/// stream, with its code.
pub enum Outcome {
    Handled,
    Connection(ErrorCode),
    Stream(u32, ErrorCode),
}

/// The outcome a handler's result reports.
pub open spec fn outcome_of(r: Result<(), Breach>) -> Outcome {
    match r {
        Ok(()) => Outcome::Handled,
        Err(Breach::Connection(v)) => Outcome::Connection(v.code),
        Err(Breach::Stream(id, v)) => Outcome::Stream(id, v.code),
    }
}

/// Whether `id` is above every stream opened: idle, where only `HEADERS`
/// and `PRIORITY` may arrive.
pub open spec fn idle(c: &Connection, id: u32) -> bool {
    id > c.highest
}

/// The `WINDOW_UPDATE` giving `increment` back on `id`, as the wire
/// carries it.
pub open spec fn update_octets(id: u32, increment: u32) -> Seq<u8> {
    frame_octets(Kind::WindowUpdate, 0, id, be32(increment & MAX_STREAM_ID))
}

/// `lanes` after a `GOAWAY` naming `last`: each stream this side opened
/// above it, not reset yet, passed over.
pub open spec fn passed_over(lanes: Seq<(u32, Lane)>, last: u32, client: bool) -> Seq<(u32, Lane)> {
    Seq::new(
        lanes.len(),
        |k: int|
            if lanes[k].0 > last && (lanes[k].0 % 2 == 1) == client && lanes[k].1.reset is None {
                (lanes[k].0, Lane { reset: Some(ErrorCode::RefusedStream), ..lanes[k].1 })
            } else {
                lanes[k]
            },
    )
}

/// A stream after a `GOAWAY` naming `last`: passed over where this side
/// opened it above `last` and it is not reset yet.
pub open spec fn passed_entry(entry: (u32, Stream), last: u32, client: bool) -> (u32, Stream) {
    if entry.0 > last && (entry.0 % 2 == 1) == client && entry.1.reset is None {
        (entry.0, Stream { reset: Some(ErrorCode::RefusedStream), ..entry.1 })
    } else {
        entry
    }
}

/// `lanes` with the window to send of the stream `id`, where there is one,
/// grown by `increment`.
pub open spec fn granted(lanes: Seq<(u32, Lane)>, id: u32, increment: u32) -> Seq<(u32, Lane)> {
    lane_changed(lanes, id, Lane { send: lane_at(lanes, id).send + increment, ..lane_at(lanes, id) })
}

/// What a `RST_STREAM` comes to.
pub open spec fn rst_stream_outcome(c: &Connection, f: &Frame) -> Outcome {
    if f.payload@.len() != 4 {
        Outcome::Connection(ErrorCode::FrameSize)
    } else if idle(c, f.stream) {
        Outcome::Connection(ErrorCode::Protocol)
    } else {
        Outcome::Handled
    }
}

/// What a `PING` comes to.
pub open spec fn ping_outcome(f: &Frame) -> Outcome {
    if f.payload@.len() != 8 {
        Outcome::Connection(ErrorCode::FrameSize)
    } else {
        Outcome::Handled
    }
}

/// What a `GOAWAY` comes to.
pub open spec fn goaway_outcome(f: &Frame) -> Outcome {
    if f.payload@.len() < 8 {
        Outcome::Connection(ErrorCode::FrameSize)
    } else {
        Outcome::Handled
    }
}

/// What a `WINDOW_UPDATE` comes to: a breach of the connection where it
/// is on the connection, of its stream where it is on one that is open.
pub open spec fn window_update_outcome(c: &Connection, f: &Frame) -> Outcome {
    let increment = word_at(f.payload@, 0) & MAX_STREAM_ID;
    let id = f.stream;
    if f.payload@.len() != 4 {
        Outcome::Connection(ErrorCode::FrameSize)
    } else if id == 0 {
        if increment == 0 {
            Outcome::Connection(ErrorCode::Protocol)
        } else if c.send@ + increment > MAX_STREAM_ID {
            Outcome::Connection(ErrorCode::FlowControl)
        } else {
            Outcome::Handled
        }
    } else if idle(c, id) {
        Outcome::Connection(ErrorCode::Protocol)
    } else if index_of_id(c.lanes(), id) < 0 {
        Outcome::Handled
    } else if increment == 0 {
        Outcome::Stream(id, ErrorCode::Protocol)
    } else if lane_at(c.lanes(), id).send + increment > MAX_STREAM_ID {
        Outcome::Stream(id, ErrorCode::FlowControl)
    } else {
        Outcome::Handled
    }
}

/// Everything of two connections but what a frame's handler may change:
/// the streams, the windows, the peer's settings, the encoder, the
/// decoder, the block in progress, the streams opened, the peer's
/// `GOAWAY`, whether its `SETTINGS` arrived, and the acknowledgements.
pub open spec fn same_frame(a: &Connection, b: &Connection) -> bool {
    &&& a.client == b.client
    &&& a.local == b.local
    &&& a.going_away == b.going_away
    &&& a.stalls == b.stalls
}

/// Everything of two connections but their streams and the
/// acknowledgements.
pub open spec fn same_but_pongs(a: &Connection, b: &Connection) -> bool {
    &&& same_frame(a, b)
    &&& a.remote == b.remote
    &&& a.encoder == b.encoder
    &&& a.decoder == b.decoder
    &&& a.send == b.send
    &&& a.receive == b.receive
    &&& a.continuing == b.continuing
    &&& a.highest == b.highest
    &&& a.last_peer == b.last_peer
    &&& a.goaway == b.goaway
    &&& a.settings_seen == b.settings_seen
}

/// Everything of two connections but their streams.
pub open spec fn same_but_lanes(a: &Connection, b: &Connection) -> bool {
    &&& same_but_pongs(a, b)
    &&& a.pongs == b.pongs
}

impl Connection {
    fn rst_stream(&mut self, frame: &Frame) -> (r: Result<(), Breach>)
        requires
            old(self).wf(),
        ensures
            final(self).wf(),
            outcome_of(r) == rst_stream_outcome(old(self), frame),
            r is Ok ==> final(self).lanes() == reset_lane(
                old(self).lanes(),
                frame.stream,
                code_of(word_at(frame.payload@, 0)),
            ) && same_but_lanes(final(self), old(self)),
            r is Err ==> *final(self) == *old(self),
    {
        let code = match frame.word(0) {
            Some(code) => code,
            None => {
                return Err(Breach::Connection(Violation::frame_size("a RST_STREAM that is not 4 octets")));
            },
        };
        if frame.payload.len() != 4 {
            return Err(Breach::Connection(Violation::frame_size("a RST_STREAM that is not 4 octets")));
        }
        if frame.stream > self.highest {
            return Err(Breach::Connection(Violation::protocol("a RST_STREAM on an idle stream")));
        }
        self.reset_quietly(frame.stream, ErrorCode::of(code));
        Ok(())
    }
}

impl Connection {
    fn ping_frame(&mut self, frame: &Frame, out: &mut Vec<u8>) -> (r: Result<(), Breach>)
        requires
            old(self).wf(),
        ensures
            final(self).wf(),
            outcome_of(r) == ping_outcome(frame),
            final(self).streams == old(self).streams,
            r is Ok && frame.flags & ACK != 0 ==> final(self).pongs@.len() == old(self).pongs@.len() + 1
                && final(self).pongs@.last()@ == frame.payload@ && final(self).pongs@.drop_last()
                == old(self).pongs@ && final(out)@ == old(out)@,
            r is Ok && frame.flags & ACK == 0 ==> final(self).pongs == old(self).pongs && final(out)@
                == old(out)@ + frame_octets(Kind::Ping, ACK, 0, frame.payload@),
            r is Err ==> final(out)@ == old(out)@ && final(self).pongs == old(self).pongs,
            same_but_pongs(final(self), old(self)),
    {
        let p = frame.payload.as_slice();
        if p.len() != 8 {
            return Err(Breach::Connection(Violation::frame_size("a PING that is not 8 octets")));
        }
        let opaque: [u8; 8] = [p[0], p[1], p[2], p[3], p[4], p[5], p[6], p[7]];
        proof {
            assert(opaque@ =~= frame.payload@);
        }
        if frame.has(ACK) {
            self.pongs.push(vstd::slice::slice_to_vec(p));
            proof {
                assert(self.pongs@.drop_last() =~= old(self).pongs@);
            }
            return Ok(());
        }
        let pong = Frame::ping(opaque, true);
        super::frame::write(out, &pong);
        Ok(())
    }
}

impl Connection {
    fn goaway_frame(&mut self, frame: &Frame) -> (r: Result<(), Breach>)
        requires
            old(self).wf(),
        ensures
            final(self).wf(),
            outcome_of(r) == goaway_outcome(frame),
            r is Ok ==> ({
                let last = word_at(frame.payload@, 0) & MAX_STREAM_ID;
                &&& final(self).goaway == Some((last, code_of(word_at(frame.payload@, 4))))
                &&& final(self).lanes() == passed_over(old(self).lanes(), last, old(self).client)
            }),
            r is Err ==> *final(self) == *old(self),
            same_frame(final(self), old(self)),
            final(self).remote == old(self).remote,
            final(self).encoder == old(self).encoder,
            final(self).decoder == old(self).decoder,
            final(self).send == old(self).send,
            final(self).receive == old(self).receive,
            final(self).continuing == old(self).continuing,
            final(self).highest == old(self).highest,
            final(self).last_peer == old(self).last_peer,
            final(self).settings_seen == old(self).settings_seen,
            final(self).pongs == old(self).pongs,
    {
        let (last, code) = match (frame.word(0), frame.word(4)) {
            (Some(last), Some(code)) => (last, code),
            _ => {
                return Err(Breach::Connection(Violation::frame_size("a GOAWAY under 8 octets")));
            },
        };
        let last = last & MAX_STREAM_ID;
        self.goaway = Some((last, ErrorCode::of(code)));
        let client = self.client;
        let ghost before = *self;
        let mut k: usize = 0;
        while k < self.streams.len()
            invariant
                k <= self.streams@.len() == before.streams@.len(),
                same_but_streams(self, &before),
                self.encoder == before.encoder,
                self.stalls == before.stalls,
                client == before.client,
                forall|j: int| k <= j < self.streams@.len() ==> #[trigger] self.streams@[j] == before.streams@[j],
                forall|j: int|
                    0 <= j < k ==> #[trigger] self.streams@[j] == passed_entry(before.streams@[j], last, client),
            decreases self.streams.len() - k,
        {
            let ghost prev = self.streams@;
            let id = self.streams[k].0;
            let unreset = self.streams[k].1.reset.is_none();
            if id > last && (id % 2 == 1) == client && unreset {
                let (sid, mut stream) = self.take_stream(k);
                stream.reset = Some(ErrorCode::RefusedStream);
                self.put_stream(k, (sid, stream));
                proof {
                    assert(self.streams@ =~= prev.update(k as int, (sid, stream)));
                }
            }
            k = k + 1;
        }
        proof {
            assert(self.lanes() =~= passed_over(before.lanes(), last, client));
            assert forall|j: int| 0 <= j < self.streams@.len() implies #[trigger] self.streams@[j].0
                <= self.highest by {
                assert(self.streams@[j].0 == before.streams@[j].0);
            }
            assert forall|i: int, j: int| 0 <= i < j < self.lanes().len() implies self.lanes()[i].0
                < self.lanes()[j].0 by {
                assert(self.lanes()[i].0 == before.lanes()[i].0 && self.lanes()[j].0 == before.lanes()[j].0);
            }
            assert forall|j: int| 0 <= j < self.streams@.len() implies #[trigger] self.streams@[j].1.receive@
                <= MAX_STREAM_ID && self.streams@[j].1.body@.len() <= crate::http::MAX_BODY by {
                assert(self.streams@[j].1.receive == before.streams@[j].1.receive);
                assert(self.streams@[j].1.body == before.streams@[j].1.body);
            }
        }
        Ok(())
    }
}

impl Connection {
    fn window_update(&mut self, frame: &Frame) -> (r: Result<(), Breach>)
        requires
            old(self).wf(),
        ensures
            final(self).wf(),
            outcome_of(r) == window_update_outcome(old(self), frame),
            r is Ok && frame.stream == 0 ==> final(self).send@ == old(self).send@ + (word_at(
                frame.payload@,
                0,
            ) & MAX_STREAM_ID) && final(self).lanes() == old(self).lanes(),
            r is Ok && frame.stream != 0 ==> final(self).send == old(self).send && final(self).lanes()
                == granted(old(self).lanes(), frame.stream, word_at(frame.payload@, 0) & MAX_STREAM_ID),
            r is Err ==> final(self).send == old(self).send && final(self).lanes() == old(self).lanes(),
            final(self).remote == old(self).remote,
            final(self).encoder == old(self).encoder,
            final(self).decoder == old(self).decoder,
            final(self).receive == old(self).receive,
            final(self).continuing == old(self).continuing,
            final(self).highest == old(self).highest,
            final(self).last_peer == old(self).last_peer,
            final(self).goaway == old(self).goaway,
            final(self).settings_seen == old(self).settings_seen,
            final(self).pongs == old(self).pongs,
            same_frame(final(self), old(self)),
    {
        let word = match frame.word(0) {
            Some(word) => word,
            None => {
                return Err(Breach::Connection(Violation::frame_size("a WINDOW_UPDATE that is not 4 octets")));
            },
        };
        if frame.payload.len() != 4 {
            return Err(Breach::Connection(Violation::frame_size("a WINDOW_UPDATE that is not 4 octets")));
        }
        let increment = word & MAX_STREAM_ID;
        let id = frame.stream;
        if id == 0 {
            return match self.send.grant(increment) {
                Ok(()) => Ok(()),
                Err(v) => Err(Breach::Connection(v)),
            };
        }
        if id > self.highest {
            return Err(Breach::Connection(Violation::protocol("a WINDOW_UPDATE on an idle stream")));
        }
        match self.find(id) {
            Some(k) => {
                let (sid, mut stream) = self.take_stream(k);
                let granted = stream.send.grant(increment);
                self.put_stream(k, (sid, stream));
                proof {
                    let lanes = old(self).lanes();
                    assert(self.streams@ =~= old(self).streams@.update(k as int, (sid, stream)));
                    if granted is Ok {
                        assert(self.lanes() =~= super::receive::granted(lanes, id, increment));
                    } else {
                        assert(self.lanes() =~= lanes);
                    }
                    assert forall|i: int, j: int| 0 <= i < j < self.lanes().len() implies self.lanes()[i].0
                        < self.lanes()[j].0 by {
                        assert(self.lanes()[i].0 == lanes[i].0 && self.lanes()[j].0 == lanes[j].0);
                    }
                    assert forall|j: int| 0 <= j < self.streams@.len() implies #[trigger] self.streams@[j].0
                        <= self.highest by {
                        assert(self.streams@[j].0 == old(self).streams@[j].0);
                    }
                }
                match granted {
                    Ok(()) => Ok(()),
                    Err(v) => Err(Breach::Stream(id, v)),
                }
            },
            None => Ok(()),
        }
    }
}

/// `lanes` with every window to send moved by `delta`.
pub open spec fn shifted(lanes: Seq<(u32, Lane)>, delta: int) -> Seq<(u32, Lane)> {
    Seq::new(lanes.len(), |k: int| (lanes[k].0, Lane { send: lanes[k].1.send + delta, ..lanes[k].1 }))
}

/// Whether a window of `lanes` moved by `delta` passes 2^31 - 1, or what an
/// `i64` holds.
pub open spec fn shift_breaks(lanes: Seq<(u32, Lane)>, delta: int) -> bool {
    exists|k: int|
        0 <= k < lanes.len() && (#[trigger] lanes[k].1.send + delta > MAX_STREAM_ID || lanes[k].1.send
            + delta < i64::MIN)
}

/// An encoder's table after it is held to `size` octets.
pub open spec fn encoder_resized(
    e: (Seq<(Seq<char>, Seq<char>)>, nat, bool, Option<nat>),
    size: nat,
) -> (Seq<(Seq<char>, Seq<char>)>, nat, bool, Option<nat>) {
    if size == e.1 {
        e
    } else {
        (super::hpack::table::evicted(e.0, size), size, e.2, Some(size))
    }
}

/// The most of the peer's table size this side's encoder keeps.
pub open spec fn encoder_size(remote: Settings) -> nat {
    if remote.header_table_size < 4096 {
        remote.header_table_size as nat
    } else {
        4096
    }
}

/// What a `SETTINGS` comes to.
pub open spec fn settings_outcome(c: &Connection, f: &Frame) -> Outcome {
    if f.flags & ACK != 0 {
        if f.payload@.len() != 0 {
            Outcome::Connection(ErrorCode::FrameSize)
        } else {
            Outcome::Handled
        }
    } else {
        match applied(c.remote, f.payload@, c.client) {
            Err((_, code)) => Outcome::Connection(code),
            Ok(next) => if shift_breaks(
                c.lanes(),
                next.initial_window_size - c.remote.initial_window_size,
            ) {
                Outcome::Connection(ErrorCode::FlowControl)
            } else {
                Outcome::Handled
            },
        }
    }
}

impl Connection {
    fn settings(&mut self, frame: &Frame, out: &mut Vec<u8>) -> (r: Result<(), Breach>)
        requires
            old(self).wf(),
        ensures
            final(self).wf(),
            outcome_of(r) == settings_outcome(old(self), frame),
            r is Ok && frame.flags & ACK != 0 ==> *final(self) == *old(self) && final(out)@ == old(out)@,
            r is Err ==> final(out)@ == old(out)@,
            r is Ok && frame.flags & ACK == 0 ==> ({
                let next = applied(old(self).remote, frame.payload@, old(self).client)->Ok_0;
                &&& final(self).remote == next
                &&& final(self).lanes() == shifted(
                    old(self).lanes(),
                    next.initial_window_size - old(self).remote.initial_window_size,
                )
                &&& final(self).encoder@ == encoder_resized(old(self).encoder@, encoder_size(next))
                &&& final(self).settings_seen
                &&& final(out)@ == old(out)@ + frame_octets(Kind::Settings, ACK, 0, Seq::empty())
                &&& final(self).decoder == old(self).decoder
                &&& final(self).send == old(self).send
                &&& final(self).receive == old(self).receive
                &&& final(self).continuing == old(self).continuing
                &&& final(self).highest == old(self).highest
                &&& final(self).last_peer == old(self).last_peer
                &&& final(self).goaway == old(self).goaway
                &&& final(self).pongs == old(self).pongs
            }),
            same_frame(final(self), old(self)),
    {
        if frame.has(ACK) {
            if frame.payload.len() != 0 {
                return Err(Breach::Connection(Violation::frame_size("a SETTINGS acknowledgement with a payload")));
            }
            return Ok(());
        }
        let before = self.remote.initial_window_size;
        proof {
            super::settings::lemma_applied_in_range(self.remote, frame.payload@, self.client, 0);
            reveal_with_fuel(super::settings::applied_from, 1);
        }
        let outcome = self.remote.apply(frame.payload.as_slice(), self.client);
        if let Err(v) = outcome {
            return Err(Breach::Connection(v));
        }
        let delta: i64 = self.remote.initial_window_size as i64 - before as i64;
        let ghost start = *self;
        let mut k: usize = 0;
        while k < self.streams.len()
            invariant
                start.wf(),
                applied(old(self).remote, frame.payload@, old(self).client) == Ok::<
                    Settings,
                    (Settings, super::error::ErrorCode),
                >(start.remote),
                start.streams == old(self).streams,
                delta == start.remote.initial_window_size - old(self).remote.initial_window_size,
                same_frame(&start, old(self)),
                frame.flags & ACK == 0,
                k <= self.streams@.len() == start.streams@.len(),
                same_but_streams(self, &start),
                self.encoder == start.encoder,
                self.stalls == start.stalls,
                forall|j: int| k <= j < self.streams@.len() ==> #[trigger] self.streams@[j] == start.streams@[j],
                forall|j: int|
                    0 <= j < k ==> #[trigger] self.streams@[j] == shifted_entry(start.streams@[j], delta as int),
                forall|j: int| 0 <= j < k ==> !(#[trigger] start.lanes()[j].1.send + delta > MAX_STREAM_ID
                    || start.lanes()[j].1.send + delta < i64::MIN),
            decreases self.streams.len() - k,
        {
            let ghost prev = self.streams@;
            let (sid, mut stream) = self.take_stream(k);
            let shift = stream.send.shift(delta);
            self.put_stream(k, (sid, stream));
            proof {
                assert(self.streams@ =~= prev.update(k as int, (sid, stream)));
            }
            if let Err(v) = shift {
                proof {
                    assert(start.lanes()[k as int].1.send == start.streams@[k as int].1.send@);
                    assert(shift_breaks(start.lanes(), delta as int));
                    assert forall|j: int| 0 <= j < self.streams@.len() implies (#[trigger] self.streams@[j]).0
                        == start.streams@[j].0 && self.streams@[j].1.receive == start.streams@[j].1.receive
                        && self.streams@[j].1.body == start.streams@[j].1.body by {
                        if j < k {
                            assert(self.streams@[j] == shifted_entry(start.streams@[j], delta as int));
                        }
                    }
                    lemma_shift_keeps(start, *self);
                }
                return Err(Breach::Connection(v));
            }
            k = k + 1;
        }
        proof {
            if shift_breaks(start.lanes(), delta as int) {
                let j = choose|j: int|
                    0 <= j < start.lanes().len() && (#[trigger] start.lanes()[j].1.send + delta
                        > MAX_STREAM_ID || start.lanes()[j].1.send + delta < i64::MIN);
                assert(false);
            }
            assert(self.lanes() =~= shifted(start.lanes(), delta as int));
            assert forall|j: int| 0 <= j < self.streams@.len() implies (#[trigger] self.streams@[j]).0
                == start.streams@[j].0 && self.streams@[j].1.receive == start.streams@[j].1.receive
                && self.streams@[j].1.body == start.streams@[j].1.body by {
                assert(self.streams@[j] == shifted_entry(start.streams@[j], delta as int));
            }
            lemma_shift_keeps(start, *self);
        }
        let size = if self.remote.header_table_size < 4096 {
            self.remote.header_table_size
        } else {
            4096
        };
        self.encoder.resize(size as usize);
        self.settings_seen = true;
        let ack = Frame::new(Kind::Settings, ACK, 0, Vec::new());
        super::frame::write(out, &ack);
        Ok(())
    }
}

/// A stream with its window to send moved by `delta`.
pub open spec fn shifted_entry(entry: (u32, Stream), delta: int) -> (u32, Stream) {
    (entry.0, Stream { send: Window((entry.1.send@ + delta) as i64), ..entry.1 })
}

/// Moving windows to send keeps what a connection keeps.
proof fn lemma_shift_keeps(a: Connection, b: Connection)
    requires
        a.wf(),
        same_but_streams(&b, &a),
        b.encoder == a.encoder,
        b.streams@.len() == a.streams@.len(),
        forall|j: int|
            0 <= j < b.streams@.len() ==> (#[trigger] b.streams@[j]).0 == a.streams@[j].0 && b.streams@[j].1.receive
                == a.streams@[j].1.receive && b.streams@[j].1.body == a.streams@[j].1.body,
        DEFAULT_MAX_FRAME_SIZE <= b.remote.max_frame_size <= MAX_FRAME_SIZE_LIMIT,
    ensures
        b.wf(),
{
    assert forall|i: int, j: int| 0 <= i < j < b.lanes().len() implies b.lanes()[i].0 < b.lanes()[j].0 by {
        assert(b.lanes()[i].0 == a.lanes()[i].0 && b.lanes()[j].0 == a.lanes()[j].0);
    }
    assert forall|j: int| 0 <= j < b.streams@.len() implies #[trigger] b.streams@[j].0 <= b.highest by {
        assert(b.streams@[j].0 == a.streams@[j].0);
    }
    assert forall|j: int| 0 <= j < b.streams@.len() implies #[trigger] b.streams@[j].1.receive@ <= MAX_STREAM_ID
        && b.streams@[j].1.body@.len() <= crate::http::MAX_BODY by {
        assert(b.streams@[j].1.receive == a.streams@[j].1.receive);
    }
}

/// What a `DATA` comes to: a breach of the connection where it passes the
/// connection's window or arrives on an idle stream, of its stream where
/// that is closed, passes the stream's window or the most a body holds.
pub open spec fn data_outcome(c: &Connection, f: &Frame) -> Outcome {
    let id = f.stream;
    let len = f.payload@.len();
    let lanes = c.lanes();
    let lane = lane_at(lanes, id);
    if len > c.receive@ {
        Outcome::Connection(ErrorCode::FlowControl)
    } else if idle(c, id) {
        Outcome::Connection(ErrorCode::Protocol)
    } else if index_of_id(lanes, id) < 0 {
        Outcome::Stream(id, ErrorCode::StreamClosed)
    } else if lane.reset is Some {
        Outcome::Handled
    } else if !peer_may_send(lane.state) {
        Outcome::Stream(id, ErrorCode::StreamClosed)
    } else if len > lane.receive {
        Outcome::Stream(id, ErrorCode::FlowControl)
    } else {
        match content_of(Kind::Data, f.flags, f.payload@) {
            Err(code) => Outcome::Connection(code),
            Ok(content) => if lane.body.len() + content.len() > MAX_BODY {
                Outcome::Stream(id, ErrorCode::Cancel)
            } else {
                Outcome::Handled
            },
        }
    }
}

/// The streams after a `DATA` that is no breach of the connection: its
/// content added to its stream's body, which it may end; a stream reset
/// lets it go.
pub open spec fn data_lanes(c: &Connection, f: &Frame) -> Seq<(u32, Lane)> {
    let lanes = c.lanes();
    let id = f.stream;
    let lane = lane_at(lanes, id);
    let len = f.payload@.len();
    let end = f.flags & END_STREAM != 0;
    match data_outcome(c, f) {
        Outcome::Handled => if lane.reset is Some {
            lanes
        } else {
            lane_changed(
                lanes,
                id,
                Lane {
                    body: lane.body + content_of(Kind::Data, f.flags, f.payload@)->Ok_0,
                    state: if end {
                        after_remote_end(lane.state)
                    } else {
                        lane.state
                    },
                    receive: if end {
                        lane.receive - len
                    } else {
                        lane.receive
                    },
                    ..lane
                },
            )
        },
        Outcome::Stream(_, ErrorCode::Cancel) => lane_changed(
            lanes,
            id,
            Lane { receive: lane.receive - len, ..lane },
        ),
        _ => lanes,
    }
}

/// What this side answers a `DATA`: the connection's window given back
/// where it took any, and the stream's where the stream goes on.
pub open spec fn data_answer(c: &Connection, f: &Frame) -> Seq<u8> {
    let len = f.payload@.len();
    let id = f.stream;
    (if 0 < len <= c.receive@ {
        update_octets(0, len as u32)
    } else {
        seq![]
    }) + (if data_outcome(c, f) is Handled && lane_at(c.lanes(), id).reset is None && f.flags
        & END_STREAM == 0 && len > 0 {
        update_octets(id, len as u32)
    } else {
        seq![]
    })
}

impl Connection {
    #[verifier::spinoff_prover]
    #[verifier::rlimit(40)]
    fn data(&mut self, frame: &Frame, out: &mut Vec<u8>) -> (r: Result<(), Breach>)
        requires
            old(self).wf(),
            frame.kind == Kind::Data,
        ensures
            final(self).wf(),
            outcome_of(r) == data_outcome(old(self), frame),
            !(outcome_of(r) is Connection) ==> final(self).lanes() == data_lanes(old(self), frame),
            final(out)@ == old(out)@ + data_answer(old(self), frame),
            same_but_lanes(final(self), old(self)),
    {
        let id = frame.stream;
        let length = frame.payload.len();
        if let Err(v) = self.receive.take(length) {
            return Err(Breach::Connection(v));
        }
        let ghost first = out@;
        if length > 0 {
            let increment = length as u32;
            let update = Frame::window_update(0, increment);
            super::frame::write(out, &update);
            if let Err(v) = self.receive.grant(increment) {
                proof {
                    assert(false);
                }
                return Err(Breach::Connection(v));
            }
        }
        let ghost updated = out@;
        proof {
            assert(self.receive == old(self).receive);
        }
        if id > self.highest {
            proof {
                assert(out@ =~= old(out)@ + data_answer(old(self), frame));
            }
            return Err(Breach::Connection(Violation::protocol(with_number("DATA on idle stream ", id as u64, "").as_str())));
        }
        let k = match self.find(id) {
            Some(k) => k,
            None => {
                proof {
                    assert(out@ =~= old(out)@ + data_answer(old(self), frame));
                }
                return Err(Breach::Stream(id, closed_stream()));
            },
        };
        if self.streams[k].1.reset.is_some() {
            proof {
                assert(out@ =~= old(out)@ + data_answer(old(self), frame));
            }
            return Ok(());
        }
        if !self.streams[k].1.state.receiving() {
            proof {
                assert(out@ =~= old(out)@ + data_answer(old(self), frame));
            }
            return Err(Breach::Stream(id, closed_stream()));
        }
        let (sid, mut stream) = self.take_stream(k);
        if let Err(v) = stream.receive.take(length) {
            self.put_stream(k, (sid, stream));
            proof {
                assert(self.streams@ =~= old(self).streams@);
                assert(out@ =~= old(out)@ + data_answer(old(self), frame));
            }
            return Err(Breach::Stream(id, v));
        }
        let content = match frame.content() {
            Ok(content) => content,
            Err(v) => {
                self.put_stream(k, (sid, stream));
                proof {
                    assert(self.streams@ =~= old(self).streams@.update(k as int, (sid, stream)));
                    assert(old(self).streams@[k as int].1.receive@ <= MAX_STREAM_ID);
                    lemma_body_update_keeps(*old(self), *self, k as int, (sid, stream));
                    assert(lane_at(old(self).lanes(), id) == super::connection::lane_of(old(self).streams@[k as int].1));
                    assert(out@ =~= old(out)@ + data_answer(old(self), frame));
                }
                return Err(Breach::Connection(v));
            },
        };
        if content.len() > MAX_BODY - stream.body.len() {
            self.put_stream(k, (sid, stream));
            proof {
                let lanes = old(self).lanes();
                assert(self.streams@ =~= old(self).streams@.update(k as int, (sid, stream)));
                assert(self.lanes() =~= data_lanes(old(self), frame));
                assert(old(self).streams@[k as int].1.receive@ <= MAX_STREAM_ID);
                lemma_body_update_keeps(*old(self), *self, k as int, (sid, stream));
                assert(out@ =~= old(out)@ + data_answer(old(self), frame));
            }
            return Err(Breach::Stream(id, Violation::new(ErrorCode::Cancel, "a body over the most Xmip reads")));
        }
        let ghost old_body = stream.body@;
        stream.body.extend_from_slice(content);
        proof {
            assert(stream.body@ =~= old_body + content@);
        }
        if frame.has(END_STREAM) {
            stream.state = stream.state.ended_remotely();
        } else if length > 0 {
            let increment = length as u32;
            if let Err(v) = stream.receive.grant(increment) {
                proof {
                    assert(false);
                }
                self.put_stream(k, (sid, stream));
                return Err(Breach::Stream(id, v));
            }
            let update = Frame::window_update(id, increment);
            super::frame::write(out, &update);
        }
        self.put_stream(k, (sid, stream));
        proof {
            let lanes = old(self).lanes();
            assert(self.streams@ =~= old(self).streams@.update(k as int, (sid, stream)));
            assert(self.lanes() =~= data_lanes(old(self), frame));
            lemma_body_update_keeps(*old(self), *self, k as int, (sid, stream));
            assert(out@ =~= old(out)@ + data_answer(old(self), frame));
        }
        Ok(())
    }
}

/// A frame on a stream the peer has already ended.
fn closed_stream() -> (v: Violation)
    ensures
        v.code == ErrorCode::StreamClosed,
{
    Violation::new(ErrorCode::StreamClosed, "DATA on a closed stream")
}

/// Changing one stream in place, its identifier kept and its window to
/// receive and its body within their bounds, keeps what a connection
/// keeps.
pub proof fn lemma_body_update_keeps(a: Connection, b: Connection, k: int, entry: (u32, Stream))
    requires
        a.wf(),
        0 <= k < a.streams@.len(),
        b.streams@ == a.streams@.update(k, entry),
        entry.0 == a.streams@[k].0,
        entry.1.receive@ <= MAX_STREAM_ID,
        entry.1.body@.len() <= MAX_BODY,
        b.wf_rest(),
        b.highest >= a.highest,
        b.client == a.client,
    ensures
        b.wf(),
{
    assert forall|i: int| 0 <= i < b.streams@.len() implies #[trigger] b.streams@[i].0 == a.streams@[i].0 by {}
    assert forall|i: int, j: int| 0 <= i < j < b.lanes().len() implies b.lanes()[i].0 < b.lanes()[j].0 by {
        assert(b.lanes()[i].0 == a.lanes()[i].0 && b.lanes()[j].0 == a.lanes()[j].0);
    }
    assert forall|j: int| 0 <= j < b.streams@.len() implies #[trigger] b.streams@[j].0 <= b.highest by {
        assert(b.streams@[j].0 == a.streams@[j].0);
    }
}

/// The octets of each name and value of `texts`.
pub open spec fn texts_octets(texts: Seq<(Seq<char>, Seq<char>)>) -> Seq<(Seq<u8>, Seq<u8>)> {
    Seq::new(texts.len(), |k: int| (utf8(texts[k].0), utf8(texts[k].1)))
}

/// Whether a header list is refused as malformed: larger than `limit`, or
/// breaking the rules of section 8.2.
pub open spec fn list_refused(texts: Seq<(Seq<char>, Seq<char>)>, limit: nat) -> bool {
    list_size(texts_octets(texts)) > limit || fault_from(texts, 0, false) is Some
}

/// Whether `texts` are the head of a 1xx.
pub open spec fn informational_texts(texts: Seq<(Seq<char>, Seq<char>)>) -> bool {
    exists|i: int|
        0 <= i < texts.len() && (#[trigger] texts[i]).0 == ":status"@ && utf8(texts[i].1).len() > 0
            && utf8(texts[i].1)[0] == 0x31u8
}

/// A stream after a header block of `fields` arrived whole on it: the
/// head, a 1xx the head replaces, or the trailers.
pub open spec fn headed(lane: Lane, fields: Seq<(Seq<char>, Seq<char>)>, end: bool) -> Lane {
    let info = informational_texts(fields);
    Lane {
        state: if end {
            after_remote_end(lane.state)
        } else {
            lane.state
        },
        head: if lane.head is None && !info {
            Some(fields)
        } else {
            lane.head
        },
        trailers: if lane.head is Some && !info {
            fields
        } else {
            lane.trailers
        },
        ..lane
    }
}

/// The streams of `lanes` not closed.
pub open spec fn live(lanes: Seq<(u32, Lane)>) -> nat
    decreases lanes.len(),
{
    if lanes.len() == 0 {
        0
    } else {
        live(lanes.drop_last()) + if lanes.last().1.state != State::Closed {
            1nat
        } else {
            0nat
        }
    }
}

/// The most streams the peer may have open at once, as this side
/// announced.
pub open spec fn most_streams() -> nat {
    100
}

/// The largest header list this side reads, as it announced.
pub open spec fn most_list() -> nat {
    65536
}

/// A header block decoded with `c`'s table.
pub open spec fn decoded(c: &Connection, block: Seq<u8>) -> Result<
    (Seq<(Seq<char>, Seq<char>)>, Seq<(Seq<char>, Seq<char>)>, nat),
    (Seq<(Seq<char>, Seq<char>)>, nat),
> {
    block_from(c.decoder@.0, c.decoder@.1, c.decoder@.2, block, 0, seq![])
}

/// Whether a header block on `id` opens a stream the peer may not open:
/// only a client opens one, on an odd number above the last.
pub open spec fn opens_wrongly(c: &Connection, id: u32) -> bool {
    c.client || id % 2 == 0 || id <= c.last_peer
}

/// What a header block, whole or not, on `id` comes to.
pub open spec fn block_outcome(c: &Connection, id: u32, block: Seq<u8>, end: bool, whole: bool) -> Outcome {
    let lanes = c.lanes();
    let lane = lane_at(lanes, id);
    if block.len() > MAX_BLOCK {
        Outcome::Connection(ErrorCode::EnhanceYourCalm)
    } else if !whole {
        Outcome::Handled
    } else {
        match decoded(c, block) {
            Err(_) => Outcome::Connection(ErrorCode::Compression),
            Ok((fields, _, _)) => if list_refused(fields, most_list()) {
                Outcome::Stream(id, ErrorCode::Protocol)
            } else if index_of_id(lanes, id) >= 0 {
                if lane.reset is Some {
                    Outcome::Handled
                } else if !peer_may_send(lane.state) {
                    Outcome::Stream(id, ErrorCode::StreamClosed)
                } else if lane.head is Some && !informational_texts(fields) && !end {
                    Outcome::Stream(id, ErrorCode::Protocol)
                } else {
                    Outcome::Handled
                }
            } else if opens_wrongly(c, id) {
                Outcome::Connection(ErrorCode::Protocol)
            } else if c.going_away {
                Outcome::Handled
            } else if live(lanes) >= most_streams() {
                Outcome::Stream(id, ErrorCode::RefusedStream)
            } else {
                Outcome::Handled
            },
        }
    }
}

/// Whether `after` are the streams after a header block on `id` that is
/// no breach of the connection: the block's fields on the stream, opened
/// where the peer opens it.
pub open spec fn block_lanes(c: &Connection, id: u32, block: Seq<u8>, end: bool, whole: bool, after: Seq<(u32, Lane)>) -> bool {
    let lanes = c.lanes();
    let lane = lane_at(lanes, id);
    if !whole || !(block_outcome(c, id, block, end, whole) is Handled) {
        after == lanes
    } else {
        let fields = decoded(c, block)->Ok_0.0;
        if index_of_id(lanes, id) >= 0 {
            if lane.reset is Some {
                after == lanes
            } else {
                after == lane_changed(lanes, id, headed(lane, fields, end))
            }
        } else if c.going_away {
            after == lanes
        } else {
            exists|k: int|
                0 <= k <= lanes.len() && after == lanes.insert(
                    k,
                    (
                        id,
                        headed(
                            fresh_lane(c.remote.initial_window_size, c.local.initial_window_size),
                            fields,
                            end,
                        ),
                    ),
                )
        }
    }
}

/// The decoder's table after a whole block: as far as the block was read.
pub open spec fn table_after(c: &Connection, block: Seq<u8>) -> (Seq<(Seq<char>, Seq<char>)>, nat, nat) {
    match decoded(c, block) {
        Ok((_, fields, size)) => (fields, size, c.decoder@.2),
        Err((fields, size)) => (fields, size, c.decoder@.2),
    }
}

/// Whether the peer opened `id` with a header block: a new stream that
/// is no breach.
pub open spec fn opened_by_peer(c: &Connection, id: u32, block: Seq<u8>, end: bool, whole: bool) -> bool {
    &&& whole
    &&& block.len() <= MAX_BLOCK
    &&& decoded(c, block) matches Ok((fields, _, _))
    &&& !list_refused(fields, most_list())
    &&& index_of_id(c.lanes(), id) < 0
    &&& !opens_wrongly(c, id)
}

/// `texts` of a list are its fields as text.
proof fn lemma_texts_of(list: Seq<(String, String)>)
    ensures
        fields_of(list) == field_texts(list),
        texts_octets(fields_of(list)) == field_octets(list),
        informational(list) == informational_texts(fields_of(list)),
{
    assert(fields_of(list) =~= field_texts(list));
    assert(texts_octets(fields_of(list)) =~= field_octets(list));
    if informational(list) {
        let i = choose|i: int|
            0 <= i < list.len() && (#[trigger] list[i]).0@ == ":status"@ && utf8(list[i].1@).len()
                > 0 && utf8(list[i].1@)[0] == 0x31u8;
        assert(fields_of(list)[i] == (list[i].0@, list[i].1@));
    }
    if informational_texts(fields_of(list)) {
        let i = choose|i: int|
            0 <= i < fields_of(list).len() && (#[trigger] fields_of(list)[i]).0 == ":status"@ && utf8(
                fields_of(list)[i].1,
            ).len() > 0 && utf8(fields_of(list)[i].1)[0] == 0x31u8;
        assert(list[i].0@ == ":status"@);
    }
}

impl Connection {
    /// How many streams are not closed.
    fn live_count(&self) -> (n: usize)
        ensures
            n == live(self.lanes()),
    {
        let mut n: usize = 0;
        let mut k: usize = 0;
        while k < self.streams.len()
            invariant
                k <= self.streams@.len(),
                n == live(self.lanes().take(k as int)),
                n <= k,
            decreases self.streams.len() - k,
        {
            proof {
                assert(self.lanes().take(k + 1).drop_last() =~= self.lanes().take(k as int));
            }
            if self.streams[k].1.state != State::Closed {
                n = n + 1;
            }
            k = k + 1;
        }
        proof {
            assert(self.lanes().take(k as int) =~= self.lanes());
        }
        n
    }

    #[verifier::spinoff_prover]
    #[verifier::rlimit(60)]
    fn block(&mut self, id: u32, block: Vec<u8>, end: bool, whole: bool) -> (r: Result<(), Breach>)
        requires
            old(self).wf(),
        ensures
            final(self).wf(),
            outcome_of(r) == block_outcome(old(self), id, block@, end, whole),
            !(outcome_of(r) is Connection) ==> block_lanes(old(self), id, block@, end, whole, final(self).lanes()),
            block@.len() <= MAX_BLOCK && whole ==> final(self).decoder@ == table_after(old(self), block@),
            block@.len() <= MAX_BLOCK && !whole ==> (final(self).continuing matches Some(c) && c.stream
                == id && c.block@ == block@ && c.end == end),
            block@.len() > MAX_BLOCK || whole ==> final(self).continuing == old(self).continuing,
            opened_by_peer(old(self), id, block@, end, whole) ==> final(self).last_peer == id
                && final(self).highest == if id > old(self).highest {
                id
            } else {
                old(self).highest
            },
            !opened_by_peer(old(self), id, block@, end, whole) ==> final(self).last_peer == old(
                self,
            ).last_peer && final(self).highest == old(self).highest,
            same_frame(final(self), old(self)),
            final(self).remote == old(self).remote,
            final(self).encoder == old(self).encoder,
            final(self).send == old(self).send,
            final(self).receive == old(self).receive,
            final(self).goaway == old(self).goaway,
            final(self).settings_seen == old(self).settings_seen,
            final(self).pongs == old(self).pongs,
    {
        if block.len() > MAX_BLOCK {
            return Err(Breach::Connection(Violation::new(ErrorCode::EnhanceYourCalm, "a header block over 1 MiB")));
        }
        if !whole {
            self.continuing = Some(Continuing { stream: id, block, end });
            return Ok(());
        }
        let fields = match self.decoder.decode(block.as_slice()) {
            Ok(fields) => fields,
            Err(v) => {
                return Err(Breach::Connection(v));
            },
        };
        proof {
            lemma_texts_of(fields@);
        }
        let limit: usize = match self.local.max_header_list_size {
            Some(size) => size as usize,
            None => usize::MAX,
        };
        if let Err(v) = check(fields.as_slice(), limit) {
            return Err(Breach::Stream(id, v));
        }
        if let Some(k) = self.find(id) {
            if self.streams[k].1.reset.is_some() {
                return Ok(());
            }
            let (sid, mut stream) = self.take_stream(k);
            let took = stream.headers(fields, end);
            self.put_stream(k, (sid, stream));
            proof {
                let lanes = old(self).lanes();
                assert(self.streams@ =~= old(self).streams@.update(k as int, (sid, stream)));
                assert(old(self).streams@[k as int].1.receive@ <= MAX_STREAM_ID);
                lemma_body_update_keeps(*old(self), *self, k as int, (sid, stream));
                if took is Ok {
                    assert(self.lanes() =~= lane_changed(lanes, id, headed(lane_at(lanes, id), decoded(old(self), block@)->Ok_0.0, end)));
                } else {
                    assert(self.lanes() =~= lanes);
                }
            }
            return match took {
                Ok(()) => Ok(()),
                Err(v) => Err(Breach::Stream(id, v)),
            };
        }
        if self.client || id % 2 == 0 || id <= self.last_peer {
            return Err(Breach::Connection(Violation::protocol(with_number("a header block on stream ", id as u64, "").as_str())));
        }
        self.last_peer = id;
        if id > self.highest {
            self.highest = id;
        }
        proof {
            assert forall|j: int| 0 <= j < self.streams@.len() implies #[trigger] self.streams@[j].0
                <= self.highest by {
                assert(old(self).streams@[j].0 <= old(self).highest);
            }
        }
        if self.going_away {
            return Ok(());
        }
        let open = self.live_count();
        let most: usize = match self.local.max_concurrent_streams {
            Some(most) => most as usize,
            None => usize::MAX,
        };
        if open >= most {
            return Err(Breach::Stream(id, Violation::new(ErrorCode::RefusedStream, "too many streams at once")));
        }
        let ghost before = *self;
        let ghost list = fields@;
        let k = self.open(id);
        let ghost opened = *self;
        let (sid, mut stream) = self.take_stream(k);
        let ghost fresh = stream;
        let took = stream.headers(fields, end);
        self.put_stream(k, (sid, stream));
        proof {
            let lanes = old(self).lanes();
            assert(self.streams@ =~= opened.streams@.update(k as int, (sid, stream)));
            assert(opened.streams@[k as int].1.receive@ <= MAX_STREAM_ID);
            lemma_body_update_keeps(opened, *self, k as int, (sid, stream));
            assert(before.streams == old(self).streams);
            assert(before.remote == old(self).remote);
            assert(before.local == old(self).local);
            assert(index_of_id(before.lanes(), id) < 0);
            assert(opened.lanes() == lanes.insert(
                k as int,
                (id, fresh_lane(old(self).remote.initial_window_size, old(self).local.initial_window_size)),
            ));
            assert(opened.lanes().len() == opened.streams@.len());
            assert(lanes.len() == old(self).streams@.len());
            assert(k <= lanes.len());
            assert(opened.lanes()[k as int] == (
                id,
                fresh_lane(old(self).remote.initial_window_size, old(self).local.initial_window_size),
            ));
            assert(fresh == opened.streams@[k as int].1);
            assert(opened.lanes()[k as int].1 == super::connection::lane_of(fresh));
            assert(super::connection::lane_of(fresh) == fresh_lane(
                old(self).remote.initial_window_size,
                old(self).local.initial_window_size,
            ));
            assert(fields_of(list) == decoded(old(self), block@)->Ok_0.0);
            assert(informational(list) == informational_texts(fields_of(list)));
            assert(super::connection::lane_of(stream) == headed(
                fresh_lane(old(self).remote.initial_window_size, old(self).local.initial_window_size),
                decoded(old(self), block@)->Ok_0.0,
                end,
            ));
            assert(self.lanes() =~= opened.lanes().update(k as int, (id, super::connection::lane_of(stream))));
            assert(self.lanes() =~= lanes.insert(
                k as int,
                (
                    id,
                    headed(
                        fresh_lane(old(self).remote.initial_window_size, old(self).local.initial_window_size),
                        decoded(old(self), block@)->Ok_0.0,
                        end,
                    ),
                ),
            ));
        }
        match took {
            Ok(()) => Ok(()),
            Err(v) => {
                proof {
                    assert(false);
                }
                Err(Breach::Stream(id, v))
            },
        }
    }
}

/// What a `CONTINUATION` comes to: the block it continues, with its
/// payload added.
pub open spec fn continuation_outcome(c: &Connection, f: &Frame) -> Outcome {
    match c.continuing {
        None => Outcome::Connection(ErrorCode::Protocol),
        Some(k) => block_outcome(c, k.stream, k.block@ + f.payload@, k.end, f.flags & END_HEADERS != 0),
    }
}

impl Connection {
    fn continuation(&mut self, frame: &Frame) -> (r: Result<(), Breach>)
        requires
            old(self).wf(),
        ensures
            final(self).wf(),
            outcome_of(r) == continuation_outcome(old(self), frame),
            old(self).continuing matches Some(k) ==> ({
                let block = k.block@ + frame.payload@;
                let whole = frame.flags & END_HEADERS != 0;
                &&& !(outcome_of(r) is Connection) ==> block_lanes(old(self), k.stream, block, k.end, whole, final(self).lanes())
                &&& block.len() <= MAX_BLOCK && whole ==> final(self).decoder@ == table_after(old(self), block)
                &&& block.len() <= MAX_BLOCK && !whole ==> (final(self).continuing matches Some(n) && n.stream
                    == k.stream && n.block@ == block && n.end == k.end)
                &&& whole ==> final(self).continuing is None
                &&& opened_by_peer(old(self), k.stream, block, k.end, whole) ==> final(self).last_peer == k.stream
                    && final(self).highest == if k.stream > old(self).highest {
                    k.stream
                } else {
                    old(self).highest
                }
                &&& !opened_by_peer(old(self), k.stream, block, k.end, whole) ==> final(self).last_peer == old(
                    self,
                ).last_peer && final(self).highest == old(self).highest
            }),
            old(self).continuing is None ==> *final(self) == *old(self),
            same_frame(final(self), old(self)),
            final(self).remote == old(self).remote,
            final(self).encoder == old(self).encoder,
            final(self).send == old(self).send,
            final(self).receive == old(self).receive,
            final(self).goaway == old(self).goaway,
            final(self).settings_seen == old(self).settings_seen,
            final(self).pongs == old(self).pongs,
    {
        if self.continuing.is_none() {
            return Err(Breach::Connection(Violation::protocol("a CONTINUATION that continues nothing")));
        }
        let continuing = self.continuing.take();
        let Continuing { stream, mut block, end } = match continuing {
            Some(continuing) => continuing,
            None => {
                return Err(Breach::Connection(Violation::protocol("a CONTINUATION that continues nothing")));
            },
        };
        let ghost taken = *self;
        proof {
            assert(taken.lanes() == old(self).lanes());
        }
        let ghost first = block@;
        block.extend_from_slice(frame.payload.as_slice());
        proof {
            assert(block@ =~= first + frame.payload@);
        }
        let whole = frame.has(END_HEADERS);
        self.block(stream, block, end, whole)
    }
}

/// Whether a frame of `f`'s type is on the wrong kind of stream: the
/// connection's types on a stream, a stream's types on the connection.
pub open spec fn misplaced(f: &Frame) -> bool {
    match f.kind {
        Kind::Settings | Kind::Ping | Kind::Goaway => f.stream != 0,
        Kind::Data | Kind::Headers | Kind::Priority | Kind::RstStream | Kind::Continuation => f.stream
            == 0,
        _ => false,
    }
}

/// What a frame comes to: a breach of the connection where the peer's
/// `SETTINGS` has not come first, a header block is interrupted, or the
/// frame is on the wrong kind of stream; otherwise what its type says
/// (RFC 9113 section 6).
pub open spec fn handle_outcome(c: &Connection, f: &Frame) -> Outcome {
    if !c.settings_seen && f.kind != Kind::Settings {
        Outcome::Connection(ErrorCode::Protocol)
    } else if c.continuing matches Some(k) && (f.kind != Kind::Continuation || f.stream != k.stream) {
        Outcome::Connection(ErrorCode::Protocol)
    } else if misplaced(f) {
        Outcome::Connection(ErrorCode::Protocol)
    } else {
        match f.kind {
            Kind::Data => data_outcome(c, f),
            Kind::Headers => match content_of(Kind::Headers, f.flags, f.payload@) {
                Err(code) => Outcome::Connection(code),
                Ok(content) => block_outcome(
                    c,
                    f.stream,
                    content,
                    f.flags & END_STREAM != 0,
                    f.flags & END_HEADERS != 0,
                ),
            },
            Kind::Continuation => continuation_outcome(c, f),
            Kind::Priority => if f.payload@.len() != 5 {
                Outcome::Stream(f.stream, ErrorCode::FrameSize)
            } else {
                Outcome::Handled
            },
            Kind::Unknown(_) => Outcome::Handled,
            Kind::RstStream => rst_stream_outcome(c, f),
            Kind::Settings => settings_outcome(c, f),
            Kind::PushPromise => Outcome::Connection(ErrorCode::Protocol),
            Kind::Ping => ping_outcome(f),
            Kind::Goaway => goaway_outcome(f),
            Kind::WindowUpdate => window_update_outcome(c, f),
        }
    }
}

/// What a frame handled does to the connection `a`, making it `b`, and to
/// what this side sends, `before` becoming `after`.
pub open spec fn handled_effect(a: &Connection, b: &Connection, f: &Frame, before: Seq<u8>, after: Seq<u8>) -> bool {
    match f.kind {
        Kind::Data => b.lanes() == data_lanes(a, f) && after == before + data_answer(a, f),
        Kind::Headers => {
            let block = content_of(Kind::Headers, f.flags, f.payload@)->Ok_0;
            let whole = f.flags & END_HEADERS != 0;
            &&& block_lanes(a, f.stream, block, f.flags & END_STREAM != 0, whole, b.lanes())
            &&& whole ==> b.decoder@ == table_after(a, block)
            &&& !whole ==> (b.continuing matches Some(n) && n.stream == f.stream && n.block@ == block)
            &&& after == before
        },
        Kind::Continuation => {
            let k = a.continuing->Some_0;
            let block = k.block@ + f.payload@;
            let whole = f.flags & END_HEADERS != 0;
            &&& block_lanes(a, k.stream, block, k.end, whole, b.lanes())
            &&& whole ==> b.decoder@ == table_after(a, block) && b.continuing is None
            &&& !whole ==> (b.continuing matches Some(n) && n.stream == k.stream && n.block@ == block)
            &&& after == before
        },
        Kind::RstStream => b.lanes() == reset_lane(a.lanes(), f.stream, code_of(word_at(f.payload@, 0)))
            && after == before,
        Kind::Settings => if f.flags & ACK != 0 {
            *b == *a && after == before
        } else {
            let next = applied(a.remote, f.payload@, a.client)->Ok_0;
            &&& b.remote == next
            &&& b.lanes() == shifted(a.lanes(), next.initial_window_size - a.remote.initial_window_size)
            &&& b.encoder@ == encoder_resized(a.encoder@, encoder_size(next))
            &&& b.settings_seen
            &&& after == before + frame_octets(Kind::Settings, ACK, 0, Seq::empty())
        },
        Kind::Ping => if f.flags & ACK != 0 {
            &&& b.pongs@.len() == a.pongs@.len() + 1
            &&& b.pongs@.last()@ == f.payload@
            &&& b.pongs@.drop_last() == a.pongs@
            &&& after == before
        } else {
            b.pongs == a.pongs && after == before + frame_octets(Kind::Ping, ACK, 0, f.payload@)
        },
        Kind::Goaway => {
            let last = word_at(f.payload@, 0) & MAX_STREAM_ID;
            &&& b.goaway == Some((last, code_of(word_at(f.payload@, 4))))
            &&& b.lanes() == passed_over(a.lanes(), last, a.client)
            &&& after == before
        },
        Kind::WindowUpdate => {
            let increment = word_at(f.payload@, 0) & MAX_STREAM_ID;
            &&& f.stream == 0 ==> b.send@ == a.send@ + increment && b.lanes() == a.lanes()
            &&& f.stream != 0 ==> b.send == a.send && b.lanes() == granted(a.lanes(), f.stream, increment)
            &&& after == before
        },
        _ => b.lanes() == a.lanes() && after == before,
    }
}

/// The streams a breach of one stream found, before the stream is reset:
/// a `DATA` still took what it took of the stream's window.
pub open spec fn breach_lanes(c: &Connection, f: &Frame) -> Seq<(u32, Lane)> {
    if f.kind == Kind::Data {
        data_lanes(c, f)
    } else {
        c.lanes()
    }
}

/// What this side answered a frame that breached one stream, before the
/// `RST_STREAM`: a `DATA` still gives the connection's window back.
pub open spec fn breach_answer(c: &Connection, f: &Frame) -> Seq<u8> {
    if f.kind == Kind::Data {
        data_answer(c, f)
    } else {
        Seq::empty()
    }
}

/// The breach of a frame of `kind` on the wrong kind of stream.
fn misplaced_violation(kind: Kind, stream: u32) -> (v: Violation)
    ensures
        v.code == ErrorCode::Protocol,
{
    let mut out: Vec<u8> = Vec::new();
    crate::text::push_str(&mut out, kind.name());
    crate::text::push_str(&mut out, " on stream ");
    crate::ascii::push_decimal(&mut out, stream as u64);
    proof {
        crate::ascii::lemma_decimal_ascii(stream as nat);
        crate::ascii::lemma_ascii_valid(crate::ascii::decimal(stream as nat));
        vstd::utf8::valid_utf8_concat(
            utf8(super::frame::kind_name(kind)) + utf8(" on stream "@),
            crate::ascii::decimal(stream as nat),
        );
    }
    Violation::protocol(crate::text::string_of(out).as_str())
}

impl Connection {
    fn handle(&mut self, frame: &Frame, out: &mut Vec<u8>) -> (r: Result<(), Breach>)
        requires
            old(self).wf(),
        ensures
            final(self).wf(),
            outcome_of(r) == handle_outcome(old(self), frame),
            outcome_of(r) is Handled ==> handled_effect(old(self), final(self), frame, old(out)@, final(out)@),
            outcome_of(r) is Stream ==> final(self).lanes() == breach_lanes(old(self), frame) && final(out)@
                == old(out)@ + breach_answer(old(self), frame),
            final(out)@.len() >= old(out)@.len(),
            final(out)@.subrange(0, old(out)@.len() as int) == old(out)@,
            same_frame(final(self), old(self)),
    {
        if !self.settings_seen && frame.kind != Kind::Settings {
            return Err(Breach::Connection(Violation::protocol("the peer's first frame is not SETTINGS")));
        }
        let interrupted = match &self.continuing {
            Some(continuing) => frame.kind != Kind::Continuation || frame.stream != continuing.stream,
            None => false,
        };
        if interrupted {
            return Err(Breach::Connection(Violation::protocol("a header block interrupted")));
        }
        let on_connection = frame.stream == 0;
        let wrong = match frame.kind {
            Kind::Settings | Kind::Ping | Kind::Goaway => !on_connection,
            Kind::Data | Kind::Headers | Kind::Priority | Kind::RstStream | Kind::Continuation => on_connection,
            Kind::PushPromise | Kind::WindowUpdate | Kind::Unknown(_) => false,
        };
        if wrong {
            return Err(Breach::Connection(misplaced_violation(frame.kind, frame.stream)));
        }
        match frame.kind {
            Kind::Data => self.data(frame, out),
            Kind::Headers => {
                let content = match frame.content() {
                    Ok(content) => content,
                    Err(v) => {
                        return Err(Breach::Connection(v));
                    },
                };
                let block = vstd::slice::slice_to_vec(content);
                self.block(frame.stream, block, frame.has(END_STREAM), frame.has(END_HEADERS))
            },
            Kind::Continuation => self.continuation(frame),
            Kind::Priority => if frame.payload.len() != 5 {
                Err(Breach::Stream(frame.stream, Violation::frame_size("a PRIORITY that is not 5 octets")))
            } else {
                Ok(())
            },
            Kind::Unknown(_) => Ok(()),
            Kind::RstStream => self.rst_stream(frame),
            Kind::Settings => self.settings(frame, out),
            Kind::PushPromise => Err(Breach::Connection(Violation::protocol("a PUSH_PROMISE, and push is off"))),
            Kind::Ping => self.ping_frame(frame, out),
            Kind::Goaway => self.goaway_frame(frame),
            Kind::WindowUpdate => self.window_update(frame),
        }
    }
}

impl Connection {
    /// Handle one frame the peer sent, as its type says, writing what this
    /// side answers after what `out` holds: a breach of one stream is
    /// answered with `RST_STREAM` and the connection goes on; a breach of
    /// the connection with `GOAWAY`, and the failure is returned.
    #[verifier::spinoff_prover]
    #[verifier::rlimit(100)]
    pub fn receive(&mut self, frame: &Frame, out: &mut Vec<u8>) -> (r: Result<(), NetError>)
        requires
            old(self).wf(),
        ensures
            final(self).wf(),
            match handle_outcome(old(self), frame) {
                Outcome::Handled => r is Ok && handled_effect(old(self), final(self), frame, old(out)@, final(out)@),
                Outcome::Stream(id, code) => r is Ok && final(self).lanes() == reset_lane(
                    breach_lanes(old(self), frame),
                    id,
                    code,
                ) && final(out)@ == old(out)@ + breach_answer(old(self), frame) + frame_octets(
                    Kind::RstStream,
                    0,
                    id,
                    be32(wire_code(code)),
                ),
                Outcome::Connection(code) => (r matches Err(e) && e.io is None && final(self).going_away && exists|
                    v: Violation,
                    answered: Seq<u8>,
                |
                    v.code == code && utf8(e.message@) == violation_said(v) && final(out)@ == old(out)@
                        + answered + frame_octets(
                        Kind::Goaway,
                        0,
                        0,
                        be32(final(self).last_peer & MAX_STREAM_ID) + be32(wire_code(code)) + debug_of(
                            v.message@,
                        ),
                    )),
            },
            same_frame(final(self), old(self)) || final(self).going_away,
    {
        let ghost start = *self;
        match self.handle(frame, out) {
            Ok(()) => Ok(()),
            Err(Breach::Stream(id, v)) => {
                self.reset(id, v.code, out);
                Ok(())
            },
            Err(Breach::Connection(v)) => {
                let ghost answered = out@.skip(old(out)@.len() as int);
                proof {
                    assert(out@ =~= old(out)@ + answered);
                }
                let ghost violation = v;
                let e = self.fail(v, out);
                proof {
                    assert(final(out)@ == old(out)@ + answered + frame_octets(
                        Kind::Goaway,
                        0,
                        0,
                        be32(self.last_peer & MAX_STREAM_ID) + be32(wire_code(violation.code)) + debug_of(
                            violation.message@,
                        ),
                    ));
                }
                Err(e)
            },
        }
    }
}

} // verus!
