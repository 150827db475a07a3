//! One HTTP/2 connection, either side: the settings each side announced,
//! the header compression each keeps, the connection's two windows, the
//! streams and what has arrived on them. The connection itself is the
//! caller's: what this side writes — the preface, a header block split
//! over `HEADERS` and `CONTINUATION`, a body in `DATA` as the windows
//! allow, `RST_STREAM`, `PING` and `GOAWAY` — is put into the octets the
//! caller sends, and what the peer wrote is handed in a frame at a time
//! ([`receive`](super::receive)).

use vstd::prelude::*;

use super::error::{said, ErrorCode, Violation};
use super::frame::{
    frame_octets, Frame, Kind, DEFAULT_MAX_FRAME_SIZE, END_HEADERS, END_STREAM,
    MAX_FRAME_SIZE_LIMIT, MAX_STREAM_ID,
};
use super::hpack::decoder::{fields_of, Decoder};
use super::hpack::encoder::Encoder;
use super::settings::{initial, Settings, DEFAULT_WINDOW};
use super::stream::{after_local_end, we_may_send, State, Stream};
use super::window::{open_octets, Window};
use crate::NetError;

verus! {

/// The largest dynamic table this side's encoder keeps, whatever the peer
/// allows.
pub const ENCODER_TABLE: u32 = 4096;

/// A header block still waiting for its `CONTINUATION`.
pub struct Continuing {
    pub stream: u32,
    pub block: Vec<u8>,
    pub end: bool,
}

/// One connection's state, either side.
pub struct Connection {
    /// Whether this side is the client, which opens the odd streams.
    pub client: bool,
    pub local: Settings,
    pub remote: Settings,
    pub encoder: Encoder,
    pub decoder: Decoder,
    /// What this side may still send on the connection.
    pub send: Window,
    /// What the peer may still send on the connection.
    pub receive: Window,
    /// The streams, by ascending identifier.
    pub streams: Vec<(u32, Stream)>,
    pub continuing: Option<Continuing>,
    /// The highest stream either side has opened; above it every stream
    /// is idle.
    pub highest: u32,
    /// The highest stream the peer opened, which a `GOAWAY` names.
    pub last_peer: u32,
    /// The peer's `GOAWAY`: the last stream it will process, and why.
    pub goaway: Option<(u32, ErrorCode)>,
    /// Whether this side has sent `GOAWAY`.
    pub going_away: bool,
    /// Whether the peer's `SETTINGS` has arrived, which must come first.
    pub settings_seen: bool,
    /// Every `PING` acknowledgement that has arrived.
    pub pongs: Vec<Vec<u8>>,
    /// How often a send waited for a window to open.
    pub stalls: usize,
}

/// A stream as the connection's contracts speak of it.
pub struct Lane {
    pub state: State,
    pub send: int,
    pub receive: int,
    pub head: Option<Seq<(Seq<char>, Seq<char>)>>,
    pub body: Seq<u8>,
    pub trailers: Seq<(Seq<char>, Seq<char>)>,
    pub reset: Option<ErrorCode>,
}

/// `s` as a lane.
pub open spec fn lane_of(s: Stream) -> Lane {
    Lane {
        state: s.state,
        send: s.send@,
        receive: s.receive@,
        head: match s.head {
            Some(h) => Some(fields_of(h@)),
            None => None,
        },
        body: s.body@,
        trailers: fields_of(s.trailers@),
        reset: s.reset,
    }
}

/// The lanes of `streams`, by identifier.
pub open spec fn lanes_of(streams: Seq<(u32, Stream)>) -> Seq<(u32, Lane)> {
    Seq::new(streams.len(), |k: int| (streams[k].0, lane_of(streams[k].1)))
}

/// Where the stream `id` is among `lanes`, or -1.
pub open spec fn index_of_id(lanes: Seq<(u32, Lane)>, id: u32) -> int {
    if exists|k: int| 0 <= k < lanes.len() && lanes[k].0 == id {
        choose|k: int| 0 <= k < lanes.len() && lanes[k].0 == id
    } else {
        -1
    }
}

/// Whether the identifiers of `lanes` ascend.
pub open spec fn ascending(lanes: Seq<(u32, Lane)>) -> bool {
    forall|i: int, j: int| 0 <= i < j < lanes.len() ==> lanes[i].0 < lanes[j].0
}

/// A stream opened on `id`, with the windows both sides announced.
pub open spec fn fresh_lane(send: u32, receive: u32) -> Lane {
    Lane {
        state: State::Open,
        send: send as int,
        receive: receive as int,
        head: None,
        body: seq![],
        trailers: seq![],
        reset: None,
    }
}

impl Connection {
    /// The streams as lanes.
    pub open spec fn lanes(&self) -> Seq<(u32, Lane)> {
        lanes_of(self.streams@)
    }

    /// What the connection keeps: the streams ascending and below the
    /// highest opened, the tables' sizes kept, the peer's frame size one
    /// the protocol allows.
    pub open spec fn wf(&self) -> bool {
        &&& ascending(self.lanes())
        &&& forall|k: int| 0 <= k < self.streams@.len() ==> #[trigger] self.streams@[k].0 <= self.highest
        &&& forall|k: int|
            0 <= k < self.streams@.len() ==> #[trigger] self.streams@[k].1.receive@ <= MAX_STREAM_ID
                && self.streams@[k].1.body@.len() <= crate::http::MAX_BODY
        &&& !self.client ==> forall|k: int| 0 <= k < self.streams@.len() ==> #[trigger] self.streams@[k].0 % 2 == 1
        &&& self.wf_rest()
    }

    /// What the connection keeps of everything but its streams.
    pub open spec fn wf_rest(&self) -> bool {
        &&& self.encoder.wf()
        &&& self.decoder.wf()
        &&& DEFAULT_MAX_FRAME_SIZE <= self.remote.max_frame_size <= MAX_FRAME_SIZE_LIMIT
        &&& self.remote.initial_window_size <= MAX_STREAM_ID
        &&& self.continuing matches Some(c) ==> c.block@.len() <= MAX_BLOCK
        &&& self.send@ >= 0
        &&& 0 <= self.receive@ <= MAX_STREAM_ID
        &&& self.local == super::settings::ours_settings()
    }

    /// A connection as a side starts it, before anything arrives.
    pub open spec fn started(&self, client: bool) -> bool {
        &&& self.client == client
        &&& self.local == super::settings::ours_settings()
        &&& self.remote == initial()
        &&& self.encoder@ == (Seq::<(Seq<char>, Seq<char>)>::empty(), ENCODER_TABLE as nat, true, None::<nat>)
        &&& self.decoder@ == (Seq::<(Seq<char>, Seq<char>)>::empty(), 4096nat, 4096nat)
        &&& self.send@ == DEFAULT_WINDOW
        &&& self.receive@ == DEFAULT_WINDOW
        &&& self.streams@.len() == 0
        &&& self.continuing is None
        &&& self.highest == 0
        &&& self.last_peer == 0
        &&& self.goaway is None
        &&& !self.going_away
        &&& !self.settings_seen
        &&& self.pongs@.len() == 0
        &&& self.stalls == 0
    }

    /// Start a connection: a client writes the preface, and both sides
    /// their `SETTINGS`, after what `out` holds. A server has read the
    /// client's preface first.
    pub fn start(client: bool, out: &mut Vec<u8>) -> (c: Self)
        ensures
            c.wf(),
            c.started(client),
            final(out)@ == old(out)@ + (if client {
                super::preface::preface_octets()
            } else {
                Seq::<u8>::empty()
            }) + frame_octets(Kind::Settings, 0, 0, super::settings::announced(super::settings::ours_settings())),
    {
        let local = Settings::ours();
        if client {
            let p = super::preface::preface();
            let ghost before = out@;
            let mut i: usize = 0;
            while i < p.len()
                invariant
                    i <= p@.len(),
                    out@ == before + p@.subrange(0, i as int),
                decreases p.len() - i,
            {
                out.push(p[i]);
                i = i + 1;
                assert(out@ =~= before + p@.subrange(0, i as int));
            }
            assert(p@.subrange(0, p@.len() as int) =~= p@);
        }
        let ghost middle = out@;
        let settings = Frame::new(Kind::Settings, 0, 0, local.encode());
        proof {
            super::settings::lemma_announced_short(local);
        }
        super::frame::write(out, &settings);
        proof {
            if !client {
                assert(old(out)@ + Seq::<u8>::empty() =~= old(out)@);
            }
        }
        Connection {
            client,
            local,
            remote: Settings::default(),
            encoder: Encoder::new(ENCODER_TABLE as usize, true),
            decoder: Decoder::new(local.header_table_size as usize),
            send: Window::new(DEFAULT_WINDOW),
            receive: Window::new(DEFAULT_WINDOW),
            streams: Vec::new(),
            continuing: None,
            highest: 0,
            last_peer: 0,
            goaway: None,
            going_away: false,
            settings_seen: false,
            pongs: Vec::new(),
            stalls: 0,
        }
    }

    /// Where the stream `id` is, if it is open.
    pub fn find(&self, id: u32) -> (r: Option<usize>)
        requires
            self.wf(),
        ensures
            match r {
                Some(k) => k < self.streams@.len() && self.streams@[k as int].0 == id
                    && index_of_id(self.lanes(), id) == k,
                None => index_of_id(self.lanes(), id) == -1,
            },
    {
        let mut k: usize = 0;
        while k < self.streams.len()
            invariant
                self.wf(),
                k <= self.streams@.len(),
                forall|j: int| 0 <= j < k ==> self.streams@[j].0 != id,
            decreases self.streams.len() - k,
        {
            if self.streams[k].0 == id {
                proof {
                    lemma_index_unique(self.lanes(), id, k as int);
                }
                return Some(k);
            }
            k = k + 1;
        }
        proof {
            if exists|j: int| 0 <= j < self.lanes().len() && self.lanes()[j].0 == id {
                let j = choose|j: int| 0 <= j < self.lanes().len() && self.lanes()[j].0 == id;
                assert(self.streams@[j].0 == id);
            }
        }
        None
    }
}

/// The largest header block assembled, before it is decoded.
pub const MAX_BLOCK: usize = 1_048_576;

/// In ascending lanes an identifier stands at one place.
pub proof fn lemma_index_unique(lanes: Seq<(u32, Lane)>, id: u32, k: int)
    requires
        ascending(lanes),
        0 <= k < lanes.len(),
        lanes[k].0 == id,
    ensures
        index_of_id(lanes, id) == k,
{
    let j = choose|j: int| 0 <= j < lanes.len() && lanes[j].0 == id;
    if j < k {
        assert(lanes[j].0 < lanes[k].0);
    } else if j > k {
        assert(lanes[k].0 < lanes[j].0);
    }
}

/// The frames a header block goes out in on `id`: `HEADERS`, then
/// `CONTINUATION`s, each at most `most` octets of the block, the last with
/// `END_HEADERS` and the first with `END_STREAM` where `end` says so.
pub open spec fn header_frames(id: u32, block: Seq<u8>, most: nat, end: bool, first: bool) -> Seq<u8>
    decreases block.len(),
{
    let n = if block.len() < most {
        block.len()
    } else {
        most
    };
    let rest = block.skip(n as int);
    let last = rest.len() == 0 || most == 0;
    let flags = ((if last {
        END_HEADERS
    } else {
        0u8
    }) | (if first && end {
        END_STREAM
    } else {
        0u8
    })) as u8;
    frame_octets(
        if first {
            Kind::Headers
        } else {
            Kind::Continuation
        },
        flags,
        id,
        block.take(n as int),
    ) + if last {
        seq![]
    } else {
        header_frames(id, rest, most, end, false)
    }
}

/// `lanes` with the stream `id`, where there is one, changed by `change`.
pub open spec fn lane_changed(lanes: Seq<(u32, Lane)>, id: u32, lane: Lane) -> Seq<(u32, Lane)> {
    if index_of_id(lanes, id) >= 0 {
        lanes.update(index_of_id(lanes, id), (id, lane))
    } else {
        lanes
    }
}

/// The lane of the stream `id`.
pub open spec fn lane_at(lanes: Seq<(u32, Lane)>, id: u32) -> Lane {
    lanes[index_of_id(lanes, id)].1
}

/// `lanes` after this side sent `END_STREAM` on `id`.
pub open spec fn ended_here(lanes: Seq<(u32, Lane)>, id: u32) -> Seq<(u32, Lane)> {
    lane_changed(lanes, id, Lane { state: after_local_end(lane_at(lanes, id).state), ..lane_at(lanes, id) })
}

/// What a step of sending a body did.
#[derive(Debug)]
pub enum DataStep {
    /// A window is shut: nothing was sent, and what the peer sends must be
    /// read until it opens.
    Stalled,
    /// This many octets went in one `DATA`; `true` where they were the last.
    Sent(usize, bool),
}

/// The kind of a failure of a stream the peer refused, or that a `GOAWAY`
/// passed over: nothing of it was processed.
#[verifier::external_body]
pub(crate) fn connection_aborted() -> (kind: std::io::ErrorKind) {
    std::io::ErrorKind::ConnectionAborted
}

/// What the failure of the stream `id`, reset with `code`, says.
pub open spec fn reset_said(id: u32, code: ErrorCode) -> Seq<u8> {
    crate::text::utf8("stream "@) + crate::ascii::decimal(id as nat) + crate::text::utf8(" was reset: "@)
        + super::error::code_written(code)
}

/// The failure of a stream the peer reset; one it refused, or that a
/// `GOAWAY` passed over, was never processed and may be sent again.
pub fn refused(id: u32, code: ErrorCode) -> (e: NetError)
    ensures
        crate::text::utf8(e.message@) == reset_said(id, code),
        (e.io is Some) == (code == ErrorCode::RefusedStream),
{
    let mut out: Vec<u8> = Vec::new();
    crate::text::push_str(&mut out, "stream ");
    crate::ascii::push_decimal(&mut out, id as u64);
    proof {
        vstd::utf8::encode_utf8_valid_utf8("stream "@);
        crate::ascii::lemma_decimal_ascii(id as nat);
        crate::ascii::lemma_ascii_valid(crate::ascii::decimal(id as nat));
        vstd::utf8::valid_utf8_concat(crate::text::utf8("stream "@), crate::ascii::decimal(id as nat));
    }
    crate::text::push_str(&mut out, " was reset: ");
    super::error::push_code(&mut out, code);
    let mut failure = NetError::new(crate::text::string_of(out));
    if code == ErrorCode::RefusedStream {
        failure.io = Some(connection_aborted());
    }
    failure
}

impl Connection {
    /// The stream `id`, opened where it is not, with the windows both
    /// sides announced; where it is: the highest opened moved up to it.
    /// Streams are the client's, on odd identifiers: a server opens none.
    #[verifier::spinoff_prover]
    #[verifier::rlimit(50)]
    pub fn open(&mut self, id: u32) -> (k: usize)
        requires
            old(self).wf(),
            !old(self).client ==> id % 2 == 1,
        ensures
            final(self).wf(),
            k < final(self).streams@.len(),
            k <= old(self).streams@.len(),
            final(self).streams@[k as int].0 == id,
            final(self).highest == if id > old(self).highest {
                id
            } else {
                old(self).highest
            },
            index_of_id(old(self).lanes(), id) >= 0 ==> final(self).lanes() == old(self).lanes(),
            index_of_id(old(self).lanes(), id) < 0 ==> final(self).lanes() == old(self).lanes().insert(
                k as int,
                (id, fresh_lane(old(self).remote.initial_window_size, old(self).local.initial_window_size)),
            ),
            forall|j: int| 0 <= j < k ==> old(self).lanes()[j].0 < id,
            forall|j: int| k <= j < old(self).lanes().len() ==> old(self).lanes()[j].0 >= id,
            final(self).client == old(self).client,
            final(self).local == old(self).local,
            final(self).remote == old(self).remote,
            final(self).encoder == old(self).encoder,
            final(self).decoder == old(self).decoder,
            final(self).send == old(self).send,
            final(self).receive == old(self).receive,
            final(self).continuing == old(self).continuing,
            final(self).last_peer == old(self).last_peer,
            final(self).goaway == old(self).goaway,
            final(self).going_away == old(self).going_away,
            final(self).settings_seen == old(self).settings_seen,
            final(self).pongs == old(self).pongs,
            final(self).stalls == old(self).stalls,
    {
        if id > self.highest {
            self.highest = id;
        }
        let mut k: usize = 0;
        while k < self.streams.len() && self.streams[k].0 < id
            invariant
                k <= self.streams@.len(),
                forall|j: int| 0 <= j < k ==> self.streams@[j].0 < id,
            decreases self.streams.len() - k,
        {
            k = k + 1;
        }
        proof {
            let lanes = old(self).lanes();
            assert forall|j: int| k <= j < lanes.len() implies lanes[j].0 >= id by {
                if j > k {
                    assert(lanes[k as int].0 < lanes[j].0);
                }
            }
        }
        if k < self.streams.len() && self.streams[k].0 == id {
            proof {
                lemma_index_unique(self.lanes(), id, k as int);
            }
            return k;
        }
        proof {
            let lanes = old(self).lanes();
            if exists|j: int| 0 <= j < lanes.len() && lanes[j].0 == id {
                let j = choose|j: int| 0 <= j < lanes.len() && lanes[j].0 == id;
                if j >= k {
                    if j > k {
                        assert(lanes[k as int].0 < lanes[j].0);
                    }
                }
            }
        }
        let stream = Stream::new(self.remote.initial_window_size, self.local.initial_window_size);
        proof {
            assert(fields_of(stream.trailers@) =~= Seq::<(Seq<char>, Seq<char>)>::empty());
            assert(stream.body@ =~= Seq::<u8>::empty());
            assert(lane_of(stream) == fresh_lane(
                old(self).remote.initial_window_size,
                old(self).local.initial_window_size,
            ));
        }
        self.streams.insert(k, (id, stream));
        proof {
            let lanes = old(self).lanes();
            assert(self.lanes() =~= lanes.insert(
                k as int,
                (id, fresh_lane(old(self).remote.initial_window_size, old(self).local.initial_window_size)),
            ));
            assert forall|i: int, j: int| 0 <= i < j < self.lanes().len() implies self.lanes()[i].0
                < self.lanes()[j].0 by {
                if j < k {
                } else if i < k && j == k {
                } else if i < k && j > k {
                    assert(self.lanes()[j] == lanes[j - 1]);
                } else if i == k {
                    assert(self.lanes()[j] == lanes[j - 1]);
                } else {
                    assert(self.lanes()[j] == lanes[j - 1]);
                    assert(self.lanes()[i] == lanes[i - 1]);
                }
            }
            assert forall|j: int| 0 <= j < self.streams@.len() implies #[trigger] self.streams@[j].0
                <= self.highest by {
                if j < k {
                } else if j > k {
                    assert(self.streams@[j] == old(self).streams@[j - 1]);
                }
            }
        }
        k
    }
}

/// Every field of `fields` has a name and a value short enough to be
/// sized as an HPACK string.
pub open spec fn sizable_fields(fields: Seq<(String, String)>) -> bool {
    forall|k: int|
        0 <= k < fields.len() ==> crate::text::utf8(#[trigger] fields[k].0@).len() <= usize::MAX / 4
            && crate::text::utf8(fields[k].1@).len() <= usize::MAX / 4
}

/// Every name and value of `fields` is short enough to be sized as an
/// HPACK string.
pub open spec fn sizable_texts(fields: Seq<(Seq<u8>, Seq<u8>)>) -> bool {
    forall|k: int| 0 <= k < fields.len() ==> (#[trigger] fields[k]).0.len() <= usize::MAX / 4 && fields[k].1.len() <= usize::MAX / 4
}

/// A list is sizable where its text is.
pub proof fn lemma_sizable(list: Seq<(String, String)>)
    ensures
        sizable_fields(list) == sizable_texts(crate::http::field_octets(list)),
        crate::http::field_octets(list).len() == list.len(),
{
    let f = crate::http::field_octets(list);
    if sizable_fields(list) {
        assert forall|k: int| 0 <= k < f.len() implies (#[trigger] f[k]).0.len() <= usize::MAX / 4 && f[k].1.len() <= usize::MAX / 4 by {
            assert(crate::text::utf8(list[k].0@).len() <= usize::MAX / 4);
        }
    }
    if sizable_texts(f) {
        assert forall|k: int| 0 <= k < list.len() implies crate::text::utf8(#[trigger] list[k].0@).len() <= usize::MAX / 4
            && crate::text::utf8(list[k].1@).len() <= usize::MAX / 4 by {
            assert(f[k].0.len() <= usize::MAX / 4);
        }
    }
}

/// What stays of a connection when only its streams, its encoder, and the
/// count of stalls may change.
pub open spec fn same_but_streams(a: &Connection, b: &Connection) -> bool {
    &&& a.client == b.client
    &&& a.local == b.local
    &&& a.remote == b.remote
    &&& a.decoder == b.decoder
    &&& a.send == b.send
    &&& a.receive == b.receive
    &&& a.continuing == b.continuing
    &&& a.highest == b.highest
    &&& a.last_peer == b.last_peer
    &&& a.goaway == b.goaway
    &&& a.going_away == b.going_away
    &&& a.settings_seen == b.settings_seen
    &&& a.pongs == b.pongs
}

impl Connection {
    /// Take the stream at `k` out, to be put back changed.
    pub(crate) fn take_stream(&mut self, k: usize) -> (entry: (u32, Stream))
        requires
            k < old(self).streams@.len(),
        ensures
            entry == old(self).streams@[k as int],
            final(self).streams@ == old(self).streams@.remove(k as int),
            same_but_streams(final(self), old(self)),
            final(self).encoder == old(self).encoder,
            final(self).stalls == old(self).stalls,
    {
        self.streams.remove(k)
    }

    /// Put `entry` back at `k`.
    pub(crate) fn put_stream(&mut self, k: usize, entry: (u32, Stream))
        requires
            k <= old(self).streams@.len(),
        ensures
            final(self).streams@ == old(self).streams@.insert(k as int, entry),
            same_but_streams(final(self), old(self)),
            final(self).encoder == old(self).encoder,
            final(self).stalls == old(self).stalls,
    {
        self.streams.insert(k, entry);
    }

    /// This side has sent `END_STREAM` on `id`.
    pub fn end_locally(&mut self, id: u32)
        requires
            old(self).wf(),
        ensures
            final(self).wf(),
            final(self).lanes() == ended_here(old(self).lanes(), id),
            same_but_streams(final(self), old(self)),
            final(self).encoder == old(self).encoder,
            final(self).stalls == old(self).stalls,
    {
        if let Some(k) = self.find(id) {
            let (sid, mut stream) = self.take_stream(k);
            stream.state = stream.state.ended_locally();
            self.put_stream(k, (sid, stream));
            proof {
                let lanes = old(self).lanes();
                assert(self.streams@ =~= old(self).streams@.update(k as int, (sid, stream)));
                assert(self.lanes() =~= ended_here(lanes, id));
                assert forall|i: int, j: int| 0 <= i < j < self.lanes().len() implies self.lanes()[i].0
                    < self.lanes()[j].0 by {
                    assert(self.lanes()[i].0 == lanes[i].0 && self.lanes()[j].0 == lanes[j].0);
                }
                assert forall|j: int| 0 <= j < self.streams@.len() implies #[trigger] self.streams@[j].0
                    <= self.highest by {
                    assert(self.streams@[j].0 == old(self).streams@[j].0);
                }
            }
        }
    }

    /// Write `fields` as one header block on `id`, after what `out` holds,
    /// over as many frames as the peer's maximum frame size asks, ending
    /// the stream where `end` says so.
    pub fn send_headers(&mut self, id: u32, fields: &[(String, String)], end: bool, out: &mut Vec<u8>)
        requires
            old(self).wf(),
            sizable_fields(fields@),
        ensures
            final(self).wf(),
            ({
                let (block, table) = super::hpack::encoder::block_encoded(
                    old(self).encoder@.0,
                    old(self).encoder@.1,
                    old(self).encoder@.2,
                    old(self).encoder@.3,
                    fields_of(fields@),
                );
                &&& final(out)@ == old(out)@ + header_frames(
                    id,
                    block,
                    old(self).remote.max_frame_size as nat,
                    end,
                    true,
                )
                &&& final(self).encoder@ == (table, old(self).encoder@.1, old(self).encoder@.2, None::<nat>)
            }),
            final(self).lanes() == if end {
                ended_here(old(self).lanes(), id)
            } else {
                old(self).lanes()
            },
            same_but_streams(final(self), old(self)),
            final(self).stalls == old(self).stalls,
    {
        let mut borrowed: Vec<(&str, &str)> = Vec::new();
        let mut i: usize = 0;
        while i < fields.len()
            invariant
                i <= fields@.len(),
                borrowed@.len() == i,
                forall|j: int| 0 <= j < i ==> (#[trigger] borrowed@[j]).0@ == fields@[j].0@ && borrowed@[j].1@
                    == fields@[j].1@,
            decreases fields.len() - i,
        {
            borrowed.push((fields[i].0.as_str(), fields[i].1.as_str()));
            i = i + 1;
        }
        proof {
            assert(super::hpack::encoder::borrowed_fields(borrowed@) =~= fields_of(fields@));
            assert forall|j: int| 0 <= j < borrowed@.len() implies vstd::utf8::encode_utf8(
                #[trigger] borrowed@[j].0@,
            ).len() <= usize::MAX / 4 && vstd::utf8::encode_utf8(borrowed@[j].1@).len() <= usize::MAX
                / 4 by {
                assert(crate::text::utf8(fields@[j].0@).len() <= usize::MAX / 4);
            }
        }
        let block = self.encoder.encode(borrowed.as_slice());
        write_block(id, block.as_slice(), self.remote.max_frame_size as usize, end, out);
        if end {
            self.end_locally(id);
        }
    }
}

/// Write `block` on `id` after what `out` holds: a `HEADERS` and as many
/// `CONTINUATION`s as frames of at most `most` octets take, the last ending
/// the headers, the first ending the stream where `end` says so.
fn write_block(id: u32, block: &[u8], most: usize, end: bool, out: &mut Vec<u8>)
    requires
        DEFAULT_MAX_FRAME_SIZE <= most <= MAX_FRAME_SIZE_LIMIT,
    ensures
        final(out)@ == old(out)@ + header_frames(id, block@, most as nat, end, true),
{
    let ghost start = out@;
    let mut at: usize = 0;
    let mut first = true;
    proof {
        assert(block@.skip(0) =~= block@);
    }
    loop
        invariant_except_break
            start + header_frames(id, block@, most as nat, end, true) == out@ + header_frames(
                id,
                block@.skip(at as int),
                most as nat,
                end,
                first,
            ),
        invariant
            at <= block@.len(),
            DEFAULT_MAX_FRAME_SIZE <= most <= MAX_FRAME_SIZE_LIMIT,
        ensures
            out@ == start + header_frames(id, block@, most as nat, end, true),
        decreases block.len() - at, (if first { 1int } else { 0int }),
    {
        let left = block.len() - at;
        let n = if left < most {
            left
        } else {
            most
        };
        let last = n == left;
        let flags: u8 = (if last {
            END_HEADERS
        } else {
            0u8
        }) | (if first && end {
            END_STREAM
        } else {
            0u8
        });
        let kind = if first {
            Kind::Headers
        } else {
            Kind::Continuation
        };
        let piece = vstd::slice::slice_to_vec(vstd::slice::slice_subrange(block, at, at + n));
        let ghost before = out@;
        proof {
            let rest = block@.skip(at as int);
            assert(piece@ =~= rest.take(n as int));
            assert(rest.skip(n as int) =~= block@.skip(at + n));
            assert(rest.skip(n as int).len() == 0 <==> last);
        }
        let frame = Frame::new(kind, flags, id, piece);
        super::frame::write(out, &frame);
        at = at + n;
        if last {
            proof {
                let rest = block@.skip((at - n) as int);
                assert(header_frames(id, rest, most as nat, end, first) == frame_octets(
                    kind,
                    flags,
                    id,
                    rest.take(n as int),
                ));
                assert(out@ =~= before + header_frames(id, rest, most as nat, end, first));
            }
            break;
        }
        proof {
            let rest = block@.skip((at - n) as int);
            assert(header_frames(id, rest, most as nat, end, first) == frame_octets(
                kind,
                flags,
                id,
                rest.take(n as int),
            ) + header_frames(id, block@.skip(at as int), most as nat, end, false));
            assert(out@ + header_frames(id, block@.skip(at as int), most as nat, end, false) =~= before
                + header_frames(id, rest, most as nat, end, first));
        }
        first = false;
    }
}

/// Why a stream cannot send.
pub enum Unsendable {
    /// No stream is open on the identifier.
    NotOpen,
    /// It was reset, by either side, with this code.
    Reset(ErrorCode),
    /// This side has ended it.
    Closed,
}

/// Why the stream `id` of `lanes` cannot send, if it cannot.
pub open spec fn unsendable(lanes: Seq<(u32, Lane)>, id: u32) -> Option<Unsendable> {
    if index_of_id(lanes, id) < 0 {
        Some(Unsendable::NotOpen)
    } else if lane_at(lanes, id).reset is Some {
        Some(Unsendable::Reset(lane_at(lanes, id).reset->0))
    } else if !we_may_send(lane_at(lanes, id).state) {
        Some(Unsendable::Closed)
    } else {
        None
    }
}

/// What `e` says of a send on `id` that could not be made, for `why`.
pub open spec fn unsendable_failure(e: NetError, id: u32, why: Unsendable) -> bool {
    match why {
        Unsendable::NotOpen => crate::text::utf8(e.message@) == crate::text::utf8("stream "@)
            + crate::ascii::decimal(id as nat) + crate::text::utf8(" is not open"@) && e.io is None,
        Unsendable::Reset(code) => crate::text::utf8(e.message@) == reset_said(id, code) && (e.io
            is Some) == (code == ErrorCode::RefusedStream),
        Unsendable::Closed => crate::text::utf8(e.message@) == crate::text::utf8("stream "@)
            + crate::ascii::decimal(id as nat) + crate::text::utf8(" is closed to sending"@) && e.io
            is None,
    }
}

/// The smaller of two integers.
pub open spec fn least(a: int, b: int) -> int {
    if a < b {
        a
    } else {
        b
    }
}

/// The octets the stream `id` may send now: what both its window and the
/// connection's let through.
pub open spec fn room(c: &Connection, id: u32) -> int {
    least(open_octets(c.send@), open_octets(lane_at(c.lanes(), id).send))
}

/// `lanes` after `n` octets of `DATA` went on `id`, the last of the body
/// where `closing` says so.
pub open spec fn sent_on(lanes: Seq<(u32, Lane)>, id: u32, n: int, closing: bool) -> Seq<(u32, Lane)> {
    let lane = lane_at(lanes, id);
    lane_changed(
        lanes,
        id,
        Lane {
            send: lane.send - n,
            state: if closing {
                after_local_end(lane.state)
            } else {
                lane.state
            },
            ..lane
        },
    )
}

/// The failure "stream `id`" and `tail` say.
fn stream_failure(id: u32, tail: &str) -> (e: NetError)
    ensures
        crate::text::utf8(e.message@) == crate::text::utf8("stream "@) + crate::ascii::decimal(id as nat)
            + crate::text::utf8(tail@),
        e.io is None,
{
    let mut out: Vec<u8> = Vec::new();
    crate::text::push_str(&mut out, "stream ");
    crate::ascii::push_decimal(&mut out, id as u64);
    proof {
        vstd::utf8::encode_utf8_valid_utf8("stream "@);
        crate::ascii::lemma_decimal_ascii(id as nat);
        crate::ascii::lemma_ascii_valid(crate::ascii::decimal(id as nat));
        vstd::utf8::valid_utf8_concat(crate::text::utf8("stream "@), crate::ascii::decimal(id as nat));
    }
    crate::text::push_str(&mut out, tail);
    NetError::new(crate::text::string_of(out))
}

impl Connection {
    /// The octets `id` may send now, or why it may send none ever again.
    pub fn open_window(&self, id: u32) -> (r: Result<usize, NetError>)
        requires
            self.wf(),
        ensures
            match r {
                Ok(n) => unsendable(self.lanes(), id) is None && n == room(self, id),
                Err(e) => unsendable(self.lanes(), id) matches Some(why) && unsendable_failure(e, id, why),
            },
    {
        let k = match self.find(id) {
            Some(k) => k,
            None => {
                return Err(stream_failure(id, " is not open"));
            },
        };
        let stream = &self.streams[k].1;
        if let Some(code) = stream.reset {
            return Err(refused(id, code));
        }
        if !stream.state.sending() {
            return Err(stream_failure(id, " is closed to sending"));
        }
        let a = self.send.available();
        let b = stream.send.available();
        Ok(
            if a < b {
                a
            } else {
                b
            },
        )
    }
}

/// What stays of a connection when only its streams and its window to send
/// may change.
pub open spec fn same_but_flow(a: &Connection, b: &Connection) -> bool {
    &&& a.client == b.client
    &&& a.local == b.local
    &&& a.remote == b.remote
    &&& a.encoder == b.encoder
    &&& a.decoder == b.decoder
    &&& a.receive == b.receive
    &&& a.continuing == b.continuing
    &&& a.highest == b.highest
    &&& a.last_peer == b.last_peer
    &&& a.goaway == b.goaway
    &&& a.going_away == b.going_away
    &&& a.settings_seen == b.settings_seen
    &&& a.pongs == b.pongs
    &&& a.stalls == b.stalls
}

/// The octets of the next `DATA` of a body on `id` that has `left` octets
/// still to go.
pub open spec fn next_piece(c: &Connection, id: u32, left: int) -> int {
    least(left, least(c.remote.max_frame_size as int, room(c, id)))
}

impl Connection {
    /// One step of writing a body on `id`, of which `rest` is still to go,
    /// in `DATA`, never past the connection's window, the stream's or the
    /// peer's frame size: the next piece written after what `out` holds,
    /// the last with `END_STREAM` where `end` says so; or, where a window
    /// is shut, a stall, counted, after which the caller reads what the
    /// peer sends until it opens.
    #[verifier::spinoff_prover]
    #[verifier::rlimit(40)]
    pub fn send_data_step(&mut self, id: u32, rest: &[u8], end: bool, out: &mut Vec<u8>) -> (r: Result<
        DataStep,
        NetError,
    >)
        requires
            old(self).wf(),
            old(self).stalls < usize::MAX,
        ensures
            final(self).wf(),
            ({
                let lanes = old(self).lanes();
                let n = next_piece(old(self), id, rest@.len() as int);
                let last = n == rest@.len();
                let data = frame_octets(
                    Kind::Data,
                    if last && end {
                        END_STREAM
                    } else {
                        0u8
                    },
                    id,
                    rest@.take(n),
                );
                if unsendable(lanes, id) is Some {
                    &&& r matches Err(e) && unsendable_failure(e, id, unsendable(lanes, id)->0)
                    &&& *final(self) == *old(self)
                    &&& final(out)@ == old(out)@
                } else if n == 0 && rest@.len() > 0 {
                    &&& r matches Ok(DataStep::Stalled)
                    &&& final(self).stalls == old(self).stalls + 1
                    &&& final(self).lanes() == lanes
                    &&& same_but_streams(final(self), old(self))
                    &&& final(self).encoder == old(self).encoder
                    &&& final(out)@ == old(out)@
                } else if lane_at(lanes, id).send < 0 {
                    &&& r matches Err(e) && e.io is None
                    &&& final(self).streams@ == old(self).streams@
                    &&& same_but_streams(final(self), old(self))
                    &&& final(self).encoder == old(self).encoder
                    &&& final(self).stalls == old(self).stalls
                    &&& final(out)@ == old(out)@ + data
                } else {
                    &&& r == Ok::<DataStep, NetError>(DataStep::Sent(n as usize, last))
                    &&& final(self).send@ == old(self).send@ - n
                    &&& final(self).lanes() == sent_on(lanes, id, n, last && end)
                    &&& same_but_flow(final(self), old(self))
                    &&& final(out)@ == old(out)@ + data
                }
            }),
    {
        let open = match self.open_window(id) {
            Ok(open) => open,
            Err(e) => {
                return Err(e);
            },
        };
        let max = self.remote.max_frame_size as usize;
        let most = if max < open {
            max
        } else {
            open
        };
        if most == 0 && rest.len() > 0 {
            self.stalls = self.stalls + 1;
            return Ok(DataStep::Stalled);
        }
        let n = if rest.len() < most {
            rest.len()
        } else {
            most
        };
        let last = n == rest.len();
        let flags: u8 = if last && end {
            END_STREAM
        } else {
            0u8
        };
        let piece = vstd::slice::slice_to_vec(vstd::slice::slice_subrange(rest, 0, n));
        proof {
            assert(piece@ =~= rest@.take(n as int));
        }
        let frame = Frame::new(Kind::Data, flags, id, piece);
        super::frame::write(out, &frame);
        let k = match self.find(id) {
            Some(k) => k,
            None => {
                proof {
                    assert(false);
                }
                return Ok(DataStep::Stalled);
            },
        };
        let ghost before = *self;
        match self.send.take(n) {
            Ok(()) => {},
            Err(v) => {
                proof {
                    assert(false);
                }
                return Err(NetError::from(v));
            },
        }
        let (sid, mut stream) = self.take_stream(k);
        match stream.send.take(n) {
            Ok(()) => {},
            Err(v) => {
                self.put_stream(k, (sid, stream));
                proof {
                    assert(self.streams@ =~= old(self).streams@);
                }
                return Err(NetError::from(v));
            },
        }
        if last && end {
            stream.state = stream.state.ended_locally();
        }
        self.put_stream(k, (sid, stream));
        proof {
            let lanes = old(self).lanes();
            assert(self.streams@ =~= old(self).streams@.update(k as int, (sid, stream)));
            assert(self.lanes() =~= sent_on(lanes, id, n as int, last && end));
            lemma_entry_update_keeps(*old(self), *self, k as int, (sid, stream));
        }
        Ok(DataStep::Sent(n, last))
    }
}

/// The most debug octets a `GOAWAY` carries: what its frame holds after
/// the last stream and the code.
pub const MAX_DEBUG: usize = 16_777_207;

/// `lanes` after the stream `id`, where there is one, was reset with
/// `code`.
pub open spec fn reset_lane(lanes: Seq<(u32, Lane)>, id: u32, code: ErrorCode) -> Seq<(u32, Lane)> {
    lane_changed(lanes, id, Lane { state: State::Closed, reset: Some(code), ..lane_at(lanes, id) })
}

/// The debug octets a `GOAWAY` carries of `text`: all of them, or as many
/// as the frame holds.
pub open spec fn debug_of(text: Seq<char>) -> Seq<u8> {
    let octets = crate::text::utf8(text);
    if octets.len() <= MAX_DEBUG {
        octets
    } else {
        octets.take(MAX_DEBUG as int)
    }
}

impl Connection {
    /// End `id` with `code`, telling the peer: `RST_STREAM` after what
    /// `out` holds.
    pub fn reset(&mut self, id: u32, code: ErrorCode, out: &mut Vec<u8>)
        requires
            old(self).wf(),
        ensures
            final(self).wf(),
            final(self).lanes() == reset_lane(old(self).lanes(), id, code),
            same_but_streams(final(self), old(self)),
            final(self).encoder == old(self).encoder,
            final(self).stalls == old(self).stalls,
            final(out)@ == old(out)@ + frame_octets(
                Kind::RstStream,
                0,
                id,
                super::frame::be32(super::error::wire_code(code)),
            ),
    {
        self.reset_quietly(id, code);
        let frame = Frame::reset(id, code);
        super::frame::write(out, &frame);
    }

    /// Mark `id`, where it is open, closed and reset with `code`, telling
    /// nobody.
    pub fn reset_quietly(&mut self, id: u32, code: ErrorCode)
        requires
            old(self).wf(),
        ensures
            final(self).wf(),
            final(self).lanes() == reset_lane(old(self).lanes(), id, code),
            same_but_streams(final(self), old(self)),
            final(self).encoder == old(self).encoder,
            final(self).stalls == old(self).stalls,
    {
        if let Some(k) = self.find(id) {
            let (sid, mut stream) = self.take_stream(k);
            stream.state = State::Closed;
            stream.reset = Some(code);
            self.put_stream(k, (sid, stream));
            proof {
                let lanes = old(self).lanes();
                assert(self.streams@ =~= old(self).streams@.update(k as int, (sid, stream)));
                assert(self.lanes() =~= reset_lane(lanes, id, code));
                assert forall|i: int, j: int| 0 <= i < j < self.lanes().len() implies self.lanes()[i].0
                    < self.lanes()[j].0 by {
                    assert(self.lanes()[i].0 == lanes[i].0 && self.lanes()[j].0 == lanes[j].0);
                }
                assert forall|j: int| 0 <= j < self.streams@.len() implies #[trigger] self.streams@[j].0
                    <= self.highest by {
                    assert(self.streams@[j].0 == old(self).streams@[j].0);
                }
            }
        }
    }

    /// Tell the peer this side is going away, for `code`: nothing it opens
    /// after the last stream it opened will be processed. The `GOAWAY`
    /// goes after what `out` holds, with as much of `debug` as it holds.
    pub fn go_away(&mut self, code: ErrorCode, debug: &str, out: &mut Vec<u8>)
        requires
            old(self).wf(),
        ensures
            final(self).wf(),
            final(self).going_away,
            final(self).streams == old(self).streams,
            final(self).encoder == old(self).encoder,
            final(self).decoder == old(self).decoder,
            final(self).send == old(self).send,
            final(self).receive == old(self).receive,
            final(self).remote == old(self).remote,
            final(self).local == old(self).local,
            final(self).client == old(self).client,
            final(self).continuing == old(self).continuing,
            final(self).highest == old(self).highest,
            final(self).last_peer == old(self).last_peer,
            final(self).goaway == old(self).goaway,
            final(self).settings_seen == old(self).settings_seen,
            final(self).pongs == old(self).pongs,
            final(self).stalls == old(self).stalls,
            final(out)@ == old(out)@ + frame_octets(
                Kind::Goaway,
                0,
                0,
                super::frame::be32(old(self).last_peer & MAX_STREAM_ID) + super::frame::be32(
                    super::error::wire_code(code),
                ) + debug_of(debug@),
            ),
    {
        self.going_away = true;
        let octets = debug.as_bytes();
        let cut = if octets.len() <= MAX_DEBUG {
            octets
        } else {
            vstd::slice::slice_subrange(octets, 0, MAX_DEBUG)
        };
        proof {
            if octets@.len() > MAX_DEBUG {
                assert(cut@ =~= octets@.take(MAX_DEBUG as int));
            }
        }
        let frame = Frame::goaway(self.last_peer, code, cut);
        super::frame::write(out, &frame);
    }

    /// End the connection over `violation`: a `GOAWAY` carrying its code,
    /// and the failure the caller returns.
    pub fn fail(&mut self, violation: Violation, out: &mut Vec<u8>) -> (e: NetError)
        requires
            old(self).wf(),
        ensures
            final(self).wf(),
            final(self).going_away,
            final(self).streams == old(self).streams,
            final(self).encoder == old(self).encoder,
            final(self).decoder == old(self).decoder,
            final(self).send == old(self).send,
            final(self).receive == old(self).receive,
            final(self).remote == old(self).remote,
            final(self).local == old(self).local,
            final(self).client == old(self).client,
            final(self).continuing == old(self).continuing,
            final(self).highest == old(self).highest,
            final(self).last_peer == old(self).last_peer,
            final(self).goaway == old(self).goaway,
            final(self).settings_seen == old(self).settings_seen,
            final(self).pongs == old(self).pongs,
            final(self).stalls == old(self).stalls,
            final(out)@ == old(out)@ + frame_octets(
                Kind::Goaway,
                0,
                0,
                super::frame::be32(old(self).last_peer & MAX_STREAM_ID) + super::frame::be32(
                    super::error::wire_code(violation.code),
                ) + debug_of(violation.message@),
            ),
            crate::text::utf8(e.message@) == super::error::violation_said(violation),
            e.io is None,
    {
        self.go_away(violation.code, violation.message.as_str(), out);
        NetError::from(violation)
    }

    /// Send a `PING` carrying `opaque`, after what `out` holds; its
    /// acknowledgement is awaited by reading until [`has_pong`] says it
    /// came back.
    pub fn ping(&self, opaque: [u8; 8], out: &mut Vec<u8>)
        ensures
            final(out)@ == old(out)@ + frame_octets(Kind::Ping, 0, 0, opaque@),
    {
        let frame = Frame::ping(opaque, false);
        super::frame::write(out, &frame);
    }

    /// Whether an acknowledgement of a `PING` carrying `opaque` arrived.
    pub fn has_pong(&self, opaque: [u8; 8]) -> (r: bool)
        ensures
            r == exists|k: int| 0 <= k < self.pongs@.len() && #[trigger] self.pongs@[k]@ == opaque@,
    {
        let mut k: usize = 0;
        while k < self.pongs.len()
            invariant
                k <= self.pongs@.len(),
                forall|j: int| 0 <= j < k ==> #[trigger] self.pongs@[j]@ != opaque@,
            decreases self.pongs.len() - k,
        {
            if crate::text::bytes_equal(self.pongs[k].as_slice(), &opaque) {
                assert(self.pongs@[k as int]@ == opaque@);
                return true;
            }
            k = k + 1;
        }
        false
    }
}

/// Changing one stream in place, its identifier, its window to receive and
/// its body kept, keeps what a connection keeps.
pub proof fn lemma_entry_update_keeps(a: Connection, b: Connection, k: int, entry: (u32, Stream))
    requires
        a.wf(),
        0 <= k < a.streams@.len(),
        b.streams@ == a.streams@.update(k, entry),
        entry.0 == a.streams@[k].0,
        entry.1.receive == a.streams@[k].1.receive,
        entry.1.body == a.streams@[k].1.body,
        same_but_flow(&b, &a),
        b.send@ >= 0,
    ensures
        b.wf(),
{
    assert forall|i: int, j: int| 0 <= i < j < b.lanes().len() implies b.lanes()[i].0 < b.lanes()[j].0 by {
        assert(b.lanes()[i].0 == a.lanes()[i].0 && b.lanes()[j].0 == a.lanes()[j].0);
    }
    assert forall|j: int| 0 <= j < b.streams@.len() implies #[trigger] b.streams@[j].0 <= b.highest by {
        assert(b.streams@[j].0 == a.streams@[j].0);
    }
    assert forall|j: int| 0 <= j < b.streams@.len() implies #[trigger] b.streams@[j].1.receive@ <= MAX_STREAM_ID
        && b.streams@[j].1.body@.len() <= crate::http::MAX_BODY by {
        assert(b.streams@[j].1.receive == a.streams@[j].1.receive);
        assert(b.streams@[j].1.body == a.streams@[j].1.body);
    }
}

} // verus!
