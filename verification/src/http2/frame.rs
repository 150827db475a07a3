//! The frame of RFC 9113 section 4: nine octets of header — a 24-bit
//! length, a type, flags and a 31-bit stream identifier — and the payload,
//! with the layout of each of the ten types of section 6 written and read.

use vstd::prelude::*;

use super::error::{wire_code, ErrorCode, Violation};
use crate::NetError;
use crate::ascii::with_numbers;

verus! {

/// The octets of a frame's header.
pub const HEADER_LEN: usize = 9;

/// The largest payload a peer may send before it is told otherwise
/// (`SETTINGS_MAX_FRAME_SIZE`'s initial value).
pub const DEFAULT_MAX_FRAME_SIZE: u32 = 16_384;

/// The largest `SETTINGS_MAX_FRAME_SIZE` may be: 2^24 - 1.
pub const MAX_FRAME_SIZE_LIMIT: u32 = 16_777_215;

/// The largest stream identifier and window: 2^31 - 1.
pub const MAX_STREAM_ID: u32 = 0x7fff_ffff;

/// `END_STREAM`, on `DATA` and `HEADERS`.
pub const END_STREAM: u8 = 0x1;

/// `ACK`, on `SETTINGS` and `PING`.
pub const ACK: u8 = 0x1;

/// `END_HEADERS`, on `HEADERS`, `PUSH_PROMISE` and `CONTINUATION`.
pub const END_HEADERS: u8 = 0x4;

/// `PADDED`, on `DATA`, `HEADERS` and `PUSH_PROMISE`.
pub const PADDED: u8 = 0x8;

/// `PRIORITY`, on `HEADERS`.
pub const PRIORITY: u8 = 0x20;

/// The type of a frame (RFC 9113 section 6); one this side does not know
/// is kept by its number and ignored, as section 4.1 asks.
#[derive(Clone, Copy, Debug, PartialEq, Eq, Structural)]
pub enum Kind {
    Data,
    Headers,
    Priority,
    RstStream,
    Settings,
    PushPromise,
    Ping,
    Goaway,
    WindowUpdate,
    Continuation,
    Unknown(u8),
}

/// The number the wire carries for `kind`.
pub open spec fn kind_code(kind: Kind) -> u8 {
    match kind {
        Kind::Data => 0x0,
        Kind::Headers => 0x1,
        Kind::Priority => 0x2,
        Kind::RstStream => 0x3,
        Kind::Settings => 0x4,
        Kind::PushPromise => 0x5,
        Kind::Ping => 0x6,
        Kind::Goaway => 0x7,
        Kind::WindowUpdate => 0x8,
        Kind::Continuation => 0x9,
        Kind::Unknown(code) => code,
    }
}

/// The type the number `code` names on the wire.
pub open spec fn kind_of(code: u8) -> Kind {
    if code == 0x0 {
        Kind::Data
    } else if code == 0x1 {
        Kind::Headers
    } else if code == 0x2 {
        Kind::Priority
    } else if code == 0x3 {
        Kind::RstStream
    } else if code == 0x4 {
        Kind::Settings
    } else if code == 0x5 {
        Kind::PushPromise
    } else if code == 0x6 {
        Kind::Ping
    } else if code == 0x7 {
        Kind::Goaway
    } else if code == 0x8 {
        Kind::WindowUpdate
    } else if code == 0x9 {
        Kind::Continuation
    } else {
        Kind::Unknown(code)
    }
}

impl Kind {
    /// The type as the wire carries it.
    pub fn code(self) -> (r: u8)
        ensures
            r == kind_code(self),
    {
        match self {
            Kind::Data => 0x0,
            Kind::Headers => 0x1,
            Kind::Priority => 0x2,
            Kind::RstStream => 0x3,
            Kind::Settings => 0x4,
            Kind::PushPromise => 0x5,
            Kind::Ping => 0x6,
            Kind::Goaway => 0x7,
            Kind::WindowUpdate => 0x8,
            Kind::Continuation => 0x9,
            Kind::Unknown(code) => code,
        }
    }

    /// The type the wire carried.
    pub fn of(code: u8) -> (r: Kind)
        ensures
            r == kind_of(code),
    {
        match code {
            0x0 => Kind::Data,
            0x1 => Kind::Headers,
            0x2 => Kind::Priority,
            0x3 => Kind::RstStream,
            0x4 => Kind::Settings,
            0x5 => Kind::PushPromise,
            0x6 => Kind::Ping,
            0x7 => Kind::Goaway,
            0x8 => Kind::WindowUpdate,
            0x9 => Kind::Continuation,
            other => Kind::Unknown(other),
        }
    }

    /// The name the type is written with in a message: its variant's.
    pub fn name(self) -> (r: &'static str)
        ensures
            r@ == kind_name(self),
    {
        match self {
            Kind::Data => "Data",
            Kind::Headers => "Headers",
            Kind::Priority => "Priority",
            Kind::RstStream => "RstStream",
            Kind::Settings => "Settings",
            Kind::PushPromise => "PushPromise",
            Kind::Ping => "Ping",
            Kind::Goaway => "Goaway",
            Kind::WindowUpdate => "WindowUpdate",
            Kind::Continuation => "Continuation",
            Kind::Unknown(_) => "Unknown",
        }
    }
}

/// The name of the variant of `kind`.
pub open spec fn kind_name(kind: Kind) -> Seq<char> {
    match kind {
        Kind::Data => "Data"@,
        Kind::Headers => "Headers"@,
        Kind::Priority => "Priority"@,
        Kind::RstStream => "RstStream"@,
        Kind::Settings => "Settings"@,
        Kind::PushPromise => "PushPromise"@,
        Kind::Ping => "Ping"@,
        Kind::Goaway => "Goaway"@,
        Kind::WindowUpdate => "WindowUpdate"@,
        Kind::Continuation => "Continuation"@,
        Kind::Unknown(_) => "Unknown"@,
    }
}

/// Every number a type is carried as reads back as itself.
pub proof fn law_kind_code_round_trips(code: u8)
    ensures
        kind_code(kind_of(code)) == code,
{
}

/// Every type of section 6 reads back as itself from the number it is
/// written with; one this side does not know is kept by its number.
pub proof fn law_known_kind_round_trips(kind: Kind)
    requires
        kind matches Kind::Unknown(n) ==> n > 0x9,
    ensures
        kind_of(kind_code(kind)) == kind,
{
}

/// The four octets of `value`, most significant first.
pub open spec fn be32(value: u32) -> Seq<u8> {
    seq![(value >> 24u32) as u8, (value >> 16u32) as u8, (value >> 8u32) as u8, value as u8]
}

/// The 32-bit number the four octets at `at` of `octets` write.
pub open spec fn word_at(octets: Seq<u8>, at: int) -> u32 {
    ((octets[at] as u32) << 24u32) | ((octets[at + 1] as u32) << 16u32) | ((octets[at + 2]
        as u32) << 8u32) | (octets[at + 3] as u32)
}

/// Four octets read back as the number they were written from.
pub proof fn law_word_round_trips(value: u32, before: Seq<u8>, after: Seq<u8>)
    ensures
        word_at(before + be32(value) + after, before.len() as int) == value,
{
    let whole = before + be32(value) + after;
    let at = before.len() as int;
    assert(whole[at] == (value >> 24u32) as u8);
    assert(whole[at + 1] == (value >> 16u32) as u8);
    assert(whole[at + 2] == (value >> 8u32) as u8);
    assert(whole[at + 3] == value as u8);
    let a = (value >> 24u32) as u8;
    let b = (value >> 16u32) as u8;
    let c = (value >> 8u32) as u8;
    let d = value as u8;
    assert(((a as u32) << 24u32) | ((b as u32) << 16u32) | ((c as u32) << 8u32) | (d as u32)
        == value) by (bit_vector)
        requires
            a == (value >> 24u32) as u8,
            b == (value >> 16u32) as u8,
            c == (value >> 8u32) as u8,
            d == value as u8,
    ;
}

fn push_be32(value: u32, out: &mut Vec<u8>)
    ensures
        final(out)@ == old(out)@ + be32(value),
{
    out.push((value >> 24u32) as u8);
    out.push((value >> 16u32) as u8);
    out.push((value >> 8u32) as u8);
    out.push(value as u8);
    assert(out@ =~= old(out)@ + be32(value));
}

/// One frame: its type, flags, stream and payload.
#[derive(Clone, Debug, PartialEq, Eq)]
pub struct Frame {
    pub kind: Kind,
    pub flags: u8,
    pub stream: u32,
    pub payload: Vec<u8>,
}

/// The frame's header and payload as the wire carries them.
pub open spec fn frame_octets(kind: Kind, flags: u8, stream: u32, payload: Seq<u8>) -> Seq<u8> {
    be32(payload.len() as u32).skip(1) + seq![kind_code(kind), flags] + be32(
        stream & MAX_STREAM_ID,
    ) + payload
}

/// What `DATA`, `HEADERS` or `PUSH_PROMISE` carries, its padding and, on
/// `HEADERS`, its priority taken off; or the code of why it cannot be.
pub open spec fn content_of(kind: Kind, flags: u8, payload: Seq<u8>) -> Result<Seq<u8>, ErrorCode> {
    let padded = flags & PADDED != 0;
    if padded && payload.len() == 0 {
        Err(ErrorCode::FrameSize)
    } else {
        let pad: nat = if padded {
            payload[0] as nat
        } else {
            0
        };
        let body = if padded {
            payload.skip(1)
        } else {
            payload
        };
        let prioritized = kind == Kind::Headers && flags & PRIORITY != 0;
        if prioritized && body.len() < 5 {
            Err(ErrorCode::FrameSize)
        } else {
            let body = if prioritized {
                body.skip(5)
            } else {
                body
            };
            if pad > body.len() {
                Err(ErrorCode::Protocol)
            } else {
                Ok(body.take(body.len() - pad))
            }
        }
    }
}

impl Frame {
    /// A frame of `kind` on `stream`.
    pub fn new(kind: Kind, flags: u8, stream: u32, payload: Vec<u8>) -> (frame: Self)
        ensures
            frame.kind == kind,
            frame.flags == flags,
            frame.stream == stream,
            frame.payload@ == payload@,
    {
        Frame { kind, flags, stream, payload }
    }

    /// Whether `flag` is set.
    pub fn has(&self, flag: u8) -> (r: bool)
        ensures
            r == (self.flags & flag != 0),
    {
        self.flags & flag != 0
    }

    /// `RST_STREAM`: `stream` ends with `code`.
    pub fn reset(stream: u32, code: ErrorCode) -> (frame: Self)
        ensures
            frame.kind == Kind::RstStream,
            frame.flags == 0,
            frame.stream == stream,
            frame.payload@ == be32(wire_code(code)),
    {
        let mut payload = Vec::new();
        push_be32(code.code(), &mut payload);
        Frame::new(Kind::RstStream, 0, stream, payload)
    }

    /// `PING` with `opaque`, or its acknowledgement.
    pub fn ping(opaque: [u8; 8], ack: bool) -> (frame: Self)
        ensures
            frame.kind == Kind::Ping,
            frame.flags == if ack {
                ACK
            } else {
                0
            },
            frame.stream == 0,
            frame.payload@ == opaque@,
    {
        let mut payload = Vec::new();
        let mut i: usize = 0;
        while i < 8
            invariant
                i <= 8,
                payload@ == opaque@.take(i as int),
            decreases 8 - i,
        {
            payload.push(opaque[i]);
            i = i + 1;
            assert(payload@ =~= opaque@.take(i as int));
        }
        assert(opaque@.take(8) =~= opaque@);
        Frame::new(
            Kind::Ping,
            if ack {
                ACK
            } else {
                0
            },
            0,
            payload,
        )
    }

    /// `GOAWAY`: nothing above `last` was or will be processed, for `code`,
    /// with `debug` for whoever reads the peer's log.
    pub fn goaway(last: u32, code: ErrorCode, debug: &[u8]) -> (frame: Self)
        ensures
            frame.kind == Kind::Goaway,
            frame.flags == 0,
            frame.stream == 0,
            frame.payload@ == be32(last & MAX_STREAM_ID) + be32(wire_code(code)) + debug@,
    {
        let mut payload = Vec::new();
        push_be32(last & MAX_STREAM_ID, &mut payload);
        push_be32(code.code(), &mut payload);
        let ghost before = payload@;
        payload.extend_from_slice(debug);
        assert(payload@ =~= before + debug@);
        Frame::new(Kind::Goaway, 0, 0, payload)
    }

    /// `WINDOW_UPDATE`: `stream` (0 for the connection) may take
    /// `increment` more octets.
    pub fn window_update(stream: u32, increment: u32) -> (frame: Self)
        ensures
            frame.kind == Kind::WindowUpdate,
            frame.flags == 0,
            frame.stream == stream,
            frame.payload@ == be32(increment & MAX_STREAM_ID),
    {
        let mut payload = Vec::new();
        push_be32(increment & MAX_STREAM_ID, &mut payload);
        Frame::new(Kind::WindowUpdate, 0, stream, payload)
    }

    /// The frame as the wire carries it, for a payload under 2^24 octets —
    /// what a caller sized to the peer's maximum always has.
    pub fn encode(&self) -> (r: Vec<u8>)
        requires
            self.payload@.len() <= MAX_FRAME_SIZE_LIMIT,
        ensures
            r@ == frame_octets(self.kind, self.flags, self.stream, self.payload@),
    {
        let length = self.payload.len() as u32;
        let mut out = Vec::new();
        out.push((length >> 16u32) as u8);
        out.push((length >> 8u32) as u8);
        out.push(length as u8);
        out.push(self.kind.code());
        out.push(self.flags);
        push_be32(self.stream & MAX_STREAM_ID, &mut out);
        let ghost before = out@;
        out.extend_from_slice(self.payload.as_slice());
        assert(out@ =~= frame_octets(self.kind, self.flags, self.stream, self.payload@));
        out
    }

    /// The content of a `DATA`, `HEADERS` or `PUSH_PROMISE` without its
    /// padding, and for `HEADERS` without its priority (RFC 9113 sections
    /// 6.1, 6.2 and 6.6).
    ///
    /// # Errors
    ///
    /// A `PROTOCOL_ERROR` where the padding is as long as what it pads; a
    /// `FRAME_SIZE_ERROR` where there is no room for the pad length or the
    /// priority.
    pub fn content(&self) -> (r: Result<&[u8], Violation>)
        ensures
            match r {
                Ok(body) => content_of(self.kind, self.flags, self.payload@) == Ok::<
                    Seq<u8>,
                    ErrorCode,
                >(body@),
                Err(violation) => content_of(self.kind, self.flags, self.payload@) == Err::<
                    Seq<u8>,
                    ErrorCode,
                >(violation.code),
            },
    {
        let payload = self.payload.as_slice();
        let mut start: usize = 0;
        let mut pad: usize = 0;
        if self.has(PADDED) {
            if payload.len() == 0 {
                return Err(Violation::frame_size("a padded frame with no pad length"));
            }
            pad = payload[0] as usize;
            start = 1;
        }
        if self.kind == Kind::Headers && self.has(PRIORITY) {
            if payload.len() - start < 5 {
                return Err(Violation::frame_size("a HEADERS too short for its priority"));
            }
            start = start + 5;
        }
        if pad > payload.len() - start {
            return Err(Violation::protocol("the padding is longer than the frame"));
        }
        let body = &payload[start..payload.len() - pad];
        proof {
            let padded = self.flags & PADDED != 0;
            let first = if padded {
                self.payload@.skip(1)
            } else {
                self.payload@
            };
            let prioritized = self.kind == Kind::Headers && self.flags & PRIORITY != 0;
            let second = if prioritized {
                first.skip(5)
            } else {
                first
            };
            assert(second =~= self.payload@.skip(start as int));
            assert(body@ =~= second.take(second.len() - pad));
        }
        Ok(body)
    }

    /// A 32-bit field at `at` of the payload.
    pub fn word(&self, at: usize) -> (r: Option<u32>)
        ensures
            match r {
                Some(word) => at + 4 <= self.payload@.len() && word == word_at(
                    self.payload@,
                    at as int,
                ),
                None => at + 4 > self.payload@.len(),
            },
    {
        if at > self.payload.len() || self.payload.len() - at < 4 {
            return None;
        }
        let p = self.payload.as_slice();
        Some(((p[at] as u32) << 24u32) | ((p[at + 1] as u32) << 16u32) | ((p[at + 2] as u32)
            << 8u32) | (p[at + 3] as u32))
    }
}

/// Write `frame` after what `out` holds.
pub fn write(out: &mut Vec<u8>, frame: &Frame)
    requires
        frame.payload@.len() <= MAX_FRAME_SIZE_LIMIT,
    ensures
        final(out)@ == old(out)@ + frame_octets(frame.kind, frame.flags, frame.stream, frame.payload@),
{
    let octets = frame.encode();
    out.extend_from_slice(octets.as_slice());
}

/// Why a frame could not be read: the connection's failure, or the peer's
/// breach, which is answered before the connection ends.
#[derive(Debug)]
pub enum ReadFailure {
    Net(NetError),
    Violation(Violation),
}

/// What the nine octets of a frame's header say: the payload's length,
/// the type, the flags and the stream, its reserved bit ignored.
pub open spec fn header_of(header: Seq<u8>) -> (u32, Kind, u8, u32) {
    (
        ((header[0] as u32) << 16u32) | ((header[1] as u32) << 8u32) | (header[2] as u32),
        kind_of(header[3]),
        header[4],
        word_at(header, 5) & MAX_STREAM_ID,
    )
}

/// The header at the start of `header`: the payload's length, the type, the
/// flags and the stream.
///
/// # Errors
///
/// A `FRAME_SIZE_ERROR` where the length is over `max_size`: the caller
/// answers it with a `GOAWAY`.
pub fn parse_header(header: &[u8], max_size: u32) -> (r: Result<(u32, Kind, u8, u32), Violation>)
    requires
        header@.len() >= HEADER_LEN,
    ensures
        match r {
            Ok(parts) => parts == header_of(header@) && parts.0 <= max_size,
            Err(violation) => header_of(header@).0 > max_size && violation.code
                == ErrorCode::FrameSize,
        },
{
    let length = ((header[0] as u32) << 16u32) | ((header[1] as u32) << 8u32) | (header[2] as u32);
    if length > max_size {
        return Err(Violation::frame_size(
            with_numbers(
                "a frame of ",
                length as u64,
                " octets, over the ",
                max_size as u64,
                " this side allows",
            ).as_str(),
        ));
    }
    let stream = (((header[5] as u32) << 24u32) | ((header[6] as u32) << 16u32) | ((header[7]
        as u32) << 8u32) | (header[8] as u32)) & MAX_STREAM_ID;
    Ok((length, Kind::of(header[3]), header[4], stream))
}

/// Read one frame from the front of `input`: `None` where it holds nothing,
/// else the frame and the octets it took.
///
/// # Errors
///
/// Where the input ends inside a frame, or the frame is larger than
/// `max_size`: a `FRAME_SIZE_ERROR` the caller answers with a `GOAWAY`.
pub fn read(input: &[u8], max_size: u32) -> (r: Result<Option<(Frame, usize)>, ReadFailure>)
    ensures
        match r {
            Ok(None) => input@.len() == 0,
            Ok(Some((frame, used))) => {
                let (length, kind, flags, stream) = header_of(input@);
                &&& input@.len() >= HEADER_LEN
                &&& length <= max_size
                &&& used == HEADER_LEN + length
                &&& used <= input@.len()
                &&& frame.kind == kind
                &&& frame.flags == flags
                &&& frame.stream == stream
                &&& frame.payload@ == input@.subrange(HEADER_LEN as int, used as int)
            },
            Err(ReadFailure::Violation(violation)) => input@.len() >= HEADER_LEN && header_of(
                input@,
            ).0 > max_size && violation.code == ErrorCode::FrameSize,
            Err(ReadFailure::Net(_)) => (0 < input@.len() < HEADER_LEN) || (input@.len()
                >= HEADER_LEN && header_of(input@).0 <= max_size && input@.len() < HEADER_LEN
                + header_of(input@).0),
        },
{
    if input.len() == 0 {
        return Ok(None);
    }
    if input.len() < HEADER_LEN {
        return Err(
            ReadFailure::Net(NetError::new(owned_text("the connection closed inside a frame header"))),
        );
    }
    let (length, kind, flags, stream) = match parse_header(input, max_size) {
        Ok(parts) => parts,
        Err(violation) => return Err(ReadFailure::Violation(violation)),
    };
    if input.len() - HEADER_LEN < length as usize {
        return Err(
            ReadFailure::Net(NetError::new(owned_text("the connection closed inside a frame's payload"))),
        );
    }
    let used = HEADER_LEN + length as usize;
    let payload = vstd::slice::slice_to_vec(&input[HEADER_LEN..used]);
    Ok(Some((Frame::new(kind, flags, stream, payload), used)))
}

fn owned_text(text: &str) -> (r: String)
    ensures
        r@ == text@,
{
    crate::text::owned(text)
}

/// A frame as the wire carries it reads back as itself, whatever follows
/// it: its length, type, flags and stream from its header, its payload
/// after — for a payload a frame can hold, and a type of section 6 or one
/// kept by its number.
pub proof fn law_frame_reads_back(kind: Kind, flags: u8, stream: u32, payload: Seq<u8>, after: Seq<u8>)
    requires
        payload.len() <= MAX_FRAME_SIZE_LIMIT,
        kind matches Kind::Unknown(n) ==> n > 0x9,
    ensures
        header_of(frame_octets(kind, flags, stream, payload) + after) == (
            payload.len() as u32,
            kind,
            flags,
            stream & MAX_STREAM_ID,
        ),
        (frame_octets(kind, flags, stream, payload) + after).subrange(
            HEADER_LEN as int,
            HEADER_LEN + payload.len(),
        ) == payload,
{
    let len = payload.len() as u32;
    let id = stream & MAX_STREAM_ID;
    let head = be32(len).skip(1) + seq![kind_code(kind), flags];
    let wire = frame_octets(kind, flags, stream, payload) + after;
    assert(wire =~= head + be32(id) + (payload + after));
    law_word_round_trips(id, head, payload + after);
    law_known_kind_round_trips(kind);
    let a = (len >> 16u32) as u8;
    let b = (len >> 8u32) as u8;
    let c = len as u8;
    assert(wire[0] == a && wire[1] == b && wire[2] == c);
    assert(((a as u32) << 16u32) | ((b as u32) << 8u32) | (c as u32) == len) by (bit_vector)
        requires
            len <= 16_777_215,
            a == (len >> 16u32) as u8,
            b == (len >> 8u32) as u8,
            c == len as u8,
    ;
    assert(id & MAX_STREAM_ID == id) by (bit_vector)
        requires
            id == stream & 0x7fff_ffffu32,
    ;
    assert(wire.subrange(HEADER_LEN as int, HEADER_LEN + payload.len()) =~= payload);
}

} // verus!
