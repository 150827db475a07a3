//! A stream of RFC 9113 section 5.1: its state, its two windows, and what
//! has arrived on it — the head, the body and the trailers.

use vstd::prelude::*;

use super::error::{ErrorCode, Violation};
use super::window::Window;
use crate::text::{str_equal, utf8};

verus! {

/// The states of section 5.1 a stream this side takes part in can be in,
/// once open: a stream above the highest opened is idle and has no record,
/// and the reserved states belong to server push, which this side
/// disables.
#[derive(Clone, Copy, Debug, PartialEq, Eq, Structural)]
pub enum State {
    Open,
    /// This side has sent `END_STREAM`.
    HalfClosedLocal,
    /// The peer has sent `END_STREAM`.
    HalfClosedRemote,
    Closed,
}

/// The state after this side sends `END_STREAM`.
pub open spec fn after_local_end(s: State) -> State {
    match s {
        State::Open => State::HalfClosedLocal,
        _ => State::Closed,
    }
}

/// The state after the peer sends `END_STREAM`.
pub open spec fn after_remote_end(s: State) -> State {
    match s {
        State::Open => State::HalfClosedRemote,
        _ => State::Closed,
    }
}

/// Whether the peer may still send in state `s`.
pub open spec fn peer_may_send(s: State) -> bool {
    s == State::Open || s == State::HalfClosedLocal
}

/// Whether this side may still send in state `s`.
pub open spec fn we_may_send(s: State) -> bool {
    s == State::Open || s == State::HalfClosedRemote
}

impl State {
    /// After this side sends `END_STREAM`.
    pub fn ended_locally(self) -> (r: Self)
        ensures
            r == after_local_end(self),
    {
        match self {
            State::Open => State::HalfClosedLocal,
            State::HalfClosedRemote | State::HalfClosedLocal | State::Closed => State::Closed,
        }
    }

    /// After the peer sends `END_STREAM`.
    pub fn ended_remotely(self) -> (r: Self)
        ensures
            r == after_remote_end(self),
    {
        match self {
            State::Open => State::HalfClosedRemote,
            State::HalfClosedLocal | State::HalfClosedRemote | State::Closed => State::Closed,
        }
    }

    /// Whether the peer may still send on it.
    pub fn receiving(self) -> (r: bool)
        ensures
            r == peer_may_send(self),
    {
        matches!(self, State::Open | State::HalfClosedLocal)
    }

    /// Whether this side may still send on it.
    pub fn sending(self) -> (r: bool)
        ensures
            r == we_may_send(self),
    {
        matches!(self, State::Open | State::HalfClosedRemote)
    }
}

/// Once both sides have sent `END_STREAM`, in either order, the stream is
/// closed, and neither may send on it; each end alone leaves the other side
/// sending.
pub proof fn law_both_ends_close(s: State)
    requires
        s == State::Open,
    ensures
        after_remote_end(after_local_end(s)) == State::Closed,
        after_local_end(after_remote_end(s)) == State::Closed,
        peer_may_send(after_local_end(s)) && !we_may_send(after_local_end(s)),
        we_may_send(after_remote_end(s)) && !peer_may_send(after_remote_end(s)),
{
}

/// Closed is final: no end of either side opens it again, and nothing may
/// be sent on it.
pub proof fn law_closed_stays_closed(s: State)
    requires
        s == State::Closed,
    ensures
        after_local_end(s) == State::Closed,
        after_remote_end(s) == State::Closed,
        !peer_may_send(s) && !we_may_send(s),
{
}

/// One stream: where it stands, what each side may still send on it, and
/// what arrived.
#[derive(Clone, Debug)]
pub struct Stream {
    pub state: State,
    /// What this side may still send.
    pub send: Window,
    /// What the peer may still send.
    pub receive: Window,
    /// The head, once its block is whole: the fields, pseudo-fields first.
    pub head: Option<Vec<(String, String)>>,
    pub body: Vec<u8>,
    pub trailers: Vec<(String, String)>,
    /// Why it was ended with `RST_STREAM`, by either side, or passed over
    /// by the peer's `GOAWAY`.
    pub reset: Option<ErrorCode>,
}

/// Whether `fields` are the head of a 1xx: a `:status` that starts with 1.
pub open spec fn informational(fields: Seq<(String, String)>) -> bool {
    exists|i: int|
        0 <= i < fields.len() && (#[trigger] fields[i]).0@ == ":status"@ && utf8(fields[i].1@).len()
            > 0 && utf8(fields[i].1@)[0] == 0x31u8
}

/// Whether the peer has finished sending on `s`: ended, or reset.
pub open spec fn stream_finished(s: Stream) -> bool {
    s.reset is Some || !peer_may_send(s.state)
}

fn is_informational(fields: &Vec<(String, String)>) -> (r: bool)
    ensures
        r == informational(fields@),
{
    let mut i: usize = 0;
    while i < fields.len()
        invariant
            i <= fields@.len(),
            forall|j: int|
                0 <= j < i ==> !((#[trigger] fields@[j]).0@ == ":status"@ && utf8(
                    fields@[j].1@,
                ).len() > 0 && utf8(fields@[j].1@)[0] == 0x31u8),
        decreases fields.len() - i,
    {
        let octets = fields[i].1.as_str().as_bytes();
        if str_equal(fields[i].0.as_str(), ":status") && octets.len() > 0 && octets[0] == 0x31u8 {
            assert(fields@[i as int].0@ == ":status"@);
            return true;
        }
        i = i + 1;
    }
    false
}

impl Stream {
    /// A stream opened with these windows.
    pub fn new(send: u32, receive: u32) -> (s: Self)
        ensures
            s.state == State::Open,
            s.send@ == send,
            s.receive@ == receive,
            s.head is None,
            s.body@ == Seq::<u8>::empty(),
            s.trailers@ == Seq::<(String, String)>::empty(),
            s.reset is None,
    {
        Stream {
            state: State::Open,
            send: Window::new(send),
            receive: Window::new(receive),
            head: None,
            body: Vec::new(),
            trailers: Vec::new(),
            reset: None,
        }
    }

    /// A header block arrived whole: the head, a 1xx the head replaces, or
    /// the trailers, which must end the stream.
    ///
    /// # Errors
    ///
    /// A `PROTOCOL_ERROR` for trailers that do not end the stream, or a
    /// block on a stream the peer has ended (a `STREAM_CLOSED`).
    pub fn headers(&mut self, fields: Vec<(String, String)>, end: bool) -> (r: Result<
        (),
        Violation,
    >)
        ensures
            !peer_may_send(old(self).state) ==> (r matches Err(v) && v.code
                == ErrorCode::StreamClosed) && *final(self) == *old(self),
            peer_may_send(old(self).state) && old(self).head is Some && !informational(fields@)
                && !end ==> (r matches Err(v) && v.code == ErrorCode::Protocol) && *final(self)
                == *old(self),
            peer_may_send(old(self).state) && (old(self).head is None || informational(fields@)
                || end) ==> r is Ok && final(self).state == (if end {
                after_remote_end(old(self).state)
            } else {
                old(self).state
            }) && final(self).head == (if old(self).head is None && !informational(fields@) {
                Some(fields)
            } else {
                old(self).head
            }) && final(self).trailers == (if old(self).head is Some && !informational(fields@) {
                fields
            } else {
                old(self).trailers
            }) && final(self).send == old(self).send && final(self).receive == old(self).receive
                && final(self).body == old(self).body && final(self).reset == old(self).reset,
    {
        if !self.state.receiving() {
            return Err(Violation::new(ErrorCode::StreamClosed, "HEADERS after END_STREAM"));
        }
        let informational = is_informational(&fields);
        if self.head.is_none() || informational {
            if !informational {
                self.head = Some(fields);
            }
        } else if end {
            self.trailers = fields;
        } else {
            return Err(Violation::protocol("a second header block that does not end the stream"));
        }
        if end {
            self.state = self.state.ended_remotely();
        }
        Ok(())
    }

    /// Whether the peer has finished sending: ended, or reset.
    pub fn finished(&self) -> (r: bool)
        ensures
            r == stream_finished(*self),
    {
        self.reset.is_some() || !self.state.receiving()
    }
}

} // verus!
