//! A flow-control window (RFC 9113 section 5.2 and 6.9): what one side may
//! still send, taken by every `DATA` and given back by `WINDOW_UPDATE`.

use vstd::prelude::*;
use vstd::utf8::*;

use super::error::{ErrorCode, Violation};
use super::frame::MAX_STREAM_ID;
use crate::ascii::{decimal, lemma_ascii_valid, lemma_decimal_ascii, push_decimal};
use crate::text::{push_str, string_of, utf8};

verus! {

/// One window, on the connection or on a stream. Signed, because a
/// smaller `SETTINGS_INITIAL_WINDOW_SIZE` can take a stream's window below
/// zero (section 6.9.2).
#[derive(Clone, Copy, Debug, PartialEq, Eq, Structural)]
pub struct Window(pub i64);

impl View for Window {
    type V = int;

    open spec fn view(&self) -> int {
        self.0 as int
    }
}

/// The octets a window of `w` lets through now: none at or below zero, and
/// at most what a `usize` counts.
pub open spec fn open_octets(w: int) -> int {
    if w <= 0 {
        0
    } else if w > usize::MAX {
        usize::MAX as int
    } else {
        w
    }
}

/// A number as it is written: a minus sign where it is below zero, then
/// the digits.
pub open spec fn signed(v: int) -> Seq<u8> {
    if v < 0 {
        seq![0x2du8] + decimal((-v) as nat)
    } else {
        decimal(v as nat)
    }
}

/// What `take` says of `octets` against a window of `w`.
pub open spec fn overrun_message(octets: int, w: int) -> Seq<u8> {
    signed(octets) + utf8(" octets against a window of "@) + signed(w)
}

/// What `shift` says of a window that would become `moved`.
pub open spec fn over_message(moved: int) -> Seq<u8> {
    utf8("a window of "@) + signed(moved) + utf8(", over 2^31 - 1"@)
}

/// Append `v` as it is written.
fn push_signed(out: &mut Vec<u8>, v: i64)
    requires
        valid_utf8(old(out)@),
    ensures
        final(out)@ == old(out)@ + signed(v as int),
        valid_utf8(final(out)@),
{
    let ghost start = out@;
    let magnitude: u64 = if v < 0 {
        out.push(0x2d);
        proof {
            lemma_ascii_valid(seq![0x2du8]);
            valid_utf8_concat(start, seq![0x2du8]);
            assert(out@ == start + seq![0x2du8]);
        }
        if v == i64::MIN {
            0x8000_0000_0000_0000u64
        } else {
            (-v) as u64
        }
    } else {
        v as u64
    };
    let ghost before = out@;
    push_decimal(out, magnitude);
    proof {
        lemma_decimal_ascii(magnitude as nat);
        lemma_ascii_valid(decimal(magnitude as nat));
        valid_utf8_concat(before, decimal(magnitude as nat));
        if v < 0 {
            assert(out@ =~= start + (seq![0x2du8] + decimal(magnitude as nat)));
        }
    }
}

impl Window {
    /// A window of `size` octets.
    pub fn new(size: u32) -> (w: Self)
        ensures
            w@ == size,
    {
        Window(size as i64)
    }

    /// The octets that may still be sent; none while the window is at or
    /// below zero.
    pub fn available(self) -> (r: usize)
        ensures
            r == open_octets(self@),
    {
        if self.0 <= 0 {
            0
        } else if self.0 as u64 > usize::MAX as u64 {
            usize::MAX
        } else {
            self.0 as usize
        }
    }

    /// Take `octets` for a `DATA` sent or received.
    ///
    /// # Errors
    ///
    /// A `FLOW_CONTROL_ERROR` where `octets` is more than the window holds:
    /// the peer sent past what it was given.
    pub fn take(&mut self, octets: usize) -> (r: Result<(), Violation>)
        ensures
            match r {
                Ok(()) => octets <= old(self)@ && final(self)@ == old(self)@ - octets,
                Err(violation) => octets > old(self)@ && final(self)@ == old(self)@
                    && violation.code == ErrorCode::FlowControl && utf8(violation.message@)
                    == overrun_message(if octets > i64::MAX { i64::MAX as int } else { octets as int }, old(self)@),
            },
    {
        let counted: i64 = if octets as u64 > i64::MAX as u64 {
            i64::MAX
        } else {
            octets as i64
        };
        if octets as u64 > i64::MAX as u64 || counted > self.0 {
            let mut text: Vec<u8> = Vec::new();
            proof {
                lemma_ascii_valid(Seq::<u8>::empty());
            }
            push_signed(&mut text, counted);
            push_str(&mut text, " octets against a window of ");
            push_signed(&mut text, self.0);
            return Err(Violation::new(ErrorCode::FlowControl, string_of(text).as_str()));
        }
        self.0 = self.0 - octets as i64;
        Ok(())
    }

    /// Give back `increment` octets, as a `WINDOW_UPDATE` does.
    ///
    /// # Errors
    ///
    /// A `PROTOCOL_ERROR` for an increment of 0; a `FLOW_CONTROL_ERROR`
    /// where the window would pass 2^31 - 1.
    pub fn grant(&mut self, increment: u32) -> (r: Result<(), Violation>)
        ensures
            match r {
                Ok(()) => increment > 0 && old(self)@ + increment <= MAX_STREAM_ID && final(self)@
                    == old(self)@ + increment,
                Err(violation) => final(self)@ == old(self)@ && if increment == 0 {
                    violation.code == ErrorCode::Protocol && violation.message@
                        == "a WINDOW_UPDATE of 0"@
                } else {
                    old(self)@ + increment > MAX_STREAM_ID && violation.code
                        == ErrorCode::FlowControl && (old(self)@ + increment <= i64::MAX ==> utf8(
                        violation.message@,
                    ) == over_message(old(self)@ + increment))
                },
            },
    {
        if increment == 0 {
            return Err(Violation::protocol("a WINDOW_UPDATE of 0"));
        }
        self.shift(increment as i64)
    }

    /// Move the window by the change of `SETTINGS_INITIAL_WINDOW_SIZE`,
    /// which may take it below zero.
    ///
    /// # Errors
    ///
    /// A `FLOW_CONTROL_ERROR` where it would pass 2^31 - 1, or fall below
    /// what an `i64` holds, which no window a peer opened reaches.
    pub fn shift(&mut self, delta: i64) -> (r: Result<(), Violation>)
        ensures
            match r {
                Ok(()) => i64::MIN <= old(self)@ + delta <= MAX_STREAM_ID && final(self)@ == old(
                    self,
                )@ + delta,
                Err(violation) => (old(self)@ + delta > MAX_STREAM_ID || old(self)@ + delta
                    < i64::MIN) && final(self)@ == old(self)@ && violation.code
                    == ErrorCode::FlowControl && (i64::MIN <= old(self)@ + delta <= i64::MAX
                    ==> utf8(violation.message@) == over_message(old(self)@ + delta)),
            },
    {
        let moved = match self.0.checked_add(delta) {
            Some(moved) => moved,
            None => {
                return Err(Violation::new(ErrorCode::FlowControl, "a window out of range"));
            },
        };
        if moved > MAX_STREAM_ID as i64 {
            let mut text: Vec<u8> = Vec::new();
            push_str(&mut text, "a window of ");
            proof {
                lemma_ascii_valid(Seq::<u8>::empty());
                encode_utf8_valid_utf8("a window of "@);
            }
            push_signed(&mut text, moved);
            push_str(&mut text, ", over 2^31 - 1");
            return Err(Violation::new(ErrorCode::FlowControl, string_of(text).as_str()));
        }
        self.0 = moved;
        Ok(())
    }
}

} // verus!
