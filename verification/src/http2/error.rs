//! The error codes of RFC 9113 section 7, which a `RST_STREAM` and a
//! `GOAWAY` carry, and the violation that names one.

use vstd::prelude::*;
use vstd::utf8::*;

use crate::ascii::{decimal, hex, lemma_ascii_valid, lemma_decimal_ascii, lemma_hex_ascii, push_decimal, push_hex};
use crate::text::{push_str, string_of, utf8};
use crate::NetError;

verus! {

/// Why a stream or a connection ended (RFC 9113 section 7).
#[derive(Clone, Copy, Debug, PartialEq, Eq, Structural)]
pub enum ErrorCode {
    /// A graceful end: nothing went wrong.
    NoError,
    /// The peer broke the protocol.
    Protocol,
    /// Something went wrong on this side.
    Internal,
    /// A flow-control window was overrun or overflowed.
    FlowControl,
    /// A `SETTINGS` went unacknowledged.
    SettingsTimeout,
    /// A frame arrived on a stream already half-closed.
    StreamClosed,
    /// A frame had a size it may not have.
    FrameSize,
    /// The stream was refused before any of it was processed; safe to
    /// retry.
    RefusedStream,
    /// The stream is no longer wanted.
    Cancel,
    /// The header compression context could not be kept.
    Compression,
    /// A `CONNECT` tunnel broke.
    Connect,
    /// The peer is generating excessive load.
    EnhanceYourCalm,
    /// The TLS under the connection is not good enough.
    InadequateSecurity,
    /// The request must be made over HTTP/1.1.
    Http11Required,
    /// A code this side does not know, which it treats as `Internal`.
    Unknown(u32),
}

/// The number the wire carries for `code`.
pub open spec fn wire_code(code: ErrorCode) -> u32 {
    match code {
        ErrorCode::NoError => 0x0,
        ErrorCode::Protocol => 0x1,
        ErrorCode::Internal => 0x2,
        ErrorCode::FlowControl => 0x3,
        ErrorCode::SettingsTimeout => 0x4,
        ErrorCode::StreamClosed => 0x5,
        ErrorCode::FrameSize => 0x6,
        ErrorCode::RefusedStream => 0x7,
        ErrorCode::Cancel => 0x8,
        ErrorCode::Compression => 0x9,
        ErrorCode::Connect => 0xa,
        ErrorCode::EnhanceYourCalm => 0xb,
        ErrorCode::InadequateSecurity => 0xc,
        ErrorCode::Http11Required => 0xd,
        ErrorCode::Unknown(code) => code,
    }
}

/// The code the number `code` names on the wire.
pub open spec fn code_of(code: u32) -> ErrorCode {
    if code == 0x0 {
        ErrorCode::NoError
    } else if code == 0x1 {
        ErrorCode::Protocol
    } else if code == 0x2 {
        ErrorCode::Internal
    } else if code == 0x3 {
        ErrorCode::FlowControl
    } else if code == 0x4 {
        ErrorCode::SettingsTimeout
    } else if code == 0x5 {
        ErrorCode::StreamClosed
    } else if code == 0x6 {
        ErrorCode::FrameSize
    } else if code == 0x7 {
        ErrorCode::RefusedStream
    } else if code == 0x8 {
        ErrorCode::Cancel
    } else if code == 0x9 {
        ErrorCode::Compression
    } else if code == 0xa {
        ErrorCode::Connect
    } else if code == 0xb {
        ErrorCode::EnhanceYourCalm
    } else if code == 0xc {
        ErrorCode::InadequateSecurity
    } else if code == 0xd {
        ErrorCode::Http11Required
    } else {
        ErrorCode::Unknown(code)
    }
}

impl ErrorCode {
    /// The code as the wire carries it.
    pub fn code(self) -> (r: u32)
        ensures
            r == wire_code(self),
    {
        match self {
            ErrorCode::NoError => 0x0,
            ErrorCode::Protocol => 0x1,
            ErrorCode::Internal => 0x2,
            ErrorCode::FlowControl => 0x3,
            ErrorCode::SettingsTimeout => 0x4,
            ErrorCode::StreamClosed => 0x5,
            ErrorCode::FrameSize => 0x6,
            ErrorCode::RefusedStream => 0x7,
            ErrorCode::Cancel => 0x8,
            ErrorCode::Compression => 0x9,
            ErrorCode::Connect => 0xa,
            ErrorCode::EnhanceYourCalm => 0xb,
            ErrorCode::InadequateSecurity => 0xc,
            ErrorCode::Http11Required => 0xd,
            ErrorCode::Unknown(code) => code,
        }
    }

    /// The code the wire carried.
    pub fn of(code: u32) -> (r: ErrorCode)
        ensures
            r == code_of(code),
    {
        match code {
            0x0 => ErrorCode::NoError,
            0x1 => ErrorCode::Protocol,
            0x2 => ErrorCode::Internal,
            0x3 => ErrorCode::FlowControl,
            0x4 => ErrorCode::SettingsTimeout,
            0x5 => ErrorCode::StreamClosed,
            0x6 => ErrorCode::FrameSize,
            0x7 => ErrorCode::RefusedStream,
            0x8 => ErrorCode::Cancel,
            0x9 => ErrorCode::Compression,
            0xa => ErrorCode::Connect,
            0xb => ErrorCode::EnhanceYourCalm,
            0xc => ErrorCode::InadequateSecurity,
            0xd => ErrorCode::Http11Required,
            other => ErrorCode::Unknown(other),
        }
    }

    /// The name the code is written with in a message: its variant's.
    pub fn name(self) -> (r: &'static str)
        ensures
            r@ == code_name(self),
    {
        match self {
            ErrorCode::NoError => "NoError",
            ErrorCode::Protocol => "Protocol",
            ErrorCode::Internal => "Internal",
            ErrorCode::FlowControl => "FlowControl",
            ErrorCode::SettingsTimeout => "SettingsTimeout",
            ErrorCode::StreamClosed => "StreamClosed",
            ErrorCode::FrameSize => "FrameSize",
            ErrorCode::RefusedStream => "RefusedStream",
            ErrorCode::Cancel => "Cancel",
            ErrorCode::Compression => "Compression",
            ErrorCode::Connect => "Connect",
            ErrorCode::EnhanceYourCalm => "EnhanceYourCalm",
            ErrorCode::InadequateSecurity => "InadequateSecurity",
            ErrorCode::Http11Required => "Http11Required",
            ErrorCode::Unknown(_) => "Unknown",
        }
    }
}

/// The name of the variant of `code`.
pub open spec fn code_name(code: ErrorCode) -> Seq<char> {
    match code {
        ErrorCode::NoError => "NoError"@,
        ErrorCode::Protocol => "Protocol"@,
        ErrorCode::Internal => "Internal"@,
        ErrorCode::FlowControl => "FlowControl"@,
        ErrorCode::SettingsTimeout => "SettingsTimeout"@,
        ErrorCode::StreamClosed => "StreamClosed"@,
        ErrorCode::FrameSize => "FrameSize"@,
        ErrorCode::RefusedStream => "RefusedStream"@,
        ErrorCode::Cancel => "Cancel"@,
        ErrorCode::Compression => "Compression"@,
        ErrorCode::Connect => "Connect"@,
        ErrorCode::EnhanceYourCalm => "EnhanceYourCalm"@,
        ErrorCode::InadequateSecurity => "InadequateSecurity"@,
        ErrorCode::Http11Required => "Http11Required"@,
        ErrorCode::Unknown(_) => "Unknown"@,
    }
}

/// The code as a message writes it: its name, and the number of a code
/// this side does not know in brackets.
pub open spec fn code_written(code: ErrorCode) -> Seq<u8> {
    match code {
        ErrorCode::Unknown(n) => utf8(code_name(code)) + seq![0x28u8] + decimal(n as nat) + seq![
            0x29u8,
        ],
        _ => utf8(code_name(code)),
    }
}

/// What a connection's failure over `violation` says: `HTTP/2`, the
/// code's name and its number in hex, and why.
pub open spec fn violation_said(violation: Violation) -> Seq<u8> {
    breach_said(violation.code, violation.message@)
}

/// What a connection's failure over a breach with `code` and `message`
/// says.
pub open spec fn breach_said(code: ErrorCode, message: Seq<char>) -> Seq<u8> {
    utf8("HTTP/2 "@) + code_written(code) + utf8(" (0x"@) + hex(wire_code(code) as nat) + utf8(
        "): "@,
    ) + utf8(message)
}

/// `code` as a message writes it, after what `out` holds; text after text
/// is text.
pub fn push_code(out: &mut Vec<u8>, code: ErrorCode)
    ensures
        final(out)@ == old(out)@ + code_written(code),
        valid_utf8(old(out)@) ==> valid_utf8(final(out)@),
{
    let ghost before = out@;
    push_str(out, code.name());
    let ghost named = out@;
    if let ErrorCode::Unknown(n) = code {
        out.push(0x28);
        push_decimal(out, n as u64);
        out.push(0x29);
        proof {
            lemma_decimal_ascii(n as nat);
            lemma_ascii_valid(seq![0x28u8] + decimal(n as nat) + seq![0x29u8]);
            assert(out@ =~= named + (seq![0x28u8] + decimal(n as nat) + seq![0x29u8]));
            if valid_utf8(before) {
                valid_utf8_concat(named, seq![0x28u8] + decimal(n as nat) + seq![0x29u8]);
            }
        }
    }
    proof {
        assert(out@ =~= before + code_written(code));
    }
}

/// The failure a breach of the protocol is reported with.
pub fn said(violation: &Violation) -> (e: NetError)
    ensures
        utf8(e.message@) == violation_said(*violation),
        e.io is None,
{
    let mut out: Vec<u8> = Vec::new();
    push_str(&mut out, "HTTP/2 ");
    proof {
        assert(valid_utf8(utf8("HTTP/2 "@)));
    }
    push_str(&mut out, violation.code.name());
    let ghost before = out@;
    if let ErrorCode::Unknown(n) = violation.code {
        out.push(0x28);
        push_decimal(&mut out, n as u64);
        out.push(0x29);
        proof {
            lemma_decimal_ascii(n as nat);
            lemma_ascii_valid(seq![0x28u8] + decimal(n as nat) + seq![0x29u8]);
            assert(out@ =~= before + (seq![0x28u8] + decimal(n as nat) + seq![0x29u8]));
            valid_utf8_concat(before, seq![0x28u8] + decimal(n as nat) + seq![0x29u8]);
        }
    }
    let ghost middle = out@;
    push_str(&mut out, " (0x");
    let ghost with_open = out@;
    push_hex(&mut out, violation.code.code() as u64);
    proof {
        lemma_hex_ascii(wire_code(violation.code) as nat);
        lemma_ascii_valid(hex(wire_code(violation.code) as nat));
        valid_utf8_concat(with_open, hex(wire_code(violation.code) as nat));
    }
    push_str(&mut out, "): ");
    push_str(&mut out, violation.message.as_str());
    proof {
        assert(out@ =~= violation_said(*violation));
    }
    NetError::new(string_of(out))
}

/// Every number the wire carries reads back as itself.
pub proof fn law_code_of_round_trips(code: u32)
    ensures
        wire_code(code_of(code)) == code,
{
}

/// Every code of section 7 is read back as itself from the number it is
/// written with; a code this side does not know is kept by its number.
pub proof fn law_known_code_round_trips(code: ErrorCode)
    requires
        code matches ErrorCode::Unknown(n) ==> n > 0xd,
    ensures
        code_of(wire_code(code)) == code,
{
}

/// A breach of RFC 9113 or RFC 7541: the code the peer is told, and why.
#[derive(Clone, Debug, PartialEq, Eq)]
pub struct Violation {
    pub code: ErrorCode,
    pub message: String,
}

impl Violation {
    /// A breach of `code`, saying `message`.
    pub fn new(code: ErrorCode, message: &str) -> (v: Self)
        ensures
            v.code == code,
            v.message@ == message@,
    {
        Violation { code, message: message.to_owned() }
    }

    /// A `PROTOCOL_ERROR`.
    pub fn protocol(message: &str) -> (v: Self)
        ensures
            v.code == ErrorCode::Protocol,
            v.message@ == message@,
    {
        Self::new(ErrorCode::Protocol, message)
    }

    /// A `FRAME_SIZE_ERROR`.
    pub fn frame_size(message: &str) -> (v: Self)
        ensures
            v.code == ErrorCode::FrameSize,
            v.message@ == message@,
    {
        Self::new(ErrorCode::FrameSize, message)
    }

    /// A `COMPRESSION_ERROR`: the header block could not be decoded.
    pub fn compression(message: &str) -> (v: Self)
        ensures
            v.code == ErrorCode::Compression,
            v.message@ == message@,
    {
        Self::new(ErrorCode::Compression, message)
    }
}

impl NetError {
    /// The failure of a connection ended over `violation`.
    pub fn from(violation: Violation) -> (e: NetError)
        ensures
            utf8(e.message@) == violation_said(violation),
            e.io is None,
    {
        said(&violation)
    }
}

} // verus!
