//! The `SETTINGS` of RFC 9113 section 6.5: six parameters, each a 16-bit
//! identifier and a 32-bit value, written by one side and applied by the
//! other, and the limits each must keep.

use vstd::prelude::*;

use super::error::{ErrorCode, Violation};
use super::frame::{be32, law_word_round_trips, word_at, DEFAULT_MAX_FRAME_SIZE, MAX_FRAME_SIZE_LIMIT, MAX_STREAM_ID};
use crate::ascii::with_number;

verus! {

/// `SETTINGS_HEADER_TABLE_SIZE`.
pub const HEADER_TABLE_SIZE: u16 = 0x1;

/// `SETTINGS_ENABLE_PUSH`.
pub const ENABLE_PUSH: u16 = 0x2;

/// `SETTINGS_MAX_CONCURRENT_STREAMS`.
pub const MAX_CONCURRENT_STREAMS: u16 = 0x3;

/// `SETTINGS_INITIAL_WINDOW_SIZE`.
pub const INITIAL_WINDOW_SIZE: u16 = 0x4;

/// `SETTINGS_MAX_FRAME_SIZE`.
pub const MAX_FRAME_SIZE: u16 = 0x5;

/// `SETTINGS_MAX_HEADER_LIST_SIZE`.
pub const MAX_HEADER_LIST_SIZE: u16 = 0x6;

/// The window every stream and the connection start with.
pub const DEFAULT_WINDOW: u32 = 65_535;

/// One side's settings. `None` is unlimited, which is the initial value of
/// the two limits that have no number.
#[derive(Clone, Copy, Debug, PartialEq, Eq, Structural)]
pub struct Settings {
    pub header_table_size: u32,
    pub enable_push: bool,
    pub max_concurrent_streams: Option<u32>,
    pub initial_window_size: u32,
    pub max_frame_size: u32,
    pub max_header_list_size: Option<u32>,
}

/// The initial values of section 6.5.2.
pub open spec fn initial() -> Settings {
    Settings {
        header_table_size: 4096,
        enable_push: true,
        max_concurrent_streams: None,
        initial_window_size: DEFAULT_WINDOW,
        max_frame_size: DEFAULT_MAX_FRAME_SIZE,
        max_header_list_size: None,
    }
}

impl Default for Settings {
    /// The initial values of section 6.5.2, which hold until a peer's
    /// `SETTINGS` says otherwise.
    fn default() -> (s: Self)
        ensures
            s == initial(),
    {
        Settings {
            header_table_size: 4096,
            enable_push: true,
            max_concurrent_streams: None,
            initial_window_size: DEFAULT_WINDOW,
            max_frame_size: DEFAULT_MAX_FRAME_SIZE,
            max_header_list_size: None,
        }
    }
}

/// What this side announces: no push, a hundred streams at once, and a
/// header list of at most 64 KiB; everything else as initial.
pub open spec fn ours_settings() -> Settings {
    Settings {
        enable_push: false,
        max_concurrent_streams: Some(100u32),
        max_header_list_size: Some(65536u32),
        ..initial()
    }
}

/// One parameter as the wire carries it: the identifier, then the value.
pub open spec fn parameter(id: u16, value: u32) -> Seq<u8> {
    seq![(id >> 8u16) as u8, id as u8] + be32(value)
}

/// The payload announcing every value of `s` that differs from the initial
/// one, in the order of the identifiers.
pub open spec fn announced(s: Settings) -> Seq<u8> {
    let init = initial();
    (if s.header_table_size != init.header_table_size {
        parameter(HEADER_TABLE_SIZE, s.header_table_size)
    } else {
        seq![]
    }) + (if s.enable_push != init.enable_push {
        parameter(ENABLE_PUSH, if s.enable_push { 1u32 } else { 0u32 })
    } else {
        seq![]
    }) + (match s.max_concurrent_streams {
        Some(streams) => parameter(MAX_CONCURRENT_STREAMS, streams),
        None => seq![],
    }) + (if s.initial_window_size != init.initial_window_size {
        parameter(INITIAL_WINDOW_SIZE, s.initial_window_size)
    } else {
        seq![]
    }) + (if s.max_frame_size != init.max_frame_size {
        parameter(MAX_FRAME_SIZE, s.max_frame_size)
    } else {
        seq![]
    }) + (match s.max_header_list_size {
        Some(size) => parameter(MAX_HEADER_LIST_SIZE, size),
        None => seq![],
    })
}

/// `s` with the parameter `id` set to `value` by a peer, where this side is
/// `client`: the settings, or the code of why the value is refused.
/// Identifiers this side does not know change nothing.
pub open spec fn set_to(s: Settings, id: u16, value: u32, client: bool) -> Result<Settings, ErrorCode> {
    if id == HEADER_TABLE_SIZE {
        Ok(Settings { header_table_size: value, ..s })
    } else if id == ENABLE_PUSH {
        if value > 1 || (client && value == 1) {
            Err(ErrorCode::Protocol)
        } else {
            Ok(Settings { enable_push: value == 1, ..s })
        }
    } else if id == MAX_CONCURRENT_STREAMS {
        Ok(Settings { max_concurrent_streams: Some(value), ..s })
    } else if id == INITIAL_WINDOW_SIZE {
        if value > MAX_STREAM_ID {
            Err(ErrorCode::FlowControl)
        } else {
            Ok(Settings { initial_window_size: value, ..s })
        }
    } else if id == MAX_FRAME_SIZE {
        if value < DEFAULT_MAX_FRAME_SIZE || value > MAX_FRAME_SIZE_LIMIT {
            Err(ErrorCode::Protocol)
        } else {
            Ok(Settings { max_frame_size: value, ..s })
        }
    } else if id == MAX_HEADER_LIST_SIZE {
        Ok(Settings { max_header_list_size: Some(value), ..s })
    } else {
        Ok(s)
    }
}

/// The identifier of the parameter at `at` of `payload`.
pub open spec fn id_at(payload: Seq<u8>, at: int) -> u16 {
    ((payload[at] as u16) << 8u16) | (payload[at + 1] as u16)
}

/// A peer's payload applied to `s` from parameter `at` on: the settings,
/// or the settings as they stood when a value was refused, and why.
#[verifier::opaque]
pub open spec fn applied_from(s: Settings, payload: Seq<u8>, client: bool, at: nat) -> Result<
    Settings,
    (Settings, ErrorCode),
>
    decreases payload.len() - at,
{
    if at + 6 > payload.len() {
        Ok(s)
    } else {
        match set_to(s, id_at(payload, at as int), word_at(payload, (at + 2) as int), client) {
            Ok(next) => applied_from(next, payload, client, at + 6),
            Err(code) => Err((s, code)),
        }
    }
}

/// Apply a peer's whole payload to `s`.
pub open spec fn applied(s: Settings, payload: Seq<u8>, client: bool) -> Result<
    Settings,
    (Settings, ErrorCode),
> {
    if payload.len() % 6 != 0 {
        Err((s, ErrorCode::FrameSize))
    } else {
        applied_from(s, payload, client, 0)
    }
}

fn push_parameter(id: u16, value: u32, out: &mut Vec<u8>)
    ensures
        final(out)@ == old(out)@ + parameter(id, value),
{
    out.push((id >> 8u16) as u8);
    out.push(id as u8);
    out.push((value >> 24u32) as u8);
    out.push((value >> 16u32) as u8);
    out.push((value >> 8u32) as u8);
    out.push(value as u8);
    assert(out@ =~= old(out)@ + parameter(id, value));
}

impl Settings {
    /// What this side announces: no push, a hundred streams at once, and
    /// a header list of at most 64 KiB; everything else as initial.
    pub fn ours() -> (s: Self)
        ensures
            s == ours_settings(),
    {
        Settings {
            enable_push: false,
            max_concurrent_streams: Some(100),
            max_header_list_size: Some(64 * 1024),
            ..Self::default()
        }
    }

    /// The payload of a `SETTINGS` announcing every value that differs from
    /// the initial one.
    pub fn encode(&self) -> (r: Vec<u8>)
        ensures
            r@ == announced(*self),
    {
        let init = Self::default();
        let mut out: Vec<u8> = Vec::new();
        let ghost s = *self;
        if self.header_table_size != init.header_table_size {
            push_parameter(HEADER_TABLE_SIZE, self.header_table_size, &mut out);
        }
        let ghost a = out@;
        if self.enable_push != init.enable_push {
            push_parameter(ENABLE_PUSH, if self.enable_push { 1 } else { 0 }, &mut out);
        }
        let ghost b = out@;
        if let Some(streams) = self.max_concurrent_streams {
            push_parameter(MAX_CONCURRENT_STREAMS, streams, &mut out);
        }
        let ghost c = out@;
        if self.initial_window_size != init.initial_window_size {
            push_parameter(INITIAL_WINDOW_SIZE, self.initial_window_size, &mut out);
        }
        let ghost d = out@;
        if self.max_frame_size != init.max_frame_size {
            push_parameter(MAX_FRAME_SIZE, self.max_frame_size, &mut out);
        }
        let ghost e = out@;
        if let Some(size) = self.max_header_list_size {
            push_parameter(MAX_HEADER_LIST_SIZE, size, &mut out);
        }
        assert(out@ =~= announced(s));
        out
    }

    /// Apply a peer's `SETTINGS` payload, as `client` or server: the
    /// identifiers this side does not know are ignored, as section 6.5.2
    /// asks.
    ///
    /// # Errors
    ///
    /// A `FRAME_SIZE_ERROR` where the payload is not whole parameters; a
    /// `PROTOCOL_ERROR` for a push value other than 0 or 1, a push a
    /// server enabled, or a frame size out of range; a
    /// `FLOW_CONTROL_ERROR` for a window over 2^31 - 1. The values before
    /// the one refused stay applied.
    pub fn apply(&mut self, payload: &[u8], client: bool) -> (r: Result<(), Violation>)
        ensures
            match r {
                Ok(()) => applied(*old(self), payload@, client) == Ok::<
                    Settings,
                    (Settings, ErrorCode),
                >(*final(self)),
                Err(violation) => applied(*old(self), payload@, client) == Err::<
                    Settings,
                    (Settings, ErrorCode),
                >((*final(self), violation.code)),
            },
    {
        if payload.len() % 6 != 0 {
            return Err(Violation::frame_size(
                with_number("a SETTINGS of ", payload.len() as u64, " octets is not whole parameters").as_str(),
            ));
        }
        proof {
            reveal_with_fuel(applied_from, 2);
        }
        let mut at: usize = 0;
        while payload.len() - at >= 6
            invariant
                at <= payload@.len(),
                at % 6 == 0,
                payload@.len() % 6 == 0,
                applied(*old(self), payload@, client) == applied_from(
                    *self,
                    payload@,
                    client,
                    at as nat,
                ),
            decreases payload.len() - at,
        {
            let id = ((payload[at] as u16) << 8u16) | (payload[at + 1] as u16);
            let value = ((payload[at + 2] as u32) << 24u32) | ((payload[at + 3] as u32) << 16u32)
                | ((payload[at + 4] as u32) << 8u32) | (payload[at + 5] as u32);
            proof {
                reveal_with_fuel(applied_from, 2);
            }
            self.set(id, value, client)?;
            at = at + 6;
        }
        Ok(())
    }

    fn set(&mut self, id: u16, value: u32, client: bool) -> (r: Result<(), Violation>)
        ensures
            match r {
                Ok(()) => set_to(*old(self), id, value, client) == Ok::<Settings, ErrorCode>(
                    *final(self),
                ),
                Err(violation) => set_to(*old(self), id, value, client) == Err::<
                    Settings,
                    ErrorCode,
                >(violation.code) && *final(self) == *old(self),
            },
    {
        if id == HEADER_TABLE_SIZE {
            self.header_table_size = value;
        } else if id == ENABLE_PUSH {
            if value > 1 || (client && value == 1) {
                let from = if client {
                    " from a server"
                } else {
                    " from a client"
                };
                return Err(Violation::protocol(
                    with_number("SETTINGS_ENABLE_PUSH of ", value as u64, from).as_str(),
                ));
            }
            self.enable_push = value == 1;
        } else if id == MAX_CONCURRENT_STREAMS {
            self.max_concurrent_streams = Some(value);
        } else if id == INITIAL_WINDOW_SIZE {
            if value > MAX_STREAM_ID {
                return Err(
                    Violation::new(
                        ErrorCode::FlowControl,
                        with_number("an initial window of ", value as u64, ", over 2^31 - 1").as_str(),
                    ),
                );
            }
            self.initial_window_size = value;
        } else if id == MAX_FRAME_SIZE {
            if value < DEFAULT_MAX_FRAME_SIZE || value > MAX_FRAME_SIZE_LIMIT {
                return Err(
                    Violation::protocol(
                        with_number(
                            "a maximum frame size of ",
                            value as u64,
                            ", outside 2^14 to 2^24 - 1",
                        ).as_str(),
                    ),
                );
            }
            self.max_frame_size = value;
        } else if id == MAX_HEADER_LIST_SIZE {
            self.max_header_list_size = Some(value);
        }
        Ok(())
    }
}

/// A parameter read where it was written, whatever surrounds it.
pub proof fn lemma_parameter_read(id: u16, value: u32, before: Seq<u8>, after: Seq<u8>)
    ensures
        id_at(before + parameter(id, value) + after, before.len() as int) == id,
        word_at(before + parameter(id, value) + after, before.len() + 2int) == value,
{
    let whole = before + parameter(id, value) + after;
    let at = before.len() as int;
    let hi = (id >> 8u16) as u8;
    let lo = id as u8;
    assert(whole[at] == hi);
    assert(whole[at + 1] == lo);
    assert(((hi as u16) << 8u16) | (lo as u16) == id) by (bit_vector)
        requires
            hi == (id >> 8u16) as u8,
            lo == id as u8,
    ;
    law_word_round_trips(value, before + seq![hi, lo], after);
    assert(before + seq![hi, lo] + be32(value) + after =~= whole);
}

/// A parameter that is there or is not, applied or passed over.
proof fn lemma_optional_step(
    t: Settings,
    present: bool,
    id: u16,
    value: u32,
    before: Seq<u8>,
    after: Seq<u8>,
    client: bool,
)
    requires
        present ==> set_to(t, id, value, client) is Ok,
    ensures
        ({
            let part = if present {
                parameter(id, value)
            } else {
                seq![]
            };
            let next = if present {
                set_to(t, id, value, client)->Ok_0
            } else {
                t
            };
            applied_from(t, before + part + after, client, before.len())
                == applied_from(next, before + part + after, client, before.len() + part.len())
        }),
{
    reveal_with_fuel(applied_from, 2);
    if present {
        lemma_parameter_read(id, value, before, after);
        let whole = before + parameter(id, value) + after;
        assert(whole.len() >= before.len() + 6);
    } else {
        assert(before + seq![] + after =~= before + after);
    }
}

/// What one side announces, applied by the other to the initial settings,
/// is what it announced — for settings the other accepts.
#[verifier::spinoff_prover]
#[verifier::rlimit(80)]
pub proof fn law_settings_round_trip(s: Settings)
    requires
        s.initial_window_size <= MAX_STREAM_ID,
        DEFAULT_MAX_FRAME_SIZE <= s.max_frame_size <= MAX_FRAME_SIZE_LIMIT,
    ensures
        applied(initial(), announced(s), false) == Ok::<Settings, (Settings, ErrorCode)>(s),
{
    let init = initial();
    let p1 = s.header_table_size != init.header_table_size;
    let p2 = s.enable_push != init.enable_push;
    let p3 = s.max_concurrent_streams is Some;
    let p4 = s.initial_window_size != init.initial_window_size;
    let p5 = s.max_frame_size != init.max_frame_size;
    let p6 = s.max_header_list_size is Some;
    let v2: u32 = if s.enable_push { 1 } else { 0 };
    let v3: u32 = if p3 { s.max_concurrent_streams->Some_0 } else { 0 };
    let v6: u32 = if p6 { s.max_header_list_size->Some_0 } else { 0 };
    let a1 = if p1 { parameter(HEADER_TABLE_SIZE, s.header_table_size) } else { seq![] };
    let a2 = if p2 { parameter(ENABLE_PUSH, v2) } else { seq![] };
    let a3 = if p3 { parameter(MAX_CONCURRENT_STREAMS, v3) } else { seq![] };
    let a4 = if p4 { parameter(INITIAL_WINDOW_SIZE, s.initial_window_size) } else { seq![] };
    let a5 = if p5 { parameter(MAX_FRAME_SIZE, s.max_frame_size) } else { seq![] };
    let a6 = if p6 { parameter(MAX_HEADER_LIST_SIZE, v6) } else { seq![] };
    let all = announced(s);
    assert(all =~= a1 + a2 + a3 + a4 + a5 + a6);
    assert(all.len() % 6 == 0);
    let t0 = init;
    let t1 = if p1 { Settings { header_table_size: s.header_table_size, ..t0 } } else { t0 };
    let t2 = if p2 { Settings { enable_push: v2 == 1, ..t1 } } else { t1 };
    let t3 = if p3 { Settings { max_concurrent_streams: Some(v3), ..t2 } } else { t2 };
    let t4 = if p4 { Settings { initial_window_size: s.initial_window_size, ..t3 } } else { t3 };
    let t5 = if p5 { Settings { max_frame_size: s.max_frame_size, ..t4 } } else { t4 };
    let t6 = if p6 { Settings { max_header_list_size: Some(v6), ..t5 } } else { t5 };
    let e: Seq<u8> = seq![];
    let b1 = a1;
    let b2 = a1 + a2;
    let b3 = a1 + a2 + a3;
    let b4 = a1 + a2 + a3 + a4;
    let b5 = a1 + a2 + a3 + a4 + a5;
    assert(applied_from(t0, all, false, 0) == applied_from(t1, all, false, b1.len())) by {
        lemma_optional_step(t0, p1, HEADER_TABLE_SIZE, s.header_table_size, e, a2 + a3 + a4 + a5 + a6, false);
        assert(e + a1 + (a2 + a3 + a4 + a5 + a6) =~= all);
    }
    assert(applied_from(t1, all, false, b1.len()) == applied_from(t2, all, false, b2.len())) by {
        lemma_optional_step(t1, p2, ENABLE_PUSH, v2, a1, a3 + a4 + a5 + a6, false);
        assert(a1 + a2 + (a3 + a4 + a5 + a6) =~= all);
    }
    assert(applied_from(t2, all, false, b2.len()) == applied_from(t3, all, false, b3.len())) by {
        lemma_optional_step(t2, p3, MAX_CONCURRENT_STREAMS, v3, b2, a4 + a5 + a6, false);
        assert(b2 + a3 + (a4 + a5 + a6) =~= all);
    }
    assert(applied_from(t3, all, false, b3.len()) == applied_from(t4, all, false, b4.len())) by {
        lemma_optional_step(t3, p4, INITIAL_WINDOW_SIZE, s.initial_window_size, b3, a5 + a6, false);
        assert(b3 + a4 + (a5 + a6) =~= all);
    }
    assert(applied_from(t4, all, false, b4.len()) == applied_from(t5, all, false, b5.len())) by {
        lemma_optional_step(t4, p5, MAX_FRAME_SIZE, s.max_frame_size, b4, a6, false);
        assert(b4 + a5 + a6 =~= all);
    }
    assert(applied_from(t5, all, false, b5.len()) == applied_from(t6, all, false, all.len())) by {
        lemma_optional_step(t5, p6, MAX_HEADER_LIST_SIZE, v6, b5, e, false);
        assert(b5 + a6 + e =~= all);
    }
    assert(applied_from(t6, all, false, all.len()) == Ok::<Settings, (Settings, ErrorCode)>(t6)) by {
        reveal_with_fuel(applied_from, 1);
    }
    assert(t6 == s);
}

/// An announcement is at most the six parameters, six octets each.
pub proof fn lemma_announced_short(s: Settings)
    ensures
        announced(s).len() <= 36,
{
}

/// Settings whose window and frame size are ones the protocol allows
/// still are, whatever a peer's payload applied to them does.
pub proof fn lemma_applied_in_range(s: Settings, payload: Seq<u8>, client: bool, at: nat)
    requires
        s.initial_window_size <= MAX_STREAM_ID,
        DEFAULT_MAX_FRAME_SIZE <= s.max_frame_size <= MAX_FRAME_SIZE_LIMIT,
    ensures
        match applied_from(s, payload, client, at) {
            Ok(t) => t.initial_window_size <= MAX_STREAM_ID && DEFAULT_MAX_FRAME_SIZE
                <= t.max_frame_size <= MAX_FRAME_SIZE_LIMIT,
            Err((t, _)) => t.initial_window_size <= MAX_STREAM_ID && DEFAULT_MAX_FRAME_SIZE
                <= t.max_frame_size <= MAX_FRAME_SIZE_LIMIT,
        },
    decreases payload.len() - at,
{
    reveal_with_fuel(applied_from, 1);
    if at + 6 <= payload.len() {
        match set_to(s, id_at(payload, at as int), word_at(payload, (at + 2) as int), client) {
            Ok(next) => lemma_applied_in_range(next, payload, client, at + 6),
            Err(_) => {},
        }
    }
}

/// A payload of one parameter applied to `s`: what setting that parameter
/// gives, or `s` as it stood and why it was refused.
proof fn lemma_one_parameter(s: Settings, id: u16, value: u32, client: bool)
    ensures
        applied(s, parameter(id, value), client) == match set_to(s, id, value, client) {
            Ok(t) => Ok::<Settings, (Settings, ErrorCode)>(t),
            Err(code) => Err::<Settings, (Settings, ErrorCode)>((s, code)),
        },
{
    let e: Seq<u8> = seq![];
    lemma_parameter_read(id, value, e, e);
    let p = parameter(id, value);
    assert(e + p + e =~= p);
    assert(p.len() == 6);
    reveal_with_fuel(applied_from, 2);
}

/// Whether `t` holds what `s` holds, but for the values `changed` names:
/// the table size, push, the concurrency limit, the initial window, the
/// frame size, the header list size, in that order.
pub open spec fn same_but(s: Settings, t: Settings, changed: Seq<bool>) -> bool {
    &&& (changed[0] || t.header_table_size == s.header_table_size)
    &&& (changed[1] || t.enable_push == s.enable_push)
    &&& (changed[2] || t.max_concurrent_streams == s.max_concurrent_streams)
    &&& (changed[3] || t.initial_window_size == s.initial_window_size)
    &&& (changed[4] || t.max_frame_size == s.max_frame_size)
    &&& (changed[5] || t.max_header_list_size == s.max_header_list_size)
}

/// Each parameter a peer sends sets its value, whatever was set before —
/// the latest received holds — and leaves every other value as it was; a
/// value out of its range is refused with its code, and an identifier no
/// setting has is passed over.
pub proof fn law_latest_parameter_holds(s: Settings, value: u32, client: bool)
    ensures
        applied(s, parameter(HEADER_TABLE_SIZE, value), client) matches Ok(t) && t.header_table_size
            == value && same_but(s, t, seq![true, false, false, false, false, false]),
        applied(s, parameter(MAX_CONCURRENT_STREAMS, value), client) matches Ok(t)
            && t.max_concurrent_streams == Some(value) && same_but(s, t, seq![false, false, true, false, false, false]),
        applied(s, parameter(MAX_HEADER_LIST_SIZE, value), client) matches Ok(t)
            && t.max_header_list_size == Some(value) && same_but(s, t, seq![false, false, false, false, false, true]),
        value <= MAX_STREAM_ID ==> (applied(s, parameter(INITIAL_WINDOW_SIZE, value), client) matches Ok(t)
            && t.initial_window_size == value && same_but(s, t, seq![false, false, false, true, false, false])),
        value > MAX_STREAM_ID ==> applied(s, parameter(INITIAL_WINDOW_SIZE, value), client) == Err::<
            Settings,
            (Settings, ErrorCode),
        >((s, ErrorCode::FlowControl)),
        DEFAULT_MAX_FRAME_SIZE <= value <= MAX_FRAME_SIZE_LIMIT ==> (applied(s, parameter(MAX_FRAME_SIZE, value), client) matches Ok(t)
            && t.max_frame_size == value && same_but(s, t, seq![false, false, false, false, true, false])),
        !(DEFAULT_MAX_FRAME_SIZE <= value <= MAX_FRAME_SIZE_LIMIT) ==> applied(s, parameter(MAX_FRAME_SIZE, value), client)
            == Err::<Settings, (Settings, ErrorCode)>((s, ErrorCode::Protocol)),
        (value == 0 || (value == 1 && !client)) ==> (applied(s, parameter(ENABLE_PUSH, value), client) matches Ok(t)
            && t.enable_push == (value == 1) && same_but(s, t, seq![false, true, false, false, false, false])),
        !(value == 0 || (value == 1 && !client)) ==> applied(s, parameter(ENABLE_PUSH, value), client)
            == Err::<Settings, (Settings, ErrorCode)>((s, ErrorCode::Protocol)),
        applied(s, parameter(0x9, value), client) == Ok::<Settings, (Settings, ErrorCode)>(s),
{
    lemma_one_parameter(s, HEADER_TABLE_SIZE, value, client);
    lemma_one_parameter(s, ENABLE_PUSH, value, client);
    lemma_one_parameter(s, MAX_CONCURRENT_STREAMS, value, client);
    lemma_one_parameter(s, INITIAL_WINDOW_SIZE, value, client);
    lemma_one_parameter(s, MAX_FRAME_SIZE, value, client);
    lemma_one_parameter(s, MAX_HEADER_LIST_SIZE, value, client);
    lemma_one_parameter(s, 0x9, value, client);
}

/// A second `SETTINGS` that changes the concurrency limit replaces the
/// first's: the limit is the one received last, raised or lowered.
pub proof fn law_second_limit_replaces_first(s: Settings, first: u32, second: u32, client: bool)
    ensures
        applied(s, parameter(MAX_CONCURRENT_STREAMS, first), client) matches Ok(t) && (applied(
            t,
            parameter(MAX_CONCURRENT_STREAMS, second),
            client,
        ) matches Ok(u) && u.max_concurrent_streams == Some(second)),
{
    law_latest_parameter_holds(s, first, client);
    let t = applied(s, parameter(MAX_CONCURRENT_STREAMS, first), client)->Ok_0;
    law_latest_parameter_holds(t, second, client);
}

} // verus!
