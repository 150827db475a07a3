//! The integer representation of RFC 7541 section 5.1: a value in an
//! N-bit prefix, and where it does not fit, the rest in seven-bit groups
//! least significant first.

use vstd::prelude::*;

use crate::http2::error::{ErrorCode, Violation};

verus! {

/// The largest value read: an index, a length or a table size is never
/// near it, and a value past it is an attack rather than a header.
pub const LARGEST: usize = 0xffff_ffff;

/// How many values an N-bit prefix can hold: 2^N.
pub open spec fn span(prefix: u8) -> nat {
    if prefix == 0 {
        1
    } else if prefix == 1 {
        2
    } else if prefix == 2 {
        4
    } else if prefix == 3 {
        8
    } else if prefix == 4 {
        16
    } else if prefix == 5 {
        32
    } else if prefix == 6 {
        64
    } else if prefix == 7 {
        128
    } else {
        256
    }
}

/// The seven-bit groups that carry `rest`, least significant first, the
/// high bit set on every group but the last.
pub open spec fn groups(rest: nat) -> Seq<u8>
    decreases rest,
{
    if rest >= 128 {
        seq![(rest % 128 + 128) as u8] + groups(rest / 128)
    } else {
        seq![rest as u8]
    }
}

/// `value` in a `prefix`-bit prefix, the octet's higher bits from `flags`.
pub open spec fn encoded(value: nat, prefix: u8, flags: u8) -> Seq<u8> {
    let limit = (span(prefix) - 1) as nat;
    if value < limit {
        seq![flags | (value as u8)]
    } else {
        seq![flags | (limit as u8)] + groups((value - limit) as nat)
    }
}

/// The groups from `at` on, added to `value` at `weight`: the value and
/// where it ends, or `None` where the input ends first or the value passes
/// 2^32 - 1.
pub open spec fn continued(input: Seq<u8>, at: nat, value: nat, weight: nat) -> Option<(nat, nat)>
    decreases input.len() - at,
{
    if at >= input.len() || weight >= 0x1_0000_0000 {
        None
    } else {
        let next = (value + (input[at as int] % 128) * weight) as nat;
        if next > 0xffff_ffff {
            None
        } else if input[at as int] < 128 {
            Some((next, at + 1))
        } else {
            continued(input, at + 1, next, weight * 128)
        }
    }
}

/// The value in a `prefix`-bit prefix at the start of `input`, and the
/// octets it takes.
pub open spec fn decoded(input: Seq<u8>, prefix: u8) -> Option<(nat, nat)> {
    if input.len() == 0 {
        None
    } else {
        let limit = (span(prefix) - 1) as nat;
        let first = (input[0] as nat) % span(prefix);
        if first < limit {
            Some((first, 1))
        } else {
            continued(input, 1, limit, 1)
        }
    }
}

fn span_of(prefix: u8) -> (r: usize)
    requires
        prefix <= 8,
    ensures
        r == span(prefix),
{
    match prefix {
        0 => 1,
        1 => 2,
        2 => 4,
        3 => 8,
        4 => 16,
        5 => 32,
        6 => 64,
        7 => 128,
        _ => 256,
    }
}

proof fn lemma_high_bit(x: u8)
    requires
        x < 128,
    ensures
        x | 0x80 == x + 128,
{
    assert(x < 128 ==> x | 0x80 == x + 128) by (bit_vector);
}

/// Append `value` in a `prefix`-bit prefix, the octet's higher bits taken
/// from `flags`.
pub fn encode(value: usize, prefix: u8, flags: u8, out: &mut Vec<u8>)
    requires
        prefix <= 8,
    ensures
        final(out)@ == old(out)@ + encoded(value as nat, prefix, flags),
{
    let limit = span_of(prefix) - 1;
    if value < limit {
        out.push(flags | (value as u8));
        return;
    }
    out.push(flags | (limit as u8));
    let mut rest = value - limit;
    let ghost start = out@;
    while rest >= 128
        invariant
            out@ + groups(rest as nat) == start + groups((value - limit) as nat),
        decreases rest,
    {
        let low = (rest % 128) as u8;
        proof {
            lemma_high_bit(low);
            assert(groups(rest as nat) == seq![(rest % 128 + 128) as u8] + groups((rest / 128) as nat));
        }
        let ghost before = out@;
        let ghost was = rest;
        out.push(low | 0x80);
        rest = rest / 128;
        assert(out@ + groups(rest as nat) =~= before + groups(was as nat)) by {
            assert(out@ =~= before.push((was % 128 + 128) as u8));
        }
    }
    let ghost before = out@;
    out.push(rest as u8);
    assert(out@ =~= before + groups(rest as nat));
    assert(out@ =~= old(out)@ + encoded(value as nat, prefix, flags));
}

/// The value in a `prefix`-bit prefix at the start of `input`, and the
/// octets it took.
///
/// # Errors
///
/// A `COMPRESSION_ERROR` where the input ends inside the value, or the
/// value passes 2^32 - 1.
pub fn decode(input: &[u8], prefix: u8) -> (r: Result<(usize, usize), Violation>)
    requires
        prefix <= 8,
    ensures
        match r {
            Ok((value, used)) => decoded(input@, prefix) == Some((value as nat, used as nat)) && 1
                <= used <= input@.len() && value <= LARGEST,
            Err(violation) => decoded(input@, prefix) is None && violation.code
                == ErrorCode::Compression,
        },
{
    if input.len() == 0 {
        return Err(Violation::compression("the block ends inside an integer"));
    }
    let span = span_of(prefix);
    let limit = span - 1;
    let first = (input[0] as usize) % span;
    if first < limit {
        return Ok((first, 1));
    }
    let mut value: u64 = limit as u64;
    let mut weight: u64 = 1;
    let mut at: usize = 1;
    while at < input.len()
        invariant
            1 <= at <= input.len(),
            value <= 0xffff_ffff,
            1 <= weight < 0x80_0000_0000,
            decoded(input@, prefix) == continued(input@, at as nat, value as nat, weight as nat),
        decreases input.len() - at,
    {
        if weight >= 0x1_0000_0000 {
            return Err(Violation::compression("an integer over 2^32 - 1"));
        }
        let octet = input[at];
        let group = (octet % 128) as u64;
        assert(group * weight <= 127 * 0x1_0000_0000) by (nonlinear_arith)
            requires
                group <= 127,
                weight < 0x1_0000_0000,
        ;
        let next = value + group * weight;
        if next > 0xffff_ffff {
            return Err(Violation::compression("an integer over 2^32 - 1"));
        }
        if octet < 128 {
            return Ok((next as usize, at + 1));
        }
        value = next;
        weight = weight * 128;
        at = at + 1;
    }
    Err(Violation::compression("the block ends inside an integer"))
}

proof fn lemma_split_weight(rest: nat, weight: nat)
    ensures
        (rest % 128) * weight <= rest * weight,
        rest * weight == (rest % 128) * weight + (rest / 128) * (weight * 128),
        rest >= 128 ==> 128 * weight <= rest * weight,
{
    assert((rest % 128) * weight <= rest * weight) by (nonlinear_arith)
        requires
            rest % 128 <= rest,
    ;
    assert(rest == 128 * (rest / 128) + rest % 128);
    assert(rest * weight == (rest % 128) * weight + (rest / 128) * (weight * 128))
        by (nonlinear_arith)
        requires
            rest == 128 * (rest / 128) + rest % 128,
    ;
    assert(rest >= 128 ==> 128 * weight <= rest * weight) by (nonlinear_arith);
}

proof fn lemma_groups_read_back(pre: Seq<u8>, rest: nat, tail: Seq<u8>, value: nat, weight: nat)
    requires
        1 <= weight < 0x1_0000_0000,
        value + rest * weight <= 0xffff_ffff,
    ensures
        continued(pre + groups(rest) + tail, pre.len(), value, weight) == Some(
            (value + rest * weight, pre.len() + groups(rest).len()),
        ),
    decreases rest,
{
    let s = pre + groups(rest) + tail;
    lemma_split_weight(rest, weight);
    if rest >= 128 {
        let byte = (rest % 128 + 128) as u8;
        assert(s[pre.len() as int] == byte);
        let next = value + (rest % 128) * weight;
        let pre2 = pre.push(byte);
        assert(groups(rest) == seq![byte] + groups(rest / 128));
        assert(pre2 + groups(rest / 128) + tail =~= s);
        lemma_groups_read_back(pre2, rest / 128, tail, next, weight * 128);
    } else {
        assert(s[pre.len() as int] == rest as u8);
    }
}

proof fn lemma_low_bits(f: u8, v: u8, m: u8)
    requires
        m == 1 || m == 2 || m == 4 || m == 8 || m == 16 || m == 32 || m == 64 || m == 128,
        f % m == 0,
        v < m,
    ensures
        (f | v) % m == v,
{
    assert((m == 1 || m == 2 || m == 4 || m == 8 || m == 16 || m == 32 || m == 64 || m == 128)
        && f % m == 0 && v < m ==> (f | v) % m == v) by (bit_vector);
}

/// An integer written in a prefix reads back as itself, whatever follows
/// it, where the flags leave the prefix's bits clear.
pub proof fn law_integer_round_trips(value: nat, prefix: u8, flags: u8, tail: Seq<u8>)
    requires
        prefix <= 8,
        value <= 0xffff_ffff,
        (flags as nat) % span(prefix) == 0,
    ensures
        decoded(encoded(value, prefix, flags) + tail, prefix) == Some(
            (value, encoded(value, prefix, flags).len()),
        ),
{
    let limit = (span(prefix) - 1) as nat;
    let enc = encoded(value, prefix, flags);
    let s = enc + tail;
    let v: u8 = if value < limit { value as u8 } else { limit as u8 };
    if span(prefix) == 256 {
        assert(flags == 0);
        assert(0u8 | v == v) by (bit_vector);
    } else {
        lemma_low_bits(flags, v, span(prefix) as u8);
    }
    assert(s[0] == flags | v);
    if value >= limit {
        let pre = seq![flags | (limit as u8)];
        assert(pre + groups((value - limit) as nat) + tail =~= s);
        lemma_groups_read_back(pre, (value - limit) as nat, tail, limit, 1);
    }
}

/// The first octet of an integer written in a prefix: the flags, and the
/// value where it fits, the prefix all ones where it does not.
pub proof fn lemma_first_octet(value: nat, prefix: u8, flags: u8)
    ensures
        encoded(value, prefix, flags).len() >= 1,
        encoded(value, prefix, flags)[0] == flags | (if value < (span(prefix) - 1) as nat {
            value as u8
        } else {
            (span(prefix) - 1) as u8
        }),
{
}

} // verus!
