//! The Huffman coding of RFC 7541 section 5.2 over the code of Appendix B:
//! a string packed most significant bit first and padded with the high bits
//! of `EOS`, and unpacked a bit at a time.

use vstd::prelude::*;

use super::code::{class_size, code, first_code, huffman_code, lemma_canonical, lemma_first_codes, member, EOS};
use crate::http2::error::{ErrorCode, Violation};

verus! {

/// 2^n.
pub open spec fn two_to(n: nat) -> nat
    decreases n,
{
    if n == 0 {
        1
    } else {
        2 * two_to((n - 1) as nat)
    }
}

/// The `width` low bits of `value`, most significant first.
pub open spec fn bits(value: nat, width: nat) -> Seq<bool>
    decreases width,
{
    if width == 0 {
        seq![]
    } else {
        let half = two_to((width - 1) as nat);
        let rest: nat = if value >= half {
            (value - half) as nat
        } else {
            value
        };
        seq![value >= half] + bits(rest, (width - 1) as nat)
    }
}

/// `count` one bits.
pub open spec fn ones(count: nat) -> Seq<bool> {
    Seq::new(count, |i: int| true)
}

/// The bits of the code of `symbol`.
pub open spec fn symbol_bits(symbol: usize) -> Seq<bool> {
    bits(huffman_code(symbol).0, huffman_code(symbol).1)
}

/// The codes of `input`'s octets, one after another.
pub open spec fn string_bits(input: Seq<u8>) -> Seq<bool>
    decreases input.len(),
{
    if input.len() == 0 {
        seq![]
    } else {
        string_bits(input.drop_last()) + symbol_bits(input.last() as usize)
    }
}

/// The bits of `octets`, eight an octet, most significant first.
pub open spec fn octet_bits(octets: Seq<u8>) -> Seq<bool>
    decreases octets.len(),
{
    if octets.len() == 0 {
        seq![]
    } else {
        octet_bits(octets.drop_last()) + bits(octets.last() as nat, 8)
    }
}

/// `coded` padded to a whole octet with the high bits of `EOS`: ones.
pub open spec fn padded(coded: Seq<bool>) -> Seq<bool> {
    coded + ones(((8 - coded.len() % 8) % 8) as nat)
}

/// The number `bits` write, most significant first.
pub open spec fn value_of(bits: Seq<bool>) -> nat
    decreases bits.len(),
{
    if bits.len() == 0 {
        0
    } else {
        2 * value_of(bits.drop_last()) + if bits.last() {
            1nat
        } else {
            0nat
        }
    }
}

/// `bits` packed into octets, eight a piece, most significant first; a
/// short tail is dropped.
pub open spec fn pack(bits: Seq<bool>) -> Seq<u8>
    decreases bits.len(),
{
    if bits.len() < 8 {
        seq![]
    } else {
        seq![value_of(bits.take(8)) as u8] + pack(bits.skip(8))
    }
}

/// `input` Huffman-coded: its codes one after another, padded to a whole
/// octet and packed.
pub open spec fn coded(input: Seq<u8>) -> Seq<u8> {
    pack(padded(string_bits(input)))
}

/// The string that codes as `input`, where one does.
pub open spec fn huffman_decoded(input: Seq<u8>) -> Option<Seq<u8>> {
    if exists|s: Seq<u8>| #[trigger] coded(s) == input {
        Some(choose|s: Seq<u8>| #[trigger] coded(s) == input)
    } else {
        None
    }
}

/// The powers of two up to 2^30.
pub proof fn lemma_two_to_values()
    ensures
        two_to(0) == 1,
        two_to(1) == 2,
        two_to(2) == 4,
        two_to(3) == 8,
        two_to(4) == 16,
        two_to(5) == 32,
        two_to(6) == 64,
        two_to(7) == 128,
        two_to(8) == 256,
        two_to(9) == 512,
        two_to(10) == 1024,
        two_to(11) == 2048,
        two_to(12) == 4096,
        two_to(13) == 8192,
        two_to(14) == 16384,
        two_to(15) == 32768,
        two_to(16) == 65536,
        two_to(17) == 131072,
        two_to(18) == 262144,
        two_to(19) == 524288,
        two_to(20) == 1048576,
        two_to(21) == 2097152,
        two_to(22) == 4194304,
        two_to(23) == 8388608,
        two_to(24) == 16777216,
        two_to(25) == 33554432,
        two_to(26) == 67108864,
        two_to(27) == 134217728,
        two_to(28) == 268435456,
        two_to(29) == 536870912,
        two_to(30) == 1073741824,
{
    reveal_with_fuel(two_to, 31);
}

/// Every code of Appendix B is 5 to 30 bits long and fits its length.
pub proof fn lemma_codes_fit(symbol: usize)
    requires
        symbol <= EOS,
    ensures
        5 <= huffman_code(symbol).1 <= 30,
        huffman_code(symbol).0 < two_to(huffman_code(symbol).1),
{
    lemma_two_to_values();
}

pub proof fn lemma_bits_len(value: nat, width: nat)
    ensures
        bits(value, width).len() == width,
    decreases width,
{
    if width > 0 {
        let half = two_to((width - 1) as nat);
        let rest: nat = if value >= half {
            (value - half) as nat
        } else {
            value
        };
        lemma_bits_len(rest, (width - 1) as nat);
    }
}

/// One more bit at the bottom: the bits of `2 * value + bit` are those of
/// `value` and then `bit`.
pub proof fn lemma_bits_push(value: nat, width: nat, bit: bool)
    requires
        value < two_to(width),
    ensures
        bits(2 * value + if bit { 1nat } else { 0nat }, width + 1) == bits(value, width).push(bit),
    decreases width,
{
    let b: nat = if bit { 1 } else { 0 };
    let whole = 2 * value + b;
    if width == 0 {
        assert(value == 0);
        assert(bits(whole, 1) =~= bits(value, width).push(bit));
    } else {
        let m = two_to((width - 1) as nat);
        assert(two_to(width) == 2 * m);
        let low: nat = if value >= m {
            (value - m) as nat
        } else {
            value
        };
        let lower: nat = 2 * low + b;
        lemma_bits_push(low, (width - 1) as nat, bit);
        assert(bits(whole, width + 1) =~= seq![whole >= two_to(width)] + bits(lower, width));
        assert(bits(value, width) =~= seq![value >= m] + bits(low, (width - 1) as nat));
        assert(bits(whole, width + 1) =~= bits(value, width).push(bit));
    }
}

/// The bits of `value` read back as `value`.
pub proof fn lemma_value_of_bits(value: nat, width: nat)
    requires
        value < two_to(width),
    ensures
        value_of(bits(value, width)) == value,
    decreases width,
{
    if width > 0 {
        let q = value / 2;
        let r = value % 2;
        assert(value == 2 * q + r);
        assert(q < two_to((width - 1) as nat));
        lemma_bits_push(q, (width - 1) as nat, r == 1);
        lemma_value_of_bits(q, (width - 1) as nat);
        assert(bits(value, width).drop_last() =~= bits(q, (width - 1) as nat));
    }
}

/// All ones: the bits of 2^width - 1.
pub proof fn lemma_ones(width: nat)
    ensures
        two_to(width) >= 1,
        bits((two_to(width) - 1) as nat, width) == ones(width),
    decreases width,
{
    if width > 0 {
        lemma_ones((width - 1) as nat);
        lemma_bits_push((two_to((width - 1) as nat) - 1) as nat, (width - 1) as nat, true);
        assert(bits((two_to(width) - 1) as nat, width) =~= ones(width));
    }
}

/// Eight more bits after whole octets pack into one more octet.
pub proof fn lemma_pack_append(done: Seq<bool>, octet: Seq<bool>)
    requires
        done.len() % 8 == 0,
        octet.len() == 8,
    ensures
        pack(done + octet) == pack(done).push(value_of(octet) as u8),
    decreases done.len(),
{
    let whole = done + octet;
    if done.len() == 0 {
        assert(whole =~= octet);
        assert(octet.take(8) =~= octet);
        assert(pack(octet.skip(8)) =~= Seq::<u8>::empty());
        assert(pack(done) =~= Seq::<u8>::empty());
        assert(pack(whole) =~= pack(done).push(value_of(octet) as u8));
    } else {
        assert(whole.take(8) =~= done.take(8));
        assert(whole.skip(8) =~= done.skip(8) + octet);
        lemma_pack_append(done.skip(8), octet);
        assert(pack(done) == seq![value_of(done.take(8)) as u8] + pack(done.skip(8)));
        assert(pack(whole) == seq![value_of(whole.take(8)) as u8] + pack(whole.skip(8)));
        assert(pack(whole) =~= pack(done).push(value_of(octet) as u8));
    }
}

pub proof fn lemma_pack_len(bits: Seq<bool>)
    ensures
        pack(bits).len() == bits.len() / 8,
    decreases bits.len(),
{
    if bits.len() >= 8 {
        lemma_pack_len(bits.skip(8));
    }
}

/// Octets taken apart into bits pack back into themselves.
pub proof fn lemma_pack_octet_bits(octets: Seq<u8>)
    ensures
        pack(octet_bits(octets)) == octets,
        octet_bits(octets).len() == 8 * octets.len(),
    decreases octets.len(),
{
    if octets.len() > 0 {
        lemma_pack_octet_bits(octets.drop_last());
        lemma_bits_len(octets.last() as nat, 8);
        lemma_two_to_values();
        lemma_value_of_bits(octets.last() as nat, 8);
        lemma_pack_append(octet_bits(octets.drop_last()), bits(octets.last() as nat, 8));
        assert(octets.drop_last().push(octets.last()) =~= octets);
    }
}

pub proof fn lemma_string_bits_take(input: Seq<u8>, i: int)
    requires
        0 <= i < input.len(),
    ensures
        string_bits(input.take(i + 1)) == string_bits(input.take(i)) + symbol_bits(
            input[i] as usize,
        ),
{
    assert(input.take(i + 1).drop_last() =~= input.take(i));
}

/// The octets `input` takes once encoded, without encoding it.
pub fn encoded_len(input: &[u8]) -> (r: usize)
    requires
        input@.len() <= usize::MAX / 4,
    ensures
        r == (string_bits(input@).len() + 7) / 8,
{
    let mut octets: usize = 0;
    let mut rest: usize = 0;
    let mut i: usize = 0;
    while i < input.len()
        invariant
            i <= input@.len() <= usize::MAX / 4,
            rest < 8,
            octets <= 4 * i,
            8 * octets + rest == string_bits(input@.take(i as int)).len(),
        decreases input.len() - i,
    {
        let symbol = input[i] as usize;
        let (_, width) = code(symbol);
        proof {
            lemma_codes_fit(symbol);
            lemma_string_bits_take(input@, i as int);
            lemma_bits_len(huffman_code(symbol).0, huffman_code(symbol).1);
        }
        rest = rest + width as usize;
        octets = octets + rest / 8;
        rest = rest % 8;
        i = i + 1;
    }
    assert(input@.take(input@.len() as int) =~= input@);
    octets + (rest + 7) / 8
}

/// Append `input`, encoded.
pub fn encode(input: &[u8], out: &mut Vec<u8>)
    ensures
        final(out)@ == old(out)@ + coded(input@),
        final(out)@.len() == old(out)@.len() + (string_bits(input@).len() + 7) / 8,
{
    let ghost start = out@;
    let ghost mut done: Seq<bool> = seq![];
    let mut acc: u32 = 0;
    let mut n: u32 = 0;
    let mut i: usize = 0;
    proof {
        lemma_two_to_values();
    }
    while i < input.len()
        invariant
            i <= input@.len(),
            n < 8,
            acc < two_to(n as nat),
            done.len() % 8 == 0,
            out@ == start + pack(done),
            done + bits(acc as nat, n as nat) == string_bits(input@.take(i as int)),
            two_to(8) == 256,
        decreases input.len() - i,
    {
        let symbol = input[i] as usize;
        let (code_value, width) = code(symbol);
        proof {
            lemma_codes_fit(symbol);
            lemma_string_bits_take(input@, i as int);
            lemma_two_to_values();
        }
        let mut c: u32 = code_value;
        let mut k: u32 = width as u32;
        let mut d: u32 = power_of_two(k - 1);
        while k > 0
            invariant
                n < 8,
                acc < two_to(n as nat),
                done.len() % 8 == 0,
                out@ == start + pack(done),
                k <= 30,
                c < two_to(k as nat),
                k > 0 ==> d == two_to((k - 1) as nat),
                done + bits(acc as nat, n as nat) + bits(c as nat, k as nat) == string_bits(
                    input@.take(i + 1),
                ),
                two_to(8) == 256,
            decreases k,
        {
            let bit = c >= d;
            let ghost was_c = c;
            let ghost was_acc = acc;
            let ghost was_n = n;
            proof {
                lemma_bits_push(acc as nat, n as nat, bit);
                lemma_two_to_monotone(n as nat, 7);
                lemma_two_to_values();
            }
            if bit {
                c = c - d;
            }
            acc = 2 * acc + if bit {
                1
            } else {
                0
            };
            n = n + 1;
            assert(bits(was_c as nat, k as nat) == seq![bit] + bits(c as nat, (k - 1) as nat));
            assert(done + bits(acc as nat, n as nat) + bits(c as nat, (k - 1) as nat) =~= done
                + bits(was_acc as nat, was_n as nat) + bits(was_c as nat, k as nat));
            if n == 8 {
                proof {
                    lemma_value_of_bits(acc as nat, 8);
                    lemma_bits_len(acc as nat, 8);
                    lemma_pack_append(done, bits(acc as nat, 8));
                    done = done + bits(acc as nat, 8);
                }
                out.push(acc as u8);
                acc = 0;
                n = 0;
                assert(bits(0, 0) =~= Seq::<bool>::empty());
                assert(done + bits(acc as nat, n as nat) =~= done);
            }
            k = k - 1;
            if k > 0 {
                d = d / 2;
            }
        }
        assert(bits(c as nat, 0) =~= Seq::<bool>::empty());
        assert(done + bits(acc as nat, n as nat) =~= done + bits(acc as nat, n as nat) + bits(
            c as nat,
            k as nat,
        ));
        i = i + 1;
    }
    assert(input@.take(input@.len() as int) =~= input@);
    let ghost coded_bits = string_bits(input@);
    let ghost tail = n;
    proof {
        lemma_bits_len(acc as nat, n as nat);
    }
    assert(coded_bits.len() % 8 == tail);
    if n > 0 {
        while n < 8
            invariant
                0 < tail <= n <= 8,
                acc < two_to(n as nat),
                done.len() % 8 == 0,
                out@ == start + pack(done),
                done + bits(acc as nat, n as nat) == coded_bits + ones((n - tail) as nat),
                two_to(8) == 256,
            decreases 8 - n,
        {
            proof {
                lemma_bits_push(acc as nat, n as nat, true);
                lemma_two_to_monotone(n as nat, 7);
                lemma_two_to_values();
            }
            let ghost was_acc = acc;
            let ghost was_n = n;
            acc = 2 * acc + 1;
            n = n + 1;
            assert(bits(acc as nat, n as nat) == bits(was_acc as nat, was_n as nat).push(true));
            assert(ones((n - tail) as nat) =~= ones((was_n - tail) as nat).push(true));
            assert(done + bits(acc as nat, n as nat) =~= (done + bits(was_acc as nat, was_n as nat)).push(true));
            assert(done + bits(acc as nat, n as nat) =~= coded_bits + ones((n - tail) as nat));
        }
        proof {
            lemma_value_of_bits(acc as nat, 8);
            lemma_bits_len(acc as nat, 8);
            lemma_pack_append(done, bits(acc as nat, 8));
            done = done + bits(acc as nat, 8);
        }
        out.push(acc as u8);
        assert(done =~= padded(coded_bits));
    } else {
        assert(bits(acc as nat, 0) =~= Seq::<bool>::empty());
        assert(done =~= padded(coded_bits));
    }
    proof {
        lemma_pack_len(padded(coded_bits));
    }
}

/// The symbol whose code is `value` in `width` bits, if any.
fn lookup(value: u32, width: u32) -> (r: Option<usize>)
    ensures
        r matches Some(symbol) ==> symbol <= EOS && huffman_code(symbol) == (
            value as nat,
            width as nat,
        ),
        r is None ==> forall|symbol: usize|
            symbol <= EOS ==> huffman_code(symbol) != (value as nat, width as nat),
{
    let mut symbol: usize = 0;
    while symbol <= EOS
        invariant
            symbol <= EOS + 1,
            forall|t: usize| t < symbol ==> huffman_code(t) != (value as nat, width as nat),
        decreases EOS + 1 - symbol,
    {
        let (c, w) = code(symbol);
        if c == value && w as u32 == width {
            return Some(symbol);
        }
        symbol = symbol + 1;
    }
    None
}

/// `input`, decoded.
///
/// # Errors
///
/// A `COMPRESSION_ERROR` where the input holds `EOS`, a code that is not
/// one, or padding longer than seven bits or not the high bits of `EOS`
/// (section 5.2): where no string codes as `input`.
#[verifier::rlimit(100)]
#[verifier::spinoff_prover]
pub fn decode(input: &[u8]) -> (r: Result<Vec<u8>, Violation>)
    ensures
        r matches Ok(out) ==> coded(out@) == input@,
        r matches Err(violation) ==> violation.code == ErrorCode::Compression,
        forall|s: Seq<u8>| #[trigger] coded(s) == input@ ==> (r matches Ok(out) && out@ == s),
        match r {
            Ok(out) => huffman_decoded(input@) == Some(out@),
            Err(_) => huffman_decoded(input@) is None,
        },
{
    let mut out: Vec<u8> = Vec::new();
    let mut cur: u32 = 0;
    let mut len: u32 = 0;
    let mut i: usize = 0;
    proof {
        lemma_two_to_values();
        assert(input@.take(0) =~= Seq::<u8>::empty());
        assert(string_bits(out@) + bits(0, 0) =~= Seq::<bool>::empty());
        assert forall|s: Seq<u8>| #[trigger] coded(s) == input@ implies on_track(
            s,
            out@,
            0,
            0,
        ) by {
            assert(out@ =~= s.take(0));
            if s.len() > 0 {
                let first = s[0] as usize;
                lemma_codes_fit(first);
                lemma_bits_len(huffman_code(first).0, huffman_code(first).1);
                assert(symbol_bits(first).take(0) =~= bits(0, 0));
            } else {
                assert(bits(0, 0) =~= ones(0));
            }
        }
    }
    while i < input.len()
        invariant
            i <= input@.len(),
            len < 30,
            cur < two_to(len as nat),
            octet_bits(input@.take(i as int)) == string_bits(out@) + bits(cur as nat, len as nat),
            forall|s: Seq<u8>| #[trigger]
                coded(s) == input@ ==> on_track(s, out@, cur as nat, len as nat),
        decreases input.len() - i,
    {
        let octet = input[i];
        let mut v: u32 = octet as u32;
        let mut k: u32 = 8;
        let mut d: u32 = 128;
        proof {
            lemma_two_to_values();
            assert(input@.take(i + 1).drop_last() =~= input@.take(i as int));
        }
        while k > 0
            invariant
                i < input@.len(),
                len < 30,
                cur < two_to(len as nat),
                k <= 8,
                v < two_to(k as nat),
                k > 0 ==> d == two_to((k - 1) as nat),
                octet_bits(input@.take(i + 1)) == string_bits(out@) + bits(cur as nat, len as nat)
                    + bits(v as nat, k as nat),
                forall|s: Seq<u8>| #[trigger]
                    coded(s) == input@ ==> on_track(s, out@, cur as nat, len as nat),
            decreases k,
        {
            let bit = v >= d;
            let ghost was_v = v;
            let ghost was_cur = cur;
            let ghost was_len = len;
            let ghost before = out@;
            proof {
                lemma_bits_push(cur as nat, len as nat, bit);
                lemma_two_to_values();
                lemma_two_to_monotone(len as nat, 29);
                lemma_bits_len(cur as nat, len as nat);
                lemma_bits_len(v as nat, k as nat);
                assert(bits(was_v as nat, k as nat)[0] == bit);
                assert forall|s: Seq<u8>| #[trigger] coded(s) == input@ implies ({
                    let next = 2 * (was_cur as nat) + if bit { 1nat } else { 0nat };
                    if before.len() < s.len() && was_len + 1 == huffman_code(
                        s[before.len() as int] as usize,
                    ).1 {
                        &&& huffman_code(s[before.len() as int] as usize) == (next, (was_len + 1) as nat)
                        &&& on_track(s, before.push(s[before.len() as int]), 0, 0)
                    } else {
                        &&& forall|symbol: usize|
                            symbol <= EOS ==> huffman_code(symbol) != (next, (was_len + 1) as nat)
                        &&& was_len + 1 < 30
                        &&& on_track(s, before, next, (was_len + 1) as nat)
                    }
                }) by {
                    let target = padded(string_bits(s));
                    lemma_pack_len(target);
                    lemma_octet_bits_pack(target);
                    assert(input@ =~= input@.take(i + 1) + input@.skip(i + 1));
                    lemma_octet_bits_concat(input@.take(i + 1), input@.skip(i + 1));
                    let pos = string_bits(before).len() + was_len;
                    assert(target[pos as int] == bit);
                    lemma_next_bit(s, before, was_cur as nat, was_len as nat, bit);
                }
            }
            if bit {
                v = v - d;
            }
            cur = 2 * cur + if bit {
                1
            } else {
                0
            };
            len = len + 1;
            assert(bits(was_v as nat, k as nat) == seq![bit] + bits(v as nat, (k - 1) as nat));
            assert(string_bits(out@) + bits(cur as nat, len as nat) + bits(v as nat, (k - 1) as nat)
                =~= string_bits(out@) + bits(was_cur as nat, was_len as nat) + bits(
                was_v as nat,
                k as nat,
            ));
            match lookup(cur, len) {
                Some(symbol) => {
                    proof {
                        assert forall|s: Seq<u8>| #[trigger] coded(s) == input@ implies (symbol
                            < EOS && symbol == s[before.len() as int] as usize) by {
                            lemma_code_injective(symbol, s[before.len() as int] as usize);
                        }
                    }
                    if symbol == EOS {
                        return Err(Violation::compression("a Huffman string holds EOS"));
                    }
                    out.push(symbol as u8);
                    assert(out@.drop_last() =~= before);
                    cur = 0;
                    len = 0;
                    assert(string_bits(out@) + bits(cur as nat, len as nat) =~= string_bits(before)
                        + bits(was_cur as nat * 2 + if bit { 1nat } else { 0nat }, was_len as nat + 1));
                    assert forall|s: Seq<u8>| #[trigger] coded(s) == input@ implies on_track(
                        s,
                        out@,
                        0,
                        0,
                    ) by {
                        assert(out@ =~= before.push(s[before.len() as int]));
                    }
                },
                None => {
                    if len >= 30 {
                        return Err(Violation::compression("not a Huffman code"));
                    }
                },
            }
            k = k - 1;
            if k > 0 {
                d = d / 2;
            }
        }
        assert(bits(v as nat, 0) =~= Seq::<bool>::empty());
        assert(octet_bits(input@.take(i + 1)) =~= string_bits(out@) + bits(cur as nat, len as nat));
        i = i + 1;
    }
    assert(input@.take(input@.len() as int) =~= input@);
    proof {
        assert forall|s: Seq<u8>| #[trigger] coded(s) == input@ implies (out@ == s && len <= 7 && cur
            + 1 == two_to(len as nat)) by {
            lemma_octet_bits_pack(padded(string_bits(s)));
            lemma_pack_len(padded(string_bits(s)));
            lemma_decoded_end(s, out@, cur as nat, len as nat);
        }
    }
    if len > 7 || cur + 1 != power_of_two(len) {
        return Err(
            Violation::compression("a Huffman string padded with other than the high bits of EOS"),
        );
    }
    proof {
        lemma_ones(len as nat);
        lemma_pack_octet_bits(input@);
        assert(octet_bits(input@) =~= padded(string_bits(out@)));
        assert(coded(out@) == input@);
    }
    Ok(out)
}

/// 2^exponent.
fn power_of_two(exponent: u32) -> (r: u32)
    requires
        exponent <= 31,
    ensures
        r == two_to(exponent as nat),
{
    let mut r: u32 = 1;
    let mut at: u32 = 0;
    while at < exponent
        invariant
            at <= exponent <= 31,
            r == two_to(at as nat),
        decreases exponent - at,
    {
        proof {
            lemma_two_to_values();
            lemma_two_to_monotone(at as nat, 30);
        }
        r = r * 2;
        at = at + 1;
    }
    r
}

pub proof fn lemma_two_to_monotone(a: nat, b: nat)
    requires
        a <= b,
    ensures
        two_to(a) <= two_to(b),
    decreases b,
{
    if a < b {
        lemma_two_to_monotone(a, (b - 1) as nat);
    }
}

/// No code of an octet is all ones; `EOS` is thirty of them.
pub proof fn lemma_not_all_ones(symbol: usize)
    requires
        symbol <= EOS,
    ensures
        symbol < EOS ==> huffman_code(symbol).0 + 1 < two_to(huffman_code(symbol).1),
        symbol == EOS ==> huffman_code(symbol) == ((two_to(30) - 1) as nat, 30nat),
{
    lemma_two_to_values();
}

/// Two symbols with the same code are the same symbol.
pub proof fn lemma_code_injective(a: usize, b: usize)
    requires
        a <= EOS,
        b <= EOS,
        huffman_code(a) == huffman_code(b),
    ensures
        a == b,
{
    lemma_canonical(a);
    lemma_canonical(b);
}

pub proof fn lemma_first_bound(short: nat, long: nat)
    requires
        5 <= short < long,
    ensures
        first_code(long) >= two_to((long - short) as nat) * (first_code(short) + class_size(short)),
    decreases long,
{
    if long > short + 1 {
        lemma_first_bound(short, (long - 1) as nat);
        let x = first_code(short) + class_size(short);
        let d = (long - 1 - short) as nat;
        assert(two_to((long - short) as nat) == 2 * two_to(d));
        assert(first_code(long) == 2 * (first_code((long - 1) as nat) + class_size((long - 1) as nat)));
        assert(first_code(long) >= 2 * first_code((long - 1) as nat));
        assert(2 * two_to(d) * x == 2 * (two_to(d) * x)) by (nonlinear_arith);
    } else {
        lemma_two_to_values();
    }
}

/// The first `count` bits of `value` are the bits of its high part.
pub proof fn lemma_bits_take(value: nat, width: nat, count: nat)
    requires
        count <= width,
        value < two_to(width),
    ensures
        value / two_to((width - count) as nat) < two_to(count),
        bits(value, width).take(count as int) == bits(value / two_to((width - count) as nat), count),
    decreases width - count,
{
    lemma_two_to_monotone(0, (width - count) as nat);
    assert(two_to(0) == 1);
    if count == width {
        assert(value / 1 == value);
        lemma_bits_len(value, width);
        assert(bits(value, width).take(count as int) =~= bits(value, width));
    } else {
        let w1 = (width - 1) as nat;
        let half = value / 2;
        let low = value % 2;
        let b: nat = if low == 1 { 1 } else { 0 };
        assert(two_to(width) == 2 * two_to(w1));
        assert(half < two_to(w1));
        assert(value == 2 * half + b);
        lemma_bits_push(half, w1, low == 1);
        assert(bits(value, width) == bits(half, w1).push(low == 1));
        lemma_bits_len(half, w1);
        lemma_bits_take(half, w1, count);
        let d = (width - 1 - count) as nat;
        assert(two_to((width - count) as nat) == 2 * two_to(d));
        lemma_two_to_monotone(0, d);
        vstd::arithmetic::div_mod::lemma_div_denominator(value as int, 2, two_to(d) as int);
        assert(bits(value, width).take(count as int) =~= bits(half, w1).take(count as int));
    }
}

/// Bits that say the same say the same value.
pub proof fn lemma_bits_injective(a: nat, b: nat, width: nat)
    requires
        a < two_to(width),
        b < two_to(width),
        bits(a, width) == bits(b, width),
    ensures
        a == b,
{
    lemma_value_of_bits(a, width);
    lemma_value_of_bits(b, width);
}

/// No code is the beginning of another's.
pub proof fn lemma_prefix_free(a: usize, b: usize)
    requires
        a <= EOS,
        b <= EOS,
        a != b,
        huffman_code(a).1 <= huffman_code(b).1,
    ensures
        symbol_bits(b).take(huffman_code(a).1 as int) != symbol_bits(a),
{
    let (ca, la) = huffman_code(a);
    let (cb, lb) = huffman_code(b);
    lemma_codes_fit(a);
    lemma_codes_fit(b);
    lemma_canonical(a);
    lemma_canonical(b);
    if symbol_bits(b).take(la as int) == symbol_bits(a) {
        lemma_bits_take(cb, lb, la);
        let d = (lb - la) as nat;
        let high = cb / two_to(d);
        lemma_bits_injective(high, ca, la);
        if la == lb {
            assert(two_to(0) == 1);
            assert(d == 0);
            assert(cb / 1 == cb);
            assert(cb == ca);
            lemma_code_injective(a, b);
        } else {
            lemma_first_bound(la, lb);
            let x = first_code(la) + class_size(la);
            assert(two_to(d) > 0) by {
                lemma_two_to_monotone(0, d);
            }
            assert(cb >= two_to(d) * x);
            vstd::arithmetic::div_mod::lemma_div_is_ordered(
                (two_to(d) * x) as int,
                cb as int,
                two_to(d) as int,
            );
            vstd::arithmetic::div_mod::lemma_div_multiples_vanish(x as int, two_to(d) as int);
            assert(high >= x);
        }
    }
}

pub proof fn lemma_string_bits_concat(a: Seq<u8>, b: Seq<u8>)
    ensures
        string_bits(a + b) == string_bits(a) + string_bits(b),
    decreases b.len(),
{
    if b.len() == 0 {
        assert(a + b =~= a);
    } else {
        lemma_string_bits_concat(a, b.drop_last());
        assert((a + b).drop_last() =~= a + b.drop_last());
    }
}

pub proof fn lemma_octet_bits_concat(a: Seq<u8>, b: Seq<u8>)
    ensures
        octet_bits(a + b) == octet_bits(a) + octet_bits(b),
    decreases b.len(),
{
    if b.len() == 0 {
        assert(a + b =~= a);
    } else {
        lemma_octet_bits_concat(a, b.drop_last());
        assert((a + b).drop_last() =~= a + b.drop_last());
    }
}

/// Any bits are the bits of the value they write.
pub proof fn lemma_bits_of_value(w: Seq<bool>)
    ensures
        value_of(w) < two_to(w.len()),
        bits(value_of(w), w.len()) == w,
    decreases w.len(),
{
    if w.len() > 0 {
        let d = w.drop_last();
        lemma_bits_of_value(d);
        lemma_bits_push(value_of(d), d.len(), w.last());
        assert(d.push(w.last()) =~= w);
        assert(value_of(w) == 2 * value_of(d) + if w.last() { 1nat } else { 0nat });
        assert(two_to(w.len()) == 2 * two_to(d.len()));
    } else {
        assert(two_to(0) == 1);
        assert(bits(0, 0) =~= w);
    }
}

pub proof fn lemma_string_single_octet(x: u8)
    ensures
        octet_bits(seq![x]) == bits(x as nat, 8),
        string_bits(seq![x]) == symbol_bits(x as usize),
{
    let one = seq![x];
    assert(one.drop_last() =~= Seq::<u8>::empty());
    assert(one.last() == x);
    assert(octet_bits(Seq::<u8>::empty()) == Seq::<bool>::empty());
    assert(string_bits(Seq::<u8>::empty()) == Seq::<bool>::empty());
    assert(octet_bits(one) == octet_bits(one.drop_last()) + bits(one.last() as nat, 8));
    assert(string_bits(one) == string_bits(one.drop_last()) + symbol_bits(one.last() as usize));
    assert(octet_bits(one) =~= bits(x as nat, 8));
    assert(string_bits(one) =~= symbol_bits(x as usize));
}

/// The bits of `s` around its octet at `k`.
pub proof fn lemma_string_bits_split(s: Seq<u8>, k: int)
    requires
        0 <= k < s.len(),
    ensures
        string_bits(s) == string_bits(s.take(k)) + symbol_bits(s[k] as usize) + string_bits(
            s.skip(k + 1),
        ),
{
    assert(s =~= s.take(k) + seq![s[k]] + s.skip(k + 1));
    lemma_string_bits_concat(s.take(k) + seq![s[k]], s.skip(k + 1));
    lemma_string_bits_concat(s.take(k), seq![s[k]]);
    lemma_string_single_octet(s[k]);
}

/// Whole octets of bits, packed, read back as those bits.
pub proof fn lemma_octet_bits_pack(w: Seq<bool>)
    requires
        w.len() % 8 == 0,
    ensures
        octet_bits(pack(w)) == w,
    decreases w.len(),
{
    if w.len() > 0 {
        lemma_octet_bits_pack(w.skip(8));
        lemma_bits_of_value(w.take(8));
        lemma_two_to_values();
        let first = value_of(w.take(8)) as u8;
        assert(first as nat == value_of(w.take(8)));
        lemma_octet_bits_concat(seq![first], pack(w.skip(8)));
        lemma_string_single_octet(first);
        assert(w =~= w.take(8) + w.skip(8));
    }
}

/// Where a decoder reading `input` stands against a string `s` that codes
/// as `input`: what it has written is where `s` begins, and the bits it
/// holds begin the code of the next octet of `s` or, past its end, are
/// padding.
pub open spec fn on_track(s: Seq<u8>, out: Seq<u8>, cur: nat, len: nat) -> bool {
    &&& out.len() <= s.len()
    &&& out == s.take(out.len() as int)
    &&& out.len() < s.len() ==> len < symbol_bits(s[out.len() as int] as usize).len()
        && symbol_bits(s[out.len() as int] as usize).take(len as int) == bits(cur, len)
    &&& out.len() == s.len() ==> bits(cur, len) == ones(len) && len <= 7
}

/// One bit further: the bit that follows is the next bit of the code of
/// the next octet of `s`, or of the padding; either the code is whole and
/// no other symbol's is the bits held, or no symbol's code is.
pub proof fn lemma_next_bit(s: Seq<u8>, out: Seq<u8>, cur: nat, len: nat, bit: bool)
    requires
        on_track(s, out, cur, len),
        cur < two_to(len),
        padded(string_bits(s)).len() > string_bits(out).len() + len,
        bit == padded(string_bits(s))[(string_bits(out).len() + len) as int],
    ensures
        ({
            let next = 2 * cur + if bit { 1nat } else { 0nat };
            if out.len() < s.len() && len + 1 == huffman_code(s[out.len() as int] as usize).1 {
                &&& huffman_code(s[out.len() as int] as usize) == (next, len + 1)
                &&& on_track(s, out.push(s[out.len() as int]), 0, 0)
            } else {
                &&& forall|symbol: usize|
                    symbol <= EOS ==> huffman_code(symbol) != (next, (len + 1) as nat)
                &&& len + 1 < 30
                &&& on_track(s, out, next, (len + 1) as nat)
            }
        }),
{
    let next = 2 * cur + if bit { 1nat } else { 0nat };
    lemma_bits_push(cur, len, bit);
    lemma_bits_len(cur, len);
    if out.len() < s.len() {
        lemma_next_bit_in_code(s, out, cur, len, bit);
    } else {
        lemma_next_bit_in_padding(s, out, cur, len, bit);
    }
}

/// Where every bit is read and the decoder is on track for `s`, it has
/// written `s` and holds its padding.
pub proof fn lemma_decoded_end(s: Seq<u8>, out: Seq<u8>, cur: nat, len: nat)
    requires
        on_track(s, out, cur, len),
        cur < two_to(len),
        string_bits(out) + bits(cur, len) == padded(string_bits(s)),
    ensures
        out == s,
        len <= 7,
        cur + 1 == two_to(len),
{
    lemma_bits_len(cur, len);
    if out.len() < s.len() {
        let k = out.len() as int;
        lemma_string_bits_split(s, k);
        lemma_codes_fit(s[k] as usize);
        lemma_bits_len(huffman_code(s[k] as usize).0, huffman_code(s[k] as usize).1);
        assert(out == s.take(k));
        assert(string_bits(s).len() >= string_bits(out).len() + symbol_bits(s[k] as usize).len());
        assert(padded(string_bits(s)).len() >= string_bits(s).len());
        assert((string_bits(out) + bits(cur, len)).len() == string_bits(out).len() + len);
        assert(false);
    }
    assert(out =~= s);
    lemma_ones(len);
    lemma_bits_injective(cur, (two_to(len) - 1) as nat, len);
}

proof fn lemma_next_bit_in_code(s: Seq<u8>, out: Seq<u8>, cur: nat, len: nat, bit: bool)
    requires
        on_track(s, out, cur, len),
        out.len() < s.len(),
        cur < two_to(len),
        padded(string_bits(s)).len() > string_bits(out).len() + len,
        bit == padded(string_bits(s))[(string_bits(out).len() + len) as int],
        bits(2 * cur + if bit { 1nat } else { 0nat }, len + 1) == bits(cur, len).push(bit),
        bits(cur, len).len() == len,
    ensures
        ({
            let next = 2 * cur + if bit { 1nat } else { 0nat };
            if len + 1 == huffman_code(s[out.len() as int] as usize).1 {
                &&& huffman_code(s[out.len() as int] as usize) == (next, len + 1)
                &&& on_track(s, out.push(s[out.len() as int]), 0, 0)
            } else {
                &&& forall|symbol: usize|
                    symbol <= EOS ==> huffman_code(symbol) != (next, (len + 1) as nat)
                &&& len + 1 < 30
                &&& on_track(s, out, next, (len + 1) as nat)
            }
        }),
{
    let next = 2 * cur + if bit { 1nat } else { 0nat };
    let k = out.len() as int;
    let sym = s[k] as usize;
    let code_bits = symbol_bits(sym);
    lemma_codes_fit(sym);
    lemma_bits_len(huffman_code(sym).0, huffman_code(sym).1);
    lemma_string_bits_split(s, k);
    let pre = string_bits(out);
    assert(padded(string_bits(s)) == pre + code_bits + (string_bits(s.skip(k + 1)) + ones(
        ((8 - string_bits(s).len() % 8) % 8) as nat,
    )));
    assert(padded(string_bits(s))[(pre.len() + len) as int] == code_bits[len as int]);
    assert(bits(next, len + 1) =~= code_bits.take((len + 1) as int));
    if len + 1 == huffman_code(sym).1 {
        assert(code_bits.take((len + 1) as int) =~= code_bits);
        lemma_bits_injective(next, huffman_code(sym).0, len + 1);
        assert(out.push(s[k]) =~= s.take(k + 1));
        let rest = out.push(s[k]);
        if rest.len() < s.len() {
            let n2 = s[k + 1] as usize;
            lemma_codes_fit(n2);
            lemma_bits_len(huffman_code(n2).0, huffman_code(n2).1);
            assert(symbol_bits(n2).take(0) =~= bits(0, 0));
        } else {
            assert(bits(0, 0) =~= ones(0));
        }
    } else {
        assert forall|symbol: usize| symbol <= EOS implies huffman_code(symbol) != (
            next,
            (len + 1) as nat,
        ) by {
            if huffman_code(symbol) == (next, (len + 1) as nat) {
                lemma_prefix_free(symbol, sym);
            }
        }
    }
}

proof fn lemma_next_bit_in_padding(s: Seq<u8>, out: Seq<u8>, cur: nat, len: nat, bit: bool)
    requires
        on_track(s, out, cur, len),
        out.len() == s.len(),
        cur < two_to(len),
        padded(string_bits(s)).len() > string_bits(out).len() + len,
        bit == padded(string_bits(s))[(string_bits(out).len() + len) as int],
        bits(2 * cur + if bit { 1nat } else { 0nat }, len + 1) == bits(cur, len).push(bit),
    ensures
        ({
            let next = 2 * cur + if bit { 1nat } else { 0nat };
            &&& forall|symbol: usize|
                symbol <= EOS ==> huffman_code(symbol) != (next, (len + 1) as nat)
            &&& len + 1 < 30
            &&& on_track(s, out, next, (len + 1) as nat)
        }),
{
    let next = 2 * cur + if bit { 1nat } else { 0nat };
    let pad = ((8 - string_bits(s).len() % 8) % 8) as nat;
    assert(out =~= s);
    assert(padded(string_bits(s))[(string_bits(out).len() + len) as int] == true);
    assert(bits(next, len + 1) =~= ones(len + 1));
    assert(len + 1 <= pad);
    lemma_ones(len + 1);
    lemma_bits_injective(next, (two_to(len + 1) - 1) as nat, len + 1);
    assert forall|symbol: usize| symbol <= EOS implies huffman_code(symbol) != (
        next,
        (len + 1) as nat,
    ) by {
        lemma_not_all_ones(symbol);
        lemma_two_to_values();
    }
}

/// The bits of a string begin with the code of its first octet.
proof fn lemma_string_bits_front(s: Seq<u8>)
    requires
        s.len() > 0,
    ensures
        string_bits(s) == symbol_bits(s[0] as usize) + string_bits(s.skip(1)),
        5 <= huffman_code(s[0] as usize).1 <= 30,
        symbol_bits(s[0] as usize).len() == huffman_code(s[0] as usize).1,
{
    lemma_string_bits_split(s, 0);
    assert(s.take(0) =~= Seq::<u8>::empty());
    assert(string_bits(Seq::<u8>::empty()) =~= Seq::<bool>::empty());
    assert(string_bits(s.take(0)) + symbol_bits(s[0] as usize) =~= symbol_bits(s[0] as usize));
    lemma_codes_fit(s[0] as usize);
    lemma_bits_len(huffman_code(s[0] as usize).0, huffman_code(s[0] as usize).1);
}

/// One bits are no code: the codes of a string that is not empty are
/// never one bits alone, whatever padding follows them.
#[verifier::spinoff_prover]
#[verifier::rlimit(50)]
proof fn lemma_padding_is_no_code(s: Seq<u8>, p: nat, q: nat)
    requires
        string_bits(s) + ones(p) == ones(q),
    ensures
        s.len() == 0,
{
    if s.len() > 0 {
        let first = s[0] as usize;
        lemma_string_bits_front(s);
        let (code, width) = huffman_code(first);
        lemma_codes_fit(first);
        let whole = string_bits(s) + ones(p);
        assert(whole.len() >= width);
        assert(whole.len() == q);
        assert(whole.take(width as int) =~= symbol_bits(first));
        assert(ones(q).take(width as int) =~= ones(width));
        lemma_ones(width);
        lemma_bits_injective(code, (two_to(width) - 1) as nat, width);
        lemma_not_all_ones(first);
    }
}

/// Where the codes of two strings, padded, are the same bits, their first
/// octets are the same, and so are the bits after them.
#[verifier::spinoff_prover]
#[verifier::rlimit(50)]
proof fn lemma_first_octets_agree(s1: Seq<u8>, s2: Seq<u8>, p1: nat, p2: nat)
    requires
        s1.len() > 0,
        s2.len() > 0,
        string_bits(s1) + ones(p1) == string_bits(s2) + ones(p2),
    ensures
        s1[0] == s2[0],
        string_bits(s1.skip(1)) + ones(p1) == string_bits(s2.skip(1)) + ones(p2),
{
    let a = s1[0] as usize;
    let b = s2[0] as usize;
    lemma_string_bits_front(s1);
    lemma_string_bits_front(s2);
    let la = huffman_code(a).1;
    let lb = huffman_code(b).1;
    let rest1 = string_bits(s1.skip(1)) + ones(p1);
    let rest2 = string_bits(s2.skip(1)) + ones(p2);
    let whole = string_bits(s1) + ones(p1);
    assert(whole =~= symbol_bits(a) + rest1);
    assert(whole =~= symbol_bits(b) + rest2);
    if a != b {
        if la <= lb {
            assert(symbol_bits(b).take(la as int) =~= whole.take(la as int));
            assert(whole.take(la as int) =~= symbol_bits(a));
            lemma_prefix_free(a, b);
        } else {
            assert(symbol_bits(a).take(lb as int) =~= whole.take(lb as int));
            assert(whole.take(lb as int) =~= symbol_bits(b));
            lemma_prefix_free(b, a);
        }
    }
    assert(rest1 =~= whole.skip(la as int));
    assert(rest2 =~= whole.skip(lb as int));
}

/// Codes followed by padding of at most seven one bits say which string
/// they code: no other string's codes and padding are the same bits.
#[verifier::spinoff_prover]
#[verifier::rlimit(50)]
pub proof fn lemma_bits_say_the_string(s1: Seq<u8>, s2: Seq<u8>, p1: nat, p2: nat)
    requires
        p1 <= 7,
        p2 <= 7,
        string_bits(s1) + ones(p1) == string_bits(s2) + ones(p2),
    ensures
        s1 == s2,
    decreases s1.len(),
{
    let none = Seq::<u8>::empty();
    assert(string_bits(none) =~= Seq::<bool>::empty());
    if s1.len() == 0 && s2.len() == 0 {
        assert(s1 =~= s2);
    } else if s1.len() == 0 {
        assert(s1 =~= none);
        assert(string_bits(s1) + ones(p1) =~= ones(p1));
        lemma_padding_is_no_code(s2, p2, p1);
    } else if s2.len() == 0 {
        assert(s2 =~= none);
        assert(string_bits(s2) + ones(p2) =~= ones(p2));
        lemma_padding_is_no_code(s1, p1, p2);
    } else {
        lemma_first_octets_agree(s1, s2, p1, p2);
        lemma_bits_say_the_string(s1.skip(1), s2.skip(1), p1, p2);
        assert(s1 =~= seq![s1[0]] + s1.skip(1));
        assert(s2 =~= seq![s2[0]] + s2.skip(1));
    }
}

/// Two strings that code as the same octets are the same string.
pub proof fn lemma_coded_injective(s1: Seq<u8>, s2: Seq<u8>)
    requires
        coded(s1) == coded(s2),
    ensures
        s1 == s2,
{
    let n1 = string_bits(s1).len();
    let n2 = string_bits(s2).len();
    let p1 = ((8 - n1 % 8) % 8) as nat;
    let p2 = ((8 - n2 % 8) % 8) as nat;
    assert((n1 + p1) % 8 == 0) by (nonlinear_arith)
        requires
            p1 == (8 - n1 % 8) % 8,
    ;
    assert((n2 + p2) % 8 == 0) by (nonlinear_arith)
        requires
            p2 == (8 - n2 % 8) % 8,
    ;
    lemma_octet_bits_pack(padded(string_bits(s1)));
    lemma_octet_bits_pack(padded(string_bits(s2)));
    lemma_bits_say_the_string(s1, s2, p1, p2);
}

/// What a string codes as reads back as that string.
pub proof fn law_huffman_reads_back(s: Seq<u8>)
    ensures
        huffman_decoded(coded(s)) == Some(s),
        coded(s).len() == (string_bits(s).len() + 7) / 8,
{
    assert(exists|t: Seq<u8>| #[trigger] coded(t) == coded(s));
    let t = choose|t: Seq<u8>| #[trigger] coded(t) == coded(s);
    lemma_coded_injective(t, s);
    let n = string_bits(s).len();
    let p = ((8 - n % 8) % 8) as nat;
    lemma_pack_len(padded(string_bits(s)));
    assert((n + p) / 8 == (n + 7) / 8) by (nonlinear_arith)
        requires
            p == (8 - n % 8) % 8,
    ;
}

/// Octets that are all ones are their bits, all ones.
proof fn lemma_octets_of_ones(n: nat)
    ensures
        octet_bits(Seq::new(n, |i: int| 0xffu8)) == ones(8 * n),
    decreases n,
{
    if n > 0 {
        lemma_octets_of_ones((n - 1) as nat);
        let all = Seq::new(n, |i: int| 0xffu8);
        assert(all.drop_last() =~= Seq::new((n - 1) as nat, |i: int| 0xffu8));
        lemma_ones(8);
        lemma_two_to_values();
        assert(bits(255, 8) == ones(8));
        assert(ones((8 * (n - 1)) as nat) + ones(8) =~= ones(8 * n));
    } else {
        assert(Seq::new(0, |i: int| 0xffu8) =~= Seq::<u8>::empty());
        assert(ones(0) =~= Seq::<bool>::empty());
    }
}

/// Octets all ones code no string: one bits are padding, at most seven
/// of them, or `EOS`, which no string holds — so more than seven of them
/// at the end, or an `EOS`, are refused.
pub proof fn law_ones_code_nothing(n: nat)
    requires
        n >= 1,
    ensures
        huffman_decoded(Seq::new(n, |i: int| 0xffu8)) is None,
{
    let all = Seq::new(n, |i: int| 0xffu8);
    if exists|s: Seq<u8>| #[trigger] coded(s) == all {
        let s = choose|s: Seq<u8>| #[trigger] coded(s) == all;
        let w = padded(string_bits(s));
        let len = string_bits(s).len();
        let p = ((8 - len % 8) % 8) as nat;
        assert((len + p) % 8 == 0) by (nonlinear_arith)
            requires
                p == (8 - len % 8) % 8,
        ;
        lemma_octet_bits_pack(w);
        lemma_octets_of_ones(n);
        lemma_padding_is_no_code(s, p, 8 * n);
        assert(s =~= Seq::<u8>::empty());
        assert(string_bits(s) =~= Seq::<bool>::empty());
        lemma_pack_len(w);
        assert(coded(s).len() == 0);
    }
}

/// Zero bits: the bits of 0.
proof fn lemma_zero_bits(width: nat)
    ensures
        bits(0, width) == Seq::new(width, |i: int| false),
    decreases width,
{
    if width > 0 {
        lemma_zero_bits((width - 1) as nat);
        lemma_two_to_monotone(0, (width - 1) as nat);
        assert(bits(0, width) =~= Seq::new(width, |i: int| false));
    } else {
        assert(bits(0, 0) =~= Seq::new(0, |i: int| false));
    }
}

/// Octets that code a string begin with the code of its first octet:
/// where they begin with five zero bits, that octet is `0`, whose code
/// they are, and the bits after them are those of the rest.
proof fn lemma_five_zeros_open_a_zero(s: Seq<u8>, p: nat, w: Seq<bool>)
    requires
        w == string_bits(s) + ones(p),
        w.len() >= 5,
        w.take(5) == Seq::new(5, |i: int| false),
        s.len() > 0,
    ensures
        s[0] == 0x30,
        w.skip(5) == string_bits(s.skip(1)) + ones(p),
{
    lemma_string_bits_front(s);
    let first = s[0] as usize;
    let zero = 0x30usize;
    assert(huffman_code(zero) == (0nat, 5nat));
    lemma_zero_bits(5);
    assert(symbol_bits(zero) == Seq::new(5, |i: int| false));
    assert(w =~= symbol_bits(first) + (string_bits(s.skip(1)) + ones(p)));
    if first != zero {
        assert(symbol_bits(first).take(5) =~= w.take(5));
        lemma_prefix_free(zero, first);
    }
    assert(w.skip(5) =~= string_bits(s.skip(1)) + ones(p));
}

/// Padding is the high bits of `EOS`, ones, and at most seven of them:
/// `0x00` (zero bits where ones belong) and `0x07 0xff` (eleven ones after
/// a code) code no string, and are refused.
pub proof fn law_padding_refused()
    ensures
        huffman_decoded(seq![0x00u8]) is None,
        huffman_decoded(seq![0x07u8, 0xffu8]) is None,
{
    lemma_two_to_values();
    lemma_zero_bits(8);
    lemma_string_single_octet(0x00);
    lemma_string_single_octet(0x07);
    lemma_string_single_octet(0xff);
    lemma_ones(8);
    reveal_with_fuel(bits, 9);
    assert(bits(7, 8) =~= Seq::new(5, |i: int| false) + ones(3));
    lemma_octet_bits_concat(seq![0x07u8], seq![0xffu8]);
    assert(seq![0x07u8] + seq![0xffu8] =~= seq![0x07u8, 0xffu8]);
    let zero = seq![0x00u8];
    let both = seq![0x07u8, 0xffu8];
    if exists|s: Seq<u8>| #[trigger] coded(s) == zero {
        let s = choose|s: Seq<u8>| #[trigger] coded(s) == zero;
        lemma_padded_reads_back(s);
        let n = string_bits(s).len();
        let p = ((8 - n % 8) % 8) as nat;
        let w = string_bits(s) + ones(p);
        assert(w == octet_bits(zero));
        assert(w =~= Seq::new(8, |i: int| false));
        if s.len() == 0 {
            assert(string_bits(s) =~= Seq::<bool>::empty());
            assert(p == 0);
        } else {
            assert(w.take(5) =~= Seq::new(5, |i: int| false));
            lemma_five_zeros_open_a_zero(s, p, w);
            let rest = s.skip(1);
            if rest.len() > 0 {
                lemma_string_bits_front(rest);
            } else {
                assert(string_bits(rest) =~= Seq::<bool>::empty());
                assert(w.skip(5)[0] == ones(p)[0]);
            }
        }
    }
    if exists|s: Seq<u8>| #[trigger] coded(s) == both {
        let s = choose|s: Seq<u8>| #[trigger] coded(s) == both;
        lemma_padded_reads_back(s);
        let n = string_bits(s).len();
        let p = ((8 - n % 8) % 8) as nat;
        let w = string_bits(s) + ones(p);
        assert(w == octet_bits(both));
        assert(w =~= Seq::new(5, |i: int| false) + ones(11));
        if s.len() == 0 {
            assert(string_bits(s) =~= Seq::<bool>::empty());
            assert(p == 0);
        } else {
            assert(w.take(5) =~= Seq::new(5, |i: int| false));
            lemma_five_zeros_open_a_zero(s, p, w);
            assert(w.skip(5) =~= ones(11));
            lemma_padding_is_no_code(s.skip(1), p, 11);
            assert(string_bits(s.skip(1)) =~= Seq::<bool>::empty());
            assert((string_bits(s.skip(1)) + ones(p)).len() == p);
        }
    }
}

/// What a string codes as, taken back apart into bits, is its codes and
/// their padding.
proof fn lemma_padded_reads_back(s: Seq<u8>)
    ensures
        octet_bits(coded(s)) == string_bits(s) + ones(((8 - string_bits(s).len() % 8) % 8) as nat),
        ((8 - string_bits(s).len() % 8) % 8) as nat <= 7,
{
    let n = string_bits(s).len();
    let p = ((8 - n % 8) % 8) as nat;
    assert((n + p) % 8 == 0) by (nonlinear_arith)
        requires
            p == (8 - n % 8) % 8,
    ;
    lemma_octet_bits_pack(padded(string_bits(s)));
}

} // verus!
