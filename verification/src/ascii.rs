//! Text as the protocols write it, read octet by octet: letters compared
//! without case, white space trimmed, numbers in decimal and hex, and the
//! pieces of UTF-8 text cut where an ASCII octet stands.

use vstd::prelude::*;
use vstd::utf8::*;

use crate::text::{push_str, string_of, utf8};

verus! {

broadcast use {
    encode_utf8_valid_utf8,
    valid_utf8_split,
    is_char_boundary_iff_not_is_continuation_byte,
    is_char_boundary_start_end_of_seq,
    valid_utf8_concat,
};

/// `b` with an upper-case ASCII letter taken to lower case.
pub open spec fn lower(b: u8) -> u8 {
    if 0x41 <= b <= 0x5a {
        (b + 0x20) as u8
    } else {
        b
    }
}

/// `s` with every upper-case ASCII letter taken to lower case.
pub open spec fn lower_all(s: Seq<u8>) -> Seq<u8> {
    Seq::new(s.len(), |i: int| lower(s[i]))
}

/// Whether `a` and `b` are the same text but for the case of ASCII letters.
pub open spec fn same_letters(a: Seq<u8>, b: Seq<u8>) -> bool {
    lower_all(a) == lower_all(b)
}

/// Whether `b` is an ASCII digit.
pub open spec fn is_digit(b: u8) -> bool {
    0x30 <= b <= 0x39
}

/// Whether `b` is an ASCII hex digit, either case.
pub open spec fn is_hex_digit(b: u8) -> bool {
    is_digit(b) || 0x41 <= b <= 0x46 || 0x61 <= b <= 0x66
}

/// Whether `b` is an ASCII letter.
pub open spec fn is_letter(b: u8) -> bool {
    0x41 <= b <= 0x5a || 0x61 <= b <= 0x7a
}

/// The value of the hex digit `b`.
pub open spec fn hex_value(b: u8) -> nat {
    if is_digit(b) {
        (b - 0x30) as nat
    } else if 0x41 <= b <= 0x46 {
        (b - 0x41 + 10) as nat
    } else {
        (b - 0x61 + 10) as nat
    }
}

/// Whether every octet of `s` is ASCII.
pub open spec fn all_ascii(s: Seq<u8>) -> bool {
    forall|i: int| 0 <= i < s.len() ==> #[trigger] s[i] < 0x80
}

/// The length of the UTF-8 encoding of a `White_Space` character that
/// starts at `i` of `s`, or 0 where none does: U+0009 to U+000D, U+0020,
/// U+0085, U+00A0, U+1680, U+2000 to U+200A, U+2028, U+2029, U+202F, U+205F
/// and U+3000.
pub open spec fn white_at(s: Seq<u8>, i: int) -> int {
    if 0 <= i < s.len() && (s[i] == 0x20 || 0x09 <= s[i] <= 0x0d) {
        1
    } else if 0 <= i && i + 1 < s.len() && s[i] == 0xc2 && (s[i + 1] == 0x85 || s[i + 1] == 0xa0) {
        2
    } else if 0 <= i && i + 2 < s.len() && ((s[i] == 0xe1 && s[i + 1] == 0x9a && s[i + 2] == 0x80)
        || (s[i] == 0xe2 && s[i + 1] == 0x80 && (0x80 <= s[i + 2] <= 0x8a || s[i + 2] == 0xa8
        || s[i + 2] == 0xa9 || s[i + 2] == 0xaf)) || (s[i] == 0xe2 && s[i + 1] == 0x81 && s[i
        + 2] == 0x9f) || (s[i] == 0xe3 && s[i + 1] == 0x80 && s[i + 2] == 0x80)) {
        3
    } else {
        0
    }
}

/// The length of the encoding of a `White_Space` character that ends at
/// `j` of `s`, or 0.
pub open spec fn white_before(s: Seq<u8>, j: int) -> int {
    if j >= 1 && white_at(s, j - 1) == 1 {
        1
    } else if j >= 2 && white_at(s, j - 2) == 2 {
        2
    } else if j >= 3 && white_at(s, j - 3) == 3 {
        3
    } else {
        0
    }
}

/// Where the text of `s` starts once the white space from `i` on is passed.
pub open spec fn skip_white(s: Seq<u8>, i: int) -> int
    decreases s.len() - i,
{
    if 0 <= i < s.len() && white_at(s, i) > 0 {
        skip_white(s, i + white_at(s, i))
    } else {
        i
    }
}

/// Where the text of `s` ends once the white space before `j`, down to
/// `low`, is passed.
pub open spec fn back_white(s: Seq<u8>, low: int, j: int) -> int
    decreases j,
{
    if j > low && white_before(s, j) > 0 && j - white_before(s, j) >= low {
        back_white(s, low, j - white_before(s, j))
    } else {
        j
    }
}

/// Where `s` trimmed starts.
pub open spec fn trim_start(s: Seq<u8>) -> int {
    skip_white(s, 0)
}

/// Where `s` trimmed ends.
pub open spec fn trim_end(s: Seq<u8>) -> int {
    back_white(s, trim_start(s), s.len() as int)
}

/// `s` without the white space at either end, as `str::trim` leaves it.
pub open spec fn trimmed(s: Seq<u8>) -> Seq<u8> {
    s.subrange(trim_start(s), trim_end(s))
}

/// The digits `n` is written with in decimal.
pub open spec fn decimal(n: nat) -> Seq<u8>
    decreases n,
{
    if n < 10 {
        seq![(0x30 + n) as u8]
    } else {
        decimal(n / 10).push((0x30 + n % 10) as u8)
    }
}

/// The digit of value `d` in lower-case hex.
pub open spec fn hex_digit(d: nat) -> u8 {
    if d < 10 {
        (0x30 + d) as u8
    } else {
        (0x61 + d - 10) as u8
    }
}

/// The digits `n` is written with in lower-case hex.
pub open spec fn hex(n: nat) -> Seq<u8>
    decreases n,
{
    if n < 16 {
        seq![hex_digit(n)]
    } else {
        hex(n / 16).push(hex_digit(n % 16))
    }
}

/// The value of the decimal digits `s`.
pub open spec fn decimal_value(s: Seq<u8>) -> nat
    decreases s.len(),
{
    if s.len() == 0 {
        0
    } else {
        decimal_value(s.drop_last()) * 10 + (s.last() - 0x30) as nat
    }
}

/// The value of the hex digits `s`.
pub open spec fn hex_value_of(s: Seq<u8>) -> nat
    decreases s.len(),
{
    if s.len() == 0 {
        0
    } else {
        hex_value_of(s.drop_last()) * 16 + hex_value(s.last())
    }
}

/// Whether `s` is one or more decimal digits.
pub open spec fn all_digits(s: Seq<u8>) -> bool {
    s.len() > 0 && forall|i: int| 0 <= i < s.len() ==> is_digit(#[trigger] s[i])
}

/// Whether `s` is one or more hex digits.
pub open spec fn all_hex(s: Seq<u8>) -> bool {
    s.len() > 0 && forall|i: int| 0 <= i < s.len() ==> is_hex_digit(#[trigger] s[i])
}

/// The digits of an unsigned number as `str::parse` reads them: an
/// optional `+`, then one or more digits.
pub open spec fn unsigned_digits(s: Seq<u8>) -> Seq<u8> {
    if s.len() > 0 && s[0] == 0x2b {
        s.drop_first()
    } else {
        s
    }
}

/// The unsigned number `s` writes, as `str::parse` reads it, where it is
/// one and at most `max`.
pub open spec fn unsigned(s: Seq<u8>, max: nat) -> Option<nat> {
    let digits = unsigned_digits(s);
    if all_digits(digits) && decimal_value(digits) <= max {
        Some(decimal_value(digits))
    } else {
        None
    }
}

/// The lower-case letter of `b`.
pub fn to_lower(b: u8) -> (r: u8)
    ensures
        r == lower(b),
{
    if 0x41 <= b && b <= 0x5a {
        b + 0x20
    } else {
        b
    }
}

/// Whether `a` and `b` are the same but for the case of ASCII letters.
pub fn eq_ignore_case(a: &[u8], b: &[u8]) -> (r: bool)
    ensures
        r == same_letters(a@, b@),
{
    if a.len() != b.len() {
        proof {
            assert(lower_all(a@).len() != lower_all(b@).len());
        }
        return false;
    }
    let mut i: usize = 0;
    while i < a.len()
        invariant
            i <= a@.len() == b@.len(),
            forall|j: int| 0 <= j < i ==> lower(a@[j]) == lower(b@[j]),
        decreases a.len() - i,
    {
        if to_lower(a[i]) != to_lower(b[i]) {
            proof {
                assert(lower_all(a@)[i as int] != lower_all(b@)[i as int]);
            }
            return false;
        }
        i = i + 1;
    }
    assert(lower_all(a@) =~= lower_all(b@));
    true
}

/// The length of the encoding of a `White_Space` character at `i`.
fn white_len(s: &[u8], i: usize) -> (r: usize)
    requires
        i <= s@.len(),
    ensures
        r == white_at(s@, i as int),
{
    let n = s.len();
    if i < n && (s[i] == 0x20 || (0x09 <= s[i] && s[i] <= 0x0d)) {
        1
    } else if i < n && n - i >= 2 && s[i] == 0xc2 && (s[i + 1] == 0x85 || s[i + 1] == 0xa0) {
        2
    } else if i < n && n - i >= 3 && ((s[i] == 0xe1 && s[i + 1] == 0x9a && s[i + 2] == 0x80) || (s[i]
        == 0xe2 && s[i + 1] == 0x80 && ((0x80 <= s[i + 2] && s[i + 2] <= 0x8a) || s[i + 2] == 0xa8
        || s[i + 2] == 0xa9 || s[i + 2] == 0xaf)) || (s[i] == 0xe2 && s[i + 1] == 0x81 && s[i + 2]
        == 0x9f) || (s[i] == 0xe3 && s[i + 1] == 0x80 && s[i + 2] == 0x80)) {
        3
    } else {
        0
    }
}

/// Where `s` trimmed starts and ends, as `str::trim` cuts it.
pub fn trim_bounds(s: &[u8]) -> (r: (usize, usize))
    ensures
        r.0 == trim_start(s@),
        r.1 == trim_end(s@),
        r.0 <= r.1 <= s@.len(),
{
    let mut start: usize = 0;
    while start < s.len() && white_len(s, start) > 0
        invariant
            start <= s@.len(),
            skip_white(s@, start as int) == skip_white(s@, 0),
        decreases s.len() - start,
    {
        start = start + white_len(s, start);
    }
    let mut end: usize = s.len();
    while end > start && white_len_before(s, end) > 0 && end - white_len_before(s, end) >= start
        invariant
            start <= end <= s@.len(),
            start == trim_start(s@),
            back_white(s@, start as int, end as int) == back_white(s@, start as int, s@.len() as int),
        decreases end,
    {
        end = end - white_len_before(s, end);
    }
    (start, end)
}

fn white_len_before(s: &[u8], j: usize) -> (r: usize)
    requires
        j <= s@.len(),
    ensures
        r == white_before(s@, j as int),
        r <= j,
{
    if j >= 1 && white_len(s, j - 1) == 1 {
        1
    } else if j >= 2 && white_len(s, j - 2) == 2 {
        2
    } else if j >= 3 && white_len(s, j - 3) == 3 {
        3
    } else {
        0
    }
}

/// `n` in decimal, after what `out` holds.
pub fn push_decimal(out: &mut Vec<u8>, n: u64)
    ensures
        final(out)@ == old(out)@ + decimal(n as nat),
    decreases n,
{
    if n >= 10 {
        push_decimal(out, n / 10);
    }
    out.push(0x30u8 + (n % 10) as u8);
    proof {
        assert(final(out)@ =~= old(out)@ + decimal(n as nat));
    }
}

/// `n` in lower-case hex, after what `out` holds.
pub fn push_hex(out: &mut Vec<u8>, n: u64)
    ensures
        final(out)@ == old(out)@ + hex(n as nat),
    decreases n,
{
    if n >= 16 {
        push_hex(out, n / 16);
    }
    let d = (n % 16) as u8;
    let digit = if d < 10 {
        0x30u8 + d
    } else {
        0x61u8 + d - 10
    };
    out.push(digit);
    proof {
        assert(final(out)@ =~= old(out)@ + hex(n as nat));
    }
}

/// Digits are ASCII.
pub proof fn lemma_decimal_ascii(n: nat)
    ensures
        all_ascii(decimal(n)),
        all_digits(decimal(n)),
        decimal(n).len() >= 1,
    decreases n,
{
    if n >= 10 {
        lemma_decimal_ascii(n / 10);
    }
}

/// Hex digits are ASCII.
pub proof fn lemma_hex_ascii(n: nat)
    ensures
        all_ascii(hex(n)),
        all_hex(hex(n)),
    decreases n,
{
    if n >= 16 {
        lemma_hex_ascii(n / 16);
    }
}

/// The decimal digits of `n` read back as `n`.
pub proof fn lemma_decimal_value(n: nat)
    ensures
        decimal_value(decimal(n)) == n,
    decreases n,
{
    if n >= 10 {
        lemma_decimal_value(n / 10);
        assert(decimal(n).drop_last() =~= decimal(n / 10));
        assert(decimal(n).last() == (0x30 + n % 10) as u8);
        assert((decimal(n).last() - 0x30) as nat == n % 10);
        assert(n == (n / 10) * 10 + n % 10);
        assert(decimal_value(decimal(n)) == decimal_value(decimal(n).drop_last()) * 10 + (
        decimal(n).last() - 0x30) as nat);
    } else {
        assert(decimal(n).drop_last() =~= Seq::<u8>::empty());
        assert(decimal_value(Seq::<u8>::empty()) == 0);
        assert(decimal_value(decimal(n)) == decimal_value(decimal(n).drop_last()) * 10 + (
        decimal(n).last() - 0x30) as nat);
    }
}

/// The hex digits of `n` read back as `n`.
pub proof fn lemma_hex_value(n: nat)
    ensures
        hex_value_of(hex(n)) == n,
    decreases n,
{
    if n >= 16 {
        lemma_hex_value(n / 16);
        assert(hex(n).drop_last() =~= hex(n / 16));
        assert(hex_value(hex(n).last()) == n % 16);
        assert(n == (n / 16) * 16 + n % 16);
        assert(hex_value_of(hex(n)) == hex_value_of(hex(n).drop_last()) * 16 + hex_value(
        hex(n).last()));
    } else {
        assert(hex(n).drop_last() =~= Seq::<u8>::empty());
        assert(hex_value_of(Seq::<u8>::empty()) == 0);
        assert(hex_value_of(hex(n)) == hex_value_of(hex(n).drop_last()) * 16 + hex_value(
        hex(n).last()));
    }
}

/// The value of the decimal digits `s`, where it is at most `max`; `None`
/// where `s` is not digits or writes more.
pub fn decimal_at_most(s: &[u8], max: u64) -> (r: Option<u64>)
    ensures
        match r {
            Some(v) => all_digits(s@) && decimal_value(s@) == v && v <= max,
            None => !all_digits(s@) || decimal_value(s@) > max,
        },
{
    if s.len() == 0 {
        return None;
    }
    let mut value: u64 = 0;
    let mut i: usize = 0;
    while i < s.len()
        invariant
            0 < s@.len(),
            i <= s@.len(),
            forall|j: int| 0 <= j < i ==> is_digit(#[trigger] s@[j]),
            value == decimal_value(s@.subrange(0, i as int)),
            value <= max,
        decreases s.len() - i,
    {
        let b = s[i];
        if b < 0x30 || b > 0x39 {
            return None;
        }
        let d = (b - 0x30) as u64;
        proof {
            lemma_value_grows(s@, i as int + 1);
        }
        if d > max || value > (max - d) / 10 {
            proof {
                assert(decimal_value(s@.subrange(0, i + 1)) > max) by (nonlinear_arith)
                    requires
                        decimal_value(s@.subrange(0, i + 1)) == value * 10 + d,
                        d > max || value > (max - d) / 10,
                ;
                lemma_value_monotone(s@, i as int + 1);
            }
            return None;
        }
        assert(value * 10 + d <= max) by (nonlinear_arith)
            requires
                value <= (max - d) / 10,
                d <= max,
        ;
        value = value * 10 + d;
        i = i + 1;
    }
    assert(s@.subrange(0, s@.len() as int) =~= s@);
    Some(value)
}

proof fn lemma_value_monotone(s: Seq<u8>, k: int)
    requires
        0 <= k <= s.len(),
    ensures
        all_digits(s) ==> decimal_value(s) >= decimal_value(s.subrange(0, k)),
    decreases s.len() - k,
{
    if k < s.len() && all_digits(s) {
        lemma_value_monotone(s, k + 1);
        lemma_value_grows(s, k + 1);
    }
    if k == s.len() {
        assert(s.subrange(0, k) =~= s);
    }
}

proof fn lemma_value_grows(s: Seq<u8>, k: int)
    requires
        0 < k <= s.len(),
        forall|j: int| 0 <= j < k ==> is_digit(#[trigger] s[j]),
    ensures
        decimal_value(s.subrange(0, k)) >= decimal_value(s.subrange(0, k - 1)),
        decimal_value(s.subrange(0, k)) == decimal_value(s.subrange(0, k - 1)) * 10 + (s[k - 1]
            - 0x30),
{
    assert(s.subrange(0, k).drop_last() =~= s.subrange(0, k - 1));
}

/// A text of ASCII octets is UTF-8.
pub proof fn lemma_ascii_valid(s: Seq<u8>)
    requires
        all_ascii(s),
    ensures
        valid_utf8(s),
{
    assert forall|i: int| 0 <= 0 <= i < s.len() <= s.len() implies #[trigger] is_leading_byte_width_1(
        s[i],
    ) by {
        assert(s[i] < 0x80);
    }
    assert(s.subrange(0, 0) =~= Seq::<u8>::empty());
    assert(valid_utf8(Seq::<u8>::empty()));
    partial_valid_utf8_extend_ascii_block(s, 0, s.len() as int);
    assert(s.subrange(0, s.len() as int) =~= s);
}

/// UTF-8 text cut where an octet that does not continue a character
/// stands, or at either end, gives UTF-8 text on both sides.
pub proof fn lemma_cut_valid(s: Seq<u8>, i: int)
    requires
        valid_utf8(s),
        0 <= i <= s.len(),
        i == 0 || i == s.len() || !is_continuation_byte(s[i]),
    ensures
        valid_utf8(s.subrange(0, i)),
        valid_utf8(s.subrange(i, s.len() as int)),
{
    if i == 0 {
        assert(is_char_boundary(s, 0));
    } else if i < s.len() {
        assert(is_char_boundary(s, i));
    } else {
        assert(is_char_boundary(s, s.len() as int));
    }
}

/// The piece of UTF-8 text between two cuts of the kind
/// [`lemma_cut_valid`] takes is UTF-8.
pub proof fn lemma_piece_valid(s: Seq<u8>, i: int, j: int)
    requires
        valid_utf8(s),
        0 <= i <= j <= s.len(),
        i == 0 || i == s.len() || !is_continuation_byte(s[i]),
        j == 0 || j == s.len() || !is_continuation_byte(s[j]),
    ensures
        valid_utf8(s.subrange(i, j)),
{
    lemma_cut_valid(s, j);
    let head = s.subrange(0, j);
    if i < j {
        assert(head[i] == s[i]);
    }
    lemma_cut_valid(head, i);
    assert(head.subrange(i, head.len() as int) =~= s.subrange(i, j));
}

/// In UTF-8 text, what follows an ASCII octet starts a character.
pub proof fn lemma_after_ascii(s: Seq<u8>, i: int)
    requires
        valid_utf8(s),
        0 <= i < s.len(),
        s[i] < 0x80,
    ensures
        i + 1 == s.len() || !is_continuation_byte(s[i + 1]),
{
    if i + 1 < s.len() {
        assert(!is_continuation_byte(s[i]));
        lemma_cut_valid(s, i);
        let t = s.subrange(i, s.len() as int);
        assert(t[0] == s[i]);
        assert(pop_first_scalar(t) =~= s.subrange(i + 1, s.len() as int));
        let u = s.subrange(i + 1, s.len() as int);
        assert(valid_utf8(u));
        assert(is_char_boundary(u, 0));
        assert(u[0] == s[i + 1]);
    }
}

/// The first place at or after `i` where `b` stands in `s`, or the length
/// of `s` where it stands nowhere after.
pub open spec fn index_of(s: Seq<u8>, b: u8, i: int) -> int
    decreases s.len() - i,
{
    if i < 0 || i >= s.len() {
        s.len() as int
    } else if s[i] == b {
        i
    } else {
        index_of(s, b, i + 1)
    }
}

/// The last place before `j` where `b` stands in `s`, or -1.
pub open spec fn last_index_of(s: Seq<u8>, b: u8, j: int) -> int
    decreases j,
{
    if j <= 0 || j > s.len() {
        -1
    } else if s[j - 1] == b {
        j - 1
    } else {
        last_index_of(s, b, j - 1)
    }
}

/// What [`index_of`] finds: `b` there, and nowhere between.
pub proof fn lemma_index_of(s: Seq<u8>, b: u8, i: int)
    requires
        0 <= i <= s.len(),
    ensures
        i <= index_of(s, b, i) <= s.len(),
        index_of(s, b, i) < s.len() ==> s[index_of(s, b, i)] == b,
        forall|k: int| i <= k < index_of(s, b, i) ==> s[k] != b,
    decreases s.len() - i,
{
    if i < s.len() && s[i] != b {
        lemma_index_of(s, b, i + 1);
    }
}

/// What [`last_index_of`] finds: `b` there, and nowhere after it before `j`.
pub proof fn lemma_last_index_of(s: Seq<u8>, b: u8, j: int)
    requires
        0 <= j <= s.len(),
    ensures
        -1 <= last_index_of(s, b, j) < j,
        last_index_of(s, b, j) >= 0 ==> s[last_index_of(s, b, j)] == b,
        forall|k: int| last_index_of(s, b, j) < k < j ==> s[k] != b,
    decreases j,
{
    if j > 0 && s[j - 1] != b {
        lemma_last_index_of(s, b, j - 1);
    }
}

/// The first place at or after `from` where `b` stands in `s`, or the
/// length of `s`.
pub fn find_from(s: &[u8], b: u8, from: usize) -> (r: usize)
    requires
        from <= s@.len(),
    ensures
        r == index_of(s@, b, from as int),
{
    let mut i = from;
    while i < s.len() && s[i] != b
        invariant
            from <= i <= s@.len(),
            index_of(s@, b, i as int) == index_of(s@, b, from as int),
        decreases s.len() - i,
    {
        i = i + 1;
    }
    i
}

/// The last place where `b` stands in `s`.
pub fn find_last(s: &[u8], b: u8) -> (r: Option<usize>)
    ensures
        match r {
            Some(k) => k == last_index_of(s@, b, s@.len() as int),
            None => last_index_of(s@, b, s@.len() as int) == -1,
        },
{
    let mut j = s.len();
    while j > 0 && s[j - 1] != b
        invariant
            j <= s@.len(),
            last_index_of(s@, b, j as int) == last_index_of(s@, b, s@.len() as int),
        decreases j,
    {
        j = j - 1;
    }
    if j == 0 {
        None
    } else {
        Some(j - 1)
    }
}

/// Whether `s` opens with `prefix`.
pub fn starts_with(s: &[u8], prefix: &[u8]) -> (r: bool)
    ensures
        r == (prefix@.len() <= s@.len() && s@.subrange(0, prefix@.len() as int) == prefix@),
{
    if prefix.len() > s.len() {
        return false;
    }
    let mut i: usize = 0;
    while i < prefix.len()
        invariant
            prefix@.len() <= s@.len(),
            i <= prefix@.len(),
            forall|k: int| 0 <= k < i ==> s@[k] == prefix@[k],
        decreases prefix.len() - i,
    {
        if s[i] != prefix[i] {
            assert(s@.subrange(0, prefix@.len() as int)[i as int] != prefix@[i as int]);
            return false;
        }
        i = i + 1;
    }
    assert(s@.subrange(0, prefix@.len() as int) =~= prefix@);
    true
}

/// Whether a text may be cut at `i` of its octets `s`: at either end, or
/// where no octet continuing a character stands.
pub open spec fn cuttable(s: Seq<u8>, i: int) -> bool {
    i == 0 || i == s.len() || (0 <= i < s.len() && !is_continuation_byte(s[i]))
}

/// `text` cut at the octet `at`, where it may be cut.
pub fn cut(text: &str, at: usize) -> (r: (&str, &str))
    requires
        at <= utf8(text@).len(),
        cuttable(utf8(text@), at as int),
    ensures
        utf8(r.0@) == utf8(text@).subrange(0, at as int),
        utf8(r.1@) == utf8(text@).subrange(at as int, utf8(text@).len() as int),
{
    proof {
        let s = utf8(text@);
        if at == 0 {
            assert(is_char_boundary(s, 0));
        } else if at == s.len() {
            assert(is_char_boundary(s, s.len() as int));
        } else {
            assert(!is_continuation_byte(s[at as int]));
            assert(is_char_boundary(s, at as int));
        }
    }
    text.split_at(at)
}

/// The octets `from` to `to` of `text`, where it may be cut at both.
pub fn piece_of(text: &str, from: usize, to: usize) -> (r: &str)
    requires
        from <= to <= utf8(text@).len(),
        cuttable(utf8(text@), from as int),
        cuttable(utf8(text@), to as int),
    ensures
        utf8(r@) == utf8(text@).subrange(from as int, to as int),
{
    let (head, _) = cut(text, to);
    proof {
        let s = utf8(text@);
        if from > 0 && from < to {
            assert(utf8(head@)[from as int] == s[from as int]);
        }
    }
    let (_, piece) = cut(head, from);
    proof {
        assert(utf8(text@).subrange(0, to as int).subrange(from as int, to as int) =~= utf8(
            text@,
        ).subrange(from as int, to as int));
    }
    piece
}

/// In UTF-8 text, an ASCII octet, and what follows one, may be cut at.
pub proof fn lemma_cuttable_ascii(s: Seq<u8>, i: int)
    requires
        valid_utf8(s),
        0 <= i < s.len(),
        s[i] < 0x80,
    ensures
        cuttable(s, i),
        cuttable(s, i + 1),
{
    lemma_after_ascii(s, i);
}

/// In UTF-8 text, a character that starts where the text may be cut is
/// followed by a place it may be cut at.
pub proof fn lemma_after_char(s: Seq<u8>, i: int)
    requires
        valid_utf8(s),
        0 <= i < s.len(),
        cuttable(s, i),
    ensures
        i + length_of_first_scalar(s.subrange(i, s.len() as int)) <= s.len(),
        cuttable(s, i + length_of_first_scalar(s.subrange(i, s.len() as int))),
{
    lemma_cut_valid(s, i);
    let t = s.subrange(i, s.len() as int);
    let w = length_of_first_scalar(t);
    assert(valid_first_scalar(t));
    assert(valid_utf8(pop_first_scalar(t)));
    let u = pop_first_scalar(t);
    assert(u =~= s.subrange(i + w, s.len() as int));
    if i + w < s.len() {
        assert(is_char_boundary(u, 0));
        assert(u[0] == s[i + w]);
    }
}

/// Trimmed text starts and ends where UTF-8 text may be cut.
pub proof fn lemma_trim_cuttable(s: Seq<u8>)
    requires
        valid_utf8(s),
    ensures
        0 <= trim_start(s) <= trim_end(s) <= s.len(),
        cuttable(s, trim_start(s)),
        cuttable(s, trim_end(s)),
{
    lemma_skip_white(s, 0);
    lemma_back_white(s, trim_start(s), s.len() as int);
}

proof fn lemma_white_width(s: Seq<u8>, i: int)
    requires
        valid_utf8(s),
        0 <= i < s.len(),
        cuttable(s, i),
        white_at(s, i) > 0,
    ensures
        white_at(s, i) == length_of_first_scalar(s.subrange(i, s.len() as int)),
{
    let t = s.subrange(i, s.len() as int);
    assert(t[0] == s[i]);
}

pub proof fn lemma_skip_white(s: Seq<u8>, i: int)
    requires
        valid_utf8(s),
        0 <= i <= s.len(),
        cuttable(s, i),
    ensures
        i <= skip_white(s, i) <= s.len(),
        cuttable(s, skip_white(s, i)),
    decreases s.len() - i,
{
    if i < s.len() && white_at(s, i) > 0 {
        lemma_white_width(s, i);
        lemma_after_char(s, i);
        lemma_skip_white(s, i + white_at(s, i));
    }
}

proof fn lemma_back_white(s: Seq<u8>, low: int, j: int)
    requires
        0 <= low <= j <= s.len(),
    ensures
        low <= back_white(s, low, j) <= j,
        cuttable(s, j) ==> cuttable(s, back_white(s, low, j)),
    decreases j,
{
    if j > low && white_before(s, j) > 0 && j - white_before(s, j) >= low {
        let k = j - white_before(s, j);
        assert(!is_continuation_byte(s[k]));
        lemma_back_white(s, low, k);
    }
}

/// `text` without the white space at either end (`str::trim`).
pub fn trim(text: &str) -> (r: &str)
    ensures
        utf8(r@) == trimmed(utf8(text@)),
{
    let (start, end) = trim_bounds(text.as_bytes());
    proof {
        lemma_trim_cuttable(utf8(text@));
    }
    piece_of(text, start, end)
}

/// ASCII text is written with one octet a character, that character's.
pub proof fn lemma_ascii_text(s: Seq<char>)
    requires
        is_ascii_chars(s),
    ensures
        utf8(s).len() == s.len(),
        all_ascii(utf8(s)),
        forall|i: int| 0 <= i < s.len() ==> #[trigger] utf8(s)[i] == s[i] as u8,
{
    is_ascii_chars_encode_utf8(s);
    assert forall|i: int| 0 <= i < s.len() implies #[trigger] utf8(s)[i] < 0x80 by {
        assert(s[i] as u8 == utf8(s)[i]);
    }
}

/// Where the word that starts at `i` of `s` ends: at the next white space,
/// or the end.
pub open spec fn word_end(s: Seq<u8>, i: int) -> int
    decreases s.len() - i,
{
    if i < 0 || i >= s.len() || white_at(s, i) > 0 {
        if i < 0 {
            0
        } else if i > s.len() {
            s.len() as int
        } else {
            i
        }
    } else {
        word_end(s, i + 1)
    }
}

/// What [`word_end`] finds: white space there or the end, and none before.
pub proof fn lemma_word_end(s: Seq<u8>, i: int)
    requires
        0 <= i <= s.len(),
    ensures
        i <= word_end(s, i) <= s.len(),
        cuttable(s, word_end(s, i)),
    decreases s.len() - i,
{
    if i < s.len() && white_at(s, i) == 0 {
        lemma_word_end(s, i + 1);
    }
}

/// Where the white space from `i` of `s` on ends.
pub fn skip_white_from(s: &[u8], i: usize) -> (r: usize)
    requires
        i <= s@.len(),
    ensures
        r == skip_white(s@, i as int),
{
    let mut k = i;
    while k < s.len() && white_len(s, k) > 0
        invariant
            i <= k <= s@.len(),
            skip_white(s@, k as int) == skip_white(s@, i as int),
        decreases s.len() - k,
    {
        k = k + white_len(s, k);
    }
    k
}

/// Where the word from `i` of `s` on ends.
pub fn word_end_from(s: &[u8], i: usize) -> (r: usize)
    requires
        i <= s@.len(),
    ensures
        r == word_end(s@, i as int),
{
    let mut k = i;
    while k < s.len() && white_len(s, k) == 0
        invariant
            i <= k <= s@.len(),
            word_end(s@, k as int) == word_end(s@, i as int),
        decreases s.len() - k,
    {
        k = k + 1;
    }
    k
}

/// `bytes`, UTF-8, as a `String`.
pub fn text_of(bytes: &[u8]) -> (r: String)
    requires
        valid_utf8(bytes@),
    ensures
        encode_utf8(r@) == bytes@,
{
    string_of(vstd::slice::slice_to_vec(bytes))
}

/// A message with a number in it: `before`, the digits of `n`, `after`.
pub open spec fn numbered(before: Seq<char>, n: nat, after: Seq<char>) -> Seq<u8> {
    utf8(before) + decimal(n) + utf8(after)
}

/// `before`, the digits of `n` and `after`, as one text.
pub fn with_number(before: &str, n: u64, after: &str) -> (r: String)
    ensures
        utf8(r@) == numbered(before@, n as nat, after@),
{
    let mut out: Vec<u8> = Vec::new();
    push_str(&mut out, before);
    push_decimal(&mut out, n);
    let ghost middle = out@;
    push_str(&mut out, after);
    proof {
        encode_utf8_valid_utf8(before@);
        encode_utf8_valid_utf8(after@);
        lemma_decimal_ascii(n as nat);
        lemma_ascii_valid(decimal(n as nat));
        valid_utf8_concat(utf8(before@), decimal(n as nat));
        valid_utf8_concat(middle, utf8(after@));
    }
    string_of(out)
}

/// `before`, the digits of `n`, `middle`, the digits of `m` and `after`,
/// as one text.
pub fn with_numbers(before: &str, n: u64, middle: &str, m: u64, after: &str) -> (r: String)
    ensures
        utf8(r@) == numbered(before@, n as nat, middle@) + numbered(""@, m as nat, after@),
{
    let first = with_number(before, n, middle);
    let second = with_number("", m, after);
    let mut out: Vec<u8> = Vec::new();
    push_str(&mut out, first.as_str());
    push_str(&mut out, second.as_str());
    proof {
        encode_utf8_valid_utf8(first@);
        encode_utf8_valid_utf8(second@);
        valid_utf8_concat(utf8(first@), utf8(second@));
    }
    string_of(out)
}

} // verus!
