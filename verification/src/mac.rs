//! A hardware address in the notation IEEE 802 writes it: two hex digits an
//! octet, colon-separated — `00:1b:44:11:3a:b7`.
//!
//! Read in the four spellings the stacks use — colons, hyphens, the dotted
//! form of four digits a group (`001b.4411.3ab7`), or the digits alone
//! (`001B44113AB7`) — in either case, and written in one: lowercase,
//! colons. Any number of octets, because a DHCP client's hardware address
//! is as long as its link says; a 48-bit address is six of them, and a
//! reader that needs six checks the count.

use vstd::prelude::*;
use vstd::utf8::*;

use crate::ascii::{
    all_ascii, hex_digit, hex_value, index_of, is_hex_digit, lemma_ascii_valid, lemma_index_of,
    trim, trimmed, white_at, white_before, skip_white, back_white, trim_start, trim_end,
};
use crate::text::{quote, quoted};
use crate::text::{push_str, string_of, utf8};
use crate::NetError;

verus! {

broadcast use {encode_utf8_valid_utf8, valid_utf8_concat};

pub const COLON: u8 = 0x3a;

pub const HYPHEN: u8 = 0x2d;

pub const DOT: u8 = 0x2e;

/// The two lower-case hex digits of `b`.
pub open spec fn pair(b: u8) -> Seq<u8> {
    seq![hex_digit((b / 16) as nat), hex_digit((b % 16) as nat)]
}

/// `bytes` as colon-separated lowercase hex pairs.
pub open spec fn notation_of(bytes: Seq<u8>) -> Seq<u8>
    decreases bytes.len(),
{
    if bytes.len() == 0 {
        seq![]
    } else if bytes.len() == 1 {
        pair(bytes[0])
    } else {
        pair(bytes[0]) + seq![COLON] + notation_of(bytes.drop_first())
    }
}

/// How the groups of a spelling are told apart.
pub enum Spelling {
    /// Four digits a group, dot-separated.
    Dotted,
    /// Two digits a group, colon- or hyphen-separated.
    Separated,
    /// The digits alone.
    Bare,
}

/// Whether `b` ends a group of the spelling `s`.
pub open spec fn separates(s: Spelling, b: u8) -> bool {
    match s {
        Spelling::Dotted => b == DOT,
        Spelling::Separated => b == COLON || b == HYPHEN,
        Spelling::Bare => false,
    }
}

/// Where the group that starts at `i` of `t` ends.
pub open spec fn group_end(t: Seq<u8>, s: Spelling, i: int) -> int
    decreases t.len() - i,
{
    if i < 0 || i >= t.len() {
        t.len() as int
    } else if separates(s, t[i]) {
        i
    } else {
        group_end(t, s, i + 1)
    }
}

pub proof fn lemma_group_end(t: Seq<u8>, s: Spelling, i: int)
    requires
        0 <= i <= t.len(),
    ensures
        i <= group_end(t, s, i) <= t.len(),
    decreases t.len() - i,
{
    if i < t.len() && !separates(s, t[i]) {
        lemma_group_end(t, s, i + 1);
    }
}

/// The octets hex digit pairs `g` write.
pub open spec fn pairs_value(g: Seq<u8>) -> Seq<u8>
    decreases g.len(),
{
    if g.len() < 2 {
        seq![]
    } else {
        seq![(hex_value(g[0]) * 16 + hex_value(g[1])) as u8] + pairs_value(g.subrange(2, g.len() as int))
    }
}

/// Whether `g` is whole octets of hex digits.
pub open spec fn whole_hex(g: Seq<u8>) -> bool {
    g.len() % 2 == 0 && forall|i: int| 0 <= i < g.len() ==> is_hex_digit(#[trigger] g[i])
}

/// The octets the groups of `t` from `i` on write, each `width` digits, or
/// `None` where one is not.
pub open spec fn groups_from(t: Seq<u8>, s: Spelling, width: nat, i: int) -> Option<Seq<u8>>
    decreases t.len() - i,
{
    if i < 0 || i > t.len() {
        None
    } else {
        let end = group_end(t, s, i);
        let group = t.subrange(i, end);
        if group.len() != width || !whole_hex(group) {
            None
        } else if end >= t.len() {
            Some(pairs_value(group))
        } else {
            proof {
                lemma_group_end(t, s, i);
            }
            match groups_from(t, s, width, end + 1) {
                Some(rest) => Some(pairs_value(group) + rest),
                None => None,
            }
        }
    }
}

/// The spelling of the trimmed text `t`.
pub open spec fn spelling(t: Seq<u8>) -> Spelling {
    if index_of(t, DOT, 0) < t.len() {
        Spelling::Dotted
    } else if index_of(t, COLON, 0) < t.len() || index_of(t, HYPHEN, 0) < t.len() {
        Spelling::Separated
    } else {
        Spelling::Bare
    }
}

/// The digits a group of the spelling `s` of `t` has.
pub open spec fn width(t: Seq<u8>, s: Spelling) -> nat {
    match s {
        Spelling::Dotted => 4,
        Spelling::Separated => 2,
        Spelling::Bare => t.len(),
    }
}

/// The octets the text `text` names, where it names any.
pub open spec fn mac_read(text: Seq<u8>) -> Option<Seq<u8>> {
    let t = trimmed(text);
    if t.len() == 0 {
        None
    } else {
        groups_from(t, spelling(t), width(t, spelling(t)), 0)
    }
}

fn digit(d: u8) -> (r: u8)
    requires
        d < 16,
    ensures
        r == hex_digit(d as nat),
{
    if d < 10 {
        0x30 + d
    } else {
        0x61 + d - 10
    }
}

proof fn lemma_notation_push(bytes: Seq<u8>, b: u8)
    requires
        bytes.len() > 0,
    ensures
        notation_of(bytes.push(b)) == notation_of(bytes) + seq![COLON] + pair(b),
    decreases bytes.len(),
{
    if bytes.len() == 1 {
        assert(bytes.push(b).drop_first() =~= seq![b]);
        assert(notation_of(seq![b]) == pair(b));
        assert(bytes.push(b)[0] == bytes[0]);
        assert(notation_of(bytes.push(b)) =~= notation_of(bytes) + seq![COLON] + pair(b));
    } else {
        lemma_notation_push(bytes.drop_first(), b);
        assert(bytes.push(b).drop_first() =~= bytes.drop_first().push(b));
        assert(notation_of(bytes.push(b)) =~= notation_of(bytes) + seq![COLON] + pair(b));
    }
}

proof fn lemma_notation_ascii(bytes: Seq<u8>)
    ensures
        all_ascii(notation_of(bytes)),
    decreases bytes.len(),
{
    if bytes.len() > 1 {
        lemma_notation_ascii(bytes.drop_first());
        let whole = notation_of(bytes);
        let rest = notation_of(bytes.drop_first());
        assert forall|i: int| 0 <= i < whole.len() implies #[trigger] whole[i] < 0x80 by {
            if i >= 3 {
                assert(whole[i] == rest[i - 3]);
            }
        }
    }
}

/// `bytes` as colon-separated lowercase hex pairs.
pub fn notation(bytes: &[u8]) -> (r: String)
    ensures
        utf8(r@) == notation_of(bytes@),
{
    let mut out: Vec<u8> = Vec::new();
    let mut i: usize = 0;
    while i < bytes.len()
        invariant
            i <= bytes@.len(),
            out@ == notation_of(bytes@.subrange(0, i as int)),
        decreases bytes.len() - i,
    {
        let b = bytes[i];
        proof {
            assert(bytes@.subrange(0, i + 1) =~= bytes@.subrange(0, i as int).push(b));
            if i > 0 {
                lemma_notation_push(bytes@.subrange(0, i as int), b);
            } else {
                assert(bytes@.subrange(0, 1) =~= seq![b]);
            }
        }
        if i > 0 {
            out.push(COLON);
        }
        out.push(digit(b / 16));
        out.push(digit(b % 16));
        i = i + 1;
        proof {
            assert(out@ =~= notation_of(bytes@.subrange(0, i as int)));
        }
    }
    proof {
        assert(bytes@.subrange(0, bytes@.len() as int) =~= bytes@);
        lemma_notation_ascii(bytes@);
        lemma_ascii_valid(out@);
    }
    string_of(out)
}

fn refused(text: &str) -> (e: NetError)
    ensures
        utf8(e.message@) == utf8(quoted(text@)) + utf8(" is not a hardware address"@),
{
    let mut out: Vec<u8> = Vec::new();
    push_str(&mut out, quote(text).as_str());
    push_str(&mut out, " is not a hardware address");
    proof {
        assert(valid_utf8(Seq::<u8>::empty()));
    }
    NetError::new(string_of(out))
}

fn hex_value_of(b: u8) -> (r: u8)
    requires
        is_hex_digit(b),
    ensures
        r == hex_value(b),
        r < 16,
{
    if b <= 0x39 {
        b - 0x30
    } else if b <= 0x46 {
        b - 0x41 + 10
    } else {
        b - 0x61 + 10
    }
}

fn separates_exec(s: &Spelling, b: u8) -> (r: bool)
    ensures
        r == separates(*s, b),
{
    match s {
        Spelling::Dotted => b == DOT,
        Spelling::Separated => b == COLON || b == HYPHEN,
        Spelling::Bare => false,
    }
}

proof fn lemma_pairs_push(g: Seq<u8>, x: u8, y: u8)
    requires
        g.len() % 2 == 0,
    ensures
        pairs_value(g + seq![x, y]) == pairs_value(g).push((hex_value(x) * 16 + hex_value(y)) as u8),
    decreases g.len(),
{
    if g.len() == 0 {
        assert(g =~= Seq::<u8>::empty());
        assert(g + seq![x, y] =~= seq![x, y]);
        assert(pairs_value(Seq::<u8>::empty()) =~= Seq::<u8>::empty());
        assert((g + seq![x, y]).subrange(2, 2) =~= Seq::<u8>::empty());
        assert(pairs_value(g + seq![x, y]) =~= pairs_value(g).push((hex_value(x) * 16 + hex_value(y)) as u8));
    } else {
        lemma_pairs_push(g.subrange(2, g.len() as int), x, y);
        assert((g + seq![x, y]).subrange(2, g.len() as int + 2) =~= g.subrange(2, g.len() as int) + seq![x, y]);
        assert(pairs_value(g + seq![x, y]) =~= pairs_value(g).push((hex_value(x) * 16 + hex_value(y)) as u8));
    }
}

/// The octets of one group, `t` from `i` to `end`, where it is whole
/// octets of hex digits.
fn group_octets(t: &[u8], i: usize, end: usize, out: &mut Vec<u8>) -> (ok: bool)
    requires
        i <= end <= t@.len(),
    ensures
        ok == whole_hex(t@.subrange(i as int, end as int)),
        ok ==> final(out)@ == old(out)@ + pairs_value(t@.subrange(i as int, end as int)),
{
    if (end - i) % 2 != 0 {
        return false;
    }
    let ghost start = out@;
    let mut k = i;
    while k < end
        invariant
            i <= k <= end <= t@.len(),
            (k - i) % 2 == 0,
            (end - i) % 2 == 0,
            forall|j: int| i <= j < k ==> is_hex_digit(#[trigger] t@[j]),
            out@ == start + pairs_value(t@.subrange(i as int, k as int)),
        decreases end - k,
    {
        let x = t[k];
        let y = t[k + 1];
        if !(0x30 <= x && x <= 0x39 || 0x41 <= x && x <= 0x46 || 0x61 <= x && x <= 0x66) || !(0x30
            <= y && y <= 0x39 || 0x41 <= y && y <= 0x46 || 0x61 <= y && y <= 0x66) {
            proof {
                let g = t@.subrange(i as int, end as int);
                if !is_hex_digit(x) {
                    assert(g[k - i] == x);
                } else {
                    assert(g[k + 1 - i] == y);
                }
            }
            return false;
        }
        proof {
            lemma_pairs_push(t@.subrange(i as int, k as int), x, y);
            assert(t@.subrange(i as int, k + 2) =~= t@.subrange(i as int, k as int) + seq![x, y]);
        }
        out.push(hex_value_of(x) * 16 + hex_value_of(y));
        k = k + 2;
        proof {
            assert(out@ =~= start + pairs_value(t@.subrange(i as int, k as int)));
        }
    }
    true
}

/// The octets `text` names: colon-, hyphen- or dot-separated, or the digits
/// alone.
///
/// # Errors
///
/// Where the text is empty, a group is not two hex digits (four in the
/// dotted form), or the digits alone are not whole octets.
pub fn parse(text: &str) -> (r: Result<Vec<u8>, NetError>)
    ensures
        match r {
            Ok(octets) => mac_read(utf8(text@)) == Some(octets@),
            Err(e) => mac_read(utf8(text@)) is None && utf8(e.message@) == utf8(
                quoted(vstd::utf8::decode_utf8(trimmed(utf8(text@)))),
            ) + utf8(" is not a hardware address"@),
        },
{
    let written = trim(text);
    let t = written.as_bytes();
    proof {
        encode_utf8_decode_utf8(written@);
        lemma_index_of(t@, DOT, 0);
        lemma_index_of(t@, COLON, 0);
        lemma_index_of(t@, HYPHEN, 0);
    }
    let spelling_of = if crate::ascii::find_from(t, DOT, 0) < t.len() {
        Spelling::Dotted
    } else if crate::ascii::find_from(t, COLON, 0) < t.len() || crate::ascii::find_from(
        t,
        HYPHEN,
        0,
    ) < t.len() {
        Spelling::Separated
    } else {
        Spelling::Bare
    };
    let group_width: usize = match spelling_of {
        Spelling::Dotted => 4,
        Spelling::Separated => 2,
        Spelling::Bare => t.len(),
    };
    if t.len() == 0 {
        return Err(refused(written));
    }
    let ghost s = spelling(t@);
    let ghost w = width(t@, s);
    let mut octets: Vec<u8> = Vec::new();
    let mut i: usize = 0;
    loop
        invariant
            i <= t@.len(),
            t@ == trimmed(utf8(text@)),
            t@ == utf8(written@),
            written@ == vstd::utf8::decode_utf8(t@),
            t@.len() > 0,
            s == spelling(t@),
            w == width(t@, s),
            s == spelling_of,
            w == group_width,
            groups_from(t@, s, w, 0) == match groups_from(t@, s, w, i as int) {
                Some(rest) => Some(octets@ + rest),
                None => None::<Seq<u8>>,
            },
        decreases t.len() - i,
    {
        let mut end = i;
        while end < t.len() && !separates_exec(&spelling_of, t[end])
            invariant
                i <= end <= t@.len(),
                s == spelling_of,
                group_end(t@, s, end as int) == group_end(t@, s, i as int),
            decreases t.len() - end,
        {
            end = end + 1;
        }
        let ghost before = octets@;
        if end - i != group_width || !group_octets(t, i, end, &mut octets) {
            proof {
                assert(groups_from(t@, s, w, i as int) is None);
            }
            return Err(refused(written));
        }
        if end >= t.len() {
            proof {
                assert(groups_from(t@, s, w, i as int) == Some(pairs_value(t@.subrange(i as int, end as int))));
            }
            return Ok(octets);
        }
        proof {
            match groups_from(t@, s, w, end + 1) {
                Some(rest) => {
                    assert(before + (pairs_value(t@.subrange(i as int, end as int)) + rest) =~= octets@ + rest);
                },
                None => {},
            }
        }
        i = end + 1;
    }
}

/// A notation reads back as the octets it was written from; every octet
/// string but the empty one has a notation that reads.
pub proof fn law_mac_read_undoes_notation(bytes: Seq<u8>)
    requires
        bytes.len() > 0,
    ensures
        mac_read(notation_of(bytes)) == Some(bytes),
{
    let n = notation_of(bytes);
    lemma_notation_ascii(n);
    lemma_no_white(n, bytes);
    lemma_index_of(n, DOT, 0);
    lemma_no_dot(bytes);
    if bytes.len() == 1 {
        lemma_index_of(n, COLON, 0);
        lemma_index_of(n, HYPHEN, 0);
        assert(n[0] != COLON && n[1] != COLON && n[0] != HYPHEN && n[1] != HYPHEN);
        assert(group_end(n, Spelling::Bare, 2) == 2);
        assert(group_end(n, Spelling::Bare, 1) == 2);
        assert(group_end(n, Spelling::Bare, 0) == 2);
        assert(n.subrange(0, 2) =~= n);
        assert(pairs_value(n.subrange(2, 2)) =~= Seq::<u8>::empty());
        assert(pairs_value(n) =~= seq![bytes[0]]) by {
            lemma_pair_value(bytes[0]);
        }
        assert(seq![bytes[0]] =~= bytes);
    } else {
        lemma_index_of(n, COLON, 0);
        assert(n[2] == COLON);
        lemma_groups_separated(bytes, n, 0);
        assert(n.subrange(0, n.len() as int) =~= n);
    }
}

proof fn lemma_pair_value(b: u8)
    ensures
        (hex_value(pair(b)[0]) * 16 + hex_value(pair(b)[1])) as u8 == b,
        is_hex_digit(pair(b)[0]) && is_hex_digit(pair(b)[1]),
        pair(b)[0] != COLON && pair(b)[1] != COLON && pair(b)[0] != HYPHEN && pair(b)[1] != HYPHEN,
        pair(b)[0] != DOT && pair(b)[1] != DOT,
        pairs_value(pair(b)) == seq![b],
{
    let hi = (b / 16) as nat;
    let lo = (b % 16) as nat;
    assert(hex_value(hex_digit(hi)) == hi);
    assert(hex_value(hex_digit(lo)) == lo);
    assert(hi * 16 + lo == b);
    assert(pair(b).subrange(2, 2) =~= Seq::<u8>::empty());
    assert(pairs_value(Seq::<u8>::empty()) =~= Seq::<u8>::empty());
    assert(pairs_value(pair(b)) =~= seq![b]);
}

proof fn lemma_no_dot(bytes: Seq<u8>)
    ensures
        index_of(notation_of(bytes), DOT, 0) == notation_of(bytes).len(),
{
    let n = notation_of(bytes);
    lemma_notation_digits(bytes);
    lemma_index_of(n, DOT, 0);
}

proof fn lemma_notation_digits(bytes: Seq<u8>)
    ensures
        forall|i: int| 0 <= i < notation_of(bytes).len() ==> #[trigger] notation_of(bytes)[i] != DOT && (notation_of(bytes)[i] == COLON || is_hex_digit(notation_of(bytes)[i])) && notation_of(bytes)[i] != HYPHEN,
        forall|i: int| 0 <= i < notation_of(bytes).len() ==> white_at(notation_of(bytes), i) == 0,
    decreases bytes.len(),
{
    if bytes.len() > 0 {
        lemma_pair_value(bytes[0]);
    }
    if bytes.len() > 1 {
        lemma_notation_digits(bytes.drop_first());
        let whole = notation_of(bytes);
        let rest = notation_of(bytes.drop_first());
        assert forall|i: int| 0 <= i < whole.len() implies #[trigger] whole[i] != DOT && (whole[i] == COLON || is_hex_digit(whole[i])) && whole[i] != HYPHEN by {
            if i >= 3 {
                assert(whole[i] == rest[i - 3]);
            }
        }
    }
}

proof fn lemma_no_white(n: Seq<u8>, bytes: Seq<u8>)
    requires
        n == notation_of(bytes),
        bytes.len() > 0,
    ensures
        trimmed(n) == n,
{
    lemma_notation_digits(bytes);
    assert(n.len() >= 2);
    assert(white_at(n, 0) == 0);
    assert(skip_white(n, 0) == 0);
    assert(white_at(n, n.len() - 1) == 0);
    assert(white_at(n, n.len() - 2) == 0);
    if n.len() >= 3 {
        assert(white_at(n, n.len() - 3) == 0);
    }
    assert(white_before(n, n.len() as int) == 0);
    assert(back_white(n, 0, n.len() as int) == n.len());
    assert(n.subrange(0, n.len() as int) =~= n);
}

/// The groups of a notation read from the group of octet `k` on.
proof fn lemma_groups_separated(bytes: Seq<u8>, n: Seq<u8>, k: int)
    requires
        bytes.len() > 1,
        n == notation_of(bytes),
        0 <= k < bytes.len(),
    ensures
        groups_from(n, Spelling::Separated, 2, 3 * k) == Some(bytes.subrange(k, bytes.len() as int)),
    decreases bytes.len() - k,
{
    lemma_notation_layout(bytes);
    lemma_pair_value(bytes[k]);
    let i = 3 * k;
    assert(n[i] == pair(bytes[k])[0]);
    assert(n[i + 1] == pair(bytes[k])[1]);
    if k + 1 < bytes.len() {
        assert(n[i + 2] == COLON);
        assert(group_end(n, Spelling::Separated, i + 2) == i + 2);
        assert(group_end(n, Spelling::Separated, i + 1) == i + 2);
        assert(group_end(n, Spelling::Separated, i) == i + 2);
        assert(n.subrange(i, i + 2) =~= pair(bytes[k]));
        lemma_groups_separated(bytes, n, k + 1);
        assert(seq![bytes[k]] + bytes.subrange(k + 1, bytes.len() as int) =~= bytes.subrange(k, bytes.len() as int));
    } else {
        assert(n.len() == i + 2);
        assert(group_end(n, Spelling::Separated, i + 2) == i + 2);
        assert(group_end(n, Spelling::Separated, i + 1) == i + 2);
        assert(group_end(n, Spelling::Separated, i) == i + 2);
        assert(n.subrange(i, i + 2) =~= pair(bytes[k]));
        assert(seq![bytes[k]] =~= bytes.subrange(k, bytes.len() as int));
    }
}

/// Where each octet's digits and each colon stand in a notation.
proof fn lemma_notation_layout(bytes: Seq<u8>)
    requires
        bytes.len() > 0,
    ensures
        notation_of(bytes).len() == 3 * bytes.len() - 1,
        forall|k: int| 0 <= k < bytes.len() ==> #[trigger] notation_of(bytes)[3 * k] == pair(bytes[k])[0] && notation_of(bytes)[3 * k + 1] == pair(bytes[k])[1],
        forall|k: int| 0 <= k < bytes.len() - 1 ==> #[trigger] notation_of(bytes)[3 * k + 2] == COLON,
    decreases bytes.len(),
{
    if bytes.len() > 1 {
        let rest = bytes.drop_first();
        lemma_notation_layout(rest);
        let whole = notation_of(bytes);
        let tail = notation_of(rest);
        assert forall|k: int| 0 <= k < bytes.len() implies #[trigger] whole[3 * k] == pair(bytes[k])[0] && whole[3 * k + 1] == pair(bytes[k])[1] by {
            if k > 0 {
                assert(whole[3 * k] == tail[3 * (k - 1)]);
                assert(whole[3 * k + 1] == tail[3 * (k - 1) + 1]);
                assert(rest[k - 1] == bytes[k]);
            }
        }
        assert forall|k: int| 0 <= k < bytes.len() - 1 implies #[trigger] whole[3 * k + 2] == COLON by {
            if k > 0 {
                assert(whole[3 * k + 2] == tail[3 * (k - 1) + 2]);
            }
        }
    }
}

} // verus!
