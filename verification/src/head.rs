//! A head as the line-oriented protocols write it — lines, then a blank
//! line: read bounded at [`MAX_HEADERS`] lines, each header found without
//! searching the first line, and a line's end taken off. HTTP reads with
//! it, and so do the protocols beside it that write lines the same way.

use vstd::prelude::*;
use vstd::utf8::*;

use crate::ascii::{
    cut, cuttable, find_from, index_of, lemma_cuttable_ascii, lemma_index_of, lemma_trim_cuttable,
    piece_of, same_letters, trim_bounds, trimmed, trim_start, trim_end,
};
use crate::text::{owned, utf8};
use crate::NetError;

verus! {

broadcast use encode_utf8_valid_utf8;

/// The most lines a head may have, its first line included.
pub const MAX_HEADERS: usize = 100;

/// A line feed.
pub const LF: u8 = 0x0a;

/// A carriage return.
pub const CR: u8 = 0x0d;

/// `line` without its end: a `\n`, and a `\r` before it.
pub open spec fn without_eol(line: Seq<u8>) -> Seq<u8> {
    if line.len() > 0 && line.last() == LF {
        let a = line.drop_last();
        if a.len() > 0 && a.last() == CR {
            a.drop_last()
        } else {
            a
        }
    } else {
        line
    }
}

/// Why a head is refused.
pub enum HeadRefusal {
    /// More lines than [`MAX_HEADERS`].
    TooLong,
    /// A line that is not UTF-8.
    NotText,
}

/// Where the line that starts at `i` of `s` ends, its line feed included.
pub open spec fn line_after(s: Seq<u8>, i: int) -> int {
    if index_of(s, LF, i) < s.len() {
        index_of(s, LF, i) + 1
    } else {
        s.len() as int
    }
}

/// The head that starts at `i` of `s`, `count` lines having been read:
/// its lines, each without its end, and where the blank line after them
/// ends — or the end of `s`, where no blank line comes.
pub open spec fn head_from(s: Seq<u8>, i: int, count: nat) -> Result<(Seq<Seq<u8>>, int), HeadRefusal>
    decreases s.len() - i,
{
    if i < 0 || i >= s.len() {
        Ok((seq![], s.len() as int))
    } else {
        let next = line_after(s, i);
        let line = without_eol(s.subrange(i, next));
        if line.len() == 0 {
            Ok((seq![], next))
        } else if count >= MAX_HEADERS {
            Err(HeadRefusal::TooLong)
        } else if !valid_utf8(line) {
            Err(HeadRefusal::NotText)
        } else {
            proof {
                lemma_index_of(s, LF, i);
            }
            match head_from(s, next, count + 1) {
                Ok((rest, end)) => Ok((seq![line] + rest, end)),
                Err(why) => Err(why),
            }
        }
    }
}

/// The head at the start of `s`.
pub open spec fn head_of(s: Seq<u8>) -> Result<(Seq<Seq<u8>>, int), HeadRefusal> {
    head_from(s, 0, 0)
}

/// The octets of each text of `lines`.
pub open spec fn octets_of(lines: Seq<String>) -> Seq<Seq<u8>> {
    Seq::new(lines.len(), |k: int| utf8(lines[k]@))
}

/// `line` without its end: a `\n`, and a `\r` before it.
pub fn trim_eol(line: &[u8]) -> (r: &[u8])
    ensures
        r@ == without_eol(line@),
{
    let mut end = line.len();
    if end > 0 && line[end - 1] == LF {
        end = end - 1;
        if end > 0 && line[end - 1] == CR {
            end = end - 1;
        }
    }
    let r = vstd::slice::slice_subrange(line, 0, end);
    proof {
        if line@.len() > 0 && line@.last() == LF {
            assert(line@.drop_last() =~= line@.subrange(0, line@.len() - 1));
            if line@.len() > 1 && line@[line@.len() - 2] == CR {
                assert(line@.drop_last().drop_last() =~= line@.subrange(0, line@.len() - 2));
            }
        } else {
            assert(line@.subrange(0, line@.len() as int) =~= line@);
        }
    }
    r
}

/// Read a head off the start of `input`: its lines, without their ends,
/// and how many octets it took, the blank line after it included.
///
/// # Errors
///
/// A head of more than [`MAX_HEADERS`] lines, or a line that is not UTF-8
/// text.
pub fn read_head(input: &[u8]) -> (r: Result<(Vec<String>, usize), NetError>)
    ensures
        match r {
            Ok((lines, used)) => head_of(input@) matches Ok((spec_lines, end)) && octets_of(lines@)
                == spec_lines && used == end,
            Err(e) => head_of(input@) matches Err(why) && e.message@ == head_message(why) && e.io
                is None,
        },
{
    read_head_at(input, 0)
}

/// What a refused head is reported with.
pub open spec fn head_message(why: HeadRefusal) -> Seq<char> {
    match why {
        HeadRefusal::TooLong => "a head of more than 100 lines"@,
        HeadRefusal::NotText => "a head line that is not UTF-8 text"@,
    }
}

/// Read the head that starts at `at` of `input`: its lines, without their
/// ends, and where it ends, the blank line after it included.
///
/// # Errors
///
/// A head of more than [`MAX_HEADERS`] lines, or a line that is not UTF-8
/// text.
pub fn read_head_at(input: &[u8], at: usize) -> (r: Result<(Vec<String>, usize), NetError>)
    requires
        at <= input@.len(),
    ensures
        match r {
            Ok((lines, end)) => head_from(input@, at as int, 0) matches Ok((spec_lines, spec_end))
                && octets_of(lines@) == spec_lines && end == spec_end,
            Err(e) => head_from(input@, at as int, 0) matches Err(why) && e.message@
                == head_message(why) && e.io is None,
        },
{
    let mut lines: Vec<String> = Vec::new();
    let mut i: usize = at;
    proof {
        assert(octets_of(lines@) =~= Seq::<Seq<u8>>::empty());
        match head_from(input@, at as int, 0) {
            Ok((rest, end)) => {
                assert(Seq::<Seq<u8>>::empty() + rest =~= rest);
            },
            Err(_) => {},
        }
    }
    loop
        invariant
            at <= i <= input@.len(),
            lines@.len() <= MAX_HEADERS,
            head_from(input@, at as int, 0) == match head_from(
                input@,
                i as int,
                lines@.len() as nat,
            ) {
                Ok((rest, end)) => Ok((octets_of(lines@) + rest, end)),
                Err(why) => Err(why),
            },
        decreases input.len() - i,
    {
        if i >= input.len() {
            proof {
                assert(octets_of(lines@) + Seq::<Seq<u8>>::empty() =~= octets_of(lines@));
            }
            return Ok((lines, input.len()));
        }
        let e = find_from(input, LF, i);
        proof {
            lemma_index_of(input@, LF, i as int);
        }
        let next = if e < input.len() {
            e + 1
        } else {
            input.len()
        };
        let raw = vstd::slice::slice_subrange(input, i, next);
        let line = trim_eol(raw);
        if line.len() == 0 {
            proof {
                assert(octets_of(lines@) + Seq::<Seq<u8>>::empty() =~= octets_of(lines@));
            }
            return Ok((lines, next));
        }
        if lines.len() >= MAX_HEADERS {
            return Err(NetError::new(owned("a head of more than 100 lines")));
        }
        let text = match crate::text::string_from_utf8(vstd::slice::slice_to_vec(line)) {
            Some(text) => text,
            None => {
                return Err(NetError::new(owned("a head line that is not UTF-8 text")));
            },
        };
        proof {
            let before = octets_of(lines@);
            let after = octets_of(lines@.push(text));
            assert(after =~= before.push(line@));
            match head_from(input@, next as int, lines@.len() + 1) {
                Ok((rest, end)) => {
                    assert(before + (seq![line@] + rest) =~= after + rest);
                },
                Err(_) => {},
            }
        }
        lines.push(text);
        i = next;
    }
}

/// Where the first colon of `line` is, or its length.
pub open spec fn colon_of(line: Seq<u8>) -> int {
    index_of(line, 0x3a, 0)
}

/// The name and the value a header line writes: trimmed, either side of
/// its first colon; `None` for a line without one.
pub open spec fn field_of(line: Seq<u8>) -> Option<(Seq<u8>, Seq<u8>)> {
    if colon_of(line) < line.len() {
        Some(
            (
                trimmed(line.subrange(0, colon_of(line))),
                trimmed(line.subrange(colon_of(line) + 1, line.len() as int)),
            ),
        )
    } else {
        None
    }
}

/// The first header line of `head` from `k` on that names `name`, however
/// it is capitalised.
pub open spec fn header_from(head: Seq<Seq<u8>>, name: Seq<u8>, k: int) -> Option<Seq<u8>>
    decreases head.len() - k,
{
    if k < 0 || k >= head.len() {
        None
    } else if field_of(head[k]) is Some && same_letters(field_of(head[k])->Some_0.0, name) {
        Some(field_of(head[k])->Some_0.1)
    } else {
        header_from(head, name, k + 1)
    }
}

/// The name and the value of a header line, trimmed, where it has a colon.
pub fn field(line: &str) -> (r: Option<(&str, &str)>)
    ensures
        match r {
            Some((n, v)) => field_of(utf8(line@)) == Some((utf8(n@), utf8(v@))),
            None => field_of(utf8(line@)) is None,
        },
{
    let bytes = line.as_bytes();
    let colon = find_from(bytes, 0x3a, 0);
    proof {
        lemma_index_of(bytes@, 0x3a, 0);
    }
    if colon >= bytes.len() {
        return None;
    }
    proof {
        lemma_cuttable_ascii(bytes@, colon as int);
    }
    let (name, _) = cut(line, colon);
    let (_, value) = cut(line, colon + 1);
    Some((crate::ascii::trim(name), crate::ascii::trim(value)))
}

/// One header's value, however the peer capitalised its name, from the
/// lines of `head` after the first, which is never searched.
pub fn header<'a>(head: &'a [String], name: &str) -> (r: Option<&'a str>)
    ensures
        match r {
            Some(v) => header_from(octets_of(head@), utf8(name@), 1) == Some(utf8(v@)),
            None => header_from(octets_of(head@), utf8(name@), 1) is None,
        },
{
    let mut k: usize = 1;
    while k < head.len()
        invariant
            1 <= k,
            header_from(octets_of(head@), utf8(name@), 1) == header_from(
                octets_of(head@),
                utf8(name@),
                k as int,
            ),
        decreases head.len() - k,
    {
        let line = head[k].as_str();
        proof {
            assert(octets_of(head@)[k as int] == utf8(line@));
        }
        if let Some((n, v)) = field(line) {
            if crate::ascii::eq_ignore_case(n.as_bytes(), name.as_bytes()) {
                return Some(v);
            }
        }
        k = k + 1;
    }
    None
}

/// A head read from `i` ends at or after `i`, and within the octets.
pub proof fn lemma_head_bounds(s: Seq<u8>, i: int, count: nat)
    requires
        0 <= i <= s.len(),
    ensures
        head_from(s, i, count) matches Ok((_, end)) ==> i <= end <= s.len(),
    decreases s.len() - i,
{
    if i < s.len() {
        lemma_index_of(s, LF, i);
        let next = line_after(s, i);
        lemma_head_bounds(s, next, count + 1);
    }
}

} // verus!
