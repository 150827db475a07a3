//! What the writer of a request writes, the reader reads back: the laws
//! that tie the two halves of HTTP/1.1 together.

use vstd::prelude::*;
use vstd::utf8::*;

use super::message::{crlf, field_line, field_lines, message_octets};
use super::{decoded_text, joined, pair_of, query_pairs, query_piece};
use crate::ascii::{
    back_white, index_of, lemma_index_of, lemma_trim_cuttable, skip_white, trim_end, trim_start,
    trimmed, white_at, white_before, word_end,
};
use crate::head::{colon_of, field_of, header_from, head_from, without_eol, CR, LF, MAX_HEADERS};
use super::body::body_of;
use super::response::Response;
use super::{
    asked_of, field_octets, fields_of_lines, found, request_first, target_of, Answer, Asked,
    AskedRefusal, Request, MAX_BODY,
};
use crate::ascii::{all_digits, decimal, lemma_decimal_ascii, lemma_decimal_value, same_letters};
use crate::text::utf8;
use crate::percent::{encoded, law_decode_undoes_encode, piece, text_of_octets, unreserved, upper_hex};

verus! {

broadcast use {encode_utf8_valid_utf8, valid_utf8_concat};

/// Lines, each followed by its end.
pub open spec fn lines_octets(lines: Seq<Seq<u8>>) -> Seq<u8>
    decreases lines.len(),
{
    if lines.len() == 0 {
        seq![]
    } else {
        lines[0] + crlf() + lines_octets(lines.drop_first())
    }
}

/// Whether `line` can stand as a line of a head: not empty, no line feed
/// in it, and text.
pub open spec fn head_line(line: Seq<u8>) -> bool {
    &&& line.len() > 0
    &&& forall|k: int| 0 <= k < line.len() ==> #[trigger] line[k] != LF
    &&& valid_utf8(line)
}

/// `b` first stands at `j` of `s` from `i` on where it stands there and
/// nowhere between.
pub proof fn lemma_index_at(s: Seq<u8>, b: u8, i: int, j: int)
    requires
        0 <= i <= j < s.len(),
        s[j] == b,
        forall|k: int| i <= k < j ==> s[k] != b,
    ensures
        index_of(s, b, i) == j,
    decreases j - i,
{
    if i < j {
        lemma_index_at(s, b, i + 1, j);
    }
}

/// Lines one after another are their lines, each followed by its end.
pub proof fn lemma_lines_concat(a: Seq<Seq<u8>>, b: Seq<Seq<u8>>)
    ensures
        lines_octets(a + b) == lines_octets(a) + lines_octets(b),
    decreases a.len(),
{
    if a.len() == 0 {
        assert(a + b =~= b);
    } else {
        assert((a + b).drop_first() =~= a.drop_first() + b);
        lemma_lines_concat(a.drop_first(), b);
    }
}

/// A head of `lines`, followed by the blank line, reads as those lines,
/// and ends after the blank line.
pub proof fn lemma_head_reads_lines(s: Seq<u8>, i: int, count: nat, lines: Seq<Seq<u8>>)
    requires
        0 <= i,
        i + lines_octets(lines).len() + 2 <= s.len(),
        s.subrange(i, i + lines_octets(lines).len() + 2) == lines_octets(lines) + crlf(),
        forall|k: int| 0 <= k < lines.len() ==> head_line(#[trigger] lines[k]),
        count + lines.len() <= MAX_HEADERS,
    ensures
        head_from(s, i, count) == Ok::<(Seq<Seq<u8>>, int), crate::head::HeadRefusal>(
            (lines, i + lines_octets(lines).len() + 2),
        ),
    decreases lines.len(),
{
    let total = lines_octets(lines).len();
    if lines.len() == 0 {
        assert(s[i] == CR);
        assert(s[i + 1] == LF);
        lemma_index_at(s, LF, i, i + 1);
        assert(s.subrange(i, i + 2) =~= seq![CR, LF]);
        assert(without_eol(s.subrange(i, i + 2)) =~= Seq::<u8>::empty());
        assert(crate::head::line_after(s, i) == i + 2);
        assert(head_from(s, i, count) == Ok::<(Seq<Seq<u8>>, int), crate::head::HeadRefusal>(
            (seq![], i + 2),
        ));
        assert(lines =~= Seq::<Seq<u8>>::empty());
    } else {
        let line = lines[0];
        let rest = lines.drop_first();
        let n = line.len() as int;
        assert(lines_octets(lines) == line + crlf() + lines_octets(rest));
        let whole = s.subrange(i, i + total + 2);
        assert forall|k: int| i <= k < i + n implies s[k] != LF by {
            assert(s[k] == whole[k - i]);
            assert(whole[k - i] == line[k - i]);
            assert(head_line(lines[0]));
        }
        assert(s[i + n] == whole[n]);
        assert(s[i + n + 1] == whole[n + 1]);
        assert(s[i + n] == CR);
        assert(s[i + n + 1] == LF);
        lemma_index_at(s, LF, i, i + n + 1);
        assert(s.subrange(i, i + n + 2) =~= line + crlf());
        assert((line + crlf()).drop_last() =~= line + seq![CR]);
        assert((line + seq![CR]).drop_last() =~= line);
        assert(without_eol(s.subrange(i, i + n + 2)) == line);
        assert(head_line(lines[0]));
        assert forall|k: int| 0 <= k < rest.len() implies head_line(#[trigger] rest[k]) by {
            assert(rest[k] == lines[k + 1]);
        }
        let tail = lines_octets(rest) + crlf();
        assert(whole =~= line + crlf() + tail);
        assert forall|k: int| 0 <= k < tail.len() implies #[trigger] s.subrange(
            i + n + 2,
            i + n + 2 + tail.len(),
        )[k] == tail[k] by {
            assert(s[i + n + 2 + k] == whole[n + 2 + k]);
        }
        assert(s.subrange(i + n + 2, i + n + 2 + lines_octets(rest).len() + 2) =~= tail);
        lemma_head_reads_lines(s, i + n + 2, count + 1, rest);
        assert(crate::head::line_after(s, i) == i + n + 2);
        assert(seq![line] + rest =~= lines);
        assert(i + n + 2 + lines_octets(rest).len() + 2 == i + total + 2);
    }
}

/// Whether percent-encoding writes `b`: an unreserved byte, `%`, or an
/// upper-case hex digit.
pub open spec fn encoding_byte(b: u8) -> bool {
    (0x30 <= b <= 0x39) || (0x41 <= b <= 0x5a) || (0x61 <= b <= 0x7a) || b == 0x2d || b == 0x5f
        || b == 0x2e || b == 0x7e || b == 0x25
}

/// Percent-encoding writes nothing but such bytes.
pub proof fn lemma_encoded_bytes(text: Seq<u8>)
    ensures
        forall|i: int| 0 <= i < encoded(text, false).len() ==> encoding_byte(#[trigger] encoded(text, false)[i]),
    decreases text.len(),
{
    if text.len() > 0 {
        lemma_encoded_bytes(text.drop_first());
        let p = piece(text[0], false);
        let rest = encoded(text.drop_first(), false);
        assert(encoded(text, false) == p + rest);
        assert forall|i: int| 0 <= i < p.len() implies encoding_byte(#[trigger] p[i]) by {
            if !unreserved(text[0], false) {
                let hi = (text[0] / 16) as nat;
                let lo = (text[0] % 16) as nat;
                assert(hi < 16 && lo < 16);
                assert(encoding_byte(upper_hex(hi)));
                assert(encoding_byte(upper_hex(lo)));
            }
        }
        assert forall|i: int| 0 <= i < (p + rest).len() implies encoding_byte(#[trigger] (p + rest)[i]) by {
            if i >= p.len() {
                assert((p + rest)[i] == rest[i - p.len()]);
            } else {
                assert((p + rest)[i] == p[i]);
            }
        }
    }
}

/// Where `b` first stands from `p.len() + i` on in `p + s` is where it
/// stands from `i` on in `s`, moved by `p`.
pub proof fn lemma_index_shift(p: Seq<u8>, s: Seq<u8>, b: u8, i: int)
    requires
        0 <= i,
    ensures
        index_of(p + s, b, p.len() + i) == p.len() + index_of(s, b, i),
    decreases s.len() - i,
{
    if i < s.len() {
        assert((p + s)[p.len() + i] == s[i]);
        if s[i] != b {
            lemma_index_shift(p, s, b, i + 1);
        }
    }
}

/// The query read from `p.len() + i` on in `p + s` is the one read from
/// `i` on in `s`.
pub proof fn lemma_pairs_shift(p: Seq<u8>, s: Seq<u8>, i: int)
    requires
        0 <= i,
    ensures
        query_pairs(p + s, p.len() + i) == query_pairs(s, i),
    decreases s.len() - i,
{
    if i < s.len() {
        lemma_index_shift(p, s, 0x26, i);
        lemma_index_of(s, 0x26, i);
        let end = index_of(s, 0x26, i);
        assert((p + s).subrange(p.len() + i, p.len() + end) =~= s.subrange(i, end));
        if end < s.len() {
            lemma_pairs_shift(p, s, end + 1);
        }
    }
}

/// A query of texts, written as their octets, reads back as those texts.
pub proof fn lemma_query_texts(query: Seq<(String, String)>)
    ensures
        read_query(field_octets(query)) == super::field_texts(query),
{
    let q = field_octets(query);
    assert forall|k: int| 0 <= k < q.len() implies read_query(q)[k] == super::field_texts(query)[k] by {
        encode_utf8_valid_utf8(query[k].0@);
        encode_utf8_decode_utf8(query[k].0@);
        encode_utf8_valid_utf8(query[k].1@);
        encode_utf8_decode_utf8(query[k].1@);
    }
    assert(read_query(q) =~= super::field_texts(query));
}

/// The query as it reads back: each name and value as the octets it was
/// written from decode.
pub open spec fn read_query(q: Seq<(Seq<u8>, Seq<u8>)>) -> Seq<(Seq<char>, Seq<char>)> {
    Seq::new(q.len(), |k: int| (text_of_octets(q[k].0), text_of_octets(q[k].1)))
}

/// Neither `&` nor `=` stands in what percent-encoding writes.
proof fn lemma_no_separator(text: Seq<u8>, b: u8)
    requires
        b == 0x26 || b == 0x3d || b == 0x3f,
    ensures
        index_of(encoded(text, false), b, 0) == encoded(text, false).len(),
        forall|i: int| 0 <= i < encoded(text, false).len() ==> encoded(text, false)[i] != b,
{
    lemma_encoded_bytes(text);
    let e = encoded(text, false);
    assert forall|i: int| 0 <= i < e.len() implies e[i] != b by {
        assert(encoding_byte(e[i]));
    }
    lemma_index_of(e, b, 0);
    if index_of(e, b, 0) < e.len() {
        assert(e[index_of(e, b, 0)] == b);
    }
}

/// One parameter reads back as its name and value.
proof fn lemma_piece_reads_back(field: (Seq<u8>, Seq<u8>))
    ensures
        pair_of(query_piece(field)) == (text_of_octets(field.0), text_of_octets(field.1)),
        query_piece(field).len() > 0,
        forall|i: int| 0 <= i < query_piece(field).len() ==> #[trigger] query_piece(field)[i] != 0x26u8,
{
    let n = encoded(field.0, false);
    let v = encoded(field.1, false);
    let piece = query_piece(field);
    lemma_no_separator(field.0, 0x3d);
    lemma_no_separator(field.0, 0x26);
    lemma_no_separator(field.1, 0x26);
    assert(piece == n + seq![0x3du8] + v);
    assert(piece[n.len() as int] == 0x3d);
    lemma_index_at(piece, 0x3d, 0, n.len() as int);
    assert(piece.subrange(0, n.len() as int) =~= n);
    assert(piece.subrange(n.len() as int + 1, piece.len() as int) =~= v);
    law_decode_undoes_encode(field.0, false, false);
    law_decode_undoes_encode(field.1, false, false);
    assert forall|i: int| 0 <= i < piece.len() implies #[trigger] piece[i] != 0x26u8 by {
        if i < n.len() {
            assert(piece[i] == n[i]);
        } else if i > n.len() {
            assert(piece[i] == v[i - n.len() - 1]);
        }
    }
}

/// A query joined as the target carries it reads back parameter by
/// parameter.
pub proof fn lemma_query_reads_back(q: Seq<(Seq<u8>, Seq<u8>)>)
    ensures
        query_pairs(joined(q), 0) == read_query(q),
        forall|i: int| 0 <= i < joined(q).len() ==> encoding_byte(#[trigger] joined(q)[i]) || joined(q)[i] == 0x3d || joined(q)[i] == 0x26,
    decreases q.len(),
{
    if q.len() == 0 {
        assert(read_query(q) =~= Seq::<(Seq<char>, Seq<char>)>::empty());
    } else {
        let piece = query_piece(q[0]);
        lemma_piece_reads_back(q[0]);
        lemma_encoded_bytes(q[0].0);
        lemma_encoded_bytes(q[0].1);
        let n = encoded(q[0].0, false);
        let v = encoded(q[0].1, false);
        assert forall|i: int| 0 <= i < piece.len() implies encoding_byte(#[trigger] piece[i]) || piece[i] == 0x3d by {
            if i < n.len() {
                assert(piece[i] == n[i]);
            } else if i > n.len() {
                assert(piece[i] == v[i - n.len() - 1]);
            }
        }
        if q.len() == 1 {
            let j = joined(q);
            assert(j == piece);
            lemma_index_of(j, 0x26, 0);
            if index_of(j, 0x26, 0) < j.len() {
                assert(j[index_of(j, 0x26, 0)] == 0x26);
            }
            assert(j.subrange(0, j.len() as int) =~= j);
            assert(read_query(q) =~= seq![(text_of_octets(q[0].0), text_of_octets(q[0].1))]);
        } else {
            let rest = q.drop_first();
            lemma_query_reads_back(rest);
            let j = joined(q);
            let p = piece + seq![0x26u8];
            assert(j == p + joined(rest));
            assert(j[piece.len() as int] == 0x26);
            assert forall|k: int| 0 <= k < piece.len() implies j[k] != 0x26u8 by {
                assert(j[k] == piece[k]);
            }
            lemma_index_at(j, 0x26, 0, piece.len() as int);
            assert(j.subrange(0, piece.len() as int) =~= piece);
            lemma_pairs_shift(p, joined(rest), 0);
            assert(read_query(q) =~= seq![(text_of_octets(q[0].0), text_of_octets(q[0].1))] + read_query(rest));
            assert forall|i: int| 0 <= i < j.len() implies encoding_byte(#[trigger] j[i]) || j[i] == 0x3d || j[i] == 0x26 by {
                if i < piece.len() {
                    assert(j[i] == piece[i]);
                } else if i > piece.len() {
                    assert(j[i] == joined(rest)[i - piece.len() - 1]);
                }
            }
        }
    }
}

/// A byte that is neither white space nor a control: what a method and a
/// path are written with.
pub open spec fn visible(b: u8) -> bool {
    0x21 <= b <= 0x7e
}

/// Whether every byte of `s` is visible.
pub open spec fn all_visible(s: Seq<u8>) -> bool {
    forall|i: int| 0 <= i < s.len() ==> visible(#[trigger] s[i])
}

/// What is white space from `p.len() + i` on in `p + v` is what is from
/// `i` on in `v`: only what follows is looked at.
pub proof fn lemma_white_shift(p: Seq<u8>, v: Seq<u8>, i: int)
    requires
        0 <= i,
    ensures
        white_at(p + v, p.len() + i) == white_at(v, i),
{
    let s = p + v;
    let j = p.len() + i;
    if i < v.len() {
        assert(s[j] == v[i]);
    }
    if i + 1 < v.len() {
        assert(s[j + 1] == v[i + 1]);
    }
    if i + 2 < v.len() {
        assert(s[j + 2] == v[i + 2]);
    }
}

/// White space is passed over in `p + v` from `p.len() + i` as in `v`
/// from `i`.
pub proof fn lemma_skip_shift(p: Seq<u8>, v: Seq<u8>, i: int)
    requires
        0 <= i,
    ensures
        skip_white(p + v, p.len() + i) == p.len() + skip_white(v, i),
    decreases v.len() - i,
{
    lemma_white_shift(p, v, i);
    if i < v.len() && white_at(v, i) > 0 {
        lemma_skip_shift(p, v, i + white_at(v, i));
    }
}

/// Behind a space, what ends a text is found as in the text itself.
proof fn lemma_back_shift(v: Seq<u8>, j: int)
    requires
        0 <= j <= v.len(),
    ensures
        back_white(seq![0x20u8] + v, 1, 1 + j) == 1 + back_white(v, 0, j),
    decreases j,
{
    let s = seq![0x20u8] + v;
    if j >= 1 {
        lemma_white_shift(seq![0x20u8], v, j - 1);
        if j >= 2 {
            lemma_white_shift(seq![0x20u8], v, j - 2);
        } else {
            assert(white_at(s, 0) == 1);
        }
        if j >= 3 {
            lemma_white_shift(seq![0x20u8], v, j - 3);
        } else if j == 2 {
            assert(white_at(s, 0) == 1);
        }
        assert(white_before(s, 1 + j) == white_before(v, j));
        if white_before(v, j) > 0 && j - white_before(v, j) >= 0 {
            lemma_back_shift(v, j - white_before(v, j));
        }
    }
}

/// A text without white space at its ends still has none behind a space.
pub proof fn lemma_space_trimmed(v: Seq<u8>)
    requires
        valid_utf8(v),
        trimmed(v) == v,
    ensures
        trimmed(seq![0x20u8] + v) == v,
{
    lemma_trim_cuttable(v);
    assert(trim_start(v) == 0 && trim_end(v) == v.len());
    let s = seq![0x20u8] + v;
    assert(white_at(s, 0) == 1);
    lemma_skip_shift(seq![0x20u8], v, 0);
    assert(trim_start(s) == 1);
    lemma_back_shift(v, v.len() as int);
    assert(trim_end(s) == 1 + v.len());
    assert(s.subrange(1, 1 + v.len() as int) =~= v);
}

/// Visible bytes are no white space.
pub proof fn lemma_visible_not_white(s: Seq<u8>, i: int)
    requires
        0 <= i < s.len(),
        visible(s[i]),
    ensures
        white_at(s, i) == 0,
{
}

/// A text of visible bytes has no white space at its ends.
pub proof fn lemma_visible_trimmed(s: Seq<u8>)
    requires
        all_visible(s),
    ensures
        trimmed(s) == s,
{
    if s.len() > 0 {
        lemma_visible_not_white(s, 0);
        let n = s.len() as int;
        lemma_visible_not_white(s, n - 1);
        if n >= 2 {
            lemma_visible_not_white(s, n - 2);
        }
        if n >= 3 {
            lemma_visible_not_white(s, n - 3);
        }
        assert(white_before(s, n) == 0);
    }
    assert(s.subrange(trim_start(s), trim_end(s)) =~= s);
}

/// A word ends at the first white space.
pub proof fn lemma_word_ends(s: Seq<u8>, i: int, j: int)
    requires
        0 <= i <= j < s.len(),
        forall|k: int| i <= k < j ==> white_at(s, k) == 0,
        white_at(s, j) > 0,
    ensures
        word_end(s, i) == j,
    decreases j - i,
{
    if i < j {
        lemma_word_ends(s, i + 1, j);
    }
}

/// A field as its line writes it, without the line's end.
pub open spec fn field_text(field: (Seq<u8>, Seq<u8>)) -> Seq<u8> {
    field.0 + seq![0x3au8, 0x20u8] + field.1
}

/// The fields as the lines they are written on.
pub open spec fn texts_of(fields: Seq<(Seq<u8>, Seq<u8>)>) -> Seq<Seq<u8>> {
    Seq::new(fields.len(), |k: int| field_text(fields[k]))
}

/// Whether a field reads back from its line: a name without a colon,
/// neither name nor value with a line feed or white space at its ends.
pub open spec fn plain_field(field: (Seq<u8>, Seq<u8>)) -> bool {
    &&& forall|k: int| 0 <= k < field.0.len() ==> #[trigger] field.0[k] != 0x3a && field.0[k] != LF
    &&& forall|k: int| 0 <= k < field.1.len() ==> #[trigger] field.1[k] != LF
    &&& trimmed(field.0) == field.0
    &&& trimmed(field.1) == field.1
    &&& valid_utf8(field.0)
    &&& valid_utf8(field.1)
}

/// A field's line reads back as the field.
pub proof fn lemma_field_reads_back(field: (Seq<u8>, Seq<u8>))
    requires
        plain_field(field),
    ensures
        field_of(field_text(field)) == Some(field),
        head_line(field_text(field)),
{
    let (name, value) = field;
    let line = field_text(field);
    assert(line[name.len() as int] == 0x3a);
    assert forall|k: int| 0 <= k < name.len() implies line[k] != 0x3a by {
        assert(line[k] == name[k]);
    }
    lemma_index_at(line, 0x3a, 0, name.len() as int);
    assert(colon_of(line) == name.len());
    assert(line.subrange(0, name.len() as int) =~= name);
    assert(line.subrange(name.len() as int + 1, line.len() as int) =~= seq![0x20u8] + value);
    lemma_space_trimmed(value);
    assert forall|k: int| 0 <= k < line.len() implies #[trigger] line[k] != LF by {
        if k < name.len() {
            assert(line[k] == name[k]);
        } else if k >= name.len() + 2 {
            assert(line[k] == value[k - name.len() - 2]);
        }
    }
    crate::ascii::lemma_ascii_valid(seq![0x3au8, 0x20u8]);
    valid_utf8_concat(name, seq![0x3au8, 0x20u8]);
    valid_utf8_concat(name + seq![0x3au8, 0x20u8], value);
}

/// The fields' lines, each with its end, are what the writer writes.
pub proof fn lemma_field_lines(fields: Seq<(Seq<u8>, Seq<u8>)>)
    ensures
        field_lines(fields) == lines_octets(texts_of(fields)),
    decreases fields.len(),
{
    if fields.len() > 0 {
        let front = fields.drop_last();
        lemma_field_lines(front);
        assert(texts_of(fields) =~= texts_of(front) + seq![field_text(fields.last())]);
        lemma_lines_concat(texts_of(front), seq![field_text(fields.last())]);
        let one = seq![field_text(fields.last())];
        assert(one.drop_first() =~= Seq::<Seq<u8>>::empty());
        assert(lines_octets(one.drop_first()) == Seq::<u8>::empty());
        assert(lines_octets(one) == one[0] + crlf() + lines_octets(one.drop_first()));
        assert(lines_octets(one) =~= field_text(fields.last()) + crlf());
        assert(field_line(fields.last()) =~= field_text(fields.last()) + crlf());
    } else {
        assert(texts_of(fields) =~= Seq::<Seq<u8>>::empty());
    }
}

/// Lines read as fields one after another are the fields of each.
pub proof fn lemma_fields_concat(a: Seq<Seq<u8>>, b: Seq<Seq<u8>>)
    ensures
        fields_of_lines(a + b) == fields_of_lines(a) + fields_of_lines(b),
    decreases a.len(),
{
    if a.len() == 0 {
        assert(a + b =~= b);
    } else {
        assert((a + b).drop_first() =~= a.drop_first() + b);
        assert((a + b)[0] == a[0]);
        lemma_fields_concat(a.drop_first(), b);
    }
}

/// Plain fields read back from their lines.
pub proof fn lemma_texts_read_back(fields: Seq<(Seq<u8>, Seq<u8>)>)
    requires
        forall|k: int| 0 <= k < fields.len() ==> plain_field(#[trigger] fields[k]),
    ensures
        fields_of_lines(texts_of(fields)) == fields,
        forall|k: int| 0 <= k < fields.len() ==> head_line(#[trigger] texts_of(fields)[k]),
    decreases fields.len(),
{
    if fields.len() > 0 {
        let rest = fields.drop_first();
        assert forall|k: int| 0 <= k < rest.len() implies plain_field(#[trigger] rest[k]) by {
            assert(rest[k] == fields[k + 1]);
        }
        lemma_texts_read_back(rest);
        lemma_field_reads_back(fields[0]);
        assert(texts_of(fields).drop_first() =~= texts_of(rest));
        assert(seq![fields[0]] + rest =~= fields);
        assert forall|k: int| 0 <= k < fields.len() implies head_line(#[trigger] texts_of(fields)[k]) by {
            lemma_field_reads_back(fields[k]);
        }
    } else {
        assert(texts_of(fields) =~= Seq::<Seq<u8>>::empty());
    }
}

/// A header is looked for past lines that do not name it.
pub proof fn lemma_header_skips(head: Seq<Seq<u8>>, name: Seq<u8>, k: int, m: int)
    requires
        0 <= k <= m,
        forall|j: int|
            k <= j < m && j < head.len() ==> (#[trigger] field_of(head[j])) is None || !crate::ascii::same_letters(
                field_of(head[j])->Some_0.0,
                name,
            ),
    ensures
        header_from(head, name, k) == header_from(head, name, m),
    decreases m - k,
{
    if k < m && k < head.len() {
        lemma_header_skips(head, name, k + 1, m);
    }
}

/// The octets that end a request line.
proof fn lemma_line_literal()
    ensures
        utf8(" HTTP/1.1"@) == seq![0x20u8, 0x48, 0x54, 0x54, 0x50, 0x2f, 0x31, 0x2e, 0x31],
{
    reveal_strlit(" HTTP/1.1");
    crate::ascii::lemma_ascii_text(" HTTP/1.1"@);
    assert(utf8(" HTTP/1.1"@) =~= seq![0x20u8, 0x48, 0x54, 0x54, 0x50, 0x2f, 0x31, 0x2e, 0x31]);
}

/// The octets of the names and values the writer frames a message with,
/// and the reader looks for.
proof fn lemma_name_literals()
    ensures
        utf8("Content-Length"@) == seq![0x43u8, 0x6f, 0x6e, 0x74, 0x65, 0x6e, 0x74, 0x2d, 0x4c, 0x65, 0x6e, 0x67, 0x74, 0x68],
        utf8("content-length"@) == seq![0x63u8, 0x6f, 0x6e, 0x74, 0x65, 0x6e, 0x74, 0x2d, 0x6c, 0x65, 0x6e, 0x67, 0x74, 0x68],
        utf8("transfer-encoding"@) == seq![0x74u8, 0x72, 0x61, 0x6e, 0x73, 0x66, 0x65, 0x72, 0x2d, 0x65, 0x6e, 0x63, 0x6f, 0x64, 0x69, 0x6e, 0x67],
        utf8("Transfer-Encoding"@) == seq![0x54u8, 0x72, 0x61, 0x6e, 0x73, 0x66, 0x65, 0x72, 0x2d, 0x45, 0x6e, 0x63, 0x6f, 0x64, 0x69, 0x6e, 0x67],
        utf8("chunked"@) == seq![0x63u8, 0x68, 0x75, 0x6e, 0x6b, 0x65, 0x64],
        utf8("Connection"@) == seq![0x43u8, 0x6f, 0x6e, 0x6e, 0x65, 0x63, 0x74, 0x69, 0x6f, 0x6e],
        utf8("close"@) == seq![0x63u8, 0x6c, 0x6f, 0x73, 0x65],
{
    reveal_strlit("Content-Length");
    crate::ascii::lemma_ascii_text("Content-Length"@);
    assert(utf8("Content-Length"@) =~= seq![0x43u8, 0x6f, 0x6e, 0x74, 0x65, 0x6e, 0x74, 0x2d, 0x4c, 0x65, 0x6e, 0x67, 0x74, 0x68]);
    reveal_strlit("content-length");
    crate::ascii::lemma_ascii_text("content-length"@);
    assert(utf8("content-length"@) =~= seq![0x63u8, 0x6f, 0x6e, 0x74, 0x65, 0x6e, 0x74, 0x2d, 0x6c, 0x65, 0x6e, 0x67, 0x74, 0x68]);
    reveal_strlit("transfer-encoding");
    crate::ascii::lemma_ascii_text("transfer-encoding"@);
    assert(utf8("transfer-encoding"@) =~= seq![0x74u8, 0x72, 0x61, 0x6e, 0x73, 0x66, 0x65, 0x72, 0x2d, 0x65, 0x6e, 0x63, 0x6f, 0x64, 0x69, 0x6e, 0x67]);
    reveal_strlit("Transfer-Encoding");
    crate::ascii::lemma_ascii_text("Transfer-Encoding"@);
    assert(utf8("Transfer-Encoding"@) =~= seq![0x54u8, 0x72, 0x61, 0x6e, 0x73, 0x66, 0x65, 0x72, 0x2d, 0x45, 0x6e, 0x63, 0x6f, 0x64, 0x69, 0x6e, 0x67]);
    reveal_strlit("chunked");
    crate::ascii::lemma_ascii_text("chunked"@);
    assert(utf8("chunked"@) =~= seq![0x63u8, 0x68, 0x75, 0x6e, 0x6b, 0x65, 0x64]);
    reveal_strlit("Connection");
    crate::ascii::lemma_ascii_text("Connection"@);
    assert(utf8("Connection"@) =~= seq![0x43u8, 0x6f, 0x6e, 0x6e, 0x65, 0x63, 0x74, 0x69, 0x6f, 0x6e]);
    reveal_strlit("close");
    crate::ascii::lemma_ascii_text("close"@);
    assert(utf8("close"@) =~= seq![0x63u8, 0x6c, 0x6f, 0x73, 0x65]);
}

/// The octets of the last chunk.
proof fn lemma_chunk_literal()
    ensures
        utf8("0\r\n"@) == seq![0x30u8, 0x0d, 0x0a],
{
    reveal_strlit("0\r\n");
    crate::ascii::lemma_ascii_text("0\r\n"@);
    assert(utf8("0\r\n"@) =~= seq![0x30u8, 0x0d, 0x0a]);
}

/// The octets that open a status line.
proof fn lemma_status_literals()
    ensures
        utf8("HTTP/1.1 "@) == seq![0x48u8, 0x54, 0x54, 0x50, 0x2f, 0x31, 0x2e, 0x31, 0x20],
        utf8("HTTP/1."@) == seq![0x48u8, 0x54, 0x54, 0x50, 0x2f, 0x31, 0x2e],
{
    reveal_strlit("HTTP/1.1 ");
    crate::ascii::lemma_ascii_text("HTTP/1.1 "@);
    assert(utf8("HTTP/1.1 "@) =~= seq![0x48u8, 0x54, 0x54, 0x50, 0x2f, 0x31, 0x2e, 0x31, 0x20]);
    reveal_strlit("HTTP/1.");
    crate::ascii::lemma_ascii_text("HTTP/1."@);
    assert(utf8("HTTP/1."@) =~= seq![0x48u8, 0x54, 0x54, 0x50, 0x2f, 0x31, 0x2e]);
}

/// The framing lines the writer writes, as the fields they are.
proof fn lemma_framing_literals()
    ensures
        utf8("Content-Length: "@) == utf8("Content-Length"@) + seq![0x3au8, 0x20u8],
        utf8("Connection: close\r\n"@) == field_text((utf8("Connection"@), utf8("close"@))) + crlf(),
        utf8("Transfer-Encoding: chunked\r\n"@) == field_text((utf8("Transfer-Encoding"@), utf8("chunked"@))) + crlf(),
{
    lemma_name_literals();
    reveal_strlit("Content-Length: ");
    reveal_strlit("Connection: close\r\n");
    reveal_strlit("Transfer-Encoding: chunked\r\n");
    crate::ascii::lemma_ascii_text("Content-Length: "@);
    crate::ascii::lemma_ascii_text("Connection: close\r\n"@);
    crate::ascii::lemma_ascii_text("Transfer-Encoding: chunked\r\n"@);
    assert(utf8("Content-Length: "@) =~= utf8("Content-Length"@) + seq![0x3au8, 0x20u8]);
    assert(utf8("Connection: close\r\n"@) =~= field_text((utf8("Connection"@), utf8("close"@))) + crlf());
    assert(utf8("Transfer-Encoding: chunked\r\n"@) =~= field_text((utf8("Transfer-Encoding"@), utf8("chunked"@))) + crlf());
}

/// A request line of a visible method and a visible target reads back as
/// the two.
proof fn lemma_first_line(m: Seq<u8>, t: Seq<u8>)
    requires
        m.len() > 0,
        all_visible(m),
        t.len() > 0,
        all_visible(t),
    ensures
        super::request_line(m + seq![0x20u8] + t + utf8(" HTTP/1.1"@)) == Some((m, t)),
        head_line(m + seq![0x20u8] + t + utf8(" HTTP/1.1"@)),
{
    lemma_line_literal();
    let tail = utf8(" HTTP/1.1"@);
    let first = m + seq![0x20u8] + t + tail;
    let a = m.len() as int;
    let b = a + 1 + t.len();
    assert forall|k: int| 0 <= k < a implies white_at(first, k) == 0 by {
        assert(first[k] == m[k]);
        lemma_visible_not_white(first, k);
    }
    assert forall|k: int| a + 1 <= k < b implies white_at(first, k) == 0 by {
        assert(first[k] == t[k - a - 1]);
        lemma_visible_not_white(first, k);
    }
    assert(first[a] == 0x20);
    assert(white_at(first, a) == 1);
    assert(first[b] == 0x20);
    assert(white_at(first, b) == 1);
    assert(white_at(first, 0) == 0);
    assert(skip_white(first, 0) == 0);
    lemma_word_ends(first, 0, a);
    assert(white_at(first, a + 1) == 0);
    assert(skip_white(first, a + 1) == a + 1);
    assert(skip_white(first, a) == a + 1);
    lemma_word_ends(first, a + 1, b);
    assert(first.subrange(0, a) =~= m);
    assert(first.subrange(a + 1, b) =~= t);
    assert forall|k: int| 0 <= k < first.len() implies #[trigger] first[k] < 0x80 && first[k] != LF by {
        if k < a {
            assert(first[k] == m[k]);
            assert(visible(m[k]));
        } else if a < k < b {
            assert(first[k] == t[k - a - 1]);
            assert(visible(t[k - a - 1]));
        } else if k > b {
            assert(first[k] == tail[k - b]);
        }
    }
    crate::ascii::lemma_ascii_valid(first);
}

/// A target written from a path without `?` and a query splits back into
/// that path and the query's pairs as they decode.
pub proof fn lemma_target_parts(path: Seq<u8>, q: Seq<(Seq<u8>, Seq<u8>)>)
    requires
        forall|k: int| 0 <= k < path.len() ==> #[trigger] path[k] != 0x3f,
    ensures
        super::target_parts(super::target_of(path, q)).0 == path,
        query_pairs(super::target_parts(super::target_of(path, q)).1, 0) == read_query(q),
{
    let t = super::target_of(path, q);
    if q.len() == 0 {
        lemma_index_of(path, 0x3f, 0);
        if index_of(path, 0x3f, 0) < path.len() {
            assert(path[index_of(path, 0x3f, 0)] == 0x3f);
        }
        assert(read_query(q) =~= Seq::<(Seq<char>, Seq<char>)>::empty());
    } else {
        lemma_query_reads_back(q);
        let j = joined(q);
        assert(t == path + seq![0x3fu8] + j);
        assert(t[path.len() as int] == 0x3f);
        assert forall|k: int| 0 <= k < path.len() implies t[k] != 0x3fu8 by {
            assert(t[k] == path[k]);
        }
        lemma_index_at(t, 0x3f, 0, path.len() as int);
        assert(t.subrange(0, path.len() as int) =~= path);
        assert(t.subrange(path.len() as int + 1, t.len() as int) =~= j);
    }
}

/// A target written from a visible path without `?` and a query is
/// visible, not empty, and splits back into them.
proof fn lemma_target(path: Seq<u8>, q: Seq<(Seq<u8>, Seq<u8>)>)
    requires
        all_visible(path),
        forall|k: int| 0 <= k < path.len() ==> #[trigger] path[k] != 0x3f,
        path.len() > 0 || q.len() > 0,
    ensures
        super::target_of(path, q).len() > 0,
        all_visible(super::target_of(path, q)),
        super::target_parts(super::target_of(path, q)).0 == path,
        query_pairs(super::target_parts(super::target_of(path, q)).1, 0) == read_query(q),
{
    lemma_target_parts(path, q);
    let t = super::target_of(path, q);
    if q.len() > 0 {
        lemma_query_reads_back(q);
        let j = joined(q);
        assert(t == path + seq![0x3fu8] + j);
        assert forall|k: int| 0 <= k < t.len() implies visible(#[trigger] t[k]) by {
            if k < path.len() {
                assert(t[k] == path[k]);
            } else if k > path.len() {
                assert(t[k] == j[k - path.len() - 1]);
                assert(encoding_byte(j[k - path.len() - 1]) || j[k - path.len() - 1] == 0x3d || j[k
                    - path.len() - 1] == 0x26);
            }
        }
    }
}

/// A plain field among `fields` reads back from its line.
proof fn lemma_field_reads_back_at(fields: Seq<(Seq<u8>, Seq<u8>)>, k: int)
    requires
        0 <= k < fields.len(),
        fields_of_lines(texts_of(fields)) == fields,
        forall|j: int| 0 <= j < texts_of(fields).len() ==> head_line(#[trigger] texts_of(fields)[j]),
    ensures
        field_of(texts_of(fields)[k]) == Some(fields[k]),
    decreases fields.len(),
{
    let texts = texts_of(fields);
    if field_of(texts[0]) is None {
        assert(field_text(fields[0]).len() > fields[0].0.len());
        assert(texts[0][fields[0].0.len() as int] == 0x3a);
        lemma_index_of(texts[0], 0x3a, 0);
    }
    if k > 0 {
        let rest = fields.drop_first();
        assert(texts.drop_first() =~= texts_of(rest));
        assert(fields_of_lines(texts) == seq![field_of(texts[0])->Some_0] + fields_of_lines(texts_of(rest)));
        assert(fields_of_lines(texts_of(rest)) =~= rest) by {
            assert(fields =~= seq![fields[0]] + rest);
        }
        assert forall|j: int| 0 <= j < texts_of(rest).len() implies head_line(#[trigger] texts_of(rest)[j]) by {
            assert(texts_of(rest)[j] == texts[j + 1]);
        }
        lemma_field_reads_back_at(rest, k - 1);
        assert(texts_of(rest)[k - 1] == texts[k]);
    } else {
        assert(fields_of_lines(texts)[0] == field_of(texts[0])->Some_0);
    }
}

/// Whether a message's own headers read back from their lines and leave
/// its framing to the writer: none names the length or the transfer
/// coding.
pub open spec fn plain_headers(headers: Seq<(Seq<u8>, Seq<u8>)>) -> bool {
    &&& forall|k: int| 0 <= k < headers.len() ==> plain_field(#[trigger] headers[k])
    &&& forall|k: int|
        0 <= k < headers.len() ==> !same_letters(#[trigger] headers[k].0, utf8("content-length"@))
            && !same_letters(headers[k].0, utf8("transfer-encoding"@))
}

/// The close the writer adds where the headers name no `Connection`.
pub open spec fn closing(headers: Seq<(Seq<u8>, Seq<u8>)>) -> Seq<(Seq<u8>, Seq<u8>)> {
    if found(headers, utf8("connection"@)) is None {
        seq![(utf8("Connection"@), utf8("close"@))]
    } else {
        seq![]
    }
}

/// The headers a message framed by its length reads back with: its own,
/// the length, and the close.
pub open spec fn framed_headers(headers: Seq<(Seq<u8>, Seq<u8>)>, length: nat) -> Seq<(Seq<u8>, Seq<u8>)> {
    headers + seq![(utf8("Content-Length"@), decimal(length))] + closing(headers)
}

/// The headers a chunked message reads back with: its own, the coding,
/// and the close.
pub open spec fn chunked_headers(headers: Seq<(Seq<u8>, Seq<u8>)>) -> Seq<(Seq<u8>, Seq<u8>)> {
    headers + seq![(utf8("Transfer-Encoding"@), utf8("chunked"@))] + closing(headers)
}

/// The lines of a head: the first line, then each field's.
pub open spec fn head_lines(first: Seq<u8>, fields: Seq<(Seq<u8>, Seq<u8>)>) -> Seq<Seq<u8>> {
    seq![first] + texts_of(fields)
}

/// What follows the head of a chunked message: its body as one chunk, the
/// last chunk, the trailer and the blank line.
pub open spec fn chunk_rest(body: Seq<u8>, trailers: Seq<(Seq<u8>, Seq<u8>)>) -> Seq<u8> {
    super::message::one_chunk(body) + utf8("0\r\n"@) + lines_octets(texts_of(trailers)) + crlf()
}

/// Every field of `fields` reads back from its line.
pub open spec fn all_plain(fields: Seq<(Seq<u8>, Seq<u8>)>) -> bool {
    forall|k: int| 0 <= k < fields.len() ==> plain_field(#[trigger] fields[k])
}

/// The fields the writer frames a message with read back too.
proof fn lemma_framing_plain(headers: Seq<(Seq<u8>, Seq<u8>)>, length: nat)
    requires
        plain_headers(headers),
    ensures
        all_plain(framed_headers(headers, length)),
        all_plain(chunked_headers(headers)),
        framed_headers(headers, length).len() <= headers.len() + 2,
        chunked_headers(headers).len() <= headers.len() + 2,
{
    lemma_name_literals();
    lemma_decimal_ascii(length);
    let digits = decimal(length);
    assert(all_visible(digits)) by {
        assert forall|i: int| 0 <= i < digits.len() implies visible(#[trigger] digits[i]) by {
            assert(crate::ascii::is_digit(digits[i]));
        }
    }
    lemma_visible_trimmed(digits);
    crate::ascii::lemma_ascii_valid(digits);
    let cl = (utf8("Content-Length"@), digits);
    let te = (utf8("Transfer-Encoding"@), utf8("chunked"@));
    let conn = (utf8("Connection"@), utf8("close"@));
    lemma_visible_trimmed(cl.0);
    lemma_visible_trimmed(te.0);
    lemma_visible_trimmed(te.1);
    lemma_visible_trimmed(conn.0);
    lemma_visible_trimmed(conn.1);
    let a = framed_headers(headers, length);
    let b = chunked_headers(headers);
    assert forall|k: int| 0 <= k < a.len() implies plain_field(#[trigger] a[k]) by {
        if k < headers.len() {
            assert(a[k] == headers[k]);
        } else if k == headers.len() {
            assert(a[k] == cl);
        } else {
            assert(a[k] == conn);
        }
    }
    assert forall|k: int| 0 <= k < b.len() implies plain_field(#[trigger] b[k]) by {
        if k < headers.len() {
            assert(b[k] == headers[k]);
        } else if k == headers.len() {
            assert(b[k] == te);
        } else {
            assert(b[k] == conn);
        }
    }
}

/// The lines of the framing the writer adds, and what they write.
proof fn lemma_framing_octets(headers: Seq<(Seq<u8>, Seq<u8>)>, framing: (Seq<u8>, Seq<u8>))
    ensures
        lines_octets(texts_of(headers + seq![framing] + closing(headers))) == super::message::field_lines(headers)
            + field_text(framing) + crlf() + super::message::close_line(headers),
{
    lemma_framing_literals();
    let closes = closing(headers);
    let texts = texts_of(headers + seq![framing] + closes);
    assert(texts =~= texts_of(headers) + seq![field_text(framing)] + texts_of(closes));
    lemma_field_lines(headers);
    lemma_lines_concat(texts_of(headers) + seq![field_text(framing)], texts_of(closes));
    lemma_lines_concat(texts_of(headers), seq![field_text(framing)]);
    let one = seq![field_text(framing)];
    assert(lines_octets(one.drop_first()) == Seq::<u8>::empty());
    assert(lines_octets(one) =~= field_text(framing) + crlf());
    if found(headers, utf8("connection"@)) is None {
        let c = seq![field_text((utf8("Connection"@), utf8("close"@)))];
        assert(texts_of(closes) =~= c);
        assert(lines_octets(c.drop_first()) == Seq::<u8>::empty());
        assert(lines_octets(c) =~= field_text((utf8("Connection"@), utf8("close"@))) + crlf());
    } else {
        assert(texts_of(closes) =~= Seq::<Seq<u8>>::empty());
    }
}

/// A message without trailers, as the writer writes it, is the lines of
/// its head, the blank line, and its body.
#[verifier::spinoff_prover]
proof fn lemma_length_lines(first: Seq<u8>, headers: Seq<(Seq<u8>, Seq<u8>)>, body: Seq<u8>)
    ensures
        message_octets(first, headers, body, Seq::empty()) == lines_octets(
            head_lines(first, framed_headers(headers, body.len())),
        ) + crlf() + body,
{
    lemma_framing_literals();
    let single = seq![first];
    assert(lines_octets(single.drop_first()) == Seq::<u8>::empty());
    assert(lines_octets(single) =~= first + crlf());
    let fields = framed_headers(headers, body.len());
    let cl = (utf8("Content-Length"@), decimal(body.len()));
    lemma_framing_octets(headers, cl);
    lemma_lines_concat(single, texts_of(fields));
    assert(field_text(cl) =~= utf8("Content-Length: "@) + decimal(body.len()));
    assert(message_octets(first, headers, body, Seq::empty()) =~= lines_octets(head_lines(first, fields))
        + crlf() + body);
}

/// A message with trailers, as the writer writes it, is the lines of its
/// head, the blank line, and its chunks and trailer.
#[verifier::spinoff_prover]
proof fn lemma_chunked_lines(
    first: Seq<u8>,
    headers: Seq<(Seq<u8>, Seq<u8>)>,
    body: Seq<u8>,
    trailers: Seq<(Seq<u8>, Seq<u8>)>,
)
    requires
        trailers.len() > 0,
    ensures
        message_octets(first, headers, body, trailers) == lines_octets(
            head_lines(first, chunked_headers(headers)),
        ) + crlf() + chunk_rest(body, trailers),
{
    lemma_framing_literals();
    let single = seq![first];
    assert(lines_octets(single.drop_first()) == Seq::<u8>::empty());
    assert(lines_octets(single) =~= first + crlf());
    let fields = chunked_headers(headers);
    let te = (utf8("Transfer-Encoding"@), utf8("chunked"@));
    lemma_framing_octets(headers, te);
    lemma_lines_concat(single, texts_of(fields));
    lemma_field_lines(trailers);
    assert(message_octets(first, headers, body, trailers) =~= lines_octets(head_lines(first, fields))
        + crlf() + chunk_rest(body, trailers));
}

/// The head of a message as written reads back as its lines, its fields
/// as themselves.
proof fn lemma_head_read(first: Seq<u8>, fields: Seq<(Seq<u8>, Seq<u8>)>, rest: Seq<u8>)
    requires
        head_line(first),
        all_plain(fields),
        fields.len() + 1 <= MAX_HEADERS,
    ensures
        crate::head::head_of(lines_octets(head_lines(first, fields)) + crlf() + rest) == Ok::<
            (Seq<Seq<u8>>, int),
            crate::head::HeadRefusal,
        >((head_lines(first, fields), lines_octets(head_lines(first, fields)).len() as int + 2)),
        fields_of_lines(head_lines(first, fields).drop_first()) == fields,
        forall|j: int|
            1 <= j < head_lines(first, fields).len() ==> #[trigger] field_of(head_lines(first, fields)[j])
                == Some(fields[j - 1]),
{
    lemma_texts_read_back(fields);
    let lines = head_lines(first, fields);
    let s = lines_octets(lines) + crlf() + rest;
    let size = lines_octets(lines).len() as int;
    assert(s.subrange(0, size + 2) =~= lines_octets(lines) + crlf());
    assert forall|k: int| 0 <= k < lines.len() implies head_line(#[trigger] lines[k]) by {
        if k > 0 {
            assert(lines[k] == texts_of(fields)[k - 1]);
        }
    }
    lemma_head_reads_lines(s, 0, 0, lines);
    assert(lines.drop_first() =~= texts_of(fields));
    assert forall|j: int| 1 <= j < lines.len() implies #[trigger] field_of(lines[j]) == Some(fields[j - 1]) by {
        assert(lines[j] == texts_of(fields)[j - 1]);
        lemma_field_reads_back_at(fields, j - 1);
    }
}

/// A body framed by its length reads back by it.
proof fn lemma_length_read(
    first: Seq<u8>,
    headers: Seq<(Seq<u8>, Seq<u8>)>,
    body: Seq<u8>,
    more: Seq<u8>,
    to_end: bool,
)
    requires
        head_line(first),
        plain_headers(headers),
        headers.len() + 3 <= MAX_HEADERS,
        body.len() <= MAX_BODY,
    ensures
        body_of(body + more, head_lines(first, framed_headers(headers, body.len())), to_end) == Ok::<
            (Seq<u8>, Seq<Seq<u8>>, int),
            super::body::BodyRefusal,
        >((body, seq![], body.len() as int)),
{
    lemma_name_literals();
    let n = body.len();
    lemma_framing_plain(headers, n);
    let fields = framed_headers(headers, n);
    lemma_head_read(first, fields, body);
    let lines = head_lines(first, fields);
    let digits = decimal(n);
    lemma_decimal_ascii(n);
    lemma_decimal_value(n);
    let cl = (utf8("Content-Length"@), digits);
    let te = utf8("transfer-encoding"@);
    let cln = utf8("content-length"@);
    assert(crate::ascii::lower_all(utf8("Content-Length"@)) =~= crate::ascii::lower_all(cln));
    assert forall|j: int| 1 <= j < lines.len() && j < lines.len() implies (#[trigger] field_of(lines[j])) is None
        || !same_letters(field_of(lines[j])->Some_0.0, te) by {
        let f = fields[j - 1];
        if j - 1 < headers.len() {
            assert(f == headers[j - 1]);
        } else {
            assert(crate::ascii::lower_all(f.0).len() != crate::ascii::lower_all(te).len());
        }
    }
    lemma_header_skips(lines, te, 1, lines.len() as int);
    assert forall|j: int| 1 <= j < 1 + headers.len() && j < lines.len() implies (#[trigger] field_of(lines[j])) is None
        || !same_letters(field_of(lines[j])->Some_0.0, cln) by {
        assert(fields[j - 1] == headers[j - 1]);
    }
    lemma_header_skips(lines, cln, 1, 1 + headers.len() as int);
    assert(fields[headers.len() as int] == cl);
    assert(header_from(lines, cln, 1 + headers.len() as int) == Some(digits));
    assert((body + more).subrange(0, n as int) =~= body);
}

/// A chunked body, as the writer writes it, reads back with its trailer.
#[verifier::spinoff_prover]
#[verifier::rlimit(60)]
proof fn lemma_chunks_read(body: Seq<u8>, trailers: Seq<(Seq<u8>, Seq<u8>)>)
    requires
        all_plain(trailers),
        trailers.len() <= MAX_HEADERS,
        body.len() <= MAX_BODY,
    ensures
        super::body::chunks_from(chunk_rest(body, trailers), 0, seq![]) == Ok::<
            (Seq<u8>, Seq<Seq<u8>>, int),
            super::body::BodyRefusal,
        >((body, texts_of(trailers), chunk_rest(body, trailers).len() as int)),
{
    lemma_chunk_literal();
    lemma_texts_read_back(trailers);
    let s = chunk_rest(body, trailers);
    let texts = texts_of(trailers);
    let tail = lines_octets(texts) + crlf();
    let last = seq![0x30u8, 0x0d, 0x0a] + tail;
    let zero = seq![0x30u8];
    crate::ascii::lemma_ascii_valid(zero);
    lemma_visible_trimmed(zero);
    lemma_index_of(zero, 0x3b, 0);
    assert(zero.subrange(0, 1) =~= zero);
    assert(crate::ascii::hex_value_of(zero) == 0) by {
        assert(zero.drop_last() =~= Seq::<u8>::empty());
        assert(crate::ascii::hex_value_of(zero.drop_last()) == 0);
        assert(zero.last() == 0x30);
        assert(crate::ascii::hex_value(0x30) == 0);
        assert(crate::ascii::hex_value_of(zero) == crate::ascii::hex_value_of(zero.drop_last()) * 16
            + crate::ascii::hex_value(zero.last()));
    }
    let i = s.len() - last.len();
    assert(s.subrange(i, s.len() as int) =~= last);
    assert(s[i] == 0x30 && s[i + 1] == CR && s[i + 2] == LF);
    lemma_index_at(s, LF, i, i + 2);
    assert(s.subrange(i, i + 3) =~= seq![0x30u8, CR, LF]);
    assert(without_eol(s.subrange(i, i + 3)) =~= zero);
    assert(s.subrange(i + 3, s.len() as int) =~= tail);
    assert forall|k: int| 0 <= k < texts.len() implies head_line(#[trigger] texts[k]) by {}
    lemma_head_reads_lines(s, i + 3, 0, texts);
    if body.len() == 0 {
        assert(s =~= last);
        assert(super::body::chunks_from(s, 0, seq![]) == Ok::<
            (Seq<u8>, Seq<Seq<u8>>, int),
            super::body::BodyRefusal,
        >((seq![], texts, s.len() as int)));
        assert(body =~= Seq::<u8>::empty());
    } else {
        let n = body.len();
        let size = crate::ascii::hex(n);
        crate::ascii::lemma_hex_ascii(n);
        crate::ascii::lemma_hex_value(n);
        crate::ascii::lemma_ascii_valid(size);
        assert(all_visible(size)) by {
            assert forall|k: int| 0 <= k < size.len() implies visible(#[trigger] size[k]) by {
                assert(crate::ascii::is_hex_digit(size[k]));
            }
        }
        lemma_visible_trimmed(size);
        let h = size.len() as int;
        assert(s =~= size + crlf() + body + crlf() + last);
        assert forall|k: int| 0 <= k < h implies s[k] != LF by {
            assert(s[k] == size[k]);
            assert(visible(size[k]));
        }
        assert(s[h] == CR && s[h + 1] == LF);
        lemma_index_at(s, LF, 0, h + 1);
        assert(s.subrange(0, h + 2) =~= size + crlf());
        assert((size + crlf()).drop_last() =~= size + seq![CR]);
        assert((size + seq![CR]).drop_last() =~= size);
        assert(without_eol(s.subrange(0, h + 2)) == size);
        lemma_index_of(size, 0x3b, 0);
        if index_of(size, 0x3b, 0) < size.len() {
            assert(visible(size[index_of(size, 0x3b, 0)]));
            assert(crate::ascii::is_hex_digit(size[index_of(size, 0x3b, 0)]));
        }
        assert(size.subrange(0, size.len() as int) =~= size);
        assert(s.subrange(h + 2 + n, h + 2 + n + 2) =~= crlf());
        assert(s.subrange(h + 2, h + 2 + n) =~= body);
        assert(i == h + 2 + n + 2);
        assert(super::body::chunks_from(s, i, body) == Ok::<
            (Seq<u8>, Seq<Seq<u8>>, int),
            super::body::BodyRefusal,
        >((body, texts, s.len() as int)));
        assert(Seq::<u8>::empty() + body =~= body);
    }
}

/// A chunked body reads back with its trailer, the coding found among
/// the headers.
proof fn lemma_chunked_read(
    first: Seq<u8>,
    headers: Seq<(Seq<u8>, Seq<u8>)>,
    body: Seq<u8>,
    trailers: Seq<(Seq<u8>, Seq<u8>)>,
)
    requires
        head_line(first),
        plain_headers(headers),
        headers.len() + 3 <= MAX_HEADERS,
        all_plain(trailers),
        trailers.len() <= MAX_HEADERS,
        body.len() <= MAX_BODY,
    ensures
        body_of(chunk_rest(body, trailers), head_lines(first, chunked_headers(headers)), true) == Ok::<
            (Seq<u8>, Seq<Seq<u8>>, int),
            super::body::BodyRefusal,
        >((body, texts_of(trailers), chunk_rest(body, trailers).len() as int)),
{
    lemma_name_literals();
    lemma_framing_plain(headers, 0);
    let fields = chunked_headers(headers);
    lemma_head_read(first, fields, seq![]);
    let lines = head_lines(first, fields);
    let te = utf8("transfer-encoding"@);
    let coding = (utf8("Transfer-Encoding"@), utf8("chunked"@));
    assert(crate::ascii::lower_all(coding.0) =~= crate::ascii::lower_all(te));
    assert forall|j: int| 1 <= j < 1 + headers.len() && j < lines.len() implies (#[trigger] field_of(lines[j])) is None
        || !same_letters(field_of(lines[j])->Some_0.0, te) by {
        assert(fields[j - 1] == headers[j - 1]);
    }
    lemma_header_skips(lines, te, 1, 1 + headers.len() as int);
    assert(fields[headers.len() as int] == coding);
    assert(header_from(lines, te, 1 + headers.len() as int) == Some(coding.1));
    let chunked = utf8("chunked"@);
    lemma_visible_trimmed(chunked);
    assert(crate::ascii::lower_all(chunked) =~= crate::ascii::lower_all(chunked));
    lemma_chunks_read(body, trailers);
}

/// Whether a request reads back as it is written: a method of visible
/// bytes, not empty; a path of visible bytes without `?`, as it travels,
/// and with the query not both empty; at most as many headers as a head
/// holds beside the request line, the length and the close, each read
/// back from its line and none framing the body; and a body no larger
/// than the reader reads.
pub open spec fn carried_as_written(request: Request) -> bool {
    let method = utf8(request.method@);
    let path = utf8(request.path@);
    let headers = field_octets(request.headers@);
    &&& method.len() > 0
    &&& all_visible(method)
    &&& all_visible(path)
    &&& forall|k: int| 0 <= k < path.len() ==> #[trigger] path[k] != 0x3f
    &&& path.len() > 0 || request.query@.len() > 0
    &&& headers.len() + 3 <= MAX_HEADERS
    &&& plain_headers(headers)
    &&& request.body@.len() <= MAX_BODY
}

/// What the writer writes of a request.
pub open spec fn written_request(request: Request) -> Seq<u8> {
    message_octets(request_first(request), field_octets(request.headers@), request.body@, Seq::empty())
}

/// A request the writer writes, the reader reads back: its method, its
/// path, its query, its headers with the framing the writer adds, and its body,
/// the whole of what was written taken and nothing of what follows it.
#[verifier::spinoff_prover]
#[verifier::rlimit(60)]
pub proof fn law_request_reads_back(request: Request, rest: Seq<u8>)
    requires
        carried_as_written(request),
    ensures
        asked_of(written_request(request) + rest) == Ok::<(Option<Asked>, int), AskedRefusal>(
            (
                Some(
                    Asked {
                        method: utf8(request.method@),
                        path: utf8(request.path@),
                        query: super::field_texts(request.query@),
                        headers: framed_headers(field_octets(request.headers@), request.body@.len()),
                        body: request.body@,
                    },
                ),
                written_request(request).len() as int,
            ),
        ),
{
    let m = utf8(request.method@);
    let path = utf8(request.path@);
    let q = field_octets(request.query@);
    let h = field_octets(request.headers@);
    let body = request.body@;
    lemma_target(path, q);
    lemma_query_texts(request.query@);
    let t = target_of(path, q);
    lemma_first_line(m, t);
    let first = request_first(request);
    assert(m + seq![0x20u8] + t + utf8(" HTTP/1.1"@) =~= first);
    lemma_framing_plain(h, body.len());
    lemma_length_lines(first, h, body);
    let fields = framed_headers(h, body.len());
    lemma_head_read(first, fields, body + rest);
    lemma_length_read(first, h, body, rest, false);
    let lines = head_lines(first, fields);
    let written = written_request(request);
    let size = lines_octets(lines).len() as int;
    let whole = written + rest;
    assert(whole =~= lines_octets(lines) + crlf() + (body + rest));
    assert(whole.subrange(size + 2, whole.len() as int) =~= body + rest);
}

/// Three digits, for a status of three.
pub proof fn lemma_three_digits(n: nat)
    requires
        100 <= n <= 999,
    ensures
        decimal(n).len() == 3,
{
    assert(10 <= n / 10 < 100);
    assert(n / 10 / 10 < 10);
    assert(decimal(n / 10 / 10).len() == 1);
    assert(decimal(n / 10).len() == 2);
}

/// A status line of a three-digit status and a phrase without a line
/// feed reads back as the two.
proof fn lemma_status_first(status: u16, phrase: Seq<u8>)
    requires
        100 <= status <= 999,
        forall|k: int| 0 <= k < phrase.len() ==> #[trigger] phrase[k] != LF,
        valid_utf8(phrase),
    ensures
        super::status_line(utf8("HTTP/1.1 "@) + decimal(status as nat) + seq![0x20u8] + phrase) == Some(
            (status, phrase),
        ),
        head_line(utf8("HTTP/1.1 "@) + decimal(status as nat) + seq![0x20u8] + phrase),
{
    lemma_status_literals();
    let digits = decimal(status as nat);
    lemma_three_digits(status as nat);
    lemma_decimal_ascii(status as nat);
    lemma_decimal_value(status as nat);
    let first = utf8("HTTP/1.1 "@) + digits + seq![0x20u8] + phrase;
    let prefix = utf8("HTTP/1."@);
    assert(first.subrange(0, 7) =~= prefix);
    let r = first.subrange(7, first.len() as int);
    assert(r =~= seq![0x31u8, 0x20u8] + digits + seq![0x20u8] + phrase);
    assert(r[1] == 0x20);
    lemma_index_at(r, 0x20, 0, 1);
    assert forall|k: int| 2 <= k < 5 implies r[k] != 0x20u8 by {
        assert(r[k] == digits[k - 2]);
        assert(crate::ascii::is_digit(digits[k - 2]));
    }
    assert(r[5] == 0x20);
    lemma_index_at(r, 0x20, 2, 5);
    assert(r.subrange(2, 5) =~= digits);
    assert(crate::ascii::is_digit(digits[0]));
    assert(crate::ascii::unsigned_digits(digits) == digits);
    assert(r.subrange(6, r.len() as int) =~= phrase);
    let lead = utf8("HTTP/1.1 "@) + digits + seq![0x20u8];
    assert forall|k: int| 0 <= k < lead.len() implies #[trigger] lead[k] < 0x80 by {
        if 9 <= k < 12 {
            assert(lead[k] == digits[k - 9]);
            assert(crate::ascii::is_digit(digits[k - 9]));
        }
    }
    crate::ascii::lemma_ascii_valid(lead);
    valid_utf8_concat(lead, phrase);
    assert(first =~= lead + phrase);
    assert forall|k: int| 0 <= k < first.len() implies #[trigger] first[k] != LF by {
        if k < lead.len() {
            assert(first[k] == lead[k]);
            if 9 <= k < 12 {
                assert(lead[k] == digits[k - 9]);
                assert(crate::ascii::is_digit(digits[k - 9]));
            }
        } else {
            assert(first[k] == phrase[k - lead.len()]);
        }
    }
}

/// The phrase the status line of `response` is written with: its own, or
/// the table's where it has none.
pub open spec fn phrase_written(response: Response) -> Seq<u8> {
    if response.reason@.len() == 0 {
        utf8(super::reason_text(response.status))
    } else {
        utf8(response.reason@)
    }
}

/// Whether an answer reads back as it is written: a status of three
/// digits, a phrase without a line feed, at most as many headers as a
/// head holds beside the status line, the framing and the close, each
/// read back from its line and none framing the body; trailers read back
/// from their lines, at most as many as a head holds; a body no larger
/// than the reader reads; and, for a status that has no body, neither body
/// nor trailers, which the reader would not look for.
pub open spec fn answered_as_written(response: Response) -> bool {
    let headers = field_octets(response.headers@);
    let trailers = field_octets(response.trailers@);
    &&& 100 <= response.status <= 999
    &&& forall|k: int| 0 <= k < phrase_written(response).len() ==> #[trigger] phrase_written(response)[k] != LF
    &&& headers.len() + 3 <= MAX_HEADERS
    &&& plain_headers(headers)
    &&& trailers.len() <= MAX_HEADERS
    &&& all_plain(trailers)
    &&& response.body@.len() <= MAX_BODY
    &&& super::bodiless(response.status) ==> response.body@.len() == 0 && trailers.len() == 0
}

/// What the writer writes of an answer.
pub open spec fn written_response(response: Response) -> Seq<u8> {
    message_octets(
        super::response_first(response),
        field_octets(response.headers@),
        response.body@,
        field_octets(response.trailers@),
    )
}

/// An answer the writer writes, the reader reads back: its status, its
/// phrase, its headers with the framing the writer adds — the length, or
/// the chunked coding where there are trailers — its body and its
/// trailers, the whole of what was written taken.
#[verifier::spinoff_prover]
#[verifier::rlimit(60)]
pub proof fn law_response_reads_back(response: Response)
    requires
        answered_as_written(response),
    ensures
        super::answer_of(written_response(response)) == Ok::<(Answer, int), super::AnswerRefusal>(
            (
                Answer {
                    status: response.status,
                    reason: phrase_written(response),
                    headers: if response.trailers@.len() == 0 {
                        framed_headers(field_octets(response.headers@), response.body@.len())
                    } else {
                        chunked_headers(field_octets(response.headers@))
                    },
                    body: response.body@,
                    trailers: field_octets(response.trailers@),
                },
                written_response(response).len() as int,
            ),
        ),
{
    let phrase = phrase_written(response);
    lemma_status_first(response.status, phrase);
    assert(super::response_first(response) =~= utf8("HTTP/1.1 "@) + decimal(response.status as nat)
        + seq![0x20u8] + phrase);
    if response.trailers@.len() == 0 {
        lemma_response_by_length(response);
    } else {
        lemma_response_chunked(response);
    }
}

/// An answer without trailers reads back by its length.
#[verifier::spinoff_prover]
#[verifier::rlimit(100)]
proof fn lemma_response_by_length(response: Response)
    requires
        answered_as_written(response),
        response.trailers@.len() == 0,
        head_line(super::response_first(response)),
        super::status_line(super::response_first(response)) == Some((response.status, phrase_written(response))),
    ensures
        super::answer_of(written_response(response)) == Ok::<(Answer, int), super::AnswerRefusal>(
            (
                Answer {
                    status: response.status,
                    reason: phrase_written(response),
                    headers: framed_headers(field_octets(response.headers@), response.body@.len()),
                    body: response.body@,
                    trailers: field_octets(response.trailers@),
                },
                written_response(response).len() as int,
            ),
        ),
{
    let h = field_octets(response.headers@);
    let trailers = field_octets(response.trailers@);
    let body = response.body@;
    let first = super::response_first(response);
    lemma_framing_plain(h, body.len());
    assert(trailers =~= Seq::<(Seq<u8>, Seq<u8>)>::empty());
    lemma_length_lines(first, h, body);
    let written = written_response(response);
    let fields = framed_headers(h, body.len());
    lemma_head_read(first, fields, body);
    let lines = head_lines(first, fields);
    let size = lines_octets(lines).len() as int;
    assert(written.subrange(size + 2, written.len() as int) =~= body);
    lemma_length_read(first, h, body, Seq::empty(), true);
    assert(body + Seq::<u8>::empty() =~= body);
    assert(fields_of_lines(Seq::<Seq<u8>>::empty()) == Seq::<(Seq<u8>, Seq<u8>)>::empty());
    assert(crate::head::head_of(written) == Ok::<(Seq<Seq<u8>>, int), crate::head::HeadRefusal>((lines, size + 2)));
    assert(lines[0] == first);
    assert(lines.drop_first() =~= texts_of(fields));
    if super::bodiless(response.status) {
        assert(body =~= Seq::<u8>::empty());
        assert(size + 2 == written.len());
    }
}

/// An answer with trailers reads back by its chunks, the trailers after.
#[verifier::spinoff_prover]
#[verifier::rlimit(40)]
proof fn lemma_response_chunked(response: Response)
    requires
        answered_as_written(response),
        response.trailers@.len() > 0,
        head_line(super::response_first(response)),
        super::status_line(super::response_first(response)) == Some((response.status, phrase_written(response))),
    ensures
        super::answer_of(written_response(response)) == Ok::<(Answer, int), super::AnswerRefusal>(
            (
                Answer {
                    status: response.status,
                    reason: phrase_written(response),
                    headers: chunked_headers(field_octets(response.headers@)),
                    body: response.body@,
                    trailers: field_octets(response.trailers@),
                },
                written_response(response).len() as int,
            ),
        ),
{
    let h = field_octets(response.headers@);
    let trailers = field_octets(response.trailers@);
    let body = response.body@;
    let first = super::response_first(response);
    lemma_framing_plain(h, body.len());
    lemma_chunked_lines(first, h, body, trailers);
    let written = written_response(response);
    let fields = chunked_headers(h);
    let rest = chunk_rest(body, trailers);
    lemma_head_read(first, fields, rest);
    let lines = head_lines(first, fields);
    let size = lines_octets(lines).len() as int;
    assert(written.subrange(size + 2, written.len() as int) =~= rest);
    lemma_chunked_read(first, h, body, trailers);
    lemma_texts_read_back(trailers);
}

} // verus!
