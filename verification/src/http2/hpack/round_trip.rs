//! What an encoder writes, a decoder that keeps the same dynamic table
//! reads back: the fields in order, and the tables still the same after
//! the block.

use vstd::prelude::*;
use vstd::utf8::*;

use super::decoder::{block_from, literal_field, text_at};
use super::encoder::{block_encoded, field_encoded, list_encoded};
use super::integer::{encoded, law_integer_round_trips, lemma_first_octet};
use super::literal::{law_literal_reads_back, literal};
use super::table::{
    cost, dynamic_from, evicted, field_at, found, inserted, lemma_evicted, lemma_total_counts,
    lemma_total_front, static_field, static_from, total, Found, STATIC_LEN,
};

verus! {

/// Whether every name and value of `list` is short enough for its length
/// to be written as an integer the decoder reads.
pub open spec fn carried(list: Seq<(Seq<char>, Seq<char>)>) -> bool {
    forall|i: int|
        0 <= i < list.len() ==> encode_utf8(#[trigger] list[i].0).len() <= 0xffff_ffff
            && encode_utf8(list[i].1).len() <= 0xffff_ffff
}

/// Text written as a literal reads back as itself, whatever follows it.
proof fn lemma_text_reads_back(text: Seq<char>, huffman: bool, tail: Seq<u8>)
    requires
        encode_utf8(text).len() <= 0xffff_ffff,
    ensures
        text_at(literal(encode_utf8(text), huffman) + tail) == Some(
            (text, literal(encode_utf8(text), huffman).len()),
        ),
{
    law_literal_reads_back(encode_utf8(text), huffman, tail);
    encode_utf8_valid_utf8(text);
    encode_utf8_decode_utf8(text);
}

/// A static index found for a name, and the value where `whole`, holds
/// them.
proof fn lemma_static_from(name: Seq<char>, value: Seq<char>, whole: bool, at: nat)
    ensures
        static_from(name, value, whole, at) matches Some(index) ==> 1 <= index <= STATIC_LEN
            && static_field(index).0 == name && (whole ==> static_field(index).1 == value),
    decreases 62 - at,
{
    if 1 <= at <= STATIC_LEN {
        lemma_static_from(name, value, whole, at + 1);
    }
}

/// A dynamic position found for a name, and the value where `whole`,
/// holds them.
proof fn lemma_dynamic_from(
    fields: Seq<(Seq<char>, Seq<char>)>,
    name: Seq<char>,
    value: Seq<char>,
    whole: bool,
    at: nat,
)
    ensures
        dynamic_from(fields, name, value, whole, at) matches Some(index) ==> index < fields.len()
            && fields[index as int].0 == name && (whole ==> fields[index as int].1 == value),
    decreases fields.len() - at,
{
    if at < fields.len() {
        lemma_dynamic_from(fields, name, value, whole, at + 1);
    }
}

/// Where the encoder finds a field, the index it writes names that field,
/// or at least its name, and is one an integer carries.
proof fn lemma_found(fields: Seq<(Seq<char>, Seq<char>)>, name: Seq<char>, value: Seq<char>)
    requires
        fields.len() + STATIC_LEN < 0xffff_ffff,
    ensures
        found(fields, name, value) matches Some(Found::Field(index)) ==> 1 <= index <= 0xffff_ffff
            && field_at(fields, index) == Some((name, value)),
        found(fields, name, value) matches Some(Found::Name(index)) ==> 1 <= index <= 0xffff_ffff
            && (field_at(fields, index) matches Some(field) && field.0 == name),
{
    lemma_static_from(name, value, true, 1);
    lemma_static_from(name, value, false, 1);
    lemma_dynamic_from(fields, name, value, true, 0);
    lemma_dynamic_from(fields, name, value, false, 0);
}

/// A table that keeps to its size keeps to it after an insertion.
proof fn lemma_inserted_fits(
    fields: Seq<(Seq<char>, Seq<char>)>,
    max_size: nat,
    field: (Seq<char>, Seq<char>),
)
    requires
        total(fields) <= max_size,
    ensures
        total(inserted(fields, max_size, field)) <= max_size,
{
    if cost(field) <= max_size {
        let room = (max_size - cost(field)) as nat;
        lemma_evicted(fields, room);
        lemma_total_front(field, evicted(fields, room));
    } else {
        lemma_evicted(fields, 0);
    }
}

/// A list written field by field from the front: the first field, then
/// the rest against the table the first one left.
#[verifier::rlimit(100)]
#[verifier::spinoff_prover]
proof fn lemma_list_front(
    fields: Seq<(Seq<char>, Seq<char>)>,
    max_size: nat,
    huffman: bool,
    list: Seq<(Seq<char>, Seq<char>)>,
)
    requires
        list.len() > 0,
    ensures
        ({
            let (first, middle) = field_encoded(fields, max_size, huffman, list[0].0, list[0].1);
            let (rest, after) = list_encoded(middle, max_size, huffman, list.skip(1));
            list_encoded(fields, max_size, huffman, list) == (first + rest, after)
        }),
    decreases list.len(),
{
    let first = field_encoded(fields, max_size, huffman, list[0].0, list[0].1).0;
    let middle = field_encoded(fields, max_size, huffman, list[0].0, list[0].1).1;
    let whole = list_encoded(fields, max_size, huffman, list);
    let shorter = list.drop_last();
    let rest = list.skip(1);
    let empty: Seq<(Seq<char>, Seq<char>)> = seq![];
    assert(whole == (
        list_encoded(fields, max_size, huffman, shorter).0 + field_encoded(
            list_encoded(fields, max_size, huffman, shorter).1,
            max_size,
            huffman,
            list.last().0,
            list.last().1,
        ).0,
        field_encoded(
            list_encoded(fields, max_size, huffman, shorter).1,
            max_size,
            huffman,
            list.last().0,
            list.last().1,
        ).1,
    ));
    if list.len() == 1 {
        assert(shorter =~= empty);
        assert(rest =~= empty);
        assert(list.last() == list[0]);
        assert(list_encoded(fields, max_size, huffman, empty) == (Seq::<u8>::empty(), fields));
        assert(list_encoded(middle, max_size, huffman, empty) == (Seq::<u8>::empty(), middle));
        assert(Seq::<u8>::empty() + first =~= first);
        assert(first + Seq::<u8>::empty() =~= first);
    } else {
        lemma_list_front(fields, max_size, huffman, shorter);
        assert(shorter[0] == list[0]);
        assert(rest.drop_last() =~= shorter.skip(1));
        assert(rest.last() == list.last());
        let before = list_encoded(middle, max_size, huffman, shorter.skip(1)).0;
        let mid = list_encoded(middle, max_size, huffman, shorter.skip(1)).1;
        assert(list_encoded(fields, max_size, huffman, shorter) == (first + before, mid));
        let last = field_encoded(mid, max_size, huffman, list.last().0, list.last().1);
        assert(list_encoded(middle, max_size, huffman, rest) == (before + last.0, last.1));
        assert(first + before + last.0 =~= first + (before + last.0));
    }
}

/// The octets of an indexed field read as that field, the table as it
/// was.
proof fn lemma_indexed_step(
    fields: Seq<(Seq<char>, Seq<char>)>,
    max_size: nat,
    limit: nat,
    index: usize,
    field: (Seq<char>, Seq<char>),
    block: Seq<u8>,
    at: nat,
    out: Seq<(Seq<char>, Seq<char>)>,
    tail: Seq<u8>,
)
    requires
        index <= 0xffff_ffff,
        field_at(fields, index) == Some(field),
        at <= block.len(),
        block.skip(at as int) == encoded(index as nat, 7, 0x80) + tail,
    ensures
        block_from(fields, max_size, limit, block, at, out) == block_from(
            fields,
            max_size,
            limit,
            block,
            at + encoded(index as nat, 7, 0x80).len(),
            out.push(field),
        ),
{
    let head = encoded(index as nat, 7, 0x80);
    let rest = block.skip(at as int);
    law_integer_round_trips(index as nat, 7, 0x80, tail);
    lemma_first_octet(index as nat, 7, 0x80);
    let low: u8 = if index < 127 { index as u8 } else { 127u8 };
    assert(0x80u8 | low >= 128) by (bit_vector);
    assert(rest[0] == head[0]);
    assert(rest.len() == block.len() - at);
}

/// The octets of a field with an indexed name read as that field, the
/// field added to the table.
#[verifier::rlimit(100)]
#[verifier::spinoff_prover]
proof fn lemma_named_step(
    fields: Seq<(Seq<char>, Seq<char>)>,
    max_size: nat,
    limit: nat,
    huffman: bool,
    index: usize,
    name: Seq<char>,
    value: Seq<char>,
    block: Seq<u8>,
    at: nat,
    out: Seq<(Seq<char>, Seq<char>)>,
    tail: Seq<u8>,
)
    requires
        1 <= index <= 0xffff_ffff,
        field_at(fields, index) matches Some(field) && field.0 == name,
        encode_utf8(value).len() <= 0xffff_ffff,
        at <= block.len(),
        block.skip(at as int) == encoded(index as nat, 6, 0x40) + literal(
            encode_utf8(value),
            huffman,
        ) + tail,
    ensures
        block_from(fields, max_size, limit, block, at, out) == block_from(
            inserted(fields, max_size, (name, value)),
            max_size,
            limit,
            block,
            at + encoded(index as nat, 6, 0x40).len() + literal(encode_utf8(value), huffman).len(),
            out.push((name, value)),
        ),
{
    let head = encoded(index as nat, 6, 0x40);
    let text = literal(encode_utf8(value), huffman);
    let rest = block.skip(at as int);
    assert(rest =~= head + (text + tail));
    law_integer_round_trips(index as nat, 6, 0x40, text + tail);
    lemma_first_octet(index as nat, 6, 0x40);
    let low: u8 = if index < 63 { index as u8 } else { 63u8 };
    assert(low < 64 ==> 64 <= 0x40u8 | low < 128) by (bit_vector);
    assert(rest.skip(head.len() as int) =~= text + tail);
    lemma_text_reads_back(value, huffman, tail);
    assert(literal_field(fields, rest, 6) == Some((name, value, head.len() + text.len())));
    assert(rest[0] == head[0]);
    assert(rest.len() == block.len() - at);
}

/// The octets of a field written out whole read as that field, the field
/// added to the table.
#[verifier::rlimit(100)]
#[verifier::spinoff_prover]
proof fn lemma_literal_step(
    fields: Seq<(Seq<char>, Seq<char>)>,
    max_size: nat,
    limit: nat,
    huffman: bool,
    name: Seq<char>,
    value: Seq<char>,
    block: Seq<u8>,
    at: nat,
    out: Seq<(Seq<char>, Seq<char>)>,
    tail: Seq<u8>,
)
    requires
        encode_utf8(name).len() <= 0xffff_ffff,
        encode_utf8(value).len() <= 0xffff_ffff,
        at <= block.len(),
        block.skip(at as int) == seq![0x40u8] + literal(encode_utf8(name), huffman) + literal(
            encode_utf8(value),
            huffman,
        ) + tail,
    ensures
        block_from(fields, max_size, limit, block, at, out) == block_from(
            inserted(fields, max_size, (name, value)),
            max_size,
            limit,
            block,
            at + 1 + literal(encode_utf8(name), huffman).len() + literal(
                encode_utf8(value),
                huffman,
            ).len(),
            out.push((name, value)),
        ),
{
    let first = literal(encode_utf8(name), huffman);
    let second = literal(encode_utf8(value), huffman);
    let rest = block.skip(at as int);
    assert(0x40u8 | 0u8 == 0x40u8) by (bit_vector);
    assert(encoded(0, 6, 0x40) =~= seq![0x40u8]);
    assert(rest =~= encoded(0, 6, 0x40) + (first + second + tail));
    law_integer_round_trips(0, 6, 0x40, first + second + tail);
    assert(rest.skip(1) =~= first + (second + tail));
    lemma_text_reads_back(name, huffman, second + tail);
    assert(rest.skip(1 + first.len() as int) =~= second + tail);
    lemma_text_reads_back(value, huffman, tail);
    assert(literal_field(fields, rest, 6) == Some((name, value, 1 + first.len() + second.len())));
    assert(rest[0] == 0x40u8);
    assert(rest.len() == block.len() - at);
}

/// One field written against a table reads as that field, the table
/// after it the one the encoder keeps and still within its size.
#[verifier::rlimit(100)]
#[verifier::spinoff_prover]
proof fn lemma_field_step(
    fields: Seq<(Seq<char>, Seq<char>)>,
    max_size: nat,
    limit: nat,
    huffman: bool,
    name: Seq<char>,
    value: Seq<char>,
    block: Seq<u8>,
    at: nat,
    out: Seq<(Seq<char>, Seq<char>)>,
    tail: Seq<u8>,
)
    requires
        total(fields) <= max_size <= 0xffff_ffff,
        encode_utf8(name).len() <= 0xffff_ffff,
        encode_utf8(value).len() <= 0xffff_ffff,
        at <= block.len(),
        block.skip(at as int) == field_encoded(fields, max_size, huffman, name, value).0 + tail,
    ensures
        ({
            let (head, middle) = field_encoded(fields, max_size, huffman, name, value);
            &&& total(middle) <= max_size
            &&& at + head.len() <= block.len()
            &&& block.skip((at + head.len()) as int) == tail
            &&& block_from(fields, max_size, limit, block, at, out) == block_from(
                middle,
                max_size,
                limit,
                block,
                at + head.len(),
                out.push((name, value)),
            )
        }),
{
    let head = field_encoded(fields, max_size, huffman, name, value).0;
    let middle = field_encoded(fields, max_size, huffman, name, value).1;
    lemma_total_counts(fields);
    lemma_found(fields, name, value);
    let whole = block.skip(at as int);
    assert(whole.len() == block.len() - at);
    assert(whole == head + tail);
    assert(block.len() == at + head.len() + tail.len());
    assert forall|k: int| 0 <= k < tail.len() implies #[trigger] block.skip(
        (at + head.len()) as int,
    )[k] == tail[k] by {
        assert(whole[head.len() + k] == (head + tail)[head.len() + k]);
    }
    assert(block.skip((at + head.len()) as int) =~= tail);
    match found(fields, name, value) {
        Some(Found::Field(index)) => {
            assert(head == encoded(index as nat, 7, 0x80) && middle == fields) by {
                reveal(field_encoded);
            }
            lemma_indexed_step(fields, max_size, limit, index, (name, value), block, at, out, tail);
        },
        Some(Found::Name(index)) => {
            assert(head == encoded(index as nat, 6, 0x40) + literal(encode_utf8(value), huffman)
                && middle == inserted(fields, max_size, (name, value))) by {
                reveal(field_encoded);
            }
            lemma_named_step(fields, max_size, limit, huffman, index, name, value, block, at, out, tail);
            lemma_inserted_fits(fields, max_size, (name, value));
        },
        None => {
            assert(head == seq![0x40u8] + literal(encode_utf8(name), huffman) + literal(
                encode_utf8(value),
                huffman,
            ) && middle == inserted(fields, max_size, (name, value))) by {
                reveal(field_encoded);
            }
            lemma_literal_step(fields, max_size, limit, huffman, name, value, block, at, out, tail);
            lemma_inserted_fits(fields, max_size, (name, value));
        },
    }
}

/// A list written against a table reads back, from where it starts, as
/// that list, the table after it the one the encoder keeps.
#[verifier::rlimit(100)]
#[verifier::spinoff_prover]
proof fn lemma_list_reads_back(
    fields: Seq<(Seq<char>, Seq<char>)>,
    max_size: nat,
    limit: nat,
    huffman: bool,
    list: Seq<(Seq<char>, Seq<char>)>,
    block: Seq<u8>,
    at: nat,
    out: Seq<(Seq<char>, Seq<char>)>,
)
    requires
        total(fields) <= max_size <= 0xffff_ffff,
        carried(list),
        at <= block.len(),
        block.skip(at as int) == list_encoded(fields, max_size, huffman, list).0,
    ensures
        block_from(fields, max_size, limit, block, at, out) == Ok::<
            (Seq<(Seq<char>, Seq<char>)>, Seq<(Seq<char>, Seq<char>)>, nat),
            (Seq<(Seq<char>, Seq<char>)>, nat),
        >((out + list, list_encoded(fields, max_size, huffman, list).1, max_size)),
    decreases list.len(),
{
    if list.len() == 0 {
        assert(out + list =~= out);
        assert(block.skip(at as int).len() == 0);
    } else {
        let (name, value) = list[0];
        assert(encode_utf8(list[0].0).len() <= 0xffff_ffff);
        lemma_list_front(fields, max_size, huffman, list);
        let (head, middle) = field_encoded(fields, max_size, huffman, name, value);
        let (tail, after) = list_encoded(middle, max_size, huffman, list.skip(1));
        lemma_field_step(fields, max_size, limit, huffman, name, value, block, at, out, tail);
        assert forall|i: int| 0 <= i < list.skip(1).len() implies encode_utf8(
            #[trigger] list.skip(1)[i].0,
        ).len() <= 0xffff_ffff && encode_utf8(list.skip(1)[i].1).len() <= 0xffff_ffff by {
            assert(list.skip(1)[i] == list[i + 1]);
        }
        lemma_list_reads_back(
            middle,
            max_size,
            limit,
            huffman,
            list.skip(1),
            block,
            at + head.len(),
            out.push((name, value)),
        );
        assert(out.push((name, value)) + list.skip(1) =~= out + list);
    }
}

/// What an encoder writes, a decoder in step with it reads back: every
/// field of the list in order, and the decoder's table after the block the
/// encoder's. In step means that the tables hold the same fields and
/// size, or that the encoder has since been resized to a size the decoder
/// allows, its table evicted to it, and announces that size in the block.
/// A length or an index past 2^32 - 1 the decoder refuses, so the list's
/// strings and the table's size are kept under it.
pub proof fn law_block_reads_back(
    decoder_fields: Seq<(Seq<char>, Seq<char>)>,
    decoder_max: nat,
    limit: nat,
    encoder_fields: Seq<(Seq<char>, Seq<char>)>,
    encoder_max: nat,
    huffman: bool,
    pending: Option<nat>,
    list: Seq<(Seq<char>, Seq<char>)>,
)
    requires
        total(decoder_fields) <= decoder_max,
        total(encoder_fields) <= encoder_max <= 0xffff_ffff,
        carried(list),
        match pending {
            None => encoder_fields == decoder_fields && encoder_max == decoder_max,
            Some(size) => size == encoder_max && size <= limit && encoder_fields == evicted(
                decoder_fields,
                size,
            ),
        },
    ensures
        ({
            let (block, after) = block_encoded(
                encoder_fields,
                encoder_max,
                huffman,
                pending,
                list,
            );
            block_from(decoder_fields, decoder_max, limit, block, 0, seq![]) == Ok::<
                (Seq<(Seq<char>, Seq<char>)>, Seq<(Seq<char>, Seq<char>)>, nat),
                (Seq<(Seq<char>, Seq<char>)>, nat),
            >((list, after, encoder_max))
        }),
{
    let (body, after) = list_encoded(encoder_fields, encoder_max, huffman, list);
    let none: Seq<(Seq<char>, Seq<char>)> = seq![];
    assert(none + list =~= list);
    match pending {
        None => {
            assert(body.skip(0) =~= body);
            lemma_list_reads_back(
                encoder_fields,
                encoder_max,
                limit,
                huffman,
                list,
                body,
                0,
                none,
            );
        },
        Some(size) => {
            let head = encoded(size, 5, 0x20);
            let block = head + body;
            law_integer_round_trips(size, 5, 0x20, body);
            lemma_first_octet(size, 5, 0x20);
            let low: u8 = if size < 31 { size as u8 } else { 31u8 };
            assert(low < 32 ==> 32 <= 0x20u8 | low < 64) by (bit_vector);
            assert(block.skip(0) =~= block);
            assert(block.skip(head.len() as int) =~= body);
            lemma_list_reads_back(
                encoder_fields,
                encoder_max,
                limit,
                huffman,
                list,
                block,
                head.len(),
                none,
            );
        },
    }
}

} // verus!
