//! The encoding side of RFC 7541 section 6: a header list written as a
//! block, each field indexed where the table holds it whole, otherwise a
//! literal added to the table, its name indexed where the table holds
//! that — the representations Appendix C shows.

use vstd::prelude::*;
use vstd::utf8::*;

use super::literal::literal;
use super::table::{found, inserted, Found, Table};
use super::{integer, literal};
use crate::text::owned;

verus! {

/// One field written against a dynamic table of `fields` that may hold
/// `max_size`: its representation, and the table after it.
#[verifier::opaque]
pub open spec fn field_encoded(
    fields: Seq<(Seq<char>, Seq<char>)>,
    max_size: nat,
    huffman: bool,
    name: Seq<char>,
    value: Seq<char>,
) -> (Seq<u8>, Seq<(Seq<char>, Seq<char>)>) {
    match found(fields, name, value) {
        Some(Found::Field(index)) => (integer::encoded(index as nat, 7, 0x80), fields),
        Some(Found::Name(index)) => (
            integer::encoded(index as nat, 6, 0x40) + literal(encode_utf8(value), huffman),
            inserted(fields, max_size, (name, value)),
        ),
        None => (
            seq![0x40u8] + literal(encode_utf8(name), huffman) + literal(encode_utf8(value), huffman),
            inserted(fields, max_size, (name, value)),
        ),
    }
}

/// A list of fields written one after another: the octets, and the table
/// after them.
pub open spec fn list_encoded(
    fields: Seq<(Seq<char>, Seq<char>)>,
    max_size: nat,
    huffman: bool,
    list: Seq<(Seq<char>, Seq<char>)>,
) -> (Seq<u8>, Seq<(Seq<char>, Seq<char>)>)
    decreases list.len(),
{
    if list.len() == 0 {
        (seq![], fields)
    } else {
        let (before, middle) = list_encoded(fields, max_size, huffman, list.drop_last());
        let (last, after) = field_encoded(middle, max_size, huffman, list.last().0, list.last().1);
        (before + last, after)
    }
}

/// A header block: a size change still to be announced, then the list.
pub open spec fn block_encoded(
    fields: Seq<(Seq<char>, Seq<char>)>,
    max_size: nat,
    huffman: bool,
    pending: Option<nat>,
    list: Seq<(Seq<char>, Seq<char>)>,
) -> (Seq<u8>, Seq<(Seq<char>, Seq<char>)>) {
    let (body, after) = list_encoded(fields, max_size, huffman, list);
    match pending {
        Some(size) => (integer::encoded(size, 5, 0x20) + body, after),
        None => (body, after),
    }
}

/// Whether every name and value of `list` is short enough to be sized.
pub open spec fn sizable(list: Seq<(&str, &str)>) -> bool {
    forall|i: int|
        0 <= i < list.len() ==> encode_utf8(#[trigger] list[i].0@).len() <= usize::MAX / 4
            && encode_utf8(list[i].1@).len() <= usize::MAX / 4
}

/// The fields of a list of borrowed names and values.
pub open spec fn borrowed_fields(list: Seq<(&str, &str)>) -> Seq<(Seq<char>, Seq<char>)> {
    list.map_values(|field: (&str, &str)| (field.0@, field.1@))
}

/// One side's encoder: its dynamic table, whether strings are Huffman-coded,
/// and a size change the next block must announce.
#[derive(Clone, Debug)]
pub struct Encoder {
    table: Table,
    huffman: bool,
    pending: Option<usize>,
}

impl View for Encoder {
    /// The dynamic fields, the size they may hold, whether strings are
    /// Huffman-coded, and the size change still to be announced.
    type V = (Seq<(Seq<char>, Seq<char>)>, nat, bool, Option<nat>);

    closed spec fn view(&self) -> Self::V {
        (
            self.table@.0,
            self.table@.1,
            self.huffman,
            match self.pending {
                Some(size) => Some(size as nat),
                None => None,
            },
        )
    }
}

impl Encoder {
    /// Whether the table keeps its size.
    pub closed spec fn wf(&self) -> bool {
        self.table.wf()
    }

    /// An encoder with a table of `max_size` octets, Huffman-coding its
    /// strings where `huffman` says so.
    pub fn new(max_size: usize, huffman: bool) -> (encoder: Self)
        ensures
            encoder.wf(),
            encoder@ == (Seq::<(Seq<char>, Seq<char>)>::empty(), max_size as nat, huffman, None::<
                nat,
            >),
    {
        Encoder { table: Table::new(max_size), huffman, pending: None }
    }

    /// The dynamic table as it stands.
    pub fn table(&self) -> (r: &Table)
        requires
            self.wf(),
        ensures
            r.wf(),
            r@ == (self@.0, self@.1),
    {
        &self.table
    }

    /// Hold the table to `max_size` octets — what the peer's
    /// `SETTINGS_HEADER_TABLE_SIZE` allows — and announce it at the start
    /// of the next block (section 4.2).
    pub fn resize(&mut self, max_size: usize)
        requires
            old(self).wf(),
        ensures
            final(self).wf(),
            final(self)@ == if max_size as nat == old(self)@.1 {
                old(self)@
            } else {
                (
                    super::table::evicted(old(self)@.0, max_size as nat),
                    max_size as nat,
                    old(self)@.2,
                    Some(max_size as nat),
                )
            },
    {
        if max_size != self.table.max_size() {
            self.table.resize(max_size);
            self.pending = Some(max_size);
        }
    }

    /// `fields` as one header block.
    pub fn encode(&mut self, fields: &[(&str, &str)]) -> (block: Vec<u8>)
        requires
            old(self).wf(),
            sizable(fields@),
        ensures
            final(self).wf(),
            final(self)@.1 == old(self)@.1,
            final(self)@.2 == old(self)@.2,
            final(self)@.3 == None::<nat>,
            (block@, final(self)@.0) == block_encoded(
                old(self)@.0,
                old(self)@.1,
                old(self)@.2,
                old(self)@.3,
                borrowed_fields(fields@),
            ),
    {
        let mut out: Vec<u8> = Vec::new();
        let ghost start = self@;
        let ghost head: Seq<u8> = seq![];
        if let Some(size) = self.pending {
            integer::encode(size, 5, 0x20, &mut out);
            proof {
                head = out@;
            }
        }
        self.pending = None;
        let mut i: usize = 0;
        while i < fields.len()
            invariant
                self.wf(),
                i <= fields@.len(),
                sizable(fields@),
                self@.1 == start.1,
                self@.2 == start.2,
                self@.3 == None::<nat>,
                head == match start.3 {
                    Some(size) => integer::encoded(size, 5, 0x20),
                    None => seq![],
                },
                (out@, self@.0) == ({
                    let (body, after) = list_encoded(
                        start.0,
                        start.1,
                        start.2,
                        borrowed_fields(fields@).take(i as int),
                    );
                    (head + body, after)
                }),
            decreases fields.len() - i,
        {
            let (name, value) = fields[i];
            assert(borrowed_fields(fields@).take(i + 1).drop_last() =~= borrowed_fields(
                fields@,
            ).take(i as int));
            assert(encode_utf8(fields@[i as int].0@).len() <= usize::MAX / 4);
            let ghost before = out@;
            match self.table.find(name, value) {
                Some(Found::Field(index)) => {
                    integer::encode(index, 7, 0x80, &mut out);
                },
                Some(Found::Name(index)) => {
                    integer::encode(index, 6, 0x40, &mut out);
                    literal::encode(value, self.huffman, &mut out);
                    self.table.insert(owned(name), owned(value));
                },
                None => {
                    out.push(0x40);
                    literal::encode(name, self.huffman, &mut out);
                    literal::encode(value, self.huffman, &mut out);
                    self.table.insert(owned(name), owned(value));
                },
            }
            proof {
                reveal(field_encoded);
                let taken = borrowed_fields(fields@).take(i + 1);
                assert(taken.last() == (name@, value@));
                assert(out@ =~= before + field_encoded(
                    list_encoded(start.0, start.1, start.2, taken.drop_last()).1,
                    start.1,
                    start.2,
                    name@,
                    value@,
                ).0);
            }
            i = i + 1;
        }
        assert(borrowed_fields(fields@).take(fields@.len() as int) =~= borrowed_fields(fields@));
        out
    }
}

} // verus!
