//! The decoding side of RFC 7541 section 6: a header block read field by
//! field, indexed or literal, into the list it carries, keeping the
//! dynamic table the encoder on the other side keeps.

use vstd::prelude::*;
use vstd::utf8::*;

use super::literal::string_literal;
use super::table::{evicted, field_at, inserted, Table};
use super::{integer, literal};
use crate::http2::error::{ErrorCode, Violation};
use crate::text::owned;
use crate::ascii::with_numbers;

verus! {

/// The text of the string literal at the start of `input`, where it is
/// UTF-8, and the octets it takes.
pub open spec fn text_at(input: Seq<u8>) -> Option<(Seq<char>, nat)> {
    match string_literal(input) {
        Some((bytes, used)) => if valid_utf8(bytes) {
            Some((decode_utf8(bytes), used))
        } else {
            None
        },
        None => None,
    }
}

/// A literal field at the start of `input` whose name is indexed in a
/// `prefix`-bit prefix, or follows as a string where the index is 0: the
/// name, the value and the octets it takes.
pub open spec fn literal_field(
    fields: Seq<(Seq<char>, Seq<char>)>,
    input: Seq<u8>,
    prefix: u8,
) -> Option<(Seq<char>, Seq<char>, nat)> {
    match integer::decoded(input, prefix) {
        None => None,
        Some((index, at)) => {
            let name: Option<(Seq<char>, nat)> = if index == 0 {
                match text_at(input.skip(at as int)) {
                    Some((name, used)) => Some((name, at + used)),
                    None => None,
                }
            } else {
                match field_at(fields, index as usize) {
                    Some(field) => Some((field.0, at)),
                    None => None,
                }
            };
            match name {
                None => None,
                Some((name, after)) => match text_at(input.skip(after as int)) {
                    Some((value, used)) => Some((name, value, after + used)),
                    None => None,
                },
            }
        },
    }
}

/// A header block read from `at` on, from a dynamic table of `fields`
/// that may hold `max_size` and be resized to at most `limit`, with `out`
/// read so far: every field in order and the table after them, or, where
/// the block is broken, the table as it stood when it broke.
pub open spec fn block_from(
    fields: Seq<(Seq<char>, Seq<char>)>,
    max_size: nat,
    limit: nat,
    block: Seq<u8>,
    at: nat,
    out: Seq<(Seq<char>, Seq<char>)>,
) -> Result<(Seq<(Seq<char>, Seq<char>)>, Seq<(Seq<char>, Seq<char>)>, nat), (Seq<(Seq<char>, Seq<char>)>, nat)>
    decreases block.len() - at,
{
    if at >= block.len() {
        Ok((out, fields, max_size))
    } else {
        let rest = block.skip(at as int);
        let first = rest[0];
        if first >= 128 {
            match integer::decoded(rest, 7) {
                Some((index, used)) => match field_at(fields, index as usize) {
                    Some(field) => if 0 < used && at + used <= block.len() {
                        block_from(fields, max_size, limit, block, at + used, out.push(field))
                    } else {
                        Err((fields, max_size))
                    },
                    None => Err((fields, max_size)),
                },
                None => Err((fields, max_size)),
            }
        } else if first >= 64 {
            match literal_field(fields, rest, 6) {
                Some((name, value, used)) => if 0 < used && at + used <= block.len() {
                    block_from(
                        inserted(fields, max_size, (name, value)),
                        max_size,
                        limit,
                        block,
                        at + used,
                        out.push((name, value)),
                    )
                } else {
                    Err((fields, max_size))
                },
                None => Err((fields, max_size)),
            }
        } else if first >= 32 {
            if out.len() > 0 {
                Err((fields, max_size))
            } else {
                match integer::decoded(rest, 5) {
                    Some((size, used)) => if size > limit || used == 0 || at + used > block.len() {
                        Err((fields, max_size))
                    } else {
                        block_from(evicted(fields, size), size, limit, block, at + used, out)
                    },
                    None => Err((fields, max_size)),
                }
            }
        } else {
            match literal_field(fields, rest, 4) {
                Some((name, value, used)) => if 0 < used && at + used <= block.len() {
                    block_from(fields, max_size, limit, block, at + used, out.push((name, value)))
                } else {
                    Err((fields, max_size))
                },
                None => Err((fields, max_size)),
            }
        }
    }
}

/// The fields a list of names and values holds.
pub open spec fn fields_of(list: Seq<(String, String)>) -> Seq<(Seq<char>, Seq<char>)> {
    list.map_values(|field: (String, String)| (field.0@, field.1@))
}

/// One side's decoder: its dynamic table, and the most a size update from
/// the encoder may set it to — the `SETTINGS_HEADER_TABLE_SIZE` this side
/// announced.
#[derive(Clone, Debug)]
pub struct Decoder {
    table: Table,
    limit: usize,
}

impl View for Decoder {
    /// The dynamic fields, the size they may hold, and the most it may be
    /// set to.
    type V = (Seq<(Seq<char>, Seq<char>)>, nat, nat);

    closed spec fn view(&self) -> Self::V {
        (self.table@.0, self.table@.1, self.limit as nat)
    }
}

impl Decoder {
    /// Whether the table keeps its size.
    pub closed spec fn wf(&self) -> bool {
        self.table.wf()
    }

    /// A decoder whose table may hold at most `limit` octets.
    pub fn new(limit: usize) -> (decoder: Self)
        ensures
            decoder.wf(),
            decoder@ == (Seq::<(Seq<char>, Seq<char>)>::empty(), limit as nat, limit as nat),
    {
        Decoder { table: Table::new(limit), limit }
    }

    /// The dynamic table as it stands.
    pub fn table(&self) -> (r: &Table)
        requires
            self.wf(),
        ensures
            r.wf(),
            r@ == (self@.0, self@.1),
    {
        &self.table
    }

    /// Every field of `block`, in order.
    ///
    /// # Errors
    ///
    /// A `COMPRESSION_ERROR` where a field is broken, an index is past the
    /// table, or a size update comes after a field or over the limit
    /// (section 4.2).
    pub fn decode(&mut self, block: &[u8]) -> (r: Result<Vec<(String, String)>, Violation>)
        requires
            old(self).wf(),
        ensures
            final(self).wf(),
            final(self)@.2 == old(self)@.2,
            match r {
                Ok(list) => (block_from(old(self)@.0, old(self)@.1, old(self)@.2, block@, 0, seq![])
                    matches Ok((got, fields, max_size)) && got == fields_of(list@) && fields
                    == final(self)@.0 && max_size == final(self)@.1),
                Err(violation) => violation.code == ErrorCode::Compression && (block_from(
                    old(self)@.0,
                    old(self)@.1,
                    old(self)@.2,
                    block@,
                    0,
                    seq![],
                ) matches Err((fields, max_size)) && fields == final(self)@.0 && max_size == final(self)@.1),
            },
    {
        let mut list: Vec<(String, String)> = Vec::new();
        let mut at: usize = 0;
        assert(fields_of(list@) =~= seq![]);
        while at < block.len()
            invariant
                self.wf(),
                self@.2 == old(self)@.2,
                at <= block@.len(),
                block_from(old(self)@.0, old(self)@.1, old(self)@.2, block@, 0, seq![])
                    == block_from(self@.0, self@.1, self@.2, block@, at as nat, fields_of(list@)),
            decreases block.len() - at,
        {
            let rest = &block[at..block.len()];
            assert(rest@ =~= block@.skip(at as int));
            let first = rest[0];
            let ghost seen = fields_of(list@);
            if first >= 128 {
                let (index, used) = match integer::decode(rest, 7) {
                    Ok(read) => read,
                    Err(violation) => return Err(violation),
                };
                let (name, value) = match self.table.get(index) {
                    Ok(field) => field,
                    Err(violation) => return Err(violation),
                };
                let field = (owned(name), owned(value));
                list.push(field);
                assert(fields_of(list@) =~= seen.push((name@, value@)));
                at = at + used;
            } else if first >= 64 {
                let (name, value, used) = match self.literal(rest, 6) {
                    Ok(read) => read,
                    Err(violation) => return Err(violation),
                };
                let ghost pair = (name@, value@);
                self.table.insert(owned(name.as_str()), owned(value.as_str()));
                list.push((name, value));
                assert(fields_of(list@) =~= seen.push(pair));
                at = at + used;
            } else if first >= 32 {
                if list.len() > 0 {
                    return Err(Violation::compression("a table size update after the first field"));
                }
                let (size, used) = match integer::decode(rest, 5) {
                    Ok(read) => read,
                    Err(violation) => return Err(violation),
                };
                if size > self.limit {
                    return Err(Violation::compression(
                        with_numbers(
                            "a table size of ",
                            size as u64,
                            ", over the ",
                            self.limit as u64,
                            " announced",
                        ).as_str(),
                    ));
                }
                self.table.resize(size);
                at = at + used;
            } else {
                // Without indexing (0000) and never indexed (0001) read
                // alike; neither touches the table.
                let (name, value, used) = match self.literal(rest, 4) {
                    Ok(read) => read,
                    Err(violation) => return Err(violation),
                };
                let ghost pair = (name@, value@);
                list.push((name, value));
                assert(fields_of(list@) =~= seen.push(pair));
                at = at + used;
            }
        }
        Ok(list)
    }

    /// A literal field whose name is indexed in a `prefix`-bit prefix, or
    /// follows as a string where the index is 0.
    fn literal(&self, input: &[u8], prefix: u8) -> (r: Result<(String, String, usize), Violation>)
        requires
            self.wf(),
            prefix <= 8,
        ensures
            match r {
                Ok((name, value, used)) => literal_field(self@.0, input@, prefix) == Some(
                    (name@, value@, used as nat),
                ) && 0 < used <= input@.len(),
                Err(violation) => literal_field(self@.0, input@, prefix) is None && violation.code
                    == ErrorCode::Compression,
            },
    {
        let (index, mut at) = integer::decode(input, prefix)?;
        let name = if index == 0 {
            let (name, used) = literal::decode(&input[at..input.len()])?;
            proof {
                assert(input@.subrange(at as int, input@.len() as int) =~= input@.skip(at as int));
                encode_utf8_decode_utf8(name@);
                encode_utf8_valid_utf8(name@);
            }
            at = at + used;
            name
        } else {
            let (name, _) = self.table.get(index)?;
            owned(name)
        };
        let (value, used) = literal::decode(&input[at..input.len()])?;
        proof {
            assert(input@.subrange(at as int, input@.len() as int) =~= input@.skip(at as int));
            encode_utf8_decode_utf8(value@);
            encode_utf8_valid_utf8(value@);
        }
        Ok((name, value, at + used))
    }
}

} // verus!
