//! The connection preface of RFC 9113 section 3.4, and telling a
//! connection that opens with it — HTTP/2 by prior knowledge — from one
//! that opens with an HTTP/1.1 request line, without losing what was read
//! to tell.

use vstd::prelude::*;

use crate::text::{owned, utf8};
use crate::NetError;

verus! {

/// What a client sends first: `PRI * HTTP/2.0`, a blank line, `SM`, a
/// blank line. An HTTP/1.1 server reads it as a request it cannot serve.
pub open spec fn preface_octets() -> Seq<u8> {
    utf8("PRI * HTTP/2.0\r\n\r\nSM\r\n\r\n"@)
}

/// The preface, as octets.
pub fn preface() -> (r: &'static [u8])
    ensures
        r@ == preface_octets(),
        r@.len() == 24,
{
    proof {
        reveal_strlit("PRI * HTTP/2.0\r\n\r\nSM\r\n\r\n");
        crate::ascii::lemma_ascii_text("PRI * HTTP/2.0\r\n\r\nSM\r\n\r\n"@);
    }
    "PRI * HTTP/2.0\r\n\r\nSM\r\n\r\n".as_bytes()
}

/// How many more octets telling the preface from a request line wants,
/// once `read` has been read: none once `read` is the whole preface or
/// parts from it.
pub open spec fn still_wanted(read: Seq<u8>) -> nat {
    if read.len() < preface_octets().len() && read == preface_octets().subrange(
        0,
        read.len() as int,
    ) {
        (preface_octets().len() - read.len()) as nat
    } else {
        0
    }
}

/// How many more octets to read before the preface is told from a request
/// line, once `read` has been read.
pub fn wanted(read: &[u8]) -> (r: usize)
    ensures
        r == still_wanted(read@),
{
    let p = preface();
    if read.len() < p.len() && crate::ascii::starts_with(p, read) {
        p.len() - read.len()
    } else {
        0
    }
}

/// Read from the octets `reader` holds until what they hold either is the
/// preface or cannot be: whether it is, and the octets read, which the
/// connection must be read with again ([`Replayed`]). An HTTP/1.1 request
/// parts from the preface at its first octet, unless its method is `PRI`.
///
/// # Errors
///
/// Where there is nothing to read.
pub fn sniff(reader: &mut &[u8]) -> (r: Result<(bool, Vec<u8>), NetError>)
    ensures
        old(reader)@.len() == 0 ==> r is Err && final(reader)@ == old(reader)@,
        old(reader)@.len() > 0 ==> (r matches Ok((h2, first)) && {
            let n = if old(reader)@.len() < 24 {
                old(reader)@.len()
            } else {
                24
            };
            &&& first@ == old(reader)@.subrange(0, n as int)
            &&& h2 == (first@ == preface_octets())
            &&& final(reader)@ == old(reader)@.subrange(n as int, old(reader)@.len() as int)
        }),
{
    let input: &[u8] = *reader;
    let p = preface();
    let mut read: Vec<u8> = Vec::new();
    let mut at: usize = 0;
    let n: usize = if input.len() < 24 {
        input.len()
    } else {
        24
    };
    while read.len() < p.len() && crate::ascii::starts_with(p, read.as_slice())
        invariant
            p@ == preface_octets(),
            p@.len() == 24,
            at == read@.len(),
            read@ == input@.subrange(0, at as int),
            at == 0 || at == n,
            n == if input@.len() < 24 {
                input@.len()
            } else {
                24
            },
            input@ == old(reader)@,
            at == 0 ==> read@ =~= p@.subrange(0, 0),
        ensures
            at == n || input@.len() == 0,
            at == read@.len(),
            read@ == input@.subrange(0, at as int),
        decreases 24 - read@.len() + (if at == 0 { 1int } else { 0int }),
    {
        let want = p.len() - read.len();
        let rest = input.len() - at;
        let count = if want < rest {
            want
        } else {
            rest
        };
        if count == 0 {
            if read.len() == 0 {
                return Err(NetError::new(owned("the connection closed before sending anything")));
            }
            break;
        }
        let mut k = at;
        let stop = at + count;
        while k < stop
            invariant
                stop == at + count,
                at + count <= input@.len(),
                at <= k <= at + count,
                read@ == input@.subrange(0, k as int),
            decreases stop - k,
        {
            read.push(input[k]);
            k = k + 1;
            proof {
                assert(read@ =~= input@.subrange(0, k as int));
            }
        }
        at = at + count;
    }
    if input.len() == 0 {
        return Err(NetError::new(owned("the connection closed before sending anything")));
    }
    *reader = vstd::slice::slice_subrange(input, at, input.len());
    let h2 = crate::text::bytes_equal(read.as_slice(), p);
    Ok((h2, read))
}

/// The octets [`sniff`] took off a connection, handed out again in order
/// before the connection itself is read: what it holds, and how far it
/// has been read again.
pub struct Replayed {
    first: Vec<u8>,
    at: usize,
}

impl Replayed {
    /// What has been read again is never past what was taken first.
    #[verifier::type_invariant]
    spec fn within(&self) -> bool {
        self.at <= self.first@.len()
    }

    /// The octets taken first that are still to be read again.
    pub closed spec fn pending(&self) -> Seq<u8> {
        self.first@.subrange(self.at as int, self.first@.len() as int)
    }

    /// `first`, to be read again from its start.
    pub fn new(first: Vec<u8>) -> (r: Self)
        ensures
            r.pending() == first@,
    {
        let r = Replayed { first, at: 0 };
        proof {
            assert(r.first@.subrange(0, r.first@.len() as int) =~= r.first@);
        }
        r
    }

    /// The next of the octets taken first, at most `room` of them, now
    /// read again; `None` once all have been, where the connection itself
    /// is read.
    pub fn replay(&mut self, room: usize) -> (r: Option<Vec<u8>>)
        ensures
            old(self).pending().len() == 0 ==> r is None && final(self).pending() == old(self).pending(),
            old(self).pending().len() > 0 ==> (r matches Some(piece) && piece@.len() == (if room
                < old(self).pending().len() {
                room as nat
            } else {
                old(self).pending().len()
            }) && piece@ == old(self).pending().subrange(0, piece@.len() as int)
                && final(self).pending() == old(self).pending().subrange(
                piece@.len() as int,
                old(self).pending().len() as int,
            )),
    {
        proof {
            use_type_invariant(&*self);
        }
        let left = self.first.len() - self.at;
        if left == 0 {
            return None;
        }
        let count = if room < left {
            room
        } else {
            left
        };
        let mut piece: Vec<u8> = Vec::new();
        let start = self.at;
        let mut k = start;
        let stop = start + count;
        while k < stop
            invariant
                stop == start + count,
                start <= k <= stop <= self.first@.len(),
                piece@ == self.first@.subrange(start as int, k as int),
            decreases stop - k,
        {
            piece.push(self.first[k]);
            k = k + 1;
            proof {
                assert(piece@ =~= self.first@.subrange(start as int, k as int));
            }
        }
        self.at = stop;
        proof {
            assert(piece@ =~= old(self).pending().subrange(0, count as int));
            assert(self.pending() =~= old(self).pending().subrange(
                count as int,
                old(self).pending().len() as int,
            ));
        }
        Some(piece)
    }
}

} // verus!
