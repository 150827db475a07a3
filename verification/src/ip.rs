//! An IP address as the library carries it: the 32 or 128 bits of its
//! family. The text of one is read and written where the standard
//! library's address types are at hand, and handed over as these bits.

use vstd::prelude::*;

verus! {

/// An IPv4 or an IPv6 address, as its bits, most significant first.
#[derive(Clone, Copy, Debug, PartialEq, Eq, Structural)]
pub enum Ip {
    V4(u32),
    V6(u128),
}

/// Whether `ip` names this machine: `127.0.0.0/8`, or `::1`.
pub open spec fn is_loopback(ip: Ip) -> bool {
    match ip {
        Ip::V4(bits) => bits >> 24u32 == 127,
        Ip::V6(bits) => bits == 1,
    }
}

impl Ip {
    /// Whether the address names this machine.
    pub fn loopback(self) -> (r: bool)
        ensures
            r == is_loopback(self),
    {
        match self {
            Ip::V4(bits) => bits >> 24u32 == 127,
            Ip::V6(bits) => bits == 1,
        }
    }

    /// Whether the address is IPv4.
    pub fn is_v4(self) -> (r: bool)
        ensures
            r == (self is V4),
    {
        matches!(self, Ip::V4(_))
    }
}

} // verus!
