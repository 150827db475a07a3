//! A network in prefix notation, and whether an address falls inside it.
//!
//! `10.0.0.0/8`, `192.168.1.0/24`, `2001:db8::/32`, or a bare address for the
//! one-host network. A trusted-proxy list and an authorization rule are both
//! written in it.

use vstd::prelude::*;
use vstd::utf8::*;

use crate::ascii::{
    cut, decimal, find_from, index_of, lemma_ascii_valid, lemma_cuttable_ascii,
    lemma_decimal_ascii, lemma_index_of, push_decimal, trim, trimmed, unsigned,
};
use crate::authority::port_of;
use crate::ip::Ip;
use crate::text::{push_str, string_of, utf8};
use crate::NetError;

verus! {

broadcast use {encode_utf8_valid_utf8, valid_utf8_concat};

/// A range of addresses, as a prefix.
#[derive(Clone, Copy, Debug, PartialEq, Eq, Structural)]
pub struct Network {
    address: Ip,
    prefix: u8,
}

/// A network's address and the length of its prefix.
pub struct NetworkView {
    pub address: Ip,
    pub prefix: u8,
}

impl View for Network {
    type V = NetworkView;

    closed spec fn view(&self) -> NetworkView {
        NetworkView { address: self.address, prefix: self.prefix }
    }
}

/// The bits an address of the family of `ip` has.
pub open spec fn widest(ip: Ip) -> nat {
    match ip {
        Ip::V4(_) => 32,
        Ip::V6(_) => 128,
    }
}

/// The text of a network, trimmed: the address, and the prefix where a `/`
/// gives one.
pub open spec fn halves(t: Seq<u8>) -> (Seq<u8>, Option<Seq<u8>>) {
    let slash = index_of(t, 0x2f, 0);
    if slash < t.len() {
        (t.subrange(0, slash), Some(t.subrange(slash + 1, t.len() as int)))
    } else {
        (t, None)
    }
}

/// The network of `address`, read from the address half of the trimmed
/// text `t`, and the prefix half `prefix`; or why it is none: `Err(None)`
/// where the address does not read, `Err(Some(widest))` where the prefix is
/// longer than its family allows.
pub open spec fn network_of(address: Option<Ip>, prefix: Option<Seq<u8>>) -> Result<
    (Ip, u8),
    Option<nat>,
> {
    match address {
        None => Err(None),
        Some(ip) => match prefix {
            None => Ok((ip, widest(ip) as u8)),
            Some(p) => match unsigned(p, 255) {
                Some(n) if n <= widest(ip) => Ok((ip, n as u8)),
                _ => Err(Some(widest(ip))),
            },
        },
    }
}

/// What [`Network::of`] says of the network text `t` it refuses.
pub open spec fn refused_network(t: Seq<u8>, why: Option<nat>) -> Seq<u8> {
    match why {
        Some(widest) => utf8("'"@) + t + utf8("' has a prefix longer than "@) + decimal(widest)
            + utf8(" bits"@),
        None => utf8("'"@) + t + utf8("' is not a network as address/prefix"@),
    }
}

/// The high `prefix` bits of 32 set.
pub open spec fn mask32(prefix: u8) -> u32 {
    u32::MAX << ((32 - prefix) as u32)
}

/// The high `prefix` bits of 128 set.
pub open spec fn mask128(prefix: u8) -> u128 {
    u128::MAX << ((128 - prefix) as u32)
}

/// Whether `address` is inside the network of `network` and `prefix`; an
/// address of the other family never is.
pub open spec fn inside(network: Ip, prefix: u8, address: Ip) -> bool {
    match (network, address) {
        (Ip::V4(n), Ip::V4(a)) => prefix == 0 || n & mask32(prefix) == a & mask32(prefix),
        (Ip::V6(n), Ip::V6(a)) => prefix == 0 || n & mask128(prefix) == a & mask128(prefix),
        _ => false,
    }
}

fn refused(text: &str, why: &str) -> (e: NetError)
    ensures
        utf8(e.message@) == utf8("'"@) + utf8(text@) + utf8(why@),
        e.io is None,
{
    let mut out: Vec<u8> = Vec::new();
    push_str(&mut out, "'");
    push_str(&mut out, text);
    push_str(&mut out, why);
    proof {
        assert(valid_utf8(Seq::<u8>::empty()));
    }
    NetError::new(string_of(out))
}

impl Network {
    /// A prefix is never longer than its address's family allows.
    #[verifier::type_invariant]
    spec fn well_formed(self) -> bool {
        self.prefix <= widest(self.address)
    }

    /// The text of a network, `address/prefix` or a bare address, trimmed
    /// and cut at its `/`: the address half, and the prefix half where there
    /// is one. The address half is read as an IP address by the caller,
    /// which hands it to [`Network::of`].
    pub fn split(text: &str) -> (r: (&str, &str, Option<&str>))
        ensures
            utf8(r.0@) == trimmed(utf8(text@)),
            utf8(r.1@) == halves(trimmed(utf8(text@))).0,
            match r.2 {
                Some(p) => halves(trimmed(utf8(text@))).1 == Some(utf8(p@)),
                None => halves(trimmed(utf8(text@))).1 is None,
            },
    {
        let text = trim(text);
        let ghost t = utf8(text@);
        let bytes = text.as_bytes();
        let slash = find_from(bytes, 0x2f, 0);
        proof {
            lemma_index_of(t, 0x2f, 0);
        }
        if slash < bytes.len() {
            proof {
                lemma_cuttable_ascii(t, slash as int);
            }
            let (address, _) = cut(text, slash);
            let (_, prefix) = cut(text, slash + 1);
            (text, address, Some(prefix))
        } else {
            (text, text, None)
        }
    }

    /// The network of `address`, the address half of the trimmed network
    /// text `text` as it reads (`None` where it is no IP address), and its
    /// prefix half.
    ///
    /// # Errors
    ///
    /// When the address does not parse or the prefix is longer than the
    /// address family allows.
    pub fn of(text: &str, address: Option<Ip>, prefix: Option<&str>) -> (r: Result<Self, NetError>)
        ensures
            match r {
                Ok(network) => network_of(
                    address,
                    match prefix {
                        Some(p) => Some(utf8(p@)),
                        None => None,
                    },
                ) == Ok::<(Ip, u8), Option<nat>>((network@.address, network@.prefix)),
                Err(e) => network_of(
                    address,
                    match prefix {
                        Some(p) => Some(utf8(p@)),
                        None => None,
                    },
                ) matches Err(why) && utf8(e.message@) == refused_network(utf8(text@), why),
            },
    {
        let address = match address {
            Some(ip) => ip,
            None => {
                return Err(refused(text, "' is not a network as address/prefix"));
            },
        };
        let widest: u8 = if address.is_v4() {
            32
        } else {
            128
        };
        let prefix = match prefix {
            None => widest,
            Some(prefix) => match port_of(prefix.as_bytes()) {
                Some(p) if p <= widest as u16 => p as u8,
                _ => {
                    let mut out: Vec<u8> = Vec::new();
                    push_str(&mut out, "'");
                    push_str(&mut out, text);
                    push_str(&mut out, "' has a prefix longer than ");
                    push_decimal(&mut out, widest as u64);
                    proof {
                        assert(valid_utf8(Seq::<u8>::empty()));
                        lemma_decimal_ascii(widest as nat);
                        lemma_ascii_valid(decimal(widest as nat));
                    }
                    push_str(&mut out, " bits");
                    return Err(NetError::new(string_of(out)));
                },
            },
        };
        Ok(Network { address, prefix })
    }

    /// The network's address.
    pub fn address(&self) -> (r: Ip)
        ensures
            r == self@.address,
    {
        self.address
    }

    /// The length of the network's prefix.
    pub fn prefix(&self) -> (r: u8)
        ensures
            r == self@.prefix,
    {
        self.prefix
    }

    /// Whether an address is inside this network. An address of the other
    /// family never is.
    pub fn contains(&self, address: Ip) -> (r: bool)
        ensures
            r == inside(self@.address, self@.prefix, address),
            self@.prefix <= widest(self@.address),
    {
        proof {
            use_type_invariant(self);
        }
        match (self.address, address) {
            (Ip::V4(network), Ip::V4(address)) => {
                if self.prefix == 0 {
                    return true;
                }
                let mask: u32 = u32::MAX << (32 - self.prefix as u32);
                (network & mask) == (address & mask)
            },
            (Ip::V6(network), Ip::V6(address)) => {
                if self.prefix == 0 {
                    return true;
                }
                let mask: u128 = u128::MAX << (128 - self.prefix as u32);
                (network & mask) == (address & mask)
            },
            _ => false,
        }
    }

}

/// A network holds its own address, and a prefix of 0 holds every address
/// of its family.
pub proof fn law_network_holds_its_address(network: Ip, prefix: u8, address: Ip)
    requires
        prefix <= widest(network),
    ensures
        inside(network, prefix, network),
        prefix == 0 && widest(address) == widest(network) ==> inside(network, prefix, address),
        widest(address) != widest(network) ==> !inside(network, prefix, address),
{
}

} // verus!
