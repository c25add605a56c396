//! IP addresses, prefixes, and transport endpoints as plain integers.

use vstd::prelude::*;

verus! {

/// An IPv4 or IPv6 address, held as its big-endian integer value.
#[derive(Clone, Copy, Debug, PartialEq, Eq, Structural)]
pub enum IpAddr {
    V4(u32),
    V6(u128),
}

/// A network prefix: an address and a prefix length.
#[derive(Clone, Copy, Debug, PartialEq, Eq, Structural)]
pub struct IpPrefix {
    pub address: IpAddr,
    pub prefix_len: u8,
}

/// A transport endpoint: an address and a port.
#[derive(Clone, Copy, Debug, PartialEq, Eq, Structural)]
pub struct SocketAddr {
    pub ip: IpAddr,
    pub port: u16,
}

/// The IPv4 netmask of `prefix_len` leading one bits (none past 32).
pub open spec fn ipv4_mask_spec(prefix_len: u8) -> u32 {
    if prefix_len == 0 {
        0
    } else if prefix_len <= 32 {
        u32::MAX << ((32 - prefix_len) as u32)
    } else {
        0
    }
}

/// The IPv6 netmask of `prefix_len` leading one bits (none past 128).
pub open spec fn ipv6_mask_spec(prefix_len: u8) -> u128 {
    if prefix_len == 0 {
        0
    } else if prefix_len <= 128 {
        u128::MAX << ((128 - prefix_len) as u128)
    } else {
        0
    }
}

pub fn ipv4_mask(prefix_len: u8) -> (m: u32)
    ensures
        m == ipv4_mask_spec(prefix_len),
{
    if prefix_len == 0 {
        0
    } else if prefix_len <= 32 {
        u32::MAX << ((32 - prefix_len) as u32)
    } else {
        0
    }
}

pub fn ipv6_mask(prefix_len: u8) -> (m: u128)
    ensures
        m == ipv6_mask_spec(prefix_len),
{
    if prefix_len == 0 {
        0
    } else if prefix_len <= 128 {
        u128::MAX << ((128 - prefix_len) as u128)
    } else {
        0
    }
}

/// No host bits are set below the prefix length.
pub open spec fn prefix_canonical(p: IpPrefix) -> bool {
    match p.address {
        IpAddr::V4(a) => p.prefix_len <= 32 && a & ipv4_mask_spec(p.prefix_len) == a,
        IpAddr::V6(a) => p.prefix_len <= 128 && a & ipv6_mask_spec(p.prefix_len) == a,
    }
}

/// `address` lies in the network of `p`.
pub open spec fn prefix_contains(p: IpPrefix, address: IpAddr) -> bool {
    match (p.address, address) {
        (IpAddr::V4(n), IpAddr::V4(c)) => p.prefix_len <= 32 && c & ipv4_mask_spec(p.prefix_len)
            == n,
        (IpAddr::V6(n), IpAddr::V6(c)) => p.prefix_len <= 128 && c & ipv6_mask_spec(p.prefix_len)
            == n,
        _ => false,
    }
}

/// Either prefix contains the other's network address.
pub open spec fn prefixes_overlap(a: IpPrefix, b: IpPrefix) -> bool {
    prefix_contains(a, b.address) || prefix_contains(b, a.address)
}

/// Address order: every IPv4 address before every IPv6 address, then by value.
pub open spec fn address_lt(a: IpAddr, b: IpAddr) -> bool {
    match (a, b) {
        (IpAddr::V4(x), IpAddr::V4(y)) => x < y,
        (IpAddr::V6(x), IpAddr::V6(y)) => x < y,
        (IpAddr::V4(_), IpAddr::V6(_)) => true,
        (IpAddr::V6(_), IpAddr::V4(_)) => false,
    }
}

/// Prefix order: by address, then by prefix length.
pub open spec fn prefix_lt(a: IpPrefix, b: IpPrefix) -> bool {
    address_lt(a.address, b.address) || (a.address == b.address && a.prefix_len < b.prefix_len)
}

pub fn address_less(a: IpAddr, b: IpAddr) -> (r: bool)
    ensures
        r == address_lt(a, b),
{
    match (a, b) {
        (IpAddr::V4(x), IpAddr::V4(y)) => x < y,
        (IpAddr::V6(x), IpAddr::V6(y)) => x < y,
        (IpAddr::V4(_), IpAddr::V6(_)) => true,
        (IpAddr::V6(_), IpAddr::V4(_)) => false,
    }
}

pub fn prefix_less(a: IpPrefix, b: IpPrefix) -> (r: bool)
    ensures
        r == prefix_lt(a, b),
{
    address_less(a.address, b.address) || (a.address == b.address && a.prefix_len < b.prefix_len)
}

pub proof fn lemma_prefix_total(a: IpPrefix, b: IpPrefix)
    ensures
        prefix_lt(a, b) || a == b || prefix_lt(b, a),
{
}

impl IpPrefix {
    pub fn is_canonical(self) -> (r: bool)
        ensures
            r == prefix_canonical(self),
    {
        match self.address {
            IpAddr::V4(a) => self.prefix_len <= 32 && a & ipv4_mask(self.prefix_len) == a,
            IpAddr::V6(a) => self.prefix_len <= 128 && a & ipv6_mask(self.prefix_len) == a,
        }
    }

    pub fn contains(self, address: IpAddr) -> (r: bool)
        ensures
            r == prefix_contains(self, address),
    {
        match (self.address, address) {
            (IpAddr::V4(n), IpAddr::V4(c)) => self.prefix_len <= 32 && c & ipv4_mask(
                self.prefix_len,
            ) == n,
            (IpAddr::V6(n), IpAddr::V6(c)) => self.prefix_len <= 128 && c & ipv6_mask(
                self.prefix_len,
            ) == n,
            _ => false,
        }
    }

    pub fn overlaps(self, other: Self) -> (r: bool)
        ensures
            r == prefixes_overlap(self, other),
    {
        self.contains(other.address) || other.contains(self.address)
    }
}

/// The unspecified address (all zero).
pub open spec fn address_unspecified(a: IpAddr) -> bool {
    match a {
        IpAddr::V4(x) => x == 0,
        IpAddr::V6(x) => x == 0,
    }
}

/// 127.0.0.0/8 or ::1.
pub open spec fn address_loopback(a: IpAddr) -> bool {
    match a {
        IpAddr::V4(x) => x >> 24u32 == 127,
        IpAddr::V6(x) => x == 1,
    }
}

/// 224.0.0.0/4 or ff00::/8.
pub open spec fn address_multicast(a: IpAddr) -> bool {
    match a {
        IpAddr::V4(x) => x >> 28u32 == 14,
        IpAddr::V6(x) => x >> 120u128 == 0xff,
    }
}

/// The IPv4 limited broadcast address 255.255.255.255.
pub open spec fn address_broadcast(a: IpAddr) -> bool {
    a == IpAddr::V4(0xffff_ffffu32)
}

impl IpAddr {
    pub fn is_unspecified(self) -> (r: bool)
        ensures
            r == address_unspecified(self),
    {
        match self {
            IpAddr::V4(x) => x == 0,
            IpAddr::V6(x) => x == 0,
        }
    }

    pub fn is_loopback(self) -> (r: bool)
        ensures
            r == address_loopback(self),
    {
        match self {
            IpAddr::V4(x) => x >> 24u32 == 127,
            IpAddr::V6(x) => x == 1,
        }
    }

    pub fn is_multicast(self) -> (r: bool)
        ensures
            r == address_multicast(self),
    {
        match self {
            IpAddr::V4(x) => x >> 28u32 == 14,
            IpAddr::V6(x) => x >> 120u128 == 0xff,
        }
    }
}

} // verus!
