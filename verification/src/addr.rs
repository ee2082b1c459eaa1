use vstd::prelude::*;

verus! {

/// An IPv4 address, held as its 32-bit big-endian value (the first octet is
/// the most significant byte).
#[derive(Debug, Clone, Copy, PartialEq, Eq, Structural)]
pub struct Ipv4Address {
    pub bits: u32,
}

/// The 32-bit value of the address `a.b.c.d`.
pub open spec fn octets_to_bits(a: u8, b: u8, c: u8, d: u8) -> int {
    a * 16777216 + b * 65536 + c * 256 + d
}

impl Ipv4Address {
    /// The address `a.b.c.d`.
    pub fn new(a: u8, b: u8, c: u8, d: u8) -> (r: Ipv4Address)
        ensures
            r.bits == octets_to_bits(a, b, c, d),
    {
        let a32: u32 = a as u32;
        let b32: u32 = b as u32;
        let c32: u32 = c as u32;
        let d32: u32 = d as u32;
        let bits: u32 = (a32 << 24u32) | (b32 << 16u32) | (c32 << 8u32) | d32;
        assert(bits == a32 * 16777216 + b32 * 65536 + c32 * 256 + d32) by (bit_vector)
            requires
                a32 < 256,
                b32 < 256,
                c32 < 256,
                d32 < 256,
                bits == (a32 << 24u32) | (b32 << 16u32) | (c32 << 8u32) | d32,
        ;
        Ipv4Address { bits }
    }

    /// The address 0.0.0.0.
    pub fn unspecified() -> (r: Ipv4Address)
        ensures
            r.bits == 0,
    {
        Ipv4Address { bits: 0 }
    }
}

/// An IPv6 address, held as its 128-bit big-endian value.
#[derive(Debug, Clone, Copy, PartialEq, Eq, Structural)]
pub struct Ipv6Address {
    pub bits: u128,
}

/// An IP address of either family.
#[derive(Debug, Clone, Copy, PartialEq, Eq, Structural)]
pub enum IpAddress {
    V4(Ipv4Address),
    V6(Ipv6Address),
}

/// A socket address: an IP address and a port (for IPv6 also the flow
/// information and the scope id, which take part in equality).
#[derive(Debug, Clone, Copy, PartialEq, Eq, Structural)]
pub enum SocketAddress {
    V4 { ip: Ipv4Address, port: u16 },
    V6 { ip6: Ipv6Address, port: u16, flowinfo: u32, scope_id: u32 },
}

} // verus!
