use vstd::prelude::*;
use crate::addr::Ipv4Address;

verus! {

/// Where an IP packet from the tunnel is headed.
#[derive(Debug, Clone, Copy, PartialEq, Eq, Structural)]
pub enum IpDestination {
    /// The bytes are not an IP packet that etherparse can slice.
    Unparsable,
    /// Sliced, but without an IP header.
    NoIpHeader,
    /// An IPv4 packet with this destination address.
    V4(Ipv4Address),
    /// An IPv6 packet.
    V6,
}

/// What `etherparse::SlicedPacket::from_ip` makes of `packet`, reduced to
/// the destination.
pub uninterp spec fn spec_ip_destination(packet: Seq<u8>) -> IpDestination;

/// `etherparse::SlicedPacket::from_ip` on `packet`: a slicing error gives
/// `Unparsable`; otherwise the IP slice's variant, with the IPv4
/// destination address (`destination_addr`) as its 32-bit value. Claimed:
/// the result is the named function of the bytes.
#[verifier::external_body]
pub(crate) fn ip_destination(packet: &[u8]) -> (r: IpDestination)
    ensures
        r == spec_ip_destination(packet@),
{
    match etherparse::SlicedPacket::from_ip(packet) {
        Err(_) => IpDestination::Unparsable,
        Ok(sliced) => match sliced.ip {
            Some(etherparse::InternetSlice::Ipv4(header, _)) => IpDestination::V4(Ipv4Address { bits: u32::from(header.destination_addr()) }),
            Some(etherparse::InternetSlice::Ipv6(_, _)) => IpDestination::V6,
            None => IpDestination::NoIpHeader,
        },
    }
}

} // verus!
