use vstd::prelude::*;
use crate::addr::{IpAddress, Ipv4Address};

verus! {

/// A network interface of this machine: its name and its addresses.
#[derive(Debug, Clone)]
pub struct NetworkInterface {
    pub name: String,
    pub ips: Vec<IpAddress>,
}

/// Why no address could be picked for an interface.
#[derive(Debug, Clone, Copy, PartialEq, Eq, Structural)]
pub enum InterfaceAddressError {
    /// No interface has the name.
    NotFound,
    /// The interface has no IPv4 address.
    AddrNotAvailable,
}

/// The first interface of `interfaces` named `name`.
pub open spec fn first_named(interfaces: Seq<NetworkInterface>, name: Seq<char>) -> Option<NetworkInterface>
    decreases interfaces.len(),
{
    if interfaces.len() == 0 {
        None
    } else if interfaces[0].name@ == name {
        Some(interfaces[0])
    } else {
        first_named(interfaces.drop_first(), name)
    }
}

/// The first IPv4 address among `ips`.
pub open spec fn first_ipv4(ips: Seq<IpAddress>) -> Option<Ipv4Address>
    decreases ips.len(),
{
    if ips.len() == 0 {
        None
    } else {
        match ips[0] {
            IpAddress::V4(a) => Some(a),
            IpAddress::V6(_) => first_ipv4(ips.drop_first()),
        }
    }
}

/// The IPv4 address to bind on the interface `interface`: the first IPv4
/// address of the first interface with that name.
pub open spec fn spec_interface_to_ipaddr(interfaces: Seq<NetworkInterface>, interface: Seq<char>) -> Result<Ipv4Address, InterfaceAddressError> {
    match first_named(interfaces, interface) {
        None => Err(InterfaceAddressError::NotFound),
        Some(i) => match first_ipv4(i.ips@) {
            None => Err(InterfaceAddressError::AddrNotAvailable),
            Some(a) => Ok(a),
        },
    }
}

fn find_named(interfaces: &Vec<NetworkInterface>, name: &String) -> (r: Option<usize>)
    ensures
        match r {
            Some(k) => k < interfaces@.len() && first_named(interfaces@, name@) == Some(interfaces@[k as int]),
            None => first_named(interfaces@, name@) is None,
        },
{
    let mut i: usize = 0;
    assert(interfaces@.skip(0) =~= interfaces@);
    while i < interfaces.len()
        invariant
            i <= interfaces@.len(),
            first_named(interfaces@, name@) == first_named(interfaces@.skip(i as int), name@),
        decreases interfaces@.len() - i,
    {
        assert(interfaces@.skip(i as int)[0] == interfaces@[i as int]);
        if interfaces[i].name == *name {
            return Some(i);
        }
        assert(interfaces@.skip(i as int).drop_first() =~= interfaces@.skip(i as int + 1));
        i = i + 1;
    }
    None
}

fn find_ipv4(ips: &Vec<IpAddress>) -> (r: Option<Ipv4Address>)
    ensures
        r == first_ipv4(ips@),
{
    let mut i: usize = 0;
    assert(ips@.skip(0) =~= ips@);
    while i < ips.len()
        invariant
            i <= ips@.len(),
            first_ipv4(ips@) == first_ipv4(ips@.skip(i as int)),
        decreases ips@.len() - i,
    {
        assert(ips@.skip(i as int)[0] == ips@[i as int]);
        match ips[i] {
            IpAddress::V4(a) => {
                return Some(a);
            },
            IpAddress::V6(_) => {},
        }
        assert(ips@.skip(i as int).drop_first() =~= ips@.skip(i as int + 1));
        i = i + 1;
    }
    None
}

/// The IPv4 address to bind on the interface named `interface`, picked
/// from the machine's `interfaces`: `NotFound` when no interface has the
/// name, `AddrNotAvailable` when it has no IPv4 address.
pub fn interface_to_ipaddr(interfaces: &Vec<NetworkInterface>, interface: &String) -> (r: Result<Ipv4Address, InterfaceAddressError>)
    ensures
        r == spec_interface_to_ipaddr(interfaces@, interface@),
{
    match find_named(interfaces, interface) {
        None => Err(InterfaceAddressError::NotFound),
        Some(k) => match find_ipv4(&interfaces[k].ips) {
            None => Err(InterfaceAddressError::AddrNotAvailable),
            Some(a) => Ok(a),
        },
    }
}

} // verus!
