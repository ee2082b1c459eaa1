use vstd::prelude::*;
use crate::addr::SocketAddress;

verus! {

/// Where a connection stands in its greeting exchange.
#[derive(Debug, Clone, Copy, PartialEq, Eq, Structural)]
pub enum ConnectionState {
    Startup,
    Connected,
    Disconnected,
}

/// The name under which a connection whose interface is not known (one
/// opened by an incoming greeting) is reported.
pub open spec fn dynamic_interface_name() -> Seq<char> {
    "DYN-interface"@
}

/// What the library keeps of one connection between a network interface and
/// a peer. The socket, its receive buffer and its timeout timer belong to
/// the program around the library.
#[derive(Debug)]
pub struct Connection {
    pub interface_name: Option<String>,
    pub local_address: SocketAddress,
    pub peer_addr: SocketAddress,
    pub state: ConnectionState,
    pub enabled: bool,
}

/// The interface name a connection is reported under.
pub open spec fn reported_name(interface_name: Option<String>) -> Seq<char> {
    match interface_name {
        Some(name) => name@,
        None => dynamic_interface_name(),
    }
}

impl Connection {
    /// A connection that has just been opened: it starts in `Startup` and
    /// carries traffic.
    pub fn new(
        interface_name: Option<String>,
        local_address: SocketAddress,
        peer_addr: SocketAddress,
    ) -> (r: Connection)
        ensures
            r.interface_name == interface_name,
            r.local_address == local_address,
            r.peer_addr == peer_addr,
            r.state == ConnectionState::Startup,
            r.enabled,
    {
        Connection { interface_name, local_address, peer_addr, state: ConnectionState::Startup, enabled: true }
    }

    /// The interface name, or `DYN-interface` when it is not known.
    pub fn get_interface_name(&self) -> (r: String)
        ensures
            r@ == reported_name(self.interface_name),
    {
        match &self.interface_name {
            Some(name) => name.clone(),
            None => "DYN-interface".to_owned(),
        }
    }

    /// The interface name (as `get_interface_name` reports it) and the peer's
    /// address.
    pub fn get_name_address_touple(&self) -> (r: (String, SocketAddress))
        ensures
            r.0@ == reported_name(self.interface_name),
            r.1 == self.peer_addr,
    {
        (self.get_interface_name(), self.peer_addr)
    }

    /// Stops this connection from carrying tunnelled packets.
    pub fn disable(&mut self)
        ensures
            !final(self).enabled,
            final(self).interface_name == old(self).interface_name,
            final(self).local_address == old(self).local_address,
            final(self).peer_addr == old(self).peer_addr,
            final(self).state == old(self).state,
    {
        self.enabled = false;
    }

    /// Lets this connection carry tunnelled packets again.
    pub fn enable(&mut self)
        ensures
            final(self).enabled,
            final(self).interface_name == old(self).interface_name,
            final(self).local_address == old(self).local_address,
            final(self).peer_addr == old(self).peer_addr,
            final(self).state == old(self).state,
    {
        self.enabled = true;
    }

    /// Whether this connection carries tunnelled packets.
    pub fn is_enabled(&self) -> (r: bool)
        ensures
            r == self.enabled,
    {
        self.enabled
    }
}

} // verus!
