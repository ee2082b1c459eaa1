use vstd::prelude::*;
use crate::addr::{IpAddress, Ipv4Address, SocketAddress};
use crate::connection_manager::ConnectionInfo;
use crate::messages::EndpointId;
use crate::router::Route;

verus! {

/// The tunnel device: its address, netmask and MTU.
#[derive(Debug, Clone)]
pub struct TunnelSettings {
    pub tunnel_device_address: IpAddress,
    pub netmask: Ipv4Address,
    pub mtu: i32,
}

/// Where a log of interface activity is written.
#[derive(Debug, Clone)]
pub struct InterfaceLoggerSettings {
    pub log_path: String,
}

/// Where a log of the sequence numbers handed out by a packet sorter is
/// written.
#[derive(Debug, Clone)]
pub struct PacketSorterLoggerSettings {
    pub log_path: String,
}

/// The server's configuration.
#[derive(Debug, Clone)]
pub struct ServerSettings {
    pub peer_id: u16,
    pub server_bind_address: SocketAddress,
    pub tunnel_config: TunnelSettings,
    pub connection_timeout: u64,
    pub packet_sorter_deadline: u64,
    pub interface_logger: Option<InterfaceLoggerSettings>,
    pub packet_sorter_logger: Option<PacketSorterLoggerSettings>,
    /// The key shared with the peers, which seals their greetings.
    pub encryption_key: [u8; 32],
}

/// One network interface a client connects through: its name, the local
/// address to bind and the server's address.
#[derive(Debug, Clone)]
pub struct Interface {
    pub interface_name: String,
    pub bind_address: SocketAddress,
    pub server_address: SocketAddress,
}

/// A network the client announces as reachable through it.
#[derive(Debug, Clone, Copy)]
pub struct RouteConfig {
    pub address: Ipv4Address,
    pub subnet_mask: Ipv4Address,
}

/// A client's configuration.
#[derive(Debug, Clone)]
pub struct ClientSettings {
    pub peer_id: u16,
    pub interfaces: Vec<Interface>,
    pub server_id: u16,
    pub tunnel_config: TunnelSettings,
    pub static_routes: Vec<RouteConfig>,
    pub connection_timeout: u64,
    pub packet_sorter_deadline: u64,
    pub interface_logger: Option<InterfaceLoggerSettings>,
    pub packet_sorter_logger: Option<PacketSorterLoggerSettings>,
    /// The key shared with the server, which seals the greetings.
    pub encryption_key: [u8; 32],
}

/// The route a configured network stands for.
pub open spec fn route_of(c: RouteConfig) -> Route {
    Route { address: c.address, subnet_mask: c.subnet_mask }
}

/// The routes a client announces: the configured networks, in order, and
/// then the tunnel's own network.
pub fn announced_routes(static_routes: &Vec<RouteConfig>, tun_address: Ipv4Address, netmask: Ipv4Address) -> (r: Vec<Route>)
    ensures
        r@ == static_routes@.map_values(|c: RouteConfig| route_of(c)).push(Route { address: tun_address, subnet_mask: netmask }),
{
    let mut routes: Vec<Route> = Vec::new();
    let mut i: usize = 0;
    while i < static_routes.len()
        invariant
            i <= static_routes@.len(),
            routes@ == static_routes@.take(i as int).map_values(|c: RouteConfig| route_of(c)),
        decreases static_routes@.len() - i,
    {
        let c = static_routes[i];
        routes.push(Route { address: c.address, subnet_mask: c.subnet_mask });
        assert(static_routes@.take(i as int + 1).map_values(|c: RouteConfig| route_of(c)) =~= static_routes@.take(i as int).map_values(|c: RouteConfig| route_of(c)).push(route_of(c)));
        i = i + 1;
    }
    assert(static_routes@.take(static_routes@.len() as int) =~= static_routes@);
    routes.push(Route { address: tun_address, subnet_mask: netmask });
    routes
}

/// The connections a client keeps open to the server: one through each
/// configured interface, in order, from its bind address to the server
/// address it names.
pub fn connection_infos(interfaces: &Vec<Interface>, server_id: EndpointId) -> (r: Vec<ConnectionInfo>)
    ensures
        r@.len() == interfaces@.len(),
        forall|k: int| 0 <= k < r@.len() ==> {
            &&& (#[trigger] r@[k]).interface_name@ == interfaces@[k].interface_name@
            &&& r@[k].local_address == interfaces@[k].bind_address
            &&& r@[k].destination_address == interfaces@[k].server_address
            &&& r@[k].destination_endpoint_id == server_id
        },
{
    let mut infos: Vec<ConnectionInfo> = Vec::new();
    let mut i: usize = 0;
    while i < interfaces.len()
        invariant
            i <= interfaces@.len(),
            infos@.len() == i,
            forall|k: int| 0 <= k < i ==> {
                &&& (#[trigger] infos@[k]).interface_name@ == interfaces@[k].interface_name@
                &&& infos@[k].local_address == interfaces@[k].bind_address
                &&& infos@[k].destination_address == interfaces@[k].server_address
                &&& infos@[k].destination_endpoint_id == server_id
            },
        decreases interfaces@.len() - i,
    {
        let interface = &interfaces[i];
        infos.push(ConnectionInfo {
            interface_name: interface.interface_name.clone(),
            local_address: interface.bind_address,
            destination_address: interface.server_address,
            destination_endpoint_id: server_id,
        });
        i = i + 1;
    }
    infos
}

} // verus!
