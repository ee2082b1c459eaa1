use mpconn::addr::{Ipv4Address, SocketAddress};
use mpconn::interface_address::{interface_to_ipaddr, InterfaceAddressError, NetworkInterface};
use mpconn::addr::{IpAddress, Ipv6Address};
use mpconn::router::Route;
use mpconn::settings::{announced_routes, connection_infos, Interface, RouteConfig};

fn v4(a: u8, b: u8, c: u8, d: u8, port: u16) -> SocketAddress {
    SocketAddress::V4 { ip: Ipv4Address::new(a, b, c, d), port }
}

#[test]
fn announced_routes_end_with_the_tunnel_network() {
    let configured = vec![RouteConfig { address: Ipv4Address::new(10, 1, 0, 0), subnet_mask: Ipv4Address::new(255, 255, 0, 0) }];
    let routes = announced_routes(&configured, Ipv4Address::new(10, 12, 0, 5), Ipv4Address::new(255, 255, 255, 0));
    assert_eq!(routes, vec![
        Route { address: Ipv4Address::new(10, 1, 0, 0), subnet_mask: Ipv4Address::new(255, 255, 0, 0) },
        Route { address: Ipv4Address::new(10, 12, 0, 5), subnet_mask: Ipv4Address::new(255, 255, 255, 0) },
    ]);
}

#[test]
fn one_connection_per_interface() {
    let interfaces = vec![
        Interface { interface_name: "wlan0".to_string(), bind_address: v4(172, 16, 0, 2, 0), server_address: v4(1, 1, 1, 1, 4000) },
        Interface { interface_name: "eth0".to_string(), bind_address: v4(172, 16, 1, 2, 0), server_address: v4(172, 16, 200, 4, 40000) },
    ];
    let server = v4(172, 16, 200, 4, 40000);
    let infos = connection_infos(&interfaces, 2);
    assert_eq!(infos.len(), 2);
    assert_eq!(infos[0].interface_name, "wlan0");
    assert_eq!(infos[0].local_address, v4(172, 16, 0, 2, 0));
    assert_eq!(infos[0].destination_address, v4(1, 1, 1, 1, 4000));
    assert_eq!(infos[1].interface_name, "eth0");
    assert_eq!(infos[1].destination_address, server);
    assert_eq!(infos[1].destination_endpoint_id, 2);
}

fn machine() -> Vec<NetworkInterface> {
    vec![
        NetworkInterface { name: "lo".to_string(), ips: vec![IpAddress::V4(Ipv4Address::new(127, 0, 0, 1))] },
        NetworkInterface { name: "eth0".to_string(), ips: vec![IpAddress::V6(Ipv6Address { bits: 1 }), IpAddress::V4(Ipv4Address::new(192, 168, 1, 20)), IpAddress::V4(Ipv4Address::new(192, 168, 1, 21))] },
        NetworkInterface { name: "v6only".to_string(), ips: vec![IpAddress::V6(Ipv6Address { bits: 2 })] },
    ]
}

#[test]
fn first_ipv4_address_of_the_interface() {
    assert_eq!(interface_to_ipaddr(&machine(), &"eth0".to_string()), Ok(Ipv4Address::new(192, 168, 1, 20)));
    assert_eq!(interface_to_ipaddr(&machine(), &"lo".to_string()), Ok(Ipv4Address::new(127, 0, 0, 1)));
}

#[test]
fn unknown_interface_is_not_found() {
    assert_eq!(interface_to_ipaddr(&machine(), &"wlan9".to_string()), Err(InterfaceAddressError::NotFound));
}

#[test]
fn interface_without_ipv4_has_no_address() {
    assert_eq!(interface_to_ipaddr(&machine(), &"v6only".to_string()), Err(InterfaceAddressError::AddrNotAvailable));
}
