use mpconn::addr::{Ipv4Address, SocketAddress};
use mpconn::connection::{Connection, ConnectionState};

fn v4(a: u8, b: u8, c: u8, d: u8, port: u16) -> SocketAddress {
    SocketAddress::V4 { ip: Ipv4Address::new(a, b, c, d), port }
}

#[test]
fn new_connection_starts_up_enabled() {
    let c = Connection::new(Some("wlan0".to_string()), v4(10, 0, 0, 1, 5), v4(10, 0, 0, 2, 6));
    assert_eq!(c.state, ConnectionState::Startup);
    assert!(c.is_enabled());
    assert_eq!(c.get_interface_name(), "wlan0");
    assert_eq!(c.get_name_address_touple(), ("wlan0".to_string(), v4(10, 0, 0, 2, 6)));
}

#[test]
fn unnamed_connection_reports_the_dynamic_name() {
    let c = Connection::new(None, v4(10, 0, 0, 1, 5), v4(10, 0, 0, 2, 6));
    assert_eq!(c.get_interface_name(), "DYN-interface");
}

#[test]
fn connection_can_be_disabled_and_enabled() {
    let mut c = Connection::new(None, v4(10, 0, 0, 1, 5), v4(10, 0, 0, 2, 6));
    c.disable();
    assert!(!c.is_enabled());
    c.enable();
    assert!(c.is_enabled());
}
