use aes_gcm_siv::aead::{Aead, KeyInit};
use aes_gcm_siv::{Aes256GcmSiv, Nonce};
use mpconn::addr::{IpAddress, Ipv4Address, SocketAddress};
use mpconn::connection::{Connection, ConnectionState};
use mpconn::endpoint::Endpoint;
use mpconn::connection_manager::{ConnectionManager, EstablishedOutcome};
use mpconn::endpoint::ConnectionEntry;
use mpconn::ip_packet::IpDestination;
use mpconn::messages::{DuplicationCommands, EncryptedMessage, Hello, HelloAck, InterfaceState, Messages, Packet};
use mpconn::router::Route;

const KEY: [u8; 32] = [7u8; 32];

fn v4(a: u8, b: u8, c: u8, d: u8, port: u16) -> SocketAddress {
    SocketAddress::V4 { ip: Ipv4Address::new(a, b, c, d), port }
}

fn uuid(s: &str) -> u128 {
    uuid::Uuid::parse_str(s).unwrap().as_u128()
}

fn manager() -> ConnectionManager {
    let conman_tun_address = IpAddress::V4(Ipv4Address::new(127, 0, 0, 1));
    ConnectionManager::new(v4(127, 0, 0, 1, 0), 1, conman_tun_address, None, 10000, 100, KEY)
}

fn hello(id: u16, session_id: u128, routes: Option<Vec<Route>>) -> Hello {
    Hello { id, session_id, static_routes: routes, hello_seq: 0 }
}

/// Greets `conman` as a server does on a greeting: on acceptance the
/// connection is added and answered.
fn greet(conman: &mut ConnectionManager, h: &Hello, now: u64) -> bool {
    let accepted = conman.handle_hello(h, now);
    if accepted {
        let source = v4(127, 0, 0, 2, 123);
        let name = "DYN-interface".to_string();
        if conman.connection_position(h.id, &source, &name).is_none() {
            let connection = Connection::new(None, v4(127, 0, 0, 1, 0), source);
            conman.add_connection_entry(h.id, ConnectionEntry { interface_name: name, interface_address: source, connection });
        }
        let _ = conman.acknowledge(h.id);
    }
    accepted
}

fn session_sequence_outcome(sessions: &[&str]) -> ConnectionManager {
    let mut conman = manager();
    for (n, s) in sessions.iter().enumerate() {
        let h = hello(154, uuid(s), None);
        greet(&mut conman, &h, n as u64);
    }
    conman
}

#[test]
fn handle_hello_from_empty() {
    let conman = session_sequence_outcome(&["47ce9f06-a692-4463-8075-d0033d1b7229"]);
    assert!(conman.has_endpoints());
    assert_eq!(conman.endpoint_count(), 1);
    let endpoint = conman.endpoint(154).unwrap();
    assert_eq!(endpoint.session_id, uuid("47ce9f06-a692-4463-8075-d0033d1b7229"));
}

#[test]
fn connection_manager_handle_hello_from_empty() {
    let mut conman = manager();
    let h = Hello { id: 154, session_id: uuid("47ce9f06-a692-4463-8075-d0033d1b7229"), static_routes: conman.announced_routes().clone(), hello_seq: 0 };
    assert!(greet(&mut conman, &h, 0));
    assert!(conman.has_endpoints());
    assert_eq!(conman.endpoint_count(), 1);
    let endpoint = conman.endpoint(154).unwrap();
    assert_eq!(endpoint.session_id, uuid("47ce9f06-a692-4463-8075-d0033d1b7229"));
}

#[test]
fn handle_hello_from_overwrite() {
    let conman = session_sequence_outcome(&[
        "47ce9f06-a692-4463-8075-d0033d1b7229",
        "deadbeef-a692-4463-8075-d0033d1b7229",
    ]);
    assert!(conman.has_endpoints());
    assert_eq!(conman.endpoint_count(), 1);
    let endpoint = conman.endpoint(154).unwrap();
    assert_eq!(endpoint.session_id, uuid("deadbeef-a692-4463-8075-d0033d1b7229"));
}

#[test]
fn connection_manager_handle_hello_from_overwrite() {
    let mut conman = manager();
    for s in ["47ce9f06-a692-4463-8075-d0033d1b7229", "deadbeef-a692-4463-8075-d0033d1b7229"] {
        let h = Hello { id: 154, session_id: uuid(s), static_routes: conman.announced_routes().clone(), hello_seq: 0 };
        assert!(greet(&mut conman, &h, 0));
    }
    assert!(conman.has_endpoints());
    assert_eq!(conman.endpoint_count(), 1);
    let endpoint = conman.endpoint(154).unwrap();
    assert_eq!(endpoint.session_id, uuid("deadbeef-a692-4463-8075-d0033d1b7229"));
    assert_eq!(conman.sessions_seen().len(), 2);
}

#[test]
fn handle_hello_refuse_overwrite_session_reuse() {
    let conman = session_sequence_outcome(&[
        "47ce9f06-a692-4463-8075-d0033d1b7229",
        "deadbeef-a692-4463-8075-d0033d1b7229",
        "47ce9f06-a692-4463-8075-d0033d1b7229",
    ]);
    assert!(conman.has_endpoints());
    assert_eq!(conman.endpoint_count(), 1);
    let endpoint = conman.endpoint(154).unwrap();
    assert_eq!(endpoint.session_id, uuid("deadbeef-a692-4463-8075-d0033d1b7229"));
}

#[test]
fn connection_manager_handle_hello_refuse_overwrite_session_reuse() {
    let mut conman = manager();
    let sessions = [
        "47ce9f06-a692-4463-8075-d0033d1b7229",
        "deadbeef-a692-4463-8075-d0033d1b7229",
        "47ce9f06-a692-4463-8075-d0033d1b7229",
    ];
    let mut accepted = Vec::new();
    for s in sessions {
        let h = Hello { id: 154, session_id: uuid(s), static_routes: conman.announced_routes().clone(), hello_seq: 0 };
        accepted.push(greet(&mut conman, &h, 0));
    }
    assert_eq!(accepted, vec![true, true, false]);
    assert!(conman.has_endpoints());
    assert_eq!(conman.endpoint_count(), 1);
    let endpoint = conman.endpoint(154).unwrap();
    assert_eq!(endpoint.session_id, uuid("deadbeef-a692-4463-8075-d0033d1b7229"));
    assert_eq!(conman.sessions_seen().len(), 2);
}

/// Opens a client connection the way the program does: a greeting is
/// prepared and the connection is recorded in `Startup`.
fn open_connection(conman: &mut ConnectionManager, server_id: u16, own: SocketAddress, server: SocketAddress) -> Hello {
    conman.create_new_connection("lo".to_string(), own, server, server_id, 0)
}

#[test]
fn connection_manager_client_single_connection() {
    let mut conman = manager();
    let own_address = v4(127, 0, 0, 1, 0);
    let server_id = 1337;
    let server_address = v4(127, 0, 0, 2, 1337);

    open_connection(&mut conman, server_id, own_address, server_address);

    let session_id = conman.endpoint(server_id).unwrap().session_id;
    let ack = HelloAck { id: server_id, session_id, static_routes: conman.announced_routes().clone(), hello_ack_seq: 0 };
    let outcome = conman.handle_established_message(server_id, Messages::HelloAck(ack), server_address, &"lo".to_string(), 5);
    assert!(matches!(outcome, EstablishedOutcome::Acknowledged(1337, _)));

    let connection_status = conman.endpoint(server_id).unwrap().connections.first().unwrap().connection.state;
    assert_eq!(connection_status, ConnectionState::Connected);
}

#[test]
fn connection_manager_client_multiple_connections() {
    let mut conman = manager();
    let own_address = v4(127, 0, 0, 1, 0);
    let server_id = 1337;
    let server_address = v4(127, 0, 0, 2, 1337);

    let first = open_connection(&mut conman, server_id, own_address, server_address);
    let second = open_connection(&mut conman, server_id, v4(127, 0, 0, 5, 0), server_address);
    assert_eq!(first.session_id, second.session_id);
    assert_eq!(first.hello_seq, 0);
    assert_eq!(second.hello_seq, 1);

    let session_id = conman.endpoint(server_id).unwrap().session_id;
    let ack = HelloAck { id: server_id, session_id, static_routes: conman.announced_routes().clone(), hello_ack_seq: 0 };
    conman.handle_established_message(server_id, Messages::HelloAck(ack), server_address, &"lo".to_string(), 5);

    let endpoint = conman.endpoint(server_id).unwrap();
    assert_eq!(endpoint.connections.len(), 2);
    for connection_entity in &endpoint.connections {
        assert_eq!(connection_entity.connection.state, ConnectionState::Connected)
    }
}

#[test]
fn prepared_greeting_carries_own_id_and_routes() {
    let routes = vec![Route { address: Ipv4Address::new(10, 0, 0, 0), subnet_mask: Ipv4Address::new(255, 0, 0, 0) }];
    let mut conman = ConnectionManager::new(v4(127, 0, 0, 1, 0), 9, IpAddress::V4(Ipv4Address::new(10, 0, 0, 1)), Some(routes.clone()), 10000, 100, KEY);
    let h = conman.prepare_hello(3, 0);
    assert_eq!(h.id, 9);
    assert_eq!(h.static_routes, Some(routes));
    assert_eq!(h.hello_seq, 0);
    assert_eq!(conman.endpoint(3).unwrap().hello_counter, 1);
    // The random session id of a client endpoint is not recorded as seen.
    assert_eq!(conman.sessions_seen().len(), 0);
}

#[test]
fn greeting_routes_are_learned_and_used_for_tunnel_packets() {
    let mut conman = manager();
    let net = Route { address: Ipv4Address::new(192, 168, 0, 0), subnet_mask: Ipv4Address::new(255, 255, 0, 0) };
    assert!(greet(&mut conman, &hello(7, 11, Some(vec![net])), 0));
    assert_eq!(conman.routes().route_count(), 1);

    let ip_packet = ipv4_packet([192, 168, 3, 4]);
    assert_eq!(conman.get_route(&ip_packet), Some(vec![7]));
    let out = conman.handle_packet_from_tun(&ip_packet);
    assert_eq!(out.len(), 1);
    assert_eq!(out[0].endpoint_id, 7);
    assert_eq!(out[0].packet.seq, 0);
    assert_eq!(out[0].packet.id, 7);
    assert_eq!(out[0].packet.bytes, ip_packet);
    assert_eq!(out[0].targets, vec![0]);
    let again = conman.handle_packet_from_tun(&ip_packet);
    assert_eq!(again[0].packet.seq, 1);

    // No route: nowhere to send.
    let elsewhere = ipv4_packet([10, 1, 1, 1]);
    assert_eq!(conman.get_route(&elsewhere), Some(vec![]));
    assert!(conman.handle_packet_from_tun(&elsewhere).is_empty());
    // Not an IP packet at all.
    assert_eq!(conman.get_route(&[1, 2, 3]), None);
    assert!(conman.handle_packet_from_tun(&[1, 2, 3]).is_empty());
}

/// A minimal IPv4 packet (header only) from 10.0.0.1 to `dst`.
fn ipv4_packet(dst: [u8; 4]) -> Vec<u8> {
    vec![0x45, 0, 0, 20, 0, 0, 0, 0, 64, 253, 0, 0, 10, 0, 0, 1, dst[0], dst[1], dst[2], dst[3]]
}

#[test]
fn sealed_message_opens_with_the_shared_key() {
    let conman = manager();
    let cipher = Aes256GcmSiv::new_from_slice(&KEY).unwrap();
    let nonce = [3u8; 12];
    let sealed = cipher.encrypt(Nonce::from_slice(&nonce), b"greetings".as_ref()).unwrap();
    let message = EncryptedMessage { nonce, message: sealed.clone() };
    assert_eq!(conman.open_sealed_message(&message), Some(b"greetings".to_vec()));

    let mut tampered = sealed;
    tampered[0] ^= 1;
    let bad = EncryptedMessage { nonce, message: tampered };
    assert_eq!(conman.open_sealed_message(&bad), None);
}

#[test]
fn packets_of_a_known_peer_are_sorted() {
    let mut conman = manager();
    assert!(greet(&mut conman, &hello(7, 11, None), 0));
    let p1 = Packet { seq: 1, id: 7, bytes: vec![1] };
    let p0 = Packet { seq: 0, id: 7, bytes: vec![0] };
    let src = v4(127, 0, 0, 2, 123);
    let name = "DYN-interface".to_string();
    match conman.handle_established_message(7, Messages::Packet(p1.clone()), src, &name, 1) {
        EstablishedOutcome::Sorted(out) => assert!(out.is_empty()),
        other => panic!("unexpected outcome {:?}", other),
    }
    match conman.handle_established_message(7, Messages::Packet(p0.clone()), src, &name, 2) {
        EstablishedOutcome::Sorted(out) => assert_eq!(out, vec![p0, p1]),
        other => panic!("unexpected outcome {:?}", other),
    }
    // A packet for an unknown peer is ignored.
    let stray = Packet { seq: 0, id: 8, bytes: vec![] };
    assert!(matches!(conman.handle_established_message(8, Messages::Packet(stray), src, &name, 3), EstablishedOutcome::Ignored));
}

#[test]
fn acknowledge_answers_on_live_connections() {
    let mut conman = manager();
    assert!(conman.acknowledge(5).is_none());
    assert!(greet(&mut conman, &hello(5, 99, None), 0));
    let delivery = conman.acknowledge(5).unwrap();
    assert_eq!(delivery.message.id, 1);
    assert_eq!(delivery.message.session_id, 99);
    // The answer counter advanced once in `greet` already.
    assert_eq!(delivery.message.hello_ack_seq, 1);
    assert_eq!(delivery.targets, vec![0]);
}

#[test]
fn removing_the_last_connection_forgets_the_peer_and_its_routes() {
    let mut conman = manager();
    let net = Route { address: Ipv4Address::new(192, 168, 0, 0), subnet_mask: Ipv4Address::new(255, 255, 0, 0) };
    assert!(greet(&mut conman, &hello(7, 11, Some(vec![net])), 0));
    conman.remove_connection(7, &"DYN-interface".to_string(), v4(127, 0, 0, 2, 123));
    assert!(!conman.has_endpoints());
    assert_eq!(conman.routes().route_count(), 0);
}

#[test]
fn disconnected_connections_are_removed() {
    let mut conman = manager();
    assert!(greet(&mut conman, &hello(7, 11, None), 0));
    conman.set_connection_state(7, 0, ConnectionState::Disconnected);
    conman.remove_disconnected();
    assert!(!conman.has_endpoints());
}

#[test]
fn duplication_command_toggles_interfaces() {
    let mut conman = manager();
    assert!(greet(&mut conman, &hello(7, 11, None), 0));
    let off = DuplicationCommands::InterfaceState(InterfaceState { interface_name: "DYN-interface".to_string(), enabled: false });
    conman.handle_selective_duplication_command(&off);
    assert!(!conman.endpoint(7).unwrap().connections[0].connection.is_enabled());
    let ip_packet = ipv4_packet([192, 168, 3, 4]);
    let _ = ip_packet;
    let on = DuplicationCommands::InterfaceState(InterfaceState { interface_name: "DYN-interface".to_string(), enabled: true });
    conman.handle_selective_duplication_command(&on);
    assert!(conman.endpoint(7).unwrap().connections[0].connection.is_enabled());
}

#[test]
fn greet_all_endpoints_advances_each_greeting_counter() {
    let mut conman = manager();
    assert!(greet(&mut conman, &hello(7, 11, None), 0));
    assert!(greet(&mut conman, &hello(8, 12, None), 0));
    let greetings = conman.greet_all_endpoints();
    assert_eq!(greetings.len(), 2);
    for g in &greetings {
        assert_eq!(g.hello.hello_seq, 0);
        assert_eq!(g.targets, vec![0]);
    }
    let again = conman.greet_all_endpoints();
    for g in &again {
        assert_eq!(g.hello.hello_seq, 1);
    }
}

#[test]
fn sealed_message_matches_the_cipher_and_opens_again() {
    let conman = manager();
    let nonce = [9u8; 12];
    let sealed = conman.seal_message(nonce, b"hello there");
    assert_eq!(sealed.nonce, nonce);
    assert_ne!(sealed.message, b"hello there".to_vec());
    let cipher = Aes256GcmSiv::new_from_slice(&KEY).unwrap();
    let expected = cipher.encrypt(Nonce::from_slice(&nonce), b"hello there".as_ref()).unwrap();
    assert_eq!(sealed.message, expected);
    assert_eq!(conman.open_sealed_message(&sealed), Some(b"hello there".to_vec()));
}

#[test]
fn routing_by_destination() {
    let mut conman = manager();
    let net = Route { address: Ipv4Address::new(192, 168, 0, 0), subnet_mask: Ipv4Address::new(255, 255, 0, 0) };
    assert!(greet(&mut conman, &hello(7, 11, Some(vec![net])), 0));
    assert!(greet(&mut conman, &hello(8, 12, Some(vec![net])), 0));
    let inside = IpDestination::V4(Ipv4Address::new(192, 168, 9, 9));
    assert_eq!(conman.route_to(inside), Some(vec![7, 8]));
    assert_eq!(conman.route_to(IpDestination::V4(Ipv4Address::new(10, 0, 0, 1))), Some(vec![]));
    assert_eq!(conman.route_to(IpDestination::V6), None);
    assert_eq!(conman.route_to(IpDestination::NoIpHeader), None);
    assert_eq!(conman.route_to(IpDestination::Unparsable), None);

    let out = conman.forward_packet(inside, &[1, 2, 3]);
    assert_eq!(out.len(), 2);
    assert_eq!(out[0].endpoint_id, 7);
    assert_eq!(out[1].endpoint_id, 8);
    assert_eq!(out[1].packet.bytes, vec![1, 2, 3]);
    assert_eq!(out[1].packet.id, 8);
    assert!(conman.forward_packet(IpDestination::V6, &[1, 2, 3]).is_empty());
    let again = conman.forward_packet(inside, &[4]);
    assert_eq!(again[0].packet.seq, 1);
    assert_eq!(again[1].packet.seq, 1);
}

#[test]
fn client_connection_starts_up_on_its_interface() {
    let mut conman = manager();
    let server = v4(127, 0, 0, 2, 1337);
    let h = conman.create_new_connection("wlan0".to_string(), v4(10, 0, 0, 2, 0), server, 1337, 0);
    assert_eq!(h.id, 1);
    assert_eq!(h.hello_seq, 0);
    let endpoint = conman.endpoint(1337).unwrap();
    assert_eq!(endpoint.session_id, h.session_id);
    assert_eq!(endpoint.connections.len(), 1);
    let entry = &endpoint.connections[0];
    assert_eq!(entry.interface_name, "wlan0");
    assert_eq!(entry.interface_address, server);
    assert_eq!(entry.connection.state, ConnectionState::Startup);
    assert_eq!(entry.connection.get_interface_name(), "wlan0");
    assert_eq!(conman.connection_position(1337, &server, &"wlan0".to_string()), Some(0));
}

#[test]
fn endpoint_add_connection_adds_once() {
    let mut endpoint = Endpoint::new(4, 77, 100, 0);
    let peer = v4(10, 1, 1, 1, 99);
    let local = v4(10, 1, 1, 2, 4000);
    assert_eq!(endpoint.add_connection(peer, "DYN-interface".to_string(), local), None);
    assert_eq!(endpoint.connections.len(), 1);
    assert_eq!(endpoint.connections[0].connection.state, ConnectionState::Startup);
    assert_eq!(endpoint.connections[0].connection.get_interface_name(), "DYN-interface");
    assert_eq!(endpoint.add_connection(peer, "DYN-interface".to_string(), local), Some(0));
    assert_eq!(endpoint.connections.len(), 1);
    assert_eq!(endpoint.add_connection(peer, "eth0".to_string(), local), None);
    assert_eq!(endpoint.connections.len(), 2);
}
