use vstd::prelude::*;
use crate::router::Route;

verus! {

/// The identifier of a peer; unique among the peers that are connected.
pub type EndpointId = u16;

/// A tunnelled IP packet with its per-peer sequence number.
#[derive(PartialEq, Eq, Debug, Clone)]
pub struct Packet {
    pub seq: u64,
    pub id: EndpointId,
    pub bytes: Vec<u8>,
}

/// A greeting that opens or keeps alive a connection. The session id
/// (a UUID, as its 128-bit value) changes every time a peer restarts.
#[derive(PartialEq, Eq, Debug, Clone)]
pub struct Hello {
    pub id: EndpointId,
    pub session_id: u128,
    pub static_routes: Option<Vec<Route>>,
    pub hello_seq: u64,
}

/// The answer to a greeting.
#[derive(PartialEq, Eq, Debug, Clone)]
pub struct HelloAck {
    pub id: EndpointId,
    pub session_id: u128,
    pub static_routes: Option<Vec<Route>>,
    pub hello_ack_seq: u64,
}

/// Everything peers send each other.
#[derive(PartialEq, Eq, Debug, Clone)]
pub enum Messages {
    Packet(Packet),
    Hello(Hello),
    HelloAck(HelloAck),
}

/// A message sealed with AES-256-GCM-SIV under the shared key.
#[derive(PartialEq, Eq, Debug, Clone)]
pub struct EncryptedMessage {
    pub nonce: [u8; 12],
    pub message: Vec<u8>,
}

/// Whether the interface of that name should carry duplicated traffic.
#[derive(Debug, Clone)]
pub struct InterfaceState {
    pub interface_name: String,
    pub enabled: bool,
}

/// Commands that steer which interfaces carry duplicated traffic.
#[derive(Debug, Clone)]
pub enum DuplicationCommands {
    InterfaceState(InterfaceState),
}

} // verus!
