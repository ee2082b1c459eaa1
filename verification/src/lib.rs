//! Verified core of a multi-path tunnelling tool: route lookup, packet
//! re-ordering, path latency estimation and endpoint/session bookkeeping.
//! Sockets, timers, the tunnel device and (de)serialisation live in the
//! program around this library.
pub mod addr;
pub mod router;
pub mod path_latency;
pub mod messages;
mod btree_ext;
pub mod packet_sorter;
pub mod sequencer;
pub mod packet_queue;
pub mod connection;
pub mod endpoint;
pub mod crypto;
pub mod ip_packet;
pub mod connection_manager;
pub mod segmentation;
pub mod settings;
pub mod interface_address;
