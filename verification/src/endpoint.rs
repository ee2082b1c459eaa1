use vstd::prelude::*;
use crate::addr::SocketAddress;
use crate::connection::{Connection, ConnectionState};
use crate::messages::{EndpointId, HelloAck};
use crate::packet_sorter::{PacketSorter, QueuedPacket, timer_after};
use crate::path_latency::{PathLatency, times_in_order, spec_estimate};
use crate::router::Route;

verus! {

/// One connection to a peer, with the interface it was opened on and the
/// peer's address.
#[derive(Debug)]
pub struct ConnectionEntry {
    pub interface_name: String,
    pub interface_address: SocketAddress,
    pub connection: Connection,
}

/// A greeting or answer to send, and the positions of the connections it
/// goes out on.
#[derive(Debug)]
pub struct Delivery<M> {
    pub message: M,
    pub targets: Vec<usize>,
}

/// `targets` lists, in increasing order, exactly the positions below `n`
/// that satisfy `p`.
pub open spec fn selects(targets: Seq<usize>, n: int, p: spec_fn(int) -> bool) -> bool {
    &&& forall|i: int, j: int| 0 <= i < j < targets.len() ==> targets[i] < targets[j]
    &&& forall|i: int| 0 <= i < targets.len() ==> 0 <= #[trigger] targets[i] < n && p(targets[i] as int)
    &&& forall|k: int| 0 <= k < n && p(k) ==> #[trigger] targets.contains(k as usize)
}

/// A connection in `Startup` or `Connected` state: one that greetings and
/// answers go out on.
pub open spec fn is_live(c: ConnectionEntry) -> bool {
    c.connection.state == ConnectionState::Startup || c.connection.state == ConnectionState::Connected
}

/// Greetings and answers go out on exactly the connections that are not
/// `Disconnected`: every target is a connection in `Startup` or `Connected`
/// state, in increasing order, and every such connection is a target.
pub proof fn lemma_live_targets(targets: Seq<usize>, conns: Seq<ConnectionEntry>)
    requires
        selects(targets, conns.len() as int, |i: int| is_live(conns[i])),
    ensures
        forall|i: int| 0 <= i < targets.len() ==> #[trigger] targets[i] < conns.len() && conns[targets[i] as int].connection.state != ConnectionState::Disconnected,
        forall|k: int| 0 <= k < conns.len() && #[trigger] conns[k].connection.state != ConnectionState::Disconnected ==> targets.contains(k as usize),
        forall|i: int, j: int| 0 <= i < j < targets.len() ==> targets[i] < targets[j],
{
    assert forall|i: int| 0 <= i < targets.len() implies #[trigger] targets[i] < conns.len() && conns[targets[i] as int].connection.state != ConnectionState::Disconnected by {
        assert(is_live(conns[targets[i] as int]));
    }
    assert forall|k: int| 0 <= k < conns.len() && #[trigger] conns[k].connection.state != ConnectionState::Disconnected implies targets.contains(k as usize) by {
        assert(is_live(conns[k]));
    }
}

/// Switching duplication over the interface `name` on or off changes only
/// the connections opened on `name`, and of those only whether they carry
/// traffic; every connection on another interface stays as it was.
pub proof fn lemma_toggle_only_named(c: ConnectionEntry, name: Seq<char>, on: bool)
    ensures
        c.interface_name@ != name ==> entry_toggled(c, name, on) == c,
        c.interface_name@ == name ==> {
            let t = entry_toggled(c, name, on);
            &&& t.connection.enabled == on
            &&& t.interface_name == c.interface_name
            &&& t.interface_address == c.interface_address
            &&& t.connection.interface_name == c.connection.interface_name
            &&& t.connection.local_address == c.connection.local_address
            &&& t.connection.peer_addr == c.connection.peer_addr
            &&& t.connection.state == c.connection.state
        },
{
}

/// Two optional route lists hold the same routes.
pub open spec fn same_routes(a: Option<Vec<Route>>, b: Option<Vec<Route>>) -> bool {
    match (a, b) {
        (None, None) => true,
        (Some(x), Some(y)) => x@ == y@,
        _ => false,
    }
}

/// A copy of an optional list of routes.
pub fn clone_routes(routes: &Option<Vec<Route>>) -> (r: Option<Vec<Route>>)
    ensures
        same_routes(r, *routes),
{
    match routes {
        None => None,
        Some(v) => {
            let mut out: Vec<Route> = Vec::new();
            let mut i: usize = 0;
            while i < v.len()
                invariant
                    i <= v.len(),
                    out@ == v@.take(i as int),
                decreases v.len() - i,
            {
                out.push(v[i]);
                assert(out@ =~= v@.take(i as int + 1));
                i = i + 1;
            }
            assert(out@ =~= v@);
            Some(out)
        },
    }
}

/// `c` with its connection's state replaced by `state`.
pub open spec fn entry_with_state(c: ConnectionEntry, state: ConnectionState) -> ConnectionEntry {
    ConnectionEntry {
        interface_name: c.interface_name,
        interface_address: c.interface_address,
        connection: Connection {
            interface_name: c.connection.interface_name,
            local_address: c.connection.local_address,
            peer_addr: c.connection.peer_addr,
            state,
            enabled: c.connection.enabled,
        },
    }
}

/// `c` with its connection enabled (`on`) or disabled when it was opened on
/// the interface `name`, unchanged otherwise.
pub open spec fn entry_toggled(c: ConnectionEntry, name: Seq<char>, on: bool) -> ConnectionEntry {
    if c.interface_name@ == name {
        ConnectionEntry {
            interface_name: c.interface_name,
            interface_address: c.interface_address,
            connection: Connection {
                interface_name: c.connection.interface_name,
                local_address: c.connection.local_address,
                peer_addr: c.connection.peer_addr,
                state: c.connection.state,
                enabled: on,
            },
        }
    } else {
        c
    }
}

/// `i` is the first connection to `address` opened on the interface `name`.
pub open spec fn is_first_connection(s: Seq<ConnectionEntry>, address: SocketAddress, name: Seq<char>, i: int) -> bool {
    &&& 0 <= i < s.len()
    &&& s[i].interface_address == address && s[i].interface_name@ == name
    &&& forall|j: int| 0 <= j < i ==> !(#[trigger] s[j].interface_address == address && s[j].interface_name@ == name)
}


/// The connection `c` after an answer to a greeting arrived from `source` on
/// the interface `name`: a matching connection in `Startup` becomes
/// `Connected`.
pub open spec fn acked_entry(c: ConnectionEntry, source: SocketAddress, name: Seq<char>) -> ConnectionEntry {
    if c.interface_address == source && c.interface_name@ == name && c.connection.state == ConnectionState::Startup {
        entry_with_state(c, ConnectionState::Connected)
    } else {
        c
    }
}

/// `a` and `b` agree on identity and counters.
pub open spec fn same_counters(a: Endpoint, b: Endpoint) -> bool {
    &&& a.id == b.id
    &&& a.session_id == b.session_id
    &&& a.tx_counter == b.tx_counter
    &&& a.hello_counter == b.hello_counter
    &&& a.hello_ack_counter == b.hello_ack_counter
}

/// A remote peer: its connections, counters, packet sorter and the arrival
/// times of its greetings and answers.
#[derive(Debug)]
pub struct Endpoint {
    pub id: EndpointId,
    pub session_id: u128,
    pub connections: Vec<ConnectionEntry>,
    pub tx_counter: u64,
    pub hello_counter: u64,
    pub hello_ack_counter: u64,
    pub packet_sorter: PacketSorter,
    pub hello_path_latency: PathLatency,
    pub hello_ack_path_latency: PathLatency,
}

/// `e` is a freshly made endpoint `id` of session `session_id`, whose sorter
/// waits `deadline_ms` milliseconds and was made at `now`.
pub open spec fn is_new_endpoint(e: Endpoint, id: EndpointId, session_id: u128, deadline_ms: u64, now: u64) -> bool {
    &&& e.id == id
    &&& e.session_id == session_id
    &&& e.connections@.len() == 0
    &&& e.tx_counter == 0
    &&& e.hello_counter == 0
    &&& e.hello_ack_counter == 0
    &&& e.packet_sorter.queue() == Map::<u64, QueuedPacket>::empty()
    &&& e.packet_sorter.spec_next_seq() == 0
    &&& e.packet_sorter.spec_deadline() == deadline_ms * 1000000
    &&& e.packet_sorter.timer() == timer_after(now, deadline_ms * 1000000, (deadline_ms * 1000000) as u128)
    &&& e.packet_sorter.active()
    &&& e.hello_path_latency@.len() == 0
    &&& e.hello_ack_path_latency@.len() == 0
    &&& e.wf()
}

impl Endpoint {
    /// The sorter and both arrival-time tables are well formed.
    pub open spec fn wf(&self) -> bool {
        &&& self.packet_sorter.wf()
        &&& self.hello_path_latency.wf()
        &&& self.hello_ack_path_latency.wf()
    }

    /// A new endpoint with no connections, whose sorter waits
    /// `packet_sorter_deadline` milliseconds for a missing packet.
    pub fn new(id: EndpointId, session_id: u128, packet_sorter_deadline: u64, now: u64) -> (r: Endpoint)
        ensures
            is_new_endpoint(r, id, session_id, packet_sorter_deadline, now),
    {
        let deadline: u128 = packet_sorter_deadline as u128 * 1000000;
        assert(deadline <= 18446744073709551615u128 * 1000000) by (nonlinear_arith)
            requires
                deadline == packet_sorter_deadline as u128 * 1000000,
                packet_sorter_deadline <= 18446744073709551615u64,
        ;
        Endpoint {
            id,
            connections: Vec::new(),
            session_id,
            tx_counter: 0,
            hello_counter: 0,
            hello_ack_counter: 0,
            packet_sorter: PacketSorter::new(deadline, now),
            hello_path_latency: PathLatency::new(),
            hello_ack_path_latency: PathLatency::new(),
        }
    }

    /// The position of the connection to `address` on the interface
    /// `interface_name`, if there is one.
    pub fn find_connection(&self, address: &SocketAddress, interface_name: &String) -> (r: Option<usize>)
        ensures
            match r {
                Some(i) => is_first_connection(self.connections@, *address, interface_name@, i as int),
                None => forall|j: int| 0 <= j < self.connections@.len() ==> !(#[trigger] self.connections@[j].interface_address == *address && self.connections@[j].interface_name@ == interface_name@),
            },
    {
        let mut i: usize = 0;
        while i < self.connections.len()
            invariant
                i <= self.connections@.len(),
                forall|j: int| 0 <= j < i ==> !(#[trigger] self.connections@[j].interface_address == *address && self.connections@[j].interface_name@ == interface_name@),
            decreases self.connections@.len() - i,
        {
            let entry = &self.connections[i];
            if entry.interface_address == *address && entry.interface_name == *interface_name {
                return Some(i);
            }
            i = i + 1;
        }
        None
    }

    /// Takes note of a greeting from `source_address` on the interface
    /// `interface_name`: if a connection to that address on that interface
    /// exists, its position (the program restarts its timeout); otherwise a
    /// new connection is added, bound to `local_address`, in `Startup` state
    /// and with no interface of its own, and `None` comes back (the program
    /// opens its socket).
    pub fn add_connection(&mut self, source_address: SocketAddress, interface_name: String, local_address: SocketAddress) -> (r: Option<usize>)
        ensures
            match r {
                Some(i) => {
                    &&& is_first_connection(old(self).connections@, source_address, interface_name@, i as int)
                    &&& final(self).connections@ == old(self).connections@
                },
                None => {
                    &&& forall|j: int| 0 <= j < old(self).connections@.len() ==> !(#[trigger] old(self).connections@[j].interface_address == source_address && old(self).connections@[j].interface_name@ == interface_name@)
                    &&& final(self).connections@ == old(self).connections@.push(ConnectionEntry {
                        interface_name,
                        interface_address: source_address,
                        connection: Connection {
                            interface_name: None,
                            local_address,
                            peer_addr: source_address,
                            state: ConnectionState::Startup,
                            enabled: true,
                        },
                    })
                },
            },
            final(self).id == old(self).id,
            final(self).session_id == old(self).session_id,
            same_counters(*final(self), *old(self)),
            final(self).packet_sorter == old(self).packet_sorter,
            final(self).hello_path_latency == old(self).hello_path_latency,
            final(self).hello_ack_path_latency == old(self).hello_ack_path_latency,
    {
        match self.find_connection(&source_address, &interface_name) {
            Some(i) => Some(i),
            None => {
                let connection = Connection::new(None, local_address, source_address);
                self.connections.push(ConnectionEntry { interface_name, interface_address: source_address, connection });
                None
            },
        }
    }

    /// Adds a connection.
    pub fn push_connection(&mut self, entry: ConnectionEntry)
        ensures
            final(self).connections@ == old(self).connections@.push(entry),
            final(self).id == old(self).id,
            final(self).session_id == old(self).session_id,
            final(self).tx_counter == old(self).tx_counter,
            final(self).hello_counter == old(self).hello_counter,
            final(self).hello_ack_counter == old(self).hello_ack_counter,
            final(self).packet_sorter == old(self).packet_sorter,
            final(self).hello_path_latency == old(self).hello_path_latency,
            final(self).hello_ack_path_latency == old(self).hello_ack_path_latency,
    {
        self.connections.push(entry);
    }

    /// The positions, in order, of the connections in `Startup` or
    /// `Connected` state.
    pub fn live_connections(&self) -> (r: Vec<usize>)
        ensures
            selects(r@, self.connections@.len() as int, |i: int| is_live(self.connections@[i])),
            forall|i: int| 0 <= i < r@.len() ==> #[trigger] r@[i] < self.connections@.len() && self.connections@[r@[i] as int].connection.state != ConnectionState::Disconnected,
            forall|k: int| 0 <= k < self.connections@.len() && #[trigger] self.connections@[k].connection.state != ConnectionState::Disconnected ==> r@.contains(k as usize),
    {
        let mut out: Vec<usize> = Vec::new();
        let mut i: usize = 0;
        while i < self.connections.len()
            invariant
                i <= self.connections@.len(),
                selects(out@, i as int, |k: int| is_live(self.connections@[k])),
                forall|j: int| 0 <= j < out@.len() ==> out@[j] < i,
            decreases self.connections@.len() - i,
        {
            let st = self.connections[i].connection.state;
            if st == ConnectionState::Startup || st == ConnectionState::Connected {
                let ghost before = out@;
                out.push(i);
                proof {
                    assert forall|k: int| 0 <= k < i + 1 && is_live(self.connections@[k]) implies #[trigger] out@.contains(k as usize) by {
                        if k < i {
                            assert(before.contains(k as usize));
                            let q = choose|q: int| 0 <= q < before.len() && before[q] == k as usize;
                            assert(out@[q] == k as usize);
                        } else {
                            assert(out@[out@.len() - 1] == k as usize);
                        }
                    }
                }
            } else {
                proof {
                    assert forall|k: int| 0 <= k < i + 1 && is_live(self.connections@[k]) implies #[trigger] out@.contains(k as usize) by {
                        if k == i {
                            assert(!is_live(self.connections@[k]));
                        }
                    }
                }
            }
            i = i + 1;
        }
        proof {
            lemma_live_targets(out@, self.connections@);
        }
        out
    }

    /// The positions, in order, of the connections that carry tunnelled
    /// packets.
    pub fn enabled_connections(&self) -> (r: Vec<usize>)
        ensures
            selects(r@, self.connections@.len() as int, |i: int| self.connections@[i].connection.enabled),
    {
        let mut out: Vec<usize> = Vec::new();
        let mut i: usize = 0;
        while i < self.connections.len()
            invariant
                i <= self.connections@.len(),
                selects(out@, i as int, |k: int| self.connections@[k].connection.enabled),
                forall|j: int| 0 <= j < out@.len() ==> out@[j] < i,
            decreases self.connections@.len() - i,
        {
            if self.connections[i].connection.is_enabled() {
                let ghost before = out@;
                out.push(i);
                proof {
                    assert forall|k: int| 0 <= k < i + 1 && self.connections@[k].connection.enabled implies #[trigger] out@.contains(k as usize) by {
                        if k < i {
                            assert(before.contains(k as usize));
                            let q = choose|q: int| 0 <= q < before.len() && before[q] == k as usize;
                            assert(out@[q] == k as usize);
                        } else {
                            assert(out@[out@.len() - 1] == k as usize);
                        }
                    }
                }
            }
            i = i + 1;
        }
        out
    }

    /// Answers a greeting: builds the answer, numbered by the answer counter
    /// (which advances, wrapping), and lists the connections in `Startup` or
    /// `Connected` state that it goes out on.
    pub fn acknowledge(&mut self, own_id: EndpointId, session_id: u128, own_static_routes: &Option<Vec<Route>>) -> (r: Delivery<HelloAck>)
        ensures
            r.message.id == own_id,
            r.message.session_id == session_id,
            same_routes(r.message.static_routes, *own_static_routes),
            r.message.hello_ack_seq == old(self).hello_ack_counter,
            final(self).hello_ack_counter == (if old(self).hello_ack_counter == u64::MAX { 0 } else { old(self).hello_ack_counter + 1 }),
            selects(r.targets@, old(self).connections@.len() as int, |i: int| is_live(old(self).connections@[i])),
            final(self).connections@ == old(self).connections@,
            final(self).id == old(self).id,
            final(self).session_id == old(self).session_id,
            final(self).tx_counter == old(self).tx_counter,
            final(self).hello_counter == old(self).hello_counter,
            final(self).packet_sorter == old(self).packet_sorter,
            final(self).hello_path_latency == old(self).hello_path_latency,
            final(self).hello_ack_path_latency == old(self).hello_ack_path_latency,
    {
        let message = HelloAck {
            id: own_id,
            session_id,
            static_routes: clone_routes(own_static_routes),
            hello_ack_seq: self.hello_ack_counter,
        };
        self.hello_ack_counter = self.hello_ack_counter.wrapping_add(1);
        let targets = self.live_connections();
        Delivery { message, targets }
    }

    /// Records the outcome of sending on connection `index`: `Connected` when
    /// it went out, `Disconnected` when sending failed.
    pub fn record_delivery(&mut self, index: usize, delivered: bool)
        requires
            index < old(self).connections@.len(),
        ensures
            final(self).connections@ == old(self).connections@.update(
                index as int,
                entry_with_state(old(self).connections@[index as int], if delivered { ConnectionState::Connected } else { ConnectionState::Disconnected }),
            ),
            final(self).id == old(self).id,
            final(self).session_id == old(self).session_id,
            final(self).tx_counter == old(self).tx_counter,
            final(self).hello_counter == old(self).hello_counter,
            final(self).hello_ack_counter == old(self).hello_ack_counter,
            final(self).packet_sorter == old(self).packet_sorter,
            final(self).hello_path_latency == old(self).hello_path_latency,
            final(self).hello_ack_path_latency == old(self).hello_ack_path_latency,
    {
        self.set_connection_state(index, if delivered { ConnectionState::Connected } else { ConnectionState::Disconnected });
    }

    /// Puts connection `index` in `state`.
    pub fn set_connection_state(&mut self, index: usize, state: ConnectionState)
        requires
            index < old(self).connections@.len(),
        ensures
            final(self).connections@ == old(self).connections@.update(index as int, entry_with_state(old(self).connections@[index as int], state)),
            final(self).id == old(self).id,
            final(self).session_id == old(self).session_id,
            final(self).tx_counter == old(self).tx_counter,
            final(self).hello_counter == old(self).hello_counter,
            final(self).hello_ack_counter == old(self).hello_ack_counter,
            final(self).packet_sorter == old(self).packet_sorter,
            final(self).hello_path_latency == old(self).hello_path_latency,
            final(self).hello_ack_path_latency == old(self).hello_ack_path_latency,
    {
        let mut entry = self.connections.remove(index);
        entry.connection.state = state;
        self.connections.insert(index, entry);
        assert(self.connections@ =~= old(self).connections@.update(index as int, entry_with_state(old(self).connections@[index as int], state)));
    }

    /// Takes in an answer to a greeting that arrived from `source` on the
    /// interface `interface_name`: matching connections in `Startup` become
    /// `Connected`. Returns the positions of the matching connections that
    /// are then `Connected`, whose timeouts restart.
    pub fn confirm_connections(&mut self, source: &SocketAddress, interface_name: &String) -> (r: Vec<usize>)
        ensures
            final(self).connections@.len() == old(self).connections@.len(),
            forall|i: int| 0 <= i < old(self).connections@.len() ==> #[trigger] final(self).connections@[i] == acked_entry(old(self).connections@[i], *source, interface_name@),
            selects(r@, old(self).connections@.len() as int, |i: int| final(self).connections@[i].interface_address == *source && final(self).connections@[i].interface_name@ == interface_name@ && final(self).connections@[i].connection.state == ConnectionState::Connected),
            same_counters(*final(self), *old(self)),
            final(self).packet_sorter == old(self).packet_sorter,
            final(self).hello_path_latency == old(self).hello_path_latency,
            final(self).hello_ack_path_latency == old(self).hello_ack_path_latency,
    {
        let mut out: Vec<usize> = Vec::new();
        let mut i: usize = 0;
        while i < self.connections.len()
            invariant
                i <= self.connections@.len(),
                self.connections@.len() == old(self).connections@.len(),
                forall|j: int| 0 <= j < i ==> #[trigger] self.connections@[j] == acked_entry(old(self).connections@[j], *source, interface_name@),
                forall|j: int| i <= j < self.connections@.len() ==> #[trigger] self.connections@[j] == old(self).connections@[j],
                selects(out@, i as int, |k: int| self.connections@[k].interface_address == *source && self.connections@[k].interface_name@ == interface_name@ && self.connections@[k].connection.state == ConnectionState::Connected),
                forall|j: int| 0 <= j < out@.len() ==> out@[j] < i,
                same_counters(*self, *old(self)),
                self.packet_sorter == old(self).packet_sorter,
                self.hello_path_latency == old(self).hello_path_latency,
                self.hello_ack_path_latency == old(self).hello_ack_path_latency,
            decreases self.connections@.len() - i,
        {
            let ghost before = out@;
            let ghost conns_before = self.connections@;
            let matches = self.connections[i].interface_address == *source && self.connections[i].interface_name == *interface_name;
            if matches {
                if self.connections[i].connection.state == ConnectionState::Startup {
                    self.set_connection_state(i, ConnectionState::Connected);
                }
                if self.connections[i].connection.state == ConnectionState::Connected {
                    out.push(i);
                }
            }
            proof {
                assert(self.connections@[i as int] == acked_entry(old(self).connections@[i as int], *source, interface_name@));
                assert forall|j: int| 0 <= j < i ==> #[trigger] self.connections@[j] == conns_before[j] by {}
                let p = |k: int| self.connections@[k].interface_address == *source && self.connections@[k].interface_name@ == interface_name@ && self.connections@[k].connection.state == ConnectionState::Connected;
                assert forall|k: int| 0 <= k < i + 1 && p(k) implies #[trigger] out@.contains(k as usize) by {
                    if k < i {
                        assert(before.contains(k as usize));
                        let q = choose|q: int| 0 <= q < before.len() && before[q] == k as usize;
                        assert(out@[q] == k as usize);
                    } else {
                        assert(out@[out@.len() - 1] == k as usize);
                    }
                }
            }
            i = i + 1;
        }
        out
    }

    /// Whether the endpoint has any connection.
    pub fn has_connections(&self) -> (r: bool)
        ensures
            r == (self.connections@.len() != 0),
    {
        self.connections.len() != 0
    }

    /// The interface name and peer address of every connection, in order.
    pub fn get_alive_connections(&self) -> (r: Vec<(String, SocketAddress)>)
        ensures
            r@.len() == self.connections@.len(),
            forall|i: int| 0 <= i < r@.len() ==> #[trigger] r@[i].0@ == self.connections@[i].interface_name@ && r@[i].1 == self.connections@[i].interface_address,
    {
        let mut alive: Vec<(String, SocketAddress)> = Vec::new();
        let mut i: usize = 0;
        while i < self.connections.len()
            invariant
                i <= self.connections@.len(),
                alive@.len() == i,
                forall|j: int| 0 <= j < i ==> #[trigger] alive@[j].0@ == self.connections@[j].interface_name@ && alive@[j].1 == self.connections@[j].interface_address,
            decreases self.connections@.len() - i,
        {
            let entry = &self.connections[i];
            alive.push((entry.interface_name.clone(), entry.interface_address));
            i = i + 1;
        }
        alive
    }

    /// Sets the sorter's deadline to twice the larger of the two estimated
    /// differences in path delay (greetings and answers).
    pub fn update_deadline(&mut self)
        requires
            old(self).wf(),
            times_in_order(old(self).hello_path_latency@),
            times_in_order(old(self).hello_ack_path_latency@),
        ensures
            final(self).wf(),
            final(self).packet_sorter.spec_deadline() == 2 * (if spec_estimate(old(self).hello_path_latency@) >= spec_estimate(old(self).hello_ack_path_latency@) {
                spec_estimate(old(self).hello_path_latency@)
            } else {
                spec_estimate(old(self).hello_ack_path_latency@)
            }),
            final(self).packet_sorter.queue() == old(self).packet_sorter.queue(),
            final(self).packet_sorter.spec_next_seq() == old(self).packet_sorter.spec_next_seq(),
            final(self).packet_sorter.timer() == old(self).packet_sorter.timer(),
            final(self).packet_sorter.active() == old(self).packet_sorter.active(),
            final(self).connections@ == old(self).connections@,
            final(self).hello_path_latency == old(self).hello_path_latency,
            final(self).hello_ack_path_latency == old(self).hello_ack_path_latency,
    {
        let hello_diff = self.hello_path_latency.estimate_path_delay_difference();
        let ack_diff = self.hello_ack_path_latency.estimate_path_delay_difference();
        let larger = if hello_diff >= ack_diff { hello_diff } else { ack_diff };
        self.packet_sorter.set_deadline(larger * 2);
    }

    /// Stops the connections opened on the interface `interface_name` from
    /// carrying tunnelled packets.
    pub fn disable_interface(&mut self, interface_name: &String)
        ensures
            final(self).connections@.len() == old(self).connections@.len(),
            forall|i: int| 0 <= i < old(self).connections@.len() ==> #[trigger] final(self).connections@[i] == entry_toggled(old(self).connections@[i], interface_name@, false),
            forall|i: int| 0 <= i < old(self).connections@.len() && #[trigger] old(self).connections@[i].interface_name@ != interface_name@ ==> final(self).connections@[i] == old(self).connections@[i],
            forall|i: int| 0 <= i < old(self).connections@.len() && #[trigger] old(self).connections@[i].interface_name@ == interface_name@ ==> final(self).connections@[i].connection.enabled == false,
            final(self).id == old(self).id,
            final(self).session_id == old(self).session_id,
            same_counters(*final(self), *old(self)),
            final(self).packet_sorter == old(self).packet_sorter,
            final(self).hello_path_latency == old(self).hello_path_latency,
            final(self).hello_ack_path_latency == old(self).hello_ack_path_latency,
    {
        self.toggle_interface(interface_name, false);
    }

    /// Lets the connections opened on the interface `interface_name` carry
    /// tunnelled packets again.
    pub fn enable_interface(&mut self, interface_name: &String)
        ensures
            final(self).connections@.len() == old(self).connections@.len(),
            forall|i: int| 0 <= i < old(self).connections@.len() ==> #[trigger] final(self).connections@[i] == entry_toggled(old(self).connections@[i], interface_name@, true),
            forall|i: int| 0 <= i < old(self).connections@.len() && #[trigger] old(self).connections@[i].interface_name@ != interface_name@ ==> final(self).connections@[i] == old(self).connections@[i],
            forall|i: int| 0 <= i < old(self).connections@.len() && #[trigger] old(self).connections@[i].interface_name@ == interface_name@ ==> final(self).connections@[i].connection.enabled == true,
            final(self).id == old(self).id,
            final(self).session_id == old(self).session_id,
            same_counters(*final(self), *old(self)),
            final(self).packet_sorter == old(self).packet_sorter,
            final(self).hello_path_latency == old(self).hello_path_latency,
            final(self).hello_ack_path_latency == old(self).hello_ack_path_latency,
    {
        self.toggle_interface(interface_name, true);
    }

    fn toggle_interface(&mut self, interface_name: &String, on: bool)
        ensures
            final(self).connections@.len() == old(self).connections@.len(),
            forall|i: int| 0 <= i < old(self).connections@.len() ==> #[trigger] final(self).connections@[i] == entry_toggled(old(self).connections@[i], interface_name@, on),
            final(self).id == old(self).id,
            final(self).session_id == old(self).session_id,
            same_counters(*final(self), *old(self)),
            final(self).packet_sorter == old(self).packet_sorter,
            final(self).hello_path_latency == old(self).hello_path_latency,
            final(self).hello_ack_path_latency == old(self).hello_ack_path_latency,
    {
        let mut i: usize = 0;
        while i < self.connections.len()
            invariant
                i <= self.connections@.len(),
                self.connections@.len() == old(self).connections@.len(),
                forall|j: int| 0 <= j < i ==> #[trigger] self.connections@[j] == entry_toggled(old(self).connections@[j], interface_name@, on),
                forall|j: int| i <= j < self.connections@.len() ==> #[trigger] self.connections@[j] == old(self).connections@[j],
                self.id == old(self).id,
                self.session_id == old(self).session_id,
                same_counters(*self, *old(self)),
                self.packet_sorter == old(self).packet_sorter,
                self.hello_path_latency == old(self).hello_path_latency,
                self.hello_ack_path_latency == old(self).hello_ack_path_latency,
            decreases self.connections@.len() - i,
        {
            if self.connections[i].interface_name == *interface_name {
                let mut entry = self.connections.remove(i);
                if on {
                    entry.connection.enable();
                } else {
                    entry.connection.disable();
                }
                self.connections.insert(i, entry);
            }
            i = i + 1;
        }
    }
}

} // verus!
