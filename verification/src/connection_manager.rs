use vstd::prelude::*;
use std::collections::HashMap;
use crate::addr::{IpAddress, Ipv4Address, SocketAddress};
use crate::connection::{Connection, ConnectionState};
use crate::crypto::{aes256_gcm_siv_open, aes256_gcm_siv_seal, new_session_id, spec_aes256_gcm_siv_open, spec_aes256_gcm_siv_seal, MAX_PLAINTEXT};
use crate::endpoint::{ConnectionEntry, Delivery, Endpoint, is_new_endpoint, same_routes, clone_routes, is_first_connection, selects, is_live, entry_with_state, acked_entry, same_counters, entry_toggled};
use crate::messages::{DuplicationCommands, EncryptedMessage, EndpointId, Hello, HelloAck, Messages, Packet};
use crate::packet_sorter::{spec_inserted, spec_advanced, timer_after, DeadlineTimer, QueuedPacket};
use crate::path_latency::spec_insert_timestamp;
use vstd::std_specs::iter::IteratorSpec;
use crate::router::{AddressEndpointMapping, Route, Router, spec_insert_route, lemma_insert_route_entries, spec_lookup, lemma_lookup_answers, spec_reachable};
use crate::ip_packet::{IpDestination, ip_destination, spec_ip_destination};

verus! {

/// The routes of an optional list.
pub open spec fn route_list(routes: Option<Vec<Route>>) -> Seq<Route> {
    match routes {
        Some(v) => v@,
        None => Seq::empty(),
    }
}

/// The routing table after learning, in order, that each of `routes` is
/// reached through `endpoint_id`.
pub open spec fn spec_learn_routes(table: Seq<AddressEndpointMapping>, routes: Seq<Route>, endpoint_id: EndpointId) -> Seq<AddressEndpointMapping>
    decreases routes.len(),
{
    if routes.len() == 0 {
        table
    } else {
        spec_insert_route(
            spec_learn_routes(table, routes.drop_last(), endpoint_id),
            AddressEndpointMapping { address: routes.last(), endpoint_id },
        )
    }
}

/// Learning routes for `endpoint_id` adds routes to it and to no other
/// endpoint.
pub proof fn lemma_learned_routes_lead_to(table: Seq<AddressEndpointMapping>, routes: Seq<Route>, endpoint_id: EndpointId)
    ensures
        forall|x: AddressEndpointMapping| #[trigger] spec_learn_routes(table, routes, endpoint_id).contains(x) ==> table.contains(x) || x.endpoint_id == endpoint_id,
    decreases routes.len(),
{
    if routes.len() > 0 {
        let prev = spec_learn_routes(table, routes.drop_last(), endpoint_id);
        let m = AddressEndpointMapping { address: routes.last(), endpoint_id };
        lemma_learned_routes_lead_to(table, routes.drop_last(), endpoint_id);
        lemma_insert_route_entries(prev, m);
        assert forall|x: AddressEndpointMapping| #[trigger] spec_learn_routes(table, routes, endpoint_id).contains(x) implies table.contains(x) || x.endpoint_id == endpoint_id by {
            assert(spec_learn_routes(table, routes, endpoint_id) == spec_insert_route(prev, m));
            if x != m {
                assert(prev.contains(x));
            }
        }
    }
}


/// Learning the routes a peer announces keeps every route the table held
/// and adds each announced route, for that peer, and nothing else: the
/// table afterwards holds exactly the old entries and one entry
/// `(r, endpoint_id)` for every announced route `r`. So every address in
/// the network of an announced route is looked up to that peer.
pub proof fn lemma_announced_routes_learned(table: Seq<AddressEndpointMapping>, routes: Seq<Route>, endpoint_id: EndpointId)
    ensures
        forall|x: AddressEndpointMapping| #[trigger] spec_learn_routes(table, routes, endpoint_id).contains(x) <==> (table.contains(x) || (x.endpoint_id == endpoint_id && routes.contains(x.address))),
        forall|i: int, address: Ipv4Address| 0 <= i < routes.len() && #[trigger] spec_reachable(routes[i], address) ==> spec_lookup(spec_learn_routes(table, routes, endpoint_id), address).contains(endpoint_id),
    decreases routes.len(),
{
    let learned = spec_learn_routes(table, routes, endpoint_id);
    if routes.len() > 0 {
        let rest = routes.drop_last();
        let prev = spec_learn_routes(table, rest, endpoint_id);
        let m = AddressEndpointMapping { address: routes.last(), endpoint_id };
        lemma_announced_routes_learned(table, rest, endpoint_id);
        lemma_insert_route_entries(prev, m);
        assert(learned == spec_insert_route(prev, m));
        assert forall|x: AddressEndpointMapping| #[trigger] learned.contains(x) <==> (table.contains(x) || (x.endpoint_id == endpoint_id && routes.contains(x.address))) by {
            if learned.contains(x) {
                if x == m {
                    assert(routes[routes.len() - 1] == x.address);
                } else {
                    assert(prev.contains(x));
                    if !table.contains(x) {
                        assert(rest.contains(x.address));
                        let j = choose|j: int| 0 <= j < rest.len() && rest[j] == x.address;
                        assert(routes[j] == x.address);
                    }
                }
            }
            if table.contains(x) {
                assert(prev.contains(x));
            }
            if x.endpoint_id == endpoint_id && routes.contains(x.address) {
                let j = choose|j: int| 0 <= j < routes.len() && routes[j] == x.address;
                if j < rest.len() {
                    assert(rest[j] == x.address);
                    assert(rest.contains(x.address));
                    assert(prev.contains(x));
                } else {
                    assert(x.address == m.address);
                    assert(x == m);
                }
            }
        }
    } else {
        assert(learned == table);
        assert forall|x: AddressEndpointMapping| #[trigger] learned.contains(x) <==> (table.contains(x) || (x.endpoint_id == endpoint_id && routes.contains(x.address))) by {
            if routes.contains(x.address) {
                let j = choose|j: int| 0 <= j < routes.len() && routes[j] == x.address;
            }
        }
    }
    assert forall|i: int, address: Ipv4Address| 0 <= i < routes.len() && #[trigger] spec_reachable(routes[i], address) implies spec_lookup(learned, address).contains(endpoint_id) by {
        let x = AddressEndpointMapping { address: routes[i], endpoint_id };
        assert(routes.contains(routes[i]));
        assert(learned.contains(x));
        let k = choose|k: int| 0 <= k < learned.len() && learned[k] == x;
        lemma_lookup_answers(learned, address);
        assert(spec_reachable(learned[k].address, address) && learned[k].endpoint_id == endpoint_id);
    }
}

/// The endpoint table `m1` is `m0` with endpoint `id` replaced by a well
/// formed endpoint filed under its id: the table stays well formed, and
/// routes that led to known endpoints still do.
proof fn lemma_put_endpoint(m0: Map<EndpointId, Endpoint>, m1: Map<EndpointId, Endpoint>, table: Seq<AddressEndpointMapping>, id: EndpointId)
    requires
        forall|k: EndpointId| #[trigger] m0.contains_key(k) ==> m0[k].wf() && m0[k].id == k,
        forall|i: int| 0 <= i < table.len() ==> m0.contains_key(#[trigger] table[i].endpoint_id),
        m1.contains_key(id),
        m1[id].wf(),
        m1[id].id == id,
        m1.remove(id) == m0.remove(id),
    ensures
        forall|k: EndpointId| #[trigger] m1.contains_key(k) ==> m1[k].wf() && m1[k].id == k,
        forall|i: int| 0 <= i < table.len() ==> m1.contains_key(#[trigger] table[i].endpoint_id),
{
    assert forall|k: EndpointId| #[trigger] m1.contains_key(k) implies m1[k].wf() && m1[k].id == k by {
        if k != id {
            assert(m1.remove(id).contains_key(k));
            assert(m0.contains_key(k));
            assert(m1[k] == m1.remove(id)[k]);
        }
    }
    assert forall|i: int| 0 <= i < table.len() implies m1.contains_key(#[trigger] table[i].endpoint_id) by {
        let k = table[i].endpoint_id;
        assert(m0.contains_key(k));
        if k != id {
            assert(m0.remove(id).contains_key(k));
        }
    }
}

/// What came of a message on an established connection.
#[derive(Debug)]
pub enum EstablishedOutcome {
    /// The message was for an unknown peer and was dropped.
    Ignored,
    /// A tunnelled packet was taken in; these packets came out in order.
    Sorted(Vec<Packet>),
    /// A known peer greeted again: the program adds the connection (if new)
    /// and answers.
    Greeted(EndpointId),
    /// A known peer answered: the timeouts of these of its connections
    /// restart.
    Acknowledged(EndpointId, Vec<usize>),
}

/// A tunnelled packet to send to a peer, over the connections listed.
#[derive(Debug)]
pub struct Outgoing {
    pub endpoint_id: EndpointId,
    pub packet: Packet,
    pub targets: Vec<usize>,
}

/// A greeting for a peer, and the connections it goes out on.
#[derive(Debug)]
pub struct Greeting {
    pub endpoint_id: EndpointId,
    pub hello: Hello,
    pub targets: Vec<usize>,
}


/// Endpoint `e1` is `e0`, with its send counter advanced (wrapping) when
/// `advanced`.
pub open spec fn tx_advanced(e1: Endpoint, e0: Endpoint, advanced: bool) -> bool {
    &&& e1.tx_counter == (if advanced {
        if e0.tx_counter == u64::MAX { 0 } else { (e0.tx_counter + 1) as u64 }
    } else {
        e0.tx_counter
    })
    &&& e1.id == e0.id
    &&& e1.session_id == e0.session_id
    &&& e1.hello_counter == e0.hello_counter
    &&& e1.hello_ack_counter == e0.hello_ack_counter
    &&& e1.connections@ == e0.connections@
    &&& e1.packet_sorter == e0.packet_sorter
    &&& e1.hello_path_latency == e0.hello_path_latency
    &&& e1.hello_ack_path_latency == e0.hello_ack_path_latency
}


/// The routing table without the routes that lead to an endpoint of `gone`.
pub open spec fn spec_without_endpoints(s: Seq<AddressEndpointMapping>, gone: Set<EndpointId>) -> Seq<AddressEndpointMapping>
    decreases s.len(),
{
    if s.len() == 0 {
        Seq::empty()
    } else {
        let prev = spec_without_endpoints(s.drop_last(), gone);
        if gone.contains(s.last().endpoint_id) {
            prev
        } else {
            prev.push(s.last())
        }
    }
}

/// Dropping the routes of one more endpoint.
proof fn lemma_without_one_more(s: Seq<AddressEndpointMapping>, gone: Set<EndpointId>, k: EndpointId)
    ensures
        crate::router::spec_without_endpoint(spec_without_endpoints(s, gone), k) == spec_without_endpoints(s, gone.insert(k)),
    decreases s.len(),
{
    if s.len() > 0 {
        lemma_without_one_more(s.drop_last(), gone, k);
        let prev = spec_without_endpoints(s.drop_last(), gone);
        if !gone.contains(s.last().endpoint_id) {
            assert(prev.push(s.last()).drop_last() =~= prev);
        }
    }
}

/// The routes kept are routes of the table that lead to no endpoint of
/// `gone`.
pub proof fn lemma_without_endpoints_entries(s: Seq<AddressEndpointMapping>, gone: Set<EndpointId>)
    ensures
        forall|i: int| 0 <= i < spec_without_endpoints(s, gone).len() ==> {
            &&& s.contains(#[trigger] spec_without_endpoints(s, gone)[i])
            &&& !gone.contains(spec_without_endpoints(s, gone)[i].endpoint_id)
        },
    decreases s.len(),
{
    if s.len() > 0 {
        let p = s.drop_last();
        lemma_without_endpoints_entries(p, gone);
        let prev = spec_without_endpoints(p, gone);
        let r = spec_without_endpoints(s, gone);
        assert forall|i: int| 0 <= i < r.len() implies {
            &&& s.contains(#[trigger] r[i])
            &&& !gone.contains(r[i].endpoint_id)
        } by {
            if i < prev.len() {
                assert(r[i] == prev[i]);
                assert(p.contains(prev[i]));
                let q = choose|q: int| 0 <= q < p.len() && p[q] == prev[i];
                assert(s[q] == p[q]);
            } else {
                assert(r[i] == s.last());
                assert(s[s.len() - 1] == s.last());
            }
        }
    }
}

/// `m1` is the endpoint table `m0` after the first connection of endpoint
/// `id` to `address` on the interface `name` (if there is one) is removed.
pub open spec fn removed_connection(m0: Map<EndpointId, Endpoint>, m1: Map<EndpointId, Endpoint>, id: EndpointId, name: Seq<char>, address: SocketAddress) -> bool {
    if m0.contains_key(id) && exists|i: int| is_first_connection(m0[id].connections@, address, name, i) {
        let i = choose|i: int| is_first_connection(m0[id].connections@, address, name, i);
        &&& m1.contains_key(id)
        &&& m1.remove(id) == m0.remove(id)
        &&& m1[id].connections@ == m0[id].connections@.remove(i)
        &&& same_counters(m1[id], m0[id])
        &&& m1[id].packet_sorter == m0[id].packet_sorter
        &&& m1[id].hello_path_latency == m0[id].hello_path_latency
        &&& m1[id].hello_ack_path_latency == m0[id].hello_ack_path_latency
    } else {
        m1 == m0
    }
}

/// Dropping the routes of no endpoint keeps the table.
proof fn lemma_without_nothing(s: Seq<AddressEndpointMapping>)
    ensures
        spec_without_endpoints(s, Set::<EndpointId>::empty()) == s,
    decreases s.len(),
{
    if s.len() > 0 {
        lemma_without_nothing(s.drop_last());
        assert(s.drop_last().push(s.last()) =~= s);
    }
}

/// The ids of the endpoints of `m` that have no connection.
pub open spec fn idle_endpoints(m: Map<EndpointId, Endpoint>) -> Set<EndpointId> {
    Set::new(|k: EndpointId| m.contains_key(k) && m[k].connections@.len() == 0)
}


/// A connection to be kept open to a peer: the interface and local address
/// it leaves from and the peer's address and id.
#[derive(Debug, Clone)]
pub struct ConnectionInfo {
    pub interface_name: String,
    pub local_address: SocketAddress,
    pub destination_address: SocketAddress,
    pub destination_endpoint_id: EndpointId,
}

/// A connection named by its endpoint, interface name and peer address.
pub type ConnectionKey = (EndpointId, Seq<char>, SocketAddress);

/// The disconnected connections among `conns` of endpoint `id`, in order.
pub open spec fn disconnected_of(id: EndpointId, conns: Seq<ConnectionEntry>) -> Seq<ConnectionKey>
    decreases conns.len(),
{
    if conns.len() == 0 {
        Seq::empty()
    } else {
        let prev = disconnected_of(id, conns.drop_last());
        let c = conns.last();
        if c.connection.state == ConnectionState::Disconnected {
            prev.push((id, c.interface_name@, c.interface_address))
        } else {
            prev
        }
    }
}

/// The disconnected connections of the endpoints `ids` of `m`, endpoint by
/// endpoint in the order of `ids`.
pub open spec fn all_disconnected(m: Map<EndpointId, Endpoint>, ids: Seq<EndpointId>) -> Seq<ConnectionKey>
    decreases ids.len(),
{
    if ids.len() == 0 {
        Seq::empty()
    } else {
        all_disconnected(m, ids.drop_last()) + disconnected_of(ids.last(), m[ids.last()].connections@)
    }
}

/// No two connections in `conns` share an interface name and a peer
/// address.
pub open spec fn distinct_connections(conns: Seq<ConnectionEntry>) -> bool {
    forall|a: int, b: int| 0 <= a < b < conns.len() ==> !(#[trigger] conns[a].interface_name@ == #[trigger] conns[b].interface_name@ && conns[a].interface_address == conns[b].interface_address)
}

/// Every key listed for removal names a `Disconnected` connection of its
/// endpoint.
proof fn lemma_disconnected_of_keys(id: EndpointId, conns: Seq<ConnectionEntry>)
    ensures
        forall|k: ConnectionKey| #[trigger] disconnected_of(id, conns).contains(k) ==> k.0 == id && exists|j: int| 0 <= j < conns.len() && #[trigger] conns[j].connection.state == ConnectionState::Disconnected && conns[j].interface_name@ == k.1 && conns[j].interface_address == k.2,
    decreases conns.len(),
{
    if conns.len() > 0 {
        let p = conns.drop_last();
        lemma_disconnected_of_keys(id, p);
        let prev = disconnected_of(id, p);
        let c = conns.last();
        assert forall|k: ConnectionKey| #[trigger] disconnected_of(id, conns).contains(k) implies k.0 == id && exists|j: int| 0 <= j < conns.len() && #[trigger] conns[j].connection.state == ConnectionState::Disconnected && conns[j].interface_name@ == k.1 && conns[j].interface_address == k.2 by {
            let d = disconnected_of(id, conns);
            let q = choose|q: int| 0 <= q < d.len() && d[q] == k;
            if q < prev.len() {
                assert(prev[q] == k);
                assert(prev.contains(k));
                let j = choose|j: int| 0 <= j < p.len() && #[trigger] p[j].connection.state == ConnectionState::Disconnected && p[j].interface_name@ == k.1 && p[j].interface_address == k.2;
                assert(conns[j] == p[j]);
            } else {
                assert(conns[conns.len() - 1] == c);
                assert(conns[conns.len() - 1].connection.state == ConnectionState::Disconnected);
            }
        }
    }
}

proof fn lemma_all_disconnected_keys(m: Map<EndpointId, Endpoint>, ids: Seq<EndpointId>)
    ensures
        forall|k: ConnectionKey| #[trigger] all_disconnected(m, ids).contains(k) ==> exists|j: int| 0 <= j < m[k.0].connections@.len() && #[trigger] m[k.0].connections@[j].connection.state == ConnectionState::Disconnected && m[k.0].connections@[j].interface_name@ == k.1 && m[k.0].connections@[j].interface_address == k.2,
    decreases ids.len(),
{
    if ids.len() > 0 {
        let rest = ids.drop_last();
        lemma_all_disconnected_keys(m, rest);
        let a = all_disconnected(m, rest);
        let b = disconnected_of(ids.last(), m[ids.last()].connections@);
        lemma_disconnected_of_keys(ids.last(), m[ids.last()].connections@);
        assert forall|k: ConnectionKey| #[trigger] all_disconnected(m, ids).contains(k) implies exists|j: int| 0 <= j < m[k.0].connections@.len() && #[trigger] m[k.0].connections@[j].connection.state == ConnectionState::Disconnected && m[k.0].connections@[j].interface_name@ == k.1 && m[k.0].connections@[j].interface_address == k.2 by {
            let all = all_disconnected(m, ids);
            assert(all == a + b);
            let q = choose|q: int| 0 <= q < all.len() && all[q] == k;
            if q < a.len() {
                assert(a[q] == k);
                assert(a.contains(k));
            } else {
                assert(b[q - a.len()] == k);
                assert(b.contains(k));
            }
        }
    }
}

/// One removal step keeps every connection whose key is not the one removed,
/// and keeps its endpoint.
proof fn lemma_removal_step_keeps(
    pre: (Map<EndpointId, Endpoint>, Seq<AddressEndpointMapping>),
    post: (Map<EndpointId, Endpoint>, Seq<AddressEndpointMapping>),
    key: ConnectionKey,
    id: EndpointId,
    c: ConnectionEntry,
)
    requires
        removal_step(pre, post, key),
        pre.0.contains_key(id),
        pre.0[id].connections@.contains(c),
        !(key.0 == id && key.1 == c.interface_name@ && key.2 == c.interface_address),
    ensures
        post.0.contains_key(id),
        post.0[id].connections@.contains(c),
{
    let m0 = pre.0;
    let m1 = choose|m1: Map<EndpointId, Endpoint>| #![trigger removed_connection(pre.0, m1, key.0, key.1, key.2)] {
        &&& removed_connection(pre.0, m1, key.0, key.1, key.2)
        &&& post.0 == m1.remove_keys(idle_endpoints(m1))
        &&& post.1 == spec_without_endpoints(pre.1, idle_endpoints(m1))
    };
    let p = choose|p: int| 0 <= p < m0[id].connections@.len() && m0[id].connections@[p] == c;
    if m0.contains_key(key.0) && exists|i: int| is_first_connection(m0[key.0].connections@, key.2, key.1, i) {
        let i = choose|i: int| is_first_connection(m0[key.0].connections@, key.2, key.1, i);
        if key.0 == id {
            assert(p != i);
            let r = m0[id].connections@.remove(i);
            if p < i {
                assert(r[p] == c);
            } else {
                assert(r[p - 1] == c);
            }
            assert(m1[id].connections@.contains(c));
        } else {
            assert(m0.remove(key.0).contains_key(id));
            assert(m1.remove(key.0)[id] == m0.remove(key.0)[id]);
            assert(m1[id] == m0[id]);
            assert(m1[id].connections@[p] == c);
        }
    } else {
        assert(m1 == m0);
        assert(m1[id].connections@[p] == c);
    }
    assert(!idle_endpoints(m1).contains(id));
    assert(post.0[id] == m1[id]);
}

/// Cleaning up disconnected connections keeps every connection that is not
/// `Disconnected` (in `Startup` or `Connected` state), and so its endpoint,
/// provided no two connections of that endpoint share an interface name and
/// a peer address (a removal takes the first connection with the key).
pub proof fn lemma_live_connections_survive(
    m0: Map<EndpointId, Endpoint>,
    routes0: Seq<AddressEndpointMapping>,
    ids: Seq<EndpointId>,
    trace: Seq<(Map<EndpointId, Endpoint>, Seq<AddressEndpointMapping>)>,
    id: EndpointId,
    c: ConnectionEntry,
)
    requires
        trace.len() == all_disconnected(m0, ids).len() + 1,
        trace[0] == (m0, routes0),
        forall|i: int| 0 <= i < all_disconnected(m0, ids).len() ==> removal_step(#[trigger] trace[i], trace[i + 1], all_disconnected(m0, ids)[i]),
        m0.contains_key(id),
        distinct_connections(m0[id].connections@),
        m0[id].connections@.contains(c),
        c.connection.state != ConnectionState::Disconnected,
    ensures
        trace.last().0.contains_key(id),
        trace.last().0[id].connections@.contains(c),
{
    let list = all_disconnected(m0, ids);
    lemma_survives_steps(m0, routes0, ids, trace, id, c, list.len() as int);
    assert(trace.last() == trace[list.len() as int]);
}

proof fn lemma_survives_steps(
    m0: Map<EndpointId, Endpoint>,
    routes0: Seq<AddressEndpointMapping>,
    ids: Seq<EndpointId>,
    trace: Seq<(Map<EndpointId, Endpoint>, Seq<AddressEndpointMapping>)>,
    id: EndpointId,
    c: ConnectionEntry,
    n: int,
)
    requires
        0 <= n <= all_disconnected(m0, ids).len(),
        trace.len() == all_disconnected(m0, ids).len() + 1,
        trace[0] == (m0, routes0),
        forall|i: int| 0 <= i < all_disconnected(m0, ids).len() ==> removal_step(#[trigger] trace[i], trace[i + 1], all_disconnected(m0, ids)[i]),
        m0.contains_key(id),
        distinct_connections(m0[id].connections@),
        m0[id].connections@.contains(c),
        c.connection.state != ConnectionState::Disconnected,
    ensures
        trace[n].0.contains_key(id),
        trace[n].0[id].connections@.contains(c),
    decreases n,
{
    if n > 0 {
        lemma_survives_steps(m0, routes0, ids, trace, id, c, n - 1);
        let list = all_disconnected(m0, ids);
        lemma_all_disconnected_keys(m0, ids);
        let conns = m0[id].connections@;
        let p = choose|p: int| 0 <= p < conns.len() && conns[p] == c;
        let k = list[n - 1];
        assert(list.contains(k));
        if k.0 == id && k.1 == c.interface_name@ && k.2 == c.interface_address {
            let j = choose|j: int| 0 <= j < m0[k.0].connections@.len() && #[trigger] m0[k.0].connections@[j].connection.state == ConnectionState::Disconnected && m0[k.0].connections@[j].interface_name@ == k.1 && m0[k.0].connections@[j].interface_address == k.2;
            assert(j != p);
            if j < p {
                assert(!(conns[j].interface_name@ == conns[p].interface_name@ && conns[j].interface_address == conns[p].interface_address));
            } else {
                assert(!(conns[p].interface_name@ == conns[j].interface_name@ && conns[p].interface_address == conns[j].interface_address));
            }
        }
        lemma_removal_step_keeps(trace[n - 1], trace[n], k, id, c);
    } else {
        assert(trace[0].0 == m0);
    }
}

/// `post` (endpoints and routing table) is `pre` after `remove_connection`
/// of `key`.
pub open spec fn removal_step(
    pre: (Map<EndpointId, Endpoint>, Seq<AddressEndpointMapping>),
    post: (Map<EndpointId, Endpoint>, Seq<AddressEndpointMapping>),
    key: ConnectionKey,
) -> bool {
    exists|m1: Map<EndpointId, Endpoint>| #![trigger removed_connection(pre.0, m1, key.0, key.1, key.2)] {
        &&& removed_connection(pre.0, m1, key.0, key.1, key.2)
        &&& post.0 == m1.remove_keys(idle_endpoints(m1))
        &&& post.1 == spec_without_endpoints(pre.1, idle_endpoints(m1))
    }
}

/// Endpoint `e1` is `e0` with its greeting counter advanced (wrapping).
pub open spec fn hello_advanced(e1: Endpoint, e0: Endpoint) -> bool {
    &&& e1.hello_counter == (if e0.hello_counter == u64::MAX { 0 } else { (e0.hello_counter + 1) as u64 })
    &&& e1.id == e0.id
    &&& e1.session_id == e0.session_id
    &&& e1.tx_counter == e0.tx_counter
    &&& e1.hello_ack_counter == e0.hello_ack_counter
    &&& e1.connections@ == e0.connections@
    &&& e1.packet_sorter == e0.packet_sorter
    &&& e1.hello_path_latency == e0.hello_path_latency
    &&& e1.hello_ack_path_latency == e0.hello_ack_path_latency
}

/// Endpoint `e1` is `e0` with its connections on the interface `name`
/// enabled (`on`) or disabled.
pub open spec fn interface_toggled(e1: Endpoint, e0: Endpoint, name: Seq<char>, on: bool) -> bool {
    &&& e1.connections@.len() == e0.connections@.len()
    &&& forall|j: int| 0 <= j < e0.connections@.len() ==> #[trigger] e1.connections@[j] == entry_toggled(e0.connections@[j], name, on)
    &&& same_counters(e1, e0)
    &&& e1.packet_sorter == e0.packet_sorter
    &&& e1.hello_path_latency == e0.hello_path_latency
    &&& e1.hello_ack_path_latency == e0.hello_ack_path_latency
}

/// A greeting is refused when it names a known peer under a different
/// session id that has already been used.
pub open spec fn hello_refused(endpoints: Map<EndpointId, Endpoint>, history: Seq<u128>, hello: Hello) -> bool {
    &&& endpoints.contains_key(hello.id)
    &&& endpoints[hello.id].session_id != hello.session_id
    &&& history.contains(hello.session_id)
}

/// The connection a client opens on the interface `interface_name`, from
/// `local_address` to `destination_address`: it starts up, carries traffic
/// and knows its interface.
pub open spec fn opened_connection(interface_name: String, local_address: SocketAddress, destination_address: SocketAddress) -> ConnectionEntry {
    ConnectionEntry {
        interface_name,
        interface_address: destination_address,
        connection: Connection {
            interface_name: Some(interface_name),
            local_address,
            peer_addr: destination_address,
            state: ConnectionState::Startup,
            enabled: true,
        },
    }
}

/// The sessions after a greeting `hello` was taken in (`accepted`) or
/// refused: a refused greeting changes nothing; an accepted one leaves the
/// peer under the greeting's session, the other peers as they were, and
/// records the session when it is new for the peer.
pub open spec fn hello_outcome(
    e0: Map<EndpointId, Endpoint>,
    h0: Seq<u128>,
    hello: Hello,
    accepted: bool,
    e1: Map<EndpointId, Endpoint>,
    h1: Seq<u128>,
) -> bool {
    let same = e0.contains_key(hello.id) && e0[hello.id].session_id == hello.session_id;
    &&& accepted == !hello_refused(e0, h0, hello)
    &&& !accepted ==> e1 == e0 && h1 == h0
    &&& accepted ==> {
        &&& e1.contains_key(hello.id)
        &&& e1[hello.id].session_id == hello.session_id
        &&& e1.remove(hello.id) == e0.remove(hello.id)
        &&& same ==> h1 == h0
        &&& !same ==> h1 == h0.push(hello.session_id)
    }
}

/// Once a peer has moved to a new session, a greeting under its previous
/// session, which was recorded, is refused: a session cannot be taken up
/// again.
pub proof fn lemma_replaced_session_refused(
    e0: Map<EndpointId, Endpoint>,
    h0: Seq<u128>,
    first: Hello,
    e1: Map<EndpointId, Endpoint>,
    h1: Seq<u128>,
    second: Hello,
)
    requires
        hello_outcome(e0, h0, first, true, e1, h1),
        e0.contains_key(first.id),
        e0[first.id].session_id != first.session_id,
        h0.contains(e0[first.id].session_id),
        second.id == first.id,
        second.session_id == e0[first.id].session_id,
    ensures
        hello_refused(e1, h1, second),
{
    let s = e0[first.id].session_id;
    let k = choose|k: int| 0 <= k < h0.len() && h0[k] == s;
    assert(h1[k] == s);
}

/// A session history only grows: greetings never forget a session.
pub proof fn lemma_hello_keeps_history(
    e0: Map<EndpointId, Endpoint>,
    h0: Seq<u128>,
    hello: Hello,
    accepted: bool,
    e1: Map<EndpointId, Endpoint>,
    h1: Seq<u128>,
)
    requires
        hello_outcome(e0, h0, hello, accepted, e1, h1),
    ensures
        h0.len() <= h1.len(),
        h1.take(h0.len() as int) == h0,
{
    assert(h0.push(hello.session_id).take(h0.len() as int) =~= h0);
    assert(h0.take(h0.len() as int) =~= h0);
}

/// Keeps track of the peers (endpoints), their sessions and the routes they
/// announce, and decides what to send where. Sockets, timers and the tunnel
/// device belong to the program around the library.
pub struct ConnectionManager {
    endpoints: HashMap<EndpointId, Endpoint>,
    local_address: SocketAddress,
    own_id: EndpointId,
    session_history: Vec<u128>,
    routes: Router,
    tun_address: IpAddress,
    own_static_routes: Option<Vec<Route>>,
    connection_timeout: u64,
    packet_sorter_deadline: u64,
    encryption_key: [u8; 32],
}

impl ConnectionManager {
    /// The endpoints, by id.
    pub closed spec fn endpoints(&self) -> Map<EndpointId, Endpoint> {
        self.endpoints@
    }

    /// Every session id ever accepted from a greeting, in order.
    pub closed spec fn session_history(&self) -> Seq<u128> {
        self.session_history@
    }

    /// The routing table.
    pub closed spec fn route_table(&self) -> Seq<AddressEndpointMapping> {
        self.routes@
    }

    /// The routes this side announces.
    pub closed spec fn own_static_routes(&self) -> Option<Vec<Route>> {
        self.own_static_routes
    }

    /// How long, in milliseconds, a new endpoint's sorter waits for a
    /// missing packet.
    pub closed spec fn spec_packet_sorter_deadline(&self) -> u64 {
        self.packet_sorter_deadline
    }

    /// The shared key.
    pub closed spec fn key(&self) -> Seq<u8> {
        self.encryption_key@
    }

    /// The local socket address new connections are bound to.
    pub closed spec fn spec_local_address(&self) -> SocketAddress {
        self.local_address
    }

    /// This side's endpoint id.
    pub closed spec fn spec_own_id(&self) -> EndpointId {
        self.own_id
    }

    /// The tunnel device's address.
    pub closed spec fn spec_tun_address(&self) -> IpAddress {
        self.tun_address
    }

    /// The connection timeout, in milliseconds.
    pub closed spec fn spec_connection_timeout(&self) -> u64 {
        self.connection_timeout
    }

    /// `self` has the settings of `other`.
    pub open spec fn keeps_settings_of(&self, other: &Self) -> bool {
        &&& self.own_static_routes() == other.own_static_routes()
        &&& self.spec_packet_sorter_deadline() == other.spec_packet_sorter_deadline()
        &&& self.key() == other.key()
        &&& self.spec_local_address() == other.spec_local_address()
        &&& self.spec_connection_timeout() == other.spec_connection_timeout()
        &&& self.spec_own_id() == other.spec_own_id()
        &&& self.spec_tun_address() == other.spec_tun_address()
    }

    /// Every endpoint is well formed and filed under its own id, and every
    /// route leads to a known endpoint.
    pub open spec fn wf(&self) -> bool {
        &&& forall|id: EndpointId| #[trigger] self.endpoints().contains_key(id) ==> {
            &&& self.endpoints()[id].wf()
            &&& self.endpoints()[id].id == id
        }
        &&& forall|i: int| 0 <= i < self.route_table().len() ==> self.endpoints().contains_key(#[trigger] self.route_table()[i].endpoint_id)
    }

    /// A manager with no endpoints, no session history and no routes.
    pub fn new(
        local_address: SocketAddress,
        own_id: EndpointId,
        tun_address: IpAddress,
        own_static_routes: Option<Vec<Route>>,
        connection_timeout: u64,
        packet_sorter_deadline: u64,
        encryption_key: [u8; 32],
    ) -> (r: ConnectionManager)
        ensures
            r.wf(),
            r.endpoints() == Map::<EndpointId, Endpoint>::empty(),
            r.session_history() == Seq::<u128>::empty(),
            r.route_table() == Seq::<AddressEndpointMapping>::empty(),
            r.spec_own_id() == own_id,
            r.spec_tun_address() == tun_address,
            r.own_static_routes() == own_static_routes,
            r.spec_packet_sorter_deadline() == packet_sorter_deadline,
            r.spec_connection_timeout() == connection_timeout,
            r.spec_local_address() == local_address,
            r.key() == encryption_key@,
    {
        ConnectionManager {
            endpoints: HashMap::new(),
            local_address,
            own_id,
            session_history: Vec::new(),
            routes: Router::new(),
            tun_address,
            own_static_routes,
            connection_timeout,
            packet_sorter_deadline,
            encryption_key,
        }
    }

    /// Whether any endpoint is known.
    pub fn has_endpoints(&self) -> (r: bool)
        ensures
            r == (self.endpoints().dom().len() != 0),
    {
        self.endpoints.len() != 0
    }

    /// The number of endpoints known.
    pub fn endpoint_count(&self) -> (r: usize)
        ensures
            r == self.endpoints().dom().len(),
    {
        self.endpoints.len()
    }

    /// The endpoint with that id, if known.
    pub fn endpoint(&self, id: EndpointId) -> (r: Option<&Endpoint>)
        ensures
            match r {
                Some(e) => self.endpoints().contains_key(id) && *e == self.endpoints()[id],
                None => !self.endpoints().contains_key(id),
            },
    {
        self.endpoints.get(&id)
    }

    /// The routing table.
    pub fn routes(&self) -> (r: &Router)
        ensures
            r@ == self.route_table(),
    {
        &self.routes
    }

    /// The session ids accepted so far.
    pub fn sessions_seen(&self) -> (r: &Vec<u128>)
        ensures
            r@ == self.session_history(),
    {
        &self.session_history
    }

    /// The routes this side announces.
    pub fn announced_routes(&self) -> (r: &Option<Vec<Route>>)
        ensures
            *r == self.own_static_routes(),
    {
        &self.own_static_routes
    }

    /// The local socket address new connections are bound to.
    pub fn local_address(&self) -> (r: SocketAddress)
        ensures
            r == self.spec_local_address(),
    {
        self.local_address
    }

    /// This side's endpoint id.
    pub fn own_id(&self) -> (r: EndpointId)
        ensures
            r == self.spec_own_id(),
    {
        self.own_id
    }

    /// The tunnel device's address.
    pub fn tun_address(&self) -> (r: IpAddress)
        ensures
            r == self.spec_tun_address(),
    {
        self.tun_address
    }

    /// The connection timeout, in milliseconds.
    pub fn connection_timeout(&self) -> (r: u64)
        ensures
            r == self.spec_connection_timeout(),
    {
        self.connection_timeout
    }

    /// Opens a message sealed under the shared key: the plaintext, or
    /// `None` when it does not authenticate.
    pub fn open_sealed_message(&self, sealed: &EncryptedMessage) -> (r: Option<Vec<u8>>)
        ensures
            match r {
                Some(plain) => spec_aes256_gcm_siv_open(self.key(), sealed.nonce@, sealed.message@) == Some(plain@),
                None => spec_aes256_gcm_siv_open(self.key(), sealed.nonce@, sealed.message@) is None,
            },
    {
        aes256_gcm_siv_open(&self.encryption_key, &sealed.nonce, sealed.message.as_slice())
    }

    /// Seals `plain` under the shared key and `nonce` (which must not repeat
    /// under the same key), for a peer to open.
    pub fn seal_message(&self, nonce: [u8; 12], plain: &[u8]) -> (r: EncryptedMessage)
        requires
            plain@.len() <= MAX_PLAINTEXT,
        ensures
            r.nonce == nonce,
            r.message@ == spec_aes256_gcm_siv_seal(self.key(), nonce@, plain@),
            spec_aes256_gcm_siv_open(self.key(), r.nonce@, r.message@) == Some(plain@),
    {
        let message = aes256_gcm_siv_seal(&self.encryption_key, &nonce, plain);
        EncryptedMessage { nonce, message }
    }

    /// The position of the connection of endpoint `id` to `address` on the
    /// interface `interface_name`, if the endpoint and the connection exist.
    pub fn connection_position(&self, id: EndpointId, address: &SocketAddress, interface_name: &String) -> (r: Option<usize>)
        ensures
            !self.endpoints().contains_key(id) ==> r is None,
            self.endpoints().contains_key(id) ==> match r {
                Some(i) => is_first_connection(self.endpoints()[id].connections@, *address, interface_name@, i as int),
                None => forall|j: int| 0 <= j < self.endpoints()[id].connections@.len() ==> !(#[trigger] self.endpoints()[id].connections@[j].interface_address == *address && self.endpoints()[id].connections@[j].interface_name@ == interface_name@),
            },
    {
        match self.endpoints.get(&id) {
            Some(endpoint) => endpoint.find_connection(address, interface_name),
            None => None,
        }
    }

    /// Adds a connection to endpoint `id`; nothing changes for an unknown id.
    pub fn add_connection_entry(&mut self, id: EndpointId, entry: ConnectionEntry)
        requires
            old(self).wf(),
        ensures
            final(self).wf(),
            final(self).keeps_settings_of(old(self)),
            final(self).session_history() == old(self).session_history(),
            final(self).route_table() == old(self).route_table(),
            !old(self).endpoints().contains_key(id) ==> final(self).endpoints() == old(self).endpoints(),
            old(self).endpoints().contains_key(id) ==> {
                let e0 = old(self).endpoints()[id];
                let e1 = final(self).endpoints()[id];
                &&& final(self).endpoints().contains_key(id)
                &&& final(self).endpoints().remove(id) == old(self).endpoints().remove(id)
                &&& e1.connections@ == e0.connections@.push(entry)
                &&& same_counters(e1, e0)
                &&& e1.packet_sorter == e0.packet_sorter
                &&& e1.hello_path_latency == e0.hello_path_latency
                &&& e1.hello_ack_path_latency == e0.hello_ack_path_latency
            },
    {
        let ghost m0 = self.endpoints();
        match self.endpoints.remove(&id) {
            Some(mut endpoint) => {
                endpoint.push_connection(entry);
                self.endpoints.insert(id, endpoint);
                proof {
                    assert(self.endpoints().remove(id) =~= m0.remove(id));
                    assert(self.route_table() == old(self).route_table());
                    lemma_put_endpoint(m0, self.endpoints(), old(self).route_table(), id);
                    assert forall|i: int| 0 <= i < self.route_table().len() implies self.endpoints().contains_key(#[trigger] self.route_table()[i].endpoint_id) by {
                        assert(old(self).route_table()[i] == self.route_table()[i]);
                    }
                }
            },
            None => {
                assert(self.endpoints() =~= m0);
                assert(self.route_table() == old(self).route_table());
            },
        }
    }

    /// Puts connection `index` of endpoint `id` in `state`; nothing changes
    /// for an unknown id or position.
    pub fn set_connection_state(&mut self, id: EndpointId, index: usize, state: ConnectionState)
        requires
            old(self).wf(),
        ensures
            final(self).wf(),
            final(self).keeps_settings_of(old(self)),
            final(self).session_history() == old(self).session_history(),
            final(self).route_table() == old(self).route_table(),
            !(old(self).endpoints().contains_key(id) && index < old(self).endpoints()[id].connections@.len()) ==> final(self).endpoints() == old(self).endpoints(),
            old(self).endpoints().contains_key(id) && index < old(self).endpoints()[id].connections@.len() ==> {
                let e0 = old(self).endpoints()[id];
                let e1 = final(self).endpoints()[id];
                &&& final(self).endpoints().contains_key(id)
                &&& final(self).endpoints().remove(id) == old(self).endpoints().remove(id)
                &&& e1.connections@ == e0.connections@.update(index as int, entry_with_state(e0.connections@[index as int], state))
                &&& same_counters(e1, e0)
                &&& e1.packet_sorter == e0.packet_sorter
                &&& e1.hello_path_latency == e0.hello_path_latency
                &&& e1.hello_ack_path_latency == e0.hello_ack_path_latency
            },
    {
        let ghost m0 = self.endpoints();
        match self.endpoints.remove(&id) {
            Some(mut endpoint) => {
                if index < endpoint.connections.len() {
                    endpoint.set_connection_state(index, state);
                }
                self.endpoints.insert(id, endpoint);
                proof {
                    assert(self.endpoints().remove(id) =~= m0.remove(id));
                    assert(self.route_table() == old(self).route_table());
                    lemma_put_endpoint(m0, self.endpoints(), old(self).route_table(), id);
                    assert forall|i: int| 0 <= i < self.route_table().len() implies self.endpoints().contains_key(#[trigger] self.route_table()[i].endpoint_id) by {
                        assert(old(self).route_table()[i] == self.route_table()[i]);
                    }
                    if !(index < m0[id].connections@.len()) {
                        assert(self.endpoints() =~= m0);
                    }
                }
            },
            None => {
                assert(self.endpoints() =~= m0);
                assert(self.route_table() == old(self).route_table());
            },
        }
    }

    /// Answers a greeting from endpoint `id`: the answer (numbered by the
    /// endpoint's answer counter, which advances) and the connections in
    /// `Startup` or `Connected` state it goes out on. `None` for an unknown
    /// id.
    pub fn acknowledge(&mut self, id: EndpointId) -> (r: Option<Delivery<HelloAck>>)
        requires
            old(self).wf(),
        ensures
            final(self).wf(),
            final(self).keeps_settings_of(old(self)),
            final(self).session_history() == old(self).session_history(),
            final(self).route_table() == old(self).route_table(),
            !old(self).endpoints().contains_key(id) ==> r is None && final(self).endpoints() == old(self).endpoints(),
            old(self).endpoints().contains_key(id) ==> {
                let e0 = old(self).endpoints()[id];
                let e1 = final(self).endpoints()[id];
                &&& r is Some
                &&& r.unwrap().message.id == old(self).spec_own_id()
                &&& r.unwrap().message.session_id == e0.session_id
                &&& same_routes(r.unwrap().message.static_routes, old(self).own_static_routes())
                &&& r.unwrap().message.hello_ack_seq == e0.hello_ack_counter
                &&& selects(r.unwrap().targets@, e0.connections@.len() as int, |i: int| is_live(e0.connections@[i]))
                &&& final(self).endpoints().contains_key(id)
                &&& final(self).endpoints().remove(id) == old(self).endpoints().remove(id)
                &&& e1.hello_ack_counter == (if e0.hello_ack_counter == u64::MAX { 0 } else { e0.hello_ack_counter + 1 })
                &&& e1.connections@ == e0.connections@
                &&& e1.id == e0.id
                &&& e1.session_id == e0.session_id
                &&& e1.tx_counter == e0.tx_counter
                &&& e1.hello_counter == e0.hello_counter
                &&& e1.packet_sorter == e0.packet_sorter
                &&& e1.hello_path_latency == e0.hello_path_latency
                &&& e1.hello_ack_path_latency == e0.hello_ack_path_latency
            },
    {
        let ghost m0 = self.endpoints();
        match self.endpoints.remove(&id) {
            Some(mut endpoint) => {
                let session_id = endpoint.session_id;
                let delivery = endpoint.acknowledge(self.own_id, session_id, &self.own_static_routes);
                self.endpoints.insert(id, endpoint);
                proof {
                    assert(self.endpoints().remove(id) =~= m0.remove(id));
                    assert(self.route_table() == old(self).route_table());
                    lemma_put_endpoint(m0, self.endpoints(), old(self).route_table(), id);
                    assert forall|i: int| 0 <= i < self.route_table().len() implies self.endpoints().contains_key(#[trigger] self.route_table()[i].endpoint_id) by {
                        assert(old(self).route_table()[i] == self.route_table()[i]);
                    }
                }
                Some(delivery)
            },
            None => {
                assert(self.endpoints() =~= m0);
                assert(self.route_table() == old(self).route_table());
                None
            },
        }
    }

    /// Prepares a greeting for a new connection to endpoint `id`: an unknown
    /// peer first gets an endpoint with a fresh random session id (which is
    /// not recorded as seen). The greeting carries this side's id, the
    /// endpoint's session id, the announced routes and the endpoint's
    /// greeting counter, which advances.
    pub fn prepare_hello(&mut self, id: EndpointId, now: u64) -> (r: Hello)
        requires
            old(self).wf(),
        ensures
            final(self).wf(),
            final(self).keeps_settings_of(old(self)),
            final(self).session_history() == old(self).session_history(),
            final(self).route_table() == old(self).route_table(),
            final(self).endpoints().contains_key(id),
            final(self).endpoints().remove(id) == old(self).endpoints().remove(id),
            r.id == old(self).spec_own_id(),
            same_routes(r.static_routes, old(self).own_static_routes()),
            ({
                let e1 = final(self).endpoints()[id];
                &&& r.session_id == e1.session_id
                &&& old(self).endpoints().contains_key(id) ==> {
                    let e0 = old(self).endpoints()[id];
                    &&& r.hello_seq == e0.hello_counter
                    &&& e1.hello_counter == (if e0.hello_counter == u64::MAX { 0 } else { e0.hello_counter + 1 })
                    &&& e1.connections@ == e0.connections@
                    &&& e1.id == e0.id
                    &&& e1.session_id == e0.session_id
                    &&& e1.tx_counter == e0.tx_counter
                    &&& e1.hello_ack_counter == e0.hello_ack_counter
                    &&& e1.packet_sorter == e0.packet_sorter
                    &&& e1.hello_path_latency == e0.hello_path_latency
                    &&& e1.hello_ack_path_latency == e0.hello_ack_path_latency
                }
                &&& !old(self).endpoints().contains_key(id) ==> {
                    &&& r.hello_seq == 0
                    &&& e1.hello_counter == 1
                    &&& e1.id == id
                    &&& e1.connections@.len() == 0
                    &&& e1.tx_counter == 0
                    &&& e1.hello_ack_counter == 0
                    &&& e1.packet_sorter.queue() == Map::<u64, QueuedPacket>::empty()
                    &&& e1.packet_sorter.spec_next_seq() == 0
                    &&& e1.packet_sorter.spec_deadline() == old(self).spec_packet_sorter_deadline() * 1000000
                    &&& e1.packet_sorter.timer() == timer_after(now, old(self).spec_packet_sorter_deadline() * 1000000, (old(self).spec_packet_sorter_deadline() * 1000000) as u128)
                    &&& e1.packet_sorter.active()
                    &&& e1.hello_path_latency@.len() == 0
                    &&& e1.hello_ack_path_latency@.len() == 0
                }
            }),
    {
        let ghost m0 = self.endpoints();
        let mut endpoint = match self.endpoints.remove(&id) {
            Some(endpoint) => endpoint,
            None => Endpoint::new(id, new_session_id(), self.packet_sorter_deadline, now),
        };
        let hello = Hello {
            id: self.own_id,
            session_id: endpoint.session_id,
            static_routes: clone_routes(&self.own_static_routes),
            hello_seq: endpoint.hello_counter,
        };
        endpoint.hello_counter = endpoint.hello_counter.wrapping_add(1);
        self.endpoints.insert(id, endpoint);
        proof {
            assert(self.endpoints().remove(id) =~= m0.remove(id));
            assert forall|k: EndpointId| #[trigger] self.endpoints().contains_key(k) implies {
                &&& self.endpoints()[k].wf()
                &&& self.endpoints()[k].id == k
            } by {
                if k != id {
                    assert(m0.contains_key(k));
                }
            }
            assert(self.route_table() == old(self).route_table());
            assert forall|i: int| 0 <= i < self.route_table().len() implies self.endpoints().contains_key(#[trigger] self.route_table()[i].endpoint_id) by {
                assert(old(self).route_table()[i] == self.route_table()[i]);
                assert(m0.contains_key(old(self).route_table()[i].endpoint_id));
            }
        }
        hello
    }

    /// Opens a connection to endpoint `destination_endpoint_id` on the
    /// interface `interface_name`: the greeting to send on it (as
    /// `prepare_hello` makes it, so an unknown peer first gets an endpoint
    /// with a fresh session id) and the connection, in `Startup` state,
    /// added to the endpoint. The program opens the socket first and sends
    /// the greeting.
    pub fn create_new_connection(
        &mut self,
        interface_name: String,
        local_address: SocketAddress,
        destination_address: SocketAddress,
        destination_endpoint_id: EndpointId,
        now: u64,
    ) -> (r: Hello)
        requires
            old(self).wf(),
        ensures
            final(self).wf(),
            final(self).keeps_settings_of(old(self)),
            final(self).session_history() == old(self).session_history(),
            final(self).route_table() == old(self).route_table(),
            final(self).endpoints().contains_key(destination_endpoint_id),
            final(self).endpoints().remove(destination_endpoint_id) == old(self).endpoints().remove(destination_endpoint_id),
            r.id == old(self).spec_own_id(),
            same_routes(r.static_routes, old(self).own_static_routes()),
            ({
                let e1 = final(self).endpoints()[destination_endpoint_id];
                let entry = opened_connection(interface_name, local_address, destination_address);
                &&& r.session_id == e1.session_id
                &&& old(self).endpoints().contains_key(destination_endpoint_id) ==> {
                    let e0 = old(self).endpoints()[destination_endpoint_id];
                    &&& r.hello_seq == e0.hello_counter
                    &&& e1.hello_counter == (if e0.hello_counter == u64::MAX { 0 } else { e0.hello_counter + 1 })
                    &&& e1.connections@ == e0.connections@.push(entry)
                    &&& e1.id == e0.id
                    &&& e1.session_id == e0.session_id
                    &&& e1.tx_counter == e0.tx_counter
                    &&& e1.hello_ack_counter == e0.hello_ack_counter
                    &&& e1.packet_sorter == e0.packet_sorter
                    &&& e1.hello_path_latency == e0.hello_path_latency
                    &&& e1.hello_ack_path_latency == e0.hello_ack_path_latency
                }
                &&& !old(self).endpoints().contains_key(destination_endpoint_id) ==> {
                    &&& r.hello_seq == 0
                    &&& e1.hello_counter == 1
                    &&& e1.id == destination_endpoint_id
                    &&& e1.connections@ == seq![entry]
                    &&& e1.tx_counter == 0
                    &&& e1.hello_ack_counter == 0
                    &&& e1.packet_sorter.queue() == Map::<u64, QueuedPacket>::empty()
                    &&& e1.packet_sorter.spec_next_seq() == 0
                    &&& e1.packet_sorter.spec_deadline() == old(self).spec_packet_sorter_deadline() * 1000000
                    &&& e1.packet_sorter.timer() == timer_after(now, old(self).spec_packet_sorter_deadline() * 1000000, (old(self).spec_packet_sorter_deadline() * 1000000) as u128)
                    &&& e1.packet_sorter.active()
                    &&& e1.hello_path_latency@.len() == 0
                    &&& e1.hello_ack_path_latency@.len() == 0
                }
            }),
    {
        let hello = self.prepare_hello(destination_endpoint_id, now);
        let ghost mid = self.endpoints();
        let connection = Connection::new(Some(interface_name.clone()), local_address, destination_address);
        let entry = ConnectionEntry { interface_name, interface_address: destination_address, connection };
        assert(entry == opened_connection(entry.interface_name, local_address, destination_address));
        self.add_connection_entry(destination_endpoint_id, entry);
        proof {
            assert(self.endpoints().remove(destination_endpoint_id) =~= old(self).endpoints().remove(destination_endpoint_id));
            if !old(self).endpoints().contains_key(destination_endpoint_id) {
                assert(mid[destination_endpoint_id].connections@.push(entry) =~= seq![entry]);
            }
        }
        hello
    }

    /// Gives up on the missing packets of endpoint `id` (its deadline timer
    /// fired); returns the packets then handed out, in order. Nothing
    /// changes for an unknown id.
    pub fn handle_packet_sorter_deadline(&mut self, id: EndpointId, now: u64) -> (r: Vec<Packet>)
        requires
            old(self).wf(),
        ensures
            final(self).wf(),
            final(self).keeps_settings_of(old(self)),
            final(self).session_history() == old(self).session_history(),
            final(self).route_table() == old(self).route_table(),
            !old(self).endpoints().contains_key(id) ==> r@.len() == 0 && final(self).endpoints() == old(self).endpoints(),
            old(self).endpoints().contains_key(id) ==> {
                let e0 = old(self).endpoints()[id];
                let e1 = final(self).endpoints()[id];
                &&& final(self).endpoints().contains_key(id)
                &&& final(self).endpoints().remove(id) == old(self).endpoints().remove(id)
                &&& spec_advanced(e0.packet_sorter, e1.packet_sorter, now, r@)
                &&& e1.connections@ == e0.connections@
                &&& same_counters(e1, e0)
                &&& e1.hello_path_latency == e0.hello_path_latency
                &&& e1.hello_ack_path_latency == e0.hello_ack_path_latency
            },
    {
        let ghost m0 = self.endpoints();
        match self.endpoints.remove(&id) {
            Some(mut endpoint) => {
                assert(m0.contains_key(id));
                let out = endpoint.packet_sorter.advance_queue(now);
                self.endpoints.insert(id, endpoint);
                proof {
                    assert(self.endpoints().remove(id) =~= m0.remove(id));
                    assert(self.route_table() == old(self).route_table());
                    lemma_put_endpoint(m0, self.endpoints(), old(self).route_table(), id);
                    assert forall|i: int| 0 <= i < self.route_table().len() implies self.endpoints().contains_key(#[trigger] self.route_table()[i].endpoint_id) by {
                        assert(old(self).route_table()[i] == self.route_table()[i]);
                    }
                }
                out
            },
            None => {
                assert(self.endpoints() =~= m0);
                assert(self.route_table() == old(self).route_table());
                Vec::new()
            },
        }
    }

    /// The deadline timer of endpoint `id`'s sorter, if the endpoint exists.
    pub fn sorter_timer(&self, id: EndpointId) -> (r: Option<DeadlineTimer>)
        ensures
            match r {
                Some(t) => self.endpoints().contains_key(id) && t == self.endpoints()[id].packet_sorter.timer(),
                None => !self.endpoints().contains_key(id),
            },
    {
        match self.endpoints.get(&id) {
            Some(endpoint) => Some(endpoint.packet_sorter.deadline_timer()),
            None => None,
        }
    }

    /// Takes in a message that arrived on an established connection of
    /// endpoint `endpoint_id`, from `source` on the interface
    /// `interface_name`. A tunnelled packet goes to that endpoint's sorter. A
    /// greeting from a known peer records when it arrived (the program then
    /// adds the connection and answers). An answer from a known peer records
    /// when it arrived, learns the routes it announces and confirms the
    /// matching connections. Messages about unknown peers are ignored.
    pub fn handle_established_message(
        &mut self,
        endpoint_id: EndpointId,
        message: Messages,
        source: SocketAddress,
        interface_name: &String,
        now: u64,
    ) -> (r: EstablishedOutcome)
        requires
            old(self).wf(),
            message matches Messages::Packet(p) ==> p.seq < u64::MAX,
        ensures
            final(self).wf(),
            final(self).keeps_settings_of(old(self)),
            final(self).session_history() == old(self).session_history(),
            match message {
                Messages::Packet(p) => {
                    &&& final(self).route_table() == old(self).route_table()
                    &&& !old(self).endpoints().contains_key(endpoint_id) ==> r is Ignored && final(self).endpoints() == old(self).endpoints()
                    &&& old(self).endpoints().contains_key(endpoint_id) ==> {
                        let e0 = old(self).endpoints()[endpoint_id];
                        let e1 = final(self).endpoints()[endpoint_id];
                        &&& r matches EstablishedOutcome::Sorted(out) && spec_inserted(e0.packet_sorter, e1.packet_sorter, p, now, out@)
                        &&& final(self).endpoints().contains_key(endpoint_id)
                        &&& final(self).endpoints().remove(endpoint_id) == old(self).endpoints().remove(endpoint_id)
                        &&& e1.connections@ == e0.connections@
                        &&& same_counters(e1, e0)
                        &&& e1.hello_path_latency == e0.hello_path_latency
                        &&& e1.hello_ack_path_latency == e0.hello_ack_path_latency
                    }
                },
                Messages::Hello(h) => {
                    &&& final(self).route_table() == old(self).route_table()
                    &&& !old(self).endpoints().contains_key(h.id) ==> r is Ignored && final(self).endpoints() == old(self).endpoints()
                    &&& old(self).endpoints().contains_key(h.id) ==> {
                        let e0 = old(self).endpoints()[h.id];
                        let e1 = final(self).endpoints()[h.id];
                        &&& r == EstablishedOutcome::Greeted(h.id)
                        &&& final(self).endpoints().contains_key(h.id)
                        &&& final(self).endpoints().remove(h.id) == old(self).endpoints().remove(h.id)
                        &&& exists|t: u64| e1.hello_path_latency@ == spec_insert_timestamp(e0.hello_path_latency@, h.hello_seq, t)
                        &&& e1.connections@ == e0.connections@
                        &&& same_counters(e1, e0)
                        &&& e1.packet_sorter == e0.packet_sorter
                        &&& e1.hello_ack_path_latency == e0.hello_ack_path_latency
                    }
                },
                Messages::HelloAck(a) => {
                    &&& !old(self).endpoints().contains_key(a.id) ==> {
                        &&& r is Ignored
                        &&& final(self).endpoints() == old(self).endpoints()
                        &&& final(self).route_table() == old(self).route_table()
                    }
                    &&& old(self).endpoints().contains_key(a.id) ==> {
                        let e0 = old(self).endpoints()[a.id];
                        let e1 = final(self).endpoints()[a.id];
                        &&& r matches EstablishedOutcome::Acknowledged(id, restarted) && id == a.id
                            && selects(restarted@, e0.connections@.len() as int, |i: int| e1.connections@[i].interface_address == source && e1.connections@[i].interface_name@ == interface_name@ && e1.connections@[i].connection.state == ConnectionState::Connected)
                        &&& final(self).endpoints().contains_key(a.id)
                        &&& final(self).endpoints().remove(a.id) == old(self).endpoints().remove(a.id)
                        &&& exists|t: u64| e1.hello_ack_path_latency@ == spec_insert_timestamp(e0.hello_ack_path_latency@, a.hello_ack_seq, t)
                        &&& e1.connections@.len() == e0.connections@.len()
                        &&& forall|i: int| 0 <= i < e0.connections@.len() ==> #[trigger] e1.connections@[i] == acked_entry(e0.connections@[i], source, interface_name@)
                        &&& same_counters(e1, e0)
                        &&& e1.packet_sorter == e0.packet_sorter
                        &&& e1.hello_path_latency == e0.hello_path_latency
                        &&& final(self).route_table() == spec_learn_routes(old(self).route_table(), route_list(a.static_routes), a.id)
                    }
                },
            },
    {
        let ghost m0 = self.endpoints();
        match message {
            Messages::Packet(packet) => {
                match self.endpoints.remove(&endpoint_id) {
                    Some(mut endpoint) => {
                        let out = endpoint.packet_sorter.insert_packet(packet, now);
                        self.endpoints.insert(endpoint_id, endpoint);
                        proof {
                            assert(self.endpoints().remove(endpoint_id) =~= m0.remove(endpoint_id));
                            assert(self.route_table() == old(self).route_table());
                            lemma_put_endpoint(m0, self.endpoints(), old(self).route_table(), endpoint_id);
                        }
                        EstablishedOutcome::Sorted(out)
                    },
                    None => {
                        assert(self.endpoints() =~= m0);
                        assert(self.route_table() == old(self).route_table());
                        EstablishedOutcome::Ignored
                    },
                }
            },
            Messages::Hello(hello) => {
                match self.endpoints.remove(&hello.id) {
                    Some(mut endpoint) => {
                        endpoint.hello_path_latency.insert_new_timestamp(hello.hello_seq);
                        self.endpoints.insert(hello.id, endpoint);
                        proof {
                            assert(self.endpoints().remove(hello.id) =~= m0.remove(hello.id));
                            assert(self.route_table() == old(self).route_table());
                            lemma_put_endpoint(m0, self.endpoints(), old(self).route_table(), hello.id);
                        }
                        EstablishedOutcome::Greeted(hello.id)
                    },
                    None => {
                        assert(self.endpoints() =~= m0);
                        assert(self.route_table() == old(self).route_table());
                        EstablishedOutcome::Ignored
                    },
                }
            },
            Messages::HelloAck(hello_ack) => {
                match self.endpoints.remove(&hello_ack.id) {
                    Some(mut endpoint) => {
                        endpoint.hello_ack_path_latency.insert_new_timestamp(hello_ack.hello_ack_seq);
                        let restarted = endpoint.confirm_connections(&source, interface_name);
                        self.endpoints.insert(hello_ack.id, endpoint);
                        proof {
                            assert(self.endpoints().remove(hello_ack.id) =~= m0.remove(hello_ack.id));
                            assert(self.route_table() == old(self).route_table());
                            lemma_put_endpoint(m0, self.endpoints(), old(self).route_table(), hello_ack.id);
                        }
                        self.learn_routes(hello_ack.id, &hello_ack.static_routes);
                        EstablishedOutcome::Acknowledged(hello_ack.id, restarted)
                    },
                    None => {
                        assert(self.endpoints() =~= m0);
                        assert(self.route_table() == old(self).route_table());
                        EstablishedOutcome::Ignored
                    },
                }
            },
        }
    }

    /// The endpoints a packet headed for `destination` is routed to: for an
    /// IPv4 destination, those whose routes reach it; `None` for any other.
    pub fn route_to(&self, destination: IpDestination) -> (r: Option<Vec<EndpointId>>)
        ensures
            match destination {
                IpDestination::V4(address) => r matches Some(ids) && ids@ == spec_lookup(self.route_table(), address),
                _ => r is None,
            },
    {
        match destination {
            IpDestination::V4(address) => Some(self.routes.lookup(&address)),
            _ => None,
        }
    }

    /// The endpoints an IP packet from the tunnel is routed to: for an IPv4
    /// packet, those whose routes reach its destination; `None` for anything
    /// else.
    pub fn get_route(&self, packet_bytes: &[u8]) -> (r: Option<Vec<EndpointId>>)
        ensures
            match spec_ip_destination(packet_bytes@) {
                IpDestination::V4(address) => r matches Some(ids) && ids@ == spec_lookup(self.route_table(), address),
                _ => r is None,
            },
    {
        self.route_to(ip_destination(packet_bytes))
    }

    /// Sends `packet`, an IP packet from the tunnel headed for
    /// `destination`: for each endpoint an IPv4 destination is routed to (in
    /// lookup order), the packet wrapped with that endpoint's send counter
    /// (which advances) and the endpoint's enabled connections. Any other
    /// destination goes nowhere.
    pub fn forward_packet(&mut self, destination: IpDestination, packet: &[u8]) -> (r: Vec<Outgoing>)
        requires
            old(self).wf(),
        ensures
            final(self).wf(),
            final(self).keeps_settings_of(old(self)),
            final(self).session_history() == old(self).session_history(),
            final(self).route_table() == old(self).route_table(),
            match destination {
                IpDestination::V4(address) => {
                    let ids = spec_lookup(old(self).route_table(), address);
                    &&& r@.len() == ids.len()
                    &&& forall|i: int| 0 <= i < r@.len() ==> {
                        let e0 = old(self).endpoints()[ids[i]];
                        &&& #[trigger] r@[i].endpoint_id == ids[i]
                        &&& r@[i].packet.seq == e0.tx_counter
                        &&& r@[i].packet.id == e0.id
                        &&& r@[i].packet.bytes@ == packet@
                        &&& selects(r@[i].targets@, e0.connections@.len() as int, |k: int| e0.connections@[k].connection.enabled)
                    }
                    &&& final(self).endpoints().dom() == old(self).endpoints().dom()
                    &&& forall|k: EndpointId| #[trigger] old(self).endpoints().contains_key(k) ==> tx_advanced(final(self).endpoints()[k], old(self).endpoints()[k], ids.contains(k))
                },
                _ => r@.len() == 0 && final(self).endpoints() == old(self).endpoints(),
            },
    {
        let ghost m0 = self.endpoints();
        let ghost table = self.route_table();
        match self.route_to(destination) {
            Some(ids) => {
                let ghost address = match destination {
                    IpDestination::V4(a) => a,
                    _ => arbitrary(),
                };
                proof {
                    lemma_lookup_answers(table, address);
                }
                let mut out: Vec<Outgoing> = Vec::new();
                let mut i: usize = 0;
                while i < ids.len()
                    invariant
                        i <= ids@.len(),
                        ids@ == spec_lookup(table, address),
                        ids@.no_duplicates(),
                        forall|e: u16| ids@.contains(e) ==> exists|j: int| 0 <= j < table.len() && #[trigger] table[j].endpoint_id == e,
                        table == old(self).route_table(),
                        self.route_table() == table,
                        self.session_history() == old(self).session_history(),
                        self.keeps_settings_of(old(self)),
                        self.wf(),
                        old(self).wf(),
                        m0 == old(self).endpoints(),
                        self.endpoints().dom() == m0.dom(),
                        forall|k: EndpointId| #[trigger] m0.contains_key(k) ==> tx_advanced(self.endpoints()[k], m0[k], ids@.take(i as int).contains(k)),
                        out@.len() == i,
                        forall|j: int| 0 <= j < out@.len() ==> {
                            let e0 = m0[ids@[j]];
                            &&& #[trigger] out@[j].endpoint_id == ids@[j]
                            &&& out@[j].packet.seq == e0.tx_counter
                            &&& out@[j].packet.id == e0.id
                            &&& out@[j].packet.bytes@ == packet@
                            &&& selects(out@[j].targets@, e0.connections@.len() as int, |k: int| e0.connections@[k].connection.enabled)
                        },
                    decreases ids@.len() - i,
                {
                    let id = ids[i];
                    let ghost before = self.endpoints();
                    proof {
                        assert(ids@.contains(id));
                        let j = choose|j: int| 0 <= j < table.len() && #[trigger] table[j].endpoint_id == id;
                        assert(self.endpoints().contains_key(table[j].endpoint_id));
                        assert(m0.contains_key(id));
                        assert(!ids@.take(i as int).contains(id)) by {
                            if ids@.take(i as int).contains(id) {
                                let t0 = ids@.take(i as int);
                        let q = choose|q: int| 0 <= q < t0.len() && t0[q] == id;
                                assert(ids@[q] == ids@[i as int]);
                            }
                        }
                        assert(before[id] == m0[id] || tx_advanced(before[id], m0[id], false));
                    }
                    match self.endpoints.remove(&id) {
                        Some(mut endpoint) => {
                            let pkt = Packet { seq: endpoint.tx_counter, id: endpoint.id, bytes: vstd::slice::slice_to_vec(packet) };
                            endpoint.tx_counter = endpoint.tx_counter.wrapping_add(1);
                            let targets = endpoint.enabled_connections();
                            self.endpoints.insert(id, endpoint);
                            proof {
                                assert(self.endpoints().remove(id) =~= before.remove(id));
                                assert(self.route_table() == table);
                                lemma_put_endpoint(before, self.endpoints(), table, id);
                                assert(self.endpoints().dom() =~= m0.dom());
                                assert forall|k: EndpointId| #[trigger] m0.contains_key(k) implies tx_advanced(self.endpoints()[k], m0[k], ids@.take(i as int + 1).contains(k)) by {
                                    assert(ids@.take(i as int + 1) =~= ids@.take(i as int).push(id));
                                    if k == id {
                                        assert(ids@.take(i as int + 1)[i as int] == id);
                                        assert(ids@.take(i as int + 1).contains(id));
                                        assert(tx_advanced(before[id], m0[id], false));
                                    }
                                    if k != id {
                                        assert(self.endpoints()[k] == before[k]);
                                        assert(tx_advanced(before[k], m0[k], ids@.take(i as int).contains(k)));
                                    }
                                }
                            }
                            out.push(Outgoing { endpoint_id: id, packet: pkt, targets });
                        },
                        None => {
                            proof {
                                assert(false);
                            }
                        },
                    }
                    i = i + 1;
                }
                proof {
                    assert(ids@.take(ids@.len() as int) =~= ids@);
                }
                out
            },
            None => {
                Vec::new()
            },
        }
    }

    /// Sends an IP packet that came from the tunnel: for each endpoint it is
    /// routed to (in lookup order), the packet wrapped with that endpoint's
    /// send counter (which advances) and the endpoint's enabled connections.
    /// A packet that is not IPv4 goes nowhere.
    pub fn handle_packet_from_tun(&mut self, packet: &[u8]) -> (r: Vec<Outgoing>)
        requires
            old(self).wf(),
        ensures
            final(self).wf(),
            final(self).keeps_settings_of(old(self)),
            final(self).session_history() == old(self).session_history(),
            final(self).route_table() == old(self).route_table(),
            match spec_ip_destination(packet@) {
                IpDestination::V4(address) => {
                    let ids = spec_lookup(old(self).route_table(), address);
                    &&& r@.len() == ids.len()
                    &&& forall|i: int| 0 <= i < r@.len() ==> {
                        let e0 = old(self).endpoints()[ids[i]];
                        &&& #[trigger] r@[i].endpoint_id == ids[i]
                        &&& r@[i].packet.seq == e0.tx_counter
                        &&& r@[i].packet.id == e0.id
                        &&& r@[i].packet.bytes@ == packet@
                        &&& selects(r@[i].targets@, e0.connections@.len() as int, |k: int| e0.connections@[k].connection.enabled)
                    }
                    &&& final(self).endpoints().dom() == old(self).endpoints().dom()
                    &&& forall|k: EndpointId| #[trigger] old(self).endpoints().contains_key(k) ==> tx_advanced(final(self).endpoints()[k], old(self).endpoints()[k], ids.contains(k))
                },
                _ => r@.len() == 0 && final(self).endpoints() == old(self).endpoints(),
            },
    {
        let destination = ip_destination(packet);
        self.forward_packet(destination, packet)
    }

    /// The ids of all endpoints, each once.
    pub fn endpoint_ids(&self) -> (r: Vec<EndpointId>)
        ensures
            r@.to_set() == self.endpoints().dom(),
            r@.no_duplicates(),
    {
        let mut r: Vec<EndpointId> = Vec::new();
        let ghost ks = vstd::std_specs::hash::spec_keys_iter(&self.endpoints).remaining();
        for k in it: self.endpoints.keys()
            invariant
                it.seq() == ks,
                r@ == ks.take(it.index() as int).map_values(|x: &EndpointId| *x),
        {
            r.push(*k);
            assert(ks.take(it.index() as int + 1).map_values(|x: &EndpointId| *x) =~= r@);
        }
        proof {
            assert(ks.take(ks.len() as int) =~= ks);
            vstd::std_specs::hash::axiom_spec_keys_iter(&self.endpoints);
            assert(r@ =~= ks.unref());
            assert forall|a: int, b: int| 0 <= a < r@.len() && 0 <= b < r@.len() && a != b implies r@[a] != r@[b] by {
                assert(ks[a] != ks[b]);
            }
        }
        r
    }

    /// Removes the connection of endpoint `id` to `address` on the
    /// interface `interface_name`, then every endpoint left without
    /// connections, together with the routes that lead to it.
    pub fn remove_connection(&mut self, id: EndpointId, interface_name: &String, address: SocketAddress)
        requires
            old(self).wf(),
        ensures
            final(self).wf(),
            final(self).keeps_settings_of(old(self)),
            final(self).session_history() == old(self).session_history(),
            exists|m1: Map<EndpointId, Endpoint>| {
                &&& removed_connection(old(self).endpoints(), m1, id, interface_name@, address)
                &&& final(self).endpoints() == m1.remove_keys(idle_endpoints(m1))
                &&& final(self).route_table() == spec_without_endpoints(old(self).route_table(), idle_endpoints(m1))
            },
    {
        let ghost m0 = self.endpoints();
        match self.endpoints.remove(&id) {
            Some(mut endpoint) => {
                match endpoint.find_connection(&address, interface_name) {
                    Some(index) => {
                        endpoint.connections.remove(index);
                    },
                    None => {},
                }
                self.endpoints.insert(id, endpoint);
                proof {
                    assert(self.endpoints().remove(id) =~= m0.remove(id));
                    if !(exists|i: int| is_first_connection(m0[id].connections@, address, interface_name@, i)) {
                        assert(self.endpoints() =~= m0);
                    } else {
                        let i = choose|i: int| is_first_connection(m0[id].connections@, address, interface_name@, i);
                        let c = m0[id].connections@;
                        assert forall|j: int| is_first_connection(c, address, interface_name@, j) implies j == i by {
                            if j < i {
                                assert(!(c[j].interface_address == address && c[j].interface_name@ == interface_name@));
                            }
                            if i < j {
                                assert(!(c[i].interface_address == address && c[i].interface_name@ == interface_name@));
                            }
                        }
                    }
                }
            },
            None => {
                assert(self.endpoints() =~= m0);
            },
        }
        let ghost m1 = self.endpoints();
        assert(removed_connection(m0, m1, id, interface_name@, address));
        let ghost table = old(self).route_table();
        assert(self.route_table() == table);
        let keys = self.endpoint_ids();
        let mut to_be_removed: Vec<EndpointId> = Vec::new();
        let mut i: usize = 0;
        while i < keys.len()
            invariant
                i <= keys@.len(),
                keys@.to_set() == m1.dom(),
                keys@.no_duplicates(),
                self.endpoints() == m1,
                to_be_removed@.no_duplicates(),
                forall|x: EndpointId| #[trigger] to_be_removed@.contains(x) <==> (keys@.take(i as int).contains(x) && idle_endpoints(m1).contains(x)),
            decreases keys@.len() - i,
        {
            let k = keys[i];
            assert(keys@.to_set().contains(k));
            let idle = match self.endpoints.get(&k) {
                Some(endpoint) => !endpoint.has_connections(),
                None => false,
            };
            let ghost before = to_be_removed@;
            assert(idle == idle_endpoints(m1).contains(k));
            if idle {
                to_be_removed.push(k);
            }
            proof {
                assert(keys@.take(i as int + 1) =~= keys@.take(i as int).push(k));
                assert(!keys@.take(i as int).contains(k)) by {
                    if keys@.take(i as int).contains(k) {
                        let q = choose|q: int| 0 <= q < i && keys@.take(i as int)[q] == k;
                        assert(keys@[q] == keys@[i as int]);
                    }
                }
                assert forall|x: EndpointId| #[trigger] to_be_removed@.contains(x) <==> (keys@.take(i as int + 1).contains(x) && idle_endpoints(m1).contains(x)) by {
                    let t0 = keys@.take(i as int);
                    let t1 = keys@.take(i as int + 1);
                    if to_be_removed@.contains(x) {
                        if idle && x == k {
                            assert(t1[i as int] == k);
                        } else {
                            let q = choose|q: int| 0 <= q < to_be_removed@.len() && to_be_removed@[q] == x;
                            if idle {
                                assert(q < before.len());
                            }
                            assert(before[q] == x);
                            assert(before.contains(x));
                            assert(t0.contains(x));
                            let w = choose|w: int| 0 <= w < t0.len() && t0[w] == x;
                            assert(t1[w] == x);
                        }
                    }
                    if t1.contains(x) && idle_endpoints(m1).contains(x) {
                        if x == k {
                            assert(to_be_removed@[to_be_removed@.len() - 1] == k);
                        } else {
                            let q = choose|q: int| 0 <= q < t1.len() && t1[q] == x;
                            assert(q < i);
                            assert(t0[q] == x);
                            assert(t0.contains(x));
                            assert(before.contains(x));
                            let w = choose|w: int| 0 <= w < before.len() && before[w] == x;
                            assert(to_be_removed@[w] == x);
                        }
                    }
                }
                if idle {
                    assert(!before.contains(k));
                    assert forall|a: int, b: int| 0 <= a < to_be_removed@.len() && 0 <= b < to_be_removed@.len() && a != b implies to_be_removed@[a] != to_be_removed@[b] by {
                        if a < before.len() {
                            assert(to_be_removed@[a] == before[a]);
                        }
                        if b < before.len() {
                            assert(to_be_removed@[b] == before[b]);
                        }
                        if a == before.len() {
                            assert(before.contains(to_be_removed@[b]));
                        } else if b == before.len() {
                            assert(before.contains(to_be_removed@[a]));
                        }
                    }
                }
            }
            i = i + 1;
        }
        assert(keys@.take(keys@.len() as int) =~= keys@);
        let ghost gone = idle_endpoints(m1);
        assert(to_be_removed@.to_set() =~= gone) by {
            assert forall|x: EndpointId| gone.contains(x) implies to_be_removed@.to_set().contains(x) by {
                assert(m1.dom().contains(x));
                assert(keys@.to_set().contains(x));
            }
        }
        let mut j: usize = 0;
        assert(m1.remove_keys(to_be_removed@.take(0).to_set()) =~= m1);
        assert(to_be_removed@.take(0).to_set() =~= Set::<EndpointId>::empty());
        assert(spec_without_endpoints(table, to_be_removed@.take(0).to_set()) =~= table) by {
            lemma_without_nothing(table);
        }
        while j < to_be_removed.len()
            invariant
                j <= to_be_removed@.len(),
                to_be_removed@.no_duplicates(),
                to_be_removed@.to_set() == gone,
                self.endpoints() == m1.remove_keys(to_be_removed@.take(j as int).to_set()),
                self.route_table() == spec_without_endpoints(table, to_be_removed@.take(j as int).to_set()),
                self.keeps_settings_of(old(self)),
                self.session_history() == old(self).session_history(),
            decreases to_be_removed@.len() - j,
        {
            let k = to_be_removed[j];
            self.endpoints.remove(&k);
            self.routes.remove_route_to_endpoint(k);
            proof {
                let before = to_be_removed@.take(j as int).to_set();
                assert(to_be_removed@.take(j as int + 1).to_set() =~= before.insert(k)) by {
                    let t0 = to_be_removed@.take(j as int);
                    let t1 = to_be_removed@.take(j as int + 1);
                    assert(t1 =~= t0.push(k));
                    assert forall|x: EndpointId| t1.to_set().contains(x) <==> before.insert(k).contains(x) by {
                        if t1.contains(x) {
                            let q = choose|q: int| 0 <= q < t1.len() && t1[q] == x;
                            if q < j {
                                assert(t0[q] == x);
                                assert(t0.contains(x));
                            }
                        }
                        if t0.contains(x) {
                            let q = choose|q: int| 0 <= q < t0.len() && t0[q] == x;
                            assert(t1[q] == x);
                        }
                        if x == k {
                            assert(t1[j as int] == x);
                        }
                    }
                }
                assert(self.endpoints() =~= m1.remove_keys(before.insert(k)));
                lemma_without_one_more(table, before, k);
            }
            j = j + 1;
        }
        proof {
            assert(to_be_removed@.take(to_be_removed@.len() as int) =~= to_be_removed@);
            lemma_without_endpoints_entries(table, gone);
            assert forall|k: EndpointId| #[trigger] self.endpoints().contains_key(k) implies {
                &&& self.endpoints()[k].wf()
                &&& self.endpoints()[k].id == k
            } by {
                assert(m1.contains_key(k));
                if k != id {
                    assert(m0.contains_key(k));
                }
            }
            assert forall|q: int| 0 <= q < self.route_table().len() implies self.endpoints().contains_key(#[trigger] self.route_table()[q].endpoint_id) by {
                let x = self.route_table()[q];
                assert(table.contains(x));
                let w = choose|w: int| 0 <= w < table.len() && table[w] == x;
                assert(m0.contains_key(table[w].endpoint_id));
                assert(m1.contains_key(x.endpoint_id)) by {
                    if x.endpoint_id != id {
                        assert(m0.remove(id).contains_key(x.endpoint_id));
                    }
                }
            }
        }
    }

    /// Removes every connection in `Disconnected` state (one
    /// `remove_connection` per such connection, endpoint after endpoint in
    /// the order the endpoint table yields them).
    pub fn remove_disconnected(&mut self)
        requires
            old(self).wf(),
        ensures
            final(self).wf(),
            final(self).keeps_settings_of(old(self)),
            final(self).session_history() == old(self).session_history(),
            exists|ids: Seq<EndpointId>, trace: Seq<(Map<EndpointId, Endpoint>, Seq<AddressEndpointMapping>)>|
                #![trigger all_disconnected(old(self).endpoints(), ids), trace.last()]
            {
                let list = all_disconnected(old(self).endpoints(), ids);
                &&& ids.no_duplicates()
                &&& ids.to_set() == old(self).endpoints().dom()
                &&& trace.len() == list.len() + 1
                &&& trace[0] == (old(self).endpoints(), old(self).route_table())
                &&& trace.last() == (final(self).endpoints(), final(self).route_table())
                &&& forall|i: int| 0 <= i < list.len() ==> removal_step(#[trigger] trace[i], trace[i + 1], list[i])
            },
            forall|id: EndpointId, c: ConnectionEntry|
                old(self).endpoints().contains_key(id) && distinct_connections(old(self).endpoints()[id].connections@)
                    && #[trigger] old(self).endpoints()[id].connections@.contains(c) && c.connection.state != ConnectionState::Disconnected
                ==> final(self).endpoints().contains_key(id) && final(self).endpoints()[id].connections@.contains(c),
    {
        let ghost m0 = self.endpoints();
        let ids = self.endpoint_ids();
        let mut to_be_removed: Vec<(EndpointId, String, SocketAddress)> = Vec::new();
        let mut i: usize = 0;
        while i < ids.len()
            invariant
                i <= ids@.len(),
                ids@.to_set() == m0.dom(),
                self.endpoints() == m0,
                to_be_removed@.map_values(|t: (EndpointId, String, SocketAddress)| (t.0, t.1@, t.2)) == all_disconnected(m0, ids@.take(i as int)),
            decreases ids@.len() - i,
        {
            let id = ids[i];
            assert(ids@.to_set().contains(id));
            assert(ids@.take(i as int + 1).drop_last() =~= ids@.take(i as int));
            match self.endpoints.get(&id) {
                Some(endpoint) => {
                    let ghost base = to_be_removed@.map_values(|t: (EndpointId, String, SocketAddress)| (t.0, t.1@, t.2));
                    let mut j: usize = 0;
                    while j < endpoint.connections.len()
                        invariant
                            j <= endpoint.connections@.len(),
                            *endpoint == m0[id],
                            to_be_removed@.map_values(|t: (EndpointId, String, SocketAddress)| (t.0, t.1@, t.2)) == base + disconnected_of(id, endpoint.connections@.take(j as int)),
                        decreases endpoint.connections@.len() - j,
                    {
                        let entry = &endpoint.connections[j];
                        assert(endpoint.connections@.take(j as int + 1).drop_last() =~= endpoint.connections@.take(j as int));
                        let ghost tb = to_be_removed@;
                        assert(endpoint.connections@.take(j as int + 1).last() == *entry);
                        if entry.connection.state == ConnectionState::Disconnected {
                            let name = entry.interface_name.clone();
                            to_be_removed.push((id, name, entry.interface_address));
                            assert(to_be_removed@.map_values(|t: (EndpointId, String, SocketAddress)| (t.0, t.1@, t.2)) =~= tb.map_values(|t: (EndpointId, String, SocketAddress)| (t.0, t.1@, t.2)).push((id, entry.interface_name@, entry.interface_address)));
                        }
                        assert(to_be_removed@.map_values(|t: (EndpointId, String, SocketAddress)| (t.0, t.1@, t.2)) =~= base + disconnected_of(id, endpoint.connections@.take(j as int + 1)));
                        j = j + 1;
                    }
                    assert(endpoint.connections@.take(endpoint.connections@.len() as int) =~= endpoint.connections@);
                },
                None => {
                    assert(false);
                },
            }
            i = i + 1;
        }
        assert(ids@.take(ids@.len() as int) =~= ids@);
        let ghost list = all_disconnected(m0, ids@);
        assert(to_be_removed@.map_values(|t: (EndpointId, String, SocketAddress)| (t.0, t.1@, t.2)) == list);
        let ghost mut trace: Seq<(Map<EndpointId, Endpoint>, Seq<AddressEndpointMapping>)> = seq![(m0, old(self).route_table())];
        let mut k: usize = 0;
        while k < to_be_removed.len()
            invariant
                k <= to_be_removed@.len(),
                to_be_removed@.map_values(|t: (EndpointId, String, SocketAddress)| (t.0, t.1@, t.2)) == list,
                self.wf(),
                self.keeps_settings_of(old(self)),
                self.session_history() == old(self).session_history(),
                trace.len() == k + 1,
                trace[0] == (m0, old(self).route_table()),
                trace.last() == (self.endpoints(), self.route_table()),
                forall|q: int| 0 <= q < k ==> removal_step(#[trigger] trace[q], trace[q + 1], list[q]),
            decreases to_be_removed@.len() - k,
        {
            let ghost pre = (self.endpoints(), self.route_table());
            let (id, name, address) = &to_be_removed[k];
            self.remove_connection(*id, name, *address);
            proof {
                let post = (self.endpoints(), self.route_table());
                assert(list[k as int] == (*id, name@, *address));
                let m1 = choose|m1: Map<EndpointId, Endpoint>| {
                    &&& removed_connection(pre.0, m1, *id, name@, *address)
                    &&& self.endpoints() == m1.remove_keys(idle_endpoints(m1))
                    &&& self.route_table() == spec_without_endpoints(pre.1, idle_endpoints(m1))
                };
                assert(removed_connection(pre.0, m1, list[k as int].0, list[k as int].1, list[k as int].2));
                assert(removal_step(pre, post, list[k as int]));
                let t0 = trace;
                trace = trace.push(post);
                assert forall|q: int| 0 <= q < k + 1 implies removal_step(#[trigger] trace[q], trace[q + 1], list[q]) by {
                    if q < k {
                        assert(trace[q] == t0[q]);
                        assert(trace[q + 1] == t0[q + 1]);
                    }
                }
            }
            k = k + 1;
        }
        assert(trace.last() == (self.endpoints(), self.route_table()));
        assert(all_disconnected(m0, ids@) == list);
        proof {
            assert forall|id: EndpointId, c: ConnectionEntry|
                m0.contains_key(id) && distinct_connections(m0[id].connections@)
                    && #[trigger] m0[id].connections@.contains(c) && c.connection.state != ConnectionState::Disconnected
                implies self.endpoints().contains_key(id) && self.endpoints()[id].connections@.contains(c) by {
                lemma_live_connections_survive(m0, old(self).route_table(), ids@, trace, id, c);
            }
        }
    }

    /// Greets every peer: for each endpoint (in the order the endpoint table
    /// yields them), a greeting with this side's id, the endpoint's session
    /// id, the announced routes and the endpoint's greeting counter (which
    /// advances), to go out on its connections in `Startup` or `Connected`
    /// state.
    pub fn greet_all_endpoints(&mut self) -> (r: Vec<Greeting>)
        requires
            old(self).wf(),
        ensures
            final(self).wf(),
            final(self).keeps_settings_of(old(self)),
            final(self).session_history() == old(self).session_history(),
            final(self).route_table() == old(self).route_table(),
            r@.map_values(|g: Greeting| g.endpoint_id).no_duplicates(),
            r@.map_values(|g: Greeting| g.endpoint_id).to_set() == old(self).endpoints().dom(),
            forall|i: int| 0 <= i < r@.len() ==> {
                let e0 = old(self).endpoints()[r@[i].endpoint_id];
                &&& (#[trigger] r@[i]).hello.id == old(self).spec_own_id()
                &&& r@[i].hello.session_id == e0.session_id
                &&& same_routes(r@[i].hello.static_routes, old(self).own_static_routes())
                &&& r@[i].hello.hello_seq == e0.hello_counter
                &&& selects(r@[i].targets@, e0.connections@.len() as int, |k: int| is_live(e0.connections@[k]))
            },
            final(self).endpoints().dom() == old(self).endpoints().dom(),
            forall|k: EndpointId| #[trigger] old(self).endpoints().contains_key(k) ==> hello_advanced(final(self).endpoints()[k], old(self).endpoints()[k]),
    {
        let ghost m0 = self.endpoints();
        let ids = self.endpoint_ids();
        let mut out: Vec<Greeting> = Vec::new();
        let mut i: usize = 0;
        while i < ids.len()
            invariant
                i <= ids@.len(),
                ids@.to_set() == m0.dom(),
                ids@.no_duplicates(),
                m0 == old(self).endpoints(),
                old(self).wf(),
                self.wf(),
                self.keeps_settings_of(old(self)),
                self.session_history() == old(self).session_history(),
                self.route_table() == old(self).route_table(),
                self.endpoints().dom() == m0.dom(),
                forall|k: EndpointId| #[trigger] m0.contains_key(k) ==> if ids@.take(i as int).contains(k) {
                    hello_advanced(self.endpoints()[k], m0[k])
                } else {
                    self.endpoints()[k] == m0[k]
                },
                out@.map_values(|g: Greeting| g.endpoint_id) == ids@.take(i as int),
                forall|q: int| 0 <= q < out@.len() ==> {
                    let e0 = m0[out@[q].endpoint_id];
                    &&& (#[trigger] out@[q]).hello.id == old(self).spec_own_id()
                    &&& out@[q].hello.session_id == e0.session_id
                    &&& same_routes(out@[q].hello.static_routes, old(self).own_static_routes())
                    &&& out@[q].hello.hello_seq == e0.hello_counter
                    &&& selects(out@[q].targets@, e0.connections@.len() as int, |k: int| is_live(e0.connections@[k]))
                },
            decreases ids@.len() - i,
        {
            let id = ids[i];
            let ghost before = self.endpoints();
            proof {
                assert(ids@.to_set().contains(id));
                assert(!ids@.take(i as int).contains(id)) by {
                    if ids@.take(i as int).contains(id) {
                        let t0 = ids@.take(i as int);
                        let q = choose|q: int| 0 <= q < t0.len() && t0[q] == id;
                        assert(ids@[q] == ids@[i as int]);
                    }
                }
                assert(before[id] == m0[id]);
            }
            match self.endpoints.remove(&id) {
                Some(mut endpoint) => {
                    let hello = Hello {
                        id: self.own_id,
                        session_id: endpoint.session_id,
                        static_routes: clone_routes(&self.own_static_routes),
                        hello_seq: endpoint.hello_counter,
                    };
                    endpoint.hello_counter = endpoint.hello_counter.wrapping_add(1);
                    let targets = endpoint.live_connections();
                    self.endpoints.insert(id, endpoint);
                    proof {
                        assert(self.endpoints().remove(id) =~= before.remove(id));
                        assert(self.route_table() == old(self).route_table());
                        lemma_put_endpoint(before, self.endpoints(), old(self).route_table(), id);
                        assert(self.endpoints().dom() =~= m0.dom());
                        assert(ids@.take(i as int + 1) =~= ids@.take(i as int).push(id));
                        assert forall|k: EndpointId| #[trigger] m0.contains_key(k) implies (if ids@.take(i as int + 1).contains(k) {
                            hello_advanced(self.endpoints()[k], m0[k])
                        } else {
                            self.endpoints()[k] == m0[k]
                        }) by {
                            if k == id {
                                assert(ids@.take(i as int + 1)[i as int] == id);
                            } else {
                                assert(self.endpoints()[k] == before[k]);
                                if ids@.take(i as int + 1).contains(k) {
                                    let t1 = ids@.take(i as int + 1);
                                    let q = choose|q: int| 0 <= q < t1.len() && t1[q] == k;
                                    assert(ids@.take(i as int)[q] == k);
                                } else {
                                    if ids@.take(i as int).contains(k) {
                                        let t0 = ids@.take(i as int);
                                        let q = choose|q: int| 0 <= q < t0.len() && t0[q] == k;
                                        assert(ids@.take(i as int + 1)[q] == k);
                                    }
                                }
                            }
                        }
                    }
                    let ghost out_before = out@;
                    out.push(Greeting { endpoint_id: id, hello, targets });
                    proof {
                        assert(out@.map_values(|g: Greeting| g.endpoint_id) =~= ids@.take(i as int + 1));
                        assert forall|q: int| 0 <= q < out@.len() implies {
                            let e0 = m0[out@[q].endpoint_id];
                            &&& (#[trigger] out@[q]).hello.id == old(self).spec_own_id()
                            &&& out@[q].hello.session_id == e0.session_id
                            &&& same_routes(out@[q].hello.static_routes, old(self).own_static_routes())
                            &&& out@[q].hello.hello_seq == e0.hello_counter
                            &&& selects(out@[q].targets@, e0.connections@.len() as int, |k: int| is_live(e0.connections@[k]))
                        } by {
                            if q < out_before.len() {
                                assert(out@[q] == out_before[q]);
                            }
                        }
                    }
                },
                None => {
                    proof {
                        assert(before.contains_key(id));
                        assert(false);
                    }
                },
            }
            i = i + 1;
        }
        proof {
            assert(ids@.take(ids@.len() as int) =~= ids@);
        }
        out
    }

    /// The positions in `connection_infos` of the connections that endpoint
    /// `endpoint_id` lacks (no connection of it has that interface name and
    /// peer address), to be opened again. Nothing for an unknown endpoint.
    pub fn ensure_endpoint_connections(&self, endpoint_id: EndpointId, connection_infos: &Vec<ConnectionInfo>) -> (r: Vec<usize>)
        ensures
            !self.endpoints().contains_key(endpoint_id) ==> r@.len() == 0,
            self.endpoints().contains_key(endpoint_id) ==> selects(
                r@,
                connection_infos@.len() as int,
                |j: int| !exists|c: int| 0 <= c < self.endpoints()[endpoint_id].connections@.len()
                    && #[trigger] self.endpoints()[endpoint_id].connections@[c].interface_name@ == connection_infos@[j].interface_name@
                    && self.endpoints()[endpoint_id].connections@[c].interface_address == connection_infos@[j].destination_address,
            ),
    {
        match self.endpoints.get(&endpoint_id) {
            None => Vec::new(),
            Some(endpoint) => {
                let alive = endpoint.get_alive_connections();
                let mut out: Vec<usize> = Vec::new();
                let mut j: usize = 0;
                while j < connection_infos.len()
                    invariant
                        j <= connection_infos@.len(),
                        *endpoint == self.endpoints()[endpoint_id],
                        alive@.len() == endpoint.connections@.len(),
                        forall|c: int| 0 <= c < alive@.len() ==> #[trigger] alive@[c].0@ == endpoint.connections@[c].interface_name@ && alive@[c].1 == endpoint.connections@[c].interface_address,
                        selects(out@, j as int, |q: int| !exists|c: int| 0 <= c < endpoint.connections@.len()
                            && #[trigger] endpoint.connections@[c].interface_name@ == connection_infos@[q].interface_name@
                            && endpoint.connections@[c].interface_address == connection_infos@[q].destination_address),
                        forall|q: int| 0 <= q < out@.len() ==> out@[q] < j,
                    decreases connection_infos@.len() - j,
                {
                    let info = &connection_infos[j];
                    let mut found = false;
                    let mut c: usize = 0;
                    while c < alive.len()
                        invariant
                            c <= alive@.len(),
                            found <==> exists|d: int| 0 <= d < c && #[trigger] alive@[d].0@ == info.interface_name@ && alive@[d].1 == info.destination_address,
                        decreases alive@.len() - c,
                    {
                        if alive[c].0 == info.interface_name && alive[c].1 == info.destination_address {
                            found = true;
                        }
                        c = c + 1;
                    }
                    proof {
                        let p = |q: int| !exists|c: int| 0 <= c < endpoint.connections@.len()
                            && #[trigger] endpoint.connections@[c].interface_name@ == connection_infos@[q].interface_name@
                            && endpoint.connections@[c].interface_address == connection_infos@[q].destination_address;
                        assert(p(j as int) == !found) by {
                            if found {
                                let d = choose|d: int| 0 <= d < alive@.len() && #[trigger] alive@[d].0@ == info.interface_name@ && alive@[d].1 == info.destination_address;
                                assert(endpoint.connections@[d].interface_name@ == connection_infos@[j as int].interface_name@);
                            } else {
                                if !p(j as int) {
                                    let d = choose|d: int| 0 <= d < endpoint.connections@.len()
                                        && #[trigger] endpoint.connections@[d].interface_name@ == connection_infos@[j as int].interface_name@
                                        && endpoint.connections@[d].interface_address == connection_infos@[j as int].destination_address;
                                    assert(alive@[d].0@ == info.interface_name@);
                                }
                            }
                        }
                    }
                    if !found {
                        let ghost before = out@;
                        out.push(j);
                        proof {
                            let p = |q: int| !exists|c: int| 0 <= c < endpoint.connections@.len()
                                && #[trigger] endpoint.connections@[c].interface_name@ == connection_infos@[q].interface_name@
                                && endpoint.connections@[c].interface_address == connection_infos@[q].destination_address;
                            assert forall|k: int| 0 <= k < j + 1 && p(k) implies #[trigger] out@.contains(k as usize) by {
                                if k < j {
                                    assert(before.contains(k as usize));
                                    let q = choose|q: int| 0 <= q < before.len() && before[q] == k as usize;
                                    assert(out@[q] == k as usize);
                                } else {
                                    assert(out@[out@.len() - 1] == k as usize);
                                }
                            }
                        }
                    }
                    j = j + 1;
                }
                out
            },
        }
    }

    /// Carries out a duplication command: every endpoint's connections on
    /// the named interface are enabled or disabled.
    pub fn handle_selective_duplication_command(&mut self, command: &DuplicationCommands)
        requires
            old(self).wf(),
        ensures
            final(self).wf(),
            final(self).keeps_settings_of(old(self)),
            final(self).session_history() == old(self).session_history(),
            final(self).route_table() == old(self).route_table(),
            final(self).endpoints().dom() == old(self).endpoints().dom(),
            match command {
                DuplicationCommands::InterfaceState(state) => forall|k: EndpointId| #[trigger] old(self).endpoints().contains_key(k) ==> interface_toggled(final(self).endpoints()[k], old(self).endpoints()[k], state.interface_name@, state.enabled),
            },
            match command {
                DuplicationCommands::InterfaceState(state) => forall|k: EndpointId, j: int|
                    old(self).endpoints().contains_key(k) && 0 <= j < old(self).endpoints()[k].connections@.len() ==> {
                        &&& (#[trigger] old(self).endpoints()[k].connections@[j]).interface_name@ != state.interface_name@ ==> final(self).endpoints()[k].connections@[j] == old(self).endpoints()[k].connections@[j]
                        &&& old(self).endpoints()[k].connections@[j].interface_name@ == state.interface_name@ ==> final(self).endpoints()[k].connections@[j].connection.enabled == state.enabled
                    },
            },
    {
        let ghost m0 = self.endpoints();
        match command {
            DuplicationCommands::InterfaceState(state) => {
                let ids = self.endpoint_ids();
                let mut i: usize = 0;
                while i < ids.len()
                    invariant
                        i <= ids@.len(),
                        ids@.to_set() == m0.dom(),
                        ids@.no_duplicates(),
                        m0 == old(self).endpoints(),
                        old(self).wf(),
                        self.wf(),
                        self.keeps_settings_of(old(self)),
                        self.session_history() == old(self).session_history(),
                        self.route_table() == old(self).route_table(),
                        self.endpoints().dom() == m0.dom(),
                        forall|k: EndpointId| #[trigger] m0.contains_key(k) ==> if ids@.take(i as int).contains(k) {
                            interface_toggled(self.endpoints()[k], m0[k], state.interface_name@, state.enabled)
                        } else {
                            self.endpoints()[k] == m0[k]
                        },
                    decreases ids@.len() - i,
                {
                    let id = ids[i];
                    let ghost before = self.endpoints();
                    proof {
                        assert(ids@.to_set().contains(id));
                        assert(!ids@.take(i as int).contains(id)) by {
                            if ids@.take(i as int).contains(id) {
                                let t0 = ids@.take(i as int);
                        let q = choose|q: int| 0 <= q < t0.len() && t0[q] == id;
                                assert(ids@[q] == ids@[i as int]);
                            }
                        }
                        assert(before[id] == m0[id]);
                    }
                    match self.endpoints.remove(&id) {
                        Some(mut endpoint) => {
                            if state.enabled {
                                endpoint.enable_interface(&state.interface_name);
                            } else {
                                endpoint.disable_interface(&state.interface_name);
                            }
                            self.endpoints.insert(id, endpoint);
                            proof {
                                assert(self.endpoints().remove(id) =~= before.remove(id));
                                assert(self.route_table() == old(self).route_table());
                                lemma_put_endpoint(before, self.endpoints(), old(self).route_table(), id);
                                assert(self.endpoints().dom() =~= m0.dom());
                                assert(ids@.take(i as int + 1) =~= ids@.take(i as int).push(id));
                                assert forall|k: EndpointId| #[trigger] m0.contains_key(k) implies (if ids@.take(i as int + 1).contains(k) {
                                    interface_toggled(self.endpoints()[k], m0[k], state.interface_name@, state.enabled)
                                } else {
                                    self.endpoints()[k] == m0[k]
                                }) by {
                                    if k == id {
                                        assert(ids@.take(i as int + 1)[i as int] == id);
                                    } else {
                                        assert(self.endpoints()[k] == before[k]);
                                        if ids@.take(i as int + 1).contains(k) {
                                            let t1 = ids@.take(i as int + 1);
                                            let q = choose|q: int| 0 <= q < t1.len() && t1[q] == k;
                                            assert(ids@.take(i as int)[q] == k);
                                        } else {
                                            if ids@.take(i as int).contains(k) {
                                                let t0 = ids@.take(i as int);
                                        let q = choose|q: int| 0 <= q < t0.len() && t0[q] == k;
                                                assert(ids@.take(i as int + 1)[q] == k);
                                            }
                                        }
                                    }
                                }
                            }
                        },
                        None => {
                            proof {
                                assert(before.contains_key(id));
                                assert(false);
                            }
                        },
                    }
                    i = i + 1;
                }
                proof {
                    assert(ids@.take(ids@.len() as int) =~= ids@);
                }
            },
        }
    }

    /// Learns that each of `routes` is reached through `endpoint_id`.
    fn learn_routes(&mut self, endpoint_id: EndpointId, routes: &Option<Vec<Route>>)
        requires
            old(self).wf(),
            old(self).endpoints().contains_key(endpoint_id),
        ensures
            final(self).wf(),
            final(self).route_table() == spec_learn_routes(old(self).route_table(), route_list(*routes), endpoint_id),
            final(self).endpoints() == old(self).endpoints(),
            final(self).session_history() == old(self).session_history(),
            final(self).own_static_routes() == old(self).own_static_routes(),
            final(self).spec_packet_sorter_deadline() == old(self).spec_packet_sorter_deadline(),
            final(self).key() == old(self).key(),
            final(self).spec_local_address() == old(self).spec_local_address(),
            final(self).spec_connection_timeout() == old(self).spec_connection_timeout(),
            final(self).spec_own_id() == old(self).spec_own_id(),
            final(self).spec_tun_address() == old(self).spec_tun_address(),
    {
        match routes {
            None => {},
            Some(v) => {
                let mut i: usize = 0;
                while i < v.len()
                    invariant
                        i <= v.len(),
                        self.routes@ == spec_learn_routes(old(self).route_table(), v@.take(i as int), endpoint_id),
                        self.endpoints@ == old(self).endpoints(),
                        self.session_history@ == old(self).session_history(),
                        self.own_static_routes == old(self).own_static_routes(),
                        self.packet_sorter_deadline == old(self).spec_packet_sorter_deadline(),
                        self.encryption_key@ == old(self).key(),
                        self.local_address == old(self).spec_local_address(),
                        self.connection_timeout == old(self).spec_connection_timeout(),
                        self.own_id == old(self).own_id,
                        self.tun_address == old(self).tun_address,
                    decreases v.len() - i,
                {
                    assert(v@.take(i as int + 1).drop_last() =~= v@.take(i as int));
                    self.routes.insert_route(v[i], endpoint_id);
                    i = i + 1;
                }
                assert(v@.take(v@.len() as int) =~= v@);
            },
        }
        proof {
            let rs = route_list(*routes);
            lemma_learned_routes_lead_to(old(self).route_table(), rs, endpoint_id);
            assert forall|i: int| 0 <= i < self.route_table().len() implies self.endpoints().contains_key(#[trigger] self.route_table()[i].endpoint_id) by {
                let x = self.route_table()[i];
                assert(self.route_table().contains(x));
                if old(self).route_table().contains(x) {
                    let j = choose|j: int| 0 <= j < old(self).route_table().len() && old(self).route_table()[j] == x;
                    assert(old(self).endpoints().contains_key(old(self).route_table()[j].endpoint_id));
                }
            }
            assert forall|id: EndpointId| #[trigger] self.endpoints().contains_key(id) implies {
                &&& self.endpoints()[id].wf()
                &&& self.endpoints()[id].id == id
            } by {
                assert(old(self).endpoints().contains_key(id));
            }
        }
    }

    /// Takes in a greeting from a peer. An unknown peer gets a new endpoint
    /// and its session id is recorded. A known peer greeting under a new
    /// session id gets a fresh endpoint in place of the old one, unless that
    /// session id was used before: then the greeting is refused and nothing
    /// changes. When the greeting is accepted the routes it announces are
    /// learned for the peer. Returns whether it was accepted (the program
    /// then adds the connection and answers).
    pub fn handle_hello(&mut self, hello: &Hello, now: u64) -> (r: bool)
        requires
            old(self).wf(),
        ensures
            final(self).wf(),
            r == !hello_refused(old(self).endpoints(), old(self).session_history(), *hello),
            hello_outcome(old(self).endpoints(), old(self).session_history(), *hello, r, final(self).endpoints(), final(self).session_history()),
            !r ==> {
                &&& final(self).endpoints() == old(self).endpoints()
                &&& final(self).session_history() == old(self).session_history()
                &&& final(self).route_table() == old(self).route_table()
            },
            r ==> {
                &&& final(self).endpoints().contains_key(hello.id)
                &&& final(self).endpoints()[hello.id].session_id == hello.session_id
                &&& final(self).endpoints().remove(hello.id) == old(self).endpoints().remove(hello.id)
                &&& final(self).route_table() == spec_learn_routes(old(self).route_table(), route_list(hello.static_routes), hello.id)
                &&& forall|i: int| 0 <= i < route_list(hello.static_routes).len() ==> #[trigger] final(self).route_table().contains(AddressEndpointMapping { address: route_list(hello.static_routes)[i], endpoint_id: hello.id })
            },
            r && old(self).endpoints().contains_key(hello.id) && old(self).endpoints()[hello.id].session_id == hello.session_id ==> {
                &&& final(self).endpoints() == old(self).endpoints()
                &&& final(self).session_history() == old(self).session_history()
            },
            r && !(old(self).endpoints().contains_key(hello.id) && old(self).endpoints()[hello.id].session_id == hello.session_id) ==> {
                &&& is_new_endpoint(final(self).endpoints()[hello.id], hello.id, hello.session_id, old(self).spec_packet_sorter_deadline(), now)
                &&& final(self).session_history() == old(self).session_history().push(hello.session_id)
            },
            final(self).own_static_routes() == old(self).own_static_routes(),
            final(self).spec_packet_sorter_deadline() == old(self).spec_packet_sorter_deadline(),
            final(self).key() == old(self).key(),
            final(self).spec_local_address() == old(self).spec_local_address(),
            final(self).spec_connection_timeout() == old(self).spec_connection_timeout(),
            final(self).spec_own_id() == old(self).spec_own_id(),
            final(self).spec_tun_address() == old(self).spec_tun_address(),
    {
        let id = hello.id;
        let session_id = hello.session_id;
        let ghost e0 = self.endpoints();
        if !self.endpoints.contains_key(&id) {
            let endpoint = Endpoint::new(id, session_id, self.packet_sorter_deadline, now);
            self.endpoints.insert(id, endpoint);
            self.session_history.push(session_id);
        }
        let current = match self.endpoints.get(&id) {
            Some(endpoint) => endpoint.session_id,
            None => session_id,
        };
        if current != session_id {
            if vec_contains_u128(&self.session_history, session_id) {
                return false;
            }
            let endpoint = Endpoint::new(id, session_id, self.packet_sorter_deadline, now);
            self.endpoints.insert(id, endpoint);
            self.session_history.push(session_id);
        }
        proof {
            assert(self.endpoints().remove(id) =~= e0.remove(id));
            assert forall|k: EndpointId| #[trigger] self.endpoints().contains_key(k) implies {
                &&& self.endpoints()[k].wf()
                &&& self.endpoints()[k].id == k
            } by {
                if k != id {
                    assert(e0.contains_key(k));
                }
            }
            assert(self.route_table() == old(self).route_table());
            assert forall|i: int| 0 <= i < self.route_table().len() implies self.endpoints().contains_key(#[trigger] self.route_table()[i].endpoint_id) by {
                assert(old(self).route_table()[i] == self.route_table()[i]);
                assert(e0.contains_key(old(self).route_table()[i].endpoint_id));
            }
        }
        self.learn_routes(id, &hello.static_routes);
        proof {
            let rs = route_list(hello.static_routes);
            lemma_announced_routes_learned(old(self).route_table(), rs, id);
            assert forall|i: int| 0 <= i < rs.len() implies #[trigger] self.route_table().contains(AddressEndpointMapping { address: rs[i], endpoint_id: id }) by {
                assert(rs.contains(rs[i]));
            }
        }
        true
    }
}

/// Whether `v` holds `x`.
fn vec_contains_u128(v: &Vec<u128>, x: u128) -> (r: bool)
    ensures
        r == v@.contains(x),
{
    let mut i: usize = 0;
    while i < v.len()
        invariant
            i <= v.len(),
            forall|j: int| 0 <= j < i ==> v@[j] != x,
        decreases v.len() - i,
    {
        if v[i] == x {
            assert(v@[i as int] == x);
            return true;
        }
        i = i + 1;
    }
    false
}

} // verus!
