use vstd::prelude::*;
use crate::addr::Ipv4Address;

verus! {

/// A destination network: an address and its subnet mask.
#[derive(Debug, Clone, Copy, PartialEq, Eq, Structural)]
pub struct Route {
    pub address: Ipv4Address,
    pub subnet_mask: Ipv4Address,
}

/// `address` lies in the network of `route`.
pub open spec fn spec_reachable(route: Route, address: Ipv4Address) -> bool {
    route.address.bits & route.subnet_mask.bits == address.bits & route.subnet_mask.bits
}

/// The default route 0.0.0.0/0.
pub open spec fn is_default_route(route: Route) -> bool {
    route.address.bits == 0 && route.subnet_mask.bits == 0
}

impl Route {
    /// Whether `address_to_test` lies in this route's network.
    pub fn reachable_from(&self, address_to_test: &Ipv4Address) -> (r: bool)
        ensures
            r == spec_reachable(*self, *address_to_test),
    {
        self.calculate_network_address().bits == (address_to_test.bits & self.subnet_mask.bits)
    }

    /// The network address: the address with every host bit cleared.
    pub fn calculate_network_address(&self) -> (r: Ipv4Address)
        ensures
            r.bits == self.address.bits & self.subnet_mask.bits,
    {
        Ipv4Address { bits: self.address.bits & self.subnet_mask.bits }
    }
}

/// A route learned for one endpoint.
#[derive(Debug, Clone, Copy, PartialEq, Eq, Structural)]
pub struct AddressEndpointMapping {
    pub address: Route,
    pub endpoint_id: u16,
}

/// `i` is the position of the first default route in `s`.
pub open spec fn is_first_default(s: Seq<AddressEndpointMapping>, i: int) -> bool {
    &&& 0 <= i < s.len()
    &&& is_default_route(s[i].address)
    &&& forall|j: int| 0 <= j < i ==> !is_default_route(#[trigger] s[j].address)
}

/// `s` with the entries at `i` and `j` exchanged.
pub open spec fn swap_entries<A>(s: Seq<A>, i: int, j: int) -> Seq<A> {
    s.update(i, s[j]).update(j, s[i])
}

/// `s` with its first default route moved to the end (by exchanging it with
/// the last entry).
pub open spec fn with_default_last(s: Seq<AddressEndpointMapping>) -> Seq<AddressEndpointMapping> {
    if exists|i: int| is_first_default(s, i) {
        let i = choose|i: int| is_first_default(s, i);
        swap_entries(s, i, s.len() - 1)
    } else {
        s
    }
}

/// The routing table after learning `m`: `m` is appended unless already
/// known, then the first default route is moved to the end.
pub open spec fn spec_insert_route(
    s: Seq<AddressEndpointMapping>,
    m: AddressEndpointMapping,
) -> Seq<AddressEndpointMapping> {
    with_default_last(if s.contains(m) { s } else { s.push(m) })
}

/// The endpoints whose routes reach `address`, each once, in the order of
/// their first matching route.
pub open spec fn spec_lookup(s: Seq<AddressEndpointMapping>, address: Ipv4Address) -> Seq<u16>
    decreases s.len(),
{
    if s.len() == 0 {
        Seq::empty()
    } else {
        let prev = spec_lookup(s.drop_last(), address);
        let m = s.last();
        if spec_reachable(m.address, address) && !prev.contains(m.endpoint_id) {
            prev.push(m.endpoint_id)
        } else {
            prev
        }
    }
}

/// The entries of `s` that do not lead to `endpoint_id`, in their order.
pub open spec fn spec_without_endpoint(s: Seq<AddressEndpointMapping>, endpoint_id: u16) -> Seq<
    AddressEndpointMapping,
>
    decreases s.len(),
{
    if s.len() == 0 {
        Seq::empty()
    } else {
        let prev = spec_without_endpoint(s.drop_last(), endpoint_id);
        if s.last().endpoint_id != endpoint_id {
            prev.push(s.last())
        } else {
            prev
        }
    }
}


/// What a lookup answers: it never names an endpoint twice, and it names
/// `e` exactly when some route of the table reaches `address` through `e`.
pub proof fn lemma_lookup_answers(s: Seq<AddressEndpointMapping>, address: Ipv4Address)
    ensures
        spec_lookup(s, address).no_duplicates(),
        forall|e: u16|
            spec_lookup(s, address).contains(e) <==> exists|i: int|
                0 <= i < s.len() && spec_reachable(#[trigger] s[i].address, address)
                    && s[i].endpoint_id == e,
    decreases s.len(),
{
    if s.len() > 0 {
        let p = s.drop_last();
        lemma_lookup_answers(p, address);
        let prev = spec_lookup(p, address);
        let m = s.last();
        assert forall|e: u16|
            spec_lookup(s, address).contains(e) <==> exists|i: int|
                0 <= i < s.len() && spec_reachable(#[trigger] s[i].address, address)
                    && s[i].endpoint_id == e by {
            if spec_lookup(s, address).contains(e) {
                if prev.contains(e) {
                    let i = choose|i: int|
                        0 <= i < p.len() && spec_reachable(#[trigger] p[i].address, address)
                            && p[i].endpoint_id == e;
                    assert(s[i] == p[i]);
                } else {
                    let k = spec_lookup(s, address).len() - 1;
                    let j = choose|j: int| 0 <= j < spec_lookup(s, address).len() && spec_lookup(s, address)[j] == e;
                    if j < k {
                        assert(prev[j] == e);
                    }
                    assert(s[s.len() - 1] == m);
                }
            }
            if exists|i: int|
                0 <= i < s.len() && spec_reachable(#[trigger] s[i].address, address)
                    && s[i].endpoint_id == e {
                let i = choose|i: int|
                    0 <= i < s.len() && spec_reachable(#[trigger] s[i].address, address)
                        && s[i].endpoint_id == e;
                if i < s.len() - 1 {
                    assert(p[i] == s[i]);
                    assert(prev.contains(e));
                    let j = choose|j: int| 0 <= j < prev.len() && prev[j] == e;
                    if spec_reachable(m.address, address) && !prev.contains(m.endpoint_id) {
                        assert(prev.push(m.endpoint_id)[j] == e);
                    }
                } else {
                    if !prev.contains(e) {
                        assert(spec_lookup(s, address) == prev.push(e));
                        assert(spec_lookup(s, address)[prev.len() as int] == e);
                    }
                }
            }
        }
        if spec_reachable(m.address, address) && !prev.contains(m.endpoint_id) {
            assert forall|i: int, j: int|
                0 <= i < prev.len() + 1 && 0 <= j < prev.len() + 1 && i != j implies
                prev.push(m.endpoint_id)[i] != prev.push(m.endpoint_id)[j] by {
                if i < prev.len() && j < prev.len() {
                } else if i < prev.len() {
                    assert(prev[i] == prev.push(m.endpoint_id)[i]);
                } else {
                    assert(prev[j] == prev.push(m.endpoint_id)[j]);
                }
            }
        }
    }
}

/// Exchanging two entries keeps the same entries.
proof fn lemma_swap_keeps_entries<A>(s: Seq<A>, i: int, j: int)
    requires
        0 <= i < s.len(),
        0 <= j < s.len(),
    ensures
        forall|x: A| swap_entries(s, i, j).contains(x) <==> s.contains(x),
        s.no_duplicates() ==> swap_entries(s, i, j).no_duplicates(),
        swap_entries(s, i, j).len() == s.len(),
{
    let t = swap_entries(s, i, j);
    assert forall|x: A| t.contains(x) <==> s.contains(x) by {
        if t.contains(x) {
            let k = choose|k: int| 0 <= k < t.len() && t[k] == x;
            if k == j {
                assert(s[i] == x);
            } else if k == i {
                assert(s[j] == x);
            } else {
                assert(s[k] == x);
            }
        }
        if s.contains(x) {
            let k = choose|k: int| 0 <= k < s.len() && s[k] == x;
            if k == j {
                assert(t[i] == x);
            } else if k == i {
                assert(t[j] == x);
            } else {
                assert(t[k] == x);
            }
        }
    }
    if s.no_duplicates() {
        assert forall|a: int, b: int| 0 <= a < t.len() && 0 <= b < t.len() && a != b implies t[a]
            != t[b] by {
            let pa = if a == i { j } else if a == j { i } else { a };
            let pb = if b == i { j } else if b == j { i } else { b };
            assert(t[a] == s[pa]);
            assert(t[b] == s[pb]);
        }
    }
}

/// Learning a route keeps every route already known, adds the new one, adds
/// nothing else, and never makes the table hold a route twice.
pub proof fn lemma_insert_route_entries(s: Seq<AddressEndpointMapping>, m: AddressEndpointMapping)
    ensures
        forall|x: AddressEndpointMapping|
            spec_insert_route(s, m).contains(x) <==> (s.contains(x) || x == m),
        s.no_duplicates() ==> spec_insert_route(s, m).no_duplicates(),
{
    let s1 = if s.contains(m) { s } else { s.push(m) };
    assert forall|x: AddressEndpointMapping| s1.contains(x) <==> (s.contains(x) || x == m) by {
        if !s.contains(m) {
            if s1.contains(x) {
                let k = choose|k: int| 0 <= k < s1.len() && s1[k] == x;
                if k < s.len() {
                    assert(s[k] == x);
                }
            }
            if s.contains(x) {
                let k = choose|k: int| 0 <= k < s.len() && s[k] == x;
                assert(s1[k] == x);
            }
            if x == m {
                assert(s1[s.len() as int] == x);
            }
        }
    }
    if s.no_duplicates() && !s.contains(m) {
        assert forall|a: int, b: int| 0 <= a < s1.len() && 0 <= b < s1.len() && a != b implies s1[a]
            != s1[b] by {
            if a == s.len() {
                assert(s1[b] == s[b]);
            } else if b == s.len() {
                assert(s1[a] == s[a]);
            } else {
                assert(s1[a] == s[a]);
                assert(s1[b] == s[b]);
            }
        }
    }
    if exists|i: int| is_first_default(s1, i) {
        let i = choose|i: int| is_first_default(s1, i);
        lemma_swap_keeps_entries(s1, i, s1.len() - 1);
    }
}

/// After a route to `route` through `endpoint_id` is learned, a lookup of any
/// address in that network names `endpoint_id`.
pub proof fn lemma_learned_route_is_found(
    s: Seq<AddressEndpointMapping>,
    route: Route,
    endpoint_id: u16,
    address: Ipv4Address,
)
    requires
        spec_reachable(route, address),
    ensures
        spec_lookup(
            spec_insert_route(s, AddressEndpointMapping { address: route, endpoint_id }),
            address,
        ).contains(endpoint_id),
{
    let m = AddressEndpointMapping { address: route, endpoint_id };
    let t = spec_insert_route(s, m);
    lemma_insert_route_entries(s, m);
    assert(t.contains(m));
    let i = choose|i: int| 0 <= i < t.len() && t[i] == m;
    lemma_lookup_answers(t, address);
    assert(spec_reachable(t[i].address, address));
}

/// The routes kept by `spec_without_endpoint` are routes of the table, and
/// none of them leads to the forgotten endpoint.
pub proof fn lemma_without_endpoint_entries(s: Seq<AddressEndpointMapping>, endpoint_id: u16)
    ensures
        forall|x: AddressEndpointMapping|
            #[trigger] spec_without_endpoint(s, endpoint_id).contains(x) <==> (s.contains(x)
                && x.endpoint_id != endpoint_id),
    decreases s.len(),
{
    if s.len() > 0 {
        let p = s.drop_last();
        lemma_without_endpoint_entries(p, endpoint_id);
        let prev = spec_without_endpoint(p, endpoint_id);
        let r = spec_without_endpoint(s, endpoint_id);
        assert forall|x: AddressEndpointMapping| r.contains(x) <==> (s.contains(x)
            && x.endpoint_id != endpoint_id) by {
            if r.contains(x) {
                let k = choose|k: int| 0 <= k < r.len() && r[k] == x;
                if k < prev.len() {
                    assert(prev[k] == x);
                    assert(prev.contains(x));
                    assert(p.contains(x));
                    let q = choose|q: int| 0 <= q < p.len() && p[q] == x;
                    assert(s[q] == x);
                } else {
                    assert(s[s.len() - 1] == x);
                }
            }
            if s.contains(x) && x.endpoint_id != endpoint_id {
                let k = choose|k: int| 0 <= k < s.len() && s[k] == x;
                if k < s.len() - 1 {
                    assert(p[k] == x);
                    assert(p.contains(x));
                    assert(prev.contains(x));
                    let q = choose|q: int| 0 <= q < prev.len() && prev[q] == x;
                    if s.last().endpoint_id != endpoint_id {
                        assert(r == prev.push(s.last()));
                        assert(r[q] == x);
                    }
                } else {
                    assert(r[prev.len() as int] == x);
                }
            }
        }
    }
}

/// Once the routes to an endpoint are forgotten, no lookup names it.
pub proof fn lemma_forgotten_endpoint_not_found(
    s: Seq<AddressEndpointMapping>,
    endpoint_id: u16,
    address: Ipv4Address,
)
    ensures
        !spec_lookup(spec_without_endpoint(s, endpoint_id), address).contains(endpoint_id),
{
    let t = spec_without_endpoint(s, endpoint_id);
    lemma_without_endpoint_entries(s, endpoint_id);
    lemma_lookup_answers(t, address);
    if spec_lookup(t, address).contains(endpoint_id) {
        assert(exists|i: int|
            0 <= i < t.len() && spec_reachable(#[trigger] t[i].address, address) && t[i].endpoint_id
                == endpoint_id);
        let i = choose|i: int|
            0 <= i < t.len() && spec_reachable(#[trigger] t[i].address, address) && t[i].endpoint_id
                == endpoint_id;
        let x = t[i];
        assert(t.contains(x));
        assert(s.contains(x) && x.endpoint_id != endpoint_id);
        assert(false);
    }
}

/// The routing table: which endpoints each destination network is reached by.
#[derive(Debug)]
pub struct Router {
    routes: Vec<AddressEndpointMapping>,
}

impl View for Router {
    type V = Seq<AddressEndpointMapping>;

    closed spec fn view(&self) -> Seq<AddressEndpointMapping> {
        self.routes@
    }
}

impl Router {
    /// An empty routing table.
    pub fn new() -> (r: Router)
        ensures
            r@ == Seq::<AddressEndpointMapping>::empty(),
    {
        Router { routes: Vec::new() }
    }

    /// The number of routes held.
    pub fn route_count(&self) -> (r: usize)
        ensures
            r == self@.len(),
    {
        self.routes.len()
    }

    /// The routes held, in table order.
    pub fn routes(&self) -> (r: &Vec<AddressEndpointMapping>)
        ensures
            r@ == self@,
    {
        &self.routes
    }

    fn contains_mapping(&self, m: &AddressEndpointMapping) -> (r: bool)
        ensures
            r == self@.contains(*m),
    {
        let mut i: usize = 0;
        while i < self.routes.len()
            invariant
                i <= self.routes.len(),
                forall|j: int| 0 <= j < i ==> self.routes@[j] != *m,
            decreases self.routes.len() - i,
        {
            if self.routes[i] == *m {
                assert(self.routes@[i as int] == *m);
                return true;
            }
            i = i + 1;
        }
        false
    }

    fn first_default_index(&self) -> (r: Option<usize>)
        ensures
            match r {
                Some(i) => is_first_default(self@, i as int),
                None => forall|j: int| 0 <= j < self@.len() ==> !is_default_route(#[trigger] self@[j].address),
            },
    {
        let mut i: usize = 0;
        while i < self.routes.len()
            invariant
                i <= self.routes.len(),
                forall|j: int| 0 <= j < i ==> !is_default_route(#[trigger] self.routes@[j].address),
            decreases self.routes.len() - i,
        {
            let m = self.routes[i];
            if m.address.address.bits == 0 && m.address.subnet_mask.bits == 0 {
                return Some(i);
            }
            i = i + 1;
        }
        None
    }

    /// Learns that `address` is reached through `endpoint_id`. A mapping that
    /// is already known is not added twice; the first default route
    /// (0.0.0.0/0) is then moved to the end of the table.
    pub fn insert_route(&mut self, address: Route, endpoint_id: u16)
        ensures
            final(self)@ == spec_insert_route(old(self)@, AddressEndpointMapping { address, endpoint_id }),
    {
        let aem = AddressEndpointMapping { address, endpoint_id };
        if !self.contains_mapping(&aem) {
            self.routes.push(aem);
        }
        let ghost s1 = self.routes@;
        assert(s1 == (if old(self)@.contains(aem) { old(self)@ } else { old(self)@.push(aem) }));
        match self.first_default_index() {
            Some(index) => {
                let last_index = self.routes.len() - 1;
                if index != last_index {
                    let a = self.routes[index];
                    let b = self.routes[last_index];
                    self.routes.set(index, b);
                    self.routes.set(last_index, a);
                }
                proof {
                    assert(is_first_default(s1, index as int));
                    let c = choose|i: int| is_first_default(s1, i);
                    assert(c == index as int) by {
                        if c < index { assert(!is_default_route(s1[c].address)); }
                        if c > index { assert(!is_default_route(s1[index as int].address)); }
                    }
                    assert(self.routes@ =~= swap_entries(s1, index as int, s1.len() - 1));
                }
            },
            None => {
                assert forall|i: int| !is_first_default(s1, i) by {
                    if 0 <= i < s1.len() {
                        assert(self@ == s1);
                        assert(!is_default_route(self@[i].address));
                    }
                }
            },
        }
    }

    /// The endpoints through which `address_to_lookup` is reachable, each
    /// once, in the order of their first matching route.
    pub fn lookup(&self, address_to_lookup: &Ipv4Address) -> (r: Vec<u16>)
        ensures
            r@ == spec_lookup(self@, *address_to_lookup),
    {
        let mut endpoints: Vec<u16> = Vec::new();
        let mut i: usize = 0;
        while i < self.routes.len()
            invariant
                i <= self.routes.len(),
                endpoints@ == spec_lookup(self.routes@.take(i as int), *address_to_lookup),
            decreases self.routes.len() - i,
        {
            let aem = self.routes[i];
            assert(self.routes@.take(i as int + 1).drop_last() =~= self.routes@.take(i as int));
            if aem.address.reachable_from(address_to_lookup) {
                if !vec_contains_u16(&endpoints, aem.endpoint_id) {
                    endpoints.push(aem.endpoint_id);
                }
            }
            i = i + 1;
        }
        assert(self.routes@.take(self.routes@.len() as int) =~= self.routes@);
        endpoints
    }

    /// Forgets every route that leads to `endpoint_id`.
    pub fn remove_route_to_endpoint(&mut self, endpoint_id: u16)
        ensures
            final(self)@ == spec_without_endpoint(old(self)@, endpoint_id),
    {
        let mut kept: Vec<AddressEndpointMapping> = Vec::new();
        let mut i: usize = 0;
        while i < self.routes.len()
            invariant
                i <= self.routes.len(),
                self.routes@ == old(self)@,
                kept@ == spec_without_endpoint(self.routes@.take(i as int), endpoint_id),
            decreases self.routes.len() - i,
        {
            let aem = self.routes[i];
            assert(self.routes@.take(i as int + 1).drop_last() =~= self.routes@.take(i as int));
            if aem.endpoint_id != endpoint_id {
                kept.push(aem);
            }
            i = i + 1;
        }
        assert(self.routes@.take(self.routes@.len() as int) =~= self.routes@);
        self.routes = kept;
    }
}

/// Whether `v` holds `x`.
fn vec_contains_u16(v: &Vec<u16>, x: u16) -> (r: bool)
    ensures
        r == v@.contains(x),
{
    let mut i: usize = 0;
    while i < v.len()
        invariant
            i <= v.len(),
            forall|j: int| 0 <= j < i ==> v@[j] != x,
        decreases v.len() - i,
    {
        if v[i] == x {
            assert(v@[i as int] == x);
            return true;
        }
        i = i + 1;
    }
    false
}

} // verus!
