use mpconn::addr::Ipv4Address;
use mpconn::messages::EndpointId;
use mpconn::router::{Route, Router};

fn route(a: u8, b: u8, c: u8, d: u8, m: (u8, u8, u8, u8)) -> Route {
    Route { address: Ipv4Address::new(a, b, c, d), subnet_mask: Ipv4Address::new(m.0, m.1, m.2, m.3) }
}

#[test]
fn address_is_in_subnet() {
    let a = route(192, 168, 0, 1, (255, 255, 255, 0));
    let b = Ipv4Address::new(192, 168, 0, 2);
    assert_eq!(a.reachable_from(&b), true)
}

#[test]
fn address_is_in_subnet_wider_mask() {
    let a = route(192, 168, 0, 1, (255, 255, 0, 0));
    let b = Ipv4Address::new(192, 168, 0, 2);
    assert_eq!(a.reachable_from(&b), true)
}

#[test]
fn address_is_in_subnet_wider_mask2() {
    let a = route(192, 168, 100, 1, (255, 255, 0, 0));
    let b = Ipv4Address::new(192, 168, 0, 2);
    assert_eq!(a.reachable_from(&b), true)
}

#[test]
fn address_is_not_in_subnet() {
    let a = route(192, 168, 0, 1, (255, 255, 255, 0));
    let b = Ipv4Address::new(192, 168, 100, 2);
    assert_eq!(a.reachable_from(&b), false)
}

#[test]
fn insert_route_adds_new_route() {
    let mut router = Router::new();
    let address = route(192, 168, 0, 1, (255, 255, 255, 0));
    let endpoint_id = 1;
    router.insert_route(address, endpoint_id);
    assert_eq!(router.route_count(), 1);
}

#[test]
fn insert_route_does_not_add_duplicate_route() {
    let mut router = Router::new();
    let address = route(192, 168, 0, 1, (255, 255, 255, 0));
    let endpoint_id = 1;
    router.insert_route(address.clone(), endpoint_id);
    router.insert_route(address, endpoint_id);
    assert_eq!(router.route_count(), 1);
}

#[test]
fn lookup_returns_correct_endpoint() {
    let mut router = Router::new();
    let address = route(192, 168, 0, 1, (255, 255, 255, 0));
    let endpoint_id = 1;
    router.insert_route(address.clone(), endpoint_id);
    let result = router.lookup(&Ipv4Address::new(192, 168, 0, 5));
    assert_eq!(result, vec![endpoint_id]);
}

#[test]
fn lookup_returns_empty_vector_for_unknown_address() {
    let router = Router::new();
    let result = router.lookup(&Ipv4Address::new(192, 168, 0, 5));
    assert_eq!(result, Vec::<EndpointId>::new());
}

#[test]
fn lookup_returns_multiple_endpoints_for_same_address() {
    let mut router = Router::new();
    let address = route(192, 168, 0, 1, (255, 255, 255, 0));
    let endpoint_id1 = 1;
    let endpoint_id2 = 2;
    router.insert_route(address.clone(), endpoint_id1);
    router.insert_route(address.clone(), endpoint_id2);
    let result = router.lookup(&Ipv4Address::new(192, 168, 0, 5));
    assert_eq!(result, vec![endpoint_id1, endpoint_id2]);
}

#[test]
fn insert_and_route_to_subnet() {
    let mut router = Router::new();
    let subnet_address = route(192, 168, 0, 0, (255, 255, 0, 0));
    let endpoint_id = 1;
    router.insert_route(subnet_address.clone(), endpoint_id);
    let result = router.lookup(&Ipv4Address::new(192, 168, 0, 5));
    assert_eq!(result, vec![endpoint_id]);
}

#[test]
fn insert_and_route_to_subnet_with_multiple_endpoints() {
    let mut router = Router::new();
    let subnet_address = route(192, 168, 0, 1, (255, 255, 0, 0));
    let endpoint_id1 = 1;
    let endpoint_id2 = 2;
    router.insert_route(subnet_address.clone(), endpoint_id1);
    router.insert_route(subnet_address.clone(), endpoint_id2);
    let result = router.lookup(&Ipv4Address::new(192, 168, 0, 5));
    assert_eq!(result, vec![endpoint_id1, endpoint_id2]);
}

#[test]
fn insert_and_route_to_subnet_with_no_matching_endpoint() {
    let mut router = Router::new();
    let subnet_address = route(192, 168, 100, 0, (255, 255, 255, 0));
    let endpoint_id = 1;
    router.insert_route(subnet_address, endpoint_id);
    let result = router.lookup(&Ipv4Address::new(192, 168, 0, 5));
    assert_eq!(result, Vec::<EndpointId>::new());
}

#[test]
fn ipv4_address_value_is_big_endian() {
    assert_eq!(Ipv4Address::new(192, 168, 0, 1).bits, 0xC0A8_0001);
    assert_eq!(Ipv4Address::unspecified().bits, 0);
}

#[test]
fn network_address_clears_host_bits() {
    let r = route(192, 168, 7, 9, (255, 255, 255, 0));
    assert_eq!(r.calculate_network_address(), Ipv4Address::new(192, 168, 7, 0));
}

#[test]
fn default_route_moves_to_the_end() {
    let mut router = Router::new();
    let default_route = route(0, 0, 0, 0, (0, 0, 0, 0));
    router.insert_route(default_route, 9);
    router.insert_route(route(10, 0, 0, 0, (255, 0, 0, 0)), 3);
    let table = router.routes();
    assert_eq!(table.len(), 2);
    assert_eq!(table[0].endpoint_id, 3);
    assert_eq!(table[1].endpoint_id, 9);
    // The specific route is listed first, the default after it.
    assert_eq!(router.lookup(&Ipv4Address::new(10, 1, 2, 3)), vec![3, 9]);
    assert_eq!(router.lookup(&Ipv4Address::new(8, 8, 8, 8)), vec![9]);
}

#[test]
fn removed_endpoint_is_no_longer_found() {
    let mut router = Router::new();
    let net = route(192, 168, 0, 0, (255, 255, 0, 0));
    router.insert_route(net, 1);
    router.insert_route(net, 2);
    router.insert_route(route(10, 0, 0, 0, (255, 0, 0, 0)), 1);
    router.remove_route_to_endpoint(1);
    assert_eq!(router.route_count(), 1);
    assert_eq!(router.lookup(&Ipv4Address::new(192, 168, 3, 4)), vec![2]);
    assert_eq!(router.lookup(&Ipv4Address::new(10, 3, 4, 5)), Vec::<EndpointId>::new());
}

#[test]
fn same_endpoint_through_two_routes_is_listed_once() {
    let mut router = Router::new();
    router.insert_route(route(192, 168, 0, 0, (255, 255, 0, 0)), 4);
    router.insert_route(route(192, 168, 1, 0, (255, 255, 255, 0)), 4);
    assert_eq!(router.lookup(&Ipv4Address::new(192, 168, 1, 1)), vec![4]);
}
