use mycelium::babel::Update;
use mycelium::crypto::{PublicKey, SharedSecret};
use mycelium::filters::{passes_filters, AllowedSubnet, MaxSubnetSize, RouteUpdateFilter};
use mycelium::ip_pubkey::IpPubkeyMap;
use mycelium::metric::Metric;
use mycelium::peer::{clamp_cost, elapsed, Peer, PeerLink};
use mycelium::router_id::RouterId;
use mycelium::router_inner::RouterInner;
use mycelium::router_state::{RouterOpLogEntry, StaticRoute};
use mycelium::timers::TimerRequest;
use mycelium::routing_table::{RouteEntry, RouteExpirationType, RouteKey, RoutingTable};
use mycelium::sequence_number::SeqNo;
use mycelium::source_table::{FeasibilityDistance, SourceKey, SourceTable};
use mycelium::subnet::{mask_of, PrefixLenError, Subnet};

const NET: u128 = 0x2001_0db8_0000_0000_0000_0000_0000_0000;

fn subnet(address: u128, len: u8) -> Subnet {
    Subnet::new(address, len).unwrap()
}

fn id(n: u128) -> RouterId {
    RouterId::new(PublicKey::new(n, n))
}

fn peer(n: u128) -> Peer {
    Peer::new(n, 0x0500 << 112 | n)
}

fn route(net: Subnet, via: Peer, metric: u16, seqno: u16, selected: bool) -> RouteEntry {
    RouteEntry::new(
        SourceKey::new(net, id(1)),
        via,
        Metric::new(metric),
        SeqNo::new(seqno),
        selected,
    )
}

#[test]
fn subnet_is_kept_in_network_form() {
    let s = subnet(NET + 0xdead_beef, 32);
    assert_eq!(s.address(), NET);
    assert_eq!(s.network(), NET);
    assert_eq!(s.prefix_len(), 32);
    assert_eq!(s.mask(), 0xffff_ffff_0000_0000_0000_0000_0000_0000);
    assert_eq!(subnet(NET + 5, 128).address(), NET + 5);
    assert_eq!(subnet(NET + 5, 0).address(), 0);
    assert_eq!(s, subnet(NET, 32));
}

#[test]
fn subnet_rejects_long_prefixes() {
    assert_eq!(Subnet::new(NET, 129), Err(PrefixLenError));
    assert_eq!(Subnet::new(NET, 255), Err(PrefixLenError));
    assert!(Subnet::new(NET, 128).is_ok());
}

#[test]
fn prefix_masks() {
    assert_eq!(mask_of(0), 0);
    assert_eq!(mask_of(1), 1 << 127);
    assert_eq!(mask_of(64), 0xffff_ffff_ffff_ffff_0000_0000_0000_0000);
    assert_eq!(mask_of(127), u128::MAX - 1);
    assert_eq!(mask_of(128), u128::MAX);
    assert_eq!(mask_of(200), u128::MAX);
}

#[test]
fn subnet_containment() {
    let wide = subnet(NET, 32);
    let narrow = subnet(NET + (7 << 64), 64);
    let other = subnet(NET + (1 << 100), 64);
    assert!(wide.contains_subnet(&narrow));
    assert!(wide.contains_subnet(&wide));
    assert!(!narrow.contains_subnet(&wide));
    assert!(!wide.contains_subnet(&other));
    assert!(wide.contains_ip(NET + 12345));
    assert!(!wide.contains_ip(NET + (1 << 96)));
    assert!(narrow.contains_ip(NET + (7 << 64) + 9));
    assert!(subnet(0, 0).contains_subnet(&other));
}

#[test]
fn subnet_order_is_by_address_then_length() {
    assert!(subnet(NET, 32).lt(&subnet(NET, 48)));
    assert!(subnet(NET, 64).lt(&subnet(NET + (1 << 64), 64)));
    assert!(!subnet(NET, 48).lt(&subnet(NET, 48)));
    assert!(!subnet(NET + (1 << 64), 64).lt(&subnet(NET, 128)));
}

#[test]
fn metric_arithmetic() {
    assert_eq!(Metric::new(3).add(Metric::new(4)), Metric::new(7));
    assert_eq!(Metric::new(0xFFFE).add(Metric::new(1)), Metric::infinite());
    assert_eq!(Metric::new(0xFFFE).add(Metric::new(0)), Metric::new(0xFFFE));
    assert_eq!(Metric::infinite().add(Metric::new(9)), Metric::infinite());
    assert_eq!(Metric::new(3).delta(&Metric::new(10)), Metric::new(7));
    assert_eq!(Metric::new(10).delta(&Metric::new(3)), Metric::new(7));
    assert_eq!(Metric::infinite().delta(&Metric::new(0)), Metric::infinite());
    assert!(Metric::infinite().is_infinite());
    assert!(!Metric::new(0xFFFE).is_infinite());
    assert!(Metric::new(1).less_than(&Metric::new(2)));
    assert_eq!(Metric::new(77).value(), 77);
}

#[test]
fn seqno_comparison_is_modular() {
    assert!(SeqNo::new(0xFFFF).lt(&SeqNo::new(0)));
    assert!(SeqNo::new(0).gt(&SeqNo::new(0xFFFF)));
    assert!(SeqNo::new(1).lt(&SeqNo::new(2)));
    assert!(!SeqNo::new(2).lt(&SeqNo::new(1)));
    assert!(!SeqNo::new(5).lt(&SeqNo::new(5)));
    assert!(SeqNo::new(0).lt(&SeqNo::new(0x7FFF)));
    assert!(!SeqNo::new(0).lt(&SeqNo::new(0x8000)));
    assert!(!SeqNo::new(0x8000).lt(&SeqNo::new(0)));
    assert!(SeqNo::new(0x8001).lt(&SeqNo::new(0)));
    assert_eq!(SeqNo::new(0xFFFF).next(), SeqNo::new(0));
    assert_eq!(SeqNo::new(41).next(), SeqNo::new(42));
    assert_eq!(SeqNo::default(), SeqNo::new(0));
}

#[test]
fn link_cost_is_clamped() {
    assert_eq!(clamp_cost(0), 0);
    assert_eq!(clamp_cost(65_535), 65_535);
    assert_eq!(clamp_cost(65_536), 65_535);
    assert_eq!(clamp_cost(u64::MAX), 65_535);
    assert_eq!(elapsed(10, 3), 7);
    assert_eq!(elapsed(3, 10), 0);
    let mut link = PeerLink::new(peer(1), 5, 100);
    assert!(!link.silent_longer_than(8_100, 8_000));
    assert!(link.silent_longer_than(8_101, 8_000));
    link.set_link_cost(9);
    link.set_time_last_received_ihu(200);
    link.set_time_last_received_hello(150);
    assert_eq!(
        (link.link_cost(), link.time_last_received_hello(), link.time_last_received_ihu()),
        (9, 150, 200)
    );
    assert_eq!(link.peer(), peer(1));
}

#[test]
fn source_table_judges_feasibility() {
    let net = subnet(NET, 64);
    let key = SourceKey::new(net, id(1));
    let mut table = SourceTable::new();
    let update =
        |metric: u16, seqno: u16| Update::new(16, SeqNo::new(seqno), Metric::new(metric), net, id(1));
    assert!(table.is_update_feasible(&update(100, 1)));
    table.insert(key, FeasibilityDistance::new(Metric::new(10), SeqNo::new(5)));
    assert_eq!(table.get(&key), Some(FeasibilityDistance::new(Metric::new(10), SeqNo::new(5))));
    assert!(table.is_update_feasible(&update(100, 6)));
    assert!(table.is_update_feasible(&update(9, 5)));
    assert!(!table.is_update_feasible(&update(10, 5)));
    assert!(!table.is_update_feasible(&update(11, 5)));
    assert!(!table.is_update_feasible(&update(1, 4)));
    assert!(table.is_update_feasible(&update(0xFFFF, 4)));
    let other = Update::new(16, SeqNo::new(1), Metric::new(500), net, id(2));
    assert!(table.is_update_feasible(&other));
    assert!(table.route_feasible(&route(net, peer(1), 9, 5, false)));
    assert!(!table.route_feasible(&route(net, peer(1), 10, 5, true)));
    assert!(table.route_feasible(&route(net, peer(1), 0xFFFF, 1, true)));
    assert!(FeasibilityDistance::new(Metric::new(10), SeqNo::new(5))
        .improved_by(Metric::new(9), SeqNo::new(5)));
}

#[test]
fn source_table_insert_and_remove() {
    let net = subnet(NET, 64);
    let first = SourceKey::new(net, id(1));
    let second = SourceKey::new(net, id(2));
    let mut table = SourceTable::new();
    let fd = |m: u16, s: u16| FeasibilityDistance::new(Metric::new(m), SeqNo::new(s));
    table.insert(first, fd(1, 1));
    table.insert(second, fd(2, 2));
    table.insert(first, fd(3, 3));
    assert_eq!(table.get(&first), Some(fd(3, 3)));
    assert_eq!(table.entries().len(), 2);
    assert_eq!(table.remove(&first), Some(fd(3, 3)));
    assert_eq!(table.remove(&first), None);
    assert_eq!(table.get(&first), None);
    assert_eq!(table.entries(), vec![(second, fd(2, 2))]);
    assert_eq!(table.clone().entries(), table.entries());
    let mut key = first;
    key.set_router_id(id(9));
    assert_eq!((key.subnet(), key.router_id()), (net, id(9)));
}

#[test]
fn routing_table_insert_replaces_or_appends() {
    let net = subnet(NET, 64);
    let mut table = RoutingTable::new();
    let a = route(net, peer(1), 10, 1, false);
    let b = route(net, peer(2), 20, 1, false);
    table.insert(RouteKey::new(net, peer(1)), a);
    table.insert(RouteKey::new(net, peer(2)), b);
    assert_eq!(table.entries(net), vec![a, b]);
    let a2 = route(net, peer(1), 5, 2, false);
    table.insert(RouteKey::new(net, peer(1)), a2);
    assert_eq!(table.entries(net), vec![a2, b]);
    assert_eq!(table.get(&RouteKey::new(net, peer(2))), Some(b));
    assert_eq!(table.get(&RouteKey::new(net, peer(3))), None);
    assert_eq!(table.get(&RouteKey::new(subnet(NET, 48), peer(1))), None);
}

#[test]
fn selected_route_stands_in_front() {
    let net = subnet(NET, 64);
    let mut table = RoutingTable::new();
    let a = route(net, peer(1), 10, 1, false);
    let b = route(net, peer(2), 20, 1, false);
    let c = route(net, peer(3), 30, 1, true);
    table.insert(RouteKey::new(net, peer(1)), a);
    table.insert(RouteKey::new(net, peer(2)), b);
    table.insert(RouteKey::new(net, peer(3)), c);
    assert_eq!(table.entries(net), vec![c, b, a]);
    assert_eq!(table.lookup_selected(NET + 1), Some(c));
    table.select_route(&RouteKey::new(net, peer(2)));
    let list = table.entries(net);
    assert_eq!(list.iter().filter(|e| e.selected()).count(), 1);
    assert!(list[0].selected());
    assert_eq!(*list[0].neighbour(), peer(2));
    table.unselect_route(&RouteKey::new(net, peer(2)));
    assert!(table.entries(net).iter().all(|e| !e.selected()));
    assert_eq!(table.lookup_selected(NET + 1), None);
    table.select_route(&RouteKey::new(net, peer(9)));
    assert!(table.entries(net).iter().all(|e| !e.selected()));
}

#[test]
fn insert_then_remove_gives_the_table_back() {
    let net = subnet(NET, 64);
    let other = subnet(NET, 48);
    let mut table = RoutingTable::new();
    table.insert(RouteKey::new(net, peer(1)), route(net, peer(1), 10, 1, true));
    table.insert(RouteKey::new(net, peer(2)), route(net, peer(2), 20, 1, false));
    table.insert(RouteKey::new(other, peer(1)), route(other, peer(1), 7, 1, false));
    let before = table.iter();
    for selected in [false, true] {
        let key = RouteKey::new(net, peer(3));
        table.insert(key, route(net, peer(3), 1, 1, selected));
        assert_ne!(table.iter(), before);
        assert!(table.remove(&key).is_some());
        assert_eq!(table.iter(), before);
    }
    let fresh = RouteKey::new(subnet(NET, 96), peer(1));
    table.insert(fresh, route(fresh.subnet(), peer(1), 1, 1, true));
    assert_eq!(table.iter().len(), 4);
    table.remove(&fresh);
    assert_eq!(table.iter(), before);
    assert_eq!(table.remove(&fresh), None);
}

#[test]
fn removing_the_last_route_removes_the_prefix() {
    let net = subnet(NET, 64);
    let wide = subnet(NET, 32);
    let mut table = RoutingTable::new();
    table.insert(RouteKey::new(wide, peer(1)), route(wide, peer(1), 10, 1, true));
    table.insert(RouteKey::new(net, peer(2)), route(net, peer(2), 20, 1, true));
    assert_eq!(*table.lookup_selected(NET + 1).unwrap().neighbour(), peer(2));
    table.remove(&RouteKey::new(net, peer(2)));
    assert_eq!(*table.lookup_selected(NET + 1).unwrap().neighbour(), peer(1));
}

#[test]
fn remove_peer_drops_its_routes() {
    let net = subnet(NET, 64);
    let wide = subnet(NET, 32);
    let mut table = RoutingTable::new();
    table.insert(RouteKey::new(net, peer(1)), route(net, peer(1), 10, 1, true));
    table.insert(RouteKey::new(net, peer(2)), route(net, peer(2), 20, 1, false));
    table.insert(RouteKey::new(wide, peer(1)), route(wide, peer(1), 5, 1, false));
    table.remove_peer(peer(1));
    assert_eq!(
        table.iter(),
        vec![(RouteKey::new(net, peer(2)), route(net, peer(2), 20, 1, false))]
    );
    assert!(table.entries(wide).is_empty());
    table.remove_peer(peer(7));
    assert_eq!(table.iter().len(), 1);
}

#[test]
fn lookups_take_the_longest_prefix() {
    let wide = subnet(NET, 32);
    let narrow = subnet(NET, 64);
    let mut table = RoutingTable::new();
    let w = route(wide, peer(1), 10, 1, true);
    let n = route(narrow, peer(2), 20, 1, false);
    let n2 = route(narrow, peer(3), 30, 1, false);
    table.insert(RouteKey::new(wide, peer(1)), w);
    table.insert(RouteKey::new(narrow, peer(2)), n);
    table.insert(RouteKey::new(narrow, peer(3)), n2);
    assert_eq!(table.lookup_selected(NET + 1), None);
    assert_eq!(table.lookup_fallbacks(NET + 1), vec![n, n2]);
    assert_eq!(table.lookup_selected(NET + (1 << 64)), Some(w));
    assert!(table.lookup_fallbacks(NET + (1 << 64)).is_empty());
    assert_eq!(table.lookup_selected(1), None);
    assert!(table.lookup_fallbacks(1).is_empty());
    let retracted = route(narrow, peer(2), 0xFFFF, 1, true);
    table.insert(RouteKey::new(narrow, peer(2)), retracted);
    assert_eq!(table.lookup_selected(NET + 1), None);
    assert_eq!(table.lookup_fallbacks(NET + 1), vec![n2]);
}

#[test]
fn routes_are_changed_in_place() {
    let net = subnet(NET, 64);
    let key = RouteKey::new(net, peer(1));
    let mut table = RoutingTable::new();
    table.insert(key, route(net, peer(1), 10, 1, true));
    assert!(table.update_route(&key, SeqNo::new(4), Metric::new(3), id(8)));
    let entry = table.get(&key).unwrap();
    assert_eq!((entry.seqno(), entry.metric()), (SeqNo::new(4), Metric::new(3)));
    assert_eq!(entry.source(), SourceKey::new(net, id(8)));
    assert!(entry.selected());
    assert!(!table.update_route(&RouteKey::new(net, peer(2)), SeqNo::new(4), Metric::new(3), id(8)));
    if let Some(entry) = table.get_mut(&key) {
        entry.update_metric(Metric::new(99));
        entry.update_seqno(SeqNo::new(7));
        entry.update_router_id(id(3));
        entry.set_selected(false);
    }
    assert_eq!(
        table.get(&key),
        Some(RouteEntry::new(
            SourceKey::new(net, id(3)),
            peer(1),
            Metric::new(99),
            SeqNo::new(7),
            false
        ))
    );
    assert!(table.get_mut(&RouteKey::new(net, peer(5))).is_none());
    assert_eq!(table.clone().iter(), table.iter());
}

#[test]
fn route_keys_are_ordered() {
    let net = subnet(NET, 64);
    assert!(RouteKey::new(net, peer(1)).lt(&RouteKey::new(net, peer(2))));
    assert!(RouteKey::new(subnet(NET, 32), peer(9)).lt(&RouteKey::new(net, peer(1))));
    assert!(!RouteKey::new(net, peer(2)).lt(&RouteKey::new(net, peer(2))));
    assert_eq!(RouteKey::new(net, peer(2)).neighbour(), peer(2));
}

#[test]
fn destination_keys_are_found_by_longest_prefix() {
    let mut map = IpPubkeyMap::new();
    let wide = (PublicKey::new(1, 2), SharedSecret::new(3, 4));
    let narrow = (PublicKey::new(5, 6), SharedSecret::new(7, 8));
    assert_eq!(map.lookup(NET + 1), None);
    map.insert(subnet(NET, 32), wide.0, wide.1);
    map.insert(subnet(NET, 64), narrow.0, narrow.1);
    assert_eq!(map.lookup(NET + 1), Some(narrow));
    assert_eq!(map.lookup(NET + (1 << 70)), Some(wide));
    assert_eq!(map.lookup(1), None);
    map.insert(subnet(NET, 64), wide.0, wide.1);
    assert_eq!(map.lookup(NET + 1), Some(wide));
    assert_eq!(map.clone().lookup(NET + 1), Some(wide));
}

#[test]
fn filters_judge_updates() {
    let update = |net: Subnet| Update::new(16, SeqNo::new(1), Metric::new(1), net, id(1));
    let at_least_64 = MaxSubnetSize::<64>;
    assert!(at_least_64.allow(&update(subnet(NET, 64))));
    assert!(at_least_64.allow(&update(subnet(NET, 128))));
    assert!(!at_least_64.allow(&update(subnet(NET, 63))));
    let within = AllowedSubnet::new(subnet(NET, 32));
    assert!(within.allow(&update(subnet(NET, 64))));
    assert!(!within.allow(&update(subnet(NET, 16))));
    assert!(!within.allow(&update(subnet(NET + (1 << 100), 64))));
    let filters: Vec<Box<dyn RouteUpdateFilter>> =
        vec![Box::new(MaxSubnetSize::<48>), Box::new(AllowedSubnet::new(subnet(NET, 32)))];
    assert!(passes_filters(&filters, &update(subnet(NET, 64))));
    assert!(!passes_filters(&filters, &update(subnet(NET, 40))));
    assert!(!passes_filters(&filters, &update(subnet(1 << 120, 64))));
    assert!(passes_filters(&Vec::new(), &update(subnet(1 << 120, 1))));
}

#[test]
fn operations_change_the_state() {
    let net = subnet(NET, 64);
    let key = RouteKey::new(net, peer(1));
    let source = SourceKey::new(net, id(1));
    let mut inner = RouterInner::new(7);
    assert_eq!(inner.last_seqno_bump(), 7);
    assert_eq!(inner.absorb(&RouterOpLogEntry::AddPeer(PeerLink::new(peer(1), 3, 7))), None);
    assert_eq!(inner.absorb(&RouterOpLogEntry::AddPeer(PeerLink::new(peer(2), 4, 7))), None);
    assert!(inner.peer_exists(1) && inner.peer_exists(2) && !inner.peer_exists(3));
    assert_eq!(inner.peers(), vec![peer(1), peer(2)]);
    assert_eq!(
        inner.absorb(&RouterOpLogEntry::InsertRoute(key, route(net, peer(1), 10, 1, false))),
        Some(TimerRequest::Route(key, RouteExpirationType::Retract))
    );
    assert_eq!(inner.absorb(&RouterOpLogEntry::SelectRoute(key)), None);
    assert_eq!(inner.selected_route(net), Some(route(net, peer(1), 10, 1, true)));
    assert_eq!(
        inner.absorb(&RouterOpLogEntry::UpdateRouteEntry(
            key,
            SeqNo::new(1),
            Metric::infinite(),
            id(1)
        )),
        Some(TimerRequest::Route(key, RouteExpirationType::Remove))
    );
    assert_eq!(inner.selected_route(net), None);
    assert_eq!(
        inner.absorb(&RouterOpLogEntry::UpdateRouteEntry(
            RouteKey::new(net, peer(2)),
            SeqNo::new(1),
            Metric::new(1),
            id(1)
        )),
        None
    );
    let fd = FeasibilityDistance::new(Metric::new(10), SeqNo::new(1));
    assert_eq!(
        inner.absorb(&RouterOpLogEntry::InsertSourceEntry(source, fd)),
        Some(TimerRequest::Source(source))
    );
    assert_eq!(inner.source_table().get(&source), Some(fd));
    inner.absorb(&RouterOpLogEntry::RemoveSourceEntry(source));
    assert_eq!(inner.source_table().get(&source), None);
    inner.absorb(&RouterOpLogEntry::UnselectRoute(key));
    assert!(!inner.routing_table().get(&key).unwrap().selected());
    inner.absorb(&RouterOpLogEntry::RecordIhu(peer(1), 42, 99));
    inner.absorb(&RouterOpLogEntry::RecordHello(peer(1), 98));
    assert_eq!(
        inner.link(&peer(1)),
        Some(PeerLink {
            peer: peer(1),
            link_cost: 42,
            time_last_received_hello: 98,
            time_last_received_ihu: 99
        })
    );
    assert_eq!(inner.link_cost(&peer(1)), Metric::new(42));
    assert_eq!(inner.link_cost(&peer(9)), Metric::new(0));
    inner.absorb(&RouterOpLogEntry::SetStaticRoutes(vec![StaticRoute::new(net)]));
    assert_eq!(inner.static_routes().len(), 1);
    assert_eq!(inner.static_routes()[0].subnet(), net);
    inner.absorb(&RouterOpLogEntry::AddDestPubkey(net, PublicKey::new(1, 1), SharedSecret::new(2, 2)));
    assert!(inner.dest_pubkey_map().lookup(NET + 3).is_some());
    let copy = inner.clone();
    inner.absorb(&RouterOpLogEntry::RemovePeer(peer(1)));
    assert_eq!(inner.peers(), vec![peer(2)]);
    assert!(inner.routing_table().iter().is_empty());
    assert_eq!(copy.peers(), vec![peer(1), peer(2)]);
    assert_eq!(copy.routing_table().iter().len(), 1);
    inner.absorb(&RouterOpLogEntry::RemoveRoute(key));
    assert!(inner.routing_table().iter().is_empty());
}

#[test]
fn sequence_number_only_moves_on() {
    let mut inner = RouterInner::new(0);
    let mut last = inner.router_seqno();
    for step in 0..70_000u64 {
        inner.absorb(&RouterOpLogEntry::BumpSequenceNumber(step));
        let now = inner.router_seqno();
        assert!(last.lt(&now));
        assert_eq!(now, last.next());
        last = now;
    }
    assert_eq!(inner.router_seqno(), SeqNo::new((70_000u64 % 65_536) as u16));
    assert_eq!(inner.last_seqno_bump(), 69_999);
}
