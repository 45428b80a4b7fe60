use mycelium::babel::{SeqNoRequest, Tlv, Update};
use mycelium::crypto::{PublicKey, SharedSecret};
use mycelium::filters::{AllowedSubnet, MaxSubnetSize, RouteUpdateFilter};
use mycelium::metric::Metric;
use mycelium::peer::Peer;
use mycelium::reactions::PacketRoute;
use mycelium::router::{Outcome, Router};
use mycelium::router_id::RouterId;
use mycelium::router_state::{RouterOpLogEntry, StaticRoute};
use mycelium::timers::TimerRequest;
use mycelium::routing_table::{RouteExpirationType, RouteKey};
use mycelium::sequence_number::SeqNo;
use mycelium::source_table::{FeasibilityDistance, SourceKey};
use mycelium::subnet::Subnet;

const LOCAL_PREFIX: u128 = 0x0300_0000_0000_0000_0000_0000_0000_0000;
const REMOTE_PREFIX: u128 = 0x0400_0000_0000_0000_0000_0000_0000_0000;

fn local_key() -> PublicKey {
    PublicKey::new(1, 1)
}

fn remote_id() -> RouterId {
    RouterId::new(PublicKey::new(7, 7))
}

fn secret() -> SharedSecret {
    SharedSecret::new(9, 9)
}

fn remote_subnet() -> Subnet {
    Subnet::new(REMOTE_PREFIX, 64).unwrap()
}

fn peer(n: u128) -> Peer {
    Peer::new(0x0a00_0000 + n, 0x0500_0000_0000_0000_0000_0000_0000_0000 + (n << 64) + 1)
}

fn router_with(peers: &[Peer], link_cost: u16) -> Router {
    let tun = Subnet::new(LOCAL_PREFIX, 64).unwrap();
    let mut router = Router::new(tun, vec![StaticRoute::new(tun)], local_key(), Vec::new(), 0);
    for p in peers {
        router.add_peer_interface(*p, link_cost, 0);
    }
    router
}

fn update(seqno: u16, metric: u16) -> Update {
    Update::new(16, SeqNo::new(seqno), Metric::new(metric), remote_subnet(), remote_id())
}

fn updates_in(out: &Outcome) -> Vec<(Peer, Update)> {
    let mut found = Vec::new();
    for (to, packet) in out.packets.iter() {
        if let Tlv::Update(u) = packet {
            found.push((*to, *u));
        }
    }
    found
}

fn acquired(link_cost: u16) -> (Router, Peer, Peer, Outcome) {
    let p = peer(1);
    let q = peer(2);
    let mut router = router_with(&[p, q], link_cost);
    let out = router.handle_incoming_update(update(1, 10), p, secret());
    (router, p, q, out)
}

#[test]
fn route_acquisition() {
    let (router, p, q, out) = acquired(0);
    let entry = router
        .inner()
        .routing_table()
        .get(&RouteKey::new(remote_subnet(), p))
        .expect("the route exists");
    assert!(entry.selected());
    assert_eq!(entry.metric(), Metric::new(10));
    assert_eq!(entry.seqno(), SeqNo::new(1));
    assert_eq!(entry.source(), SourceKey::new(remote_subnet(), remote_id()));
    assert_eq!(
        router.inner().source_table().get(&SourceKey::new(remote_subnet(), remote_id())),
        Some(FeasibilityDistance::new(Metric::new(10), SeqNo::new(1)))
    );
    assert_eq!(updates_in(&out), vec![(q, update(1, 10))]);
    assert_eq!(out.packets.len(), 1);
    assert_eq!(router.select_best_route(REMOTE_PREFIX + 5), Some(entry));
}

#[test]
fn route_acquisition_adds_the_link_cost() {
    let (router, _p, q, out) = acquired(7);
    assert_eq!(updates_in(&out), vec![(q, update(1, 17))]);
    assert_eq!(
        router.inner().source_table().get(&SourceKey::new(remote_subnet(), remote_id())),
        Some(FeasibilityDistance::new(Metric::new(17), SeqNo::new(1)))
    );
}

#[test]
fn route_acquisition_logs_its_operations() {
    let (_router, p, _q, out) = acquired(0);
    let key = RouteKey::new(remote_subnet(), p);
    assert_eq!(out.ops.len(), 4);
    assert!(matches!(out.ops[0], RouterOpLogEntry::AddDestPubkey(s, k, ss)
        if s == remote_subnet() && k == remote_id().to_pubkey() && ss == secret()));
    assert!(matches!(out.ops[1], RouterOpLogEntry::InsertRoute(k, e) if k == key && !e.selected()));
    assert!(matches!(out.ops[2], RouterOpLogEntry::SelectRoute(k) if k == key));
    assert!(matches!(out.ops[3], RouterOpLogEntry::InsertSourceEntry(k, d)
        if k == SourceKey::new(remote_subnet(), remote_id())
            && d == FeasibilityDistance::new(Metric::new(10), SeqNo::new(1))));
    assert_eq!(
        out.timers,
        vec![
            TimerRequest::Route(key, RouteExpirationType::Retract),
            TimerRequest::Source(SourceKey::new(remote_subnet(), remote_id())),
        ]
    );
}

#[test]
fn unfeasible_update_to_selected_route() {
    let (mut router, p, _q, _) = acquired(0);
    let before = router.inner().routing_table().iter();
    let out = router.handle_incoming_update(update(1, 20), p, secret());
    assert_eq!(router.inner().routing_table().iter(), before);
    assert_eq!(
        out.packets,
        vec![(
            p,
            Tlv::SeqNoRequest(SeqNoRequest::new(SeqNo::new(2), remote_id(), remote_subnet()))
        )]
    );
    assert_eq!(out.ops.len(), 1);
    assert!(matches!(out.ops[0], RouterOpLogEntry::AddDestPubkey(..)));
}

#[test]
fn better_metric_from_same_neighbour() {
    let (mut router, p, q, _) = acquired(0);
    let out = router.handle_incoming_update(update(2, 5), p, secret());
    let entry = router.inner().routing_table().get(&RouteKey::new(remote_subnet(), p)).unwrap();
    assert_eq!((entry.metric(), entry.seqno()), (Metric::new(5), SeqNo::new(2)));
    assert!(entry.selected());
    assert_eq!(
        router.inner().source_table().get(&SourceKey::new(remote_subnet(), remote_id())),
        Some(FeasibilityDistance::new(Metric::new(5), SeqNo::new(2)))
    );
    assert_eq!(updates_in(&out), vec![(q, update(2, 5))]);
}

#[test]
fn small_metric_change() {
    let (mut router, p, _q, _) = acquired(0);
    let out = router.handle_incoming_update(update(1, 9), p, secret());
    let entry = router.inner().routing_table().get(&RouteKey::new(remote_subnet(), p)).unwrap();
    assert_eq!((entry.metric(), entry.seqno()), (Metric::new(9), SeqNo::new(1)));
    assert!(entry.selected());
    assert!(out.packets.is_empty());
}

#[test]
fn peer_death() {
    let p = peer(1);
    let q = peer(2);
    let mut router = router_with(&[p, q], 1);
    router.handle_incoming_update(update(1, 10), p, secret());
    router.handle_incoming_ihu(q, 5_000);
    let early = router.check_for_dead_peers(8_000);
    assert!(early.ops.is_empty() && early.packets.is_empty());
    let out = router.check_for_dead_peers(9_000);
    assert_eq!(router.peer_interfaces(), vec![q]);
    assert!(router.inner().routing_table().iter().is_empty());
    assert_eq!(router.select_best_route(REMOTE_PREFIX + 5), None);
    let retraction = Update::new(
        16,
        SeqNo::new(0),
        Metric::infinite(),
        Subnet::new(p.overlay_ip(), 64).unwrap(),
        RouterId::new(local_key()),
    );
    assert_eq!(out.packets, vec![(q, Tlv::Update(retraction))]);
    assert!(matches!(out.ops[..], [RouterOpLogEntry::RemovePeer(dead)] if dead == p));
}

#[test]
fn seqno_request_forwarding() {
    let q = peer(2);
    let s = peer(3);
    let mut router = router_with(&[q, s], 1);
    router.handle_incoming_update(update(4, 10), s, secret());
    let request = SeqNoRequest {
        seqno: SeqNo::new(5),
        router_id: remote_id(),
        prefix: remote_subnet(),
        hop_count: 3,
    };
    let out = router.handle_incoming_seqno_request(request, q, 100);
    let forwarded = SeqNoRequest { hop_count: 2, ..request };
    assert_eq!(out.packets, vec![(s, Tlv::SeqNoRequest(forwarded))]);
    assert!(out.ops.is_empty());
}

#[test]
fn seqno_request_with_one_hop_left_is_not_forwarded() {
    let q = peer(2);
    let s = peer(3);
    let mut router = router_with(&[q, s], 1);
    router.handle_incoming_update(update(4, 10), s, secret());
    let request = SeqNoRequest {
        seqno: SeqNo::new(5),
        router_id: remote_id(),
        prefix: remote_subnet(),
        hop_count: 1,
    };
    let out = router.handle_incoming_seqno_request(request, q, 100);
    assert!(out.packets.is_empty());
}

#[test]
fn seqno_request_for_known_seqno_is_answered() {
    let q = peer(2);
    let s = peer(3);
    let mut router = router_with(&[q, s], 3);
    router.handle_incoming_update(update(4, 10), s, secret());
    let request = SeqNoRequest::new(SeqNo::new(4), remote_id(), remote_subnet());
    let out = router.handle_incoming_seqno_request(request, q, 100);
    assert_eq!(out.packets, vec![(q, Tlv::Update(update(4, 13)))]);
}

#[test]
fn seqno_bump_is_rate_limited() {
    let q = peer(2);
    let mut router = router_with(&[q], 1);
    let own = Subnet::new(LOCAL_PREFIX, 64).unwrap();
    let request = SeqNoRequest::new(SeqNo::new(1), RouterId::new(local_key()), own);
    let early = router.handle_incoming_seqno_request(request, q, 3_999);
    assert!(early.ops.is_empty() && early.packets.is_empty());
    assert_eq!(router.inner().router_seqno(), SeqNo::new(0));
    let out = router.handle_incoming_seqno_request(request, q, 4_000);
    assert_eq!(router.inner().router_seqno(), SeqNo::new(1));
    assert_eq!(router.inner().last_seqno_bump(), 4_000);
    let announce =
        Update::new(16, SeqNo::new(1), Metric::new(0), own, RouterId::new(local_key()));
    assert_eq!(out.packets, vec![(q, Tlv::Update(announce))]);
    let again = SeqNoRequest::new(SeqNo::new(2), RouterId::new(local_key()), own);
    let second = router.handle_incoming_seqno_request(again, q, 5_000);
    assert!(second.ops.is_empty() && second.packets.is_empty());
    assert_eq!(router.inner().router_seqno(), SeqNo::new(1));
}

#[test]
fn filter_rejected_update_changes_nothing() {
    let p = peer(1);
    let tun = Subnet::new(LOCAL_PREFIX, 64).unwrap();
    let filters: Vec<Box<dyn RouteUpdateFilter>> = vec![
        Box::new(MaxSubnetSize::<64>),
        Box::new(AllowedSubnet::new(Subnet::new(LOCAL_PREFIX, 8).unwrap())),
    ];
    let mut router = Router::new(tun, Vec::new(), local_key(), filters, 0);
    router.add_peer_interface(p, 1, 0);
    let out = router.handle_incoming_update(update(1, 10), p, secret());
    assert!(out.ops.is_empty() && out.packets.is_empty() && out.timers.is_empty());
    assert!(router.inner().routing_table().iter().is_empty());
    assert_eq!(router.get_pubkey(REMOTE_PREFIX + 1), None);
}

#[test]
fn retraction_for_unknown_route_is_dropped() {
    let p = peer(1);
    let mut router = router_with(&[p, peer(2)], 1);
    let out = router.handle_incoming_update(update(1, 0xFFFF), p, secret());
    assert!(out.packets.is_empty());
    assert_eq!(out.ops.len(), 1);
    assert!(router.inner().routing_table().iter().is_empty());
    assert!(router.inner().source_table().entries().is_empty());
    assert_eq!(router.get_pubkey(REMOTE_PREFIX + 1), Some(remote_id().to_pubkey()));
    assert_eq!(router.get_shared_secret_from_dest(REMOTE_PREFIX + 1), Some(secret()));
}

#[test]
fn retraction_of_selected_route_is_broadcast() {
    let (mut router, p, q, _) = acquired(1);
    let out = router.handle_incoming_update(update(1, 0xFFFF), p, secret());
    let entry = router.inner().routing_table().get(&RouteKey::new(remote_subnet(), p)).unwrap();
    assert!(entry.metric().is_infinite());
    assert_eq!(router.select_best_route(REMOTE_PREFIX + 5), None);
    let retraction =
        Update::new(16, SeqNo::new(0), Metric::infinite(), remote_subnet(), remote_id());
    assert_eq!(out.packets, vec![(p, Tlv::Update(retraction)), (q, Tlv::Update(retraction))]);
}

#[test]
fn update_for_static_route_is_ignored() {
    let p = peer(1);
    let mut router = router_with(&[p, peer(2)], 1);
    let own = Subnet::new(LOCAL_PREFIX, 64).unwrap();
    let u = Update::new(16, SeqNo::new(1), Metric::new(3), own, remote_id());
    let out = router.handle_incoming_update(u, p, secret());
    assert!(out.packets.is_empty());
    assert!(router.inner().routing_table().iter().is_empty());
}

#[test]
fn same_update_twice_changes_nothing_more() {
    let (mut router, p, _q, _) = acquired(1);
    let routes = router.inner().routing_table().iter();
    let sources = router.inner().source_table().entries();
    let out = router.handle_incoming_update(update(1, 10), p, secret());
    assert_eq!(router.inner().routing_table().iter(), routes);
    assert_eq!(router.inner().source_table().entries(), sources);
    assert!(out.packets.is_empty());
}

#[test]
fn hello_and_ihu_set_the_link_cost() {
    let p = peer(1);
    let mut router = router_with(&[p], 0);
    let hellos = router.send_hellos(1_000);
    assert_eq!(hellos.packets.len(), 1);
    assert!(matches!(hellos.packets[0], (to, Tlv::Hello(h)) if to == p && h.interval() == 4));
    router.handle_incoming_ihu(p, 1_042);
    assert_eq!(router.inner().link_cost(&p), Metric::new(42));
    router.handle_incoming_ihu(p, 100_000);
    assert_eq!(router.inner().link_cost(&p), Metric::new(0xFFFF));
    let reply = router.handle_incoming_hello(p, 100_000);
    assert!(matches!(reply.packets[..], [(to, Tlv::Ihu(i))]
        if to == p && i.interval() == 12 && i.address() == p.overlay_ip()));
}

#[test]
fn expiry_retracts_and_then_removes() {
    let (mut router, p, q, _) = acquired(1);
    let key = RouteKey::new(remote_subnet(), p);
    let out = router.process_expired_route_keys(key, RouteExpirationType::Retract);
    let entry = router.inner().routing_table().get(&key).unwrap();
    assert!(entry.metric().is_infinite());
    assert_eq!(entry.seqno(), SeqNo::new(1));
    assert_eq!(out.timers, vec![TimerRequest::Route(key, RouteExpirationType::Remove)]);
    let retraction = Update::new(
        16,
        SeqNo::new(0),
        Metric::infinite(),
        remote_subnet(),
        RouterId::new(local_key()),
    );
    assert_eq!(out.packets, vec![(p, Tlv::Update(retraction)), (q, Tlv::Update(retraction))]);
    let again = router.process_expired_route_keys(key, RouteExpirationType::Retract);
    assert!(again.ops.is_empty());
    router.process_expired_route_keys(key, RouteExpirationType::Remove);
    assert_eq!(router.inner().routing_table().get(&key), None);
    assert!(router.inner().routing_table().iter().is_empty());
}

#[test]
fn expired_source_is_forgotten() {
    let (mut router, _p, _q, _) = acquired(1);
    let key = SourceKey::new(remote_subnet(), remote_id());
    assert!(router.inner().source_table().get(&key).is_some());
    router.process_expired_source_keys(key);
    assert_eq!(router.inner().source_table().get(&key), None);
}

#[test]
fn packets_are_routed() {
    let (router, p, _q, _) = acquired(1);
    assert_eq!(router.route_packet(LOCAL_PREFIX + 9), PacketRoute::Local);
    assert_eq!(router.route_packet(REMOTE_PREFIX + 9), PacketRoute::Forward(p));
    assert_eq!(router.route_packet(0x0600 << 112), PacketRoute::Unroutable);
}

#[test]
fn periodic_propagation_uses_split_horizon() {
    let (mut router, _p, q, _) = acquired(2);
    let out = router.propagate_selected_routes();
    assert_eq!(updates_in(&out), vec![(q, update(1, 12))]);
    let statics = router.propagate_static_route();
    assert_eq!(statics.packets.len(), 2);
    let own = Subnet::new(LOCAL_PREFIX, 64).unwrap();
    for (_, packet) in statics.packets.iter() {
        assert_eq!(
            *packet,
            Tlv::Update(Update::new(
                16,
                SeqNo::new(0),
                Metric::new(0),
                own,
                RouterId::new(local_key())
            ))
        );
    }
}

#[test]
fn selected_routes_stay_feasible() {
    let (mut router, p, q, _) = acquired(3);
    let check = |router: &Router| {
        for (_, entry) in router.inner().selected_routes() {
            assert!(
                entry.metric().is_infinite() || router.inner().source_table().route_feasible(&entry)
            );
        }
    };
    check(&router);
    router.handle_incoming_update(update(1, 30), q, secret());
    check(&router);
    router.handle_incoming_update(update(2, 8), q, secret());
    check(&router);
    router.propagate_selected_routes();
    check(&router);
    router.handle_incoming_update(update(2, 0xFFFF), q, secret());
    check(&router);
    router.handle_incoming_update(update(2, 40), p, secret());
    check(&router);
    let request = SeqNoRequest::new(SeqNo::new(1), remote_id(), remote_subnet());
    router.handle_incoming_seqno_request(request, q, 10);
    check(&router);
    assert_eq!(router.inner().selected_routes().len(), 1);
    assert_eq!(router.inner().fallback_routes().len(), 1);
}

#[test]
fn at_most_one_route_is_selected_and_it_stands_in_front() {
    let (mut router, p, q, _) = acquired(3);
    router.handle_incoming_update(update(1, 5), q, secret());
    router.handle_incoming_update(update(3, 2), p, secret());
    router.handle_incoming_update(update(3, 1), q, secret());
    let list = router.inner().routing_table().entries(remote_subnet());
    assert_eq!(list.len(), 2);
    assert!(list[0].selected());
    assert!(!list[1].selected());
    assert_eq!(*list[0].neighbour(), q);
}

#[test]
fn routes_go_through_known_peers_only() {
    let (mut router, p, q, _) = acquired(3);
    router.handle_incoming_update(update(1, 5), q, secret());
    router.check_for_dead_peers(20_000);
    assert!(router.peer_interfaces().is_empty());
    assert!(router.inner().routing_table().iter().is_empty());
    assert!(!router.peer_exists(p.underlay_ip()));
    let r = peer(5);
    router.add_peer_interface(r, 2, 20_000);
    router.handle_incoming_update(update(1, 5), r, secret());
    let peers = router.peer_interfaces();
    for (_, entry) in router.inner().routing_table().iter() {
        assert!(peers.contains(entry.neighbour()));
    }
    assert!(router.peer_exists(r.underlay_ip()));
}

#[test]
fn best_route_is_the_first_of_the_cheapest_feasible() {
    let (mut router, p, q, _) = acquired(3);
    router.handle_incoming_update(update(1, 10), q, secret());
    let list = router.inner().routing_table().entries(remote_subnet());
    assert_eq!(router.find_best_route(&list), Some(list[0]));
    assert_eq!(*list[0].neighbour(), p);
    assert_eq!(router.find_best_route(&Vec::new()), None);
    assert_eq!(router.find_all_routes(remote_subnet()), list);
    assert_eq!(Router::forward_to(&list, &p), Some(q));
    assert_eq!(Router::forward_to(&list[..1].to_vec(), &p), None);
    assert!(Router::is_big_change(&None, &Some(list[0])));
    assert!(!Router::is_big_change(&Some(list[0]), &Some(list[0])));
    assert!(router.has_static_route(Subnet::new(LOCAL_PREFIX, 64).unwrap()));
    assert!(!router.has_static_route(remote_subnet()));
    assert_eq!(router.dead_peers(8_000), Vec::new());
    assert_eq!(router.dead_peers(8_001), vec![p, q]);
    assert_eq!(router.router_id(), RouterId::new(local_key()));
    assert_eq!(router.node_public_key(), local_key());
    assert_eq!(router.node_tun_subnet(), Subnet::new(LOCAL_PREFIX, 64).unwrap());
}
