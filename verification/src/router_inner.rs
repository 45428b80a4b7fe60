//! The state that the router keeps, the operations that change it, and the
//! plans for announcing routes.

use vstd::prelude::*;
use crate::babel::{ControlPacket, Tlv, Update};

use crate::ip_pubkey::IpPubkeyMap;
use crate::metric::Metric;
use crate::peer::{Peer, PeerLink};
use crate::propagation::{
    has_link, is_first_link, lemma_source_ops_only, link_cost_of, link_of, only_source_ops,
    reached_at, retraction, routes_updates, selected_updates, sending, source_op, source_ops,
    static_updates, to_peers_except, update_packets, Reaction, UPDATE_INTERVAL,
};
use crate::reactions::PacketRoute;
use crate::route_lists::{
    all_routes, entries_of, lemma_refreshed_route, lists_wf, marked_routes, selected_of,
};
use crate::router_id::RouterId;
use crate::router_state::{
    with_hello, with_ihu, without_links, RouterOpLogEntry, RouterState, StaticRoute,
};
use crate::timers::TimerRequest;
use crate::routing_table::{RouteEntry, RouteKey, RoutingTable};
use crate::sequence_number::SeqNo;
use crate::source_table::{FeasibilityDistance, SourceKey, SourceTable};
use crate::subnet::Subnet;

verus! {

/// The state of the router: what the log of operations acts on.
pub struct RouterInner {
    peer_interfaces: Vec<PeerLink>,
    routing_table: RoutingTable,
    source_table: SourceTable,
    router_seqno: SeqNo,
    last_seqno_bump: u64,
    static_routes: Vec<StaticRoute>,
    dest_pubkey_map: IpPubkeyMap,
}

impl View for RouterInner {
    type V = RouterState;

    closed spec fn view(&self) -> RouterState {
        RouterState {
            peers: self.peer_interfaces@,
            routes: self.routing_table@,
            sources: self.source_table@,
            router_seqno: self.router_seqno,
            last_seqno_bump: self.last_seqno_bump,
            static_routes: self.static_routes@,
            dest_keys: self.dest_pubkey_map@,
        }
    }
}

/// A copy of `routes`.
fn copy_static_routes(routes: &Vec<StaticRoute>) -> (r: Vec<StaticRoute>)
    ensures
        r@ == routes@,
{
    let mut r: Vec<StaticRoute> = Vec::new();
    let mut i: usize = 0;
    while i < routes.len()
        invariant
            i <= routes@.len(),
            r@ == routes@.take(i as int),
        decreases routes@.len() - i,
    {
        r.push(routes[i]);
        assert(routes@.take(i as int).push(routes@[i as int]) =~= routes@.take(i + 1));
        i += 1;
    }
    assert(routes@.take(i as int) =~= routes@);
    r
}

/// A copy of `links`.
fn copy_links(links: &Vec<PeerLink>) -> (r: Vec<PeerLink>)
    ensures
        r@ == links@,
{
    let mut r: Vec<PeerLink> = Vec::new();
    let mut i: usize = 0;
    while i < links.len()
        invariant
            i <= links@.len(),
            r@ == links@.take(i as int),
        decreases links@.len() - i,
    {
        r.push(links[i]);
        assert(links@.take(i as int).push(links@[i as int]) =~= links@.take(i + 1));
        i += 1;
    }
    assert(links@.take(i as int) =~= links@);
    r
}

/// What the router is to do: the operations to apply to its state and the
/// packets to send, each in their order.
pub struct Plan {
    pub ops: Vec<RouterOpLogEntry>,
    pub packets: Vec<(Peer, ControlPacket)>,
}

impl View for Plan {
    type V = Reaction;

    open spec fn view(&self) -> Reaction {
        Reaction { ops: self.ops@, packets: self.packets@ }
    }
}

impl RouterInner {
    /// Whether the state is well formed: its tables are. Every state that this
    /// module hands out is.
    pub closed spec fn wf(&self) -> bool {
        &&& self.routing_table.wf()
        &&& self.source_table.wf()
        &&& self.dest_pubkey_map.wf()
    }

    /// The routing table of a well-formed state is a proper table.
    pub proof fn lemma_wf(&self)
        requires
            self.wf(),
        ensures
            lists_wf(self@.routes),
    {
    }

    /// The state of a router that has just started at `now`: no neighbours, no
    /// routes, the sequence number zero.
    pub fn new(now: u64) -> (inner: RouterInner)
        ensures
            inner.wf(),
            inner@ == (RouterState {
                peers: Seq::empty(),
                routes: Seq::empty(),
                sources: Map::empty(),
                router_seqno: SeqNo(0),
                last_seqno_bump: now,
                static_routes: Seq::empty(),
                dest_keys: Map::empty(),
            }),
    {
        RouterInner {
            peer_interfaces: Vec::new(),
            routing_table: RoutingTable::new(),
            source_table: SourceTable::new(),
            router_seqno: SeqNo::default(),
            last_seqno_bump: now,
            static_routes: Vec::new(),
            dest_pubkey_map: IpPubkeyMap::new(),
        }
    }

    /// Removes the links to `peer`.
    fn remove_peer_interface(&mut self, peer: Peer)
        ensures
            final(self).peer_interfaces@ == without_links(old(self).peer_interfaces@, peer),
            final(self).routing_table == old(self).routing_table,
            final(self).source_table == old(self).source_table,
            final(self).router_seqno == old(self).router_seqno,
            final(self).last_seqno_bump == old(self).last_seqno_bump,
            final(self).static_routes == old(self).static_routes,
            final(self).dest_pubkey_map == old(self).dest_pubkey_map,
    {
        let mut kept: Vec<PeerLink> = Vec::new();
        let mut i: usize = 0;
        assert(self.peer_interfaces@.take(0) =~= Seq::<PeerLink>::empty());
        while i < self.peer_interfaces.len()
            invariant
                i <= self.peer_interfaces@.len(),
                kept@ == without_links(self.peer_interfaces@.take(i as int), peer),
            decreases self.peer_interfaces@.len() - i,
        {
            assert(self.peer_interfaces@.take(i + 1).drop_last() =~= self.peer_interfaces@.take(
                i as int,
            ));
            if self.peer_interfaces[i].peer != peer {
                kept.push(self.peer_interfaces[i]);
            }
            i += 1;
        }
        assert(self.peer_interfaces@.take(i as int) =~= self.peer_interfaces@);
        self.peer_interfaces = kept;
    }

    /// Applies one operation of the log. The result is the timer that the caller
    /// is to start on account of it, if any.
    pub fn absorb(&mut self, op: &RouterOpLogEntry) -> (timer: Option<TimerRequest>)
        requires
            old(self).wf(),
        ensures
            final(self).wf(),
            final(self)@ == old(self)@.apply(*op),
            timer == old(self)@.timer_of(*op),
    {
        match op {
            RouterOpLogEntry::AddDestPubkey(subnet, public_key, shared_secret) => {
                self.dest_pubkey_map.insert(*subnet, *public_key, *shared_secret);
                None
            },
            RouterOpLogEntry::AddPeer(link) => {
                self.peer_interfaces.push(*link);
                None
            },
            RouterOpLogEntry::RemovePeer(peer) => {
                self.remove_peer_interface(*peer);
                self.routing_table.remove_peer(*peer);
                None
            },
            RouterOpLogEntry::InsertSourceEntry(key, distance) => {
                Some(self.source_table.insert(*key, *distance))
            },
            RouterOpLogEntry::RemoveSourceEntry(key) => {
                self.source_table.remove(key);
                None
            },
            RouterOpLogEntry::InsertRoute(key, entry) => {
                Some(self.routing_table.insert(*key, *entry))
            },
            RouterOpLogEntry::RemoveRoute(key) => {
                self.routing_table.remove(key);
                None
            },
            RouterOpLogEntry::UnselectRoute(key) => {
                self.routing_table.unselect_route(key);
                None
            },
            RouterOpLogEntry::SelectRoute(key) => {
                self.routing_table.select_route(key);
                None
            },
            RouterOpLogEntry::UpdateRouteEntry(key, seqno, metric, router_id) => {
                proof {
                    lemma_refreshed_route(self@.routes, *key, *seqno, *metric, *router_id);
                }
                self.routing_table.update_route(key, *seqno, *metric, *router_id);
                self.routing_table.reset_route_timer(key)
            },
            RouterOpLogEntry::SetStaticRoutes(static_routes) => {
                self.static_routes = copy_static_routes(static_routes);
                None
            },
            RouterOpLogEntry::BumpSequenceNumber(time) => {
                self.router_seqno = self.router_seqno.next();
                self.last_seqno_bump = *time;
                None
            },
            RouterOpLogEntry::RecordHello(peer, time) => {
                let mut i: usize = 0;
                while i < self.peer_interfaces.len()
                    invariant
                        self.wf(),
                        i <= self.peer_interfaces@.len(),
                        self.peer_interfaces@.len() == old(self).peer_interfaces@.len(),
                        forall|j: int|
                            0 <= j < i ==> self.peer_interfaces@[j] == with_hello(
                                old(self).peer_interfaces@,
                                *peer,
                                *time,
                            )[j],
                        forall|j: int|
                            i <= j < self.peer_interfaces@.len() ==> self.peer_interfaces@[j]
                                == old(self).peer_interfaces@[j],
                        self.routing_table == old(self).routing_table,
                        self.source_table == old(self).source_table,
                        self.router_seqno == old(self).router_seqno,
                        self.last_seqno_bump == old(self).last_seqno_bump,
                        self.static_routes == old(self).static_routes,
                        self.dest_pubkey_map == old(self).dest_pubkey_map,
                    decreases self.peer_interfaces@.len() - i,
                {
                    if self.peer_interfaces[i].peer == *peer {
                        self.peer_interfaces[i].time_last_received_hello = *time;
                    }
                    i += 1;
                }
                assert(self.peer_interfaces@ =~= with_hello(
                    old(self).peer_interfaces@,
                    *peer,
                    *time,
                ));
                None
            },
            RouterOpLogEntry::RecordIhu(peer, cost, time) => {
                let mut i: usize = 0;
                while i < self.peer_interfaces.len()
                    invariant
                        self.wf(),
                        i <= self.peer_interfaces@.len(),
                        self.peer_interfaces@.len() == old(self).peer_interfaces@.len(),
                        forall|j: int|
                            0 <= j < i ==> self.peer_interfaces@[j] == with_ihu(
                                old(self).peer_interfaces@,
                                *peer,
                                *cost,
                                *time,
                            )[j],
                        forall|j: int|
                            i <= j < self.peer_interfaces@.len() ==> self.peer_interfaces@[j]
                                == old(self).peer_interfaces@[j],
                        self.routing_table == old(self).routing_table,
                        self.source_table == old(self).source_table,
                        self.router_seqno == old(self).router_seqno,
                        self.last_seqno_bump == old(self).last_seqno_bump,
                        self.static_routes == old(self).static_routes,
                        self.dest_pubkey_map == old(self).dest_pubkey_map,
                    decreases self.peer_interfaces@.len() - i,
                {
                    if self.peer_interfaces[i].peer == *peer {
                        self.peer_interfaces[i].link_cost = *cost;
                        self.peer_interfaces[i].time_last_received_ihu = *time;
                    }
                    i += 1;
                }
                assert(self.peer_interfaces@ =~= with_ihu(
                    old(self).peer_interfaces@,
                    *peer,
                    *cost,
                    *time,
                ));
                None
            },
        }
    }

    /// The place of the first link to `peer`.
    fn find_link(&self, peer: &Peer) -> (r: Option<usize>)
        ensures
            match r {
                Some(i) => is_first_link(self@.peers, *peer, i as int) && link_of(
                    self@.peers,
                    *peer,
                ) == Some(self@.peers[i as int]),
                None => !has_link(self@.peers, *peer),
            },
    {
        let mut i: usize = 0;
        while i < self.peer_interfaces.len()
            invariant
                i <= self.peer_interfaces@.len(),
                forall|j: int| 0 <= j < i ==> (#[trigger] self.peer_interfaces@[j]).peer != *peer,
            decreases self.peer_interfaces@.len() - i,
        {
            if self.peer_interfaces[i].peer == *peer {
                proof {
                    let peers = self@.peers;
                    assert(is_first_link(peers, *peer, i as int));
                    let c = choose|k: int| is_first_link(peers, *peer, k);
                    if c < i {
                        assert(peers[c].peer != *peer);
                    }
                    if i < c {
                        assert(peers[i as int].peer != *peer);
                    }
                }
                return Some(i);
            }
            i += 1;
        }
        None
    }

    /// The state of the link to `peer`, if there is one.
    pub fn link(&self, peer: &Peer) -> (r: Option<PeerLink>)
        ensures
            r == link_of(self@.peers, *peer),
    {
        match self.find_link(peer) {
            Some(i) => Some(self.peer_interfaces[i]),
            None => None,
        }
    }

    /// The cost of the link to `peer`; zero if there is no such link.
    pub fn link_cost(&self, peer: &Peer) -> (r: Metric)
        ensures
            r == link_cost_of(self@.peers, *peer),
    {
        match self.find_link(peer) {
            Some(i) => Metric::new(self.peer_interfaces[i].link_cost),
            None => Metric::new(0),
        }
    }

    /// Whether a neighbour is reached at the underlay address `underlay_ip`.
    pub fn peer_exists(&self, underlay_ip: u128) -> (r: bool)
        ensures
            r == reached_at(self@.peers, underlay_ip),
    {
        let mut i: usize = 0;
        while i < self.peer_interfaces.len()
            invariant
                i <= self.peer_interfaces@.len(),
                forall|j: int|
                    0 <= j < i ==> (#[trigger] self.peer_interfaces@[j]).peer.underlay_ip
                        != underlay_ip,
            decreases self.peer_interfaces@.len() - i,
        {
            if self.peer_interfaces[i].peer.underlay_ip == underlay_ip {
                assert(self@.peers[i as int].peer.underlay_ip == underlay_ip);
                return true;
            }
            i += 1;
        }
        false
    }

    /// The neighbours, in the order in which they joined.
    pub fn peers(&self) -> (r: Vec<Peer>)
        ensures
            r@ == Seq::new(self@.peers.len(), |i: int| self@.peers[i].peer),
    {
        let mut r: Vec<Peer> = Vec::new();
        let mut i: usize = 0;
        while i < self.peer_interfaces.len()
            invariant
                i <= self.peer_interfaces@.len(),
                r@ == Seq::new(i as nat, |k: int| self@.peers[k].peer),
            decreases self.peer_interfaces@.len() - i,
        {
            r.push(self.peer_interfaces[i].peer);
            assert(r@ =~= Seq::new((i + 1) as nat, |k: int| self@.peers[k].peer));
            i += 1;
        }
        r
    }

    /// What sending `update` to `peer` takes: the packet, and the operation that
    /// brings the source table up to date, if one is needed. A retraction needs
    /// none; any other update has its distance recorded for its source if none
    /// is recorded, or if it is strictly better than the recorded one.
    pub fn send_update(&self, peer: &Peer, update: Update) -> (r: (
        Option<RouterOpLogEntry>,
        (Peer, ControlPacket),
    ))
        requires
            self.wf(),
        ensures
            r.0 == source_op(self@.sources, update),
            r.1 == (*peer, Tlv::Update(update)),
    {
        let key = SourceKey::new(update.subnet(), update.router_id());
        let op = if !update.metric().is_infinite() && self.source_table.is_feasible(
            &key,
            update.metric(),
            update.seqno(),
        ) {
            Some(
                RouterOpLogEntry::InsertSourceEntry(
                    key,
                    FeasibilityDistance::new(update.metric(), update.seqno()),
                ),
            )
        } else {
            None
        };
        (op, (*peer, Tlv::Update(update)))
    }

    /// What sending `updates` takes: see [`RouterInner::send_update`].
    pub fn send_updates(&self, updates: &Vec<(Peer, Update)>) -> (plan: Plan)
        requires
            self.wf(),
        ensures
            plan@ == sending(self@.sources, updates@),
            only_source_ops(plan@.ops),
    {
        proof {
            lemma_source_ops_only(self@.sources, updates@);
        }
        let mut plan = Plan { ops: Vec::new(), packets: Vec::new() };
        let mut i: usize = 0;
        assert(updates@.take(0) =~= Seq::<(Peer, Update)>::empty());
        while i < updates.len()
            invariant
                self.wf(),
                i <= updates@.len(),
                plan.ops@ == source_ops(self@.sources, updates@.take(i as int)),
                plan.packets@ == update_packets(updates@.take(i as int)),
            decreases updates@.len() - i,
        {
            assert(updates@.take(i + 1).drop_last() =~= updates@.take(i as int));
            let (op, packet) = self.send_update(&updates[i].0, updates[i].1);
            match op {
                Some(op) => {
                    plan.ops.push(op);
                },
                None => {},
            }
            plan.packets.push(packet);
            assert(plan.packets@ =~= update_packets(updates@.take(i + 1)));
            i += 1;
        }
        assert(updates@.take(i as int) =~= updates@);
        plan
    }

    /// Adds `update` for every neighbour but `skip` to `updates`.
    fn for_peers_except(&self, update: Update, skip: Option<Peer>, updates: &mut Vec<(Peer, Update)>)
        ensures
            final(updates)@ == old(updates)@ + to_peers_except(self@.peers, update, skip),
    {
        let mut i: usize = 0;
        let ghost peers = self@.peers;
        assert(peers.take(0) =~= Seq::<PeerLink>::empty());
        assert(updates@ =~= old(updates)@ + Seq::<(Peer, Update)>::empty());
        while i < self.peer_interfaces.len()
            invariant
                peers == self.peer_interfaces@,
                i <= peers.len(),
                updates@ == old(updates)@ + to_peers_except(peers.take(i as int), update, skip),
            decreases self.peer_interfaces@.len() - i,
        {
            assert(peers.take(i + 1).drop_last() =~= peers.take(i as int));
            let peer = self.peer_interfaces[i].peer;
            let skipped: bool = match skip {
                Some(p) => p == peer,
                None => false,
            };
            if !skipped {
                updates.push((peer, update));
                assert(updates@ =~= old(updates)@ + to_peers_except(
                    peers.take(i + 1),
                    update,
                    skip,
                ));
            }
            i += 1;
        }
        assert(peers.take(i as int) =~= peers);
    }

    /// Announces the static routes in the name of `router_id`: every route goes
    /// to every neighbour, with metric zero and the router's sequence number.
    pub fn propagate_static_route(&self, router_id: RouterId) -> (plan: Plan)
        requires
            self.wf(),
        ensures
            plan@ == self@.propagate_static_route(router_id),
            only_source_ops(plan@.ops),
    {
        let mut updates: Vec<(Peer, Update)> = Vec::new();
        let mut i: usize = 0;
        let ghost routes = self@.static_routes;
        assert(routes.take(0) =~= Seq::<StaticRoute>::empty());
        while i < self.static_routes.len()
            invariant
                routes == self.static_routes@,
                i <= routes.len(),
                updates@ == static_updates(self@, router_id, routes.take(i as int)),
            decreases self.static_routes@.len() - i,
        {
            assert(routes.take(i + 1).drop_last() =~= routes.take(i as int));
            let update = Update::new(
                UPDATE_INTERVAL,
                self.router_seqno,
                Metric::new(0),
                self.static_routes[i].subnet,
                router_id,
            );
            self.for_peers_except(update, None, &mut updates);
            i += 1;
        }
        assert(routes.take(i as int) =~= routes);
        self.send_updates(&updates)
    }

    /// Announces the state of the route to `subnet`. If the prefix has a selected
    /// route with a finite metric, that route goes to every neighbour but its
    /// next hop, at its metric plus the cost of the link to the next hop. If
    /// not, a retraction in the name of `router_id` goes to every neighbour.
    pub fn propagate_selected_route(&self, subnet: Subnet, router_id: RouterId) -> (plan: Plan)
        requires
            self.wf(),
        ensures
            plan@ == self@.propagate_selected_route(subnet, router_id),
            only_source_ops(plan@.ops),
    {
        let mut updates: Vec<(Peer, Update)> = Vec::new();
        match self.selected_route(subnet) {
            Some(entry) => {
                let update = Update::new(
                    UPDATE_INTERVAL,
                    entry.seqno,
                    entry.metric.add(self.link_cost(&entry.neighbor)),
                    subnet,
                    entry.source.router_id,
                );
                self.for_peers_except(update, Some(entry.neighbor), &mut updates);
            },
            None => {
                let update = Update::new(
                    UPDATE_INTERVAL,
                    self.router_seqno,
                    Metric::infinite(),
                    subnet,
                    router_id,
                );
                self.for_peers_except(update, None, &mut updates);
            },
        }
        assert(updates@ =~= selected_updates(self@, subnet, router_id));
        self.send_updates(&updates)
    }

    /// The selected route to `subnet`: the route in front of the prefix's list,
    /// if it is marked as selected and its metric is finite.
    pub fn selected_route(&self, subnet: Subnet) -> (r: Option<RouteEntry>)
        requires
            self.wf(),
        ensures
            r == selected_of(entries_of(self@.routes, subnet)),
    {
        let list = self.routing_table.entries(subnet);
        if list.len() > 0 && list[0].selected && !list[0].metric.is_infinite() {
            Some(list[0])
        } else {
            None
        }
    }

    /// The selected routes of all prefixes, in table order.
    pub fn selected_routes(&self) -> (r: Vec<(RouteKey, RouteEntry)>)
        requires
            self.wf(),
        ensures
            r@ == marked_routes(all_routes(self@.routes), true),
    {
        self.routes_marked(true)
    }

    /// The routes of all prefixes that are not selected, in table order.
    pub fn fallback_routes(&self) -> (r: Vec<(RouteKey, RouteEntry)>)
        requires
            self.wf(),
        ensures
            r@ == marked_routes(all_routes(self@.routes), false),
    {
        self.routes_marked(false)
    }

    /// The routes whose mark of selection is `selected`, in table order.
    fn routes_marked(&self, selected: bool) -> (r: Vec<(RouteKey, RouteEntry)>)
        requires
            self.wf(),
        ensures
            r@ == marked_routes(all_routes(self@.routes), selected),
    {
        let routes = self.routing_table.iter();
        let mut r: Vec<(RouteKey, RouteEntry)> = Vec::new();
        let mut i: usize = 0;
        assert(routes@.take(0) =~= Seq::<(RouteKey, RouteEntry)>::empty());
        while i < routes.len()
            invariant
                i <= routes@.len(),
                r@ == marked_routes(routes@.take(i as int), selected),
            decreases routes@.len() - i,
        {
            assert(routes@.take(i + 1).drop_last() =~= routes@.take(i as int));
            if routes[i].1.selected == selected {
                r.push(routes[i]);
            }
            i += 1;
        }
        assert(routes@.take(i as int) =~= routes@);
        r
    }

    /// Where a packet for `destination` goes: to this node if the address lies
    /// in `local_subnet`; else to the next hop of the selected route of the
    /// longest prefix that holds the address, if that route has a finite metric.
    pub fn route_packet(&self, local_subnet: Subnet, destination: u128) -> (r: PacketRoute)
        requires
            self.wf(),
        ensures
            r == self@.route_for(local_subnet, destination),
    {
        if local_subnet.contains_ip(destination) {
            PacketRoute::Local
        } else {
            match self.routing_table.lookup_selected(destination) {
                Some(route) => PacketRoute::Forward(route.neighbor),
                None => PacketRoute::Unroutable,
            }
        }
    }

    /// Announces every selected route, in table order: each goes to every
    /// neighbour but its next hop, at its metric plus the cost of the link to
    /// the next hop.
    pub fn propagate_selected_routes(&self) -> (plan: Plan)
        requires
            self.wf(),
        ensures
            plan@ == self@.propagate_selected_routes(),
            only_source_ops(plan@.ops),
    {
        let routes = self.routing_table.iter();
        let mut updates: Vec<(Peer, Update)> = Vec::new();
        let mut i: usize = 0;
        assert(routes@.take(0) =~= Seq::<(RouteKey, RouteEntry)>::empty());
        while i < routes.len()
            invariant
                i <= routes@.len(),
                updates@ == routes_updates(self@, routes@.take(i as int)),
            decreases routes@.len() - i,
        {
            assert(routes@.take(i + 1).drop_last() =~= routes@.take(i as int));
            let key = routes[i].0;
            let entry = routes[i].1;
            if entry.selected {
                let update = Update::new(
                    UPDATE_INTERVAL,
                    entry.seqno,
                    entry.metric.add(self.link_cost(&entry.neighbor)),
                    key.subnet,
                    entry.source.router_id,
                );
                self.for_peers_except(update, Some(entry.neighbor), &mut updates);
            }
            i += 1;
        }
        assert(routes@.take(i as int) =~= routes@);
        self.send_updates(&updates)
    }

    /// The routing table.
    pub fn routing_table(&self) -> (t: &RoutingTable)
        requires
            self.wf(),
        ensures
            t.wf(),
            t@ == self@.routes,
    {
        &self.routing_table
    }

    /// The source table.
    pub fn source_table(&self) -> (t: &SourceTable)
        requires
            self.wf(),
        ensures
            t.wf(),
            t@ == self@.sources,
    {
        &self.source_table
    }

    /// The destination key map.
    pub fn dest_pubkey_map(&self) -> (m: &IpPubkeyMap)
        requires
            self.wf(),
        ensures
            m.wf(),
            m@ == self@.dest_keys,
    {
        &self.dest_pubkey_map
    }

    /// The links to the neighbours.
    pub fn peer_links(&self) -> (l: &Vec<PeerLink>)
        ensures
            l@ == self@.peers,
    {
        &self.peer_interfaces
    }

    /// The static routes.
    pub fn static_routes(&self) -> (r: &Vec<StaticRoute>)
        ensures
            r@ == self@.static_routes,
    {
        &self.static_routes
    }

    /// The sequence number under which the router announces its own prefixes.
    pub fn router_seqno(&self) -> (s: SeqNo)
        ensures
            s == self@.router_seqno,
    {
        self.router_seqno
    }

    /// When the sequence number was last moved on.
    pub fn last_seqno_bump(&self) -> (t: u64)
        ensures
            t == self@.last_seqno_bump,
    {
        self.last_seqno_bump
    }

    /// A copy of the state.
    pub fn clone(&self) -> (inner: RouterInner)
        requires
            self.wf(),
        ensures
            inner.wf(),
            inner@ == self@,
    {
        RouterInner {
            peer_interfaces: copy_links(&self.peer_interfaces),
            routing_table: self.routing_table.clone(),
            source_table: self.source_table.clone(),
            router_seqno: self.router_seqno,
            last_seqno_bump: self.last_seqno_bump,
            static_routes: copy_static_routes(&self.static_routes),
            dest_pubkey_map: self.dest_pubkey_map.clone(),
        }
    }
}

} // verus!
