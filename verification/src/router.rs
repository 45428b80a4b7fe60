//! The router engine: what the router does on every event of the protocol.

use vstd::prelude::*;
use crate::babel::{ControlPacket, Hello, Ihu, SeqNoRequest, Tlv, Update};
use crate::crypto::{PublicKey, SharedSecret};
use crate::filters::{all_allow, passes_filters, RouteUpdateFilter};
use crate::invariants::{
    lemma_gone_stays, lemma_op_keeps, lemma_removed_peer_gone, lemma_route_changes, calm,
};
use crate::ip_pubkey::keys_for;
use crate::metric::Metric;
use crate::peer::{clamp_cost, elapsed, Peer, PeerLink};
use crate::propagation::{
    has_link, reached_at, retraction, source_of, update_packets, Reaction,
    BIG_METRIC_CHANGE_THRESHOLD, HELLO_INTERVAL, IHU_INTERVAL, UPDATE_INTERVAL,
};
use crate::reactions::{
    best_route, can_carry, forward_target, has_carrier, has_feasible, is_best,
    is_first_carrier, is_static, known_routes, needs_triggered_update, lemma_silent_is_dead,
    route_feasible, selecting, seqno_request_for, to_each, dead_peers, PacketRoute,
    DEAD_PEER_THRESHOLD_MS, PEER_PREFIX_LEN, SEQNO_BUMP_TIMEOUT_MS,
};
use crate::route_lists::{entries_of, has_neighbour, matched_entries, neighbour_index, selected_of};
use crate::router_id::RouterId;
use crate::router_inner::{Plan, RouterInner};
use crate::router_state::{
    lemma_apply_push, lemma_apply_single, RouterOpLogEntry, RouterState, StaticRoute,
};
use crate::timers::TimerRequest;
use crate::routing_table::{
    find_neighbour, keep_unselected, RouteEntry, RouteExpirationType, RouteKey,
};
use crate::soundness::{
    lemma_announce_all_sound, lemma_announce_static_sound, lemma_sound_same, steady,
};
use crate::soundness_laws::{
    lemma_dead_peer_sweep_sound, lemma_route_expiry_sound, lemma_seqno_request_sound,
    lemma_source_expiry_sound, lemma_update_sound,
};
use crate::source_table::{feasible, SourceKey};
use crate::subnet::Subnet;

verus! {

/// What the router did in answer to an event: the operations that it applied to
/// its state, the packets that the caller is to send, and the timers that the
/// caller is to start, each in their order.
pub struct Outcome {
    pub ops: Vec<RouterOpLogEntry>,
    pub packets: Vec<(Peer, ControlPacket)>,
    pub timers: Vec<TimerRequest>,
}

impl View for Outcome {
    type V = Reaction;

    open spec fn view(&self) -> Reaction {
        Reaction { ops: self.ops@, packets: self.packets@ }
    }
}

impl Outcome {
    /// The outcome of doing nothing.
    pub fn new() -> (out: Outcome)
        ensures
            out@ == Reaction::none(),
            out.timers@ == Seq::<TimerRequest>::empty(),
    {
        Outcome { ops: Vec::new(), packets: Vec::new(), timers: Vec::new() }
    }

    /// Whether the outcome leads from the state `before` to the state `after`:
    /// `after` is `before` with the operations applied, and the timers are those
    /// that the operations ask for.
    pub open spec fn leads(&self, before: RouterState, after: RouterState) -> bool {
        &&& after == before.apply_all(self.ops@)
        &&& self.timers@ == before.timers_of(self.ops@)
    }
}

/// The router: its state, and what it knows of itself.
pub struct Router {
    inner: RouterInner,
    router_id: RouterId,
    node_public_key: PublicKey,
    node_tun_subnet: Subnet,
    update_filters: Vec<Box<dyn RouteUpdateFilter>>,
}

impl View for Router {
    type V = RouterState;

    closed spec fn view(&self) -> RouterState {
        self.inner@
    }
}

impl Router {
    /// Whether the router is well formed: its state is. Every router that this
    /// module hands out is.
    pub closed spec fn wf(&self) -> bool {
        self.inner.wf()
    }

    /// The identity of this router.
    pub closed spec fn id(&self) -> RouterId {
        self.router_id
    }

    /// The public key of this node.
    pub closed spec fn public_key(&self) -> PublicKey {
        self.node_public_key
    }

    /// The prefix of this node's own addresses.
    pub closed spec fn tun_subnet(&self) -> Subnet {
        self.node_tun_subnet
    }

    /// The filters on incoming updates.
    pub closed spec fn filters(&self) -> Seq<Box<dyn RouteUpdateFilter>> {
        self.update_filters@
    }

    /// Whether this is the router `other` at another time: what it knows of
    /// itself is the same.
    pub open spec fn same_node(&self, other: &Router) -> bool {
        &&& self.id() == other.id()
        &&& self.public_key() == other.public_key()
        &&& self.tun_subnet() == other.tun_subnet()
        &&& self.filters() == other.filters()
    }

    /// A router that starts at `now` with the static routes `static_routes`. Its
    /// identity is its public key.
    pub fn new(
        node_tun_subnet: Subnet,
        static_routes: Vec<StaticRoute>,
        node_public_key: PublicKey,
        update_filters: Vec<Box<dyn RouteUpdateFilter>>,
        now: u64,
    ) -> (router: Router)
        ensures
            router.wf(),
            router.id() == RouterId(node_public_key),
            router.public_key() == node_public_key,
            router.tun_subnet() == node_tun_subnet,
            router.filters() == update_filters@,
            router@.sound(),
            router@.neighbours_known(),
            router@ == (RouterState {
                peers: Seq::empty(),
                routes: Seq::empty(),
                sources: Map::empty(),
                router_seqno: crate::sequence_number::SeqNo(0),
                last_seqno_bump: now,
                static_routes: static_routes@,
                dest_keys: Map::empty(),
            }),
    {
        let mut inner = RouterInner::new(now);
        inner.absorb(&RouterOpLogEntry::SetStaticRoutes(static_routes));
        Router {
            inner,
            router_id: RouterId::new(node_public_key),
            node_public_key,
            node_tun_subnet,
            update_filters,
        }
    }

    /// The state of the router.
    pub fn inner(&self) -> (inner: &RouterInner)
        requires
            self.wf(),
        ensures
            inner.wf(),
            inner@ == self@,
    {
        &self.inner
    }

    /// The identity of this router.
    pub fn router_id(&self) -> (id: RouterId)
        ensures
            id == self.id(),
    {
        self.router_id
    }

    /// The prefix of this node's own addresses.
    pub fn node_tun_subnet(&self) -> (s: Subnet)
        ensures
            s == self.tun_subnet(),
    {
        self.node_tun_subnet
    }

    /// The public key of this node.
    pub fn node_public_key(&self) -> (k: PublicKey)
        ensures
            k == self.public_key(),
    {
        self.node_public_key
    }

    /// The neighbours, in the order in which they joined.
    pub fn peer_interfaces(&self) -> (r: Vec<Peer>)
        ensures
            r@ == Seq::new(self@.peers.len(), |i: int| self@.peers[i].peer),
    {
        self.inner.peers()
    }

    /// Whether a neighbour is reached at the underlay address `underlay_ip`.
    pub fn peer_exists(&self, underlay_ip: u128) -> (r: bool)
        ensures
            r == reached_at(self@.peers, underlay_ip),
    {
        self.inner.peer_exists(underlay_ip)
    }

    /// Applies `op` and notes it in `out`.
    fn commit(&mut self, op: RouterOpLogEntry, out: &mut Outcome, Ghost(base): Ghost<RouterState>)
        requires
            old(self).wf(),
            old(out).leads(base, old(self)@),
        ensures
            final(self).wf(),
            final(self).same_node(old(self)),
            final(self)@ == old(self)@.apply(op),
            final(out).leads(base, final(self)@),
            final(out).ops@ == old(out).ops@.push(op),
            final(out).packets@ == old(out).packets@,
            old(self)@.selection_in_order() && RouterState::inserts_unselected(op)
                ==> final(self)@.selection_in_order(),
            old(self)@.neighbours_known() && old(self)@.inserts_known(op)
                ==> final(self)@.neighbours_known(),
            old(self)@.links_positive() && RouterState::costs_kept(op)
                ==> final(self)@.links_positive(),
    {
        proof {
            lemma_apply_push(base, out.ops@, op);
            self.inner.lemma_wf();
            lemma_op_keeps(self@, op);
        }
        let timer = self.inner.absorb(&op);
        out.ops.push(op);
        match timer {
            Some(timer) => {
                out.timers.push(timer);
            },
            None => {},
        }
    }

    /// Applies the operations of `plan` and notes them and the packets of `plan`
    /// in `out`.
    fn commit_plan(&mut self, plan: Plan, out: &mut Outcome, Ghost(base): Ghost<RouterState>)
        requires
            old(self).wf(),
            old(out).leads(base, old(self)@),
        ensures
            final(self).wf(),
            final(self).same_node(old(self)),
            final(self)@ == old(self)@.apply_all(plan.ops@),
            final(out).leads(base, final(self)@),
            final(out)@ == old(out)@.then_also(plan@),
            calm(plan.ops@) ==> final(self)@.keeps(old(self)@),
    {
        let Plan { ops, packets } = plan;
        let ghost all_ops = ops@;
        let ghost all_packets = packets@;
        assert(all_ops.take(0) =~= Seq::<RouterOpLogEntry>::empty());
        assert(out.ops@ =~= old(out).ops@ + all_ops.take(0));
        for op in iter: ops
            invariant
                iter.seq() == all_ops,
                self.wf(),
                self.same_node(old(self)),
                out.leads(base, self@),
                self@ == old(self)@.apply_all(all_ops.take(iter.index() as int)),
                out.ops@ == old(out).ops@ + all_ops.take(iter.index() as int),
                out.packets@ == old(out).packets@,
                calm(all_ops) ==> self@.keeps(old(self)@),
        {
            let ghost done = all_ops.take(iter.index() as int);
            proof {
                lemma_apply_push(old(self)@, done, all_ops[iter.index() as int]);
                assert(done.push(all_ops[iter.index() as int]) =~= all_ops.take(
                    iter.index() + 1,
                ));
            }
            self.commit(op, out, Ghost(base));
            assert(out.ops@ =~= old(out).ops@ + all_ops.take(iter.index() + 1));
        }
        assert(all_ops.take(all_ops.len() as int) =~= all_ops);
        assert(all_packets.take(0) =~= Seq::<(Peer, ControlPacket)>::empty());
        assert(out.packets@ =~= old(out).packets@ + all_packets.take(0));
        for packet in iter: packets
            invariant
                iter.seq() == all_packets,
                out.ops@ == old(out).ops@ + all_ops,
                out.timers@ == base.timers_of(out.ops@),
                out.packets@ == old(out).packets@ + all_packets.take(iter.index() as int),
        {
            out.packets.push(packet);
            assert(out.packets@ =~= old(out).packets@ + all_packets.take(iter.index() + 1));
        }
        assert(all_packets.take(all_packets.len() as int) =~= all_packets);
    }

    /// Adds the neighbour `peer`, whose link has the cost `link_cost` at `now`.
    pub fn add_peer_interface(&mut self, peer: Peer, link_cost: u16, now: u64) -> (out: Outcome)
        requires
            old(self).wf(),
        ensures
            final(self).wf(),
            final(self).same_node(old(self)),
            out.leads(old(self)@, final(self)@),
            final(self)@.keeps_routes(old(self)@),
            old(self)@.links_positive() && link_cost >= 1 ==> final(self)@.links_positive(),
            old(self)@.sound() ==> final(self)@.sound(),
            out@ == (Reaction {
                ops: seq![
                    RouterOpLogEntry::AddPeer(
                        PeerLink {
                            peer,
                            link_cost,
                            time_last_received_hello: now,
                            time_last_received_ihu: now,
                        },
                    ),
                ],
                packets: Seq::empty(),
            }),
    {
        let mut out = Outcome::new();
        self.commit(
            RouterOpLogEntry::AddPeer(PeerLink::new(peer, link_cost, now)),
            &mut out,
            Ghost(old(self)@),
        );
        proof {
            if old(self)@.sound() {
                lemma_sound_same(old(self)@, self@);
            }
        }
        out
    }

    /// Records the public key and the shared secret of the node that owns `dest`.
    pub fn add_dest_pubkey_map_entry(&mut self, dest: Subnet, pubkey: PublicKey, shared_secret: SharedSecret) -> (out:
        Outcome)
        requires
            old(self).wf(),
        ensures
            final(self).wf(),
            final(self).same_node(old(self)),
            out.leads(old(self)@, final(self)@),
            final(self)@.keeps(old(self)@),
            old(self)@.sound() ==> final(self)@.sound(),
            out@ == (Reaction {
                ops: seq![RouterOpLogEntry::AddDestPubkey(dest, pubkey, shared_secret)],
                packets: Seq::empty(),
            }),
    {
        let mut out = Outcome::new();
        self.commit(
            RouterOpLogEntry::AddDestPubkey(dest, pubkey, shared_secret),
            &mut out,
            Ghost(old(self)@),
        );
        proof {
            if old(self)@.sound() {
                lemma_sound_same(old(self)@, self@);
            }
        }
        out
    }

    /// The public key of the node that owns the overlay address `ip`, if it is
    /// known.
    pub fn get_pubkey(&self, ip: u128) -> (r: Option<PublicKey>)
        requires
            self.wf(),
        ensures
            r == match keys_for(self@.dest_keys, ip) {
                Some(keys) => Some(keys.0),
                None => None,
            },
    {
        match self.inner.dest_pubkey_map().lookup(ip) {
            Some(keys) => Some(keys.0),
            None => None,
        }
    }

    /// The secret shared with the node that owns the overlay address `dest`, if
    /// it is known.
    pub fn get_shared_secret_from_dest(&self, dest: u128) -> (r: Option<SharedSecret>)
        requires
            self.wf(),
        ensures
            r == match keys_for(self@.dest_keys, dest) {
                Some(keys) => Some(keys.1),
                None => None,
            },
    {
        match self.inner.dest_pubkey_map().lookup(dest) {
            Some(keys) => Some(keys.1),
            None => None,
        }
    }

    /// Sends a Hello to every neighbour and records the time on its link.
    pub fn send_hellos(&mut self, now: u64) -> (out: Outcome)
        requires
            old(self).wf(),
        ensures
            final(self).wf(),
            final(self).same_node(old(self)),
            out.leads(old(self)@, final(self)@),
            final(self)@.keeps(old(self)@),
            old(self)@.sound() ==> final(self)@.sound(),
            out@ == old(self)@.on_hello_round(now),
    {
        let peers = self.inner.peers();
        let mut out = Outcome::new();
        let mut i: usize = 0;
        let ghost goal = old(self)@.on_hello_round(now);
        while i < peers.len()
            invariant
                i <= peers@.len(),
                peers@ == Seq::new(old(self)@.peers.len(), |k: int| old(self)@.peers[k].peer),
                goal == old(self)@.on_hello_round(now),
                self.wf(),
                self.same_node(old(self)),
                out.leads(old(self)@, self@),
                self@.keeps(old(self)@),
                self@.routes == old(self)@.routes,
                self@.sources == old(self)@.sources,
                self@.static_routes == old(self)@.static_routes,
                out.ops@ == goal.ops.take(i as int),
                out.packets@ == goal.packets.take(i as int),
            decreases peers@.len() - i,
        {
            self.commit(RouterOpLogEntry::RecordHello(peers[i], now), &mut out, Ghost(old(self)@));
            out.packets.push((peers[i], Tlv::Hello(Hello::new(HELLO_INTERVAL))));
            assert(out.ops@ =~= goal.ops.take(i + 1));
            assert(out.packets@ =~= goal.packets.take(i + 1));
            i += 1;
        }
        assert(goal.ops.take(i as int) =~= goal.ops);
        assert(goal.packets.take(i as int) =~= goal.packets);
        proof {
            if old(self)@.sound() {
                lemma_sound_same(old(self)@, self@);
            }
        }
        out
    }

    /// Answers a Hello from `source_peer` with an IHU, and records the time on
    /// the link.
    pub fn handle_incoming_hello(&mut self, source_peer: Peer, now: u64) -> (out: Outcome)
        requires
            old(self).wf(),
        ensures
            final(self).wf(),
            final(self).same_node(old(self)),
            out.leads(old(self)@, final(self)@),
            final(self)@.keeps(old(self)@),
            old(self)@.sound() ==> final(self)@.sound(),
            out@ == old(self)@.on_hello(source_peer, now),
    {
        let mut out = Outcome::new();
        self.commit(RouterOpLogEntry::RecordHello(source_peer, now), &mut out, Ghost(old(self)@));
        out.packets.push((source_peer, Tlv::Ihu(Ihu::new(IHU_INTERVAL, source_peer.overlay_ip))));
        assert(out@.packets =~= old(self)@.on_hello(source_peer, now).packets);
        proof {
            if old(self)@.sound() {
                lemma_sound_same(old(self)@, self@);
            }
        }
        out
    }

    /// Takes an IHU from `source_peer`: the time since the last Hello on the link
    /// becomes the cost of the link, in milliseconds and at most 65535.
    pub fn handle_incoming_ihu(&mut self, source_peer: Peer, now: u64) -> (out: Outcome)
        requires
            old(self).wf(),
        ensures
            final(self).wf(),
            final(self).same_node(old(self)),
            out.leads(old(self)@, final(self)@),
            final(self)@.keeps_routes(old(self)@),
            old(self)@.links_positive() && (forall|i: int|
                0 <= i < out.ops@.len() ==> RouterState::costs_kept(#[trigger] out.ops@[i]))
                ==> final(self)@.links_positive(),
            old(self)@.sound() ==> final(self)@.sound(),
            out@ == old(self)@.on_ihu(source_peer, now),
    {
        let mut out = Outcome::new();
        match self.inner.link(&source_peer) {
            Some(link) => {
                let cost = clamp_cost(elapsed(now, link.time_last_received_hello));
                self.commit(
                    RouterOpLogEntry::RecordIhu(source_peer, cost, now),
                    &mut out,
                    Ghost(old(self)@),
                );
            },
            None => {},
        }
        proof {
            if old(self)@.sound() {
                lemma_sound_same(old(self)@, self@);
            }
        }
        out
    }

    /// Forgets the source `key`, whose timer has run out.
    pub fn process_expired_source_keys(&mut self, key: SourceKey) -> (out: Outcome)
        requires
            old(self).wf(),
        ensures
            final(self).wf(),
            final(self).same_node(old(self)),
            out.leads(old(self)@, final(self)@),
            final(self)@.keeps(old(self)@),
            old(self)@.sound() ==> final(self)@.sound(),
            out@ == old(self)@.on_source_expiry(key),
    {
        let mut out = Outcome::new();
        self.commit(RouterOpLogEntry::RemoveSourceEntry(key), &mut out, Ghost(old(self)@));
        proof {
            if old(self)@.sound() {
                lemma_source_expiry_sound(old(self)@, key);
            }
        }
        out
    }

    /// The route by which traffic to `dest_ip` leaves: the selected route of the
    /// longest prefix that holds the address, if its metric is finite.
    pub fn select_best_route(&self, dest_ip: u128) -> (r: Option<RouteEntry>)
        requires
            self.wf(),
        ensures
            r == selected_of(matched_entries(self@.routes, dest_ip)),
    {
        self.inner.routing_table().lookup_selected(dest_ip)
    }

    /// Where a packet for `dst_ip` goes: to this node if the address is one of
    /// its own, else to the next hop of the route to the address, if there is
    /// one.
    pub fn route_packet(&self, dst_ip: u128) -> (r: PacketRoute)
        requires
            self.wf(),
        ensures
            r == self@.route_for(self.tun_subnet(), dst_ip),
    {
        self.inner.route_packet(self.node_tun_subnet, dst_ip)
    }

    /// The best of `routes`: the feasible route with the smallest metric, and of
    /// several such the first. A retracted route is feasible and has the largest
    /// metric, so it is the best only where no other route is feasible.
    pub fn find_best_route(&self, routes: &Vec<RouteEntry>) -> (r: Option<RouteEntry>)
        requires
            self.wf(),
        ensures
            r == best_route(self@.sources, routes@),
    {
        let sources = self.inner.source_table();
        let mut best: Option<usize> = None;
        let mut i: usize = 0;
        while i < routes.len()
            invariant
                sources.wf(),
                sources@ == self@.sources,
                i <= routes@.len(),
                match best {
                    Some(b) => b < i && is_best(sources@, routes@.take(i as int), b as int),
                    None => !has_feasible(sources@, routes@.take(i as int)),
                },
            decreases routes@.len() - i,
        {
            let ghost seen = routes@.take(i as int);
            let ghost next = routes@.take(i + 1);
            assert(forall|j: int| 0 <= j < i ==> next[j] == seen[j]);
            if sources.route_feasible(&routes[i]) {
                let better: bool = match best {
                    Some(b) => routes[i].metric.less_than(&routes[b].metric),
                    None => true,
                };
                if better {
                    proof {
                        assert forall|j: int|
                            0 <= j < next.len() && route_feasible(
                                sources@,
                                #[trigger] next[j],
                            ) implies next[i as int].metric.0 <= next[j].metric.0 by {
                            if j < i {
                                assert(route_feasible(sources@, seen[j]));
                            }
                        }
                        assert forall|j: int|
                            0 <= j < i && route_feasible(
                                sources@,
                                #[trigger] next[j],
                            ) implies next[i as int].metric.0 < next[j].metric.0 by {
                            assert(route_feasible(sources@, seen[j]));
                        }
                    }
                    best = Some(i);
                } else {
                    proof {
                        let b = best->0 as int;
                        assert forall|j: int|
                            0 <= j < next.len() && route_feasible(
                                sources@,
                                #[trigger] next[j],
                            ) implies next[b].metric.0 <= next[j].metric.0 by {
                            if j < i {
                                assert(route_feasible(sources@, seen[j]));
                            }
                        }
                        assert forall|j: int|
                            0 <= j < b && route_feasible(
                                sources@,
                                #[trigger] next[j],
                            ) implies next[b].metric.0 < next[j].metric.0 by {
                            assert(route_feasible(sources@, seen[j]));
                        }
                    }
                }
            } else {
                proof {
                    match best {
                        Some(b) => {
                            assert forall|j: int|
                                0 <= j < next.len() && route_feasible(
                                    sources@,
                                    #[trigger] next[j],
                                ) implies next[b as int].metric.0 <= next[j].metric.0 by {
                                assert(route_feasible(sources@, seen[j]));
                            }
                            assert forall|j: int|
                                0 <= j < b && route_feasible(
                                    sources@,
                                    #[trigger] next[j],
                                ) implies next[b as int].metric.0 < next[j].metric.0 by {
                                assert(route_feasible(sources@, seen[j]));
                            }
                        },
                        None => {
                            if has_feasible(sources@, next) {
                                let j = choose|j: int|
                                    0 <= j < next.len() && route_feasible(
                                        sources@,
                                        #[trigger] next[j],
                                    );
                                assert(route_feasible(sources@, seen[j]));
                            }
                        },
                    }
                }
            }
            i += 1;
        }
        assert(routes@.take(i as int) =~= routes@);
        match best {
            Some(b) => {
                proof {
                    let list = routes@;
                    assert(route_feasible(sources@, list[b as int]));
                    let c = choose|c: int| is_best(sources@, list, c);
                    if c < b {
                        assert(route_feasible(sources@, list[c]));
                    }
                    if b < c {
                        assert(route_feasible(sources@, list[b as int]));
                    }
                }
                Some(routes[b])
            },
            None => None,
        }
    }

    /// Whether the prefix of `route_key` is one of the static routes.
    fn route_key_is_from_static_route(&self, route_key: &RouteKey) -> (r: bool)
        ensures
            r == is_static(self@.static_routes, route_key.subnet),
    {
        self.has_static_route(route_key.subnet)
    }

    /// Whether `subnet` is one of the static routes.
    pub fn has_static_route(&self, subnet: Subnet) -> (r: bool)
        ensures
            r == is_static(self@.static_routes, subnet),
    {
        let routes = self.inner.static_routes();
        let mut i: usize = 0;
        while i < routes.len()
            invariant
                i <= routes@.len(),
                routes@ == self@.static_routes,
                forall|j: int| 0 <= j < i ==> (#[trigger] routes@[j]).subnet != subnet,
            decreases routes@.len() - i,
        {
            if routes[i].subnet == subnet {
                return true;
            }
            i += 1;
        }
        false
    }

    /// Announces the state of the route to `subnet` at once.
    fn trigger_update(&mut self, subnet: Subnet, router_id: RouterId, out: &mut Outcome, Ghost(base): Ghost<
        RouterState,
    >)
        requires
            old(self).wf(),
            old(out).leads(base, old(self)@),
        ensures
            final(self).wf(),
            final(self).same_node(old(self)),
            final(out).leads(base, final(self)@),
            final(self)@.keeps(old(self)@),
            final(out)@ == old(out)@.then_also(
                old(self)@.propagate_selected_route(subnet, router_id),
            ),
    {
        let plan = self.inner.propagate_selected_route(subnet, router_id);
        self.commit_plan(plan, out, Ghost(base));
    }

    /// Whether the change of the selected route from `before` to `after` is to
    /// be announced at once.
    pub fn is_big_change(before: &Option<RouteEntry>, after: &Option<RouteEntry>) -> (r: bool)
        ensures
            r == needs_triggered_update(*before, *after),
    {
        match (before, after) {
            (Some(was), Some(is)) => is.source.router_id != was.source.router_id || is.seqno.gt(
                &was.seqno,
            ) || is.metric.delta(&was.metric).value() > BIG_METRIC_CHANGE_THRESHOLD,
            (None, Some(_)) => true,
            (Some(_), None) => true,
            (None, None) => false,
        }
    }

    /// Selects the best route of `list` and announces the prefix if the
    /// selection changed enough.
    #[verifier::rlimit(50)]
    fn select_after_update(
        &mut self,
        update: &Update,
        list: &Vec<RouteEntry>,
        was_selected: Option<RouteEntry>,
        out: &mut Outcome,
        Ghost(base): Ghost<RouterState>,
        Ghost(start): Ghost<RouterState>,
        Ghost(before): Ghost<Reaction>,
        Ghost(changes): Ghost<Seq<RouterOpLogEntry>>,
    )
        requires
            old(self).wf(),
            old(out).leads(base, old(self)@),
            old(self)@ == start.apply_all(changes),
            old(self)@.sources == start.sources,
            old(out)@ == before.then_also(Reaction { ops: changes, packets: Seq::empty() }),
        ensures
            final(self).wf(),
            final(self).same_node(old(self)),
            final(out).leads(base, final(self)@),
            final(self)@.keeps(old(self)@),
            final(out)@ == before.then_also(
                start.select_after_update(*update, changes, list@, was_selected),
            ),
    {
        let best = self.find_best_route(list);
        let ghost ops = changes;
        match best {
            Some(route) => {
                proof {
                    lemma_apply_push(start, changes, selecting(update.subnet, route));
                    ops = changes.push(selecting(update.subnet, route));
                }
                self.commit(
                    RouterOpLogEntry::SelectRoute(RouteKey::new(update.subnet, route.neighbor)),
                    out,
                    Ghost(base),
                );
                assert(out.ops@ =~= before.ops + ops);
            },
            None => {},
        }
        assert(out.packets@ =~= before.packets + Seq::<(Peer, ControlPacket)>::empty());
        if Self::is_big_change(&was_selected, &best) {
            self.trigger_update(update.subnet, update.router_id, out, Ghost(base));
            let ghost announce = start.apply_all(ops).propagate_selected_route(
                update.subnet,
                update.router_id,
            );
            assert(out.ops@ =~= before.ops + (ops + announce.ops));
            assert(out.packets@ =~= before.packets + (Seq::<(Peer, ControlPacket)>::empty()
                + announce.packets));
        }
    }

    /// Takes `update` from `source_peer` into the routing table.
    fn take_update(&mut self, update: &Update, source_peer: Peer, out: &mut Outcome, Ghost(base): Ghost<
        RouterState,
    >)
        requires
            old(self).wf(),
            old(out).leads(base, old(self)@),
        ensures
            final(self).wf(),
            final(self).same_node(old(self)),
            final(out).leads(base, final(self)@),
            final(self)@.keeps_with(old(self)@, source_peer),
            final(out)@ == old(out)@.then_also(old(self)@.take_update(*update, source_peer)),
    {
        let list = self.inner.routing_table().entries(update.subnet);
        let is_feasible = self.inner.source_table().is_update_feasible(update);
        match find_neighbour(&list, &source_peer) {
            Some(at) => {
                if list[at].selected && !is_feasible && list[at].source.router_id
                    == update.router_id {
                    self.request_seqno(update, source_peer, out);
                } else {
                    self.refresh_route(update, source_peer, list, at, is_feasible, out, Ghost(base));
                }
            },
            None => {
                if update.metric.is_infinite() || !is_feasible {
                    assert(out@.ops =~= out@.ops + Seq::<RouterOpLogEntry>::empty());
                    assert(out@.packets =~= out@.packets + Seq::<(Peer, ControlPacket)>::empty());
                } else {
                    self.insert_route(update, source_peer, list, out, Ghost(base));
                }
            },
        }
    }

    /// Answers an unfeasible update to the selected route by asking
    /// `source_peer` for the next sequence number of the source.
    fn request_seqno(&self, update: &Update, source_peer: Peer, out: &mut Outcome)
        requires
            self.wf(),
            !feasible(self@.sources, source_of(*update), update.metric, update.seqno),
        ensures
            final(out).timers == old(out).timers,
            final(out)@ == old(out)@.then_also(
                Reaction {
                    ops: Seq::empty(),
                    packets: seq![
                        (
                            source_peer,
                            Tlv::SeqNoRequest(seqno_request_for(self@.sources, *update)),
                        ),
                    ],
                },
            ),
    {
        let seqno = match self.inner.source_table().get(
            &SourceKey::new(update.subnet, update.router_id),
        ) {
            Some(distance) => distance.seqno.next(),
            None => unreached(),
        };
        out.packets.push(
            (source_peer, Tlv::SeqNoRequest(SeqNoRequest::new(seqno, update.router_id, update.subnet))),
        );
        assert(out@.ops =~= old(out)@.ops + Seq::<RouterOpLogEntry>::empty());
        assert(out@.packets =~= old(out)@.packets + seq![
            (source_peer, Tlv::SeqNoRequest(seqno_request_for(self@.sources, *update))),
        ]);
    }

    /// Gives the route of `source_peer` at `at` in `list` the values of
    /// `update`, and goes on to the selection.
    #[verifier::rlimit(50)]
    fn refresh_route(
        &mut self,
        update: &Update,
        source_peer: Peer,
        list: Vec<RouteEntry>,
        at: usize,
        is_feasible: bool,
        out: &mut Outcome,
        Ghost(base): Ghost<RouterState>,
    )
        requires
            old(self).wf(),
            old(out).leads(base, old(self)@),
            list@ == entries_of(old(self)@.routes, update.subnet),
            has_neighbour(list@, source_peer),
            at == neighbour_index(list@, source_peer),
            at < list@.len(),
            is_feasible == feasible(
                old(self)@.sources,
                source_of(*update),
                update.metric,
                update.seqno,
            ),
            !(list@[at as int].selected && !is_feasible && list@[at as int].source.router_id
                == update.router_id),
        ensures
            final(self).wf(),
            final(self).same_node(old(self)),
            final(out).leads(base, final(self)@),
            final(self)@.keeps_with(old(self)@, source_peer),
            final(out)@ == old(out)@.then_also(old(self)@.take_update(*update, source_peer)),
    {
        let ghost start = self@;
        let ghost before = out@;
        let mut list = list;
        let key = RouteKey::new(update.subnet, source_peer);
        let was_selected = if list[0].selected {
            Some(list[0])
        } else {
            None
        };
        let unselect = list[at].selected && !is_feasible;
        let mut refreshed = list[at];
        refreshed.update_seqno(update.seqno);
        refreshed.update_metric(update.metric);
        refreshed.update_router_id(update.router_id);
        let mut ops: Vec<RouterOpLogEntry> = Vec::new();
        ops.push(
            RouterOpLogEntry::UpdateRouteEntry(key, update.seqno, update.metric, update.router_id),
        );
        if unselect {
            refreshed.set_selected(false);
            ops.push(RouterOpLogEntry::UnselectRoute(key));
        }
        list[at] = refreshed;
        let ghost changes = ops@;
        proof {
            let refresh = RouterOpLogEntry::UpdateRouteEntry(
                key,
                update.seqno,
                update.metric,
                update.router_id,
            );
            if unselect {
                assert(changes =~= seq![refresh, RouterOpLogEntry::UnselectRoute(key)]);
            } else {
                assert(changes =~= seq![refresh]);
            }
            lemma_route_changes(start, changes);
        }
        self.commit_plan(Plan { ops, packets: Vec::new() }, out, Ghost(base));
        let ghost changed = self@;
        self.select_after_update(
            update,
            &list,
            was_selected,
            out,
            Ghost(base),
            Ghost(start),
            Ghost(before),
            Ghost(changes),
        );
        assert(changed.keeps(start) && self@.keeps(changed));
    }

    /// Inserts the route that `update` from `source_peer` describes, and goes on
    /// to the selection.
    fn insert_route(
        &mut self,
        update: &Update,
        source_peer: Peer,
        list: Vec<RouteEntry>,
        out: &mut Outcome,
        Ghost(base): Ghost<RouterState>,
    )
        requires
            old(self).wf(),
            old(out).leads(base, old(self)@),
            list@ == entries_of(old(self)@.routes, update.subnet),
            !has_neighbour(list@, source_peer),
            !update.metric.is_infinite(),
            feasible(old(self)@.sources, source_of(*update), update.metric, update.seqno),
        ensures
            final(self).wf(),
            final(self).same_node(old(self)),
            final(out).leads(base, final(self)@),
            final(self)@.keeps_with(old(self)@, source_peer),
            final(out)@ == old(out)@.then_also(old(self)@.take_update(*update, source_peer)),
    {
        let ghost start = self@;
        let ghost before = out@;
        let mut list = list;
        let key = RouteKey::new(update.subnet, source_peer);
        let was_selected = if list.len() > 0 && list[0].selected {
            Some(list[0])
        } else {
            None
        };
        let entry = RouteEntry::new(
            SourceKey::new(update.subnet, update.router_id),
            source_peer,
            update.metric,
            update.seqno,
            false,
        );
        list.push(entry);
        let insert = RouterOpLogEntry::InsertRoute(key, entry);
        self.commit(insert, out, Ghost(base));
        let ghost changes = seq![insert];
        proof {
            lemma_apply_single(start, insert);
        }
        assert(out.ops@ =~= before.ops + changes);
        assert(out.packets@ =~= before.packets + Seq::<(Peer, ControlPacket)>::empty());
        self.select_after_update(
            update,
            &list,
            was_selected,
            out,
            Ghost(base),
            Ghost(start),
            Ghost(before),
            Ghost(changes),
        );
    }

    /// Takes the update `update` that arrived from `source_peer`.
    /// `shared_secret` is the secret shared with the router that the update
    /// names.
    ///
    /// An update that a filter rejects changes nothing. Any other update has the
    /// keys of its router recorded for its prefix. An update for one of the
    /// static routes does no more; any other is taken into the routing table,
    /// the best route of its prefix is selected, and a change of the selection
    /// that matters is announced to the neighbours.
    pub fn handle_incoming_update(&mut self, update: Update, source_peer: Peer, shared_secret: SharedSecret) -> (out:
        Outcome)
        requires
            old(self).wf(),
        ensures
            final(self).wf(),
            final(self).same_node(old(self)),
            out.leads(old(self)@, final(self)@),
            final(self)@.keeps_with(old(self)@, source_peer),
            steady(old(self)@) && has_link(old(self)@.peers, source_peer) ==> final(self)@.sound(),
            !all_allow(old(self).filters(), update) ==> final(self)@ == old(self)@,
            out@ == old(self)@.on_update(
                all_allow(old(self).filters(), update),
                update,
                source_peer,
                shared_secret,
            ),
    {
        proof {
            if steady(self@) && has_link(self@.peers, source_peer) {
                lemma_update_sound(
                    self@,
                    all_allow(self.filters(), update),
                    update,
                    source_peer,
                    shared_secret,
                );
            }
        }
        let mut out = Outcome::new();
        if !passes_filters(&self.update_filters, &update) {
            return out;
        }
        let learn = RouterOpLogEntry::AddDestPubkey(
            update.subnet,
            update.router_id.to_pubkey(),
            shared_secret,
        );
        self.commit(learn, &mut out, Ghost(old(self)@));
        assert(out@.ops =~= seq![learn]);
        if self.route_key_is_from_static_route(&RouteKey::new(update.subnet, source_peer)) {
            return out;
        }
        self.take_update(&update, source_peer, &mut out, Ghost(old(self)@));
        out
    }

    /// The routes to `subnet` that the router can use: the selected route, if
    /// its metric is finite, and then the routes that are not selected.
    pub fn find_all_routes(&self, subnet: Subnet) -> (r: Vec<RouteEntry>)
        requires
            self.wf(),
        ensures
            r@ == known_routes(entries_of(self@.routes, subnet)),
    {
        let list = self.inner.routing_table().entries(subnet);
        let fallbacks = keep_unselected(&list);
        let mut routes: Vec<RouteEntry> = Vec::new();
        if list.len() > 0 && list[0].selected && !list[0].metric.is_infinite() {
            routes.push(list[0]);
        }
        let ghost front = routes@;
        let mut i: usize = 0;
        assert(routes@ =~= front + fallbacks@.take(0));
        while i < fallbacks.len()
            invariant
                i <= fallbacks@.len(),
                routes@ == front + fallbacks@.take(i as int),
            decreases fallbacks@.len() - i,
        {
            routes.push(fallbacks[i]);
            assert(routes@ =~= front + fallbacks@.take(i + 1));
            i += 1;
        }
        assert(fallbacks@.take(i as int) =~= fallbacks@);
        assert(Seq::<RouteEntry>::empty() + fallbacks@ =~= fallbacks@);
        routes
    }

    /// The place of the first of `routes` that can carry a request from `peer`.
    fn first_carrier(routes: &Vec<RouteEntry>, peer: &Peer, finite_only: bool) -> (r: Option<usize>)
        ensures
            match r {
                Some(i) => i < routes@.len() && has_carrier(routes@, *peer, finite_only)
                    && routes@[choose|k: int| is_first_carrier(routes@, *peer, finite_only, k)]
                    == routes@[i as int],
                None => !has_carrier(routes@, *peer, finite_only),
            },
    {
        let mut i: usize = 0;
        while i < routes.len()
            invariant
                i <= routes@.len(),
                forall|j: int| 0 <= j < i ==> !can_carry(#[trigger] routes@[j], *peer, finite_only),
            decreases routes@.len() - i,
        {
            if routes[i].neighbor != *peer && (!finite_only || !routes[i].metric.is_infinite()) {
                proof {
                    assert(is_first_carrier(routes@, *peer, finite_only, i as int));
                    let c = choose|k: int| is_first_carrier(routes@, *peer, finite_only, k);
                    if c < i {
                        assert(!can_carry(routes@[c], *peer, finite_only));
                    }
                    if i < c {
                        assert(can_carry(routes@[i as int], *peer, finite_only));
                    }
                }
                return Some(i);
            }
            i += 1;
        }
        None
    }

    /// The neighbour to which a request from `peer` is forwarded: the next hop
    /// of the first of `routes` with a finite metric that does not lead back to
    /// `peer`, or, without such a route, of the first that does not lead back.
    pub fn forward_to(routes: &Vec<RouteEntry>, peer: &Peer) -> (r: Option<Peer>)
        ensures
            r == forward_target(routes@, *peer),
    {
        match Self::first_carrier(routes, peer, true) {
            Some(i) => Some(routes[i].neighbor),
            None => match Self::first_carrier(routes, peer, false) {
                Some(i) => Some(routes[i].neighbor),
                None => None,
            },
        }
    }

    /// Announces the static routes to every neighbour.
    pub fn propagate_static_route(&mut self) -> (out: Outcome)
        requires
            old(self).wf(),
        ensures
            final(self).wf(),
            final(self).same_node(old(self)),
            out.leads(old(self)@, final(self)@),
            final(self)@.keeps(old(self)@),
            old(self)@.sound() ==> final(self)@.sound(),
            out@ == old(self)@.propagate_static_route(old(self).id()),
    {
        proof {
            if self@.sound() {
                lemma_announce_static_sound(self@, self.id());
            }
        }
        let mut out = Outcome::new();
        let plan = self.inner.propagate_static_route(self.router_id);
        self.commit_plan(plan, &mut out, Ghost(old(self)@));
        assert(out@.ops =~= plan@.ops);
        assert(out@.packets =~= plan@.packets);
        out
    }

    /// Announces every selected route to every neighbour but its next hop.
    pub fn propagate_selected_routes(&mut self) -> (out: Outcome)
        requires
            old(self).wf(),
        ensures
            final(self).wf(),
            final(self).same_node(old(self)),
            out.leads(old(self)@, final(self)@),
            final(self)@.keeps(old(self)@),
            steady(old(self)@) ==> final(self)@.sound(),
            out@ == old(self)@.propagate_selected_routes(),
    {
        proof {
            if steady(self@) {
                lemma_announce_all_sound(self@);
            }
        }
        let mut out = Outcome::new();
        let plan = self.inner.propagate_selected_routes();
        self.commit_plan(plan, &mut out, Ghost(old(self)@));
        assert(out@.ops =~= plan@.ops);
        assert(out@.packets =~= plan@.packets);
        out
    }

    /// Takes the request `request` for a newer sequence number that arrived from
    /// `source_peer` at `now`.
    ///
    /// If the prefix has a selected route with a finite metric that answers the
    /// request, the route is announced to `source_peer`. Else, if the request
    /// asks this router for a newer sequence number of one of its static routes,
    /// the sequence number is moved on and the static routes are announced, but
    /// not more often than the bump timeout allows. Else, if the request is for
    /// another router and has hops left, it is forwarded with one hop less.
    #[verifier::rlimit(50)]
    pub fn handle_incoming_seqno_request(&mut self, request: SeqNoRequest, source_peer: Peer, now: u64) -> (out:
        Outcome)
        requires
            old(self).wf(),
        ensures
            final(self).wf(),
            final(self).same_node(old(self)),
            out.leads(old(self)@, final(self)@),
            final(self)@.keeps(old(self)@),
            steady(old(self)@) && has_link(old(self)@.peers, source_peer) ==> final(self)@.sound(),
            out@ == old(self)@.on_seqno_request(old(self).id(), request, source_peer, now),
    {
        proof {
            if steady(self@) && has_link(self@.peers, source_peer) {
                lemma_seqno_request_sound(self@, self.id(), request, source_peer, now);
            }
        }
        let mut out = Outcome::new();
        let ghost start = self@;
        match self.inner.selected_route(request.prefix) {
            Some(route) => {
                if request.router_id != route.source.router_id || !route.seqno.lt(&request.seqno) {
                    let update = Update::new(
                        UPDATE_INTERVAL,
                        route.seqno,
                        route.metric.add(self.inner.link_cost(&source_peer)),
                        route.source.subnet,
                        route.source.router_id,
                    );
                    let mut updates: Vec<(Peer, Update)> = Vec::new();
                    updates.push((source_peer, update));
                    assert(updates@ =~= seq![(source_peer, update)]);
                    let plan = self.inner.send_updates(&updates);
                    self.commit_plan(plan, &mut out, Ghost(start));
                    assert(out@.ops =~= plan@.ops);
                    assert(out@.packets =~= plan@.packets);
                    return out;
                }
            },
            None => {},
        }
        if request.router_id == self.router_id && request.seqno.gt(&self.inner.router_seqno())
            && self.has_static_route(request.prefix) {
            if elapsed(now, self.inner.last_seqno_bump()) >= SEQNO_BUMP_TIMEOUT_MS {
                let bump = RouterOpLogEntry::BumpSequenceNumber(now);
                self.commit(bump, &mut out, Ghost(start));
                let plan = self.inner.propagate_static_route(self.router_id);
                self.commit_plan(plan, &mut out, Ghost(start));
                assert(out@.ops =~= seq![bump] + plan@.ops);
                assert(out@.packets =~= Seq::<(Peer, ControlPacket)>::empty() + plan@.packets);
            }
            return out;
        }
        if request.router_id != self.router_id && request.hop_count > 1 {
            let mut forwarded = request;
            forwarded.decrement_hop_count();
            let routes = self.find_all_routes(request.prefix);
            match Self::forward_to(&routes, &source_peer) {
                Some(target) => {
                    out.packets.push((target, Tlv::SeqNoRequest(forwarded)));
                    assert(out@.packets =~= seq![(target, Tlv::SeqNoRequest(forwarded))]);
                },
                None => {},
            }
        }
        out
    }

    /// The neighbours whose last IHU lies more than the dead peer threshold
    /// before `now`.
    pub fn dead_peers(&self, now: u64) -> (dead: Vec<Peer>)
        ensures
            dead@ == dead_peers(self@.peers, now),
    {
        let links = self.inner.peer_links();
        let mut dead: Vec<Peer> = Vec::new();
        let mut i: usize = 0;
        assert(links@.take(0) =~= Seq::<PeerLink>::empty());
        while i < links.len()
            invariant
                i <= links@.len(),
                dead@ == dead_peers(links@.take(i as int), now),
            decreases links@.len() - i,
        {
            assert(links@.take(i + 1).drop_last() =~= links@.take(i as int));
            if links[i].silent_longer_than(now, DEAD_PEER_THRESHOLD_MS) {
                dead.push(links[i].peer);
            }
            i += 1;
        }
        assert(links@.take(i as int) =~= links@);
        dead
    }

    /// Looks for neighbours that have fallen silent at `now`. Each of them is
    /// removed with every route through it, and every neighbour that is left is
    /// sent, for each dead one, a retraction of the /64 of its overlay address.
    #[verifier::rlimit(50)]
    pub fn check_for_dead_peers(&mut self, now: u64) -> (out: Outcome)
        requires
            old(self).wf(),
        ensures
            final(self).wf(),
            final(self).same_node(old(self)),
            out.leads(old(self)@, final(self)@),
            final(self)@.keeps(old(self)@),
            old(self)@.sound() ==> final(self)@.sound(),
            out@ == old(self)@.on_dead_peer_sweep(old(self).id(), now),
            forall|i: int|
                0 <= i < old(self)@.peers.len() && (#[trigger] old(self)@.peers[i]).silent_longer_than(
                    now,
                    DEAD_PEER_THRESHOLD_MS,
                ) ==> final(self)@.peer_gone(old(self)@.peers[i].peer),
    {
        proof {
            if self@.sound() {
                lemma_dead_peer_sweep_sound(self@, self.id(), now);
            }
        }
        let mut out = Outcome::new();
        let ghost start = self@;
        let ghost goal = start.on_dead_peer_sweep(self.id(), now);
        let dead = self.dead_peers(now);
        let mut retractions: Vec<Update> = Vec::new();
        let mut i: usize = 0;
        while i < dead.len()
            invariant
                i <= dead@.len(),
                dead@ == dead_peers(start.peers, now),
                goal == start.on_dead_peer_sweep(old(self).id(), now),
                self.wf(),
                self.same_node(old(self)),
                out.leads(start, self@),
                self@.keeps(start),
                forall|k: int| 0 <= k < i ==> self@.peer_gone(#[trigger] dead@[k]),
                self@.router_seqno == start.router_seqno,
                out.ops@ == goal.ops.take(i as int),
                out.packets@ == Seq::<(Peer, ControlPacket)>::empty(),
                retractions@ == Seq::new(
                    i as nat,
                    |k: int|
                        retraction(
                            start,
                            Subnet::containing(dead@[k].overlay_ip, PEER_PREFIX_LEN),
                            old(self).id(),
                        ),
                ),
            decreases dead@.len() - i,
        {
            let subnet = match Subnet::new(dead[i].overlay_ip, PEER_PREFIX_LEN) {
                Ok(subnet) => subnet,
                Err(_) => unreached(),
            };
            proof {
                self.inner.lemma_wf();
                lemma_removed_peer_gone(self@, dead@[i as int]);
                assert forall|k: int| 0 <= k < i implies self@.apply(
                    RouterOpLogEntry::RemovePeer(dead@[i as int]),
                ).peer_gone(#[trigger] dead@[k]) by {
                    lemma_gone_stays(self@, dead@[i as int], dead@[k]);
                }
            }
            self.commit(RouterOpLogEntry::RemovePeer(dead[i]), &mut out, Ghost(start));
            retractions.push(
                Update::new(
                    UPDATE_INTERVAL,
                    self.inner.router_seqno(),
                    Metric::infinite(),
                    subnet,
                    self.router_id,
                ),
            );
            assert(out.ops@ =~= goal.ops.take(i + 1));
            assert(retractions@ =~= Seq::new(
                (i + 1) as nat,
                |k: int|
                    retraction(
                        start,
                        Subnet::containing(dead@[k].overlay_ip, PEER_PREFIX_LEN),
                        old(self).id(),
                    ),
            ));
            i += 1;
        }
        assert(goal.ops.take(i as int) =~= goal.ops);
        let ghost swept = self@;
        let peers = self.inner.peers();
        let ghost links = self@.peers;
        let mut updates: Vec<(Peer, Update)> = Vec::new();
        let mut p: usize = 0;
        assert(links.take(0) =~= Seq::<PeerLink>::empty());
        while p < peers.len()
            invariant
                p <= peers@.len(),
                peers@ == Seq::new(links.len(), |k: int| links[k].peer),
                updates@ == to_each(links.take(p as int), retractions@),
            decreases peers@.len() - p,
        {
            assert(links.take(p + 1).drop_last() =~= links.take(p as int));
            let ghost done = updates@;
            let mut u: usize = 0;
            while u < retractions.len()
                invariant
                    p < peers@.len(),
                    u <= retractions@.len(),
                    updates@ == done + Seq::new(u as nat, |k: int| (peers@[p as int], retractions@[k])),
                decreases retractions@.len() - u,
            {
                updates.push((peers[p], retractions[u]));
                assert(updates@ =~= done + Seq::new(
                    (u + 1) as nat,
                    |k: int| (peers@[p as int], retractions@[k]),
                ));
                u += 1;
            }
            assert(Seq::new(retractions@.len(), |k: int| (peers@[p as int], retractions@[k]))
                =~= Seq::new(
                retractions@.len(),
                |k: int| (links.take(p + 1).last().peer, retractions@[k]),
            ));
            p += 1;
        }
        assert(links.take(p as int) =~= links);
        let mut k: usize = 0;
        while k < updates.len()
            invariant
                k <= updates@.len(),
                out.ops@ == goal.ops,
                out.timers@ == start.timers_of(out.ops@),
                out.packets@ == update_packets(updates@).take(k as int),
            decreases updates@.len() - k,
        {
            out.packets.push((updates[k].0, Tlv::Update(updates[k].1)));
            assert(out.packets@ =~= update_packets(updates@).take(k + 1));
            k += 1;
        }
        assert(update_packets(updates@).take(k as int) =~= update_packets(updates@));
        assert(self@ == swept);
        proof {
            assert forall|i: int|
                0 <= i < start.peers.len() && (#[trigger] start.peers[i]).silent_longer_than(
                    now,
                    DEAD_PEER_THRESHOLD_MS,
                ) implies self@.peer_gone(start.peers[i].peer) by {
                lemma_silent_is_dead(start.peers, now, i);
                let k = choose|k: int| 0 <= k < dead@.len() && dead@[k] == start.peers[i].peer;
                assert(self@.peer_gone(dead@[k]));
            }
        }
        out
    }

    /// Takes the expiry of the timer of the route `key` in the stage
    /// `expiration_type`. On `Retract` a route with a finite metric is retracted;
    /// on `Remove` a retracted route is removed; otherwise nothing happens. If
    /// the route was selected, the best route of its prefix is selected, if there
    /// is one, and if the expired route still had a finite metric the prefix is
    /// announced.
    #[verifier::rlimit(50)]
    pub fn process_expired_route_keys(&mut self, key: RouteKey, expiration_type: RouteExpirationType) -> (out:
        Outcome)
        requires
            old(self).wf(),
        ensures
            final(self).wf(),
            final(self).same_node(old(self)),
            out.leads(old(self)@, final(self)@),
            final(self)@.keeps(old(self)@),
            steady(old(self)@) ==> final(self)@.sound(),
            out@ == old(self)@.on_route_expiry(old(self).id(), key, expiration_type),
    {
        proof {
            if steady(self@) {
                lemma_route_expiry_sound(self@, self.id(), key, expiration_type);
            }
        }
        let mut out = Outcome::new();
        let ghost start = self@;
        let entry = match self.inner.routing_table().get(&key) {
            Some(entry) => entry,
            None => {
                return out;
            },
        };
        let change = if !entry.metric.is_infinite() && expiration_type
            == RouteExpirationType::Retract {
            RouterOpLogEntry::UpdateRouteEntry(
                key,
                entry.seqno,
                Metric::infinite(),
                entry.source.router_id,
            )
        } else if entry.metric.is_infinite() && expiration_type == RouteExpirationType::Remove {
            RouterOpLogEntry::RemoveRoute(key)
        } else {
            return out;
        };
        self.commit(change, &mut out, Ghost(start));
        assert(out@.ops =~= seq![change]);
        if entry.selected {
            let routes = self.inner.routing_table().entries(key.subnet);
            match self.find_best_route(&routes) {
                Some(route) => {
                    let select = RouterOpLogEntry::SelectRoute(
                        RouteKey::new(key.subnet, route.neighbor),
                    );
                    self.commit(select, &mut out, Ghost(start));
                    assert(out@.ops =~= seq![change, select]);
                    if !entry.metric.is_infinite() {
                        let ghost announce = self@.propagate_selected_route(
                            key.subnet,
                            self.id(),
                        );
                        self.trigger_update(key.subnet, self.router_id, &mut out, Ghost(start));
                        assert(out@.ops =~= seq![change, select] + announce.ops);
                        assert(out@.packets =~= Seq::<(Peer, ControlPacket)>::empty()
                            + announce.packets);
                    }
                },
                None => {},
            }
        }
        out
    }

    /// Takes the control packet `control_packet` that arrived from
    /// `source_peer` at `now`, according to its kind. `shared_secret` is the
    /// secret shared with the router that an update names; it counts for an
    /// update only.
    pub fn handle_incoming_control_packet(
        &mut self,
        control_packet: ControlPacket,
        source_peer: Peer,
        shared_secret: SharedSecret,
        now: u64,
    ) -> (out: Outcome)
        requires
            old(self).wf(),
        ensures
            final(self).wf(),
            final(self).same_node(old(self)),
            out.leads(old(self)@, final(self)@),
            !(control_packet is Ihu) ==> final(self)@.keeps_with(old(self)@, source_peer),
            control_packet is Ihu ==> final(self)@.keeps_routes(old(self)@),
            control_packet is Ihu && old(self)@.links_positive() && (forall|i: int|
                0 <= i < out.ops@.len() ==> RouterState::costs_kept(#[trigger] out.ops@[i]))
                ==> final(self)@.links_positive(),
            steady(old(self)@) && has_link(old(self)@.peers, source_peer) ==> final(self)@.sound(),
            out@ == old(self)@.on_control_packet(
                old(self).id(),
                control_packet matches Tlv::Update(update) && all_allow(
                    old(self).filters(),
                    update,
                ),
                control_packet,
                source_peer,
                shared_secret,
                now,
            ),
    {
        match control_packet {
            Tlv::Hello(_) => self.handle_incoming_hello(source_peer, now),
            Tlv::Ihu(_) => self.handle_incoming_ihu(source_peer, now),
            Tlv::Update(update) => self.handle_incoming_update(update, source_peer, shared_secret),
            Tlv::SeqNoRequest(request) => self.handle_incoming_seqno_request(
                request,
                source_peer,
                now,
            ),
        }
    }
}

} // verus!
