//! Which updates the router sends when it announces routes, and what sending
//! them does to the source table.

use vstd::prelude::*;
use crate::babel::{ControlPacket, Tlv, Update};
use crate::metric::{Metric, METRIC_INFINITE};
use crate::peer::{Peer, PeerLink};
use crate::route_lists::{all_routes, entries_of, selected_of};
use crate::router_id::RouterId;
use crate::router_state::{RouterOpLogEntry, RouterState, StaticRoute};
use crate::routing_table::{RouteEntry, RouteKey};
use crate::source_table::{feasible, FeasibilityDistance, SourceKey};
use crate::subnet::Subnet;

verus! {

/// The interval between Hellos, in seconds.
pub const HELLO_INTERVAL: u16 = 4;

/// The interval between IHUs, in seconds.
pub const IHU_INTERVAL: u16 = HELLO_INTERVAL * 3;

/// The interval between updates, in seconds.
pub const UPDATE_INTERVAL: u16 = HELLO_INTERVAL * 4;

/// The interval between two rounds of route propagation, in seconds.
pub const ROUTE_PROPAGATION_INTERVAL: u64 = 3;

/// A neighbour whose last IHU lies more than this many seconds back is dead.
pub const DEAD_PEER_THRESHOLD: u64 = 8;

/// The least number of seconds between two bumps of the own sequence number.
pub const SEQNO_BUMP_TIMEOUT: u64 = 4;

/// A selected route whose metric changes by more than this is announced at once.
pub const BIG_METRIC_CHANGE_THRESHOLD: u16 = 10;

/// What the router does in answer to an event: the operations that it applies
/// to its state, in their order, and the packets that it sends, in their order.
pub struct Reaction {
    pub ops: Seq<RouterOpLogEntry>,
    pub packets: Seq<(Peer, ControlPacket)>,
}

impl Reaction {
    /// Nothing.
    pub open spec fn none() -> Reaction {
        Reaction { ops: Seq::empty(), packets: Seq::empty() }
    }

    /// This reaction, followed by `next`.
    pub open spec fn then_also(self, next: Reaction) -> Reaction {
        Reaction { ops: self.ops + next.ops, packets: self.packets + next.packets }
    }
}

/// Whether some neighbour is reached at the underlay address `underlay_ip`.
pub open spec fn reached_at(peers: Seq<PeerLink>, underlay_ip: u128) -> bool {
    exists|i: int| 0 <= i < peers.len() && (#[trigger] peers[i]).peer.underlay_ip == underlay_ip
}

/// Whether there is a link to `peer`.
pub open spec fn has_link(peers: Seq<PeerLink>, peer: Peer) -> bool {
    exists|i: int| 0 <= i < peers.len() && (#[trigger] peers[i]).peer == peer
}

/// Whether `i` is the place of the first link to `peer`.
pub open spec fn is_first_link(peers: Seq<PeerLink>, peer: Peer, i: int) -> bool {
    &&& 0 <= i < peers.len()
    &&& peers[i].peer == peer
    &&& forall|j: int| 0 <= j < i ==> (#[trigger] peers[j]).peer != peer
}

/// The first link to `peer`.
pub open spec fn link_of(peers: Seq<PeerLink>, peer: Peer) -> Option<PeerLink> {
    if has_link(peers, peer) {
        Some(peers[choose|i: int| is_first_link(peers, peer, i)])
    } else {
        None
    }
}

/// The cost of the link to `peer`; a neighbour without a link counts as zero.
pub open spec fn link_cost_of(peers: Seq<PeerLink>, peer: Peer) -> Metric {
    match link_of(peers, peer) {
        Some(link) => Metric(link.link_cost),
        None => Metric(0),
    }
}

/// The source of the route that `update` announces.
pub open spec fn source_of(update: Update) -> SourceKey {
    SourceKey { subnet: update.subnet, router_id: update.router_id }
}

/// What sending `update` does to the source table: nothing for a retraction;
/// else the announced distance is recorded for the source if none is, or if it
/// is strictly better than the recorded one.
pub open spec fn source_op(sources: Map<SourceKey, FeasibilityDistance>, update: Update) -> Option<
    RouterOpLogEntry,
> {
    if !update.metric.is_infinite() && feasible(
        sources,
        source_of(update),
        update.metric,
        update.seqno,
    ) {
        Some(
            RouterOpLogEntry::InsertSourceEntry(
                source_of(update),
                FeasibilityDistance { metric: update.metric, seqno: update.seqno },
            ),
        )
    } else {
        None
    }
}

/// What sending `updates` does to the source table. Each update is judged
/// against the table as it stands before any of them is sent.
pub open spec fn source_ops(
    sources: Map<SourceKey, FeasibilityDistance>,
    updates: Seq<(Peer, Update)>,
) -> Seq<RouterOpLogEntry>
    decreases updates.len(),
{
    if updates.len() == 0 {
        Seq::empty()
    } else {
        let before = source_ops(sources, updates.drop_last());
        match source_op(sources, updates.last().1) {
            Some(op) => before.push(op),
            None => before,
        }
    }
}

/// Whether every operation of `ops` records a feasibility distance.
pub open spec fn only_source_ops(ops: Seq<RouterOpLogEntry>) -> bool {
    forall|i: int| 0 <= i < ops.len() ==> (#[trigger] ops[i]) is InsertSourceEntry
}

/// Sending updates touches nothing but the source table.
pub proof fn lemma_source_ops_only(sources: Map<SourceKey, FeasibilityDistance>, updates: Seq<(Peer, Update)>)
    ensures
        only_source_ops(source_ops(sources, updates)),
    decreases updates.len(),
{
    if updates.len() > 0 {
        lemma_source_ops_only(sources, updates.drop_last());
    }
}

/// The updates as packets.
pub open spec fn update_packets(updates: Seq<(Peer, Update)>) -> Seq<(Peer, ControlPacket)> {
    Seq::new(updates.len(), |i: int| (updates[i].0, Tlv::Update(updates[i].1)))
}

/// Sending `updates`: the packets, and what they do to the source table.
pub open spec fn sending(sources: Map<SourceKey, FeasibilityDistance>, updates: Seq<(Peer, Update)>) -> Reaction {
    Reaction { ops: source_ops(sources, updates), packets: update_packets(updates) }
}

/// `update` for every neighbour but `skip`, in the order of the links.
pub open spec fn to_peers_except(peers: Seq<PeerLink>, update: Update, skip: Option<Peer>) -> Seq<
    (Peer, Update),
>
    decreases peers.len(),
{
    if peers.len() == 0 {
        Seq::empty()
    } else if skip == Some(peers.last().peer) {
        to_peers_except(peers.drop_last(), update, skip)
    } else {
        to_peers_except(peers.drop_last(), update, skip).push((peers.last().peer, update))
    }
}

/// What goes to the neighbours is the one update, for each of them.
pub proof fn lemma_same_to_all(peers: Seq<PeerLink>, update: Update, skip: Option<Peer>)
    ensures
        forall|i: int|
            0 <= i < to_peers_except(peers, update, skip).len() ==> (#[trigger] to_peers_except(
                peers,
                update,
                skip,
            )[i]).1 == update,
    decreases peers.len(),
{
    if peers.len() > 0 {
        lemma_same_to_all(peers.drop_last(), update, skip);
        let all = to_peers_except(peers, update, skip);
        let before = to_peers_except(peers.drop_last(), update, skip);
        assert forall|i: int| 0 <= i < all.len() implies (#[trigger] all[i]).1 == update by {
            if i < before.len() {
                assert(before[i].1 == update);
            }
        }
    }
}

/// The update that announces the static route `route`.
pub open spec fn static_update(s: RouterState, router_id: RouterId, route: StaticRoute) -> Update {
    Update {
        interval: UPDATE_INTERVAL,
        seqno: s.router_seqno,
        metric: Metric(0),
        subnet: route.subnet,
        router_id,
    }
}

/// The updates that announce the static routes `routes`: route by route, each
/// to every neighbour.
pub open spec fn static_updates(s: RouterState, router_id: RouterId, routes: Seq<StaticRoute>) -> Seq<
    (Peer, Update),
>
    decreases routes.len(),
{
    if routes.len() == 0 {
        Seq::empty()
    } else {
        static_updates(s, router_id, routes.drop_last()) + to_peers_except(
            s.peers,
            static_update(s, router_id, routes.last()),
            None,
        )
    }
}

/// The update that announces the route `entry` to `subnet`: at the route's
/// metric plus the cost of the link to its next hop.
pub open spec fn route_update(s: RouterState, subnet: Subnet, entry: RouteEntry) -> Update {
    Update {
        interval: UPDATE_INTERVAL,
        seqno: entry.seqno,
        metric: entry.metric.add(link_cost_of(s.peers, entry.neighbor)),
        subnet,
        router_id: entry.source.router_id,
    }
}

/// The update that retracts the route to `subnet`.
pub open spec fn retraction(s: RouterState, subnet: Subnet, router_id: RouterId) -> Update {
    Update {
        interval: UPDATE_INTERVAL,
        seqno: s.router_seqno,
        metric: Metric(METRIC_INFINITE),
        subnet,
        router_id,
    }
}

/// The updates that announce the state of the route to `subnet`. If the prefix
/// has a selected route with a finite metric, that route goes to every neighbour
/// but its next hop. If not, a retraction in the name of `router_id` goes to
/// every neighbour.
pub open spec fn selected_updates(s: RouterState, subnet: Subnet, router_id: RouterId) -> Seq<
    (Peer, Update),
> {
    match selected_of(entries_of(s.routes, subnet)) {
        Some(entry) => to_peers_except(
            s.peers,
            route_update(s, subnet, entry),
            Some(entry.neighbor),
        ),
        None => to_peers_except(s.peers, retraction(s, subnet, router_id), None),
    }
}

/// The updates that announce the selected routes among `routes`: route by
/// route, each to every neighbour but its next hop.
pub open spec fn routes_updates(s: RouterState, routes: Seq<(RouteKey, RouteEntry)>) -> Seq<
    (Peer, Update),
>
    decreases routes.len(),
{
    if routes.len() == 0 {
        Seq::empty()
    } else if routes.last().1.selected {
        routes_updates(s, routes.drop_last()) + to_peers_except(
            s.peers,
            route_update(s, routes.last().0.subnet, routes.last().1),
            Some(routes.last().1.neighbor),
        )
    } else {
        routes_updates(s, routes.drop_last())
    }
}

impl RouterState {
    /// Announcing the static routes in the name of `router_id`.
    pub open spec fn propagate_static_route(self, router_id: RouterId) -> Reaction {
        sending(self.sources, static_updates(self, router_id, self.static_routes))
    }

    /// Announcing the state of the route to `subnet`.
    pub open spec fn propagate_selected_route(self, subnet: Subnet, router_id: RouterId) -> Reaction {
        sending(self.sources, selected_updates(self, subnet, router_id))
    }

    /// Announcing every selected route.
    pub open spec fn propagate_selected_routes(self) -> Reaction {
        sending(self.sources, routes_updates(self, all_routes(self.routes)))
    }
}

} // verus!
