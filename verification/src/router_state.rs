//! The state of the router as a mathematical value, and what each logged
//! operation does to it.

use vstd::prelude::*;
use crate::crypto::{PublicKey, SharedSecret};
use crate::metric::Metric;
use crate::peer::{Peer, PeerLink};
use crate::route_lists::{
    get_route, insert_route, refresh_route, remove_peer_routes, remove_route, select_route,
    unselect_route, RouteLists,
};
use crate::router_id::RouterId;
use crate::routing_table::{RouteEntry, RouteKey};
use crate::timers::{expiration_of, TimerRequest};
use crate::sequence_number::SeqNo;
use crate::source_table::{FeasibilityDistance, SourceKey};
use crate::subnet::Subnet;

verus! {

/// A prefix that this node owns and announces itself.
#[derive(Clone, Copy, Debug, PartialEq, Eq, Structural)]
pub struct StaticRoute {
    pub subnet: Subnet,
}

impl StaticRoute {
    /// The static route to `subnet`.
    pub fn new(subnet: Subnet) -> (r: StaticRoute)
        ensures
            r.subnet == subnet,
    {
        StaticRoute { subnet }
    }

    /// The prefix.
    pub fn subnet(&self) -> (s: Subnet)
        ensures
            s == self.subnet,
    {
        self.subnet
    }
}

/// One change of the router's state. The state changes through these and in no
/// other way, so a log of them is enough to keep a copy of the state in step.
pub enum RouterOpLogEntry {
    /// Record the public key and shared secret of the owner of a prefix.
    AddDestPubkey(Subnet, PublicKey, SharedSecret),
    /// Add a neighbour, with the state of its link.
    AddPeer(PeerLink),
    /// Remove a neighbour and every route through it.
    RemovePeer(Peer),
    /// Record a feasibility distance.
    InsertSourceEntry(SourceKey, FeasibilityDistance),
    /// Forget a feasibility distance.
    RemoveSourceEntry(SourceKey),
    /// Insert a route.
    InsertRoute(RouteKey, RouteEntry),
    /// Remove a route.
    RemoveRoute(RouteKey),
    /// Take the mark of selection from a route.
    UnselectRoute(RouteKey),
    /// Select a route for its prefix.
    SelectRoute(RouteKey),
    /// Give a route a new sequence number, metric and originating router.
    UpdateRouteEntry(RouteKey, SeqNo, Metric, RouterId),
    /// Replace the static routes.
    SetStaticRoutes(Vec<StaticRoute>),
    /// Move the router's own sequence number on by one, at the given time.
    BumpSequenceNumber(u64),
    /// Record the time of a Hello on the link to a neighbour.
    RecordHello(Peer, u64),
    /// Record the cost of the link to a neighbour and the time of its IHU.
    RecordIhu(Peer, u16, u64),
}

/// The state of the router.
pub struct RouterState {
    /// The links to the neighbours, in the order in which they joined.
    pub peers: Seq<PeerLink>,
    /// The routing table.
    pub routes: RouteLists,
    /// The source table.
    pub sources: Map<SourceKey, FeasibilityDistance>,
    /// The sequence number under which this router announces its own prefixes.
    pub router_seqno: SeqNo,
    /// When the sequence number was last moved on.
    pub last_seqno_bump: u64,
    /// The prefixes that this node owns.
    pub static_routes: Seq<StaticRoute>,
    /// The destination key map.
    pub dest_keys: Map<Subnet, (PublicKey, SharedSecret)>,
}

/// The links without those to `peer`, the others in their order.
pub open spec fn without_links(peers: Seq<PeerLink>, peer: Peer) -> Seq<PeerLink>
    decreases peers.len(),
{
    if peers.len() == 0 {
        peers
    } else if peers.last().peer == peer {
        without_links(peers.drop_last(), peer)
    } else {
        without_links(peers.drop_last(), peer).push(peers.last())
    }
}

/// The links with the time of the last Hello on the links to `peer` set.
pub open spec fn with_hello(peers: Seq<PeerLink>, peer: Peer, time: u64) -> Seq<PeerLink> {
    Seq::new(
        peers.len(),
        |i: int|
            if peers[i].peer == peer {
                PeerLink { time_last_received_hello: time, ..peers[i] }
            } else {
                peers[i]
            },
    )
}

/// The links with the cost and the time of the last IHU on the links to `peer`
/// set.
pub open spec fn with_ihu(peers: Seq<PeerLink>, peer: Peer, cost: u16, time: u64) -> Seq<PeerLink> {
    Seq::new(
        peers.len(),
        |i: int|
            if peers[i].peer == peer {
                PeerLink { link_cost: cost, time_last_received_ihu: time, ..peers[i] }
            } else {
                peers[i]
            },
    )
}

impl RouterState {
    /// The state after the operation `op`.
    pub open spec fn apply(self, op: RouterOpLogEntry) -> RouterState {
        match op {
            RouterOpLogEntry::AddDestPubkey(subnet, public_key, shared_secret) => RouterState {
                dest_keys: self.dest_keys.insert(subnet, (public_key, shared_secret)),
                ..self
            },
            RouterOpLogEntry::AddPeer(link) => RouterState { peers: self.peers.push(link), ..self },
            RouterOpLogEntry::RemovePeer(peer) => RouterState {
                peers: without_links(self.peers, peer),
                routes: remove_peer_routes(self.routes, peer),
                ..self
            },
            RouterOpLogEntry::InsertSourceEntry(key, distance) => RouterState {
                sources: self.sources.insert(key, distance),
                ..self
            },
            RouterOpLogEntry::RemoveSourceEntry(key) => RouterState {
                sources: self.sources.remove(key),
                ..self
            },
            RouterOpLogEntry::InsertRoute(key, entry) => RouterState {
                routes: insert_route(self.routes, key, entry),
                ..self
            },
            RouterOpLogEntry::RemoveRoute(key) => RouterState {
                routes: remove_route(self.routes, key),
                ..self
            },
            RouterOpLogEntry::UnselectRoute(key) => RouterState {
                routes: unselect_route(self.routes, key),
                ..self
            },
            RouterOpLogEntry::SelectRoute(key) => RouterState {
                routes: select_route(self.routes, key),
                ..self
            },
            RouterOpLogEntry::UpdateRouteEntry(key, seqno, metric, router_id) => RouterState {
                routes: refresh_route(self.routes, key, seqno, metric, router_id),
                ..self
            },
            RouterOpLogEntry::SetStaticRoutes(static_routes) => RouterState {
                static_routes: static_routes@,
                ..self
            },
            RouterOpLogEntry::BumpSequenceNumber(time) => RouterState {
                router_seqno: self.router_seqno.next(),
                last_seqno_bump: time,
                ..self
            },
            RouterOpLogEntry::RecordHello(peer, time) => RouterState {
                peers: with_hello(self.peers, peer, time),
                ..self
            },
            RouterOpLogEntry::RecordIhu(peer, cost, time) => RouterState {
                peers: with_ihu(self.peers, peer, cost, time),
                ..self
            },
        }
    }

    /// The state after the operations `ops`, applied in their order.
    pub open spec fn apply_all(self, ops: Seq<RouterOpLogEntry>) -> RouterState
        decreases ops.len(),
    {
        if ops.len() == 0 {
            self
        } else {
            self.apply_all(ops.drop_last()).apply(ops.last())
        }
    }

    /// The timer that is to be started when `op` is applied to this state: the
    /// timer of a source entry that is recorded, of a route that is inserted,
    /// and of a route that is there and is given new values.
    pub open spec fn timer_of(self, op: RouterOpLogEntry) -> Option<TimerRequest> {
        match op {
            RouterOpLogEntry::InsertSourceEntry(key, _) => Some(TimerRequest::Source(key)),
            RouterOpLogEntry::InsertRoute(key, entry) => Some(
                TimerRequest::Route(key, expiration_of(entry.metric)),
            ),
            RouterOpLogEntry::UpdateRouteEntry(key, _, metric, _) => if get_route(
                self.routes,
                key,
            ) is Some {
                Some(TimerRequest::Route(key, expiration_of(metric)))
            } else {
                None
            },
            _ => None,
        }
    }

    /// The timers that are to be started when `ops` are applied to this state
    /// in their order.
    pub open spec fn timers_of(self, ops: Seq<RouterOpLogEntry>) -> Seq<TimerRequest>
        decreases ops.len(),
    {
        if ops.len() == 0 {
            Seq::empty()
        } else {
            let before = self.timers_of(ops.drop_last());
            match self.apply_all(ops.drop_last()).timer_of(ops.last()) {
                Some(timer) => before.push(timer),
                None => before,
            }
        }
    }
}

/// Applying one more operation after a log is applying the longer log, and the
/// timers to start are those of the log followed by that of the operation.
pub proof fn lemma_apply_push(s: RouterState, ops: Seq<RouterOpLogEntry>, op: RouterOpLogEntry)
    ensures
        s.apply_all(ops.push(op)) == s.apply_all(ops).apply(op),
        s.timers_of(ops.push(op)) == match s.apply_all(ops).timer_of(op) {
            Some(timer) => s.timers_of(ops).push(timer),
            None => s.timers_of(ops),
        },
{
    assert(ops.push(op).drop_last() =~= ops);
}

/// Applying two logs one after the other is applying them joined, and the timers
/// to start are those of the first followed by those of the second.
pub proof fn lemma_apply_concat(s: RouterState, first: Seq<RouterOpLogEntry>, second: Seq<RouterOpLogEntry>)
    ensures
        s.apply_all(first + second) == s.apply_all(first).apply_all(second),
        s.timers_of(first + second) == s.timers_of(first) + s.apply_all(first).timers_of(second),
    decreases second.len(),
{
    if second.len() == 0 {
        assert(first + second =~= first);
        assert(s.timers_of(first) + Seq::<TimerRequest>::empty() =~= s.timers_of(first));
    } else {
        lemma_apply_concat(s, first, second.drop_last());
        assert((first + second).drop_last() =~= first + second.drop_last());
        assert((first + second).last() == second.last());
        let mid = s.apply_all(first);
        match mid.apply_all(second.drop_last()).timer_of(second.last()) {
            Some(timer) => {
                assert((s.timers_of(first) + mid.timers_of(second.drop_last())).push(timer)
                    =~= s.timers_of(first) + mid.timers_of(second.drop_last()).push(timer));
            },
            None => {},
        }
    }
}

/// Applying a log of one operation is applying the operation.
pub proof fn lemma_apply_single(s: RouterState, op: RouterOpLogEntry)
    ensures
        s.apply_all(seq![op]) == s.apply(op),
        s.apply_all(Seq::empty()) == s,
{
    assert(seq![op].drop_last() =~= Seq::<RouterOpLogEntry>::empty());
    assert(seq![op].last() == op);
    assert(s.apply_all(Seq::empty()) == s);
    assert(s.apply_all(seq![op]) == s.apply_all(seq![op].drop_last()).apply(seq![op].last()));
}

} // verus!
