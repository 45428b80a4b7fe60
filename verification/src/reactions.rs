//! What the router does on each event of the protocol, as a function of its
//! state and the event.

use vstd::prelude::*;
use crate::babel::{ControlPacket, Hello, Ihu, SeqNoRequest, Tlv, Update, DEFAULT_HOP_COUNT};
use crate::crypto::SharedSecret;
use crate::metric::{Metric, METRIC_INFINITE};
use crate::peer::{clamped_cost, elapsed_ms, Peer, PeerLink};
use crate::propagation::{
    link_cost_of, link_of, retraction, sending, source_of, update_packets, Reaction,
    BIG_METRIC_CHANGE_THRESHOLD, DEAD_PEER_THRESHOLD, HELLO_INTERVAL, IHU_INTERVAL,
    SEQNO_BUMP_TIMEOUT, UPDATE_INTERVAL,
};
use crate::route_lists::{
    entries_of, fallbacks_of, get_route, matched_entries, neighbour_index, route_of, selected_of,
};
use crate::router_id::RouterId;
use crate::router_state::{RouterOpLogEntry, RouterState, StaticRoute};
use crate::routing_table::{RouteEntry, RouteExpirationType, RouteKey};
use crate::source_table::{feasible, FeasibilityDistance, SourceKey};
use crate::subnet::Subnet;

verus! {

/// The number of milliseconds in a second.
pub const MILLIS_PER_SECOND: u64 = 1000;

/// [`DEAD_PEER_THRESHOLD`] in milliseconds.
pub const DEAD_PEER_THRESHOLD_MS: u64 = DEAD_PEER_THRESHOLD * MILLIS_PER_SECOND;

/// [`SEQNO_BUMP_TIMEOUT`] in milliseconds.
pub const SEQNO_BUMP_TIMEOUT_MS: u64 = SEQNO_BUMP_TIMEOUT * MILLIS_PER_SECOND;

/// The length of the prefix that is retracted for a dead neighbour.
pub const PEER_PREFIX_LEN: u8 = 64;

/// Whether the route `entry` is feasible against the distances `sources`.
pub open spec fn route_feasible(sources: Map<SourceKey, FeasibilityDistance>, entry: RouteEntry) -> bool {
    feasible(sources, entry.source, entry.metric, entry.seqno)
}

/// Whether some route of `list` is feasible.
pub open spec fn has_feasible(sources: Map<SourceKey, FeasibilityDistance>, list: Seq<RouteEntry>) -> bool {
    exists|i: int| 0 <= i < list.len() && route_feasible(sources, #[trigger] list[i])
}

/// Whether the route at `i` is the best of `list`: it is feasible, no feasible
/// route has a smaller metric, and every feasible route before it has a greater
/// one.
pub open spec fn is_best(sources: Map<SourceKey, FeasibilityDistance>, list: Seq<RouteEntry>, i: int) -> bool {
    &&& 0 <= i < list.len()
    &&& route_feasible(sources, list[i])
    &&& forall|j: int|
        0 <= j < list.len() && route_feasible(sources, #[trigger] list[j]) ==> list[i].metric.0
            <= list[j].metric.0
    &&& forall|j: int|
        0 <= j < i && route_feasible(sources, #[trigger] list[j]) ==> list[i].metric.0
            < list[j].metric.0
}

/// The best route of `list`: the feasible route with the smallest metric, and of
/// several such the first of the list. None if no route is feasible.
pub open spec fn best_route(sources: Map<SourceKey, FeasibilityDistance>, list: Seq<RouteEntry>) -> Option<
    RouteEntry,
> {
    if has_feasible(sources, list) {
        Some(list[choose|i: int| is_best(sources, list, i)])
    } else {
        None
    }
}

/// The route in front of `list`, if it is marked as selected.
pub open spec fn marked_front(list: Seq<RouteEntry>) -> Option<RouteEntry> {
    if list.len() > 0 && list[0].selected {
        Some(list[0])
    } else {
        None
    }
}

/// Whether the change of the selected route from `before` to `after` is to be
/// announced at once: a route was gained or lost, or the originating router
/// changed, or the sequence number grew, or the metric moved by more than
/// [`BIG_METRIC_CHANGE_THRESHOLD`].
pub open spec fn needs_triggered_update(before: Option<RouteEntry>, after: Option<RouteEntry>) -> bool {
    match (before, after) {
        (Some(was), Some(is)) => is.source.router_id != was.source.router_id || is.seqno.gt(
            &was.seqno,
        ) || is.metric.delta(&was.metric).0 > BIG_METRIC_CHANGE_THRESHOLD,
        (None, Some(_)) => true,
        (Some(_), None) => true,
        (None, None) => false,
    }
}

/// Whether `subnet` is one of the static routes.
pub open spec fn is_static(routes: Seq<StaticRoute>, subnet: Subnet) -> bool {
    exists|i: int| 0 <= i < routes.len() && (#[trigger] routes[i]).subnet == subnet
}

/// The key of the route that `update` from `peer` speaks of.
pub open spec fn key_of(update: Update, peer: Peer) -> RouteKey {
    RouteKey { subnet: update.subnet, neighbor: peer }
}

/// The request for a newer sequence number that answers an unfeasible update to
/// the selected route.
pub open spec fn seqno_request_for(sources: Map<SourceKey, FeasibilityDistance>, update: Update) -> SeqNoRequest {
    SeqNoRequest {
        seqno: sources[source_of(update)].seqno.next(),
        router_id: update.router_id,
        prefix: update.subnet,
        hop_count: DEFAULT_HOP_COUNT,
    }
}

/// The route that `update` from `peer` describes, as it enters the table: not
/// selected.
pub open spec fn new_route(update: Update, peer: Peer) -> RouteEntry {
    RouteEntry {
        source: source_of(update),
        neighbor: peer,
        metric: update.metric,
        seqno: update.seqno,
        selected: false,
    }
}

/// The operation that selects the route through `route`'s neighbour.
pub open spec fn selecting(subnet: Subnet, route: RouteEntry) -> RouterOpLogEntry {
    RouterOpLogEntry::SelectRoute(RouteKey { subnet, neighbor: route.neighbor })
}

impl RouterState {
    /// The routes of the prefix of `update` once the route of `peer` has the
    /// values of `update`: the route is changed in place, and loses its mark if
    /// it was selected and the update is unfeasible; or, if `peer` had no route
    /// to the prefix, the new route stands at the end.
    pub open spec fn list_after_update(self, update: Update, peer: Peer) -> Seq<RouteEntry> {
        let list = entries_of(self.routes, update.subnet);
        let is_feasible = feasible(self.sources, source_of(update), update.metric, update.seqno);
        match route_of(list, peer) {
            Some(existing) => {
                let refreshed = existing.refreshed(update.seqno, update.metric, update.router_id);
                if existing.selected && !is_feasible {
                    list.update(
                        neighbour_index(list, peer),
                        RouteEntry { selected: false, ..refreshed },
                    )
                } else {
                    list.update(neighbour_index(list, peer), refreshed)
                }
            },
            None => list.push(new_route(update, peer)),
        }
    }

    /// The second half of taking an update: `changes` have brought the routes of
    /// the update's prefix to `list`, and `was_selected` was selected before. The
    /// best route of `list` is selected, and if the selection changed enough, the
    /// route's new state is announced.
    pub open spec fn select_after_update(
        self,
        update: Update,
        changes: Seq<RouterOpLogEntry>,
        list: Seq<RouteEntry>,
        was_selected: Option<RouteEntry>,
    ) -> Reaction {
        let best = best_route(self.sources, list);
        let ops = match best {
            Some(route) => changes.push(selecting(update.subnet, route)),
            None => changes,
        };
        let done = Reaction { ops, packets: Seq::empty() };
        if needs_triggered_update(was_selected, best) {
            done.then_also(
                self.apply_all(ops).propagate_selected_route(update.subnet, update.router_id),
            )
        } else {
            done
        }
    }

    /// Taking the update `update` from `peer` into the routing table.
    ///
    /// Where `peer` has a route to the prefix already: an unfeasible update from
    /// the same router to the selected route changes nothing and is answered by a
    /// request for the next sequence number; any other update replaces the
    /// route's values, and takes the mark from a selected route if it is
    /// unfeasible. Where `peer` has no route to the prefix: a retraction or an
    /// unfeasible update is dropped, any other update enters as a new route.
    /// Then the best route is selected.
    pub open spec fn take_update(self, update: Update, peer: Peer) -> Reaction {
        let list = entries_of(self.routes, update.subnet);
        let is_feasible = feasible(self.sources, source_of(update), update.metric, update.seqno);
        match route_of(list, peer) {
            Some(existing) => {
                if existing.selected && !is_feasible && existing.source.router_id
                    == update.router_id {
                    Reaction {
                        ops: Seq::empty(),
                        packets: seq![
                            (peer, Tlv::SeqNoRequest(seqno_request_for(self.sources, update))),
                        ],
                    }
                } else {
                    let refresh = RouterOpLogEntry::UpdateRouteEntry(
                        key_of(update, peer),
                        update.seqno,
                        update.metric,
                        update.router_id,
                    );
                    let refreshed = existing.refreshed(
                        update.seqno,
                        update.metric,
                        update.router_id,
                    );
                    let at = neighbour_index(list, peer);
                    if existing.selected && !is_feasible {
                        self.select_after_update(
                            update,
                            seq![refresh, RouterOpLogEntry::UnselectRoute(key_of(update, peer))],
                            list.update(at, RouteEntry { selected: false, ..refreshed }),
                            marked_front(list),
                        )
                    } else {
                        self.select_after_update(
                            update,
                            seq![refresh],
                            list.update(at, refreshed),
                            marked_front(list),
                        )
                    }
                }
            },
            None => {
                if update.metric.is_infinite() || !is_feasible {
                    Reaction::none()
                } else {
                    self.select_after_update(
                        update,
                        seq![
                            RouterOpLogEntry::InsertRoute(
                                key_of(update, peer),
                                new_route(update, peer),
                            ),
                        ],
                        list.push(new_route(update, peer)),
                        marked_front(list),
                    )
                }
            },
        }
    }

    /// What the router does on the update `update` from `peer`. `allowed` says
    /// whether the filters let the update through, and `secret` is the secret
    /// shared with the router that the update names.
    ///
    /// An update that the filters reject does nothing. Any other update has the
    /// keys of its router recorded for its prefix. An update for a static route
    /// does no more; any other is taken into the routing table.
    pub open spec fn on_update(self, allowed: bool, update: Update, peer: Peer, secret: SharedSecret) -> Reaction {
        if !allowed {
            Reaction::none()
        } else {
            let learn = RouterOpLogEntry::AddDestPubkey(
                update.subnet,
                update.router_id.0,
                secret,
            );
            let learned = Reaction { ops: seq![learn], packets: Seq::empty() };
            if is_static(self.static_routes, update.subnet) {
                learned
            } else {
                learned.then_also(self.apply(learn).take_update(update, peer))
            }
        }
    }
}

/// Whether a request from `peer` can be forwarded through `route`: the route
/// does not lead back to `peer`, and where `finite_only` is set its metric is
/// finite.
pub open spec fn can_carry(route: RouteEntry, peer: Peer, finite_only: bool) -> bool {
    route.neighbor != peer && (finite_only ==> !route.metric.is_infinite())
}

/// Whether some route of `routes` can carry a request from `peer`.
pub open spec fn has_carrier(routes: Seq<RouteEntry>, peer: Peer, finite_only: bool) -> bool {
    exists|i: int| 0 <= i < routes.len() && can_carry(#[trigger] routes[i], peer, finite_only)
}

/// Whether the route at `i` is the first of `routes` that can carry a request
/// from `peer`.
pub open spec fn is_first_carrier(routes: Seq<RouteEntry>, peer: Peer, finite_only: bool, i: int) -> bool {
    &&& 0 <= i < routes.len()
    &&& can_carry(routes[i], peer, finite_only)
    &&& forall|j: int| 0 <= j < i ==> !can_carry(#[trigger] routes[j], peer, finite_only)
}

/// The neighbour to which a request from `peer` is forwarded: the next hop of
/// the first route with a finite metric that does not lead back to `peer`, or,
/// without such a route, of the first route that does not lead back to `peer`.
pub open spec fn forward_target(routes: Seq<RouteEntry>, peer: Peer) -> Option<Peer> {
    if has_carrier(routes, peer, true) {
        Some(routes[choose|i: int| is_first_carrier(routes, peer, true, i)].neighbor)
    } else if has_carrier(routes, peer, false) {
        Some(routes[choose|i: int| is_first_carrier(routes, peer, false, i)].neighbor)
    } else {
        None
    }
}

/// The routes of `list` that the router can use: the selected route, if it has a
/// finite metric, and then the routes that are not selected.
pub open spec fn known_routes(list: Seq<RouteEntry>) -> Seq<RouteEntry> {
    match selected_of(list) {
        Some(route) => seq![route] + fallbacks_of(list),
        None => fallbacks_of(list),
    }
}

/// The neighbours of `peers` whose last IHU lies more than
/// [`DEAD_PEER_THRESHOLD`] seconds before `now`, in the order of the links.
pub open spec fn dead_peers(peers: Seq<PeerLink>, now: u64) -> Seq<Peer>
    decreases peers.len(),
{
    if peers.len() == 0 {
        Seq::empty()
    } else if peers.last().silent_longer_than(now, DEAD_PEER_THRESHOLD_MS) {
        dead_peers(peers.drop_last(), now).push(peers.last().peer)
    } else {
        dead_peers(peers.drop_last(), now)
    }
}

/// Every neighbour that has fallen silent is among the dead.
pub proof fn lemma_silent_is_dead(peers: Seq<PeerLink>, now: u64, i: int)
    requires
        0 <= i < peers.len(),
        peers[i].silent_longer_than(now, DEAD_PEER_THRESHOLD_MS),
    ensures
        dead_peers(peers, now).contains(peers[i].peer),
    decreases peers.len(),
{
    let dead = dead_peers(peers, now);
    if i == peers.len() - 1 {
        assert(dead[dead.len() - 1] == peers[i].peer);
    } else {
        lemma_silent_is_dead(peers.drop_last(), now, i);
        let before = dead_peers(peers.drop_last(), now);
        let k = choose|k: int| 0 <= k < before.len() && before[k] == peers[i].peer;
        assert(dead[k] == peers[i].peer);
    }
}

/// Every update of `updates` for every neighbour: neighbour by neighbour in the
/// order of the links, for each the updates in their order.
pub open spec fn to_each(peers: Seq<PeerLink>, updates: Seq<Update>) -> Seq<(Peer, Update)>
    decreases peers.len(),
{
    if peers.len() == 0 {
        Seq::empty()
    } else {
        to_each(peers.drop_last(), updates) + Seq::new(
            updates.len(),
            |i: int| (peers.last().peer, updates[i]),
        )
    }
}

/// Where a packet goes.
#[derive(Clone, Copy, Debug, PartialEq, Eq, Structural)]
pub enum PacketRoute {
    /// To this node itself.
    Local,
    /// To the given neighbour.
    Forward(Peer),
    /// Nowhere: there is no route.
    Unroutable,
}

impl RouterState {
    /// What the router does on the request `request` from `peer` at `now`;
    /// `local` is the router's own identity.
    ///
    /// If the prefix has a selected route with a finite metric that comes from
    /// another router than the one asked for, or has a sequence number that is
    /// not older than the one asked for, that route is announced to `peer`.
    /// Else, if the request asks this router for a sequence number newer than
    /// its own, for a prefix among the static routes: the sequence number is
    /// moved on and the static routes are announced, unless it was moved on
    /// less than [`SEQNO_BUMP_TIMEOUT`] seconds ago. Else, if the request is for
    /// another router and has more than one hop left, it is forwarded with one
    /// hop less, if some route can carry it.
    pub open spec fn on_seqno_request(self, local: RouterId, request: SeqNoRequest, peer: Peer, now: u64) -> Reaction {
        let list = entries_of(self.routes, request.prefix);
        if selected_of(list) is Some && (request.router_id != selected_of(
            list,
        )->0.source.router_id || !selected_of(list)->0.seqno.lt(&request.seqno)) {
            let route = selected_of(list)->0;
            sending(
                self.sources,
                seq![
                    (
                        peer,
                        Update {
                            interval: UPDATE_INTERVAL,
                            seqno: route.seqno,
                            metric: route.metric.add(link_cost_of(self.peers, peer)),
                            subnet: route.source.subnet,
                            router_id: route.source.router_id,
                        },
                    ),
                ],
            )
        } else if request.router_id == local && request.seqno.gt(&self.router_seqno) && is_static(
            self.static_routes,
            request.prefix,
        ) {
            if elapsed_ms(now, self.last_seqno_bump) >= SEQNO_BUMP_TIMEOUT_MS {
                let bump = RouterOpLogEntry::BumpSequenceNumber(now);
                Reaction { ops: seq![bump], packets: Seq::empty() }.then_also(
                    self.apply(bump).propagate_static_route(local),
                )
            } else {
                Reaction::none()
            }
        } else if request.router_id != local && request.hop_count > 1 {
            match forward_target(known_routes(list), peer) {
                Some(target) => Reaction {
                    ops: Seq::empty(),
                    packets: seq![(target, Tlv::SeqNoRequest(request.forwarded()))],
                },
                None => Reaction::none(),
            }
        } else {
            Reaction::none()
        }
    }

    /// What the router does at `now` about neighbours that have fallen silent:
    /// each dead neighbour is removed with its routes, and every neighbour that
    /// is left gets, for each dead one, a retraction of the /64 of its overlay
    /// address in the name of `local`.
    pub open spec fn on_dead_peer_sweep(self, local: RouterId, now: u64) -> Reaction {
        let dead = dead_peers(self.peers, now);
        let ops = Seq::new(dead.len(), |i: int| RouterOpLogEntry::RemovePeer(dead[i]));
        let retractions = Seq::new(
            dead.len(),
            |i: int|
                retraction(self, Subnet::containing(dead[i].overlay_ip, PEER_PREFIX_LEN), local),
        );
        Reaction {
            ops,
            packets: update_packets(to_each(self.apply_all(ops).peers, retractions)),
        }
    }

    /// What the router does when the timer of the source `key` has run out: the
    /// source is forgotten.
    pub open spec fn on_source_expiry(self, key: SourceKey) -> Reaction {
        Reaction { ops: seq![RouterOpLogEntry::RemoveSourceEntry(key)], packets: Seq::empty() }
    }

    /// The change that the expiry `kind` brings to the route `entry` of `key`: a
    /// route with a finite metric is retracted on `Retract`, a retracted route is
    /// removed on `Remove`, and nothing else changes anything.
    pub open spec fn expiry_change(key: RouteKey, entry: RouteEntry, kind: RouteExpirationType) -> Option<
        RouterOpLogEntry,
    > {
        if !entry.metric.is_infinite() && kind == RouteExpirationType::Retract {
            Some(
                RouterOpLogEntry::UpdateRouteEntry(
                    key,
                    entry.seqno,
                    Metric(METRIC_INFINITE),
                    entry.source.router_id,
                ),
            )
        } else if entry.metric.is_infinite() && kind == RouteExpirationType::Remove {
            Some(RouterOpLogEntry::RemoveRoute(key))
        } else {
            None
        }
    }

    /// What the router does when the timer of the route `key` has run out in the
    /// stage `kind`. The route changes as [`RouterState::expiry_change`] says. If
    /// it changed and was selected, the best route of the prefix is selected, if
    /// there is one; and if the expired route still had a finite metric, the new
    /// state of the prefix is announced.
    pub open spec fn on_route_expiry(self, local: RouterId, key: RouteKey, kind: RouteExpirationType) -> Reaction {
        match get_route(self.routes, key) {
            None => Reaction::none(),
            Some(entry) => match Self::expiry_change(key, entry, kind) {
                None => Reaction::none(),
                Some(change) => {
                    let changed = self.apply(change);
                    let best = best_route(changed.sources, entries_of(changed.routes, key.subnet));
                    if entry.selected && best is Some {
                        let select = selecting(key.subnet, best->0);
                        let done = Reaction { ops: seq![change, select], packets: Seq::empty() };
                        if !entry.metric.is_infinite() {
                            done.then_also(
                                changed.apply(select).propagate_selected_route(key.subnet, local),
                            )
                        } else {
                            done
                        }
                    } else {
                        Reaction { ops: seq![change], packets: Seq::empty() }
                    }
                },
            },
        }
    }

    /// What the router does when it is time for Hellos at `now`: every
    /// neighbour gets one, and the time is recorded on its link.
    pub open spec fn on_hello_round(self, now: u64) -> Reaction {
        Reaction {
            ops: Seq::new(
                self.peers.len(),
                |i: int| RouterOpLogEntry::RecordHello(self.peers[i].peer, now),
            ),
            packets: Seq::new(
                self.peers.len(),
                |i: int| (self.peers[i].peer, Tlv::Hello(Hello { interval: HELLO_INTERVAL })),
            ),
        }
    }

    /// What the router does on a Hello from `peer` at `now`: it answers with an
    /// IHU and records the time on the link.
    pub open spec fn on_hello(self, peer: Peer, now: u64) -> Reaction {
        Reaction {
            ops: seq![RouterOpLogEntry::RecordHello(peer, now)],
            packets: seq![
                (peer, Tlv::Ihu(Ihu { interval: IHU_INTERVAL, address: peer.overlay_ip })),
            ],
        }
    }

    /// What the router does on an IHU from `peer` at `now`: the time since the
    /// last Hello on the link, in milliseconds and at most 65535, becomes the
    /// cost of the link, and the time of the IHU is recorded. An IHU from a
    /// neighbour without a link does nothing.
    pub open spec fn on_ihu(self, peer: Peer, now: u64) -> Reaction {
        match link_of(self.peers, peer) {
            Some(link) => Reaction {
                ops: seq![
                    RouterOpLogEntry::RecordIhu(
                        peer,
                        clamped_cost(elapsed_ms(now, link.time_last_received_hello)),
                        now,
                    ),
                ],
                packets: Seq::empty(),
            },
            None => Reaction::none(),
        }
    }

    /// What the router does on the control packet `packet` from `peer` at `now`:
    /// what it does on a packet of its kind. `allowed` and `secret` count for an
    /// update only.
    pub open spec fn on_control_packet(
        self,
        local: RouterId,
        allowed: bool,
        packet: ControlPacket,
        peer: Peer,
        secret: SharedSecret,
        now: u64,
    ) -> Reaction {
        match packet {
            Tlv::Hello(_) => self.on_hello(peer, now),
            Tlv::Ihu(_) => self.on_ihu(peer, now),
            Tlv::Update(update) => self.on_update(allowed, update, peer, secret),
            Tlv::SeqNoRequest(request) => self.on_seqno_request(local, request, peer, now),
        }
    }

    /// Where a packet for `destination` goes: to this node if the address lies
    /// in `local_subnet`; else to the next hop of the selected route of the
    /// longest prefix that holds the address, if that route has a finite metric.
    pub open spec fn route_for(self, local_subnet: Subnet, destination: u128) -> PacketRoute {
        if local_subnet.contains_ip(destination) {
            PacketRoute::Local
        } else {
            match selected_of(matched_entries(self.routes, destination)) {
                Some(route) => PacketRoute::Forward(route.neighbor),
                None => PacketRoute::Unroutable,
            }
        }
    }
}

} // verus!
