//! Every reaction of the router keeps a steady state sound: afterwards every
//! selected route is still retracted or feasible.

use vstd::prelude::*;
use crate::babel::{SeqNoRequest, Update};
use crate::crypto::SharedSecret;
use crate::invariants::lemma_op_keeps;
use crate::metric::{Metric, METRIC_INFINITE};
use crate::peer::Peer;
use crate::propagation::{has_link, link_cost_of, source_of, UPDATE_INTERVAL};
use crate::reactions::{
    best_route, dead_peers, is_static, key_of, marked_front, needs_triggered_update, new_route,
    route_feasible, selecting,
};
use crate::route_laws::lemma_remove_peer;
use crate::route_lists::{
    entries_of, get_route, has_neighbour, is_first_of, lemma_first_exists, lemma_first_unique,
    list_insert, list_refresh, list_remove, list_select, list_unselect, neighbour_index,
    remove_peer_routes, route_of, selected_of, RouteLists,
};
use crate::router_id::RouterId;
use crate::router_state::{
    lemma_apply_concat, lemma_apply_push, lemma_apply_single, RouterOpLogEntry, RouterState,
};
use crate::routing_table::{RouteEntry, RouteExpirationType, RouteKey};
use crate::soundness::{
    announced_distance, lemma_announce_sound, lemma_announce_static_sound, lemma_best_route,
    lemma_link_cost_positive, lemma_list_sound, lemma_route_update_safe, lemma_sending_sound,
    lemma_sound_entries, lemma_with_routes, list_sound, recorded_for, steady,
};
use crate::source_table::{feasible, SourceKey};
use crate::subnet::Subnet;

verus! {

/// Whether `list` holds a route through `peer` with the values of `update`.
pub open spec fn holds_route(list: Seq<RouteEntry>, update: Update, peer: Peer) -> bool {
    exists|j: int|
        0 <= j < list.len() && (#[trigger] list[j]).neighbor == peer && list[j].seqno
            == update.seqno && list[j].metric == update.metric && list[j].source == source_of(
            update,
        )
}

/// Selecting a route changes marks and places, and no route's values.
proof fn lemma_select_holds(list: Seq<RouteEntry>, chosen: Peer, update: Update, peer: Peer)
    requires
        holds_route(list, update, peer),
    ensures
        holds_route(list_select(list, chosen), update, peer),
{
    if has_neighbour(list, chosen) {
        lemma_first_exists(list, chosen);
        let at = neighbour_index(list, chosen);
        let after = list_select(list, chosen);
        let j = choose|j: int|
            0 <= j < list.len() && (#[trigger] list[j]).neighbor == peer && list[j].seqno
                == update.seqno && list[j].metric == update.metric && list[j].source == source_of(
                update,
            );
        let k = if j == 0 {
            at
        } else if j == at {
            0
        } else {
            j
        };
        assert(after[k].neighbor == peer && after[k].seqno == update.seqno && after[k].metric
            == update.metric && after[k].source == source_of(update));
    }
}

/// What the selection after an update leaves of the state `before` in which the
/// prefix `subnet` had the routes `list`: in `after` the prefix has the same
/// routes, with the best of them selected if there is one; neighbours, static
/// routes and keys are as they were; and the source table is as it was, but for
/// the distance of the best route, which may be recorded.
pub open spec fn after_selection(
    before: RouterState,
    after: RouterState,
    subnet: Subnet,
    list: Seq<RouteEntry>,
) -> bool {
    &&& after.peers == before.peers
    &&& after.static_routes == before.static_routes
    &&& after.dest_keys == before.dest_keys
    &&& after.router_seqno == before.router_seqno
    &&& after.last_seqno_bump == before.last_seqno_bump
    &&& entries_of(after.routes, subnet) == match best_route(before.sources, list) {
        Some(route) => list_select(list, route.neighbor),
        None => list,
    }
    &&& match best_route(before.sources, list) {
        Some(route) => recorded_for(before.sources, after.sources, route),
        None => after.sources == before.sources,
    }
}

/// Selecting the best route after an update keeps the state sound.
#[verifier::rlimit(50)]
proof fn lemma_selection_sound(
    s: RouterState,
    m: RouterState,
    update: Update,
    changes: Seq<RouterOpLogEntry>,
    list: Seq<RouteEntry>,
    was_selected: Option<RouteEntry>,
)
    requires
        steady(m),
        m == s.apply_all(changes),
        m.sources == s.sources,
        entries_of(m.routes, update.subnet) == list,
    ensures
        s.apply_all(s.select_after_update(update, changes, list, was_selected).ops).sound(),
        after_selection(
            m,
            s.apply_all(s.select_after_update(update, changes, list, was_selected).ops),
            update.subnet,
            list,
        ),
{
    let subnet = update.subnet;
    let best = best_route(s.sources, list);
    lemma_best_route(s.sources, list);
    lemma_sound_entries(m, subnet);
    let ops = match best {
        Some(route) => changes.push(selecting(subnet, route)),
        None => changes,
    };
    let done = s.apply_all(ops);
    match best {
        Some(route) => {
            let select = selecting(subnet, route);
            lemma_apply_push(s, changes, select);
            let c = choose|c: int|
                0 <= c < list.len() && list[c] == route && route_feasible(s.sources, route);
            assert(is_first_of(list, route.neighbor, c)) by {
                assert forall|j: int| 0 <= j < c implies (#[trigger] list[j]).neighbor
                    != route.neighbor by {
                    assert(list[j].neighbor != list[c].neighbor);
                }
            }
            lemma_first_unique(list, route.neighbor, c);
            lemma_list_sound(
                m.sources,
                subnet,
                list,
                route.neighbor,
                route.seqno,
                route.metric,
                route.source.router_id,
            );
            lemma_with_routes(m, subnet, list_select(list, route.neighbor));
            assert(done == m.with_routes(subnet, list_select(list, route.neighbor)));
            lemma_op_keeps(m, select);
        },
        None => {},
    }
    assert(steady(done));
    assert(after_selection(m, done, subnet, list));
    if needs_triggered_update(was_selected, best) {
        let announce = done.propagate_selected_route(subnet, update.router_id);
        lemma_announce_sound(done, subnet, update.router_id);
        lemma_apply_concat(s, ops, announce.ops);
        let after = done.apply_all(announce.ops);
        let chosen = entries_of(done.routes, subnet);
        match best {
            Some(route) => {
                match selected_of(chosen) {
                    Some(entry) => {
                        assert(entry.source == route.source && entry.metric == route.metric
                            && entry.seqno == route.seqno);
                        if after.sources != done.sources {
                            let cost = choose|cost: Metric|
                                cost.0 >= 1 && !entry.metric.add(cost).is_infinite() && feasible(
                                    done.sources,
                                    entry.source,
                                    entry.metric.add(cost),
                                    entry.seqno,
                                ) && after.sources == done.sources.insert(
                                    entry.source,
                                    #[trigger] announced_distance(entry, cost),
                                );
                            assert(announced_distance(route, cost) == announced_distance(
                                entry,
                                cost,
                            ));
                        }
                    },
                    None => {},
                }
            },
            None => {
                if list.len() > 0 && list[0].selected {
                    assert(route_feasible(m.sources, list[0]));
                }
            },
        }
    }
}

/// The list of a prefix with the route of `peer` given the values of `update`:
/// it is in order if the route loses its mark where the update is unfeasible.
#[verifier::rlimit(50)]
proof fn lemma_refreshed_sound(s: RouterState, update: Update, peer: Peer)
    requires
        steady(s),
        !is_static(s.static_routes, update.subnet),
        has_neighbour(entries_of(s.routes, update.subnet), peer),
    ensures
        ({
            let list = entries_of(s.routes, update.subnet);
            let at = neighbour_index(list, peer);
            let key = key_of(update, peer);
            let refresh = RouterOpLogEntry::UpdateRouteEntry(
                key,
                update.seqno,
                update.metric,
                update.router_id,
            );
            let refreshed = list[at].refreshed(update.seqno, update.metric, update.router_id);
            let is_feasible = feasible(
                s.sources,
                source_of(update),
                update.metric,
                update.seqno,
            );
            let changes = if list[at].selected && !is_feasible {
                seq![refresh, RouterOpLogEntry::UnselectRoute(key)]
            } else {
                seq![refresh]
            };
            let list1 = if list[at].selected && !is_feasible {
                list.update(at, RouteEntry { selected: false, ..refreshed })
            } else {
                list.update(at, refreshed)
            };
            let m = s.apply_all(changes);
            &&& steady(m)
            &&& m.sources == s.sources
            &&& m.peers == s.peers
            &&& m.static_routes == s.static_routes
            &&& m.dest_keys == s.dest_keys
            &&& m.router_seqno == s.router_seqno
            &&& m.last_seqno_bump == s.last_seqno_bump
            &&& entries_of(m.routes, update.subnet) == list1
        }),
{
    let subnet = update.subnet;
    let list = entries_of(s.routes, subnet);
    lemma_first_exists(list, peer);
    lemma_sound_entries(s, subnet);
    let at = neighbour_index(list, peer);
    let key = key_of(update, peer);
    let refresh = RouterOpLogEntry::UpdateRouteEntry(
        key,
        update.seqno,
        update.metric,
        update.router_id,
    );
    let unselect = RouterOpLogEntry::UnselectRoute(key);
    let refreshed = list[at].refreshed(update.seqno, update.metric, update.router_id);
    let is_feasible = feasible(s.sources, source_of(update), update.metric, update.seqno);
    assert(list[at].source.subnet == subnet);
    assert(refreshed.source == source_of(update));
    assert(route_feasible(s.sources, refreshed) == is_feasible);
    let renewed = list_refresh(list, peer, update.seqno, update.metric, update.router_id);
    assert(renewed == list.update(at, refreshed));
    let m1 = s.apply(refresh);
    assert(m1 == s.with_routes(subnet, renewed));
    lemma_with_routes(s, subnet, renewed);
    lemma_apply_single(s, refresh);
    lemma_op_keeps(s, refresh);
    if list[at].selected && !is_feasible {
        let cleared = list_unselect(list, peer);
        lemma_list_sound(
            s.sources,
            subnet,
            list,
            peer,
            update.seqno,
            update.metric,
            update.router_id,
        );
        assert(is_first_of(cleared, peer, at)) by {
            assert forall|j: int| 0 <= j < at implies (#[trigger] cleared[j]).neighbor
                != peer by {
                assert(list[j].neighbor != peer);
            }
        }
        lemma_first_unique(cleared, peer, at);
        lemma_list_sound(
            s.sources,
            subnet,
            cleared,
            peer,
            update.seqno,
            update.metric,
            update.router_id,
        );
        let list1 = list.update(at, RouteEntry { selected: false, ..refreshed });
        assert(list_refresh(cleared, peer, update.seqno, update.metric, update.router_id)
            =~= list1);
        assert(is_first_of(renewed, peer, at)) by {
            assert forall|j: int| 0 <= j < at implies (#[trigger] renewed[j]).neighbor
                != peer by {
                assert(list[j].neighbor != peer);
            }
        }
        lemma_first_unique(renewed, peer, at);
        assert(list_unselect(renewed, peer) =~= list1);
        let m2 = m1.apply(unselect);
        assert(m2 == m1.with_routes(subnet, list1));
        lemma_with_routes(m1, subnet, list1);
        lemma_apply_push(s, seq![refresh], unselect);
        assert(seq![refresh].push(unselect) =~= seq![refresh, unselect]);
        lemma_op_keeps(m1, unselect);
    } else {
        lemma_list_sound(
            s.sources,
            subnet,
            list,
            peer,
            update.seqno,
            update.metric,
            update.router_id,
        );
    }
}

/// Taking an update into the routing table keeps a steady state sound, if the
/// update comes from a neighbour with a link and is for no static prefix.
#[verifier::rlimit(50)]
pub proof fn lemma_take_update_sound(s: RouterState, update: Update, peer: Peer)
    requires
        steady(s),
        has_link(s.peers, peer),
        !is_static(s.static_routes, update.subnet),
    ensures
        s.apply_all(s.take_update(update, peer).ops).sound(),
        s.take_update(update, peer).ops.len() > 0 ==> {
            let after = s.apply_all(s.take_update(update, peer).ops);
            &&& holds_route(entries_of(after.routes, update.subnet), update, peer)
            &&& after.peers == s.peers
            &&& after.static_routes == s.static_routes
            &&& after.dest_keys == s.dest_keys
            &&& after.router_seqno == s.router_seqno
            &&& after.last_seqno_bump == s.last_seqno_bump
            &&& list_sound(s.sources, update.subnet, s.list_after_update(update, peer))
            &&& entries_of(after.routes, update.subnet) == match best_route(
                s.sources,
                s.list_after_update(update, peer),
            ) {
                Some(route) => list_select(s.list_after_update(update, peer), route.neighbor),
                None => s.list_after_update(update, peer),
            }
            &&& match best_route(s.sources, s.list_after_update(update, peer)) {
                Some(route) => recorded_for(s.sources, after.sources, route),
                None => after.sources == s.sources,
            }
        },
{
    let subnet = update.subnet;
    let list = entries_of(s.routes, subnet);
    let is_feasible = feasible(s.sources, source_of(update), update.metric, update.seqno);
    let key = key_of(update, peer);
    lemma_sound_entries(s, subnet);
    match route_of(list, peer) {
        Some(existing) => {
            lemma_first_exists(list, peer);
            let at = neighbour_index(list, peer);
            if existing.selected && !is_feasible && existing.source.router_id
                == update.router_id {
            } else {
                lemma_refreshed_sound(s, update, peer);
                let refresh = RouterOpLogEntry::UpdateRouteEntry(
                    key,
                    update.seqno,
                    update.metric,
                    update.router_id,
                );
                let refreshed = existing.refreshed(update.seqno, update.metric, update.router_id);
                assert(list[at].source.subnet == subnet);
                if existing.selected && !is_feasible {
                    let changes = seq![refresh, RouterOpLogEntry::UnselectRoute(key)];
                    let list1 = list.update(at, RouteEntry { selected: false, ..refreshed });
                    assert(list1[at].neighbor == peer);
                    assert(holds_route(list1, update, peer));
                    lemma_selection_sound(
                        s,
                        s.apply_all(changes),
                        update,
                        changes,
                        list1,
                        marked_front(list),
                    );
                    lemma_sound_entries(s.apply_all(changes), subnet);
                    assert(s.list_after_update(update, peer) == list1);
                    match best_route(s.sources, list1) {
                        Some(route) => {
                            lemma_select_holds(list1, route.neighbor, update, peer);
                        },
                        None => {},
                    }
                } else {
                    let changes = seq![refresh];
                    let list1 = list.update(at, refreshed);
                    assert(list1[at].neighbor == peer);
                    assert(holds_route(list1, update, peer));
                    lemma_selection_sound(
                        s,
                        s.apply_all(changes),
                        update,
                        changes,
                        list1,
                        marked_front(list),
                    );
                    lemma_sound_entries(s.apply_all(changes), subnet);
                    assert(s.list_after_update(update, peer) == list1);
                    match best_route(s.sources, list1) {
                        Some(route) => {
                            lemma_select_holds(list1, route.neighbor, update, peer);
                        },
                        None => {},
                    }
                }
            }
        },
        None => {
            if update.metric.is_infinite() || !is_feasible {
            } else {
                let entry = new_route(update, peer);
                let insert = RouterOpLogEntry::InsertRoute(key, entry);
                let list1 = list.push(entry);
                assert(list_insert(list, peer, entry) == list1);
                assert(list_sound(s.sources, subnet, list1)) by {
                    assert forall|j: int| 0 <= j < list1.len() implies (
                    #[trigger] list1[j]).source.subnet == subnet && (list1[j].selected ==> j == 0
                        && route_feasible(s.sources, list1[j])) by {
                        if j < list.len() {
                            assert(list1[j] == list[j]);
                            if j > 0 {
                                assert(!list[j].selected);
                            }
                        }
                    }
                    assert forall|j: int, k: int| 0 <= j < k < list1.len() implies (
                    #[trigger] list1[j]).neighbor != (#[trigger] list1[k]).neighbor by {
                        if k < list.len() {
                            assert(list[j].neighbor != list[k].neighbor);
                        } else {
                            assert(list[j].neighbor != peer);
                        }
                    }
                }
                let m = s.apply(insert);
                assert(m == s.with_routes(subnet, list1));
                lemma_with_routes(s, subnet, list1);
                lemma_apply_single(s, insert);
                lemma_op_keeps(s, insert);
                assert(list1[list.len() as int].neighbor == peer);
                assert(holds_route(list1, update, peer));
                lemma_selection_sound(s, m, update, seq![insert], list1, marked_front(list));
                assert(s.list_after_update(update, peer) == list1);
                match best_route(s.sources, list1) {
                    Some(route) => {
                        lemma_select_holds(list1, route.neighbor, update, peer);
                    },
                    None => {},
                }
            }
        },
    }
}

/// Every selected route stays retracted or feasible when an update is taken:
/// an update from a neighbour with a link keeps a steady state sound.
pub proof fn lemma_update_sound(
    s: RouterState,
    allowed: bool,
    update: Update,
    peer: Peer,
    secret: SharedSecret,
)
    requires
        steady(s),
        has_link(s.peers, peer),
    ensures
        s.apply_all(s.on_update(allowed, update, peer, secret).ops).sound(),
{
    if allowed {
        let learn = RouterOpLogEntry::AddDestPubkey(update.subnet, update.router_id.0, secret);
        let s1 = s.apply(learn);
        lemma_apply_single(s, learn);
        assert(s1.sound()) by {
            assert forall|i: int| 0 <= i < s1.routes.len() implies list_sound(
                s1.sources,
                (#[trigger] s1.routes[i]).0,
                s1.routes[i].1,
            ) && !is_static(s1.static_routes, s1.routes[i].0) by {
                assert(list_sound(s.sources, s.routes[i].0, s.routes[i].1));
                assert(!is_static(s.static_routes, s.routes[i].0));
            }
        }
        lemma_op_keeps(s, learn);
        if !is_static(s.static_routes, update.subnet) {
            lemma_take_update_sound(s1, update, peer);
            lemma_apply_concat(s, seq![learn], s1.take_update(update, peer).ops);
        }
    }
}

/// Every selected route stays retracted or feasible when a request for a
/// sequence number is answered: a request from a neighbour with a link keeps a
/// steady state sound.
pub proof fn lemma_seqno_request_sound(
    s: RouterState,
    local: RouterId,
    request: SeqNoRequest,
    peer: Peer,
    now: u64,
)
    requires
        steady(s),
        has_link(s.peers, peer),
    ensures
        s.apply_all(s.on_seqno_request(local, request, peer, now).ops).sound(),
{
    let list = entries_of(s.routes, request.prefix);
    let reaction = s.on_seqno_request(local, request, peer, now);
    if selected_of(list) is Some && (request.router_id != selected_of(list)->0.source.router_id
        || !selected_of(list)->0.seqno.lt(&request.seqno)) {
        let route = selected_of(list)->0;
        lemma_sound_entries(s, request.prefix);
        assert(route.source.subnet == request.prefix);
        lemma_link_cost_positive(s, peer);
        lemma_route_update_safe(s, request.prefix, link_cost_of(s.peers, peer));
        let updates = seq![
            (
                peer,
                Update {
                    interval: UPDATE_INTERVAL,
                    seqno: route.seqno,
                    metric: route.metric.add(link_cost_of(s.peers, peer)),
                    subnet: route.source.subnet,
                    router_id: route.source.router_id,
                },
            ),
        ];
        lemma_sending_sound(s, updates);
    } else if reaction.ops.len() > 0 {
        let bump = RouterOpLogEntry::BumpSequenceNumber(now);
        let bumped = s.apply(bump);
        assert(bumped.sound()) by {
            assert forall|i: int| 0 <= i < bumped.routes.len() implies list_sound(
                bumped.sources,
                (#[trigger] bumped.routes[i]).0,
                bumped.routes[i].1,
            ) && !is_static(bumped.static_routes, bumped.routes[i].0) by {
                assert(list_sound(s.sources, s.routes[i].0, s.routes[i].1));
                assert(!is_static(s.static_routes, s.routes[i].0));
            }
        }
        lemma_apply_single(s, bump);
        lemma_announce_static_sound(bumped, local);
        lemma_apply_concat(s, seq![bump], bumped.propagate_static_route(local).ops);
    }
}

/// Forgetting a source keeps a sound state sound.
pub proof fn lemma_source_expiry_sound(s: RouterState, key: SourceKey)
    requires
        s.sound(),
    ensures
        s.apply_all(s.on_source_expiry(key).ops).sound(),
{
    let op = RouterOpLogEntry::RemoveSourceEntry(key);
    lemma_apply_single(s, op);
    let after = s.apply(op);
    assert forall|i: int| 0 <= i < after.routes.len() implies list_sound(
        after.sources,
        (#[trigger] after.routes[i]).0,
        after.routes[i].1,
    ) && !is_static(after.static_routes, after.routes[i].0) by {
        assert(list_sound(s.sources, s.routes[i].0, s.routes[i].1));
        assert(!is_static(s.static_routes, s.routes[i].0));
        let list = after.routes[i].1;
        assert forall|j: int| 0 <= j < list.len() && (#[trigger] list[j]).selected implies route_feasible(
            after.sources,
            list[j],
        ) by {
            assert(route_feasible(s.sources, list[j]));
        }
    }
}

/// Removing a neighbour keeps a sound state sound.
pub proof fn lemma_remove_peer_sound(s: RouterState, peer: Peer)
    requires
        s.sound(),
    ensures
        s.apply(RouterOpLogEntry::RemovePeer(peer)).sound(),
{
    let after = s.apply(RouterOpLogEntry::RemovePeer(peer));
    lemma_remove_peer(s.routes, peer);
    lemma_removed_lists_sound(s, s.routes, peer);
}

/// Lists that are in order are in order without the routes through a peer.
proof fn lemma_removed_lists_sound(s: RouterState, lists: RouteLists, peer: Peer)
    requires
        forall|i: int|
            0 <= i < lists.len() ==> list_sound(s.sources, (#[trigger] lists[i]).0, lists[i].1)
                && !is_static(s.static_routes, lists[i].0),
    ensures
        forall|i: int|
            0 <= i < remove_peer_routes(lists, peer).len() ==> list_sound(
                s.sources,
                (#[trigger] remove_peer_routes(lists, peer)[i]).0,
                remove_peer_routes(lists, peer)[i].1,
            ) && !is_static(s.static_routes, remove_peer_routes(lists, peer)[i].0),
    decreases lists.len(),
{
    if lists.len() > 0 {
        let front = lists.drop_last();
        assert forall|i: int| 0 <= i < front.len() implies list_sound(
            s.sources,
            (#[trigger] front[i]).0,
            front[i].1,
        ) && !is_static(s.static_routes, front[i].0) by {
            assert(front[i] == lists[i]);
        }
        lemma_removed_lists_sound(s, front, peer);
        let last = lists[lists.len() - 1];
        assert(list_sound(s.sources, last.0, last.1));
        lemma_list_sound(
            s.sources,
            last.0,
            last.1,
            peer,
            last.1[0].seqno,
            last.1[0].metric,
            last.1[0].source.router_id,
        );
        let after = remove_peer_routes(lists, peer);
        let before = remove_peer_routes(front, peer);
        assert forall|i: int| 0 <= i < after.len() implies list_sound(
            s.sources,
            (#[trigger] after[i]).0,
            after[i].1,
        ) && !is_static(s.static_routes, after[i].0) by {
            if i < before.len() {
                assert(after[i] == before[i]);
            }
        }
    }
}

/// Removing the neighbours that have fallen silent keeps a sound state sound.
pub proof fn lemma_dead_peer_sweep_sound(s: RouterState, local: RouterId, now: u64)
    requires
        s.sound(),
    ensures
        s.apply_all(s.on_dead_peer_sweep(local, now).ops).sound(),
{
    let dead = dead_peers(s.peers, now);
    let ops = Seq::new(dead.len(), |i: int| RouterOpLogEntry::RemovePeer(dead[i]));
    assert(s.on_dead_peer_sweep(local, now).ops == ops);
    lemma_removals_sound(s, ops);
}

/// Removing neighbours one after the other keeps a sound state sound.
proof fn lemma_removals_sound(s: RouterState, ops: Seq<RouterOpLogEntry>)
    requires
        s.sound(),
        forall|i: int| 0 <= i < ops.len() ==> (#[trigger] ops[i]) is RemovePeer,
    ensures
        s.apply_all(ops).sound(),
    decreases ops.len(),
{
    if ops.len() > 0 {
        assert forall|i: int| 0 <= i < ops.drop_last().len() implies (
        #[trigger] ops.drop_last()[i]) is RemovePeer by {
            assert(ops[i] is RemovePeer);
        }
        lemma_removals_sound(s, ops.drop_last());
        assert(ops[ops.len() - 1] is RemovePeer);
        match ops.last() {
            RouterOpLogEntry::RemovePeer(peer) => {
                lemma_remove_peer_sound(s.apply_all(ops.drop_last()), peer);
            },
            _ => {},
        }
    }
}

/// Every selected route stays retracted or feasible when the timer of a route
/// runs out: the expiry keeps a steady state sound.
#[verifier::rlimit(50)]
pub proof fn lemma_route_expiry_sound(
    s: RouterState,
    local: RouterId,
    key: RouteKey,
    kind: RouteExpirationType,
)
    requires
        steady(s),
    ensures
        s.apply_all(s.on_route_expiry(local, key, kind).ops).sound(),
{
    let subnet = key.subnet;
    let list = entries_of(s.routes, subnet);
    lemma_sound_entries(s, subnet);
    match get_route(s.routes, key) {
        None => {},
        Some(entry) => {
            lemma_first_exists(list, key.neighbor);
            let at = neighbour_index(list, key.neighbor);
            match RouterState::expiry_change(key, entry, kind) {
                None => {},
                Some(change) => {
                    let changed = s.apply(change);
                    lemma_apply_single(s, change);
                    lemma_list_sound(
                        s.sources,
                        subnet,
                        list,
                        key.neighbor,
                        entry.seqno,
                        Metric(METRIC_INFINITE),
                        entry.source.router_id,
                    );
                    let list1 = if change is RemoveRoute {
                        list_remove(list, key.neighbor)
                    } else {
                        list_refresh(
                            list,
                            key.neighbor,
                            entry.seqno,
                            Metric(METRIC_INFINITE),
                            entry.source.router_id,
                        )
                    };
                    assert(changed == s.with_routes(subnet, list1));
                    lemma_with_routes(s, subnet, list1);
                    lemma_op_keeps(s, change);
                    assert(steady(changed));
                    let best = best_route(changed.sources, list1);
                    if entry.selected && best is Some {
                        let route = best->0;
                        let select = selecting(subnet, route);
                        lemma_best_route(changed.sources, list1);
                        let c = choose|c: int|
                            0 <= c < list1.len() && list1[c] == route && route_feasible(
                                changed.sources,
                                route,
                            );
                        assert(is_first_of(list1, route.neighbor, c)) by {
                            assert forall|j: int| 0 <= j < c implies (
                            #[trigger] list1[j]).neighbor != route.neighbor by {
                                assert(list1[j].neighbor != list1[c].neighbor);
                            }
                        }
                        lemma_first_unique(list1, route.neighbor, c);
                        lemma_sound_entries(changed, subnet);
                        lemma_list_sound(
                            changed.sources,
                            subnet,
                            list1,
                            route.neighbor,
                            route.seqno,
                            route.metric,
                            route.source.router_id,
                        );
                        let chosen = list_select(list1, route.neighbor);
                        lemma_with_routes(changed, subnet, chosen);
                        let done = changed.apply(select);
                        assert(done == changed.with_routes(subnet, chosen));
                        lemma_op_keeps(changed, select);
                        lemma_apply_push(s, seq![change], select);
                        assert(seq![change].push(select) =~= seq![change, select]);
                        if !entry.metric.is_infinite() {
                            lemma_announce_sound(done, subnet, local);
                            lemma_apply_concat(
                                s,
                                seq![change, select],
                                done.propagate_selected_route(subnet, local).ops,
                            );
                        }
                    }
                },
            }
        },
    }
}

} // verus!
