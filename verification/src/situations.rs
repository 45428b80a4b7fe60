//! What the router does in the situations that matter most: a route is gained,
//! the selected route is announced again, a request is passed on.

use vstd::prelude::*;
use crate::babel::{SeqNoRequest, Tlv, Update};
use crate::crypto::SharedSecret;
use crate::peer::Peer;
use crate::propagation::{
    lemma_source_ops_only, link_cost_of, route_update, selected_updates, sending, source_of,
    to_peers_except, Reaction, UPDATE_INTERVAL,
};
use crate::reactions::{
    best_route, can_carry, forward_target, has_feasible, is_best, is_first_carrier, is_static,
    key_of, known_routes, marked_front, needs_triggered_update, new_route, route_feasible,
    selecting, seqno_request_for,
};
use crate::route_lists::{
    entries_of, has_neighbour, is_first_of, lemma_first_unique, lemma_with_list, list_insert,
    list_refresh, list_select, lists_wf, route_of, selected_of,
};
use crate::router_id::RouterId;
use crate::router_state::{
    lemma_apply_push, lemma_apply_single, RouterOpLogEntry, RouterState,
};
use crate::routing_table::RouteEntry;
use crate::source_table::feasible;

verus! {

/// The first route to a prefix: an update with a finite metric that is feasible,
/// for a prefix to which the router has no route. The keys of its router are
/// recorded, the route enters the table and is selected, and it is announced to
/// every neighbour but the one it came from, at its metric plus the cost of the
/// link to that neighbour, which also records the announced distance.
pub proof fn lemma_route_acquired(s: RouterState, update: Update, peer: Peer, secret: SharedSecret)
    requires
        s.routes_wf(),
        !is_static(s.static_routes, update.subnet),
        entries_of(s.routes, update.subnet).len() == 0,
        !update.metric.is_infinite(),
        feasible(s.sources, source_of(update), update.metric, update.seqno),
    ensures
        ({
            let reaction = s.on_update(true, update, peer, secret);
            let key = key_of(update, peer);
            let announced = to_peers_except(
                s.peers,
                Update {
                    interval: UPDATE_INTERVAL,
                    metric: update.metric.add(link_cost_of(s.peers, peer)),
                    ..update
                },
                Some(peer),
            );
            &&& reaction == (Reaction {
                ops: seq![
                    RouterOpLogEntry::AddDestPubkey(update.subnet, update.router_id.0, secret),
                    RouterOpLogEntry::InsertRoute(key, new_route(update, peer)),
                    RouterOpLogEntry::SelectRoute(key),
                ],
                packets: Seq::empty(),
            }).then_also(sending(s.sources, announced))
            &&& entries_of(s.apply_all(reaction.ops).routes, update.subnet) == seq![
                RouteEntry { selected: true, ..new_route(update, peer) },
            ]
        }),
{
    let subnet = update.subnet;
    let key = key_of(update, peer);
    let entry = new_route(update, peer);
    let learn = RouterOpLogEntry::AddDestPubkey(subnet, update.router_id.0, secret);
    let insert = RouterOpLogEntry::InsertRoute(key, entry);
    let select = RouterOpLogEntry::SelectRoute(key);
    let s1 = s.apply(learn);
    let list = entries_of(s.routes, subnet);
    assert(list =~= Seq::empty());
    let list1 = list.push(entry);
    assert(list1 =~= seq![entry]);
    assert(route_feasible(s.sources, list1[0]));
    assert(is_best(s.sources, list1, 0));
    assert(has_feasible(s.sources, list1));
    assert(best_route(s1.sources, list1) == Some(entry));
    assert(marked_front(list) is None);
    let s2 = s1.apply(insert);
    assert(list_insert(list, peer, entry) == list1);
    lemma_with_list(s1.routes, subnet, list1, subnet);
    assert(is_first_of(list1, peer, 0));
    lemma_first_unique(list1, peer, 0);
    let chosen = list_select(list1, peer);
    assert(chosen =~= seq![RouteEntry { selected: true, ..entry }]);
    let s3 = s2.apply(select);
    lemma_with_list(s2.routes, subnet, chosen, subnet);
    lemma_apply_single(s1, insert);
    lemma_apply_push(s1, seq![insert], select);
    assert(seq![insert].push(select) =~= seq![insert, select]);
    assert(selected_of(chosen) == Some(chosen[0]));
    assert(route_update(s3, subnet, chosen[0]) == (Update {
        interval: UPDATE_INTERVAL,
        metric: update.metric.add(link_cost_of(s.peers, peer)),
        ..update
    }));
    let taken = s1.take_update(update, peer);
    let announce = s3.propagate_selected_route(subnet, update.router_id);
    assert(taken.ops =~= seq![insert, select] + announce.ops);
    let reaction = s.on_update(true, update, peer, secret);
    assert(reaction.ops =~= seq![learn, insert, select] + announce.ops);
    assert(reaction.packets =~= Seq::empty() + announce.packets);
    lemma_source_ops_only(s3.sources, selected_updates(s3, subnet, update.router_id));
    crate::soundness::lemma_sending_keeps_routes(s3, announce.ops);
    crate::router_state::lemma_apply_concat(s, seq![learn, insert, select], announce.ops);
    assert(seq![learn, insert, select] =~= seq![learn] + seq![insert, select]);
    crate::router_state::lemma_apply_concat(s, seq![learn], seq![insert, select]);
}

/// An unfeasible update to the selected route, from the router that the route
/// names: no route changes, and the neighbour is asked for the sequence number
/// after the one of the recorded distance.
pub proof fn lemma_unfeasible_update_is_questioned(
    s: RouterState,
    update: Update,
    peer: Peer,
    secret: SharedSecret,
)
    requires
        !is_static(s.static_routes, update.subnet),
        route_of(entries_of(s.routes, update.subnet), peer) is Some,
        route_of(entries_of(s.routes, update.subnet), peer)->0.selected,
        route_of(entries_of(s.routes, update.subnet), peer)->0.source.router_id
            == update.router_id,
        !feasible(s.sources, source_of(update), update.metric, update.seqno),
    ensures
        s.on_update(true, update, peer, secret) == (Reaction {
            ops: seq![RouterOpLogEntry::AddDestPubkey(update.subnet, update.router_id.0, secret)],
            packets: seq![
                (
                    peer,
                    Tlv::SeqNoRequest(
                        SeqNoRequest::spec_new(
                            s.sources[source_of(update)].seqno.next(),
                            update.router_id,
                            update.subnet,
                        ),
                    ),
                ),
            ],
        }),
        s.apply_all(s.on_update(true, update, peer, secret).ops).routes == s.routes,
        s.apply_all(s.on_update(true, update, peer, secret).ops).sources == s.sources,
{
    let learn = RouterOpLogEntry::AddDestPubkey(update.subnet, update.router_id.0, secret);
    let reaction = s.on_update(true, update, peer, secret);
    lemma_apply_single(s, learn);
    assert(reaction.ops =~= seq![learn]);
    assert(reaction.packets =~= seq![
        (peer, Tlv::SeqNoRequest(seqno_request_for(s.sources, update))),
    ]);
}

/// A feasible update to the selected route of a prefix that has no other
/// route: the route takes the values of the update and stays selected, and it
/// is announced if and only if the change matters.
pub proof fn lemma_selected_route_refreshed(
    s: RouterState,
    update: Update,
    peer: Peer,
    secret: SharedSecret,
)
    requires
        s.routes_wf(),
        !is_static(s.static_routes, update.subnet),
        entries_of(s.routes, update.subnet).len() == 1,
        entries_of(s.routes, update.subnet)[0].neighbor == peer,
        entries_of(s.routes, update.subnet)[0].selected,
        entries_of(s.routes, update.subnet)[0].source.subnet == update.subnet,
        feasible(s.sources, source_of(update), update.metric, update.seqno),
    ensures
        ({
            let reaction = s.on_update(true, update, peer, secret);
            let before = entries_of(s.routes, update.subnet)[0];
            let after = before.refreshed(update.seqno, update.metric, update.router_id);
            let key = key_of(update, peer);
            let changed = Reaction {
                ops: seq![
                    RouterOpLogEntry::AddDestPubkey(update.subnet, update.router_id.0, secret),
                    RouterOpLogEntry::UpdateRouteEntry(
                        key,
                        update.seqno,
                        update.metric,
                        update.router_id,
                    ),
                    RouterOpLogEntry::SelectRoute(key),
                ],
                packets: Seq::empty(),
            };
            &&& entries_of(s.apply_all(reaction.ops).routes, update.subnet) == seq![after]
            &&& !needs_triggered_update(Some(before), Some(after)) ==> reaction == changed
            &&& needs_triggered_update(Some(before), Some(after)) ==> reaction
                == changed.then_also(
                s.apply_all(changed.ops).propagate_selected_route(update.subnet, update.router_id),
            )
        }),
{
    let subnet = update.subnet;
    let key = key_of(update, peer);
    let learn = RouterOpLogEntry::AddDestPubkey(subnet, update.router_id.0, secret);
    let refresh = RouterOpLogEntry::UpdateRouteEntry(
        key,
        update.seqno,
        update.metric,
        update.router_id,
    );
    let select = RouterOpLogEntry::SelectRoute(key);
    let s1 = s.apply(learn);
    let list = entries_of(s.routes, subnet);
    let before = list[0];
    let after = before.refreshed(update.seqno, update.metric, update.router_id);
    assert(is_first_of(list, peer, 0));
    lemma_first_unique(list, peer, 0);
    let list1 = list.update(0, after);
    assert(list1 =~= seq![after]);
    assert(after.source == source_of(update));
    assert(route_feasible(s.sources, list1[0]));
    assert(is_best(s.sources, list1, 0));
    assert(has_feasible(s.sources, list1));
    assert(best_route(s1.sources, list1) == Some(after));
    assert(marked_front(list) == Some(before));
    let s2 = s1.apply(refresh);
    assert(list_refresh(list, peer, update.seqno, update.metric, update.router_id) == list1);
    lemma_with_list(s1.routes, subnet, list1, subnet);
    assert(is_first_of(list1, peer, 0));
    lemma_first_unique(list1, peer, 0);
    let chosen = list_select(list1, peer);
    assert(chosen =~= seq![after]);
    let s3 = s2.apply(select);
    lemma_with_list(s2.routes, subnet, chosen, subnet);
    lemma_apply_single(s1, refresh);
    lemma_apply_push(s1, seq![refresh], select);
    assert(seq![refresh].push(select) =~= seq![refresh, select]);
    assert(selecting(subnet, after) == select);
    let taken = s1.take_update(update, peer);
    let reaction = s.on_update(true, update, peer, secret);
    let changed_ops = seq![learn, refresh, select];
    assert(changed_ops =~= seq![learn] + seq![refresh, select]);
    crate::router_state::lemma_apply_concat(s, seq![learn], seq![refresh, select]);
    lemma_apply_single(s, learn);
    assert(s.apply_all(changed_ops) == s3);
    if needs_triggered_update(Some(before), Some(after)) {
        let announce = s3.propagate_selected_route(subnet, update.router_id);
        assert(taken.ops =~= seq![refresh, select] + announce.ops);
        assert(reaction.ops =~= changed_ops + announce.ops);
        assert(reaction.packets =~= Seq::empty() + announce.packets);
        lemma_source_ops_only(s3.sources, selected_updates(s3, subnet, update.router_id));
    crate::soundness::lemma_sending_keeps_routes(s3, announce.ops);
        crate::router_state::lemma_apply_concat(s, changed_ops, announce.ops);
    } else {
        assert(taken.ops =~= seq![refresh, select]);
        assert(reaction.ops =~= changed_ops);
        assert(reaction.packets =~= Seq::empty());
    }
}

/// A request for a sequence number that the router cannot answer itself, for
/// another router, with more than one hop left, where the prefix has a selected
/// route with a finite metric through another neighbour than the one that asks:
/// the request goes on to the next hop of that route, with one hop less, and to
/// no one else.
pub proof fn lemma_request_forwarded(
    s: RouterState,
    local: RouterId,
    request: SeqNoRequest,
    peer: Peer,
    now: u64,
)
    requires
        request.router_id != local,
        request.hop_count > 1,
        selected_of(entries_of(s.routes, request.prefix)) is Some,
        selected_of(entries_of(s.routes, request.prefix))->0.neighbor != peer,
        selected_of(entries_of(s.routes, request.prefix))->0.source.router_id
            == request.router_id,
        selected_of(entries_of(s.routes, request.prefix))->0.seqno.lt(&request.seqno),
    ensures
        s.on_seqno_request(local, request, peer, now) == (Reaction {
            ops: Seq::empty(),
            packets: seq![
                (
                    selected_of(entries_of(s.routes, request.prefix))->0.neighbor,
                    Tlv::SeqNoRequest(
                        SeqNoRequest { hop_count: (request.hop_count - 1) as u8, ..request },
                    ),
                ),
            ],
        }),
{
    let list = entries_of(s.routes, request.prefix);
    let route = selected_of(list)->0;
    let routes = known_routes(list);
    assert(routes[0] == route);
    assert(can_carry(routes[0], peer, true));
    assert(is_first_carrier(routes, peer, true, 0));
    let c = choose|c: int| is_first_carrier(routes, peer, true, c);
    if c > 0 {
        assert(!can_carry(routes[0], peer, true));
    }
    assert(forward_target(routes, peer) == Some(route.neighbor));
}

} // verus!
