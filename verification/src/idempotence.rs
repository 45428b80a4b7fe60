//! Taking the same update twice: what the second time changes.

use vstd::prelude::*;
use crate::babel::Update;
use crate::crypto::SharedSecret;
use crate::peer::Peer;
use crate::propagation::{has_link, source_of};
use crate::reactions::{
    best_route, is_best, is_static, key_of, marked_front, needs_triggered_update,
    route_feasible, selecting,
};
use crate::route_lists::{
    entries_of, has_neighbour, has_subnet, is_first_of, lemma_first_exists,
    lemma_first_unique, list_select, subnet_index, with_list,
};
use crate::router_state::{
    lemma_apply_concat, lemma_apply_push, lemma_apply_single, RouterOpLogEntry, RouterState,
};
use crate::routing_table::RouteEntry;
use crate::sequence_number::lemma_seqno_order;
use crate::metric::Metric;
use crate::sequence_number::SeqNo;
use crate::soundness::{
    announced_distance, lemma_best_route, lemma_sound_entries, list_sound, recorded_for, steady,
};
use crate::source_table::SourceKey;
use crate::soundness_laws::{holds_route, lemma_take_update_sound, lemma_update_sound};
use crate::source_table::feasible;
use crate::subnet::Subnet;

verus! {

/// Whether the selection for `subnet` is settled: the best route of the prefix
/// is the selected route in front of its list, or no route of the prefix is
/// feasible.
pub open spec fn selection_settled(s: RouterState, subnet: Subnet) -> bool {
    let list = entries_of(s.routes, subnet);
    match best_route(s.sources, list) {
        Some(route) => list.len() > 0 && list[0].selected && route == list[0],
        None => true,
    }
}

/// An update changes nothing in a sound state in which the route of its
/// neighbour has its values already, the keys of its router are recorded, and
/// the selection for its prefix is settled.
#[verifier::rlimit(50)]
pub proof fn lemma_settled_update(s: RouterState, update: Update, peer: Peer, secret: SharedSecret)
    requires
        s.sound(),
        !is_static(s.static_routes, update.subnet),
        holds_route(entries_of(s.routes, update.subnet), update, peer),
        selection_settled(s, update.subnet),
        s.dest_keys.contains_pair(update.subnet, (update.router_id.0, secret)),
    ensures
        s.apply_all(s.on_update(true, update, peer, secret).ops) == s,
{
    let subnet = update.subnet;
    let learn = RouterOpLogEntry::AddDestPubkey(subnet, update.router_id.0, secret);
    assert(s.apply(learn).dest_keys =~= s.dest_keys);
    assert(s.apply(learn) == s);
    lemma_apply_single(s, learn);
    let list = entries_of(s.routes, subnet);
    lemma_sound_entries(s, subnet);
    let j = choose|j: int|
        0 <= j < list.len() && (#[trigger] list[j]).neighbor == peer && list[j].seqno
            == update.seqno && list[j].metric == update.metric && list[j].source == source_of(
            update,
        );
    assert(is_first_of(list, peer, j)) by {
        assert forall|k: int| 0 <= k < j implies (#[trigger] list[k]).neighbor != peer by {
            assert(list[k].neighbor != list[j].neighbor);
        }
    }
    lemma_first_unique(list, peer, j);
    let existing = list[j];
    let is_feasible = feasible(s.sources, source_of(update), update.metric, update.seqno);
    assert(route_feasible(s.sources, existing) == is_feasible);
    let taken = s.take_update(update, peer);
    if existing.selected && !is_feasible && existing.source.router_id == update.router_id {
        assert(taken.ops =~= Seq::empty());
    } else {
        let key = key_of(update, peer);
        let refresh = RouterOpLogEntry::UpdateRouteEntry(
            key,
            update.seqno,
            update.metric,
            update.router_id,
        );
        let refreshed = existing.refreshed(update.seqno, update.metric, update.router_id);
        assert(refreshed == existing);
        assert(list.update(j, refreshed) =~= list);
        assert(has_subnet(s.routes, subnet));
        let at = subnet_index(s.routes, subnet);
        assert(s.routes[at].0 == subnet);
        assert(with_list(s.routes, subnet, list) =~= s.routes);
        assert(s.apply(refresh).routes == s.routes);
        assert(s.apply(refresh) == s);
        lemma_apply_single(s, refresh);
        assert(!(existing.selected && !is_feasible));
        lemma_best_route(s.sources, list);
        let best = best_route(s.sources, list);
        match best {
            Some(route) => {
                let select = selecting(subnet, route);
                assert(is_first_of(list, route.neighbor, 0));
                lemma_first_unique(list, route.neighbor, 0);
                assert(list_select(list, route.neighbor) =~= list);
                assert(s.apply(select).routes == s.routes);
                assert(s.apply(select) == s);
                lemma_apply_push(s, seq![refresh], select);
                lemma_seqno_order(route.seqno, route.seqno);
                assert(marked_front(list) == Some(route));
                assert(!needs_triggered_update(marked_front(list), best));
                assert(taken.ops =~= seq![refresh].push(select));
            },
            None => {
                if list[0].selected {
                    assert(route_feasible(s.sources, list[0]));
                }
                assert(marked_front(list) is None);
                assert(taken.ops =~= seq![refresh]);
            },
        }
    }
    lemma_apply_concat(s, seq![learn], taken.ops);
}

/// Taking the same update twice: the second time leaves the state as the first
/// time left it, if the first time left the selection for the prefix settled.
///
/// The law is stated for a sound state with known next hops and links of
/// positive cost, and for an update from a neighbour with a link. Where the
/// first time changed no route, nothing more is asked.
pub proof fn lemma_update_twice(
    s: RouterState,
    allowed: bool,
    update: Update,
    peer: Peer,
    secret: SharedSecret,
)
    requires
        steady(s),
        has_link(s.peers, peer),
        s.on_update(allowed, update, peer, secret).ops.len() > 1 ==> selection_settled(
            s.apply_all(s.on_update(allowed, update, peer, secret).ops),
            update.subnet,
        ),
    ensures
        ({
            let once = s.apply_all(s.on_update(allowed, update, peer, secret).ops);
            once.apply_all(once.on_update(allowed, update, peer, secret).ops) == once
        }),
{
    let first = s.on_update(allowed, update, peer, secret);
    let once = s.apply_all(first.ops);
    if allowed {
        let learn = RouterOpLogEntry::AddDestPubkey(update.subnet, update.router_id.0, secret);
        let s1 = s.apply(learn);
        lemma_apply_single(s, learn);
        lemma_apply_single(s1, learn);
        assert(s1.apply(learn).dest_keys =~= s1.dest_keys);
        assert(s1.apply(learn) == s1);
        lemma_update_sound(s, allowed, update, peer, secret);
        if is_static(s.static_routes, update.subnet) {
            assert(once == s1);
        } else {
            let taken = s1.take_update(update, peer);
            lemma_apply_concat(s, seq![learn], taken.ops);
            assert(steady(s1)) by {
                crate::invariants::lemma_op_keeps(s, learn);
                crate::soundness::lemma_sound_same(s, s1);
            }
            if taken.ops.len() == 0 {
                assert(once == s1);
                lemma_apply_concat(s1, seq![learn], taken.ops);
            } else {
                lemma_take_update_sound(s1, update, peer);
                assert(first.ops.len() > 1);
                lemma_settled_update(once, update, peer, secret);
            }
        }
    }
}

/// Whether `seqno` is one of the sequence numbers at hand when `update` is
/// taken: that of the update, of a route to its prefix, or of the distance
/// recorded for a source of its prefix.
pub open spec fn at_hand(s: RouterState, update: Update, seqno: SeqNo) -> bool {
    ||| seqno == update.seqno
    ||| exists|j: int|
        0 <= j < entries_of(s.routes, update.subnet).len() && (#[trigger] entries_of(
            s.routes,
            update.subnet,
        )[j]).seqno == seqno
    ||| exists|key: SourceKey|
        key.subnet == update.subnet && s.sources.contains_key(key) && (
        #[trigger] s.sources[key]).seqno == seqno
}

/// Whether the sequence numbers at hand when `update` is taken are in order:
/// of three of them, where the first comes after the second and the second
/// after the third, the first comes after the third. Sequence numbers that lie
/// less than half the number circle apart are.
pub open spec fn seqnos_in_order(s: RouterState, update: Update) -> bool {
    forall|a: SeqNo, b: SeqNo, c: SeqNo|
        #![trigger at_hand(s, update, a), at_hand(s, update, b), at_hand(s, update, c)]
        at_hand(s, update, a) && at_hand(s, update, b) && at_hand(s, update, c) && a.gt(&b)
            && b.gt(&c) ==> a.gt(&c)
}

/// Taking an update leaves the selection for its prefix settled, where the
/// state is sound, next hops are known, links have a positive cost, the update
/// comes from a neighbour with a link, and the sequence numbers at hand are in
/// order.
#[verifier::rlimit(50)]
pub proof fn lemma_update_settles(
    s: RouterState,
    allowed: bool,
    update: Update,
    peer: Peer,
    secret: SharedSecret,
)
    requires
        steady(s),
        has_link(s.peers, peer),
        seqnos_in_order(s, update),
    ensures
        s.on_update(allowed, update, peer, secret).ops.len() > 1 ==> selection_settled(
            s.apply_all(s.on_update(allowed, update, peer, secret).ops),
            update.subnet,
        ),
{
    let subnet = update.subnet;
    let first = s.on_update(allowed, update, peer, secret);
    if allowed && !is_static(s.static_routes, subnet) {
        let learn = RouterOpLogEntry::AddDestPubkey(subnet, update.router_id.0, secret);
        let s1 = s.apply(learn);
        let taken = s1.take_update(update, peer);
        lemma_apply_single(s, learn);
        lemma_apply_concat(s, seq![learn], taken.ops);
        assert(steady(s1)) by {
            crate::invariants::lemma_op_keeps(s, learn);
            crate::soundness::lemma_sound_same(s, s1);
        }
        if taken.ops.len() > 0 {
            lemma_take_update_sound(s1, update, peer);
            let once = s1.apply_all(taken.ops);
            let list1 = s1.list_after_update(update, peer);
            lemma_best_route(s.sources, list1);
            lemma_sound_entries(once, subnet);
            match best_route(s.sources, list1) {
                None => {},
                Some(best) => {
                    lemma_settled_front(s, update, peer, list1, best, once.sources);
                },
            }
        }
    }
}

/// The heart of [`lemma_update_settles`]: the best route of `list` under the
/// sources of `s`, once selected, is the best under `sources` as well.
#[verifier::rlimit(50)]
proof fn lemma_settled_front(
    s: RouterState,
    update: Update,
    peer: Peer,
    list: Seq<RouteEntry>,
    best: RouteEntry,
    sources: Map<SourceKey, crate::source_table::FeasibilityDistance>,
)
    requires
        seqnos_in_order(s, update),
        list == s.list_after_update(update, peer),
        list_sound(s.sources, update.subnet, list),
        best_route(s.sources, list) == Some(best),
        recorded_for(s.sources, sources, best),
        list_sound(sources, update.subnet, list_select(list, best.neighbor)),
    ensures
        ({
            let chosen = list_select(list, best.neighbor);
            chosen.len() > 0 && chosen[0].selected && best_route(sources, chosen) == Some(
                chosen[0],
            )
        }),
{
    let subnet = update.subnet;
    lemma_best_route(s.sources, list);
    let c = choose|c: int|
        0 <= c < list.len() && list[c] == best && route_feasible(s.sources, best);
    assert(is_first_of(list, best.neighbor, c)) by {
        assert forall|j: int| 0 <= j < c implies (#[trigger] list[j]).neighbor
            != best.neighbor by {
            assert(list[j].neighbor != list[c].neighbor);
        }
    }
    lemma_first_unique(list, best.neighbor, c);
    let chosen = list_select(list, best.neighbor);
    assert(chosen[0].selected);
    assert(chosen[0].metric == best.metric && chosen[0].seqno == best.seqno && chosen[0].source
        == best.source);
    assert(route_feasible(sources, chosen[0]));
    lemma_at_hand(s, update, peer);
    assert(best.source.subnet == subnet);
    assert forall|j: int|
        0 <= j < chosen.len() && route_feasible(sources, #[trigger] chosen[j]) implies chosen[0].metric.0
        <= chosen[j].metric.0 by {
        let k = if j == 0 {
            c
        } else if j == c {
            0
        } else {
            j
        };
        let x = list[k];
        assert(chosen[j].metric == x.metric && chosen[j].seqno == x.seqno && chosen[j].source
            == x.source);
        assert(at_hand(s, update, x.seqno));
        assert(at_hand(s, update, best.seqno));
        if route_feasible(s.sources, x) {
        } else {
            assert(sources != s.sources);
            let cost = choose|cost: Metric|
                cost.0 >= 1 && !best.metric.add(cost).is_infinite() && feasible(
                    s.sources,
                    best.source,
                    best.metric.add(cost),
                    best.seqno,
                ) && sources == s.sources.insert(
                    best.source,
                    #[trigger] announced_distance(best, cost),
                );
            assert(x.source == best.source);
            let held = s.sources[best.source];
            assert(s.sources.contains_key(best.source));
            assert(at_hand(s, update, held.seqno));
            if x.metric.0 < best.metric.0 {
                assert(announced_distance(best, cost).improved_by(x.metric, x.seqno));
                assert(held.improved_by(best.metric, best.seqno));
                if x.seqno.gt(&best.seqno) && best.seqno.gt(&held.seqno) {
                    assert(x.seqno.gt(&held.seqno));
                }
                assert(held.improved_by(x.metric, x.seqno));
            }
        }
    }
    assert(is_best(sources, chosen, 0));
    let d = choose|d: int| is_best(sources, chosen, d);
    if d > 0 {
        assert(route_feasible(sources, chosen[0]));
        assert(chosen[d].metric.0 < chosen[0].metric.0);
    }
}

/// The sequence number of every route of the list after an update is at hand.
proof fn lemma_at_hand(s: RouterState, update: Update, peer: Peer)
    ensures
        forall|k: int|
            0 <= k < s.list_after_update(update, peer).len() ==> at_hand(
                s,
                update,
                (#[trigger] s.list_after_update(update, peer)[k]).seqno,
            ),
{
    let list = entries_of(s.routes, update.subnet);
    let after = s.list_after_update(update, peer);
    if has_neighbour(list, peer) {
        lemma_first_exists(list, peer);
    }
    assert forall|k: int| 0 <= k < after.len() implies at_hand(
        s,
        update,
        (#[trigger] after[k]).seqno,
    ) by {
        if k < list.len() && after[k].seqno != update.seqno {
            assert(list[k].seqno == after[k].seqno);
        }
    }
}

/// Taking the same update twice: the second time leaves the state as the first
/// time left it. This holds where the state is sound, next hops are known,
/// links have a positive cost, the update comes from a neighbour with a link,
/// and the sequence numbers at hand are in order.
pub proof fn lemma_update_twice_in_order(
    s: RouterState,
    allowed: bool,
    update: Update,
    peer: Peer,
    secret: SharedSecret,
)
    requires
        steady(s),
        has_link(s.peers, peer),
        seqnos_in_order(s, update),
    ensures
        ({
            let once = s.apply_all(s.on_update(allowed, update, peer, secret).ops);
            once.apply_all(once.on_update(allowed, update, peer, secret).ops) == once
        }),
{
    lemma_update_settles(s, allowed, update, peer, secret);
    lemma_update_twice(s, allowed, update, peer, secret);
}

} // verus!
