//! Laws of the router engine: what holds of its reactions on every state.

use vstd::prelude::*;
use crate::babel::{SeqNoRequest, Update};
use crate::crypto::SharedSecret;
use crate::metric::METRIC_INFINITE;
use crate::peer::Peer;
use crate::propagation::{
    lemma_same_to_all, retraction, source_ops, to_peers_except, update_packets, Reaction,
    BIG_METRIC_CHANGE_THRESHOLD,
};
use crate::reactions::{
    best_route, has_feasible, is_best, is_static, key_of, marked_front,
    needs_triggered_update, route_feasible, selecting,
};
use crate::route_lists::{
    entries_of, get_route, is_first_of, lemma_first_exists, lemma_first_unique,
    lemma_with_list, list_refresh, list_select, neighbour_index, route_of, selected_of,
};
use crate::router_id::RouterId;
use crate::router_state::{lemma_apply_push, lemma_apply_single, RouterOpLogEntry, RouterState};

use crate::sequence_number::{distance, SeqNo};

verus! {

/// How many operations of `ops` move the router's sequence number on.
pub open spec fn bumps(ops: Seq<RouterOpLogEntry>) -> nat
    decreases ops.len(),
{
    if ops.len() == 0 {
        0
    } else if ops.last() is BumpSequenceNumber {
        bumps(ops.drop_last()) + 1
    } else {
        bumps(ops.drop_last())
    }
}

/// The sequence number `steps` after `seqno`.
pub open spec fn advanced(seqno: SeqNo, steps: nat) -> SeqNo {
    SeqNo(((seqno.0 + steps) % 0x1_0000) as u16)
}

/// The router's sequence number never goes back. A log of operations moves it on
/// by one for every bump and leaves it alone otherwise; as long as a log holds
/// fewer than 2^15 bumps, the number after it does not come before the number
/// before it.
pub proof fn lemma_seqno_never_decreases(s: RouterState, ops: Seq<RouterOpLogEntry>)
    ensures
        s.apply_all(ops).router_seqno == advanced(s.router_seqno, bumps(ops)),
        bumps(ops) == 0 ==> s.apply_all(ops).router_seqno == s.router_seqno,
        0 < bumps(ops) < 0x8000 ==> s.router_seqno.lt(&s.apply_all(ops).router_seqno),
        bumps(ops) < 0x8000 ==> !s.apply_all(ops).router_seqno.lt(&s.router_seqno),
    decreases ops.len(),
{
    let start = s.router_seqno.0 as int;
    if ops.len() > 0 {
        lemma_seqno_never_decreases(s, ops.drop_last());
        let n = bumps(ops.drop_last()) as int;
        let mid = s.apply_all(ops.drop_last());
        assert(mid.router_seqno.0 == (start + n) % 0x1_0000);
        if ops.last() is BumpSequenceNumber {
            assert(s.apply_all(ops).router_seqno == mid.router_seqno.next());
            assert(((start + n) % 0x1_0000 + 1) % 0x1_0000 == (start + n + 1) % 0x1_0000) by {
                lemma_mod_step(start + n);
            }
        } else {
            assert(s.apply_all(ops).router_seqno == mid.router_seqno);
        }
    }
    let n = bumps(ops) as int;
    let end = s.apply_all(ops).router_seqno.0 as int;
    assert(end == (start + n) % 0x1_0000);
    if n < 0x8000 {
        lemma_mod_distance(start, n);
    }
}

/// Counting one on commutes with the wrap at 2^16.
proof fn lemma_mod_step(x: int)
    requires
        x >= 0,
    ensures
        (x % 0x1_0000 + 1) % 0x1_0000 == (x + 1) % 0x1_0000,
{
    vstd::arithmetic::div_mod::lemma_add_mod_noop(x, 1, 0x1_0000);
    assert(1int % 0x1_0000 == 1);
}

/// Fewer than 2^15 steps on from `start`, the distance from `start` is the
/// number of steps.
proof fn lemma_mod_distance(start: int, n: int)
    requires
        0 <= start < 0x1_0000,
        0 <= n < 0x8000,
    ensures
        ((start + n) % 0x1_0000 - start) % 0x1_0000 == n,
        n > 0 ==> (start - (start + n) % 0x1_0000) % 0x1_0000 == 0x1_0000 - n,
        n == 0 ==> (start + n) % 0x1_0000 == start,
{
}

/// An update that the filters reject leaves the state as it is, and nothing is
/// sent.
pub proof fn lemma_rejected_update(s: RouterState, update: Update, peer: Peer, secret: SharedSecret)
    ensures
        s.on_update(false, update, peer, secret) == Reaction::none(),
        s.apply_all(s.on_update(false, update, peer, secret).ops) == s,
        s.timers_of(s.on_update(false, update, peer, secret).ops).len() == 0,
{
}

/// A retraction from a neighbour that has no route to the prefix changes no
/// route and no feasibility distance, and nothing is sent: all that happens is
/// that the keys of the router that the update names are recorded.
pub proof fn lemma_unknown_retraction(s: RouterState, update: Update, peer: Peer, secret: SharedSecret)
    requires
        update.metric.is_infinite(),
        get_route(s.routes, key_of(update, peer)) is None,
    ensures
        ({
            let reaction = s.on_update(true, update, peer, secret);
            let learn = RouterOpLogEntry::AddDestPubkey(update.subnet, update.router_id.0, secret);
            &&& reaction.packets.len() == 0
            &&& reaction.ops == seq![learn]
            &&& s.apply_all(reaction.ops) == s.apply(learn)
            &&& s.apply_all(reaction.ops) == (RouterState {
                dest_keys: s.dest_keys.insert(update.subnet, (update.router_id.0, secret)),
                ..s
            })
        }),
{
    let learn = RouterOpLogEntry::AddDestPubkey(update.subnet, update.router_id.0, secret);
    let reaction = s.on_update(true, update, peer, secret);
    lemma_apply_single(s, learn);
    if !is_static(s.static_routes, update.subnet) {
        let taken = s.apply(learn).take_update(update, peer);
        assert(taken == Reaction::none());
        assert(reaction.ops =~= seq![learn]);
        assert(reaction.packets =~= Seq::empty());
    }
}

/// Whether every packet of `packets` is an update.
pub open spec fn only_updates(packets: Seq<(Peer, crate::babel::ControlPacket)>) -> bool {
    forall|i: int| 0 <= i < packets.len() ==> (#[trigger] packets[i]).1 is Update
}

/// A request for a sequence number with one hop left, or none, is not
/// forwarded: whatever the router sends in answer is an update.
pub proof fn lemma_last_hop_not_forwarded(
    s: RouterState,
    local: RouterId,
    request: SeqNoRequest,
    peer: Peer,
    now: u64,
)
    requires
        request.hop_count <= 1,
    ensures
        only_updates(s.on_seqno_request(local, request, peer, now).packets),
{
    let reaction = s.on_seqno_request(local, request, peer, now);
    assert forall|i: int| 0 <= i < reaction.packets.len() implies (
    #[trigger] reaction.packets[i]).1 is Update by {}
}

/// A retraction of the selected route, where no other route of the prefix is
/// feasible: the route is retracted in place and the selection is run again,
/// which leaves it selected; and, the change being one that matters, a
/// retraction of the prefix is sent to every neighbour.
///
/// The change matters if the route's metric was more than
/// [`BIG_METRIC_CHANGE_THRESHOLD`] below the infinite one, or the update names
/// another router or a newer sequence number than the route had.
#[verifier::rlimit(50)]
pub proof fn lemma_selected_retraction(s: RouterState, update: Update, peer: Peer, secret: SharedSecret)
    requires
        s.routes_wf(),
        !is_static(s.static_routes, update.subnet),
        update.metric.is_infinite(),
        route_of(entries_of(s.routes, update.subnet), peer) is Some,
        route_of(entries_of(s.routes, update.subnet), peer)->0.selected,
        neighbour_index(entries_of(s.routes, update.subnet), peer) == 0,
        forall|j: int|
            0 < j < entries_of(s.routes, update.subnet).len() ==> !route_feasible(
                s.sources,
                #[trigger] entries_of(s.routes, update.subnet)[j],
            ),
        ({
            let route = route_of(entries_of(s.routes, update.subnet), peer)->0;
            ||| route.metric.0 < METRIC_INFINITE - BIG_METRIC_CHANGE_THRESHOLD
            ||| update.router_id != route.source.router_id
            ||| update.seqno.gt(&route.seqno)
        }),
    ensures
        ({
            let reaction = s.on_update(true, update, peer, secret);
            let key = key_of(update, peer);
            &&& reaction.ops == seq![
                RouterOpLogEntry::AddDestPubkey(update.subnet, update.router_id.0, secret),
                RouterOpLogEntry::UpdateRouteEntry(
                    key,
                    update.seqno,
                    update.metric,
                    update.router_id,
                ),
                RouterOpLogEntry::SelectRoute(key),
            ]
            &&& reaction.packets == update_packets(
                to_peers_except(s.peers, retraction(s, update.subnet, update.router_id), None),
            )
        }),
{
    let learn = RouterOpLogEntry::AddDestPubkey(update.subnet, update.router_id.0, secret);
    let key = key_of(update, peer);
    let refresh = RouterOpLogEntry::UpdateRouteEntry(
        key,
        update.seqno,
        update.metric,
        update.router_id,
    );
    let select = RouterOpLogEntry::SelectRoute(key);
    let s1 = s.apply(learn);
    let list = entries_of(s.routes, update.subnet);
    lemma_first_exists(list, peer);
    let existing = list[0];
    let refreshed = existing.refreshed(update.seqno, update.metric, update.router_id);
    let list1 = list.update(0, refreshed);
    assert(route_feasible(s.sources, refreshed));
    assert(is_best(s1.sources, list1, 0)) by {
        assert forall|j: int|
            0 <= j < list1.len() && route_feasible(s1.sources, #[trigger] list1[j]) implies list1[0].metric.0
            <= list1[j].metric.0 by {
            if j > 0 {
                assert(list1[j] == list[j]);
            }
        }
    }
    assert(has_feasible(s1.sources, list1));
    let c = choose|c: int| is_best(s1.sources, list1, c);
    if c > 0 {
        assert(list1[c] == list[c]);
        assert(!route_feasible(s.sources, list[c]));
    }
    assert(best_route(s1.sources, list1) == Some(refreshed));
    assert(selecting(update.subnet, refreshed) == select);
    assert(marked_front(list) == Some(existing));
    assert(needs_triggered_update(Some(existing), Some(refreshed)));
    let ops = seq![refresh].push(select);
    assert(ops =~= seq![refresh, select]);
    lemma_apply_single(s1, refresh);
    lemma_apply_push(s1, seq![refresh], select);
    let s2 = s1.apply(refresh);
    let s3 = s2.apply(select);
    assert(s1.apply_all(ops) == s3);
    let renewed = list_refresh(list, peer, update.seqno, update.metric, update.router_id);
    assert(renewed == list1);
    lemma_with_list(s1.routes, update.subnet, renewed, update.subnet);
    assert(entries_of(s2.routes, update.subnet) == list1);
    assert(is_first_of(list1, peer, 0));
    lemma_first_unique(list1, peer, 0);
    let chosen = list_select(list1, peer);
    lemma_with_list(s2.routes, update.subnet, chosen, update.subnet);
    assert(entries_of(s3.routes, update.subnet) == chosen);
    assert(chosen[0].metric.is_infinite());
    assert(selected_of(chosen) is None);
    let announce = s3.propagate_selected_route(update.subnet, update.router_id);
    let sent = to_peers_except(s.peers, retraction(s, update.subnet, update.router_id), None);
    assert(retraction(s3, update.subnet, update.router_id) == retraction(
        s,
        update.subnet,
        update.router_id,
    ));
    lemma_same_to_all(s.peers, retraction(s, update.subnet, update.router_id), None);
    lemma_retractions_record_nothing(s3.sources, sent);
    let reaction = s.on_update(true, update, peer, secret);
    assert(reaction.ops =~= seq![learn, refresh, select]);
    assert(reaction.packets =~= update_packets(sent));
}

/// Sending retractions leaves the source table alone.
pub proof fn lemma_retractions_record_nothing(
    sources: Map<crate::source_table::SourceKey, crate::source_table::FeasibilityDistance>,
    updates: Seq<(Peer, Update)>,
)
    requires
        forall|i: int| 0 <= i < updates.len() ==> (#[trigger] updates[i]).1.metric.is_infinite(),
    ensures
        source_ops(sources, updates).len() == 0,
    decreases updates.len(),
{
    if updates.len() > 0 {
        assert forall|i: int| 0 <= i < updates.drop_last().len() implies (
        #[trigger] updates.drop_last()[i]).1.metric.is_infinite() by {
            assert(updates[i].1.metric.is_infinite());
        }
        lemma_retractions_record_nothing(sources, updates.drop_last());
        assert(updates[updates.len() - 1].1.metric.is_infinite());
    }
}

} // verus!
