//! The soundness of the routing table against the source table: every selected
//! route is retracted or feasible, and what keeps it so.

use vstd::prelude::*;
use crate::babel::Update;
use crate::metric::Metric;
use crate::peer::{Peer, PeerLink};
use crate::invariants::list_neighbours;
use crate::propagation::{
    has_link, is_first_link, lemma_same_to_all, link_cost_of, retraction, route_update,
    routes_updates, selected_updates, source_of, source_op, source_ops, static_update,
    static_updates, to_peers_except,
};
use crate::route_lists::{all_routes, keyed};
use crate::routing_table::RouteKey;
use crate::reactions::{best_route, has_feasible, is_best, is_static, route_feasible};
use crate::route_lists::{
    entries_of, has_neighbour, has_subnet, lemma_first_exists, lemma_subnet_at,
    lemma_with_list, list_refresh, list_remove, list_select, list_unselect, lists_wf,
    neighbour_index, only_front_selected, selected_of, subnet_index, with_list, without_peer,
    RouteLists,
};
use crate::router_id::RouterId;
use crate::router_state::{RouterOpLogEntry, RouterState, StaticRoute};
use crate::routing_table::RouteEntry;
use crate::sequence_number::SeqNo;
use crate::source_table::{feasible, FeasibilityDistance, SourceKey};
use crate::subnet::Subnet;

verus! {

/// Whether the routes `list` of the prefix `subnet` are in order: at most the
/// route in front is selected, every route has `subnet` as the prefix of its
/// source, no two routes go through the same neighbour, and every selected
/// route is retracted or feasible against `sources`.
pub open spec fn list_sound(
    sources: Map<SourceKey, FeasibilityDistance>,
    subnet: Subnet,
    list: Seq<RouteEntry>,
) -> bool {
    &&& only_front_selected(list)
    &&& forall|j: int| 0 <= j < list.len() ==> (#[trigger] list[j]).source.subnet == subnet
    &&& forall|j: int, k: int|
        0 <= j < k < list.len() ==> (#[trigger] list[j]).neighbor != (#[trigger] list[k]).neighbor
    &&& forall|j: int|
        0 <= j < list.len() && (#[trigger] list[j]).selected ==> route_feasible(sources, list[j])
}

impl RouterState {
    /// Whether every selected route is retracted or feasible against the source
    /// table.
    pub open spec fn selected_feasible(self) -> bool {
        forall|i: int, j: int|
            0 <= i < self.routes.len() && 0 <= j < self.routes[i].1.len() && (
            #[trigger] self.routes[i].1[j]).selected ==> self.routes[i].1[j].metric.is_infinite()
                || route_feasible(self.sources, self.routes[i].1[j])
    }

    /// Whether the lists of all prefixes but `subnet` are in order, in a proper
    /// table without routes to the static prefixes.
    pub open spec fn sound_but(self, subnet: Subnet) -> bool {
        &&& lists_wf(self.routes)
        &&& forall|i: int|
            0 <= i < self.routes.len() && (#[trigger] self.routes[i]).0 != subnet ==> list_sound(
                self.sources,
                self.routes[i].0,
                self.routes[i].1,
            )
        &&& forall|i: int|
            0 <= i < self.routes.len() && (#[trigger] self.routes[i]).0 != subnet ==> !is_static(
                self.static_routes,
                self.routes[i].0,
            )
    }

    /// Whether the state is sound: the routing table is a proper table without
    /// routes to the static prefixes, and the list of every prefix is in order.
    pub open spec fn sound(self) -> bool {
        &&& lists_wf(self.routes)
        &&& forall|i: int|
            0 <= i < self.routes.len() ==> list_sound(
                self.sources,
                (#[trigger] self.routes[i]).0,
                self.routes[i].1,
            )
        &&& forall|i: int|
            0 <= i < self.routes.len() ==> !is_static(
                self.static_routes,
                (#[trigger] self.routes[i]).0,
            )
    }

    /// This state with the routes of `subnet` replaced by `list`.
    pub open spec fn with_routes(self, subnet: Subnet, list: Seq<RouteEntry>) -> RouterState {
        RouterState { routes: with_list(self.routes, subnet, list), ..self }
    }
}

/// In a sound state every selected route is retracted or feasible.
pub proof fn lemma_sound_is_feasible(s: RouterState)
    requires
        s.sound(),
    ensures
        s.selected_feasible(),
        s.selection_in_order(),
        s.routes_wf(),
{
    assert forall|i: int, j: int|
        0 <= i < s.routes.len() && 0 <= j < s.routes[i].1.len() && (
        #[trigger] s.routes[i].1[j]).selected implies s.routes[i].1[j].metric.is_infinite()
        || route_feasible(s.sources, s.routes[i].1[j]) by {
        assert(list_sound(s.sources, s.routes[i].0, s.routes[i].1));
    }
    assert forall|i: int| 0 <= i < s.routes.len() implies only_front_selected(
        (#[trigger] s.routes[i]).1,
    ) by {
        assert(list_sound(s.sources, s.routes[i].0, s.routes[i].1));
    }
}

/// A sound state is sound but for any one prefix, and the list of every prefix
/// is in order.
pub proof fn lemma_sound_entries(s: RouterState, subnet: Subnet)
    requires
        s.sound(),
    ensures
        s.sound_but(subnet),
        list_sound(s.sources, subnet, entries_of(s.routes, subnet)),
        entries_of(s.routes, subnet).len() > 0 ==> !is_static(s.static_routes, subnet),
{
    if has_subnet(s.routes, subnet) {
        let i = subnet_index(s.routes, subnet);
        assert(list_sound(s.sources, s.routes[i].0, s.routes[i].1));
        assert(!is_static(s.static_routes, s.routes[i].0));
    }
}

/// Where the table is sound but for `subnet`, putting any list in the place of
/// the routes of `subnet` leaves it so; and putting a list that is in order
/// there makes the state sound, if `subnet` is no static prefix.
pub proof fn lemma_with_routes(s: RouterState, subnet: Subnet, list: Seq<RouteEntry>)
    requires
        s.sound_but(subnet),
    ensures
        s.with_routes(subnet, list).sound_but(subnet),
        entries_of(s.with_routes(subnet, list).routes, subnet) == list,
        list_sound(s.sources, subnet, list) && (list.len() > 0 ==> !is_static(
            s.static_routes,
            subnet,
        )) ==> s.with_routes(subnet, list).sound(),
{
    let after = s.with_routes(subnet, list);
    lemma_with_list(s.routes, subnet, list, subnet);
    assert forall|i: int| 0 <= i < after.routes.len() && (#[trigger] after.routes[i]).0
        != subnet implies list_sound(after.sources, after.routes[i].0, after.routes[i].1)
        && !is_static(after.static_routes, after.routes[i].0) by {
        let b = after.routes[i];
        if has_subnet(s.routes, subnet) {
            let at = subnet_index(s.routes, subnet);
            if list.len() == 0 {
                let a = if i < at {
                    i
                } else {
                    i + 1
                };
                assert(s.routes[a] == b);
            } else {
                assert(s.routes[i] == b);
            }
        } else if list.len() > 0 {
            assert(s.routes[i] == b);
        }
    }
    if list_sound(s.sources, subnet, list) && (list.len() > 0 ==> !is_static(
        s.static_routes,
        subnet,
    )) {
        assert forall|i: int| 0 <= i < after.routes.len() implies list_sound(
            after.sources,
            (#[trigger] after.routes[i]).0,
            after.routes[i].1,
        ) && !is_static(after.static_routes, after.routes[i].0) by {
            if after.routes[i].0 == subnet {
                lemma_subnet_at(after.routes, i);
            }
        }
    }
}

/// What the changes to one list keep of its order.
#[verifier::rlimit(50)]
pub proof fn lemma_list_sound(
    sources: Map<SourceKey, FeasibilityDistance>,
    subnet: Subnet,
    list: Seq<RouteEntry>,
    peer: Peer,
    seqno: SeqNo,
    metric: Metric,
    router_id: RouterId,
)
    requires
        list_sound(sources, subnet, list),
    ensures
        list_sound(sources, subnet, list_remove(list, peer)),
        list_sound(sources, subnet, list_unselect(list, peer)),
        list_sound(sources, subnet, without_peer(list, peer)),
        has_neighbour(list, peer) && route_feasible(
            sources,
            list[neighbour_index(list, peer)],
        ) ==> list_sound(sources, subnet, list_select(list, peer)),
        has_neighbour(list, peer) && (list[neighbour_index(list, peer)].selected ==> route_feasible(
            sources,
            list[neighbour_index(list, peer)].refreshed(seqno, metric, router_id),
        )) ==> list_sound(sources, subnet, list_refresh(list, peer, seqno, metric, router_id)),
        !has_neighbour(list, peer) ==> list_select(list, peer) == list && list_refresh(
            list,
            peer,
            seqno,
            metric,
            router_id,
        ) == list,
{
    lemma_without_peer_sound(sources, subnet, list, peer);
    if has_neighbour(list, peer) {
        lemma_first_exists(list, peer);
        let at = neighbour_index(list, peer);
        let last = list.len() - 1;
        let removed = list_remove(list, peer);
        assert forall|j: int| 0 <= j < removed.len() implies (#[trigger] removed[j]).source.subnet
            == subnet && (removed[j].selected ==> j == 0 && route_feasible(sources, removed[j])) by {
            if j == at {
                assert(removed[j] == list[last]);
                if last > 0 {
                    assert(!list[last].selected);
                }
            } else {
                assert(removed[j] == list[j]);
                if j > 0 {
                    assert(!list[j].selected);
                }
            }
        }
        assert forall|j: int, k: int| 0 <= j < k < removed.len() implies (
        #[trigger] removed[j]).neighbor != (#[trigger] removed[k]).neighbor by {
            let a = if j == at {
                last
            } else {
                j
            };
            let b = if k == at {
                last
            } else {
                k
            };
            assert(removed[j] == list[a]);
            assert(removed[k] == list[b]);
            if a < b {
                assert(list[a].neighbor != list[b].neighbor);
            } else {
                assert(list[b].neighbor != list[a].neighbor);
            }
        }
        let cleared = list_unselect(list, peer);
        assert forall|j: int| 0 <= j < cleared.len() implies (#[trigger] cleared[j]).source.subnet
            == subnet && cleared[j].neighbor == list[j].neighbor && (cleared[j].selected ==> j == 0
            && route_feasible(sources, cleared[j])) by {
            if j != at {
                assert(cleared[j] == list[j]);
                if j > 0 {
                    assert(!list[j].selected);
                }
            }
        }
        assert forall|j: int, k: int| 0 <= j < k < cleared.len() implies (
        #[trigger] cleared[j]).neighbor != (#[trigger] cleared[k]).neighbor by {
            assert(list[j].neighbor != list[k].neighbor);
        }
        if route_feasible(sources, list[at]) {
            let chosen = list_select(list, peer);
            assert forall|j: int| 0 <= j < chosen.len() implies (
            #[trigger] chosen[j]).source.subnet == subnet && (chosen[j].selected ==> j == 0
                && route_feasible(sources, chosen[j])) by {
                assert(list[0].source.subnet == subnet);
                assert(list[at].source.subnet == subnet);
                if j != 0 && j != at {
                    assert(chosen[j] == list[j]);
                    assert(!list[j].selected);
                }
            }
            assert forall|j: int, k: int| 0 <= j < k < chosen.len() implies (
            #[trigger] chosen[j]).neighbor != (#[trigger] chosen[k]).neighbor by {
                let a = if j == 0 {
                    at
                } else if j == at {
                    0
                } else {
                    j
                };
                let b = if k == 0 {
                    at
                } else if k == at {
                    0
                } else {
                    k
                };
                assert(chosen[j].neighbor == list[a].neighbor);
                assert(chosen[k].neighbor == list[b].neighbor);
                if a < b {
                    assert(list[a].neighbor != list[b].neighbor);
                } else {
                    assert(list[b].neighbor != list[a].neighbor);
                }
            }
        }
        let renewed = list_refresh(list, peer, seqno, metric, router_id);
        if list[at].selected ==> route_feasible(
            sources,
            list[at].refreshed(seqno, metric, router_id),
        ) {
            assert forall|j: int| 0 <= j < renewed.len() implies (
            #[trigger] renewed[j]).source.subnet == subnet && renewed[j].neighbor
                == list[j].neighbor && (renewed[j].selected ==> j == 0 && route_feasible(
                sources,
                renewed[j],
            )) by {
                assert(list[j].source.subnet == subnet);
                if j != at {
                    assert(renewed[j] == list[j]);
                }
                if j > 0 {
                    assert(!list[j].selected);
                }
            }
            assert forall|j: int, k: int| 0 <= j < k < renewed.len() implies (
            #[trigger] renewed[j]).neighbor != (#[trigger] renewed[k]).neighbor by {
                assert(list[j].neighbor != list[k].neighbor);
            }
        }
    }
}

/// Taking the routes through a peer out of a list that is in order leaves it in
/// order; and every route left stood at the same place or later.
proof fn lemma_without_peer_sound(
    sources: Map<SourceKey, FeasibilityDistance>,
    subnet: Subnet,
    list: Seq<RouteEntry>,
    peer: Peer,
)
    requires
        list_sound(sources, subnet, list),
    ensures
        list_sound(sources, subnet, without_peer(list, peer)),
        forall|k: int|
            0 <= k < without_peer(list, peer).len() ==> exists|j: int|
                k <= j < list.len() && list[j] == #[trigger] without_peer(list, peer)[k],
    decreases list.len(),
{
    if list.len() > 0 {
        let front = list.drop_last();
        assert(list_sound(sources, subnet, front)) by {
            assert forall|j: int| 0 <= j < front.len() implies (#[trigger] front[j]) == list[j] by {}
            assert forall|j: int, k: int| 0 <= j < k < front.len() implies (
            #[trigger] front[j]).neighbor != (#[trigger] front[k]).neighbor by {
                assert(list[j].neighbor != list[k].neighbor);
            }
            assert forall|j: int| 0 < j < front.len() implies !(#[trigger] front[j]).selected by {
                assert(!list[j].selected);
            }
        }
        lemma_without_peer_sound(sources, subnet, front, peer);
        let kept = without_peer(list, peer);
        let before = without_peer(front, peer);
        let last = list.len() - 1;
        assert forall|k: int| 0 <= k < kept.len() implies exists|j: int|
            k <= j < list.len() && list[j] == #[trigger] kept[k] by {
            if k < before.len() {
                let j = choose|j: int| k <= j < front.len() && front[j] == before[k];
                assert(list[j] == kept[k]);
            } else {
                if before.len() > 0 {
                    let j = choose|j: int|
                        before.len() - 1 <= j < front.len() && front[j] == before[before.len() - 1];
                }
                assert(list[last] == kept[k]);
            }
        }
        assert forall|j: int| 0 <= j < kept.len() implies (#[trigger] kept[j]).source.subnet
            == subnet && (kept[j].selected ==> j == 0 && route_feasible(sources, kept[j])) by {
            let i = choose|i: int| j <= i < list.len() && list[i] == kept[j];
            if i > 0 {
                assert(!list[i].selected);
            }
        }
        assert forall|j: int, k: int| 0 <= j < k < kept.len() implies (#[trigger] kept[j]).neighbor
            != (#[trigger] kept[k]).neighbor by {
            if k < before.len() {
                assert(before[j].neighbor != before[k].neighbor);
            } else {
                let i = choose|i: int| j <= i < front.len() && front[i] == before[j];
                assert(list[i].neighbor != list[last].neighbor);
            }
        }
    }
}

/// Whether sending `update` keeps the state sound: the update is a retraction,
/// or every selected route from its source is retracted or strictly better than
/// what the update announces.
pub open spec fn update_safe(s: RouterState, update: Update) -> bool {
    update.metric.is_infinite() || forall|i: int, j: int|
        0 <= i < s.routes.len() && 0 <= j < s.routes[i].1.len() && (
        #[trigger] s.routes[i].1[j]).selected && s.routes[i].1[j].source == source_of(update)
            ==> s.routes[i].1[j].metric.is_infinite() || (FeasibilityDistance {
            metric: update.metric,
            seqno: update.seqno,
        }).improved_by(s.routes[i].1[j].metric, s.routes[i].1[j].seqno)
}

/// Sending updates that are safe keeps a sound state sound, and changes nothing
/// but the source table.
pub proof fn lemma_sending_sound(s: RouterState, updates: Seq<(Peer, Update)>)
    requires
        s.sound(),
        forall|k: int| 0 <= k < updates.len() ==> update_safe(s, (#[trigger] updates[k]).1),
    ensures
        s.apply_all(source_ops(s.sources, updates)).sound(),
        s.apply_all(source_ops(s.sources, updates)).routes == s.routes,
        s.apply_all(source_ops(s.sources, updates)).peers == s.peers,
        s.apply_all(source_ops(s.sources, updates)).static_routes == s.static_routes,
        s.apply_all(source_ops(s.sources, updates)).router_seqno == s.router_seqno,
        s.apply_all(source_ops(s.sources, updates)).last_seqno_bump == s.last_seqno_bump,
        s.apply_all(source_ops(s.sources, updates)).dest_keys == s.dest_keys,
    decreases updates.len(),
{
    if updates.len() > 0 {
        let front = updates.drop_last();
        assert forall|k: int| 0 <= k < front.len() implies update_safe(
            s,
            (#[trigger] front[k]).1,
        ) by {
            assert(front[k] == updates[k]);
        }
        lemma_sending_sound(s, front);
        let mid = s.apply_all(source_ops(s.sources, front));
        let update = updates.last().1;
        assert(update_safe(s, updates[updates.len() - 1].1));
        match source_op(s.sources, update) {
            Some(op) => {
                let ops = source_ops(s.sources, updates);
                assert(ops.drop_last() =~= source_ops(s.sources, front));
                assert(ops.last() == op);
                let after = mid.apply(op);
                let key = source_of(update);
                let distance = FeasibilityDistance { metric: update.metric, seqno: update.seqno };
                assert forall|i: int| 0 <= i < after.routes.len() implies list_sound(
                    after.sources,
                    (#[trigger] after.routes[i]).0,
                    after.routes[i].1,
                ) by {
                    let list = after.routes[i].1;
                    assert(list_sound(mid.sources, mid.routes[i].0, mid.routes[i].1));
                    assert forall|j: int| 0 <= j < list.len() && (
                    #[trigger] list[j]).selected implies route_feasible(after.sources, list[j]) by {
                        assert(route_feasible(mid.sources, list[j]));
                        if list[j].source == key {
                            assert(s.routes[i].1[j].selected);
                        }
                    }
                }
            },
            None => {},
        }
    }
}

/// Operations that only record feasibility distances leave the routing table,
/// the neighbours, the static routes and the keys as they are.
pub proof fn lemma_sending_keeps_routes(s: RouterState, ops: Seq<RouterOpLogEntry>)
    requires
        crate::propagation::only_source_ops(ops),
    ensures
        same_routes(s.apply_all(ops), s),
    decreases ops.len(),
{
    if ops.len() > 0 {
        assert forall|i: int| 0 <= i < ops.drop_last().len() implies (
        #[trigger] ops.drop_last()[i]) is InsertSourceEntry by {
            assert(ops.drop_last()[i] == ops[i]);
        }
        lemma_sending_keeps_routes(s, ops.drop_last());
        assert(ops[ops.len() - 1] is InsertSourceEntry);
    }
}

/// Where there is a link to `peer` and every link has a cost of at least one,
/// the cost of the link to `peer` is at least one.
pub proof fn lemma_link_cost_positive(s: RouterState, peer: Peer)
    requires
        s.links_positive(),
        has_link(s.peers, peer),
    ensures
        link_cost_of(s.peers, peer).0 >= 1,
{
    let k = choose|k: int| 0 <= k < s.peers.len() && (#[trigger] s.peers[k]).peer == peer;
    lemma_first_link_below(s.peers, peer, k);
    let c = choose|c: int| is_first_link(s.peers, peer, c);
    assert(s.peers[c].link_cost >= 1);
}

/// Where the link at `k` is to `peer`, some link at or before `k` is the first
/// to `peer`.
proof fn lemma_first_link_below(peers: Seq<PeerLink>, peer: Peer, k: int)
    requires
        0 <= k < peers.len(),
        peers[k].peer == peer,
    ensures
        exists|i: int| is_first_link(peers, peer, i),
    decreases k,
{
    if exists|j: int| 0 <= j < k && (#[trigger] peers[j]).peer == peer {
        let j = choose|j: int| 0 <= j < k && (#[trigger] peers[j]).peer == peer;
        lemma_first_link_below(peers, peer, j);
    } else {
        assert(is_first_link(peers, peer, k));
    }
}

/// In a sound state with known next hops and links of positive cost, the
/// update that announces the selected route of a prefix is safe to send, with
/// the cost of any link of positive cost added.
pub proof fn lemma_route_update_safe(s: RouterState, subnet: Subnet, cost: Metric)
    requires
        s.sound(),
        cost.0 >= 1,
        selected_of(entries_of(s.routes, subnet)) is Some,
    ensures
        ({
            let entry = selected_of(entries_of(s.routes, subnet))->0;
            update_safe(
                s,
                Update {
                    interval: crate::propagation::UPDATE_INTERVAL,
                    seqno: entry.seqno,
                    metric: entry.metric.add(cost),
                    subnet,
                    router_id: entry.source.router_id,
                },
            )
        }),
{
    let list = entries_of(s.routes, subnet);
    let entry = list[0];
    let at = subnet_index(s.routes, subnet);
    assert(has_subnet(s.routes, subnet));
    assert(list_sound(s.sources, s.routes[at].0, s.routes[at].1));
    let update = Update {
        interval: crate::propagation::UPDATE_INTERVAL,
        seqno: entry.seqno,
        metric: entry.metric.add(cost),
        subnet,
        router_id: entry.source.router_id,
    };
    if !update.metric.is_infinite() {
        assert forall|i: int, j: int|
            0 <= i < s.routes.len() && 0 <= j < s.routes[i].1.len() && (
            #[trigger] s.routes[i].1[j]).selected && s.routes[i].1[j].source == source_of(
                update,
            ) implies s.routes[i].1[j].metric.is_infinite() || (FeasibilityDistance {
            metric: update.metric,
            seqno: update.seqno,
        }).improved_by(s.routes[i].1[j].metric, s.routes[i].1[j].seqno) by {
            assert(list_sound(s.sources, s.routes[i].0, s.routes[i].1));
            assert(s.routes[i].1[j].source.subnet == s.routes[i].0);
            if i != at {
                if i < at {
                    assert(s.routes[i].0 != s.routes[at].0);
                } else {
                    assert(s.routes[at].0 != s.routes[i].0);
                }
            } else if j > 0 {
                assert(!s.routes[i].1[j].selected);
            }
        }
    }
}

/// In a sound state the update that announces a static route is safe to send.
pub proof fn lemma_static_update_safe(s: RouterState, router_id: RouterId, route: StaticRoute)
    requires
        s.sound(),
        is_static(s.static_routes, route.subnet),
    ensures
        update_safe(s, static_update(s, router_id, route)),
{
    let update = static_update(s, router_id, route);
    assert forall|i: int, j: int|
        0 <= i < s.routes.len() && 0 <= j < s.routes[i].1.len() && (
        #[trigger] s.routes[i].1[j]).selected && s.routes[i].1[j].source == source_of(
            update,
        ) implies false by {
        assert(list_sound(s.sources, s.routes[i].0, s.routes[i].1));
        assert(s.routes[i].1[j].source.subnet == s.routes[i].0);
        assert(!is_static(s.static_routes, s.routes[i].0));
    }
}

/// The best route of a list is one of its routes and is feasible; where there
/// is none, no route of the list is feasible.
pub proof fn lemma_best_route(sources: Map<SourceKey, FeasibilityDistance>, list: Seq<RouteEntry>)
    ensures
        match best_route(sources, list) {
            Some(best) => (exists|c: int|
                0 <= c < list.len() && list[c] == best && route_feasible(sources, best))
                && forall|j: int|
                0 <= j < list.len() && route_feasible(sources, #[trigger] list[j]) ==> best.metric.0
                    <= list[j].metric.0,
            None => forall|j: int| 0 <= j < list.len() ==> !route_feasible(sources, #[trigger] list[j]),
        },
{
    if has_feasible(sources, list) {
        let k = choose|k: int| 0 <= k < list.len() && route_feasible(sources, #[trigger] list[k]);
        lemma_best_below(sources, list, k);
        let c = choose|c: int| is_best(sources, list, c);
        assert(list[c] == best_route(sources, list)->0);
    }
}

/// Where the route at `k` is feasible, the list has a best route.
proof fn lemma_best_below(sources: Map<SourceKey, FeasibilityDistance>, list: Seq<RouteEntry>, k: int)
    requires
        0 <= k < list.len(),
        route_feasible(sources, list[k]),
    ensures
        exists|c: int| is_best(sources, list, c),
    decreases list[k].metric.0, k,
{
    if exists|j: int|
        0 <= j < list.len() && route_feasible(sources, #[trigger] list[j]) && list[j].metric.0
            < list[k].metric.0 {
        let j = choose|j: int|
            0 <= j < list.len() && route_feasible(sources, #[trigger] list[j]) && list[j].metric.0
                < list[k].metric.0;
        lemma_best_below(sources, list, j);
    } else if exists|j: int|
        0 <= j < k && route_feasible(sources, #[trigger] list[j]) && list[j].metric.0
            == list[k].metric.0 {
        let j = choose|j: int|
            0 <= j < k && route_feasible(sources, #[trigger] list[j]) && list[j].metric.0
                == list[k].metric.0;
        lemma_best_below(sources, list, j);
    } else {
        assert(is_best(sources, list, k));
    }
}

/// Whether the state is sound, the next hop of every route has a link, and
/// every link has a cost of at least one.
pub open spec fn steady(s: RouterState) -> bool {
    s.sound() && s.neighbours_known() && s.links_positive()
}

/// Whether `after` has the routes, neighbours and static routes of `before`.
pub open spec fn same_routes(after: RouterState, before: RouterState) -> bool {
    &&& after.routes == before.routes
    &&& after.peers == before.peers
    &&& after.static_routes == before.static_routes
    &&& after.router_seqno == before.router_seqno
    &&& after.last_seqno_bump == before.last_seqno_bump
    &&& after.dest_keys == before.dest_keys
}

/// In a sound state with known next hops, the cost of the link to the next hop
/// of the selected route of a prefix is at least one if all links are.
proof fn lemma_selected_link(s: RouterState, subnet: Subnet)
    requires
        steady(s),
        selected_of(entries_of(s.routes, subnet)) is Some,
    ensures
        link_cost_of(s.peers, selected_of(entries_of(s.routes, subnet))->0.neighbor).0 >= 1,
{
    let at = subnet_index(s.routes, subnet);
    assert(has_subnet(s.routes, subnet));
    let known = |peer: Peer| has_link(s.peers, peer);
    assert(list_neighbours(s.routes[at].1, known));
    assert(known(s.routes[at].1[0].neighbor));
    lemma_link_cost_positive(s, s.routes[at].1[0].neighbor);
}

/// Whether the source table `after` is `before`, or `before` with the distance
/// recorded at which `route` is announced over a link of positive cost: a
/// distance that is finite and strictly better than what `before` held.
pub open spec fn recorded_for(
    before: Map<SourceKey, FeasibilityDistance>,
    after: Map<SourceKey, FeasibilityDistance>,
    route: RouteEntry,
) -> bool {
    after == before || exists|cost: Metric|
        cost.0 >= 1 && !route.metric.add(cost).is_infinite() && feasible(
            before,
            route.source,
            route.metric.add(cost),
            route.seqno,
        ) && after == before.insert(
            route.source,
            #[trigger] announced_distance(route, cost),
        )
}

/// The distance at which `route` is announced over a link of the cost `cost`.
pub open spec fn announced_distance(route: RouteEntry, cost: Metric) -> FeasibilityDistance {
    FeasibilityDistance { metric: route.metric.add(cost), seqno: route.seqno }
}

/// Sending one update to several neighbours records its distance once, if at
/// all.
pub proof fn lemma_uniform_sending(s: RouterState, updates: Seq<(Peer, Update)>, update: Update)
    requires
        forall|k: int| 0 <= k < updates.len() ==> (#[trigger] updates[k]).1 == update,
    ensures
        s.apply_all(source_ops(s.sources, updates)).sources == (if updates.len() > 0 && source_op(
            s.sources,
            update,
        ) is Some {
            s.sources.insert(
                source_of(update),
                FeasibilityDistance { metric: update.metric, seqno: update.seqno },
            )
        } else {
            s.sources
        }),
    decreases updates.len(),
{
    if updates.len() > 0 {
        let front = updates.drop_last();
        assert forall|k: int| 0 <= k < front.len() implies (#[trigger] front[k]).1 == update by {
            assert(front[k] == updates[k]);
        }
        lemma_uniform_sending(s, front, update);
        assert(updates[updates.len() - 1].1 == update);
        match source_op(s.sources, update) {
            Some(op) => {
                let ops = source_ops(s.sources, updates);
                assert(ops.drop_last() =~= source_ops(s.sources, front));
                assert(ops.last() == op);
                let distance = FeasibilityDistance { metric: update.metric, seqno: update.seqno };
                assert(s.sources.insert(source_of(update), distance).insert(
                    source_of(update),
                    distance,
                ) =~= s.sources.insert(source_of(update), distance));
            },
            None => {},
        }
    }
}

/// Announcing the state of the route to a prefix keeps a steady state sound. It
/// changes nothing but the source table, where at most the distance of the
/// selected route of the prefix is recorded.
pub proof fn lemma_announce_sound(s: RouterState, subnet: Subnet, router_id: RouterId)
    requires
        steady(s),
    ensures
        s.apply_all(s.propagate_selected_route(subnet, router_id).ops).sound(),
        same_routes(s.apply_all(s.propagate_selected_route(subnet, router_id).ops), s),
        match selected_of(entries_of(s.routes, subnet)) {
            Some(entry) => recorded_for(
                s.sources,
                s.apply_all(s.propagate_selected_route(subnet, router_id).ops).sources,
                entry,
            ),
            None => s.apply_all(s.propagate_selected_route(subnet, router_id).ops).sources
                == s.sources,
        },
{
    let updates = selected_updates(s, subnet, router_id);
    let after = s.apply_all(s.propagate_selected_route(subnet, router_id).ops);
    match selected_of(entries_of(s.routes, subnet)) {
        Some(entry) => {
            lemma_selected_link(s, subnet);
            lemma_sound_entries(s, subnet);
            let cost = link_cost_of(s.peers, entry.neighbor);
            let update = route_update(s, subnet, entry);
            lemma_route_update_safe(s, subnet, cost);
            lemma_same_to_all(s.peers, update, Some(entry.neighbor));
            lemma_uniform_sending(s, updates, update);
            assert(entry.source == source_of(update));
            if after.sources != s.sources {
                assert(after.sources == s.sources.insert(
                    entry.source,
                    announced_distance(entry, cost),
                ));
            }
        },
        None => {
            let update = retraction(s, subnet, router_id);
            lemma_same_to_all(s.peers, update, None);
            lemma_uniform_sending(s, updates, update);
        },
    }
    lemma_sending_sound(s, updates);
}

/// Whether `item` is a route of `lists` under its key.
pub open spec fn is_route_of(lists: RouteLists, item: (RouteKey, RouteEntry)) -> bool {
    exists|i: int, j: int|
        0 <= i < lists.len() && 0 <= j < lists[i].1.len() && item == (
            RouteKey { subnet: lists[i].0, neighbor: lists[i].1[j].neighbor },
            #[trigger] lists[i].1[j],
        )
}

/// Every entry of [`all_routes`] is a route of the table under its key.
pub proof fn lemma_all_routes(lists: RouteLists, k: int)
    requires
        0 <= k < all_routes(lists).len(),
    ensures
        is_route_of(lists, all_routes(lists)[k]),
    decreases lists.len(),
{
    let front = lists.drop_last();
    let last = lists.len() - 1;
    if k < all_routes(front).len() {
        lemma_all_routes(front, k);
        let (i, j) = choose|i: int, j: int|
            0 <= i < front.len() && 0 <= j < front[i].1.len() && all_routes(front)[k] == (
                RouteKey { subnet: front[i].0, neighbor: front[i].1[j].neighbor },
                #[trigger] front[i].1[j],
            );
        assert(lists[i].1[j] == front[i].1[j]);
    } else {
        let j = k - all_routes(front).len();
        assert(all_routes(lists)[k] == keyed(lists[last].0, lists[last].1)[j]);
        assert(all_routes(lists)[k] == (
            RouteKey { subnet: lists[last].0, neighbor: lists[last].1[j].neighbor },
            lists[last].1[j],
        ));
    }
}

#[verifier::rlimit(50)]

/// The updates that announce selected routes of the table are safe to send.
proof fn lemma_routes_updates_safe(s: RouterState, routes: Seq<(RouteKey, RouteEntry)>)
    requires
        steady(s),
        forall|k: int| 0 <= k < routes.len() ==> is_route_of(s.routes, #[trigger] routes[k]),
    ensures
        forall|k: int|
            0 <= k < routes_updates(s, routes).len() ==> update_safe(
                s,
                (#[trigger] routes_updates(s, routes)[k]).1,
            ),
    decreases routes.len(),
{
    if routes.len() > 0 {
        let front = routes.drop_last();
        assert forall|k: int| 0 <= k < front.len() implies is_route_of(
            s.routes,
            #[trigger] front[k],
        ) by {
            assert(front[k] == routes[k]);
        }
        lemma_routes_updates_safe(s, front);
        let all = routes_updates(s, routes);
        let before = routes_updates(s, front);
        let (key, entry) = routes.last();
        if entry.selected {
            assert(routes[routes.len() - 1] == (key, entry));
            assert(is_route_of(s.routes, routes[routes.len() - 1]));
            let (i, j) = choose|i: int, j: int|
                0 <= i < s.routes.len() && 0 <= j < s.routes[i].1.len() && (key, entry) == (
                    RouteKey { subnet: s.routes[i].0, neighbor: s.routes[i].1[j].neighbor },
                    #[trigger] s.routes[i].1[j],
                );
            let update = route_update(s, key.subnet, entry);
            assert(list_sound(s.sources, s.routes[i].0, s.routes[i].1));
            lemma_subnet_at(s.routes, i);
            if j > 0 {
                assert(!s.routes[i].1[j].selected);
            }
            if !entry.metric.is_infinite() {
                assert(selected_of(entries_of(s.routes, key.subnet)) == Some(entry));
                lemma_selected_link(s, key.subnet);
                lemma_route_update_safe(s, key.subnet, link_cost_of(s.peers, entry.neighbor));
            }
            assert(update_safe(s, update));
            let sent = to_peers_except(s.peers, update, Some(entry.neighbor));
            lemma_same_to_all(s.peers, update, Some(entry.neighbor));
            assert forall|k: int| 0 <= k < all.len() implies update_safe(
                s,
                (#[trigger] all[k]).1,
            ) by {
                if k < before.len() {
                    assert(all[k] == before[k]);
                } else {
                    assert(all[k] == sent[k - before.len()]);
                }
            }
        }
    }
}

/// Announcing every selected route keeps a steady state sound.
pub proof fn lemma_announce_all_sound(s: RouterState)
    requires
        steady(s),
    ensures
        s.apply_all(s.propagate_selected_routes().ops).sound(),
        same_routes(s.apply_all(s.propagate_selected_routes().ops), s),
{
    let routes = all_routes(s.routes);
    assert forall|k: int| 0 <= k < routes.len() implies is_route_of(
        s.routes,
        #[trigger] routes[k],
    ) by {
        lemma_all_routes(s.routes, k);
    }
    lemma_routes_updates_safe(s, routes);
    lemma_sending_sound(s, routes_updates(s, routes));
}

/// The updates that announce static routes are safe to send.
proof fn lemma_static_updates_safe(s: RouterState, router_id: RouterId, routes: Seq<StaticRoute>)
    requires
        s.sound(),
        forall|k: int| 0 <= k < routes.len() ==> is_static(s.static_routes, (#[trigger] routes[k]).subnet),
    ensures
        forall|k: int|
            0 <= k < static_updates(s, router_id, routes).len() ==> update_safe(
                s,
                (#[trigger] static_updates(s, router_id, routes)[k]).1,
            ),
    decreases routes.len(),
{
    if routes.len() > 0 {
        let front = routes.drop_last();
        assert forall|k: int| 0 <= k < front.len() implies is_static(
            s.static_routes,
            (#[trigger] front[k]).subnet,
        ) by {
            assert(front[k] == routes[k]);
        }
        lemma_static_updates_safe(s, router_id, front);
        let all = static_updates(s, router_id, routes);
        let before = static_updates(s, router_id, front);
        let update = static_update(s, router_id, routes.last());
        assert(is_static(s.static_routes, routes[routes.len() - 1].subnet));
        lemma_static_update_safe(s, router_id, routes.last());
        let sent = to_peers_except(s.peers, update, None);
        lemma_same_to_all(s.peers, update, None);
        assert forall|k: int| 0 <= k < all.len() implies update_safe(s, (#[trigger] all[k]).1) by {
            if k < before.len() {
                assert(all[k] == before[k]);
            } else {
                assert(all[k] == sent[k - before.len()]);
            }
        }
    }
}

/// Announcing the static routes keeps a sound state sound.
pub proof fn lemma_announce_static_sound(s: RouterState, router_id: RouterId)
    requires
        s.sound(),
    ensures
        s.apply_all(s.propagate_static_route(router_id).ops).sound(),
        same_routes(s.apply_all(s.propagate_static_route(router_id).ops), s),
{
    assert forall|k: int| 0 <= k < s.static_routes.len() implies is_static(
        s.static_routes,
        (#[trigger] s.static_routes[k]).subnet,
    ) by {}
    lemma_static_updates_safe(s, router_id, s.static_routes);
    lemma_sending_sound(s, static_updates(s, router_id, s.static_routes));
}

/// A state with the routes, sources and static routes of a sound state is
/// sound.
pub proof fn lemma_sound_same(s: RouterState, other: RouterState)
    requires
        s.sound(),
        other.routes == s.routes,
        other.sources == s.sources,
        other.static_routes == s.static_routes,
    ensures
        other.sound(),
{
    assert forall|i: int| 0 <= i < other.routes.len() implies list_sound(
        other.sources,
        (#[trigger] other.routes[i]).0,
        other.routes[i].1,
    ) && !is_static(other.static_routes, other.routes[i].0) by {
        assert(list_sound(s.sources, s.routes[i].0, s.routes[i].1));
        assert(!is_static(s.static_routes, s.routes[i].0));
    }
}

} // verus!
