//! What holds of the router's state whatever operation is applied to it.

use vstd::prelude::*;
use crate::metric::Metric;
use crate::peer::{Peer, PeerLink};
use crate::propagation::has_link;
use crate::route_laws::{lemma_remove_peer, lemma_selection_kept};
use crate::route_lists::{
    entries_of, has_neighbour, has_subnet, lemma_first_exists, lemma_with_list, list_insert,
    list_refresh, list_remove, list_select, list_unselect, lists_wf, neighbour_index,
    peer_unused, remove_peer_routes, selection_ok, subnet_index, with_list, without_peer,
    RouteLists,
};
use crate::router_id::RouterId;
use crate::router_state::{with_hello, with_ihu, without_links, RouterOpLogEntry, RouterState};
use crate::routing_table::{RouteEntry, RouteKey};
use crate::sequence_number::SeqNo;
use crate::subnet::Subnet;

verus! {

/// Whether the next hop of every route of `list` is `good`.
pub open spec fn list_neighbours(list: Seq<RouteEntry>, good: spec_fn(Peer) -> bool) -> bool {
    forall|j: int| 0 <= j < list.len() ==> good((#[trigger] list[j]).neighbor)
}

/// Whether the next hop of every route of `lists` is `good`.
pub open spec fn all_neighbours(lists: RouteLists, good: spec_fn(Peer) -> bool) -> bool {
    forall|i: int| 0 <= i < lists.len() ==> list_neighbours((#[trigger] lists[i]).1, good)
}

impl RouterState {
    /// Whether the routing table is a proper table.
    pub open spec fn routes_wf(self) -> bool {
        lists_wf(self.routes)
    }

    /// Whether every prefix has at most one selected route, and has it in front
    /// of its list.
    pub open spec fn selection_in_order(self) -> bool {
        selection_ok(self.routes)
    }

    /// Whether the next hop of every route is a neighbour with a link.
    pub open spec fn neighbours_known(self) -> bool {
        all_neighbours(self.routes, |peer: Peer| has_link(self.peers, peer))
    }

    /// Whether every link has a cost of at least one.
    pub open spec fn links_positive(self) -> bool {
        forall|k: int| 0 <= k < self.peers.len() ==> (#[trigger] self.peers[k]).link_cost >= 1
    }

    /// Whether this state keeps what holds of `before`, whatever the costs of
    /// the links: if the selection was in order it still is, and if the next
    /// hops were known they still are.
    pub open spec fn keeps_routes(self, before: RouterState) -> bool {
        &&& before.selection_in_order() ==> self.selection_in_order()
        &&& before.neighbours_known() ==> self.neighbours_known()
    }

    /// Whether this state keeps what holds of `before`: if the selection was in
    /// order it still is, if the next hops were known they still are, and if
    /// every link had a positive cost it still has.
    pub open spec fn keeps(self, before: RouterState) -> bool {
        &&& self.keeps_routes(before)
        &&& before.links_positive() ==> self.links_positive()
    }

    /// Whether this state keeps what holds of `before`, where a route through
    /// `peer` may have come in: if the selection was in order it still is, if
    /// the next hops were known and `peer` had a link they still are, and if
    /// every link had a positive cost it still has.
    pub open spec fn keeps_with(self, before: RouterState, peer: Peer) -> bool {
        &&& before.selection_in_order() ==> self.selection_in_order()
        &&& before.neighbours_known() && has_link(before.peers, peer) ==> self.neighbours_known()
        &&& before.links_positive() ==> self.links_positive()
    }

    /// Whether `op` brings no link cost of zero: it adds no link with such a
    /// cost and records no such cost.
    pub open spec fn costs_kept(op: RouterOpLogEntry) -> bool {
        match op {
            RouterOpLogEntry::AddPeer(link) => link.link_cost >= 1,
            RouterOpLogEntry::RecordIhu(_, cost, _) => cost >= 1,
            _ => true,
        }
    }

    /// Whether no route goes through `peer` and there is no link to it.
    pub open spec fn peer_gone(self, peer: Peer) -> bool {
        !has_link(self.peers, peer) && peer_unused(self.routes, peer)
    }

    /// Whether `op` inserts no route that is marked as selected.
    pub open spec fn inserts_unselected(op: RouterOpLogEntry) -> bool {
        match op {
            RouterOpLogEntry::InsertRoute(_, entry) => !entry.selected,
            _ => true,
        }
    }

    /// Whether `op` inserts no route through a neighbour without a link.
    pub open spec fn inserts_known(self, op: RouterOpLogEntry) -> bool {
        match op {
            RouterOpLogEntry::InsertRoute(_, entry) => has_link(self.peers, entry.neighbor),
            _ => true,
        }
    }
}

#[verifier::rlimit(50)]

/// What the changes to one list keep of the next hops of its routes.
proof fn lemma_list_neighbours(
    list: Seq<RouteEntry>,
    peer: Peer,
    entry: RouteEntry,
    seqno: SeqNo,
    metric: Metric,
    router_id: RouterId,
    good: spec_fn(Peer) -> bool,
)
    requires
        list_neighbours(list, good),
    ensures
        good(entry.neighbor) ==> list_neighbours(list_insert(list, peer, entry), good),
        list_neighbours(list_remove(list, peer), good),
        list_neighbours(list_select(list, peer), good),
        list_neighbours(list_unselect(list, peer), good),
        list_neighbours(list_refresh(list, peer, seqno, metric, router_id), good),
{
    if has_neighbour(list, peer) {
        lemma_first_exists(list, peer);
        let at = neighbour_index(list, peer);
        if good(entry.neighbor) {
            let after = list_insert(list, peer, entry);
            assert forall|j: int| 0 <= j < after.len() implies good(
                (#[trigger] after[j]).neighbor,
            ) by {
                assert(good(list[j].neighbor));
                assert(good(list[0].neighbor));
                assert(good(list[at].neighbor));
            }
        }
        let removed = list_remove(list, peer);
        assert forall|j: int| 0 <= j < removed.len() implies good(
            (#[trigger] removed[j]).neighbor,
        ) by {
            assert(good(list[j].neighbor));
            assert(good(list[list.len() - 1].neighbor));
        }
        let chosen = list_select(list, peer);
        assert forall|j: int| 0 <= j < chosen.len() implies good(
            (#[trigger] chosen[j]).neighbor,
        ) by {
            assert(good(list[j].neighbor));
            assert(good(list[0].neighbor));
            assert(good(list[at].neighbor));
        }
        let cleared = list_unselect(list, peer);
        assert forall|j: int| 0 <= j < cleared.len() implies good(
            (#[trigger] cleared[j]).neighbor,
        ) by {
            assert(good(list[j].neighbor));
        }
        let renewed = list_refresh(list, peer, seqno, metric, router_id);
        assert forall|j: int| 0 <= j < renewed.len() implies good(
            (#[trigger] renewed[j]).neighbor,
        ) by {
            assert(good(list[j].neighbor));
        }
    } else if good(entry.neighbor) {
        let after = list_insert(list, peer, entry);
        assert forall|j: int| 0 <= j < after.len() implies good((#[trigger] after[j]).neighbor) by {
            if j < list.len() {
                assert(good(list[j].neighbor));
            }
            if list.len() > 0 {
                assert(good(list[0].neighbor));
            }
        }
    }
}

/// Replacing the list of one prefix by a list with good next hops keeps the next
/// hops of the table good.
proof fn lemma_with_list_neighbours(
    lists: RouteLists,
    subnet: Subnet,
    list: Seq<RouteEntry>,
    good: spec_fn(Peer) -> bool,
)
    requires
        all_neighbours(lists, good),
        list_neighbours(list, good),
    ensures
        all_neighbours(with_list(lists, subnet, list), good),
        list_neighbours(entries_of(lists, subnet), good),
{
    let after = with_list(lists, subnet, list);
    if has_subnet(lists, subnet) {
        let at = subnet_index(lists, subnet);
        assert(list_neighbours(lists[at].1, good));
        assert forall|i: int| 0 <= i < after.len() implies list_neighbours(
            (#[trigger] after[i]).1,
            good,
        ) by {
            if list.len() == 0 {
                let a = if i < at {
                    i
                } else {
                    i + 1
                };
                assert(list_neighbours(lists[a].1, good));
            } else if i != at {
                assert(list_neighbours(lists[i].1, good));
            }
        }
    } else if list.len() > 0 {
        assert forall|i: int| 0 <= i < after.len() implies list_neighbours(
            (#[trigger] after[i]).1,
            good,
        ) by {
            if i < lists.len() {
                assert(list_neighbours(lists[i].1, good));
            }
        }
    }
}

/// The routes that are left without those through `peer` have good next hops
/// other than `peer`.
proof fn lemma_without_peer_neighbours(list: Seq<RouteEntry>, peer: Peer, good: spec_fn(Peer) -> bool)
    requires
        list_neighbours(list, good),
    ensures
        list_neighbours(without_peer(list, peer), |q: Peer| good(q) && q != peer),
    decreases list.len(),
{
    if list.len() > 0 {
        let front = list.drop_last();
        assert forall|j: int| 0 <= j < front.len() implies good((#[trigger] front[j]).neighbor) by {
            assert(good(list[j].neighbor));
        }
        lemma_without_peer_neighbours(front, peer, good);
        let kept = without_peer(list, peer);
        let before = without_peer(front, peer);
        assert forall|j: int| 0 <= j < kept.len() implies good((#[trigger] kept[j]).neighbor)
            && kept[j].neighbor != peer by {
            if j < before.len() {
                assert(good(before[j].neighbor) && before[j].neighbor != peer);
            } else {
                assert(good(list[list.len() - 1].neighbor));
            }
        }
    }
}

/// The table without the routes through `peer` has good next hops other than
/// `peer`.
proof fn lemma_remove_peer_neighbours(lists: RouteLists, peer: Peer, good: spec_fn(Peer) -> bool)
    requires
        all_neighbours(lists, good),
    ensures
        all_neighbours(remove_peer_routes(lists, peer), |q: Peer| good(q) && q != peer),
    decreases lists.len(),
{
    if lists.len() > 0 {
        let front = lists.drop_last();
        assert forall|i: int| 0 <= i < front.len() implies list_neighbours(
            (#[trigger] front[i]).1,
            good,
        ) by {
            assert(list_neighbours(lists[i].1, good));
        }
        lemma_remove_peer_neighbours(front, peer, good);
        assert(list_neighbours(lists[lists.len() - 1].1, good));
        lemma_without_peer_neighbours(lists.last().1, peer, good);
        let after = remove_peer_routes(lists, peer);
        let before = remove_peer_routes(front, peer);
        let rest = |q: Peer| good(q) && q != peer;
        assert forall|i: int| 0 <= i < after.len() implies list_neighbours(
            (#[trigger] after[i]).1,
            rest,
        ) by {
            if i < before.len() {
                assert(list_neighbours(before[i].1, rest));
            }
        }
    }
}

/// A link that is there stays when links to other neighbours go, when a link
/// is added, and when times and costs are recorded.
pub proof fn lemma_links_kept(peers: Seq<PeerLink>, peer: Peer, other: Peer, link: PeerLink, cost: u16, time: u64)
    requires
        has_link(peers, peer),
    ensures
        has_link(peers.push(link), peer),
        has_link(with_hello(peers, other, time), peer),
        has_link(with_ihu(peers, other, cost, time), peer),
        peer != other ==> has_link(without_links(peers, other), peer),
        !has_link(without_links(peers, other), other),
{
    let i = choose|i: int| 0 <= i < peers.len() && (#[trigger] peers[i]).peer == peer;
    assert(peers.push(link)[i].peer == peer);
    assert(with_hello(peers, other, time)[i].peer == peer);
    assert(with_ihu(peers, other, cost, time)[i].peer == peer);
    lemma_without_links(peers, other);
    if peer != other {
        let kept = without_links(peers, other);
        let k = choose|k: int| 0 <= k < kept.len() && kept[k] == peers[i];
        assert(kept[k].peer == peer);
    }
}

/// Where the links to `other` are gone, no link to `other` is left, every
/// link left was there before, and every link to another neighbour is left.
pub proof fn lemma_without_links(peers: Seq<PeerLink>, other: Peer)
    ensures
        !has_link(without_links(peers, other), other),
        forall|k: int|
            0 <= k < without_links(peers, other).len() ==> exists|i: int|
                0 <= i < peers.len() && peers[i] == #[trigger] without_links(peers, other)[k],
        forall|i: int|
            0 <= i < peers.len() && (#[trigger] peers[i]).peer != other ==> exists|k: int|
                0 <= k < without_links(peers, other).len() && without_links(peers, other)[k]
                    == peers[i],
    decreases peers.len(),
{
    if peers.len() > 0 {
        let front = peers.drop_last();
        lemma_without_links(front, other);
        let kept = without_links(peers, other);
        let before = without_links(front, other);
        assert forall|k: int| 0 <= k < kept.len() implies exists|i: int|
            0 <= i < peers.len() && peers[i] == #[trigger] kept[k] by {
            if k < before.len() {
                let i = choose|i: int| 0 <= i < front.len() && front[i] == before[k];
                assert(peers[i] == kept[k]);
            } else {
                assert(peers[peers.len() - 1] == kept[k]);
            }
        }
        assert forall|i: int| 0 <= i < peers.len() && (#[trigger] peers[i]).peer
            != other implies exists|k: int| 0 <= k < kept.len() && kept[k] == peers[i] by {
            if i < front.len() {
                assert(front[i].peer != other);
                let k = choose|k: int| 0 <= k < before.len() && before[k] == front[i];
                assert(kept[k] == peers[i]);
            } else {
                assert(kept[kept.len() - 1] == peers[i]);
            }
        }
        if has_link(kept, other) {
            let k = choose|k: int| 0 <= k < kept.len() && (#[trigger] kept[k]).peer == other;
            if k < before.len() {
                assert(before[k].peer == other);
            }
        }
    }
}

/// What one operation keeps. The routing table stays a proper table. The
/// selection stays in order, unless the operation inserts a route that is marked
/// as selected. The next hops stay known, unless the operation inserts a route
/// through a neighbour without a link. The costs of the links stay positive,
/// unless the operation brings a cost of zero.
pub proof fn lemma_op_keeps(s: RouterState, op: RouterOpLogEntry)
    requires
        s.routes_wf(),
    ensures
        s.apply(op).routes_wf(),
        s.selection_in_order() && RouterState::inserts_unselected(op) ==> s.apply(
            op,
        ).selection_in_order(),
        s.neighbours_known() && s.inserts_known(op) ==> s.apply(op).neighbours_known(),
        s.links_positive() && RouterState::costs_kept(op) ==> s.apply(op).links_positive(),
{
    let after = s.apply(op);
    let known = |peer: Peer| has_link(s.peers, peer);
    let still = |peer: Peer| has_link(after.peers, peer);
    if s.links_positive() && RouterState::costs_kept(op) {
        match op {
            RouterOpLogEntry::RemovePeer(peer) => {
                lemma_without_links(s.peers, peer);
                assert forall|k: int| 0 <= k < after.peers.len() implies (
                #[trigger] after.peers[k]).link_cost >= 1 by {
                    let i = choose|i: int| 0 <= i < s.peers.len() && s.peers[i] == after.peers[k];
                    assert(s.peers[i].link_cost >= 1);
                }
            },
            RouterOpLogEntry::AddPeer(link) => {
                assert forall|k: int| 0 <= k < after.peers.len() implies (
                #[trigger] after.peers[k]).link_cost >= 1 by {
                    if k < s.peers.len() {
                        assert(s.peers[k].link_cost >= 1);
                    }
                }
            },
            RouterOpLogEntry::RecordHello(peer, time) => {
                assert forall|k: int| 0 <= k < after.peers.len() implies (
                #[trigger] after.peers[k]).link_cost >= 1 by {
                    assert(s.peers[k].link_cost >= 1);
                }
            },
            RouterOpLogEntry::RecordIhu(peer, cost, time) => {
                assert forall|k: int| 0 <= k < after.peers.len() implies (
                #[trigger] after.peers[k]).link_cost >= 1 by {
                    assert(s.peers[k].link_cost >= 1);
                }
            },
            _ => {},
        }
    }
    match op {
        RouterOpLogEntry::AddPeer(link) => {
            if s.neighbours_known() {
                assert forall|i: int| 0 <= i < s.routes.len() implies list_neighbours(
                    (#[trigger] s.routes[i]).1,
                    still,
                ) by {
                    assert(list_neighbours(s.routes[i].1, known));
                    assert forall|j: int| 0 <= j < s.routes[i].1.len() implies still(
                        (#[trigger] s.routes[i].1[j]).neighbor,
                    ) by {
                        let q = s.routes[i].1[j].neighbor;
                        assert(known(q));
                        lemma_links_kept(s.peers, q, q, link, 0, 0);
                    }
                }
            }
        },
        RouterOpLogEntry::RecordHello(peer, time) => {
            if s.neighbours_known() {
                assert forall|i: int| 0 <= i < s.routes.len() implies list_neighbours(
                    (#[trigger] s.routes[i]).1,
                    still,
                ) by {
                    assert(list_neighbours(s.routes[i].1, known));
                    assert forall|j: int| 0 <= j < s.routes[i].1.len() implies still(
                        (#[trigger] s.routes[i].1[j]).neighbor,
                    ) by {
                        let q = s.routes[i].1[j].neighbor;
                        assert(known(q));
                        lemma_links_kept(s.peers, q, peer, s.peers[0], 0, time);
                    }
                }
            }
        },
        RouterOpLogEntry::RecordIhu(peer, cost, time) => {
            if s.neighbours_known() {
                assert forall|i: int| 0 <= i < s.routes.len() implies list_neighbours(
                    (#[trigger] s.routes[i]).1,
                    still,
                ) by {
                    assert(list_neighbours(s.routes[i].1, known));
                    assert forall|j: int| 0 <= j < s.routes[i].1.len() implies still(
                        (#[trigger] s.routes[i].1[j]).neighbor,
                    ) by {
                        let q = s.routes[i].1[j].neighbor;
                        assert(known(q));
                        lemma_links_kept(s.peers, q, peer, s.peers[0], cost, time);
                    }
                }
            }
        },
        RouterOpLogEntry::RemovePeer(peer) => {
            lemma_remove_peer(s.routes, peer);
            if s.neighbours_known() {
                lemma_remove_peer_neighbours(s.routes, peer, known);
                let rest = |q: Peer| known(q) && q != peer;
                assert forall|i: int| 0 <= i < after.routes.len() implies list_neighbours(
                    (#[trigger] after.routes[i]).1,
                    still,
                ) by {
                    assert(list_neighbours(after.routes[i].1, rest));
                    assert forall|j: int| 0 <= j < after.routes[i].1.len() implies still(
                        (#[trigger] after.routes[i].1[j]).neighbor,
                    ) by {
                        let q = after.routes[i].1[j].neighbor;
                        assert(rest(q));
                        lemma_links_kept(s.peers, q, peer, s.peers[0], 0, 0);
                    }
                }
            }
        },
        RouterOpLogEntry::InsertRoute(key, entry) => {
            let list = entries_of(s.routes, key.subnet);
            lemma_with_list(s.routes, key.subnet, list_insert(list, key.neighbor, entry), key.subnet);
            if s.selection_in_order() && !entry.selected {
                lemma_selection_kept(s.routes, key, entry, entry.seqno, entry.metric, entry.source.router_id, key.neighbor);
            }
            if s.neighbours_known() && has_link(s.peers, entry.neighbor) {
                lemma_with_list_neighbours(s.routes, key.subnet, Seq::empty(), known);
                lemma_list_neighbours(list, key.neighbor, entry, entry.seqno, entry.metric, entry.source.router_id, known);
                lemma_with_list_neighbours(s.routes, key.subnet, list_insert(list, key.neighbor, entry), known);
            }
        },
        RouterOpLogEntry::RemoveRoute(key) => {
            lemma_route_op(s, key, list_remove(entries_of(s.routes, key.subnet), key.neighbor));
        },
        RouterOpLogEntry::SelectRoute(key) => {
            lemma_route_op(s, key, list_select(entries_of(s.routes, key.subnet), key.neighbor));
        },
        RouterOpLogEntry::UnselectRoute(key) => {
            lemma_route_op(s, key, list_unselect(entries_of(s.routes, key.subnet), key.neighbor));
        },
        RouterOpLogEntry::UpdateRouteEntry(key, seqno, metric, router_id) => {
            let list = entries_of(s.routes, key.subnet);
            lemma_with_list(s.routes, key.subnet, list_refresh(list, key.neighbor, seqno, metric, router_id), key.subnet);
            if s.selection_in_order() {
                lemma_selection_kept(s.routes, key, list[0], seqno, metric, router_id, key.neighbor);
            }
            if s.neighbours_known() {
                lemma_with_list_neighbours(s.routes, key.subnet, Seq::empty(), known);
                lemma_list_neighbours(list, key.neighbor, list[0], seqno, metric, router_id, known);
                lemma_with_list_neighbours(s.routes, key.subnet, list_refresh(list, key.neighbor, seqno, metric, router_id), known);
            }
        },
        _ => {},
    }
}

/// Removing, selecting or unselecting a route keeps the table proper, the
/// selection in order and the next hops known.
proof fn lemma_route_op(s: RouterState, key: RouteKey, list: Seq<RouteEntry>)
    requires
        s.routes_wf(),
        ({
            let old_list = entries_of(s.routes, key.subnet);
            ||| list == list_remove(old_list, key.neighbor)
            ||| list == list_select(old_list, key.neighbor)
            ||| list == list_unselect(old_list, key.neighbor)
        }),
    ensures
        lists_wf(with_list(s.routes, key.subnet, list)),
        s.selection_in_order() ==> selection_ok(with_list(s.routes, key.subnet, list)),
        s.neighbours_known() ==> all_neighbours(
            with_list(s.routes, key.subnet, list),
            |peer: Peer| has_link(s.peers, peer),
        ),
{
    let old_list = entries_of(s.routes, key.subnet);
    let known = |peer: Peer| has_link(s.peers, peer);
    lemma_with_list(s.routes, key.subnet, list, key.subnet);
    if s.selection_in_order() {
        lemma_selection_kept(
            s.routes,
            key,
            old_list[0],
            old_list[0].seqno,
            old_list[0].metric,
            old_list[0].source.router_id,
            key.neighbor,
        );
    }
    if s.neighbours_known() {
        lemma_with_list_neighbours(s.routes, key.subnet, Seq::empty(), known);
        lemma_list_neighbours(
            old_list,
            key.neighbor,
            old_list[0],
            old_list[0].seqno,
            old_list[0].metric,
            old_list[0].source.router_id,
            known,
        );
        lemma_with_list_neighbours(s.routes, key.subnet, list, known);
    }
}

/// Whether no operation of `ops` inserts a route, adds a neighbour or records
/// the cost of a link.
pub open spec fn calm(ops: Seq<RouterOpLogEntry>) -> bool {
    forall|i: int|
        0 <= i < ops.len() ==> !((#[trigger] ops[i]) is InsertRoute) && !(ops[i] is AddPeer)
            && !(ops[i] is RecordIhu)
}

/// Whether every operation of `ops` changes a route that is there, or its mark.
pub open spec fn only_route_changes(ops: Seq<RouterOpLogEntry>) -> bool {
    forall|i: int|
        0 <= i < ops.len() ==> (#[trigger] ops[i]) is UpdateRouteEntry || ops[i] is UnselectRoute
            || ops[i] is SelectRoute
}

/// Changes to routes leave everything but the routing table as it is.
pub proof fn lemma_route_changes(s: RouterState, ops: Seq<RouterOpLogEntry>)
    requires
        only_route_changes(ops),
    ensures
        s.apply_all(ops).sources == s.sources,
        s.apply_all(ops).peers == s.peers,
        s.apply_all(ops).static_routes == s.static_routes,
        calm(ops),
    decreases ops.len(),
{
    if ops.len() > 0 {
        assert forall|i: int| 0 <= i < ops.drop_last().len() implies (
        #[trigger] ops.drop_last()[i]) is UpdateRouteEntry || ops.drop_last()[i] is UnselectRoute
            || ops.drop_last()[i] is SelectRoute by {
            assert(ops.drop_last()[i] == ops[i]);
        }
        lemma_route_changes(s, ops.drop_last());
        assert(ops[ops.len() - 1] == ops.last());
    }
}

/// Once a neighbour is removed, there is no link to it and no route through it.
pub proof fn lemma_removed_peer_gone(s: RouterState, peer: Peer)
    requires
        s.routes_wf(),
    ensures
        s.apply(RouterOpLogEntry::RemovePeer(peer)).peer_gone(peer),
{
    lemma_remove_peer(s.routes, peer);
    lemma_without_links(s.peers, peer);
}

/// A neighbour that is gone stays gone when another neighbour is removed.
pub proof fn lemma_gone_stays(s: RouterState, removed: Peer, peer: Peer)
    requires
        s.routes_wf(),
        s.peer_gone(peer),
    ensures
        s.apply(RouterOpLogEntry::RemovePeer(removed)).peer_gone(peer),
{
    let after = s.apply(RouterOpLogEntry::RemovePeer(removed));
    lemma_without_links(s.peers, removed);
    if has_link(after.peers, peer) {
        let k = choose|k: int| 0 <= k < after.peers.len() && (#[trigger] after.peers[k]).peer == peer;
        let i = choose|i: int| 0 <= i < s.peers.len() && s.peers[i] == after.peers[k];
        assert(s.peers[i].peer == peer);
    }
    let other = |q: Peer| q != peer;
    assert(all_neighbours(s.routes, other)) by {
        assert forall|i: int| 0 <= i < s.routes.len() implies list_neighbours(
            (#[trigger] s.routes[i]).1,
            other,
        ) by {
            assert forall|j: int| 0 <= j < s.routes[i].1.len() implies other(
                (#[trigger] s.routes[i].1[j]).neighbor,
            ) by {}
        }
    }
    lemma_remove_peer_neighbours(s.routes, removed, other);
    let rest = |q: Peer| other(q) && q != removed;
    assert forall|i: int, j: int|
        0 <= i < after.routes.len() && 0 <= j < after.routes[i].1.len() implies (
    #[trigger] after.routes[i].1[j]).neighbor != peer by {
        assert(list_neighbours(after.routes[i].1, rest));
        assert(rest(after.routes[i].1[j].neighbor));
    }
}

} // verus!
