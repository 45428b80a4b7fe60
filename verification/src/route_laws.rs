//! What holds of the routing table whatever is done to it.

use vstd::prelude::*;
use crate::metric::Metric;
use crate::peer::Peer;
use crate::route_lists::{
    entries_of, get_route, has_neighbour, has_subnet, insert_route, is_first_of,
    lemma_first_exists, lemma_first_unique, lemma_subnet_at, lemma_with_list, list_insert,
    list_refresh, list_remove, list_select, list_unselect, lists_wf, neighbour_index,
    only_front_selected, peer_unused, refresh_route, remove_peer_routes, remove_route,
    select_route, selection_ok, subnet_index, unselect_route, with_list, without_peer,
    RouteLists,
};
use crate::router_id::RouterId;
use crate::routing_table::{RouteEntry, RouteKey};
use crate::sequence_number::SeqNo;
use crate::subnet::Subnet;

verus! {

/// Whether inserting `entry` for `peer` into `list` keeps the selection in order:
/// the entry is not marked as selected, or no other route of the list is.
pub open spec fn insert_keeps_selection(list: Seq<RouteEntry>, peer: Peer, entry: RouteEntry) -> bool {
    entry.selected ==> (list.len() == 0 || !list[0].selected || (has_neighbour(list, peer)
        && neighbour_index(list, peer) == 0))
}

/// In a table with the selection in order, the list of every prefix has at most
/// its front route selected.
pub proof fn lemma_entries_selection(lists: RouteLists, subnet: Subnet)
    requires
        selection_ok(lists),
    ensures
        only_front_selected(entries_of(lists, subnet)),
{
    if has_subnet(lists, subnet) {
        let i = subnet_index(lists, subnet);
        assert(only_front_selected(lists[i].1));
    }
}

/// Replacing the list of one prefix by a list with the selection in order keeps
/// the selection of the table in order.
pub proof fn lemma_with_list_selection(lists: RouteLists, subnet: Subnet, list: Seq<RouteEntry>)
    requires
        selection_ok(lists),
        only_front_selected(list),
    ensures
        selection_ok(with_list(lists, subnet, list)),
{
    let after = with_list(lists, subnet, list);
    if has_subnet(lists, subnet) {
        let at = subnet_index(lists, subnet);
        assert forall|i: int| 0 <= i < after.len() implies only_front_selected(
            (#[trigger] after[i]).1,
        ) by {
            if list.len() == 0 {
                let a = if i < at {
                    i
                } else {
                    i + 1
                };
                assert(only_front_selected(lists[a].1));
            } else if i != at {
                assert(only_front_selected(lists[i].1));
            }
        }
    } else if list.len() > 0 {
        assert forall|i: int| 0 <= i < after.len() implies only_front_selected(
            (#[trigger] after[i]).1,
        ) by {
            if i < lists.len() {
                assert(only_front_selected(lists[i].1));
            }
        }
    }
}

/// The changes to one list keep its selection in order. Inserting does so for
/// an entry that is not selected, or where no other route is.
pub proof fn lemma_list_selection(
    list: Seq<RouteEntry>,
    peer: Peer,
    entry: RouteEntry,
    seqno: SeqNo,
    metric: Metric,
    router_id: RouterId,
)
    requires
        only_front_selected(list),
    ensures
        insert_keeps_selection(list, peer, entry) ==> only_front_selected(
            list_insert(list, peer, entry),
        ),
        only_front_selected(list_remove(list, peer)),
        only_front_selected(list_select(list, peer)),
        only_front_selected(list_unselect(list, peer)),
        only_front_selected(list_refresh(list, peer, seqno, metric, router_id)),
        only_front_selected(without_peer(list, peer)),
{
    if has_neighbour(list, peer) {
        lemma_first_exists(list, peer);
        let at = neighbour_index(list, peer);
        if insert_keeps_selection(list, peer, entry) {
            let after = list_insert(list, peer, entry);
            assert forall|i: int| 0 < i < after.len() implies !(#[trigger] after[i]).selected by {
                if i != at {
                    assert(!list[i].selected);
                }
            }
        }
        let removed = list_remove(list, peer);
        assert forall|i: int| 0 < i < removed.len() implies !(#[trigger] removed[i]).selected by {
            if i == at {
                assert(!list[list.len() - 1].selected);
            } else {
                assert(!list[i].selected);
            }
        }
        let chosen = list_select(list, peer);
        assert forall|i: int| 0 < i < chosen.len() implies !(#[trigger] chosen[i]).selected by {
            if i != at {
                assert(!list[i].selected);
            }
        }
        let cleared = list_unselect(list, peer);
        assert forall|i: int| 0 < i < cleared.len() implies !(#[trigger] cleared[i]).selected by {
            if i != at {
                assert(!list[i].selected);
            }
        }
        let renewed = list_refresh(list, peer, seqno, metric, router_id);
        assert forall|i: int| 0 < i < renewed.len() implies !(#[trigger] renewed[i]).selected by {
            assert(!list[i].selected);
        }
    } else {
        if insert_keeps_selection(list, peer, entry) {
            let after = list_insert(list, peer, entry);
            assert forall|i: int| 0 < i < after.len() implies !(#[trigger] after[i]).selected by {
                if i < list.len() {
                    assert(!list[i].selected);
                }
            }
        }
    }
    lemma_without_peer_selection(list, peer);
}

/// Taking the routes through a peer out of a list keeps its selection in order.
proof fn lemma_without_peer_selection(list: Seq<RouteEntry>, peer: Peer)
    requires
        only_front_selected(list),
    ensures
        only_front_selected(without_peer(list, peer)),
    decreases list.len(),
{
    if list.len() > 0 {
        let front = list.drop_last();
        assert forall|i: int| 0 < i < front.len() implies !(#[trigger] front[i]).selected by {
            assert(!list[i].selected);
        }
        lemma_without_peer_selection(front, peer);
        let kept = without_peer(list, peer);
        assert forall|i: int| 0 < i < kept.len() implies !(#[trigger] kept[i]).selected by {
            if i < without_peer(front, peer).len() {
            } else {
                assert(!list[list.len() - 1].selected);
            }
        }
    }
}

/// At most one selected route for every prefix, and in front: whatever the
/// table does to its routes keeps it so. Inserting keeps it for an entry that is
/// not selected, or where no other route of the prefix is.
pub proof fn lemma_selection_kept(
    lists: RouteLists,
    key: RouteKey,
    entry: RouteEntry,
    seqno: SeqNo,
    metric: Metric,
    router_id: RouterId,
    peer: Peer,
)
    requires
        lists_wf(lists),
        selection_ok(lists),
    ensures
        insert_keeps_selection(entries_of(lists, key.subnet), key.neighbor, entry)
            ==> selection_ok(insert_route(lists, key, entry)),
        selection_ok(remove_route(lists, key)),
        selection_ok(select_route(lists, key)),
        selection_ok(unselect_route(lists, key)),
        selection_ok(refresh_route(lists, key, seqno, metric, router_id)),
        selection_ok(remove_peer_routes(lists, peer)),
{
    let list = entries_of(lists, key.subnet);
    lemma_entries_selection(lists, key.subnet);
    lemma_list_selection(list, key.neighbor, entry, seqno, metric, router_id);
    if insert_keeps_selection(list, key.neighbor, entry) {
        lemma_with_list_selection(lists, key.subnet, list_insert(list, key.neighbor, entry));
    }
    lemma_with_list_selection(lists, key.subnet, list_remove(list, key.neighbor));
    lemma_with_list_selection(lists, key.subnet, list_select(list, key.neighbor));
    lemma_with_list_selection(lists, key.subnet, list_unselect(list, key.neighbor));
    lemma_with_list_selection(
        lists,
        key.subnet,
        list_refresh(list, key.neighbor, seqno, metric, router_id),
    );
    lemma_remove_peer(lists, peer);
}

/// Once the routes through a peer are removed, the table is still proper, no
/// route goes through the peer, and the selection is in order if it was.
pub proof fn lemma_remove_peer(lists: RouteLists, peer: Peer)
    requires
        lists_wf(lists),
    ensures
        lists_wf(remove_peer_routes(lists, peer)),
        peer_unused(remove_peer_routes(lists, peer), peer),
        selection_ok(lists) ==> selection_ok(remove_peer_routes(lists, peer)),
        forall|i: int|
            0 <= i < remove_peer_routes(lists, peer).len() ==> has_subnet(
                lists,
                (#[trigger] remove_peer_routes(lists, peer)[i]).0,
            ),
    decreases lists.len(),
{
    if lists.len() > 0 {
        let front = lists.drop_last();
        let last = lists.last();
        assert(lists_wf(front)) by {
            assert forall|i: int, j: int| 0 <= i < j < front.len() implies (#[trigger] front[i]).0
                != (#[trigger] front[j]).0 by {
                assert(lists[i].0 != lists[j].0);
            }
            assert forall|i: int| 0 <= i < front.len() implies (#[trigger] front[i]).1.len()
                > 0 by {
                assert(lists[i].1.len() > 0);
            }
        }
        if selection_ok(lists) {
            assert forall|i: int| 0 <= i < front.len() implies only_front_selected(
                (#[trigger] front[i]).1,
            ) by {
                assert(only_front_selected(lists[i].1));
            }
            assert(only_front_selected(lists[lists.len() - 1].1));
            lemma_without_peer_selection(last.1, peer);
        }
        lemma_remove_peer(front, peer);
        lemma_without_peer_clean(last.1, peer);
        let done = remove_peer_routes(front, peer);
        let after = remove_peer_routes(lists, peer);
        assert forall|i: int| 0 <= i < after.len() implies has_subnet(
            lists,
            (#[trigger] after[i]).0,
        ) by {
            if i < done.len() {
                assert(has_subnet(front, done[i].0));
                let j = subnet_index(front, done[i].0);
                assert(lists[j].0 == done[i].0);
            } else {
                assert(lists[lists.len() - 1].0 == last.0);
            }
        }
        assert forall|i: int, j: int| 0 <= i < j < after.len() implies (#[trigger] after[i]).0
            != (#[trigger] after[j]).0 by {
            if j >= done.len() {
                assert(has_subnet(front, done[i].0));
                let k = subnet_index(front, done[i].0);
                assert(lists[k].0 != lists[lists.len() - 1].0);
            }
        }
        assert forall|i: int, j: int| 0 <= i < after.len() && 0 <= j < after[i].1.len() implies (
        #[trigger] after[i].1[j]).neighbor != peer by {
            if i < done.len() {
                assert(done[i].1[j].neighbor != peer);
            }
        }
    }
}

/// No route through `peer` is left in a list without the routes through `peer`.
proof fn lemma_without_peer_clean(list: Seq<RouteEntry>, peer: Peer)
    ensures
        forall|i: int|
            0 <= i < without_peer(list, peer).len() ==> (#[trigger] without_peer(
                list,
                peer,
            )[i]).neighbor != peer,
    decreases list.len(),
{
    if list.len() > 0 {
        lemma_without_peer_clean(list.drop_last(), peer);
        let kept = without_peer(list, peer);
        let front = without_peer(list.drop_last(), peer);
        assert forall|i: int| 0 <= i < kept.len() implies (#[trigger] kept[i]).neighbor
            != peer by {
            if i < front.len() {
                assert(front[i].neighbor != peer);
            }
        }
    }
}

/// Inserting a route under a key that the table does not hold, and then
/// removing that key, gives back the table as it was.
pub proof fn lemma_insert_then_remove(lists: RouteLists, key: RouteKey, entry: RouteEntry)
    requires
        lists_wf(lists),
        get_route(lists, key) is None,
        entry.neighbor == key.neighbor,
    ensures
        remove_route(insert_route(lists, key, entry), key) == lists,
{
    let list = entries_of(lists, key.subnet);
    let grown = list_insert(list, key.neighbor, entry);
    let mid = insert_route(lists, key, entry);
    let n = list.len() as int;
    lemma_with_list(lists, key.subnet, grown, key.subnet);
    assert(!has_neighbour(list, key.neighbor));
    let at = if entry.selected {
        0int
    } else {
        n
    };
    assert(is_first_of(grown, key.neighbor, at)) by {
        assert forall|j: int| 0 <= j < at implies (#[trigger] grown[j]).neighbor
            != key.neighbor by {
            assert(grown[j] == list[j]);
        }
    }
    lemma_first_unique(grown, key.neighbor, at);
    let shrunk = list_remove(grown, key.neighbor);
    assert(shrunk =~= list);
    if has_subnet(lists, key.subnet) {
        let i = subnet_index(lists, key.subnet);
        lemma_subnet_at(lists, i);
        assert(mid[i].0 == key.subnet);
        lemma_subnet_at(mid, i);
        assert(lists[i].1.len() > 0);
        assert(with_list(mid, key.subnet, list) =~= lists);
    } else {
        assert(mid[lists.len() as int].0 == key.subnet);
        lemma_subnet_at(mid, lists.len() as int);
        assert(with_list(mid, key.subnet, list) =~= lists);
    }
}

} // verus!
