//! The mathematical model of the routing table: a sequence of prefixes, each with
//! the list of routes announced for it, and what every table operation does to it.

use vstd::prelude::*;
use crate::metric::Metric;
use crate::peer::Peer;
use crate::router_id::RouterId;
use crate::routing_table::{RouteEntry, RouteKey};
use crate::sequence_number::SeqNo;
use crate::subnet::Subnet;

verus! {

/// The contents of a routing table: its prefixes in table order, each with its
/// routes in list order.
pub type RouteLists = Seq<(Subnet, Seq<RouteEntry>)>;

/// Whether some route of `list` goes through `peer`.
pub open spec fn has_neighbour(list: Seq<RouteEntry>, peer: Peer) -> bool {
    exists|i: int| 0 <= i < list.len() && (#[trigger] list[i]).neighbor == peer
}

/// Whether `i` is the place of the first route of `list` through `peer`.
pub open spec fn is_first_of(list: Seq<RouteEntry>, peer: Peer, i: int) -> bool {
    &&& 0 <= i < list.len()
    &&& list[i].neighbor == peer
    &&& forall|j: int| 0 <= j < i ==> (#[trigger] list[j]).neighbor != peer
}

/// The place of the first route of `list` through `peer`, where there is one.
pub open spec fn neighbour_index(list: Seq<RouteEntry>, peer: Peer) -> int {
    choose|i: int| is_first_of(list, peer, i)
}

/// The first route of `list` through `peer`.
pub open spec fn route_of(list: Seq<RouteEntry>, peer: Peer) -> Option<RouteEntry> {
    if has_neighbour(list, peer) {
        Some(list[neighbour_index(list, peer)])
    } else {
        None
    }
}

/// `list` with the routes at `i` and `j` exchanged.
pub open spec fn swapped(list: Seq<RouteEntry>, i: int, j: int) -> Seq<RouteEntry> {
    list.update(i, list[j]).update(j, list[i])
}

/// `list` after `entry` was inserted for `peer`: it takes the place of the first
/// route through `peer`, or goes to the end if there is none; a selected entry
/// then changes places with the route in front.
pub open spec fn list_insert(list: Seq<RouteEntry>, peer: Peer, entry: RouteEntry) -> Seq<
    RouteEntry,
> {
    if has_neighbour(list, peer) {
        let at = neighbour_index(list, peer);
        if entry.selected {
            swapped(list.update(at, entry), 0, at)
        } else {
            list.update(at, entry)
        }
    } else {
        if entry.selected {
            swapped(list.push(entry), 0, list.len() as int)
        } else {
            list.push(entry)
        }
    }
}

/// `list` without the route at `i`: the last route takes its place.
pub open spec fn swap_removed(list: Seq<RouteEntry>, i: int) -> Seq<RouteEntry> {
    list.update(i, list.last()).drop_last()
}

/// `list` after the first route through `peer` was removed.
pub open spec fn list_remove(list: Seq<RouteEntry>, peer: Peer) -> Seq<RouteEntry> {
    if has_neighbour(list, peer) {
        swap_removed(list, neighbour_index(list, peer))
    } else {
        list
    }
}

/// `list` without the routes through `peer`, the others in their order.
pub open spec fn without_peer(list: Seq<RouteEntry>, peer: Peer) -> Seq<RouteEntry>
    decreases list.len(),
{
    if list.len() == 0 {
        list
    } else if list.last().neighbor == peer {
        without_peer(list.drop_last(), peer)
    } else {
        without_peer(list.drop_last(), peer).push(list.last())
    }
}

/// `list` after the first route through `peer` was selected: the route in front
/// loses its mark, the route through `peer` gets it and moves to the front.
pub open spec fn list_select(list: Seq<RouteEntry>, peer: Peer) -> Seq<RouteEntry> {
    if has_neighbour(list, peer) {
        let at = neighbour_index(list, peer);
        let cleared = list.update(0, RouteEntry { selected: false, ..list[0] });
        let marked = cleared.update(at, RouteEntry { selected: true, ..cleared[at] });
        swapped(marked, 0, at)
    } else {
        list
    }
}

/// `list` after the first route through `peer` lost its mark.
pub open spec fn list_unselect(list: Seq<RouteEntry>, peer: Peer) -> Seq<RouteEntry> {
    if has_neighbour(list, peer) {
        let at = neighbour_index(list, peer);
        list.update(at, RouteEntry { selected: false, ..list[at] })
    } else {
        list
    }
}

/// `list` after the first route through `peer` got a new sequence number,
/// metric and originating router.
pub open spec fn list_refresh(
    list: Seq<RouteEntry>,
    peer: Peer,
    seqno: SeqNo,
    metric: Metric,
    router_id: RouterId,
) -> Seq<RouteEntry> {
    if has_neighbour(list, peer) {
        let at = neighbour_index(list, peer);
        list.update(at, list[at].refreshed(seqno, metric, router_id))
    } else {
        list
    }
}

/// The selected route of `list` that can carry traffic: the route in front, if it
/// is marked and its metric is finite.
pub open spec fn selected_of(list: Seq<RouteEntry>) -> Option<RouteEntry> {
    if list.len() > 0 && list[0].selected && !list[0].metric.is_infinite() {
        Some(list[0])
    } else {
        None
    }
}

/// The routes of `list` that are not marked as selected, in their order.
pub open spec fn fallbacks_of(list: Seq<RouteEntry>) -> Seq<RouteEntry>
    decreases list.len(),
{
    if list.len() == 0 {
        list
    } else if list.last().selected {
        fallbacks_of(list.drop_last())
    } else {
        fallbacks_of(list.drop_last()).push(list.last())
    }
}

/// Whether at most the route in front of `list` is marked as selected.
pub open spec fn only_front_selected(list: Seq<RouteEntry>) -> bool {
    forall|i: int| 0 < i < list.len() ==> !(#[trigger] list[i]).selected
}

/// Whether `lists` holds the prefix `subnet`.
pub open spec fn has_subnet(lists: RouteLists, subnet: Subnet) -> bool {
    exists|i: int| 0 <= i < lists.len() && (#[trigger] lists[i]).0 == subnet
}

/// The place of `subnet` in `lists`, where it is there.
pub open spec fn subnet_index(lists: RouteLists, subnet: Subnet) -> int {
    choose|i: int| 0 <= i < lists.len() && (#[trigger] lists[i]).0 == subnet
}

/// The routes to `subnet`; none if the prefix is not there.
pub open spec fn entries_of(lists: RouteLists, subnet: Subnet) -> Seq<RouteEntry> {
    if has_subnet(lists, subnet) {
        lists[subnet_index(lists, subnet)].1
    } else {
        Seq::empty()
    }
}

/// The route that `key` names.
pub open spec fn get_route(lists: RouteLists, key: RouteKey) -> Option<RouteEntry> {
    route_of(entries_of(lists, key.subnet), key.neighbor)
}

/// Whether `lists` is a proper table: every prefix stands once, with at least
/// one route.
pub open spec fn lists_wf(lists: RouteLists) -> bool {
    &&& forall|i: int, j: int|
        0 <= i < j < lists.len() ==> (#[trigger] lists[i]).0 != (#[trigger] lists[j]).0
    &&& forall|i: int| 0 <= i < lists.len() ==> (#[trigger] lists[i]).1.len() > 0
}

/// Whether in every list at most the route in front is marked as selected: every
/// prefix has at most one selected route, and it stands first.
pub open spec fn selection_ok(lists: RouteLists) -> bool {
    forall|i: int| 0 <= i < lists.len() ==> only_front_selected((#[trigger] lists[i]).1)
}

/// `lists` with the list of `subnet` replaced by what `list` says, and the
/// prefix dropped if that is empty.
pub open spec fn with_list(lists: RouteLists, subnet: Subnet, list: Seq<RouteEntry>) -> RouteLists {
    if has_subnet(lists, subnet) {
        let at = subnet_index(lists, subnet);
        if list.len() == 0 {
            lists.remove(at)
        } else {
            lists.update(at, (subnet, list))
        }
    } else if list.len() == 0 {
        lists
    } else {
        lists.push((subnet, list))
    }
}

/// The table after `entry` was inserted under `key`.
pub open spec fn insert_route(lists: RouteLists, key: RouteKey, entry: RouteEntry) -> RouteLists {
    with_list(lists, key.subnet, list_insert(entries_of(lists, key.subnet), key.neighbor, entry))
}

/// The table after the route of `key` was removed.
pub open spec fn remove_route(lists: RouteLists, key: RouteKey) -> RouteLists {
    with_list(lists, key.subnet, list_remove(entries_of(lists, key.subnet), key.neighbor))
}

/// The table after the route of `key` was selected.
pub open spec fn select_route(lists: RouteLists, key: RouteKey) -> RouteLists {
    with_list(lists, key.subnet, list_select(entries_of(lists, key.subnet), key.neighbor))
}

/// The table after the route of `key` lost its mark.
pub open spec fn unselect_route(lists: RouteLists, key: RouteKey) -> RouteLists {
    with_list(lists, key.subnet, list_unselect(entries_of(lists, key.subnet), key.neighbor))
}

/// The table after the route of `key` got a new sequence number, metric and
/// originating router.
pub open spec fn refresh_route(
    lists: RouteLists,
    key: RouteKey,
    seqno: SeqNo,
    metric: Metric,
    router_id: RouterId,
) -> RouteLists {
    with_list(
        lists,
        key.subnet,
        list_refresh(entries_of(lists, key.subnet), key.neighbor, seqno, metric, router_id),
    )
}

/// The table after the route of `key` was replaced by `entry`.
pub open spec fn replace_route(lists: RouteLists, key: RouteKey, entry: RouteEntry) -> RouteLists {
    let list = entries_of(lists, key.subnet);
    if has_neighbour(list, key.neighbor) {
        with_list(lists, key.subnet, list.update(neighbour_index(list, key.neighbor), entry))
    } else {
        lists
    }
}

/// The table without the routes through `peer`; a prefix that loses all its
/// routes leaves the table.
pub open spec fn remove_peer_routes(lists: RouteLists, peer: Peer) -> RouteLists
    decreases lists.len(),
{
    if lists.len() == 0 {
        lists
    } else {
        let kept = without_peer(lists.last().1, peer);
        if kept.len() == 0 {
            remove_peer_routes(lists.drop_last(), peer)
        } else {
            remove_peer_routes(lists.drop_last(), peer).push((lists.last().0, kept))
        }
    }
}

/// The routes of `list` with their keys under the prefix `subnet`.
pub open spec fn keyed(subnet: Subnet, list: Seq<RouteEntry>) -> Seq<(RouteKey, RouteEntry)> {
    Seq::new(list.len(), |i: int| (RouteKey { subnet, neighbor: list[i].neighbor }, list[i]))
}

/// All routes with their keys: prefix by prefix in table order, each list in
/// its order.
pub open spec fn all_routes(lists: RouteLists) -> Seq<(RouteKey, RouteEntry)>
    decreases lists.len(),
{
    if lists.len() == 0 {
        Seq::empty()
    } else {
        all_routes(lists.drop_last()) + keyed(lists.last().0, lists.last().1)
    }
}

/// The routes of `routes` whose mark of selection is `selected`, in their order.
pub open spec fn marked_routes(routes: Seq<(RouteKey, RouteEntry)>, selected: bool) -> Seq<
    (RouteKey, RouteEntry),
>
    decreases routes.len(),
{
    if routes.len() == 0 {
        routes
    } else if routes.last().1.selected == selected {
        marked_routes(routes.drop_last(), selected).push(routes.last())
    } else {
        marked_routes(routes.drop_last(), selected)
    }
}

/// Whether some prefix of `lists` holds the address `ip`.
pub open spec fn has_match(lists: RouteLists, ip: u128) -> bool {
    exists|i: int| 0 <= i < lists.len() && (#[trigger] lists[i]).0.contains_ip(ip)
}

/// Whether the prefix at `i` holds `ip` and no prefix that holds `ip` is longer.
pub open spec fn is_longest_match(lists: RouteLists, ip: u128, i: int) -> bool {
    &&& 0 <= i < lists.len()
    &&& lists[i].0.contains_ip(ip)
    &&& forall|j: int|
        0 <= j < lists.len() && (#[trigger] lists[j]).0.contains_ip(ip) ==> lists[j].0.prefix_len()
            <= lists[i].0.prefix_len()
}

/// The place of the longest prefix that holds `ip`, where there is one.
pub open spec fn longest_match(lists: RouteLists, ip: u128) -> int {
    choose|i: int| is_longest_match(lists, ip, i)
}

/// The routes of the longest prefix that holds `ip`; none if no prefix does.
pub open spec fn matched_entries(lists: RouteLists, ip: u128) -> Seq<RouteEntry> {
    if has_match(lists, ip) {
        lists[longest_match(lists, ip)].1
    } else {
        Seq::empty()
    }
}

/// Whether no route of `lists` goes through `peer`.
pub open spec fn peer_unused(lists: RouteLists, peer: Peer) -> bool {
    forall|i: int, j: int|
        0 <= i < lists.len() && 0 <= j < lists[i].1.len() ==> (#[trigger] lists[i].1[j]).neighbor
            != peer
}

/// Where some route of `list` goes through `peer`, there is a first one, and
/// [`neighbour_index`] is its place.
pub proof fn lemma_first_exists(list: Seq<RouteEntry>, peer: Peer)
    requires
        has_neighbour(list, peer),
    ensures
        is_first_of(list, peer, neighbour_index(list, peer)),
{
    let k = choose|i: int| 0 <= i < list.len() && (#[trigger] list[i]).neighbor == peer;
    lemma_first_below(list, peer, k);
}

/// Where the route at `k` goes through `peer`, some route at or before `k` is
/// the first through `peer`.
proof fn lemma_first_below(list: Seq<RouteEntry>, peer: Peer, k: int)
    requires
        0 <= k < list.len(),
        list[k].neighbor == peer,
    ensures
        exists|i: int| is_first_of(list, peer, i),
    decreases k,
{
    if exists|j: int| 0 <= j < k && (#[trigger] list[j]).neighbor == peer {
        let j = choose|j: int| 0 <= j < k && (#[trigger] list[j]).neighbor == peer;
        lemma_first_below(list, peer, j);
    } else {
        assert(is_first_of(list, peer, k));
    }
}

/// The first route through `peer` stands at `i` and nowhere else.
pub proof fn lemma_first_unique(list: Seq<RouteEntry>, peer: Peer, i: int)
    requires
        is_first_of(list, peer, i),
    ensures
        has_neighbour(list, peer),
        neighbour_index(list, peer) == i,
{
    let c = neighbour_index(list, peer);
    assert(is_first_of(list, peer, c));
    if c < i {
        assert(list[c].neighbor != peer);
    }
    if i < c {
        assert(list[i].neighbor != peer);
    }
}

/// In a proper table the list of a prefix stands at one place only.
pub proof fn lemma_subnet_at(lists: RouteLists, i: int)
    requires
        lists_wf(lists),
        0 <= i < lists.len(),
    ensures
        has_subnet(lists, lists[i].0),
        subnet_index(lists, lists[i].0) == i,
        entries_of(lists, lists[i].0) == lists[i].1,
{
    let c = subnet_index(lists, lists[i].0);
    assert(lists[c].0 == lists[i].0);
    if c < i {
        assert(lists[c].0 != lists[i].0);
    }
    if i < c {
        assert(lists[i].0 != lists[c].0);
    }
}

/// What [`with_list`] yields is a proper table in which `subnet` has the routes
/// `list` and every other prefix the routes that it had.
#[verifier::rlimit(50)]
pub proof fn lemma_with_list(lists: RouteLists, subnet: Subnet, list: Seq<RouteEntry>, other: Subnet)
    requires
        lists_wf(lists),
    ensures
        lists_wf(with_list(lists, subnet, list)),
        entries_of(with_list(lists, subnet, list), subnet) == list,
        other != subnet ==> entries_of(with_list(lists, subnet, list), other) == entries_of(
            lists,
            other,
        ),
{
    let after = with_list(lists, subnet, list);
    if has_subnet(lists, subnet) {
        let at = subnet_index(lists, subnet);
        lemma_subnet_at(lists, at);
        if list.len() == 0 {
            assert forall|i: int| 0 <= i < after.len() implies (#[trigger] after[i]) == lists[if i
                < at {
                i
            } else {
                i + 1
            }] by {}
            assert(lists_wf(after)) by {
                assert forall|i: int, j: int| 0 <= i < j < after.len() implies (#[trigger] after[i]).0
                    != (#[trigger] after[j]).0 by {
                    let a = if i < at {
                        i
                    } else {
                        i + 1
                    };
                    let b = if j < at {
                        j
                    } else {
                        j + 1
                    };
                    assert(lists[a].0 != lists[b].0);
                }
                assert forall|i: int| 0 <= i < after.len() implies (#[trigger] after[i]).1.len()
                    > 0 by {
                    let a = if i < at {
                        i
                    } else {
                        i + 1
                    };
                    assert(lists[a].1.len() > 0);
                }
            }
            if has_subnet(after, subnet) {
                let c = subnet_index(after, subnet);
                let a = if c < at {
                    c
                } else {
                    c + 1
                };
                assert(lists[a].0 == subnet);
                lemma_subnet_at(lists, a);
            }
            assert(entries_of(after, subnet) =~= list);
            if other != subnet {
                if has_subnet(lists, other) {
                    let o = subnet_index(lists, other);
                    lemma_subnet_at(lists, o);
                    let b = if o < at {
                        o
                    } else {
                        o - 1
                    };
                    assert(after[b] == lists[o]);
                    lemma_subnet_at(after, b);
                } else if has_subnet(after, other) {
                    let c = subnet_index(after, other);
                    let a = if c < at {
                        c
                    } else {
                        c + 1
                    };
                    assert(lists[a].0 == other);
                }
            }
        } else {
            assert(lists_wf(after)) by {
                assert forall|i: int, j: int| 0 <= i < j < after.len() implies (#[trigger] after[i]).0
                    != (#[trigger] after[j]).0 by {
                    assert(lists[i].0 != lists[j].0);
                }
                assert forall|i: int| 0 <= i < after.len() implies (#[trigger] after[i]).1.len()
                    > 0 by {
                    if i != at {
                        assert(lists[i].1.len() > 0);
                    }
                }
            }
            assert(after[at].0 == subnet);
            lemma_subnet_at(after, at);
            if other != subnet {
                if has_subnet(lists, other) {
                    let o = subnet_index(lists, other);
                    lemma_subnet_at(lists, o);
                    assert(after[o] == lists[o]);
                    lemma_subnet_at(after, o);
                } else if has_subnet(after, other) {
                    let c = subnet_index(after, other);
                    assert(lists[c].0 == other);
                }
            }
        }
    } else if list.len() == 0 {
        assert(entries_of(after, subnet) =~= list);
    } else {
        let n = lists.len() as int;
        assert(lists_wf(after)) by {
            assert forall|i: int, j: int| 0 <= i < j < after.len() implies (#[trigger] after[i]).0
                != (#[trigger] after[j]).0 by {
                if j < n {
                    assert(lists[i].0 != lists[j].0);
                } else {
                    assert(lists[i].0 != subnet);
                }
            }
            assert forall|i: int| 0 <= i < after.len() implies (#[trigger] after[i]).1.len()
                > 0 by {
                if i < n {
                    assert(lists[i].1.len() > 0);
                }
            }
        }
        assert(after[n].0 == subnet);
        lemma_subnet_at(after, n);
        if other != subnet {
            if has_subnet(lists, other) {
                let o = subnet_index(lists, other);
                lemma_subnet_at(lists, o);
                assert(after[o] == lists[o]);
                lemma_subnet_at(after, o);
            } else if has_subnet(after, other) {
                let c = subnet_index(after, other);
                assert(lists[c].0 == other);
            }
        }
    }
}

/// A route that is given new values is there afterwards, with those values;
/// and where there was none, there is none.
pub proof fn lemma_refreshed_route(
    lists: RouteLists,
    key: RouteKey,
    seqno: SeqNo,
    metric: Metric,
    router_id: RouterId,
)
    requires
        lists_wf(lists),
    ensures
        get_route(refresh_route(lists, key, seqno, metric, router_id), key) == match get_route(
            lists,
            key,
        ) {
            Some(entry) => Some(entry.refreshed(seqno, metric, router_id)),
            None => None,
        },
{
    let list = entries_of(lists, key.subnet);
    let renewed = list_refresh(list, key.neighbor, seqno, metric, router_id);
    lemma_with_list(lists, key.subnet, renewed, key.subnet);
    if has_neighbour(list, key.neighbor) {
        lemma_first_exists(list, key.neighbor);
        let at = neighbour_index(list, key.neighbor);
        assert(is_first_of(renewed, key.neighbor, at)) by {
            assert forall|j: int| 0 <= j < at implies (#[trigger] renewed[j]).neighbor
                != key.neighbor by {
                assert(list[j].neighbor != key.neighbor);
            }
        }
        lemma_first_unique(renewed, key.neighbor, at);
    } else {
        assert(renewed == list);
    }
}

/// A route that is inserted for its own next hop is then the route of that
/// next hop.
pub proof fn lemma_inserted_route(list: Seq<RouteEntry>, peer: Peer, entry: RouteEntry)
    requires
        entry.neighbor == peer,
    ensures
        route_of(list_insert(list, peer, entry), peer) == Some(entry),
{
    let after = list_insert(list, peer, entry);
    let at = if entry.selected {
        0int
    } else if has_neighbour(list, peer) {
        neighbour_index(list, peer)
    } else {
        list.len() as int
    };
    if has_neighbour(list, peer) {
        lemma_first_exists(list, peer);
    }
    assert(is_first_of(after, peer, at)) by {
        assert forall|j: int| 0 <= j < at implies (#[trigger] after[j]).neighbor != peer by {
            assert(list[j].neighbor != peer);
        }
    }
    lemma_first_unique(after, peer, at);
}

} // verus!
