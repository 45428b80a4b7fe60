//! The routing table: for every known prefix, the routes that neighbours have
//! announced, with the selected route kept in front.

use vstd::prelude::*;
use crate::metric::Metric;
use crate::peer::Peer;
use crate::route_laws::{insert_keeps_selection, lemma_remove_peer, lemma_selection_kept};
use crate::route_lists::{
    all_routes, entries_of, fallbacks_of, get_route, has_match, has_neighbour, has_subnet,
    insert_route, is_first_of, is_longest_match, keyed, lemma_inserted_route, lemma_with_list,
    list_insert,
    list_refresh, list_remove, list_select, list_unselect, lists_wf, longest_match,
    matched_entries, neighbour_index, peer_unused, refresh_route, remove_peer_routes,
    remove_route, replace_route, route_of, select_route, selected_of, selection_ok,
    subnet_index, swapped, unselect_route, with_list, without_peer, RouteLists,
};
use crate::router_id::RouterId;
use crate::sequence_number::SeqNo;
use crate::source_table::SourceKey;
use crate::subnet::{lemma_subnet_unique, Subnet};
use crate::timers::{expiration_of, expiration_type, TimerRequest};

verus! {

/// Names one route: a prefix and the neighbour that announced it.
#[derive(Clone, Copy, Debug, PartialEq, Eq, Structural, Hash)]
pub struct RouteKey {
    pub subnet: Subnet,
    pub neighbor: Peer,
}

impl RouteKey {
    /// The key of the route to `subnet` through `neighbor`.
    pub fn new(subnet: Subnet, neighbor: Peer) -> (k: RouteKey)
        ensures
            k == (RouteKey { subnet, neighbor }),
    {
        RouteKey { subnet, neighbor }
    }

    /// The prefix.
    pub fn subnet(&self) -> (s: Subnet)
        ensures
            s == self.subnet,
    {
        self.subnet
    }

    /// The announcing neighbour.
    pub fn neighbour(&self) -> (p: Peer)
        ensures
            p == self.neighbor,
    {
        self.neighbor
    }

    /// What [`Self::lt`] computes.
    pub open spec fn lt_spec(&self, other: &RouteKey) -> bool {
        self.subnet.lt(&other.subnet) || (self.subnet == other.subnet && self.neighbor.overlay_ip
            < other.neighbor.overlay_ip)
    }

    /// The order of keys: by prefix, then by the neighbour's overlay address.
    #[verifier::when_used_as_spec(lt_spec)]
    pub fn lt(&self, other: &RouteKey) -> (r: bool)
        ensures
            r == self.lt_spec(other),
    {
        self.subnet.lt(&other.subnet) || (self.subnet == other.subnet && self.neighbor.overlay_ip
            < other.neighbor.overlay_ip)
    }
}

/// A route as a neighbour announced it.
#[derive(Clone, Copy, Debug, PartialEq, Eq, Structural)]
pub struct RouteEntry {
    pub source: SourceKey,
    pub neighbor: Peer,
    pub metric: Metric,
    pub seqno: SeqNo,
    pub selected: bool,
}

impl RouteEntry {
    /// A route with the given fields.
    pub fn new(source: SourceKey, neighbor: Peer, metric: Metric, seqno: SeqNo, selected: bool) -> (e:
        RouteEntry)
        ensures
            e == (RouteEntry { source, neighbor, metric, seqno, selected }),
    {
        RouteEntry { source, neighbor, metric, seqno, selected }
    }

    /// The source of the route.
    pub fn source(&self) -> (s: SourceKey)
        ensures
            s == self.source,
    {
        self.source
    }

    /// The sequence number of the route.
    pub fn seqno(&self) -> (s: SeqNo)
        ensures
            s == self.seqno,
    {
        self.seqno
    }

    /// The metric of the route.
    pub fn metric(&self) -> (m: Metric)
        ensures
            m == self.metric,
    {
        self.metric
    }

    /// The neighbour that announced the route, which is its next hop.
    pub fn neighbour(&self) -> (p: &Peer)
        ensures
            *p == self.neighbor,
    {
        &self.neighbor
    }

    /// Whether this is the route in use for its prefix.
    pub fn selected(&self) -> (r: bool)
        ensures
            r == self.selected,
    {
        self.selected
    }

    /// Replaces the metric.
    pub fn update_metric(&mut self, metric: Metric)
        ensures
            *final(self) == (RouteEntry { metric, ..*old(self) }),
    {
        self.metric = metric;
    }

    /// Replaces the sequence number.
    pub fn update_seqno(&mut self, seqno: SeqNo)
        ensures
            *final(self) == (RouteEntry { seqno, ..*old(self) }),
    {
        self.seqno = seqno;
    }

    /// Replaces the router that originates the route.
    pub fn update_router_id(&mut self, router_id: RouterId)
        ensures
            *final(self) == (RouteEntry {
                source: SourceKey { router_id, ..old(self).source },
                ..*old(self)
            }),
    {
        self.source.set_router_id(router_id);
    }

    /// Marks the route as selected or not.
    pub fn set_selected(&mut self, selected: bool)
        ensures
            *final(self) == (RouteEntry { selected, ..*old(self) }),
    {
        self.selected = selected;
    }

    /// The route with the sequence number, metric and originating router
    /// replaced.
    pub open spec fn refreshed(self, seqno: SeqNo, metric: Metric, router_id: RouterId) -> RouteEntry {
        RouteEntry { seqno, metric, source: SourceKey { router_id, ..self.source }, ..self }
    }
}

/// The two stages in which a route that is no longer announced leaves the table.
#[derive(Clone, Copy, Debug, PartialEq, Eq, Structural)]
pub enum RouteExpirationType {
    /// The route has not been announced for a while: it is to be retracted.
    Retract,
    /// The retracted route has stayed unannounced: it is to be removed.
    Remove,
}

/// The routes announced for one prefix.
struct Bucket {
    subnet: Subnet,
    entries: Vec<RouteEntry>,
}

/// The routing table. It holds every prefix once, each with at least one route.
pub struct RoutingTable {
    buckets: Vec<Bucket>,
}

impl View for RoutingTable {
    type V = RouteLists;

    closed spec fn view(&self) -> RouteLists {
        Seq::new(
            self.buckets@.len(),
            |i: int| (self.buckets@[i].subnet, self.buckets@[i].entries@),
        )
    }
}

/// The place of the first route of `list` through `peer`.
pub fn find_neighbour(list: &Vec<RouteEntry>, peer: &Peer) -> (r: Option<usize>)
    ensures
        match r {
            Some(i) => is_first_of(list@, *peer, i as int) && has_neighbour(list@, *peer)
                && neighbour_index(list@, *peer) == i,
            None => !has_neighbour(list@, *peer),
        },
{
    let mut i: usize = 0;
    while i < list.len()
        invariant
            i <= list@.len(),
            forall|j: int| 0 <= j < i ==> (#[trigger] list@[j]).neighbor != *peer,
        decreases list@.len() - i,
    {
        if list[i].neighbor == *peer {
            assert(is_first_of(list@, *peer, i as int));
            return Some(i);
        }
        i += 1;
    }
    None
}

/// Exchanges the routes at `i` and `j`.
fn swap_entries(list: &mut Vec<RouteEntry>, i: usize, j: usize)
    requires
        i < old(list)@.len(),
        j < old(list)@.len(),
    ensures
        final(list)@ == swapped(old(list)@, i as int, j as int),
{
    let first = list[i];
    let second = list[j];
    list[i] = second;
    list[j] = first;
}

/// Inserts `entry` for `peer` into `list`: see [`list_insert`].
fn insert_into(list: &mut Vec<RouteEntry>, peer: &Peer, entry: RouteEntry)
    ensures
        final(list)@ == list_insert(old(list)@, *peer, entry),
        final(list)@.len() > 0,
{
    let at: usize = match find_neighbour(list, peer) {
        Some(i) => {
            list[i] = entry;
            i
        },
        None => {
            list.push(entry);
            list.len() - 1
        },
    };
    if entry.selected {
        swap_entries(list, 0, at);
    }
}

/// Removes the first route through `peer` from `list` and returns it.
fn remove_from(list: &mut Vec<RouteEntry>, peer: &Peer) -> (r: Option<RouteEntry>)
    ensures
        final(list)@ == list_remove(old(list)@, *peer),
        r == route_of(old(list)@, *peer),
{
    match find_neighbour(list, peer) {
        Some(i) => Some(list.swap_remove(i)),
        None => None,
    }
}

/// Selects the first route of `list` through `peer`: see [`list_select`].
fn select_in(list: &mut Vec<RouteEntry>, peer: &Peer)
    ensures
        final(list)@ == list_select(old(list)@, *peer),
        final(list)@.len() == old(list)@.len(),
{
    match find_neighbour(list, peer) {
        Some(i) => {
            list[0].selected = false;
            list[i].selected = true;
            swap_entries(list, 0, i);
        },
        None => {},
    }
}

/// Takes the mark of selection from the first route of `list` through `peer`.
fn unselect_in(list: &mut Vec<RouteEntry>, peer: &Peer)
    ensures
        final(list)@ == list_unselect(old(list)@, *peer),
        final(list)@.len() == old(list)@.len(),
{
    match find_neighbour(list, peer) {
        Some(i) => {
            list[i].selected = false;
        },
        None => {},
    }
}

/// Gives the first route of `list` through `peer` new values, and says whether
/// there is such a route.
fn refresh_in(list: &mut Vec<RouteEntry>, peer: &Peer, seqno: SeqNo, metric: Metric, router_id: RouterId) -> (r:
    bool)
    ensures
        final(list)@ == list_refresh(old(list)@, *peer, seqno, metric, router_id),
        final(list)@.len() == old(list)@.len(),
        r == has_neighbour(old(list)@, *peer),
{
    match find_neighbour(list, peer) {
        Some(i) => {
            let mut entry = list[i];
            entry.update_seqno(seqno);
            entry.update_metric(metric);
            entry.update_router_id(router_id);
            list[i] = entry;
            true
        },
        None => false,
    }
}

/// A copy of `list`.
fn copy_list(list: &Vec<RouteEntry>) -> (r: Vec<RouteEntry>)
    ensures
        r@ == list@,
{
    let mut r: Vec<RouteEntry> = Vec::new();
    let mut i: usize = 0;
    while i < list.len()
        invariant
            i <= list@.len(),
            r@ == list@.take(i as int),
        decreases list@.len() - i,
    {
        r.push(list[i]);
        assert(list@.take(i as int).push(list@[i as int]) =~= list@.take(i + 1));
        i += 1;
    }
    assert(list@.take(i as int) =~= list@);
    r
}

/// The routes of `list` that do not go through `peer`, in their order.
fn keep_others(list: &Vec<RouteEntry>, peer: &Peer) -> (r: Vec<RouteEntry>)
    ensures
        r@ == without_peer(list@, *peer),
{
    let mut r: Vec<RouteEntry> = Vec::new();
    let mut i: usize = 0;
    assert(list@.take(0) =~= Seq::<RouteEntry>::empty());
    while i < list.len()
        invariant
            i <= list@.len(),
            r@ == without_peer(list@.take(i as int), *peer),
        decreases list@.len() - i,
    {
        assert(list@.take(i + 1).drop_last() =~= list@.take(i as int));
        if list[i].neighbor != *peer {
            r.push(list[i]);
        }
        i += 1;
    }
    assert(list@.take(i as int) =~= list@);
    r
}

/// The routes of `list` that are not marked as selected, in their order.
pub fn keep_unselected(list: &Vec<RouteEntry>) -> (r: Vec<RouteEntry>)
    ensures
        r@ == fallbacks_of(list@),
{
    let mut r: Vec<RouteEntry> = Vec::new();
    let mut i: usize = 0;
    assert(list@.take(0) =~= Seq::<RouteEntry>::empty());
    while i < list.len()
        invariant
            i <= list@.len(),
            r@ == fallbacks_of(list@.take(i as int)),
        decreases list@.len() - i,
    {
        assert(list@.take(i + 1).drop_last() =~= list@.take(i as int));
        if !list[i].selected {
            r.push(list[i]);
        }
        i += 1;
    }
    assert(list@.take(i as int) =~= list@);
    r
}

impl RoutingTable {
    /// Whether the table is well formed: it holds every prefix once, and each
    /// with at least one route. Every table that this module hands out is.
    pub open spec fn wf(&self) -> bool {
        lists_wf(self@)
    }

    /// An empty table.
    pub fn new() -> (t: RoutingTable)
        ensures
            t.wf(),
            t@ == Seq::<(Subnet, Seq<RouteEntry>)>::empty(),
    {
        let t = RoutingTable { buckets: Vec::new() };
        assert(t@ =~= Seq::<(Subnet, Seq<RouteEntry>)>::empty());
        t
    }

    /// The place of the list of `subnet`.
    fn find_bucket(&self, subnet: &Subnet) -> (r: Option<usize>)
        requires
            self.wf(),
        ensures
            match r {
                Some(i) => i < self.buckets@.len() && self.buckets@[i as int].subnet == *subnet
                    && has_subnet(self@, *subnet) && subnet_index(self@, *subnet) == i,
                None => !has_subnet(self@, *subnet),
            },
    {
        let mut i: usize = 0;
        while i < self.buckets.len()
            invariant
                self.wf(),
                i <= self.buckets@.len(),
                forall|j: int| 0 <= j < i ==> (#[trigger] self@[j]).0 != *subnet,
            decreases self.buckets@.len() - i,
        {
            if self.buckets[i].subnet == *subnet {
                assert(self@[i as int].0 == *subnet);
                return Some(i);
            }
            assert(self@[i as int].0 != *subnet);
            i += 1;
        }
        None
    }

    /// Takes the routes of `subnet` out of the table, leaving its list empty.
    fn take_list(&mut self, subnet: &Subnet) -> (r: (Option<usize>, Vec<RouteEntry>))
        requires
            old(self).wf(),
        ensures
            r.1@ == entries_of(old(self)@, *subnet),
            final(self).holds_all_but(old(self)@, *subnet, r.0),
    {
        match self.find_bucket(subnet) {
            Some(i) => {
                let mut list: Vec<RouteEntry> = Vec::new();
                core::mem::swap(&mut list, &mut self.buckets[i].entries);
                assert forall|j: int| 0 <= j < self.buckets@.len() && j != i implies (
                #[trigger] self@[j]) == old(self)@[j] by {}
                (Some(i), list)
            },
            None => (None, Vec::new()),
        }
    }

    /// Whether the table is `lists` but for the list of `subnet`, which was taken
    /// from the place `at`.
    spec fn holds_all_but(&self, lists: RouteLists, subnet: Subnet, at: Option<usize>) -> bool {
        &&& lists_wf(lists)
        &&& self@.len() == lists.len()
        &&& match at {
            Some(i) => {
                &&& has_subnet(lists, subnet)
                &&& i == subnet_index(lists, subnet)
                &&& i < lists.len()
                &&& self@[i as int].0 == subnet
                &&& forall|j: int|
                    0 <= j < lists.len() && j != i ==> (#[trigger] self@[j]) == lists[j]
            },
            None => !has_subnet(lists, subnet) && self@ == lists,
        }
    }

    /// Puts `list` where the routes of `subnet` were taken from.
    fn put_list(&mut self, at: Option<usize>, subnet: Subnet, list: Vec<RouteEntry>, Ghost(lists): Ghost<
        RouteLists,
    >)
        requires
            old(self).holds_all_but(lists, subnet, at),
        ensures
            final(self).wf(),
            final(self)@ == with_list(lists, subnet, list@),
    {
        match at {
            Some(i) => {
                if list.len() == 0 {
                    self.buckets.remove(i);
                    assert forall|j: int| 0 <= j < self@.len() implies self@[j] == lists.remove(
                        i as int,
                    )[j] by {
                        if j < i {
                            assert(self@[j] == old(self)@[j]);
                        } else {
                            assert(self@[j] == old(self)@[j + 1]);
                        }
                    }
                    assert(self@ =~= lists.remove(i as int));
                } else {
                    self.buckets[i].entries = list;
                    assert forall|j: int| 0 <= j < self@.len() implies self@[j] == lists.update(
                        i as int,
                        (subnet, list@),
                    )[j] by {
                        if j != i {
                            assert(self@[j] == old(self)@[j]);
                        }
                    }
                    assert(self@ =~= lists.update(i as int, (subnet, list@)));
                }
            },
            None => {
                if list.len() > 0 {
                    self.buckets.push(Bucket { subnet, entries: list });
                    assert(self@ =~= lists.push((subnet, list@)));
                }
            },
        }
    }

    /// The routes to `subnet`, in list order; none if the prefix is unknown.
    pub fn entries(&self, subnet: Subnet) -> (r: Vec<RouteEntry>)
        requires
            self.wf(),
        ensures
            r@ == entries_of(self@, subnet),
    {
        match self.find_bucket(&subnet) {
            Some(i) => copy_list(&self.buckets[i].entries),
            None => Vec::new(),
        }
    }

    /// The route that `key` names, if the table holds it.
    pub fn get(&self, key: &RouteKey) -> (r: Option<RouteEntry>)
        requires
            self.wf(),
        ensures
            r == get_route(self@, *key),
    {
        match self.find_bucket(&key.subnet) {
            Some(i) => {
                match find_neighbour(&self.buckets[i].entries, &key.neighbor) {
                    Some(j) => Some(self.buckets[i].entries[j]),
                    None => None,
                }
            },
            None => None,
        }
    }

    /// Inserts `entry` under `key`. It replaces the route that `key` names, or
    /// joins the list of the prefix at the end; a selected entry then moves to
    /// the front of the list. The result is the timer that is to be started for
    /// the route: when it runs out without the route having been announced
    /// again, a route with a finite metric is to be retracted, and a retracted
    /// route removed.
    pub fn insert(&mut self, key: RouteKey, entry: RouteEntry) -> (timer: TimerRequest)
        requires
            old(self).wf(),
        ensures
            final(self).wf(),
            final(self)@ == insert_route(old(self)@, key, entry),
            entries_of(final(self)@, key.subnet) == list_insert(
                entries_of(old(self)@, key.subnet),
                key.neighbor,
                entry,
            ),
            entry.neighbor == key.neighbor ==> get_route(final(self)@, key) == Some(entry),
            forall|other: Subnet|
                other != key.subnet ==> #[trigger] entries_of(final(self)@, other) == entries_of(
                    old(self)@,
                    other,
                ),
            timer == TimerRequest::Route(key, expiration_of(entry.metric)),
            selection_ok(old(self)@) && insert_keeps_selection(
                entries_of(old(self)@, key.subnet),
                key.neighbor,
                entry,
            ) ==> selection_ok(final(self)@),
    {
        proof {
            if selection_ok(self@) {
                lemma_selection_kept(
                    self@,
                    key,
                    entry,
                    entry.seqno,
                    entry.metric,
                    entry.source.router_id,
                    key.neighbor,
                );
            }
        }
        proof {
            let list = list_insert(entries_of(self@, key.subnet), key.neighbor, entry);
            if entry.neighbor == key.neighbor {
                lemma_inserted_route(entries_of(self@, key.subnet), key.neighbor, entry);
            }
            lemma_with_list(self@, key.subnet, list, key.subnet);
            assert forall|other: Subnet| other != key.subnet implies #[trigger] entries_of(
                with_list(self@, key.subnet, list),
                other,
            ) == entries_of(self@, other) by {
                lemma_with_list(self@, key.subnet, list, other);
            }
        }
        let (at, mut list) = self.take_list(&key.subnet);
        insert_into(&mut list, &key.neighbor, entry);
        self.put_list(at, key.subnet, list, Ghost(old(self)@));
        TimerRequest::Route(key, expiration_type(entry.metric))
    }

    /// The timer that is to be started anew for the route that `key` names, if
    /// the table holds it: see [`RoutingTable::insert`].
    pub fn reset_route_timer(&self, key: &RouteKey) -> (timer: Option<TimerRequest>)
        requires
            self.wf(),
        ensures
            timer == match get_route(self@, *key) {
                Some(entry) => Some(TimerRequest::Route(*key, expiration_of(entry.metric))),
                None => None,
            },
    {
        match self.get(key) {
            Some(entry) => Some(TimerRequest::Route(*key, expiration_type(entry.metric))),
            None => None,
        }
    }

    /// Removes the route that `key` names and returns it. A prefix that loses
    /// its last route leaves the table.
    pub fn remove(&mut self, key: &RouteKey) -> (r: Option<RouteEntry>)
        requires
            old(self).wf(),
        ensures
            final(self).wf(),
            final(self)@ == remove_route(old(self)@, *key),
            entries_of(final(self)@, key.subnet) == list_remove(
                entries_of(old(self)@, key.subnet),
                key.neighbor,
            ),
            forall|other: Subnet|
                other != key.subnet ==> #[trigger] entries_of(final(self)@, other) == entries_of(
                    old(self)@,
                    other,
                ),
            selection_ok(old(self)@) ==> selection_ok(final(self)@),
            r == get_route(old(self)@, *key),
    {
        proof {
            if selection_ok(self@) {
                let front = entries_of(self@, key.subnet)[0];
                lemma_selection_kept(
                    self@,
                    *key,
                    front,
                    front.seqno,
                    front.metric,
                    front.source.router_id,
                    key.neighbor,
                );
            }
        }
        proof {
            let list = list_remove(entries_of(self@, key.subnet), key.neighbor);
            lemma_with_list(self@, key.subnet, list, key.subnet);
            assert forall|other: Subnet| other != key.subnet implies #[trigger] entries_of(
                with_list(self@, key.subnet, list),
                other,
            ) == entries_of(self@, other) by {
                lemma_with_list(self@, key.subnet, list, other);
            }
        }
        let (at, mut list) = self.take_list(&key.subnet);
        let removed = remove_from(&mut list, &key.neighbor);
        self.put_list(at, key.subnet, list, Ghost(old(self)@));
        removed
    }

    /// Marks the route that `key` names as the selected route of its prefix and
    /// moves it to the front; the route that stood in front loses the mark.
    pub fn select_route(&mut self, key: &RouteKey)
        requires
            old(self).wf(),
        ensures
            final(self).wf(),
            final(self)@ == select_route(old(self)@, *key),
            entries_of(final(self)@, key.subnet) == list_select(
                entries_of(old(self)@, key.subnet),
                key.neighbor,
            ),
            forall|other: Subnet|
                other != key.subnet ==> #[trigger] entries_of(final(self)@, other) == entries_of(
                    old(self)@,
                    other,
                ),
            selection_ok(old(self)@) ==> selection_ok(final(self)@),
    {
        proof {
            if selection_ok(self@) {
                let front = entries_of(self@, key.subnet)[0];
                lemma_selection_kept(
                    self@,
                    *key,
                    front,
                    front.seqno,
                    front.metric,
                    front.source.router_id,
                    key.neighbor,
                );
            }
        }
        proof {
            let list = list_select(entries_of(self@, key.subnet), key.neighbor);
            lemma_with_list(self@, key.subnet, list, key.subnet);
            assert forall|other: Subnet| other != key.subnet implies #[trigger] entries_of(
                with_list(self@, key.subnet, list),
                other,
            ) == entries_of(self@, other) by {
                lemma_with_list(self@, key.subnet, list, other);
            }
        }
        let (at, mut list) = self.take_list(&key.subnet);
        select_in(&mut list, &key.neighbor);
        self.put_list(at, key.subnet, list, Ghost(old(self)@));
    }

    /// Takes the mark of selection from the route that `key` names.
    pub fn unselect_route(&mut self, key: &RouteKey)
        requires
            old(self).wf(),
        ensures
            final(self).wf(),
            final(self)@ == unselect_route(old(self)@, *key),
            entries_of(final(self)@, key.subnet) == list_unselect(
                entries_of(old(self)@, key.subnet),
                key.neighbor,
            ),
            forall|other: Subnet|
                other != key.subnet ==> #[trigger] entries_of(final(self)@, other) == entries_of(
                    old(self)@,
                    other,
                ),
            selection_ok(old(self)@) ==> selection_ok(final(self)@),
    {
        proof {
            if selection_ok(self@) {
                let front = entries_of(self@, key.subnet)[0];
                lemma_selection_kept(
                    self@,
                    *key,
                    front,
                    front.seqno,
                    front.metric,
                    front.source.router_id,
                    key.neighbor,
                );
            }
        }
        proof {
            let list = list_unselect(entries_of(self@, key.subnet), key.neighbor);
            lemma_with_list(self@, key.subnet, list, key.subnet);
            assert forall|other: Subnet| other != key.subnet implies #[trigger] entries_of(
                with_list(self@, key.subnet, list),
                other,
            ) == entries_of(self@, other) by {
                lemma_with_list(self@, key.subnet, list, other);
            }
        }
        let (at, mut list) = self.take_list(&key.subnet);
        unselect_in(&mut list, &key.neighbor);
        self.put_list(at, key.subnet, list, Ghost(old(self)@));
    }

    /// Gives the route that `key` names a new sequence number, metric and
    /// originating router. Returns whether the table holds such a route.
    pub fn update_route(&mut self, key: &RouteKey, seqno: SeqNo, metric: Metric, router_id: RouterId) -> (r:
        bool)
        requires
            old(self).wf(),
        ensures
            final(self).wf(),
            final(self)@ == refresh_route(old(self)@, *key, seqno, metric, router_id),
            entries_of(final(self)@, key.subnet) == list_refresh(
                entries_of(old(self)@, key.subnet),
                key.neighbor,
                seqno,
                metric,
                router_id,
            ),
            forall|other: Subnet|
                other != key.subnet ==> #[trigger] entries_of(final(self)@, other) == entries_of(
                    old(self)@,
                    other,
                ),
            selection_ok(old(self)@) ==> selection_ok(final(self)@),
            r == get_route(old(self)@, *key).is_some(),
    {
        proof {
            if selection_ok(self@) {
                let front = entries_of(self@, key.subnet)[0];
                lemma_selection_kept(self@, *key, front, seqno, metric, router_id, key.neighbor);
            }
        }
        proof {
            let list = list_refresh(entries_of(self@, key.subnet), key.neighbor, seqno, metric, router_id);
            lemma_with_list(self@, key.subnet, list, key.subnet);
            assert forall|other: Subnet| other != key.subnet implies #[trigger] entries_of(
                with_list(self@, key.subnet, list),
                other,
            ) == entries_of(self@, other) by {
                lemma_with_list(self@, key.subnet, list, other);
            }
        }
        let (at, mut list) = self.take_list(&key.subnet);
        let found = refresh_in(&mut list, &key.neighbor, seqno, metric, router_id);
        self.put_list(at, key.subnet, list, Ghost(old(self)@));
        found
    }

    /// Removes every route through `peer`. A prefix that loses all its routes
    /// leaves the table.
    pub fn remove_peer(&mut self, peer: Peer)
        requires
            old(self).wf(),
        ensures
            final(self).wf(),
            final(self)@ == remove_peer_routes(old(self)@, peer),
            selection_ok(old(self)@) ==> selection_ok(final(self)@),
            peer_unused(final(self)@, peer),
    {
        proof {
            lemma_remove_peer(self@, peer);
        }
        let mut kept: Vec<Bucket> = Vec::new();
        let mut i: usize = 0;
        let ghost lists = self@;
        assert(lists.take(0) =~= Seq::<(Subnet, Seq<RouteEntry>)>::empty());
        while i < self.buckets.len()
            invariant
                self@ == lists,
                lists_wf(lists),
                i <= self.buckets@.len(),
                self.buckets@.len() == lists.len(),
                Self::view_of(kept@) == remove_peer_routes(lists.take(i as int), peer),
                lists_wf(Self::view_of(kept@)),
                forall|k: int|
                    0 <= k < kept@.len() ==> exists|j: int|
                        0 <= j < i && (#[trigger] kept@[k]).subnet == lists[j].0,
            decreases self.buckets@.len() - i,
        {
            assert(lists.take(i + 1).drop_last() =~= lists.take(i as int));
            assert(lists.take(i + 1).last() == lists[i as int]);
            assert(self@[i as int] == lists[i as int]);
            let rest = keep_others(&self.buckets[i].entries, &peer);
            if rest.len() > 0 {
                let ghost before = kept@;
                kept.push(Bucket { subnet: self.buckets[i].subnet, entries: rest });
                assert(Self::view_of(kept@) =~= Self::view_of(before).push(
                    (lists[i as int].0, rest@),
                ));
                assert forall|a: int, b: int| 0 <= a < b < kept@.len() implies (#[trigger] Self::view_of(
                    kept@,
                )[a]).0 != (#[trigger] Self::view_of(kept@)[b]).0 by {
                    if b == kept@.len() - 1 {
                        let j = choose|j: int| 0 <= j < i && kept@[a].subnet == lists[j].0;
                        assert(lists[j].0 != lists[i as int].0);
                    } else {
                        assert(Self::view_of(before)[a].0 != Self::view_of(before)[b].0);
                    }
                }
                assert forall|k: int| 0 <= k < kept@.len() implies exists|j: int|
                    0 <= j < i + 1 && (#[trigger] kept@[k]).subnet == lists[j].0 by {
                    if k == kept@.len() - 1 {
                        assert(kept@[k].subnet == lists[i as int].0);
                    } else {
                        let j = choose|j: int| 0 <= j < i && before[k].subnet == lists[j].0;
                        assert(kept@[k].subnet == lists[j].0);
                    }
                }
            }
            i += 1;
        }
        assert(lists.take(i as int) =~= lists);
        self.buckets = kept;
    }

    /// The contents of `buckets`.
    spec fn view_of(buckets: Seq<Bucket>) -> RouteLists {
        Seq::new(buckets.len(), |i: int| (buckets[i].subnet, buckets[i].entries@))
    }

    /// The place of the list of the longest prefix that holds `ip`.
    fn find_longest_match(&self, ip: u128) -> (r: Option<usize>)
        requires
            self.wf(),
        ensures
            match r {
                Some(i) => i < self.buckets@.len() && is_longest_match(self@, ip, i as int)
                    && has_match(self@, ip) && longest_match(self@, ip) == i,
                None => !has_match(self@, ip),
            },
    {
        let mut best: Option<usize> = None;
        let mut i: usize = 0;
        while i < self.buckets.len()
            invariant
                i <= self.buckets@.len(),
                match best {
                    Some(b) => {
                        &&& b < i
                        &&& self@[b as int].0.contains_ip(ip)
                        &&& forall|j: int|
                            0 <= j < i && (#[trigger] self@[j]).0.contains_ip(ip)
                                ==> self@[j].0.prefix_len() <= self@[b as int].0.prefix_len()
                    },
                    None => forall|j: int| 0 <= j < i ==> !(#[trigger] self@[j]).0.contains_ip(ip),
                },
            decreases self.buckets@.len() - i,
        {
            assert(self@[i as int].0 == self.buckets@[i as int].subnet);
            if self.buckets[i].subnet.contains_ip(ip) {
                let longer: bool = match best {
                    Some(b) => {
                        assert(self@[b as int].0 == self.buckets@[b as int].subnet);
                        self.buckets[b].subnet.prefix_len() < self.buckets[i].subnet.prefix_len()
                    },
                    None => true,
                };
                if longer {
                    best = Some(i);
                }
            }
            i += 1;
        }
        proof {
            if let Some(b) = best {
                assert(is_longest_match(self@, ip, b as int));
                let c = longest_match(self@, ip);
                assert(is_longest_match(self@, ip, c));
                lemma_subnet_unique(self@[b as int].0, self@[c].0, ip);
            }
        }
        best
    }

    /// The route by which traffic to `ip` leaves: the route in front of the list
    /// of the longest prefix that holds `ip`, if that route is marked as selected
    /// and its metric is finite.
    pub fn lookup_selected(&self, ip: u128) -> (r: Option<RouteEntry>)
        requires
            self.wf(),
        ensures
            r == selected_of(matched_entries(self@, ip)),
    {
        match self.find_longest_match(ip) {
            Some(i) => {
                assert(self@[i as int].1 == self.buckets@[i as int].entries@);
                let list = &self.buckets[i].entries;
                if list.len() > 0 && list[0].selected && !list[0].metric.is_infinite() {
                    Some(list[0])
                } else {
                    None
                }
            },
            None => None,
        }
    }

    /// The routes of the longest prefix that holds `ip` which are not marked as
    /// selected, in list order.
    pub fn lookup_fallbacks(&self, ip: u128) -> (r: Vec<RouteEntry>)
        requires
            self.wf(),
        ensures
            r@ == fallbacks_of(matched_entries(self@, ip)),
    {
        match self.find_longest_match(ip) {
            Some(i) => {
                assert(self@[i as int].1 == self.buckets@[i as int].entries@);
                keep_unselected(&self.buckets[i].entries)
            },
            None => {
                let r: Vec<RouteEntry> = Vec::new();
                assert(fallbacks_of(Seq::<RouteEntry>::empty()) == Seq::<RouteEntry>::empty());
                r
            },
        }
    }

    /// Every route with its key: prefix by prefix in table order, each list in
    /// its order.
    pub fn iter(&self) -> (r: Vec<(RouteKey, RouteEntry)>)
        requires
            self.wf(),
        ensures
            r@ == all_routes(self@),
    {
        let mut r: Vec<(RouteKey, RouteEntry)> = Vec::new();
        let mut i: usize = 0;
        assert(self@.take(0) =~= Seq::<(Subnet, Seq<RouteEntry>)>::empty());
        while i < self.buckets.len()
            invariant
                i <= self.buckets@.len(),
                r@ == all_routes(self@.take(i as int)),
            decreases self.buckets@.len() - i,
        {
            let subnet = self.buckets[i].subnet;
            let list = &self.buckets[i].entries;
            let ghost done = r@;
            assert(self@.take(i + 1).drop_last() =~= self@.take(i as int));
            assert(self@.take(i + 1).last() == (subnet, list@));
            let mut j: usize = 0;
            while j < list.len()
                invariant
                    j <= list@.len(),
                    r@ == done + keyed(subnet, list@).take(j as int),
                decreases list@.len() - j,
            {
                r.push((RouteKey::new(subnet, list[j].neighbor), list[j]));
                assert(keyed(subnet, list@).take(j as int).push(keyed(subnet, list@)[j as int])
                    =~= keyed(subnet, list@).take(j + 1));
                assert(r@ =~= done + keyed(subnet, list@).take(j + 1));
                j += 1;
            }
            assert(keyed(subnet, list@).take(j as int) =~= keyed(subnet, list@));
            i += 1;
        }
        assert(self@.take(i as int) =~= self@);
        r
    }

    /// A copy of the table.
    pub fn clone(&self) -> (t: RoutingTable)
        requires
            self.wf(),
        ensures
            t.wf(),
            t@ == self@,
    {
        let mut buckets: Vec<Bucket> = Vec::new();
        let mut i: usize = 0;
        while i < self.buckets.len()
            invariant
                i <= self.buckets@.len(),
                buckets@.len() == i,
                forall|k: int|
                    0 <= k < i ==> (#[trigger] buckets@[k]).subnet == self.buckets@[k].subnet
                        && buckets@[k].entries@ == self.buckets@[k].entries@,
            decreases self.buckets@.len() - i,
        {
            buckets.push(
                Bucket {
                    subnet: self.buckets[i].subnet,
                    entries: copy_list(&self.buckets[i].entries),
                },
            );
            i += 1;
        }
        let t = RoutingTable { buckets };
        assert(t@ =~= self@);
        t
    }

    /// The route that `key` names, to be changed in place.
    pub fn get_mut(&mut self, key: &RouteKey) -> (r: Option<&mut RouteEntry>)
        requires
            old(self).wf(),
        ensures
            final(self).wf(),
            match r {
                Some(entry) => get_route(old(self)@, *key) == Some(*entry) && final(self)@
                    == replace_route(old(self)@, *key, *final(entry)),
                None => get_route(old(self)@, *key) is None && final(self)@ == old(self)@,
            },
    {
        match self.find_bucket(&key.subnet) {
            Some(i) => {
                match find_neighbour(&self.buckets[i].entries, &key.neighbor) {
                    Some(j) => {
                        proof {
                            assert forall|a: int, b: int|
                                0 <= a < b < self.buckets@.len() implies (
                            #[trigger] self.buckets@[a]).subnet != (
                            #[trigger] self.buckets@[b]).subnet by {
                                assert(self@[a].0 != self@[b].0);
                            }
                            assert forall|a: int| 0 <= a < self.buckets@.len() implies (
                            #[trigger] self.buckets@[a]).entries@.len() > 0 by {
                                assert(self@[a].1.len() > 0);
                            }
                        }
                        Some(&mut self.buckets[i].entries[j])
                    },
                    None => None,
                }
            },
            None => None,
        }
    }
}

} // verus!
