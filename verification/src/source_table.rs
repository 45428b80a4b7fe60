//! The source table: for every source of routes, the best distance that this
//! node has advertised. It decides which announcements are safe to accept.

use vstd::prelude::*;
use crate::babel::Update;
use crate::metric::Metric;
use crate::router_id::RouterId;
use crate::routing_table::RouteEntry;
use crate::sequence_number::SeqNo;
use crate::subnet::Subnet;
use crate::timers::TimerRequest;

verus! {

/// A source of routes: a prefix and the router that originates it.
#[derive(Clone, Copy, Debug, PartialEq, Eq, Structural, Hash)]
pub struct SourceKey {
    pub subnet: Subnet,
    pub router_id: RouterId,
}

impl SourceKey {
    /// The source `router_id` of routes to `subnet`.
    pub fn new(subnet: Subnet, router_id: RouterId) -> (k: SourceKey)
        ensures
            k == (SourceKey { subnet, router_id }),
    {
        SourceKey { subnet, router_id }
    }

    /// The prefix.
    pub fn subnet(&self) -> (s: Subnet)
        ensures
            s == self.subnet,
    {
        self.subnet
    }

    /// The originating router.
    pub fn router_id(&self) -> (r: RouterId)
        ensures
            r == self.router_id,
    {
        self.router_id
    }

    /// Replaces the originating router.
    pub fn set_router_id(&mut self, router_id: RouterId)
        ensures
            *final(self) == (SourceKey { router_id, ..*old(self) }),
    {
        self.router_id = router_id;
    }
}

/// A feasibility distance: a metric together with the sequence number it was
/// advertised under.
#[derive(Clone, Copy, Debug, PartialEq, Eq, Structural)]
pub struct FeasibilityDistance {
    pub metric: Metric,
    pub seqno: SeqNo,
}

impl FeasibilityDistance {
    /// The distance `metric` at sequence number `seqno`.
    pub fn new(metric: Metric, seqno: SeqNo) -> (d: FeasibilityDistance)
        ensures
            d == (FeasibilityDistance { metric, seqno }),
    {
        FeasibilityDistance { metric, seqno }
    }

    /// The metric.
    pub fn metric(&self) -> (m: Metric)
        ensures
            m == self.metric,
    {
        self.metric
    }

    /// The sequence number.
    pub fn seqno(&self) -> (s: SeqNo)
        ensures
            s == self.seqno,
    {
        self.seqno
    }

    /// What [`Self::improved_by`] computes.
    pub open spec fn improved_by_spec(&self, metric: Metric, seqno: SeqNo) -> bool {
        seqno.gt(&self.seqno) || (seqno == self.seqno && metric.less_than(&self.metric))
    }

    /// Whether the pair `(metric, seqno)` is strictly better than this distance:
    /// its sequence number is newer, or the same with a smaller metric.
    #[verifier::when_used_as_spec(improved_by_spec)]
    pub fn improved_by(&self, metric: Metric, seqno: SeqNo) -> (r: bool)
        ensures
            r == self.improved_by_spec(metric, seqno),
    {
        seqno.gt(&self.seqno) || (seqno == self.seqno && metric.less_than(&self.metric))
    }
}

/// Whether an announcement of `(metric, seqno)` for the source `key` is feasible
/// against the distances `sources`: it is a retraction, or nothing is recorded
/// for the source, or it is strictly better than what is recorded.
pub open spec fn feasible(
    sources: Map<SourceKey, FeasibilityDistance>,
    key: SourceKey,
    metric: Metric,
    seqno: SeqNo,
) -> bool {
    metric.is_infinite() || !sources.contains_key(key) || sources[key].improved_by(metric, seqno)
}

/// The table of feasibility distances, one for each known source.
pub struct SourceTable {
    entries: Vec<(SourceKey, FeasibilityDistance)>,
}

impl View for SourceTable {
    type V = Map<SourceKey, FeasibilityDistance>;

    closed spec fn view(&self) -> Map<SourceKey, FeasibilityDistance> {
        Map::new(
            |k: SourceKey| exists|i: int| 0 <= i < self.entries@.len() && self.entries@[i].0 == k,
            |k: SourceKey| self.entries@[self.position(k)].1,
        )
    }
}

impl SourceTable {
    /// Whether the table is well formed: it holds every source once. Every
    /// table that this module hands out is.
    pub closed spec fn wf(&self) -> bool {
        forall|i: int, j: int|
            0 <= i < j < self.entries@.len() ==> self.entries@[i].0 != self.entries@[j].0
    }

    /// The place of `key` among the entries, where it is there.
    spec fn position(&self, key: SourceKey) -> int {
        choose|i: int| 0 <= i < self.entries@.len() && self.entries@[i].0 == key
    }

    /// An empty table.
    pub fn new() -> (t: SourceTable)
        ensures
            t.wf(),
            t@ == Map::<SourceKey, FeasibilityDistance>::empty(),
    {
        let t = SourceTable { entries: Vec::new() };
        assert(t@ =~= Map::<SourceKey, FeasibilityDistance>::empty());
        t
    }

    /// The place of `key` among the entries.
    fn find(&self, key: &SourceKey) -> (r: Option<usize>)
        requires
            self.wf(),
        ensures
            match r {
                Some(i) => i < self.entries@.len() && self.entries@[i as int].0 == *key
                    && self@.contains_key(*key) && self@[*key] == self.entries@[i as int].1,
                None => !self@.contains_key(*key),
            },
    {
        let mut i: usize = 0;
        while i < self.entries.len()
            invariant
                self.wf(),
                i <= self.entries@.len(),
                forall|j: int| 0 <= j < i ==> self.entries@[j].0 != *key,
            decreases self.entries@.len() - i,
        {
            if self.entries[i].0 == *key {
                assert(self.position(*key) == i);
                return Some(i);
            }
            i += 1;
        }
        None
    }

    /// The distance recorded for `key`, if there is one.
    pub fn get(&self, key: &SourceKey) -> (r: Option<FeasibilityDistance>)
        requires
            self.wf(),
        ensures
            r == (if self@.contains_key(*key) {
                Some(self@[*key])
            } else {
                None
            }),
    {
        match self.find(key) {
            Some(i) => Some(self.entries[i].1),
            None => None,
        }
    }

    /// Records `distance` for `key`, in place of what was recorded before. The
    /// result is the timer that is to be started: when it runs out without the
    /// source having been recorded again, the source is to be removed.
    pub fn insert(&mut self, key: SourceKey, distance: FeasibilityDistance) -> (timer: TimerRequest)
        requires
            old(self).wf(),
        ensures
            final(self).wf(),
            final(self)@ == old(self)@.insert(key, distance),
            timer == TimerRequest::Source(key),
    {
        let ghost before = *self;
        match self.find(&key) {
            Some(i) => {
                self.entries.set(i, (key, distance));
                proof {
                    assert forall|k: SourceKey| self@.contains_key(k) == before@.insert(
                        key,
                        distance,
                    ).contains_key(k) by {
                        if before@.contains_key(k) {
                            let j = before.position(k);
                            assert(self.entries@[j].0 == k);
                        }
                        if self@.contains_key(k) {
                            let j = self.position(k);
                            assert(before.entries@[j].0 == k);
                        }
                    }
                    assert forall|k: SourceKey| self@.contains_key(k) implies self@[k]
                        == before@.insert(key, distance)[k] by {
                        let j = self.position(k);
                        assert(before.entries@[j].0 == k);
                        if k != key {
                            assert(before.position(k) == j);
                        }
                    }
                    assert(self@ =~= before@.insert(key, distance));
                }
            },
            None => {
                self.entries.push((key, distance));
                proof {
                    let n = before.entries@.len() as int;
                    assert(self.entries@[n].0 == key);
                    assert forall|k: SourceKey| self@.contains_key(k) == before@.insert(
                        key,
                        distance,
                    ).contains_key(k) by {
                        if before@.contains_key(k) {
                            let j = before.position(k);
                            assert(self.entries@[j].0 == k);
                        }
                        if self@.contains_key(k) {
                            let j = self.position(k);
                            if j < n {
                                assert(before.entries@[j].0 == k);
                            }
                        }
                    }
                    assert forall|k: SourceKey| self@.contains_key(k) implies self@[k]
                        == before@.insert(key, distance)[k] by {
                        let j = self.position(k);
                        if j < n {
                            assert(before.entries@[j].0 == k);
                            assert(before.position(k) == j);
                        }
                    }
                    assert(self@ =~= before@.insert(key, distance));
                }
            },
        }
        TimerRequest::Source(key)
    }

    /// Forgets the distance recorded for `key` and returns it.
    pub fn remove(&mut self, key: &SourceKey) -> (r: Option<FeasibilityDistance>)
        requires
            old(self).wf(),
        ensures
            final(self).wf(),
            final(self)@ == old(self)@.remove(*key),
            r == (if old(self)@.contains_key(*key) {
                Some(old(self)@[*key])
            } else {
                None
            }),
    {
        let ghost before = *self;
        match self.find(key) {
            Some(i) => {
                let removed = self.entries.remove(i);
                proof {
                    assert forall|k: SourceKey| self@.contains_key(k) == before@.remove(
                        *key,
                    ).contains_key(k) by {
                        if before@.contains_key(k) && k != *key {
                            let j = before.position(k);
                            if j < i {
                                assert(self.entries@[j].0 == k);
                            } else {
                                assert(self.entries@[j - 1].0 == k);
                            }
                        }
                        if self@.contains_key(k) {
                            let j = self.position(k);
                            if j < i {
                                assert(before.entries@[j].0 == k);
                            } else {
                                assert(before.entries@[j + 1].0 == k);
                            }
                        }
                    }
                    assert forall|k: SourceKey| self@.contains_key(k) implies self@[k]
                        == before@.remove(*key)[k] by {
                        let j = self.position(k);
                        if j < i {
                            assert(before.entries@[j].0 == k);
                            assert(before.position(k) == j);
                        } else {
                            assert(before.entries@[j + 1].0 == k);
                            assert(before.position(k) == j + 1);
                        }
                    }
                    assert(self@ =~= before@.remove(*key));
                }
                Some(removed.1)
            },
            None => {
                assert(self@ =~= before@.remove(*key));
                None
            },
        }
    }

    /// What [`Self::is_feasible`] computes.
    pub open spec fn is_feasible_spec(&self, key: &SourceKey, metric: Metric, seqno: SeqNo) -> bool {
        feasible(self@, *key, metric, seqno)
    }

    /// Whether an announcement of `(metric, seqno)` for the source `key` is
    /// feasible: see [`feasible`].
    #[verifier::when_used_as_spec(is_feasible_spec)]
    pub fn is_feasible(&self, key: &SourceKey, metric: Metric, seqno: SeqNo) -> (r: bool)
        requires
            self.wf(),
        ensures
            r == feasible(self@, *key, metric, seqno),
    {
        if metric.is_infinite() {
            return true;
        }
        match self.get(key) {
            Some(distance) => distance.improved_by(metric, seqno),
            None => true,
        }
    }

    /// Whether `update` is feasible: a retraction always is; any other update is
    /// if no distance is recorded for its source, or if its sequence number is
    /// newer than the recorded one, or the same with a smaller metric.
    pub fn is_update_feasible(&self, update: &Update) -> (r: bool)
        requires
            self.wf(),
        ensures
            r == feasible(
                self@,
                SourceKey { subnet: update.subnet, router_id: update.router_id },
                update.metric,
                update.seqno,
            ),
    {
        let key = SourceKey::new(update.subnet(), update.router_id());
        self.is_feasible(&key, update.metric(), update.seqno())
    }

    /// Whether the route `route` is feasible: its metric and sequence number are
    /// judged against the distance of its source as those of an update are.
    pub fn route_feasible(&self, route: &RouteEntry) -> (r: bool)
        requires
            self.wf(),
        ensures
            r == feasible(self@, route.source, route.metric, route.seqno),
    {
        self.is_feasible(&route.source, route.metric, route.seqno)
    }

    /// The recorded sources with their distances, each source once.
    pub fn entries(&self) -> (r: Vec<(SourceKey, FeasibilityDistance)>)
        requires
            self.wf(),
        ensures
            forall|i: int| 0 <= i < r@.len() ==> self@.contains_pair(r@[i].0, r@[i].1),
            forall|i: int, j: int| 0 <= i < j < r@.len() ==> r@[i].0 != r@[j].0,
            forall|k: SourceKey|
                self@.contains_key(k) ==> exists|i: int| 0 <= i < r@.len() && r@[i].0 == k,
    {
        proof {
            assert forall|i: int| 0 <= i < self.entries@.len() implies self@.contains_pair(
                self.entries@[i].0,
                self.entries@[i].1,
            ) by {
                assert(self.position(self.entries@[i].0) == i);
            }
        }
        self.copy_entries()
    }

    /// A copy of the entries.
    fn copy_entries(&self) -> (r: Vec<(SourceKey, FeasibilityDistance)>)
        ensures
            r@ == self.entries@,
    {
        let mut r: Vec<(SourceKey, FeasibilityDistance)> = Vec::new();
        let mut i: usize = 0;
        while i < self.entries.len()
            invariant
                i <= self.entries@.len(),
                r@ == self.entries@.take(i as int),
            decreases self.entries@.len() - i,
        {
            r.push(self.entries[i]);
            assert(self.entries@.take(i as int).push(self.entries@[i as int])
                =~= self.entries@.take(i + 1));
            i += 1;
        }
        assert(self.entries@.take(i as int) =~= self.entries@);
        r
    }

    /// A copy of the table.
    pub fn clone(&self) -> (t: SourceTable)
        requires
            self.wf(),
        ensures
            t.wf(),
            t@ == self@,
    {
        let t = SourceTable { entries: self.copy_entries() };
        assert(t@ =~= self@);
        t
    }
}

} // verus!
