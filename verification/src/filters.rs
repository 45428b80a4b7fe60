//! Filters on incoming updates. The router takes an update only if every one of
//! its filters allows it.

use vstd::prelude::*;
use crate::babel::Update;
use crate::subnet::Subnet;

verus! {

/// A rule that judges incoming updates.
pub trait RouteUpdateFilter: Send + Sync {
    /// What the filter lets through.
    spec fn allows(&self, update: Update) -> bool;

    /// Judges an incoming update.
    fn allow(&self, update: &Update) -> (r: bool)
        ensures
            r == self.allows(*update),
    ;
}

/// Allows the updates for prefixes of at least `N` bits: the announced subnet
/// holds at most `2^(128 - N)` addresses.
pub struct MaxSubnetSize<const N: u8>;

impl<const N: u8> RouteUpdateFilter for MaxSubnetSize<N> {
    open spec fn allows(&self, update: Update) -> bool {
        update.subnet.prefix_len() >= N
    }

    fn allow(&self, update: &Update) -> (r: bool) {
        update.subnet().prefix_len() >= N
    }
}

/// Allows the updates for prefixes within one subnet.
pub struct AllowedSubnet {
    subnet: Subnet,
}

impl AllowedSubnet {
    /// The subnet within which updates are allowed.
    pub closed spec fn subnet(&self) -> Subnet {
        self.subnet
    }

    /// The filter that allows the updates whose prefix lies within `subnet`, and
    /// no others.
    pub fn new(subnet: Subnet) -> (f: AllowedSubnet)
        ensures
            f.subnet() == subnet,
    {
        AllowedSubnet { subnet }
    }
}

impl RouteUpdateFilter for AllowedSubnet {
    open spec fn allows(&self, update: Update) -> bool {
        self.subnet().contains_subnet(&update.subnet)
    }

    fn allow(&self, update: &Update) -> (r: bool) {
        self.subnet.contains_subnet(&update.subnet())
    }
}

/// Whether every filter of `filters` allows `update`.
pub open spec fn all_allow(filters: Seq<Box<dyn RouteUpdateFilter>>, update: Update) -> bool {
    forall|i: int| 0 <= i < filters.len() ==> (#[trigger] filters[i]).allows(update)
}

/// Asks the filters in their order, up to the first that rejects the update.
pub fn passes_filters(filters: &Vec<Box<dyn RouteUpdateFilter>>, update: &Update) -> (r: bool)
    ensures
        r == all_allow(filters@, *update),
{
    let mut i: usize = 0;
    while i < filters.len()
        invariant
            i <= filters@.len(),
            forall|j: int| 0 <= j < i ==> (#[trigger] filters@[j]).allows(*update),
        decreases filters@.len() - i,
    {
        if !filters[i].allow(update) {
            return false;
        }
        i += 1;
    }
    true
}

} // verus!
