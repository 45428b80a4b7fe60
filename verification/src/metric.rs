//! The additive cost of a route.

use vstd::prelude::*;

verus! {

/// The value that stands for "unreachable".
pub const METRIC_INFINITE: u16 = 0xFFFF;

/// A 16-bit route cost. The largest value is infinite: a route that carries it is
/// retracted.
#[derive(Clone, Copy, Debug, PartialEq, Eq, Structural, Hash)]
pub struct Metric(pub u16);

/// The sum of two costs, held at the infinite value once it is reached.
pub open spec fn saturating_sum(a: u16, b: u16) -> u16 {
    if a + b >= METRIC_INFINITE {
        METRIC_INFINITE
    } else {
        (a + b) as u16
    }
}

/// The distance between two costs.
pub open spec fn abs_difference(a: u16, b: u16) -> u16 {
    if a >= b {
        (a - b) as u16
    } else {
        (b - a) as u16
    }
}

impl Metric {
    /// The cost with the given value.
    pub fn new(value: u16) -> (m: Metric)
        ensures
            m.0 == value,
    {
        Metric(value)
    }

    /// The infinite cost.
    pub fn infinite() -> (m: Metric)
        ensures
            m.0 == METRIC_INFINITE,
            m.is_infinite_spec(),
    {
        Metric(METRIC_INFINITE)
    }

    /// What [`Self::is_infinite`] computes.
    pub open spec fn is_infinite_spec(&self) -> bool {
        self.0 == METRIC_INFINITE
    }

    /// Whether this is the infinite cost.
    #[verifier::when_used_as_spec(is_infinite_spec)]
    pub fn is_infinite(&self) -> (r: bool)
        ensures
            r == self.is_infinite_spec(),
    {
        self.0 == METRIC_INFINITE
    }

    /// What [`Self::value`] computes.
    pub open spec fn value_spec(&self) -> u16 {
        self.0
    }

    /// The raw 16-bit value.
    #[verifier::when_used_as_spec(value_spec)]
    pub fn value(&self) -> (r: u16)
        ensures
            r == self.0,
    {
        self.0
    }

    /// What [`Self::add`] computes.
    pub open spec fn add_spec(self, other: Metric) -> Metric {
        Metric(saturating_sum(self.0, other.0))
    }

    /// Adds two costs. The sum never passes the infinite value, and adding
    /// anything to an infinite cost leaves it infinite.
    #[verifier::when_used_as_spec(add_spec)]
    pub fn add(self, other: Metric) -> (m: Metric)
        ensures
            m == self.add_spec(other),
    {
        Metric(self.0.saturating_add(other.0))
    }

    /// What [`Self::delta`] computes.
    pub open spec fn delta_spec(&self, other: &Metric) -> Metric {
        Metric(abs_difference(self.0, other.0))
    }

    /// The absolute difference of two costs.
    #[verifier::when_used_as_spec(delta_spec)]
    pub fn delta(&self, other: &Metric) -> (m: Metric)
        ensures
            m == self.delta_spec(other),
    {
        if self.0 >= other.0 {
            Metric(self.0 - other.0)
        } else {
            Metric(other.0 - self.0)
        }
    }

    /// What [`Self::less_than`] computes.
    pub open spec fn less_than_spec(&self, other: &Metric) -> bool {
        self.0 < other.0
    }

    /// Whether this cost is strictly smaller than `other`.
    #[verifier::when_used_as_spec(less_than_spec)]
    pub fn less_than(&self, other: &Metric) -> (r: bool)
        ensures
            r == (self.0 < other.0),
    {
        self.0 < other.0
    }
}

/// Adding to an infinite cost leaves it infinite, adding zero changes nothing, and
/// a sum is never smaller than either part.
pub proof fn lemma_metric_add(a: Metric, b: Metric)
    ensures
        a.is_infinite() ==> a.add(b).is_infinite(),
        b.is_infinite() ==> a.add(b).is_infinite(),
        a.add(Metric(0)) == a,
        a.add(b) == b.add(a),
        a.add(b).0 >= a.0,
        a.add(b).0 >= b.0,
{
}

/// The difference of two costs is symmetric, and zero exactly between equal costs.
pub proof fn lemma_metric_delta(a: Metric, b: Metric)
    ensures
        a.delta(&b) == b.delta(&a),
        a.delta(&b).0 == 0 <==> a == b,
{
}

} // verus!
