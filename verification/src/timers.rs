//! The timers that the tables ask for. The tables keep no time themselves: they
//! say which timer is to run, and are told when it has run out.

use vstd::prelude::*;
use crate::metric::Metric;
use crate::routing_table::{RouteExpirationType, RouteKey};
use crate::source_table::SourceKey;

verus! {

/// A timer that the caller is to start, in place of any running timer for the
/// same key. When it runs out, the caller reports the key as expired.
#[derive(Clone, Copy, Debug, PartialEq, Eq, Structural)]
pub enum TimerRequest {
    /// The inactivity timer of a source table entry.
    Source(SourceKey),
    /// The inactivity timer of a route, with the stage that its expiry means.
    Route(RouteKey, RouteExpirationType),
}

/// The stage that the expiry of a route's timer means: a route with a finite
/// metric is to be retracted, a retracted route is to be removed.
pub open spec fn expiration_of(metric: Metric) -> RouteExpirationType {
    if metric.is_infinite() {
        RouteExpirationType::Remove
    } else {
        RouteExpirationType::Retract
    }
}

/// Computes [`expiration_of`].
pub fn expiration_type(metric: Metric) -> (t: RouteExpirationType)
    ensures
        t == expiration_of(metric),
{
    if metric.is_infinite() {
        RouteExpirationType::Remove
    } else {
        RouteExpirationType::Retract
    }
}

} // verus!
