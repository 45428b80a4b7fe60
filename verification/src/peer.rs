//! Directly connected neighbours.

use vstd::prelude::*;

verus! {

/// The largest link cost.
pub const MAX_LINK_COST: u16 = 0xFFFF;

/// A handle of a neighbour. Two handles name the same neighbour exactly when
/// they are equal. An underlay IPv4 address is written in its IPv6-mapped form.
#[derive(Clone, Copy, Debug, PartialEq, Eq, Structural, Hash)]
pub struct Peer {
    pub underlay_ip: u128,
    pub overlay_ip: u128,
}

impl Peer {
    /// The handle of the neighbour reached at `underlay_ip` that owns `overlay_ip`.
    pub fn new(underlay_ip: u128, overlay_ip: u128) -> (p: Peer)
        ensures
            p.underlay_ip == underlay_ip,
            p.overlay_ip == overlay_ip,
    {
        Peer { underlay_ip, overlay_ip }
    }

    /// The address at which the neighbour is reached.
    pub fn underlay_ip(&self) -> (a: u128)
        ensures
            a == self.underlay_ip,
    {
        self.underlay_ip
    }

    /// The neighbour's address in the overlay.
    pub fn overlay_ip(&self) -> (a: u128)
        ensures
            a == self.overlay_ip,
    {
        self.overlay_ip
    }
}

/// The time from `then` to `now` in milliseconds; zero if `then` is the later.
pub open spec fn elapsed_ms(now: u64, then: u64) -> u64 {
    if now >= then {
        (now - then) as u64
    } else {
        0
    }
}

/// Computes [`elapsed_ms`].
pub fn elapsed(now: u64, then: u64) -> (d: u64)
    ensures
        d == elapsed_ms(now, then),
{
    if now >= then {
        now - then
    } else {
        0
    }
}

/// A number of milliseconds as a link cost: the number itself, or the largest
/// cost if it is greater.
pub open spec fn clamped_cost(ms: u64) -> u16 {
    if ms > MAX_LINK_COST {
        MAX_LINK_COST
    } else {
        ms as u16
    }
}

/// Computes [`clamped_cost`].
pub fn clamp_cost(ms: u64) -> (c: u16)
    ensures
        c == clamped_cost(ms),
{
    if ms > MAX_LINK_COST as u64 {
        MAX_LINK_COST
    } else {
        ms as u16
    }
}

/// What the router knows of the link to a neighbour. Times are milliseconds on
/// the caller's clock.
#[derive(Clone, Copy, Debug, PartialEq, Eq, Structural)]
pub struct PeerLink {
    pub peer: Peer,
    pub link_cost: u16,
    pub time_last_received_hello: u64,
    pub time_last_received_ihu: u64,
}

impl PeerLink {
    /// The link to `peer` as it stands at `now`: with the given cost, and with
    /// both timestamps set to `now`.
    pub fn new(peer: Peer, link_cost: u16, now: u64) -> (l: PeerLink)
        ensures
            l == (PeerLink {
                peer,
                link_cost,
                time_last_received_hello: now,
                time_last_received_ihu: now,
            }),
    {
        PeerLink { peer, link_cost, time_last_received_hello: now, time_last_received_ihu: now }
    }

    /// The neighbour at the other end.
    pub fn peer(&self) -> (p: Peer)
        ensures
            p == self.peer,
    {
        self.peer
    }

    /// The cost of the link in milliseconds.
    pub fn link_cost(&self) -> (c: u16)
        ensures
            c == self.link_cost,
    {
        self.link_cost
    }

    /// Sets the cost of the link.
    pub fn set_link_cost(&mut self, link_cost: u16)
        ensures
            *final(self) == (PeerLink { link_cost, ..*old(self) }),
    {
        self.link_cost = link_cost;
    }

    /// When the last Hello was exchanged.
    pub fn time_last_received_hello(&self) -> (t: u64)
        ensures
            t == self.time_last_received_hello,
    {
        self.time_last_received_hello
    }

    /// Records the time of a Hello.
    pub fn set_time_last_received_hello(&mut self, time: u64)
        ensures
            *final(self) == (PeerLink { time_last_received_hello: time, ..*old(self) }),
    {
        self.time_last_received_hello = time;
    }

    /// When the last IHU arrived.
    pub fn time_last_received_ihu(&self) -> (t: u64)
        ensures
            t == self.time_last_received_ihu,
    {
        self.time_last_received_ihu
    }

    /// Records the time of an IHU.
    pub fn set_time_last_received_ihu(&mut self, time: u64)
        ensures
            *final(self) == (PeerLink { time_last_received_ihu: time, ..*old(self) }),
    {
        self.time_last_received_ihu = time;
    }

    /// What [`Self::silent_longer_than`] computes.
    pub open spec fn silent_longer_than_spec(&self, now: u64, threshold_ms: u64) -> bool {
        elapsed_ms(now, self.time_last_received_ihu) > threshold_ms
    }

    /// Whether at `now` the last IHU lies more than `threshold_ms` back.
    #[verifier::when_used_as_spec(silent_longer_than_spec)]
    pub fn silent_longer_than(&self, now: u64, threshold_ms: u64) -> (r: bool)
        ensures
            r == self.silent_longer_than_spec(now, threshold_ms),
    {
        elapsed(now, self.time_last_received_ihu) > threshold_ms
    }
}

} // verus!
