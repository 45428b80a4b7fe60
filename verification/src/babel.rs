//! The control messages of the protocol, as typed values.

use vstd::prelude::*;
use crate::metric::Metric;
use crate::router_id::RouterId;
use crate::sequence_number::SeqNo;
use crate::subnet::Subnet;

verus! {

/// The hop count of a sequence number request that this node originates.
pub const DEFAULT_HOP_COUNT: u8 = 64;

/// Announces the sender to a neighbour.
#[derive(Clone, Copy, Debug, PartialEq, Eq, Structural)]
pub struct Hello {
    pub interval: u16,
}

impl Hello {
    /// A Hello that promises the next one within `interval`.
    pub fn new(interval: u16) -> (h: Hello)
        ensures
            h.interval == interval,
    {
        Hello { interval }
    }

    /// The promised interval.
    pub fn interval(&self) -> (i: u16)
        ensures
            i == self.interval,
    {
        self.interval
    }
}

/// "I heard you": the answer to a Hello.
#[derive(Clone, Copy, Debug, PartialEq, Eq, Structural)]
pub struct Ihu {
    pub interval: u16,
    pub address: u128,
}

impl Ihu {
    /// An IHU for the neighbour that owns the overlay address `address`.
    pub fn new(interval: u16, address: u128) -> (i: Ihu)
        ensures
            i.interval == interval,
            i.address == address,
    {
        Ihu { interval, address }
    }

    /// The promised interval.
    pub fn interval(&self) -> (i: u16)
        ensures
            i == self.interval,
    {
        self.interval
    }

    /// The overlay address of the neighbour that is addressed.
    pub fn address(&self) -> (a: u128)
        ensures
            a == self.address,
    {
        self.address
    }
}

/// Advertises or, with an infinite metric, retracts a route.
#[derive(Clone, Copy, Debug, PartialEq, Eq, Structural)]
pub struct Update {
    pub interval: u16,
    pub seqno: SeqNo,
    pub metric: Metric,
    pub subnet: Subnet,
    pub router_id: RouterId,
}

impl Update {
    /// An update with the given fields.
    pub fn new(interval: u16, seqno: SeqNo, metric: Metric, subnet: Subnet, router_id: RouterId) -> (u:
        Update)
        ensures
            u == (Update { interval, seqno, metric, subnet, router_id }),
    {
        Update { interval, seqno, metric, subnet, router_id }
    }

    /// The interval after which the sender repeats the update.
    pub fn interval(&self) -> (i: u16)
        ensures
            i == self.interval,
    {
        self.interval
    }

    /// The sequence number of the route.
    pub fn seqno(&self) -> (s: SeqNo)
        ensures
            s == self.seqno,
    {
        self.seqno
    }

    /// The metric at which the sender offers the route.
    pub fn metric(&self) -> (m: Metric)
        ensures
            m == self.metric,
    {
        self.metric
    }

    /// The prefix that the route leads to.
    pub fn subnet(&self) -> (s: Subnet)
        ensures
            s == self.subnet,
    {
        self.subnet
    }

    /// The router that originates the route.
    pub fn router_id(&self) -> (r: RouterId)
        ensures
            r == self.router_id,
    {
        self.router_id
    }
}

/// Asks the origin of a route, hop by hop, for a newer sequence number.
#[derive(Clone, Copy, Debug, PartialEq, Eq, Structural)]
pub struct SeqNoRequest {
    pub seqno: SeqNo,
    pub router_id: RouterId,
    pub prefix: Subnet,
    pub hop_count: u8,
}

impl SeqNoRequest {
    /// What [`Self::new`] computes.
    pub open spec fn spec_new(seqno: SeqNo, router_id: RouterId, prefix: Subnet) -> SeqNoRequest {
        SeqNoRequest { seqno, router_id, prefix, hop_count: DEFAULT_HOP_COUNT }
    }

    /// A fresh request, with the default hop count.
    #[verifier::when_used_as_spec(spec_new)]
    pub fn new(seqno: SeqNo, router_id: RouterId, prefix: Subnet) -> (r: SeqNoRequest)
        ensures
            r == (SeqNoRequest { seqno, router_id, prefix, hop_count: DEFAULT_HOP_COUNT }),
    {
        SeqNoRequest { seqno, router_id, prefix, hop_count: DEFAULT_HOP_COUNT }
    }

    /// The sequence number asked for.
    pub fn seqno(&self) -> (s: SeqNo)
        ensures
            s == self.seqno,
    {
        self.seqno
    }

    /// The router whose sequence number is asked for.
    pub fn router_id(&self) -> (r: RouterId)
        ensures
            r == self.router_id,
    {
        self.router_id
    }

    /// The prefix of the route in question.
    pub fn prefix(&self) -> (s: Subnet)
        ensures
            s == self.prefix,
    {
        self.prefix
    }

    /// How many more hops the request may travel.
    pub fn hop_count(&self) -> (h: u8)
        ensures
            h == self.hop_count,
    {
        self.hop_count
    }

    /// The request as it is forwarded: with one hop less, where it has one left.
    pub open spec fn forwarded(self) -> SeqNoRequest {
        SeqNoRequest {
            hop_count: if self.hop_count > 0 {
                (self.hop_count - 1) as u8
            } else {
                0u8
            },
            ..self
        }
    }

    /// Takes one hop off the count; a count of zero stays zero.
    pub fn decrement_hop_count(&mut self)
        ensures
            *final(self) == old(self).forwarded(),
    {
        if self.hop_count > 0 {
            self.hop_count = self.hop_count - 1;
        }
    }
}

/// A control message.
#[derive(Clone, Copy, Debug, PartialEq, Eq, Structural)]
pub enum Tlv {
    Hello(Hello),
    Ihu(Ihu),
    Update(Update),
    SeqNoRequest(SeqNoRequest),
}

/// A control message on its way to or from a neighbour.
pub type ControlPacket = Tlv;

} // verus!
