//! Sequence numbers that wrap around.

use vstd::prelude::*;

verus! {

/// A 16-bit sequence number, compared modulo 2^16.
#[derive(Clone, Copy, Debug, PartialEq, Eq, Structural, Hash)]
pub struct SeqNo(pub u16);

/// How far `b` lies ahead of `a` when counting upwards modulo 2^16.
pub open spec fn distance(a: u16, b: u16) -> int {
    (b - a) % 0x1_0000
}

impl SeqNo {
    /// The sequence number with the given value.
    pub fn new(value: u16) -> (s: SeqNo)
        ensures
            s.0 == value,
    {
        SeqNo(value)
    }

    /// What [`Self::value`] computes.
    pub open spec fn value_spec(&self) -> u16 {
        self.0
    }

    /// The raw 16-bit value.
    #[verifier::when_used_as_spec(value_spec)]
    pub fn value(&self) -> (r: u16)
        ensures
            r == self.0,
    {
        self.0
    }

    /// What [`Self::lt`] computes.
    pub open spec fn lt_spec(&self, other: &SeqNo) -> bool {
        0 < distance(self.0, other.0) < 0x8000
    }

    /// Whether `self` comes before `other`: `other` lies ahead of `self` by more
    /// than zero and fewer than 2^15 steps.
    #[verifier::when_used_as_spec(lt_spec)]
    pub fn lt(&self, other: &SeqNo) -> (r: bool)
        ensures
            r == self.lt_spec(other),
    {
        let ahead: u16 = other.0.wrapping_sub(self.0);
        proof {
            lemma_wrapping_distance(self.0, other.0);
        }
        0 < ahead && ahead < 0x8000
    }

    /// What [`Self::gt`] computes.
    pub open spec fn gt_spec(&self, other: &SeqNo) -> bool {
        other.lt_spec(self)
    }

    /// Whether `self` comes after `other`.
    #[verifier::when_used_as_spec(gt_spec)]
    pub fn gt(&self, other: &SeqNo) -> (r: bool)
        ensures
            r == other.lt_spec(self),
    {
        other.lt(self)
    }

    /// What [`Self::next`] computes.
    pub open spec fn next_spec(&self) -> SeqNo {
        SeqNo(if self.0 == 0xFFFF { 0u16 } else { (self.0 + 1) as u16 })
    }

    /// The following sequence number; after the largest value comes zero.
    #[verifier::when_used_as_spec(next_spec)]
    pub fn next(&self) -> (s: SeqNo)
        ensures
            s == self.next_spec(),
    {
        if self.0 == 0xFFFF {
            SeqNo(0)
        } else {
            SeqNo(self.0 + 1)
        }
    }
}

impl Default for SeqNo {
    fn default() -> (s: SeqNo)
        ensures
            s.0 == 0,
    {
        SeqNo(0)
    }
}

/// Wrapping subtraction computes the distance.
proof fn lemma_wrapping_distance(a: u16, b: u16)
    ensures
        b.wrapping_sub(a) as int == distance(a, b),
{
    if b >= a {
        assert(b.wrapping_sub(a) == b - a);
        assert(distance(a, b) == b - a);
    } else {
        assert(b.wrapping_sub(a) == b - a + 0x1_0000);
        assert(distance(a, b) == b - a + 0x1_0000);
    }
}

/// The order is strict: nothing comes before itself, and of two numbers at most
/// one comes before the other.
pub proof fn lemma_seqno_order(a: SeqNo, b: SeqNo)
    ensures
        !a.lt(&a),
        !(a.lt(&b) && b.lt(&a)),
        a.lt(&b) ==> a != b,
        a.gt(&b) == b.lt(&a),
{
    if a.0 <= b.0 {
        assert(distance(a.0, b.0) == b.0 - a.0);
        if a.0 < b.0 {
            assert(distance(b.0, a.0) == a.0 - b.0 + 0x1_0000);
        } else {
            assert(distance(b.0, a.0) == 0);
        }
    } else {
        assert(distance(b.0, a.0) == a.0 - b.0);
        assert(distance(a.0, b.0) == b.0 - a.0 + 0x1_0000);
    }
    assert(distance(a.0, a.0) == 0);
}

/// Every sequence number comes before its successor, also across the wrap from
/// the largest value to zero.
pub proof fn lemma_seqno_next(a: SeqNo)
    ensures
        a.lt(&a.next()),
        SeqNo(0xFFFF).lt(&SeqNo(0)),
{
    if a.0 == 0xFFFF {
        assert(distance(0xFFFF, 0) == 1);
    } else {
        assert(distance(a.0, (a.0 + 1) as u16) == 1);
    }
    assert(distance(0xFFFF, 0) == 1);
}

/// Among sequence numbers that lie fewer than 2^15 steps ahead of one of them,
/// `base`, the order is that of their distance from `base`: so it is transitive.
pub proof fn lemma_seqno_window(base: SeqNo, a: SeqNo, b: SeqNo, c: SeqNo)
    requires
        distance(base.0, a.0) < 0x8000,
        distance(base.0, b.0) < 0x8000,
        distance(base.0, c.0) < 0x8000,
    ensures
        a.lt(&b) <==> distance(base.0, a.0) < distance(base.0, b.0),
        a.gt(&b) && b.gt(&c) ==> a.gt(&c),
{
    lemma_window_pair(base.0, a.0, b.0);
    lemma_window_pair(base.0, b.0, a.0);
    lemma_window_pair(base.0, c.0, b.0);
    lemma_window_pair(base.0, c.0, a.0);
}

/// Of two numbers fewer than 2^15 steps ahead of `base`, the one nearer to
/// `base` comes first.
proof fn lemma_window_pair(base: u16, a: u16, b: u16)
    requires
        distance(base, a) < 0x8000,
        distance(base, b) < 0x8000,
    ensures
        0 < distance(a, b) < 0x8000 <==> distance(base, a) < distance(base, b),
{
    let da = distance(base, a);
    let db = distance(base, b);
    assert(da == if a >= base {
        a - base
    } else {
        a - base + 0x1_0000
    });
    assert(db == if b >= base {
        b - base
    } else {
        b - base + 0x1_0000
    });
    assert(distance(a, b) == if b >= a {
        b - a
    } else {
        b - a + 0x1_0000
    });
}

} // verus!
