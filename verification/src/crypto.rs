//! Key material as the router sees it: opaque 256-bit values that are stored,
//! compared and handed back. Deriving them is the caller's business.

use vstd::prelude::*;

verus! {

/// The public key of a node: 32 bytes, held as two 128-bit halves in network
/// byte order.
#[derive(Clone, Copy, Debug, PartialEq, Eq, Structural, Hash)]
pub struct PublicKey {
    pub high: u128,
    pub low: u128,
}

impl PublicKey {
    /// The key with the given upper and lower 16 bytes.
    pub fn new(high: u128, low: u128) -> (k: PublicKey)
        ensures
            k.high == high,
            k.low == low,
    {
        PublicKey { high, low }
    }
}

/// The secret shared with another node: 32 bytes, held like a [`PublicKey`].
#[derive(Clone, Copy, Debug, PartialEq, Eq, Structural, Hash)]
pub struct SharedSecret {
    pub high: u128,
    pub low: u128,
}

impl SharedSecret {
    /// The secret with the given upper and lower 16 bytes.
    pub fn new(high: u128, low: u128) -> (s: SharedSecret)
        ensures
            s.high == high,
            s.low == low,
    {
        SharedSecret { high, low }
    }
}

} // verus!
