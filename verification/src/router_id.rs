//! The identity of a router.

use vstd::prelude::*;
use crate::crypto::PublicKey;

verus! {

/// The identity under which a router originates routes: its public key.
#[derive(Clone, Copy, Debug, PartialEq, Eq, Structural, Hash)]
pub struct RouterId(pub PublicKey);

impl RouterId {
    /// The identity of the router that owns `public_key`.
    pub fn new(public_key: PublicKey) -> (id: RouterId)
        ensures
            id.0 == public_key,
    {
        RouterId(public_key)
    }

    /// The public key that the identity was made from.
    pub fn to_pubkey(&self) -> (k: PublicKey)
        ensures
            k == self.0,
            RouterId(k) == *self,
    {
        self.0
    }
}

} // verus!
