//! The destination key map: which public key and shared secret belong to the
//! overlay addresses of a prefix.

use vstd::prelude::*;
use crate::crypto::{PublicKey, SharedSecret};
use crate::subnet::{lemma_subnet_unique, Subnet};

verus! {

/// Whether `subnet` is the longest prefix of `keys` that holds `ip`.
pub open spec fn is_longest_key(
    keys: Map<Subnet, (PublicKey, SharedSecret)>,
    ip: u128,
    subnet: Subnet,
) -> bool {
    &&& keys.contains_key(subnet)
    &&& subnet.contains_ip(ip)
    &&& forall|other: Subnet|
        keys.contains_key(other) && #[trigger] other.contains_ip(ip) ==> other.prefix_len()
            <= subnet.prefix_len()
}

/// The keys recorded for the longest prefix that holds `ip`.
pub open spec fn keys_for(keys: Map<Subnet, (PublicKey, SharedSecret)>, ip: u128) -> Option<
    (PublicKey, SharedSecret),
> {
    if exists|subnet: Subnet| is_longest_key(keys, ip, subnet) {
        Some(keys[choose|subnet: Subnet| is_longest_key(keys, ip, subnet)])
    } else {
        None
    }
}

/// The longest prefix that holds an address is one prefix only.
pub proof fn lemma_longest_key_unique(
    keys: Map<Subnet, (PublicKey, SharedSecret)>,
    ip: u128,
    subnet: Subnet,
)
    requires
        is_longest_key(keys, ip, subnet),
    ensures
        keys_for(keys, ip) == Some(keys[subnet]),
{
    let chosen = choose|s: Subnet| is_longest_key(keys, ip, s);
    lemma_subnet_unique(subnet, chosen, ip);
}

/// The map from prefixes to the keys of the node that owns them.
pub struct IpPubkeyMap {
    entries: Vec<(Subnet, PublicKey, SharedSecret)>,
}

impl View for IpPubkeyMap {
    type V = Map<Subnet, (PublicKey, SharedSecret)>;

    closed spec fn view(&self) -> Map<Subnet, (PublicKey, SharedSecret)> {
        Map::new(
            |s: Subnet| exists|i: int| 0 <= i < self.entries@.len() && self.entries@[i].0 == s,
            |s: Subnet| (self.entries@[self.position(s)].1, self.entries@[self.position(s)].2),
        )
    }
}

impl IpPubkeyMap {
    /// Whether the map is well formed: it holds every prefix once. Every map
    /// that this module hands out is.
    pub closed spec fn wf(&self) -> bool {
        forall|i: int, j: int|
            0 <= i < j < self.entries@.len() ==> self.entries@[i].0 != self.entries@[j].0
    }

    /// The place of `subnet` among the entries, where it is there.
    spec fn position(&self, subnet: Subnet) -> int {
        choose|i: int| 0 <= i < self.entries@.len() && self.entries@[i].0 == subnet
    }

    /// The entry at `i` is what the map holds for its prefix.
    proof fn lemma_entry(&self, i: int)
        requires
            self.wf(),
            0 <= i < self.entries@.len(),
        ensures
            self@.contains_key(self.entries@[i].0),
            self@[self.entries@[i].0] == (self.entries@[i].1, self.entries@[i].2),
            self.position(self.entries@[i].0) == i,
    {
    }

    /// The place of `subnet` among the entries.
    fn find(&self, subnet: &Subnet) -> (r: Option<usize>)
        ensures
            match r {
                Some(k) => k < self.entries@.len() && self.entries@[k as int].0 == *subnet,
                None => forall|j: int|
                    0 <= j < self.entries@.len() ==> self.entries@[j].0 != *subnet,
            },
    {
        let mut i: usize = 0;
        while i < self.entries.len()
            invariant
                i <= self.entries@.len(),
                forall|j: int| 0 <= j < i ==> self.entries@[j].0 != *subnet,
            decreases self.entries@.len() - i,
        {
            if self.entries[i].0 == *subnet {
                return Some(i);
            }
            i += 1;
        }
        None
    }

    /// An empty map.
    pub fn new() -> (m: IpPubkeyMap)
        ensures
            m.wf(),
            m@ == Map::<Subnet, (PublicKey, SharedSecret)>::empty(),
    {
        let m = IpPubkeyMap { entries: Vec::new() };
        assert(m@ =~= Map::<Subnet, (PublicKey, SharedSecret)>::empty());
        m
    }

    /// Records the keys of the node that owns `subnet`, in place of what was
    /// recorded for that prefix.
    pub fn insert(&mut self, subnet: Subnet, public_key: PublicKey, shared_secret: SharedSecret)
        requires
            old(self).wf(),
        ensures
            final(self).wf(),
            final(self)@ == old(self)@.insert(subnet, (public_key, shared_secret)),
    {
        let ghost before = *self;
        let ghost goal = before@.insert(subnet, (public_key, shared_secret));
        let found = self.find(&subnet);
        match found {
            Some(k) => {
                self.entries[k] = (subnet, public_key, shared_secret);
            },
            None => {
                self.entries.push((subnet, public_key, shared_secret));
            },
        }
        proof {
            assert forall|s: Subnet| self@.contains_key(s) == goal.contains_key(s) by {
                if before@.contains_key(s) {
                    let j = before.position(s);
                    assert(self.entries@[j].0 == s);
                }
                if self@.contains_key(s) && s != subnet {
                    let j = self.position(s);
                    assert(before.entries@[j].0 == s);
                }
                if s == subnet {
                    let at = match found {
                        Some(k) => k as int,
                        None => before.entries@.len() as int,
                    };
                    assert(self.entries@[at].0 == s);
                }
            }
            assert forall|s: Subnet| self@.contains_key(s) implies self@[s] == goal[s] by {
                let j = self.position(s);
                self.lemma_entry(j);
                if s != subnet {
                    before.lemma_entry(j);
                }
            }
            assert(self@ =~= goal);
        }
    }

    /// The keys recorded for the longest prefix that holds `ip`, if any prefix
    /// does.
    pub fn lookup(&self, ip: u128) -> (r: Option<(PublicKey, SharedSecret)>)
        requires
            self.wf(),
        ensures
            r == keys_for(self@, ip),
    {
        let mut best: Option<usize> = None;
        let mut i: usize = 0;
        while i < self.entries.len()
            invariant
                i <= self.entries@.len(),
                match best {
                    Some(b) => {
                        &&& b < i
                        &&& self.entries@[b as int].0.contains_ip(ip)
                        &&& forall|j: int|
                            0 <= j < i && (#[trigger] self.entries@[j]).0.contains_ip(ip)
                                ==> self.entries@[j].0.prefix_len() <= self.entries@[b as int].0.prefix_len()
                    },
                    None => forall|j: int|
                        0 <= j < i ==> !(#[trigger] self.entries@[j]).0.contains_ip(ip),
                },
            decreases self.entries@.len() - i,
        {
            if self.entries[i].0.contains_ip(ip) {
                let longer: bool = match best {
                    Some(b) => self.entries[b].0.prefix_len() < self.entries[i].0.prefix_len(),
                    None => true,
                };
                if longer {
                    best = Some(i);
                }
            }
            i += 1;
        }
        match best {
            Some(b) => {
                proof {
                    let subnet = self.entries@[b as int].0;
                    self.lemma_entry(b as int);
                    assert forall|other: Subnet|
                        self@.contains_key(other) && #[trigger] other.contains_ip(
                            ip,
                        ) implies other.prefix_len() <= subnet.prefix_len() by {
                        let j = self.position(other);
                        assert(self.entries@[j].0.contains_ip(ip));
                    }
                    lemma_longest_key_unique(self@, ip, subnet);
                }
                Some((self.entries[b].1, self.entries[b].2))
            },
            None => {
                proof {
                    if exists|subnet: Subnet| is_longest_key(self@, ip, subnet) {
                        let subnet = choose|subnet: Subnet| is_longest_key(self@, ip, subnet);
                        let j = self.position(subnet);
                        assert(self.entries@[j].0.contains_ip(ip));
                    }
                }
                None
            },
        }
    }

    /// A copy of the map.
    pub fn clone(&self) -> (m: IpPubkeyMap)
        requires
            self.wf(),
        ensures
            m.wf(),
            m@ == self@,
    {
        let mut entries: Vec<(Subnet, PublicKey, SharedSecret)> = Vec::new();
        let mut i: usize = 0;
        while i < self.entries.len()
            invariant
                i <= self.entries@.len(),
                entries@ == self.entries@.take(i as int),
            decreases self.entries@.len() - i,
        {
            entries.push(self.entries[i]);
            assert(self.entries@.take(i as int).push(self.entries@[i as int])
                =~= self.entries@.take(i + 1));
            i += 1;
        }
        assert(self.entries@.take(i as int) =~= self.entries@);
        let m = IpPubkeyMap { entries };
        assert(m@ =~= self@);
        m
    }
}

} // verus!
