//! IPv6 prefixes.

use vstd::prelude::*;

verus! {

/// The number of bits of an address.
pub const ADDRESS_BITS: u8 = 128;

/// The address mask that keeps the highest `len` bits.
pub open spec fn prefix_mask(len: u8) -> u128 {
    if len == 0 {
        0u128
    } else if len >= 128 {
        u128::MAX
    } else {
        !(u128::MAX >> (len as u128))
    }
}

/// Computes [`prefix_mask`].
pub fn mask_of(len: u8) -> (m: u128)
    ensures
        m == prefix_mask(len),
{
    if len == 0 {
        0
    } else if len >= 128 {
        u128::MAX
    } else {
        !(u128::MAX >> (len as u128))
    }
}

/// The error of building a subnet whose prefix is longer than an address.
#[derive(Clone, Copy, Debug, PartialEq, Eq, Structural)]
pub struct PrefixLenError;

/// An IPv6 prefix: a network address and the number of leading bits that count.
/// The address is always the network address: the bits behind the prefix are zero.
#[derive(Clone, Copy, Debug, PartialEq, Eq, Structural, Hash)]
pub struct Subnet {
    address: u128,
    prefix_len: u8,
}

impl Subnet {
    /// Every subnet is a proper prefix: see [`Subnet::wf`].
    #[verifier::type_invariant]
    spec fn canonical(self) -> bool {
        &&& self.prefix_len <= 128
        &&& self.address & prefix_mask(self.prefix_len) == self.address
    }

    /// The network address.
    pub closed spec fn spec_address(&self) -> u128 {
        self.address
    }

    /// The length of the prefix in bits.
    pub closed spec fn spec_prefix_len(&self) -> u8 {
        self.prefix_len
    }

    /// Whether the value is a proper prefix: at most 128 bits long, with no bit
    /// set behind the prefix. Every subnet that a program holds is one.
    pub open spec fn wf(&self) -> bool {
        &&& self.spec_prefix_len() <= 128
        &&& self.spec_address() & prefix_mask(self.spec_prefix_len()) == self.spec_address()
    }

    /// The subnet of `prefix_len` bits that holds `address`.
    pub closed spec fn containing(address: u128, prefix_len: u8) -> Subnet {
        Subnet { address: address & prefix_mask(prefix_len), prefix_len }
    }

    /// The subnet of `prefix_len` bits that holds `address`. The bits behind the
    /// prefix are dropped. Fails exactly when the prefix is longer than 128 bits.
    pub fn new(address: u128, prefix_len: u8) -> (r: Result<Subnet, PrefixLenError>)
        ensures
            prefix_len > 128 <==> r is Err,
            r matches Ok(s) ==> {
                &&& s == Subnet::containing(address, prefix_len)
                &&& s.spec_address() == address & prefix_mask(prefix_len)
                &&& s.spec_prefix_len() == prefix_len
                &&& s.wf()
                &&& s.contains_ip_spec(address)
            },
    {
        if prefix_len > ADDRESS_BITS {
            return Err(PrefixLenError);
        }
        let mask: u128 = mask_of(prefix_len);
        assert((address & mask) & mask == address & mask) by (bit_vector);
        Ok(Subnet { address: address & mask, prefix_len })
    }

    /// The network address.
    #[verifier::when_used_as_spec(spec_address)]
    pub fn address(&self) -> (a: u128)
        ensures
            a == self.spec_address(),
    {
        self.address
    }

    /// The length of the prefix in bits.
    #[verifier::when_used_as_spec(spec_prefix_len)]
    pub fn prefix_len(&self) -> (l: u8)
        ensures
            l == self.spec_prefix_len(),
            l <= 128,
    {
        proof {
            use_type_invariant(self);
        }
        self.prefix_len
    }

    /// The network address: the address with the bits behind the prefix cleared,
    /// which is the stored address itself.
    pub fn network(&self) -> (a: u128)
        ensures
            a == self.spec_address(),
            a == self.spec_address() & prefix_mask(self.spec_prefix_len()),
    {
        proof {
            use_type_invariant(self);
        }
        self.address & mask_of(self.prefix_len)
    }

    /// The mask of this subnet's prefix.
    pub fn mask(&self) -> (m: u128)
        ensures
            m == prefix_mask(self.spec_prefix_len()),
    {
        mask_of(self.prefix_len)
    }

    /// What [`Self::contains_ip`] computes.
    pub open spec fn contains_ip_spec(&self, ip: u128) -> bool {
        ip & prefix_mask(self.spec_prefix_len()) == self.spec_address()
    }

    /// Whether `ip` lies in this subnet: its leading bits are the subnet's.
    #[verifier::when_used_as_spec(contains_ip_spec)]
    pub fn contains_ip(&self, ip: u128) -> (r: bool)
        ensures
            r == self.contains_ip_spec(ip),
    {
        ip & mask_of(self.prefix_len) == self.address
    }

    /// What [`Self::contains_subnet`] computes.
    pub open spec fn contains_subnet_spec(&self, other: &Subnet) -> bool {
        &&& other.spec_prefix_len() >= self.spec_prefix_len()
        &&& other.spec_address() & prefix_mask(self.spec_prefix_len()) == self.spec_address()
    }

    /// Whether `other` lies within this subnet: its prefix is at least as long,
    /// and the leading bits that this subnet fixes agree.
    #[verifier::when_used_as_spec(contains_subnet_spec)]
    pub fn contains_subnet(&self, other: &Subnet) -> (r: bool)
        ensures
            r == self.contains_subnet_spec(other),
    {
        other.prefix_len >= self.prefix_len && other.address & mask_of(self.prefix_len)
            == self.address
    }

    /// What [`Self::lt`] computes.
    pub open spec fn lt_spec(&self, other: &Subnet) -> bool {
        self.spec_address() < other.spec_address() || (self.spec_address() == other.spec_address()
            && self.spec_prefix_len() < other.spec_prefix_len())
    }

    /// The order of subnets: by address, then by prefix length.
    #[verifier::when_used_as_spec(lt_spec)]
    pub fn lt(&self, other: &Subnet) -> (r: bool)
        ensures
            r == self.lt_spec(other),
    {
        self.address < other.address || (self.address == other.address && self.prefix_len
            < other.prefix_len)
    }
}

/// Two subnets with the same address and prefix length are the same subnet.
pub proof fn lemma_subnet_eq(a: Subnet, b: Subnet)
    ensures
        a == b <==> (a.spec_address() == b.spec_address() && a.spec_prefix_len()
            == b.spec_prefix_len()),
{
}

/// The order of subnets is total and strict: of two subnets exactly one comes
/// first, unless they are the same; and the order is transitive.
pub proof fn lemma_subnet_order(a: Subnet, b: Subnet, c: Subnet)
    ensures
        a.lt_spec(&b) || b.lt_spec(&a) || a == b,
        !(a.lt_spec(&b) && b.lt_spec(&a)),
        !a.lt_spec(&a),
        a.lt_spec(&b) && b.lt_spec(&c) ==> a.lt_spec(&c),
{
}

/// Of the subnets of one length at most one holds a given address.
pub proof fn lemma_subnet_unique(a: Subnet, b: Subnet, ip: u128)
    requires
        a.contains_ip_spec(ip),
        b.contains_ip_spec(ip),
        a.spec_prefix_len() == b.spec_prefix_len(),
    ensures
        a == b,
{
}

/// A longer prefix keeps every bit that a shorter one keeps.
pub proof fn lemma_mask_nested(x: u128, short: u8, long: u8)
    requires
        short <= long,
    ensures
        (x & prefix_mask(long)) & prefix_mask(short) == x & prefix_mask(short),
{
    let ms: u128 = prefix_mask(short);
    let ml: u128 = prefix_mask(long);
    assert(ml & ms == ms) by {
        if short == 0 {
            assert(ml & 0u128 == 0u128) by (bit_vector);
        } else if long >= 128 {
            assert(u128::MAX & ms == ms) by (bit_vector);
        } else {
            let s: u128 = short as u128;
            let l: u128 = long as u128;
            assert(!(u128::MAX >> l) & !(u128::MAX >> s) == !(u128::MAX >> s)) by (bit_vector)
                requires
                    s <= l,
                    l < 128,
            ;
        }
    }
    assert((x & ml) & ms == x & ms) by (bit_vector)
        requires
            ml & ms == ms,
    ;
}

/// Containment of subnets is reflexive on proper subnets and transitive, and a
/// subnet holds every address of a subnet that it contains.
pub proof fn lemma_contains_subnet(a: Subnet, b: Subnet, c: Subnet, ip: u128)
    ensures
        a.wf() ==> a.contains_subnet_spec(&a),
        a.contains_subnet_spec(&b) && b.contains_subnet_spec(&c) ==> a.contains_subnet_spec(&c),
        a.contains_subnet_spec(&b) && b.contains_ip_spec(ip) ==> a.contains_ip_spec(ip),
{
    if a.contains_subnet_spec(&b) {
        if b.contains_subnet_spec(&c) {
            lemma_mask_nested(c.spec_address(), a.spec_prefix_len(), b.spec_prefix_len());
        }
        if b.contains_ip_spec(ip) {
            lemma_mask_nested(ip, a.spec_prefix_len(), b.spec_prefix_len());
        }
    }
}

} // verus!
