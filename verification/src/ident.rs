//! Identifiers, correlation tokens and the XOR metric.

use vstd::prelude::*;
use crate::chance::random_u128;

verus! {

/// Name of a peer or of a stored key: an opaque 128-bit value.
#[derive(Debug, Clone, Copy, PartialEq, Eq, Hash, Default, Structural)]
pub struct NodeId(pub u128);

/// Correlation token that ties a response to the request that created it.
#[derive(Debug, Clone, Copy, PartialEq, Eq, Hash, Default, Structural)]
pub struct Cookie(pub u128);

/// XOR distance between two 128-bit values.
pub open spec fn xor_distance(a: u128, b: u128) -> u128 {
    a ^ b
}

impl NodeId {
    /// A freshly drawn random identifier.
    pub fn new() -> (id: NodeId) {
        NodeId(random_u128())
    }

    /// Distance from `self` to `other` as a mathematical value.
    pub open spec fn spec_dist(&self, other: &NodeId) -> u128 {
        xor_distance(self.0, other.0)
    }

    /// XOR distance from `self` to `other`.
    #[verifier::when_used_as_spec(spec_dist)]
    pub fn dist(&self, other: &NodeId) -> (d: u128)
        ensures
            d == self.spec_dist(other),
            d == self.0 ^ other.0,
    {
        self.0 ^ other.0
    }
}

impl Cookie {
    /// A freshly drawn random token.
    pub fn new() -> (c: Cookie) {
        Cookie(random_u128())
    }
}

impl From<u128> for NodeId {
    fn from(item: u128) -> (id: NodeId) {
        NodeId(item)
    }
}

impl vstd::std_specs::convert::FromSpecImpl<u128> for NodeId {
    open spec fn obeys_from_spec() -> bool {
        true
    }

    open spec fn from_spec(item: u128) -> NodeId {
        NodeId(item)
    }
}

impl From<u128> for Cookie {
    fn from(item: u128) -> (c: Cookie) {
        Cookie(item)
    }
}

impl vstd::std_specs::convert::FromSpecImpl<u128> for Cookie {
    open spec fn obeys_from_spec() -> bool {
        true
    }

    open spec fn from_spec(item: u128) -> Cookie {
        Cookie(item)
    }
}

/// An identifier is at distance zero from itself, and from nothing else.
pub proof fn dist_zero_iff_same(a: NodeId, b: NodeId)
    ensures
        a.spec_dist(&a) == 0,
        a.spec_dist(&b) == 0 <==> a == b,
{
    let x = a.0;
    let y = b.0;
    assert(x ^ x == 0u128) by (bit_vector);
    assert((x ^ y == 0u128) <==> x == y) by (bit_vector);
}

/// Distance does not depend on the direction in which it is measured.
pub proof fn dist_symmetric(a: NodeId, b: NodeId)
    ensures
        a.spec_dist(&b) == b.spec_dist(&a),
{
    let x = a.0;
    let y = b.0;
    assert(x ^ y == y ^ x) by (bit_vector);
}

/// Triangle inequality. The sum on the right is taken over the mathematical
/// integers, so it holds in particular whenever that sum fits in 128 bits.
pub proof fn dist_triangle(a: NodeId, b: NodeId, c: NodeId)
    ensures
        a.spec_dist(&b) <= a.spec_dist(&c) + c.spec_dist(&b),
{
    let x = a.0;
    let y = b.0;
    let z = c.0;
    assert((x ^ y) <= (x ^ z) + (z ^ y)) by (bit_vector);
}

/// Seen from one fixed target, two different identifiers never lie at the
/// same distance: closeness orders identifiers without ties.
pub proof fn dist_unique(target: NodeId, a: NodeId, b: NodeId)
    ensures
        a.spec_dist(&target) == b.spec_dist(&target) <==> a == b,
{
    let t = target.0;
    let x = a.0;
    let y = b.0;
    assert((x ^ t == y ^ t) <==> x == y) by (bit_vector);
}

} // verus!
