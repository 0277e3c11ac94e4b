//! The bloom value type and its algebra.
//!
//! A bloom is a fixed-width bit vector. The index never inspects how bits get
//! populated from record contents; it only relies on the algebra below:
//! `union` is the bitwise or, `contains(a, b)` holds when every bit set in `b`
//! is also set in `a`, and the default value has no bit set and is the
//! identity of `union`.

use vstd::prelude::*;

verus! {

/// A fixed-width bit-vector membership filter.
#[derive(Clone, Copy, PartialEq, Eq, Structural, Debug)]
pub struct Bloom {
    pub bits: u64,
}

/// True when every bit set in `b` is also set in `a`.
pub open spec fn spec_contains(a: Bloom, b: Bloom) -> bool {
    a.bits | b.bits == a.bits
}

/// The union of two blooms: the bitwise or of their bit patterns.
pub open spec fn spec_union(a: Bloom, b: Bloom) -> Bloom {
    Bloom { bits: a.bits | b.bits }
}

/// The all-zero bloom.
pub open spec fn spec_empty() -> Bloom {
    Bloom { bits: 0 }
}

impl Bloom {
    /// Builds a bloom from its raw bit pattern.
    pub fn new(bits: u64) -> (r: Bloom)
        ensures
            r.bits == bits,
    {
        Bloom { bits }
    }

    /// Returns the union of `self` and `other`.
    pub fn union(&self, other: &Bloom) -> (r: Bloom)
        ensures
            r == spec_union(*self, *other),
    {
        Bloom { bits: self.bits | other.bits }
    }

    /// True when every bit set in `other` is also set in `self`.
    pub fn contains(&self, other: &Bloom) -> (r: bool)
        ensures
            r == spec_contains(*self, *other),
    {
        (self.bits | other.bits) == self.bits
    }
}

impl Default for Bloom {
    /// The all-zero bloom.
    fn default() -> (r: Bloom)
        ensures
            r == spec_empty(),
    {
        Bloom { bits: 0 }
    }
}

/// `union` is commutative.
pub proof fn lemma_union_commutative(a: Bloom, b: Bloom)
    ensures
        spec_union(a, b) == spec_union(b, a),
{
    let (x, y) = (a.bits, b.bits);
    assert(x | y == y | x) by (bit_vector);
}

/// `union` is associative.
pub proof fn lemma_union_associative(a: Bloom, b: Bloom, c: Bloom)
    ensures
        spec_union(spec_union(a, b), c) == spec_union(a, spec_union(b, c)),
{
    let (x, y, z) = (a.bits, b.bits, c.bits);
    assert((x | y) | z == x | (y | z)) by (bit_vector);
}

/// `union` is idempotent.
pub proof fn lemma_union_idempotent(a: Bloom)
    ensures
        spec_union(a, a) == a,
{
    let x = a.bits;
    assert(x | x == x) by (bit_vector);
}

/// The all-zero bloom is the identity of `union`.
pub proof fn lemma_union_identity(a: Bloom)
    ensures
        spec_union(a, spec_empty()) == a,
        spec_union(spec_empty(), a) == a,
{
    let x = a.bits;
    assert(x | 0u64 == x) by (bit_vector);
    assert(0u64 | x == x) by (bit_vector);
}

/// A union contains both of its operands.
pub proof fn lemma_union_contains_operands(a: Bloom, b: Bloom)
    ensures
        spec_contains(spec_union(a, b), a),
        spec_contains(spec_union(a, b), b),
{
    let (x, y) = (a.bits, b.bits);
    assert((x | y) | x == x | y) by (bit_vector);
    assert((x | y) | y == x | y) by (bit_vector);
}

/// The two outer operands of a nested union can be exchanged.
pub proof fn lemma_union_exchange(u: Bloom, b: Bloom, x: Bloom)
    ensures
        spec_union(spec_union(u, b), x) == spec_union(spec_union(u, x), b),
{
    let (a, c, d) = (u.bits, b.bits, x.bits);
    assert((a | c) | d == (a | d) | c) by (bit_vector);
}

/// `contains` is transitive.
pub proof fn lemma_contains_transitive(a: Bloom, b: Bloom, c: Bloom)
    requires
        spec_contains(a, b),
        spec_contains(b, c),
    ensures
        spec_contains(a, c),
{
    let (x, y, z) = (a.bits, b.bits, c.bits);
    assert((x | y == x && y | z == y) ==> x | z == x) by (bit_vector);
}

/// Growing one operand of a union grows the union.
pub proof fn lemma_union_monotonic(a: Bloom, b: Bloom, c: Bloom)
    requires
        spec_contains(a, c),
    ensures
        spec_contains(spec_union(a, b), c),
{
    let (x, y, z) = (a.bits, b.bits, c.bits);
    assert((x | z == x) ==> ((x | y) | z == x | y)) by (bit_vector);
}

} // verus!
