//! Slot addressing for the multi-level aggregation tree.
//!
//! Level 0 has one slot per record number; a slot of level `l` covers
//! `B^l` consecutive numbers, where `B` is the branching factor. The slot of
//! level `l` covering number `n` has index `n / B^l`, and the slot `(l, i)`
//! with `l > 0` aggregates the child slots `(l - 1, i*B) .. (l - 1, i*B + B - 1)`.

use vstd::arithmetic::div_mod::{
    lemma_div_denominator, lemma_div_is_ordered, lemma_div_multiples_vanish_fancy,
    lemma_div_pos_is_pos, lemma_fundamental_div_mod, lemma_mod_division_less_than_divisor,
    lemma_remainder_lower,
};
use vstd::arithmetic::mul::lemma_mul_is_commutative;
use vstd::arithmetic::power::{lemma_pow_increases, lemma_pow_positive, pow};
use vstd::prelude::*;

use crate::number::Number;

verus! {

/// A structural key `(level, index)` naming one slot of the tree.
#[derive(Clone, Copy, PartialEq, Eq, Structural, Debug, Hash)]
pub struct Position {
    pub level: usize,
    pub index: usize,
}

/// The index of the slot of `level` that covers number `n`, in a tree with
/// branching factor `bf`.
pub open spec fn slot_index(bf: nat, n: Number, level: usize) -> int {
    n as int / pow(bf as int, level as nat)
}

/// The slot of `level` that covers number `n`.
pub open spec fn pos_at(bf: nat, n: Number, level: usize) -> Position {
    Position { level, index: slot_index(bf, n, level) as usize }
}

/// The `j`-th child of slot `p` (which must have `p.level >= 1`).
pub open spec fn child_at(bf: nat, p: Position, j: int) -> Position {
    Position {
        level: (p.level - 1) as usize,
        index: (p.index as int * bf as int + j) as usize,
    }
}

/// Slot indices lie between 0 and the number they cover.
pub proof fn lemma_slot_index_bounds(bf: nat, n: Number, level: usize)
    requires
        bf >= 1,
    ensures
        0 <= slot_index(bf, n, level) <= n,
        pos_at(bf, n, level).index == slot_index(bf, n, level),
{
    let p = pow(bf as int, level as nat);
    lemma_pow_positive(bf as int, level as nat);
    lemma_div_pos_is_pos(n as int, p);
    lemma_div_is_ordered_by_one(n as int, p);
}

/// Dividing a non-negative number by a positive divisor does not increase it.
proof fn lemma_div_is_ordered_by_one(x: int, d: int)
    requires
        x >= 0,
        d >= 1,
    ensures
        x / d <= x,
        x / d >= 0,
{
    lemma_div_pos_is_pos(x, d);
    lemma_fundamental_div_mod(x, d);
    lemma_mod_division_less_than_divisor(x, d);
    lemma_remainder_lower(x, d);
    assert(x / d * d <= x);
    vstd::arithmetic::mul::lemma_mul_inequality(1, d, x / d);
    lemma_mul_is_commutative(x / d, d);
}

/// The slot covering `n` one level up is found by dividing the index of the
/// slot below by the branching factor.
pub proof fn lemma_slot_index_compose(bf: nat, n: Number, level: usize)
    requires
        bf >= 1,
        level >= 1,
    ensures
        slot_index(bf, n, level) == slot_index(bf, n, (level - 1) as usize) / bf as int,
{
    let b = bf as int;
    let pl = pow(b, (level - 1) as nat);
    lemma_pow_positive(b, (level - 1) as nat);
    assert(pow(b, level as nat) == b * pl) by {
        reveal(pow);
        assert(level as nat == ((level - 1) as nat + 1) as nat);
    }
    lemma_div_denominator(n as int, pl, b);
    lemma_mul_is_commutative(pl, b);
}

/// The child slots of the parent of slot `m` (at the parent's level) span the
/// indices `q*B .. q*B + B - 1`, and `m` lies among them.
pub proof fn lemma_child_within_parent(bf: nat, m: int, q: int)
    requires
        bf >= 1,
        m >= 0,
        q == m / bf as int,
    ensures
        q * bf as int <= m <= q * bf as int + bf as int - 1,
{
    lemma_fundamental_div_mod(m, bf as int);
    lemma_mod_division_less_than_divisor(m, bf as int);
    lemma_remainder_lower(m, bf as int);
    lemma_mul_is_commutative(q, bf as int);
}

/// A child index `q*B + j` with `0 <= j < B` divides back to its parent `q`.
pub proof fn lemma_parent_of_child(bf: nat, q: int, j: int)
    requires
        bf >= 1,
        q >= 0,
        0 <= j < bf,
    ensures
        (q * bf as int + j) / bf as int == q,
{
    lemma_div_multiples_vanish_fancy(q, j, bf as int);
    lemma_mul_is_commutative(q, bf as int);
}

/// Rounding down to a multiple of the divisor does not increase a number.
pub proof fn lemma_div_mul_le(x: int, d: int)
    requires
        x >= 0,
        d >= 1,
    ensures
        (x / d) * d <= x,
        x / d >= 0,
{
    lemma_div_pos_is_pos(x, d);
    lemma_fundamental_div_mod(x, d);
    lemma_remainder_lower(x, d);
}

/// A multiple of the divisor divides back to the multiplier.
pub proof fn lemma_mul_div_exact(x: int, d: int)
    requires
        x >= 0,
        d >= 1,
    ensures
        (x * d) / d == x,
{
    vstd::arithmetic::div_mod::lemma_div_multiples_vanish(x, d);
    lemma_mul_is_commutative(x, d);
}

/// Slot indices grow with the number they cover.
pub proof fn lemma_slot_index_monotone(bf: nat, a: Number, b: Number, level: usize)
    requires
        bf >= 1,
        a <= b,
    ensures
        slot_index(bf, a, level) <= slot_index(bf, b, level),
{
    lemma_pow_positive(bf as int, level as nat);
    lemma_div_is_ordered(a as int, b as int, pow(bf as int, level as nat));
}

/// At level 0 each number is its own slot index.
pub proof fn lemma_slot_index_level0(bf: nat, n: Number)
    requires
        bf >= 1,
    ensures
        slot_index(bf, n, 0) == n,
        pos_at(bf, n, 0) == (Position { level: 0, index: n }),
{
    reveal(pow);
    assert(pow(bf as int, 0) == 1);
}

/// Derived addressing parameters of one tree shape: the branching factor and
/// the precomputed size `B^l` of every level.
pub struct PositionManager {
    index_size: usize,
    level_sizes: Vec<usize>,
}

impl PositionManager {
    /// The branching factor `B`.
    pub closed spec fn bf(&self) -> nat {
        self.index_size as nat
    }

    /// The number of levels `L`.
    pub closed spec fn spec_levels(&self) -> nat {
        self.level_sizes@.len()
    }

    /// Well-formedness: at least one level, branching factor at least one,
    /// and the cached level sizes are the powers of the branching factor.
    pub closed spec fn wf(&self) -> bool {
        &&& self.index_size >= 1
        &&& self.level_sizes@.len() >= 1
        &&& forall|l: int|
            0 <= l < self.level_sizes@.len() ==> #[trigger] self.level_sizes@[l] as int == pow(
                self.index_size as int,
                l as nat,
            )
    }

    /// A well-formed manager has a branching factor and at least one level.
    pub proof fn lemma_wf_bounds(&self)
        requires
            self.wf(),
        ensures
            self.bf() >= 1,
            self.spec_levels() >= 1,
    {
    }

    /// Builds the addressing parameters for branching factor `index_size` and
    /// `levels` levels. The size of the coarsest level must fit the machine.
    pub fn new(index_size: usize, levels: usize) -> (r: PositionManager)
        requires
            index_size >= 1,
            levels >= 1,
            pow(index_size as int, (levels - 1) as nat) <= usize::MAX,
        ensures
            r.wf(),
            r.bf() == index_size as nat,
            r.spec_levels() == levels as nat,
    {
        let mut level_sizes: Vec<usize> = Vec::new();
        level_sizes.push(1);
        proof {
            reveal(pow);
        }
        let mut l: usize = 1;
        while l < levels
            invariant
                1 <= l <= levels,
                index_size >= 1,
                level_sizes@.len() == l,
                pow(index_size as int, (levels - 1) as nat) <= usize::MAX,
                forall|k: int|
                    0 <= k < l ==> #[trigger] level_sizes@[k] as int == pow(
                        index_size as int,
                        k as nat,
                    ),
            decreases levels - l,
        {
            let prev = level_sizes[l - 1];
            proof {
                assert(pow(index_size as int, l as nat) == index_size as int * pow(
                    index_size as int,
                    (l - 1) as nat,
                )) by {
                    reveal(pow);
                }
                lemma_mul_is_commutative(index_size as int, pow(index_size as int, (l - 1) as nat));
                lemma_pow_increases(index_size as nat, l as nat, (levels - 1) as nat);
            }
            let next = prev * index_size;
            level_sizes.push(next);
            l = l + 1;
        }
        PositionManager { index_size, level_sizes }
    }

    /// The number of levels `L`.
    pub fn levels(&self) -> (r: usize)
        ensures
            r as nat == self.spec_levels(),
    {
        self.level_sizes.len()
    }

    /// The coarsest level, `L - 1`.
    pub fn max_level(&self) -> (r: usize)
        requires
            self.wf(),
        ensures
            r as nat == self.spec_levels() - 1,
    {
        self.level_sizes.len() - 1
    }

    /// The number of record numbers covered by one slot of `level`: `B^level`.
    pub fn level_size(&self, level: usize) -> (r: usize)
        requires
            self.wf(),
            (level as nat) < self.spec_levels(),
        ensures
            r as int == pow(self.bf() as int, level as nat),
            r >= 1,
    {
        proof {
            lemma_pow_positive(self.index_size as int, level as nat);
        }
        self.level_sizes[level]
    }

    /// The slot of `level` covering number `n`.
    pub fn position(&self, n: Number, level: usize) -> (r: Position)
        requires
            self.wf(),
            (level as nat) < self.spec_levels(),
        ensures
            r == pos_at(self.bf(), n, level),
            r.index as int == slot_index(self.bf(), n, level),
            r.level == level,
    {
        proof {
            lemma_slot_index_bounds(self.bf(), n, level);
        }
        let size = self.level_size(level);
        Position { level, index: n / size }
    }

    /// The `B` child slots of `p` at the level below. The child indices must
    /// fit the machine.
    pub fn lower_level_positions(&self, p: &Position) -> (r: Vec<Position>)
        requires
            self.wf(),
            1 <= p.level,
            (p.level as nat) < self.spec_levels(),
            p.index as int * self.bf() as int + self.bf() as int - 1 <= usize::MAX,
        ensures
            r@.len() == self.bf(),
            forall|j: int| 0 <= j < r@.len() ==> #[trigger] r@[j] == child_at(self.bf(), *p, j),
    {
        let base = p.index * self.index_size;
        let child_level = p.level - 1;
        let mut r: Vec<Position> = Vec::new();
        let mut j: usize = 0;
        while j < self.index_size
            invariant
                0 <= j <= self.index_size,
                base as int == p.index as int * self.index_size as int,
                base as int + self.index_size as int - 1 <= usize::MAX,
                child_level == p.level - 1,
                p.level >= 1,
                r@.len() == j,
                forall|k: int|
                    0 <= k < j ==> #[trigger] r@[k] == child_at(self.index_size as nat, *p, k),
            decreases self.index_size - j,
        {
            r.push(Position { level: child_level, index: base + j });
            j = j + 1;
        }
        r
    }
}

} // verus!
