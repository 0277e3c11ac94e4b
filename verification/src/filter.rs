//! The query descriptor the chain consumes.

use vstd::prelude::*;

use crate::bloom::Bloom;
use crate::number::NumberRange;

verus! {

/// Describes one query: a range of record numbers and the candidate blooms;
/// a record matches when its bloom contains any one candidate.
pub trait Filter {
    /// The queried range.
    spec fn spec_range(&self) -> NumberRange;

    /// The candidate blooms, in order.
    spec fn spec_possibilities(&self) -> Seq<Bloom>;

    /// Returns the queried range.
    fn range(&self) -> (r: NumberRange)
        ensures
            r == self.spec_range(),
    ;

    /// Returns the candidate blooms.
    fn bloom_possibilities(&self) -> (r: Vec<Bloom>)
        ensures
            r@ == self.spec_possibilities(),
    ;
}

/// A ready-made query descriptor holding its range and candidates directly.
pub struct RangeFilter {
    range: NumberRange,
    possibilities: Vec<Bloom>,
}

impl RangeFilter {
    /// Builds a query over `range` matching any of `possibilities`.
    pub fn new(range: NumberRange, possibilities: Vec<Bloom>) -> (r: RangeFilter)
        ensures
            r.spec_range() == range,
            r.spec_possibilities() == possibilities@,
    {
        RangeFilter { range, possibilities }
    }
}

impl Filter for RangeFilter {
    closed spec fn spec_range(&self) -> NumberRange {
        self.range
    }

    closed spec fn spec_possibilities(&self) -> Seq<Bloom> {
        self.possibilities@
    }

    fn range(&self) -> (r: NumberRange) {
        self.range
    }

    fn bloom_possibilities(&self) -> (r: Vec<Bloom>) {
        let mut r: Vec<Bloom> = Vec::new();
        let n = self.possibilities.len();
        let mut i: usize = 0;
        while i < n
            invariant
                0 <= i <= n,
                n == self.possibilities@.len(),
                r@ == self.possibilities@.take(i as int),
            decreases n - i,
        {
            r.push(self.possibilities[i]);
            proof {
                assert(self.possibilities@.take(i as int).push(self.possibilities@[i as int])
                    =~= self.possibilities@.take(i as int + 1));
            }
            i = i + 1;
        }
        proof {
            assert(self.possibilities@.take(n as int) =~= self.possibilities@);
        }
        r
    }
}

} // verus!
