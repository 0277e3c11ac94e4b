//! Record numbers and inclusive ranges of them.

use vstd::prelude::*;

verus! {

/// Identifies one record (for example a block height).
pub type Number = usize;

/// An inclusive range of record numbers: every `n` with
/// `start <= n <= end` belongs to it.
#[derive(Clone, Copy, PartialEq, Eq, Structural, Debug)]
pub struct NumberRange {
    pub start: Number,
    pub end: Number,
}

impl NumberRange {
    /// True when the range is well formed, that is non-empty.
    pub open spec fn wf(&self) -> bool {
        self.start <= self.end
    }

    /// Builds the inclusive range `[start, end]`.
    pub fn new(start: Number, end: Number) -> (r: NumberRange)
        requires
            start <= end,
        ensures
            r.start == start,
            r.end == end,
    {
        NumberRange { start, end }
    }
}

} // verus!
