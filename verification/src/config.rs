//! The shape configuration of a chain.

use vstd::prelude::*;

verus! {

/// Fixes the tree shape: `elements_per_index` is the branching factor `B`
/// (how many lower-level slots one higher-level slot aggregates) and
/// `levels` is the level count `L`.
#[derive(Clone, Copy, PartialEq, Eq, Structural, Debug)]
pub struct Config {
    pub elements_per_index: usize,
    pub levels: usize,
}

} // verus!
