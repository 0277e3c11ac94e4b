//! The read accessor the chain consumes, and an in-memory implementation.
//!
//! The store is sparse: a slot that was never written is absent, which the
//! search treats differently from a present all-zero bloom.

use vstd::map::*;
use vstd::prelude::*;

use crate::bloom::Bloom;
use crate::position::Position;
use crate::position_map::PositionMap;

verus! {

/// A sparse, read-only view of the persisted tree: a mapping from slots to
/// blooms in which absence means "nothing was ever recorded here".
pub trait BloomDatabase {
    /// The abstract content of the store.
    spec fn db(&self) -> Map<Position, Bloom>;

    /// An implementation-chosen well-formedness condition that reads rely on.
    spec fn inv(&self) -> bool;

    /// Reads the bloom stored at `position`, or `None` if the slot is absent.
    fn bloom_at(&self, position: &Position) -> (r: Option<Bloom>)
        requires
            self.inv(),
        ensures
            r == if self.db().contains_key(*position) {
                Some(self.db()[*position])
            } else {
                None::<Bloom>
            },
    ;
}

/// An in-memory store, suitable for tests and small indexes: it holds the
/// persisted mapping directly and applies returned diffs to it.
pub struct MemoryDatabase {
    map: PositionMap,
}

impl BloomDatabase for MemoryDatabase {
    closed spec fn db(&self) -> Map<Position, Bloom> {
        self.map@
    }

    closed spec fn inv(&self) -> bool {
        self.map.wf()
    }

    fn bloom_at(&self, position: &Position) -> (r: Option<Bloom>) {
        self.map.get(position)
    }
}

impl MemoryDatabase {
    /// An empty store.
    pub fn new() -> (r: MemoryDatabase)
        ensures
            r.inv(),
            r.db() == Map::<Position, Bloom>::empty(),
    {
        MemoryDatabase { map: PositionMap::new() }
    }

    /// Persists a diff atomically: every entry of `diff` is written, and the
    /// new content binds each position of `diff` over the old content.
    pub fn apply(&mut self, diff: &PositionMap)
        requires
            old(self).inv(),
            diff.wf(),
        ensures
            final(self).inv(),
            final(self).db() == old(self).db().union_prefer_right(diff@),
    {
        let ghost db0 = self.map@;
        proof {
            assert(db0.union_prefer_right(diff.prefix(0)) =~= db0);
        }
        let n = diff.len();
        let mut i: usize = 0;
        while i < n
            invariant
                0 <= i <= n,
                n == diff.spec_len(),
                diff.wf(),
                self.map.wf(),
                db0 == old(self).map@,
                self.map@ == db0.union_prefer_right(diff.prefix(i as int)),
            decreases n - i,
        {
            let (p, b) = diff.entry_at(i);
            self.map.insert(p, b);
            proof {
                diff.lemma_prefix_step(i as int);
                assert(db0.union_prefer_right(diff.prefix(i as int)).insert(p, b)
                    =~= db0.union_prefer_right(diff.prefix(i as int + 1)));
            }
            i = i + 1;
        }
        proof {
            diff.lemma_prefix_full();
        }
    }
}

} // verus!
