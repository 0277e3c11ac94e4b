//! A small mapping from positions to blooms.
//!
//! `insert` and `replace` hand their result back as such a mapping: the diff
//! the caller must persist atomically. It is backed by a vector of entries
//! with pairwise distinct keys and viewed as a `Map<Position, Bloom>`.

use vstd::map::*;
use vstd::prelude::*;

use crate::bloom::Bloom;
use crate::position::Position;

verus! {

/// The mapping described by a sequence of entries; a later entry with the
/// same key overrides an earlier one.
pub open spec fn seq_to_map(s: Seq<(Position, Bloom)>) -> Map<Position, Bloom>
    decreases s.len(),
{
    if s.len() == 0 {
        Map::empty()
    } else {
        seq_to_map(s.drop_last()).insert(s.last().0, s.last().1)
    }
}

/// True when the keys of `s` are pairwise distinct.
pub open spec fn distinct_keys(s: Seq<(Position, Bloom)>) -> bool {
    forall|i: int, j: int| 0 <= i < j < s.len() ==> (#[trigger] s[i]).0 != (#[trigger] s[j]).0
}

/// With distinct keys, the mapping holds exactly the entries of the sequence.
pub proof fn lemma_seq_to_map_entries(s: Seq<(Position, Bloom)>)
    requires
        distinct_keys(s),
    ensures
        forall|k: Position| #[trigger]
            seq_to_map(s).contains_key(k) ==> exists|i: int|
                0 <= i < s.len() && (#[trigger] s[i]).0 == k,
        forall|i: int|
            0 <= i < s.len() ==> seq_to_map(s).contains_key((#[trigger] s[i]).0) && seq_to_map(
                s,
            )[s[i].0] == s[i].1,
        seq_to_map(s).dom().finite(),
        seq_to_map(s).dom().len() == s.len(),
    decreases s.len(),
{
    if s.len() > 0 {
        let t = s.drop_last();
        lemma_seq_to_map_entries(t);
        assert(forall|i: int| 0 <= i < t.len() ==> t[i] == s[i]);
        assert(!seq_to_map(t).contains_key(s.last().0)) by {
            if seq_to_map(t).contains_key(s.last().0) {
                let i = choose|i: int| 0 <= i < t.len() && (#[trigger] t[i]).0 == s.last().0;
                assert(s[i].0 == s[s.len() - 1].0);
            }
        }
    }
}

/// A mapping from tree slots to blooms, with value semantics: the diff that
/// an update computes and the caller persists.
pub struct PositionMap {
    entries: Vec<(Position, Bloom)>,
}

impl View for PositionMap {
    type V = Map<Position, Bloom>;

    closed spec fn view(&self) -> Map<Position, Bloom> {
        seq_to_map(self.entries@)
    }
}

impl PositionMap {
    /// The entries in insertion order.
    pub closed spec fn entries_seq(&self) -> Seq<(Position, Bloom)> {
        self.entries@
    }

    /// The number of entries.
    pub open spec fn spec_len(&self) -> nat {
        self.entries_seq().len()
    }

    /// Well-formedness: the entry keys are pairwise distinct, so the entry
    /// count is the size of the mapping's domain.
    pub open spec fn wf(&self) -> bool {
        distinct_keys(self.entries_seq())
    }

    /// The mapping restricted to the first `i` entries.
    pub open spec fn prefix(&self, i: int) -> Map<Position, Bloom> {
        seq_to_map(self.entries_seq().take(i))
    }

    /// Relates the entries to the mapping: each entry is in it, every key of
    /// it comes from an entry, and the entry count is the domain size.
    pub proof fn lemma_entries(&self)
        requires
            self.wf(),
        ensures
            forall|k: Position| #[trigger]
                self@.contains_key(k) ==> exists|i: int|
                    0 <= i < self.entries_seq().len() && (#[trigger] self.entries_seq()[i]).0 == k,
            forall|i: int|
                0 <= i < self.entries_seq().len() ==> self@.contains_key(
                    (#[trigger] self.entries_seq()[i]).0,
                ) && self@[self.entries_seq()[i].0] == self.entries_seq()[i].1,
            self@.dom().finite(),
            self@.dom().len() == self.spec_len(),
    {
        lemma_seq_to_map_entries(self.entries@);
    }

    /// The whole mapping is the prefix of all entries.
    pub proof fn lemma_prefix_full(&self)
        ensures
            self.prefix(self.spec_len() as int) == self@,
    {
        assert(self.entries_seq().take(self.spec_len() as int) =~= self.entries_seq());
    }

    /// Taking one more entry inserts that entry into the prefix mapping.
    pub proof fn lemma_prefix_step(&self, i: int)
        requires
            0 <= i < self.spec_len(),
        ensures
            self.prefix(i + 1) == self.prefix(i).insert(
                self.entries_seq()[i].0,
                self.entries_seq()[i].1,
            ),
    {
        let s = self.entries_seq();
        assert(s.take(i + 1).drop_last() =~= s.take(i));
        assert(s.take(i + 1).last() == s[i]);
    }

    /// An empty mapping.
    pub fn new() -> (r: PositionMap)
        ensures
            r.wf(),
            r@ == Map::<Position, Bloom>::empty(),
            r.spec_len() == 0,
    {
        PositionMap { entries: Vec::new() }
    }

    /// The number of entries.
    pub fn len(&self) -> (r: usize)
        ensures
            r == self.spec_len(),
    {
        self.entries.len()
    }

    /// The `i`-th entry.
    pub fn entry_at(&self, i: usize) -> (r: (Position, Bloom))
        requires
            i < self.spec_len(),
        ensures
            r == self.entries_seq()[i as int],
    {
        self.entries[i]
    }

    /// Looks a position up.
    pub fn get(&self, p: &Position) -> (r: Option<Bloom>)
        requires
            self.wf(),
        ensures
            r == if self@.contains_key(*p) {
                Some(self@[*p])
            } else {
                None::<Bloom>
            },
    {
        proof {
            self.lemma_entries();
        }
        let n = self.entries.len();
        let mut i: usize = 0;
        while i < n
            invariant
                0 <= i <= n,
                n == self.entries_seq().len(),
                self.wf(),
                forall|j: int| 0 <= j < i ==> (#[trigger] self.entries_seq()[j]).0 != *p,
            decreases n - i,
        {
            let (k, v) = self.entries[i];
            if k == *p {
                proof {
                    self.lemma_entries();
                }
                return Some(v);
            }
            i = i + 1;
        }
        proof {
            self.lemma_entries();
            if self@.contains_key(*p) {
                let j = choose|j: int|
                    0 <= j < self.entries_seq().len() && (#[trigger] self.entries_seq()[j]).0 == *p;
            }
        }
        None
    }

    /// Binds `p` to `b`, overriding an earlier binding of `p` if there is one.
    pub fn insert(&mut self, p: Position, b: Bloom)
        requires
            old(self).wf(),
        ensures
            final(self).wf(),
            final(self)@ == old(self)@.insert(p, b),
            final(self).spec_len() == old(self).spec_len() + (if old(self)@.contains_key(p) {
                0int
            } else {
                1int
            }),
    {
        proof {
            self.lemma_entries();
        }
        let ghost s0 = self.entries@;
        let n = self.entries.len();
        let mut i: usize = 0;
        while i < n
            invariant
                0 <= i <= n,
                n == self.entries_seq().len(),
                self.wf(),
                self.entries@ == s0,
                s0 == old(self).entries@,
                forall|j: int| 0 <= j < i ==> (#[trigger] self.entries_seq()[j]).0 != p,
            decreases n - i,
        {
            let (k, _) = self.entries[i];
            if k == p {
                self.entries.set(i, (p, b));
                proof {
                    let s1 = self.entries@;
                    assert(distinct_keys(s1)) by {
                        assert(forall|j: int|
                            0 <= j < s1.len() && j != i ==> s1[j] == s0[j] && (#[trigger] s1[j]).0
                                == s0[j].0);
                    }
                    lemma_seq_to_map_entries(s0);
                    lemma_seq_to_map_entries(s1);
                    assert(seq_to_map(s1) =~= seq_to_map(s0).insert(p, b)) by {
                        assert forall|k2: Position| #[trigger]
                            seq_to_map(s0).insert(p, b).contains_key(k2) implies seq_to_map(
                            s1,
                        ).contains_key(k2) && seq_to_map(s1)[k2] == seq_to_map(s0).insert(p, b)[k2]
                        by {
                            if k2 == p {
                                assert(s1[i as int].0 == p);
                            } else {
                                let j = choose|j: int|
                                    0 <= j < s0.len() && (#[trigger] s0[j]).0 == k2;
                                assert(s1[j] == s0[j]);
                            }
                        }
                        assert forall|k2: Position| #[trigger]
                            seq_to_map(s1).contains_key(k2) implies seq_to_map(s0).insert(
                            p,
                            b,
                        ).contains_key(k2) by {
                            let j = choose|j: int| 0 <= j < s1.len() && (#[trigger] s1[j]).0 == k2;
                            if j != i {
                                assert(s1[j] == s0[j]);
                            }
                        }
                    }
                }
                return ;
            }
            i = i + 1;
        }
        proof {
            if old(self)@.contains_key(p) {
                let j = choose|j: int|
                    0 <= j < self.entries_seq().len() && (#[trigger] self.entries_seq()[j]).0 == p;
            }
        }
        self.entries.push((p, b));
        proof {
            assert(self.entries@.drop_last() =~= s0);
            assert(distinct_keys(self.entries@)) by {
                assert(forall|j: int|
                    0 <= j < s0.len() ==> self.entries@[j] == s0[j] && (
                    #[trigger] self.entries@[j]).0 == s0[j].0);
            }
        }
    }
}

} // verus!
