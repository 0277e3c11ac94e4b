//! The indexing and query engine.
//!
//! A `BloomChain` combines the addressing math of `PositionManager` with the
//! bloom algebra to compute incremental updates (`insert`), bulk rewrites
//! (`replace`) and pruning searches (`with_bloom`, `filter`) over a sparse
//! store of slot blooms. Updates never write to the store: they return the
//! diff the caller must persist atomically.

use vstd::arithmetic::power::pow;
use vstd::map::*;
use vstd::prelude::*;

use crate::bloom::{spec_contains, spec_empty, spec_union, Bloom};
use crate::config::Config;
use crate::database::BloomDatabase;
use crate::filter::Filter;
use crate::number::{Number, NumberRange};
use crate::position::{
    child_at, lemma_child_within_parent, lemma_div_mul_le, lemma_mul_div_exact,
    lemma_parent_of_child, lemma_slot_index_bounds,
    lemma_slot_index_compose, lemma_slot_index_level0, lemma_slot_index_monotone, pos_at,
    slot_index, Position, PositionManager,
};
use crate::position_map::PositionMap;

verus! {

/// The bloom stored at `p`, taking an absent slot as the all-zero bloom.
pub open spec fn slot(db: Map<Position, Bloom>, p: Position) -> Bloom {
    if db.contains_key(p) {
        db[p]
    } else {
        spec_empty()
    }
}

/// The diff `insert(n, b)` returns: for every level `l`, the slot covering
/// `n` is bound to the union of its stored bloom (all-zero if absent) and `b`.
pub open spec fn insert_diff(
    db: Map<Position, Bloom>,
    bf: nat,
    levels: nat,
    n: Number,
    b: Bloom,
) -> Map<Position, Bloom> {
    Map::new(
        |p: Position| (p.level as nat) < levels && p == pos_at(bf, n, p.level),
        |p: Position| spec_union(slot(db, p), b),
    )
}

/// What a child slot is worth while recomputing its parent: the diff being
/// built where it binds the child, else the store, else the all-zero bloom.
pub open spec fn child_lookup(
    d: Map<Position, Bloom>,
    db: Map<Position, Bloom>,
    c: Position,
) -> Bloom {
    if d.contains_key(c) {
        d[c]
    } else if db.contains_key(c) {
        db[c]
    } else {
        spec_empty()
    }
}

/// The union of the first `k` children of `q`, each child valued by
/// `child_lookup`.
pub open spec fn children_union(
    d: Map<Position, Bloom>,
    db: Map<Position, Bloom>,
    bf: nat,
    q: Position,
    k: nat,
) -> Bloom
    decreases k,
{
    if k == 0 {
        spec_empty()
    } else {
        spec_union(
            children_union(d, db, bf, q, (k - 1) as nat),
            child_lookup(d, db, child_at(bf, q, k - 1)),
        )
    }
}

/// The last level-0 slot `replace` touches: the written span may exceed the
/// reset range.
pub open spec fn replace_hi(start: Number, end: Number, len: nat) -> int {
    if start + len - 1 > end {
        start + len - 1
    } else {
        end as int
    }
}

/// The domain of the diff `replace` returns: every touched level-0 slot, and
/// for each written index its covering slot at every higher level.
pub open spec fn replace_dom(
    bf: nat,
    levels: nat,
    start: Number,
    end: Number,
    len: nat,
    p: Position,
) -> bool {
    ||| (p.level == 0 && start <= p.index <= replace_hi(start, end, len))
    ||| (1 <= p.level && (p.level as nat) < levels && exists|i: int|
        0 <= i < len && p == #[trigger] pos_at(bf, (start + i) as usize, p.level))
}

/// Characterizes the diff `replace(range, blooms)` returns: the written
/// level-0 slots carry the new blooms, the remaining level-0 slots of the
/// range are reset to the all-zero bloom, and each higher-level slot covering
/// a written index is recomputed as the union over its children, a child
/// taken from the diff where the diff binds it, else from the store.
pub open spec fn is_replace_diff(
    d: Map<Position, Bloom>,
    db: Map<Position, Bloom>,
    bf: nat,
    levels: nat,
    start: Number,
    end: Number,
    blooms: Seq<Bloom>,
) -> bool {
    &&& (forall|p: Position| #[trigger]
        d.contains_key(p) <==> replace_dom(bf, levels, start, end, blooms.len(), p))
    &&& (forall|i: int|
        0 <= i < blooms.len() ==> #[trigger] d[Position { level: 0, index: (start + i) as usize }]
            == blooms[i])
    &&& (forall|n: Number|
        start + blooms.len() <= n <= end ==> #[trigger] d[Position { level: 0, index: n }]
            == spec_empty())
    &&& (forall|l: usize, i: int|
        1 <= l && (l as nat) < levels && 0 <= i < blooms.len() ==> #[trigger] d[pos_at(
            bf,
            (start + i) as usize,
            l,
        )] == children_union(d, db, bf, pos_at(bf, (start + i) as usize, l), bf))
}

/// Two diffs that value every child of `q` alike give the same union.
proof fn lemma_children_union_agree(
    d1: Map<Position, Bloom>,
    d2: Map<Position, Bloom>,
    db: Map<Position, Bloom>,
    bf: nat,
    q: Position,
    k: nat,
)
    requires
        forall|j: int|
            0 <= j < k ==> child_lookup(d1, db, #[trigger] child_at(bf, q, j)) == child_lookup(
                d2,
                db,
                child_at(bf, q, j),
            ),
    ensures
        children_union(d1, db, bf, q, k) == children_union(d2, db, bf, q, k),
    decreases k,
{
    if k > 0 {
        lemma_children_union_agree(d1, d2, db, bf, q, (k - 1) as nat);
    }
}

/// Binding a slot of any level other than `q`'s child level does not change
/// the union over `q`'s children.
proof fn lemma_children_union_insert_other_level(
    d: Map<Position, Bloom>,
    db: Map<Position, Bloom>,
    bf: nat,
    q: Position,
    k: nat,
    p2: Position,
    v: Bloom,
)
    requires
        q.level >= 1,
        p2.level != q.level - 1,
    ensures
        children_union(d.insert(p2, v), db, bf, q, k) == children_union(d, db, bf, q, k),
{
    assert forall|j: int| 0 <= j < k implies child_lookup(
        d.insert(p2, v),
        db,
        #[trigger] child_at(bf, q, j),
    ) == child_lookup(d, db, child_at(bf, q, j)) by {
        assert(child_at(bf, q, j).level == q.level - 1);
    }
    lemma_children_union_agree(d.insert(p2, v), d, db, bf, q, k);
}

/// Number `n` matches query bloom `q` at every level: each covering slot is
/// present in the store and its bloom contains `q`.
pub open spec fn matches_at_levels(
    db: Map<Position, Bloom>,
    bf: nat,
    levels: nat,
    n: Number,
    q: Bloom,
) -> bool {
    forall|l: usize|
        (l as nat) < levels ==> db.contains_key(#[trigger] pos_at(bf, n, l)) && spec_contains(
            db[pos_at(bf, n, l)],
            q,
        )
}

/// Concatenating sequences unions their elements.
proof fn lemma_seq_add_contains(a: Seq<Number>, b: Seq<Number>)
    ensures
        forall|n: Number| #[trigger] (a + b).contains(n) <==> a.contains(n) || b.contains(n),
{
    assert forall|n: Number| #[trigger] (a + b).contains(n) implies a.contains(n) || b.contains(n) by {
        let idx = choose|idx: int| 0 <= idx < (a + b).len() && (a + b)[idx] == n;
        if idx < a.len() {
            assert(a[idx] == n);
        } else {
            assert(b[idx - a.len()] == n);
        }
    }
    assert forall|n: Number| a.contains(n) || b.contains(n) implies #[trigger] (a + b).contains(
        n,
    ) by {
        if a.contains(n) {
            let idx = choose|idx: int| 0 <= idx < a.len() && a[idx] == n;
            assert((a + b)[idx] == n);
        } else {
            let idx = choose|idx: int| 0 <= idx < b.len() && b[idx] == n;
            assert((a + b)[a.len() + idx] == n);
        }
    }
}

/// Membership in the result of one search step: `n` lies under the slot of
/// `level` that covers `offset`, lies in the queried range when the step is
/// above level 0, and every slot covering `n` up to `level` is present and
/// contains `q`.
spec fn subtree_member(
    db: Map<Position, Bloom>,
    bf: nat,
    start: Number,
    end: Number,
    level: usize,
    offset: Number,
    n: Number,
    q: Bloom,
) -> bool {
    &&& pos_at(bf, n, level) == pos_at(bf, offset, level)
    &&& (level >= 1 ==> start <= n <= end)
    &&& forall|l: usize|
        l <= level ==> db.contains_key(#[trigger] pos_at(bf, n, l)) && spec_contains(
            db[pos_at(bf, n, l)],
            q,
        )
}

/// Membership contributed by the `j`-th child of `parent` (a slot of
/// `level >= 1`) during the search: the child's index lies in the covering
/// span of the queried range, and `n` is a member of the child's subtree.
spec fn child_member(
    db: Map<Position, Bloom>,
    bf: nat,
    start: Number,
    end: Number,
    level: usize,
    parent: Position,
    j: int,
    n: Number,
    q: Bloom,
) -> bool {
    let ci = parent.index as int * bf as int + j;
    &&& slot_index(bf, start, (level - 1) as usize) <= ci <= slot_index(
        bf,
        end,
        (level - 1) as usize,
    )
    &&& subtree_member(
        db,
        bf,
        start,
        end,
        (level - 1) as usize,
        (ci * pow(bf as int, (level - 1) as nat)) as usize,
        n,
        q,
    )
}

/// The numbers are in strictly ascending order, so without duplicates.
pub open spec fn strictly_sorted(s: Seq<Number>) -> bool {
    forall|i: int, j: int| 0 <= i < j < s.len() ==> s[i] < s[j]
}

/// Puts `x` into a strictly sorted vector, keeping it strictly sorted; a
/// number already present is not duplicated.
fn insert_sorted(v: &mut Vec<Number>, x: Number)
    requires
        strictly_sorted(old(v)@),
    ensures
        strictly_sorted(final(v)@),
        forall|y: Number| #[trigger] final(v)@.contains(y) <==> (old(v)@.contains(y) || y == x),
{
    let n = v.len();
    let mut i: usize = 0;
    while i < n && v[i] < x
        invariant
            0 <= i <= n,
            n == v@.len(),
            v@ == old(v)@,
            strictly_sorted(v@),
            forall|j: int| 0 <= j < i ==> v@[j] < x,
        decreases n - i,
    {
        i = i + 1;
    }
    if i < n {
        let cur = v[i];
        if cur == x {
            proof {
                assert forall|y: Number| #[trigger]
                    v@.contains(y) <==> (old(v)@.contains(y) || y == x) by {
                    if y == x {
                        assert(v@[i as int] == y);
                    }
                }
            }
            return ;
        }
    }
    let ghost s0 = v@;
    proof {
        assert(forall|j: int| i <= j < s0.len() ==> #[trigger] s0[j] > x) by {
            assert(i < s0.len() ==> s0[i as int] > x);
            assert(forall|j: int|
                (i as int) < j < s0.len() ==> s0[i as int] < #[trigger] s0[j]);
        }
    }
    v.insert(i, x);
    proof {
        s0.insert_ensures(i as int, x);
        assert forall|a: int, b: int| 0 <= a < b < v@.len() implies v@[a] < v@[b] by {
            if b < i {
                assert(v@[a] == s0[a] && v@[b] == s0[b]);
            } else if b == i {
                assert(v@[a] == s0[a] && v@[b] == x);
            } else {
                assert(v@[b] == s0[b - 1]);
                if a < i {
                    assert(v@[a] == s0[a]);
                } else if a == i {
                    assert(v@[a] == x);
                } else {
                    assert(v@[a] == s0[a - 1]);
                }
            }
        }
        assert forall|y: Number| #[trigger] v@.contains(y) <==> (s0.contains(y) || y == x) by {
            if v@.contains(y) {
                let idx = choose|idx: int| 0 <= idx < v@.len() && v@[idx] == y;
                if idx < i {
                    assert(s0[idx] == y);
                } else if idx > i {
                    assert(s0[idx - 1] == y);
                }
            }
            if s0.contains(y) {
                let idx = choose|idx: int| 0 <= idx < s0.len() && s0[idx] == y;
                if idx < i {
                    assert(v@[idx] == y);
                } else {
                    assert(v@[idx + 1] == y);
                }
            }
            if y == x {
                assert(v@[i as int] == y);
            }
        }
    }
}

/// Membership contributed by the top-level slot of index `t` during a search:
/// `n` lies under it and is a member of its subtree.
spec fn top_member(
    db: Map<Position, Bloom>,
    bf: nat,
    start: Number,
    end: Number,
    max_level: usize,
    t: int,
    n: Number,
    q: Bloom,
) -> bool {
    &&& slot_index(bf, n, max_level) == t
    &&& subtree_member(
        db,
        bf,
        start,
        end,
        max_level,
        (t * pow(bf as int, max_level as nat)) as usize,
        n,
        q,
    )
}

/// Prepares all bloom database operations.
pub struct BloomChain<'a, D: BloomDatabase> {
    positioner: PositionManager,
    db: &'a D,
}

impl<'a, D: BloomDatabase> BloomChain<'a, D> {
    /// The branching factor `B`.
    pub closed spec fn bf(&self) -> nat {
        self.positioner.bf()
    }

    /// The level count `L`.
    pub closed spec fn spec_levels(&self) -> nat {
        self.positioner.spec_levels()
    }

    /// The store's current content.
    pub closed spec fn db_map(&self) -> Map<Position, Bloom> {
        self.db.db()
    }

    /// Well-formedness: sound addressing parameters over a sound store.
    pub closed spec fn wf(&self) -> bool {
        self.positioner.wf() && self.db.inv()
    }

    /// A well-formed chain has a branching factor and at least one level.
    pub proof fn lemma_wf_bounds(&self)
        requires
            self.wf(),
        ensures
            self.bf() >= 1,
            self.spec_levels() >= 1,
    {
        self.positioner.lemma_wf_bounds();
    }

    /// Creates new bloom chain.
    pub fn new(config: Config, db: &'a D) -> (r: Self)
        requires
            config.elements_per_index >= 1,
            config.levels >= 1,
            pow(config.elements_per_index as int, (config.levels - 1) as nat) <= usize::MAX,
            db.inv(),
        ensures
            r.wf(),
            r.bf() == config.elements_per_index as nat,
            r.spec_levels() == config.levels as nat,
            r.db_map() == db.db(),
    {
        let positioner = PositionManager::new(config.elements_per_index, config.levels);
        BloomChain { positioner, db }
    }

    /// Inserts the bloom at all filter levels.
    ///
    /// Pure: the store is only read. The returned diff binds, for every
    /// level, the slot covering `number` to the union of its stored bloom and
    /// `bloom`; the caller must persist all its entries atomically.
    pub fn insert(&self, number: Number, bloom: Bloom) -> (r: PositionMap)
        requires
            self.wf(),
        ensures
            r.wf(),
            r@ == insert_diff(self.db_map(), self.bf(), self.spec_levels(), number, bloom),
            r.spec_len() == self.spec_levels(),
    {
        let ghost bf = self.bf();
        let ghost dbm = self.db_map();
        let levels = self.positioner.levels();
        let mut result = PositionMap::new();
        let mut level: usize = 0;
        while level < levels
            invariant
                0 <= level <= levels,
                self.wf(),
                bf == self.bf(),
                dbm == self.db_map(),
                levels as nat == self.spec_levels(),
                result.wf(),
                result.spec_len() == level,
                forall|p: Position| #[trigger]
                    result@.contains_key(p) <==> (p.level < level && p == pos_at(
                        bf,
                        number,
                        p.level,
                    )),
                forall|l: usize|
                    l < level ==> #[trigger] result@[pos_at(bf, number, l)] == spec_union(
                        slot(dbm, pos_at(bf, number, l)),
                        bloom,
                    ),
            decreases levels - level,
        {
            let position = self.positioner.position(number, level);
            let new_bloom = match self.db.bloom_at(&position) {
                Some(old_bloom) => old_bloom.union(&bloom),
                None => {
                    proof {
                        crate::bloom::lemma_union_identity(bloom);
                    }
                    bloom
                },
            };
            proof {
                assert(new_bloom == spec_union(slot(dbm, pos_at(bf, number, level)), bloom));
                assert(!result@.contains_key(position));
            }
            result.insert(position, new_bloom);
            level = level + 1;
        }
        proof {
            assert(result@ =~= insert_diff(dbm, bf, levels as nat, number, bloom));
        }
        result
    }

    /// Resets data in range.
    /// Inserts new data.
    /// Inserted data may exceed reseted range.
    ///
    /// Pure: the store is only read. The returned diff rewrites the level-0
    /// slots from `range.start` on with `blooms`, resets the remaining
    /// level-0 slots of the range to the all-zero bloom, and recomputes the
    /// higher-level slots covering the written indices (only those: the
    /// ancestors of slots that were merely reset are deliberately left
    /// alone). The caller must persist all entries atomically.
    pub fn replace(&self, range: &NumberRange, blooms: Vec<Bloom>) -> (r: PositionMap)
        requires
            self.wf(),
            range.start <= range.end,
            range.start + blooms@.len() <= usize::MAX,
            range.start + blooms@.len() + self.bf() <= usize::MAX as int + 2,
        ensures
            r.wf(),
            is_replace_diff(
                r@,
                self.db_map(),
                self.bf(),
                self.spec_levels(),
                range.start,
                range.end,
                blooms@,
            ),
    {
        let ghost bf = self.bf();
        let ghost dbm = self.db_map();
        let ghost lcount = self.spec_levels();
        let start = range.start;
        let end = range.end;
        let len = blooms.len();
        let ghost hi = replace_hi(start, end, len as nat);
        proof {
            self.lemma_wf_bounds();
        }
        let mut result = PositionMap::new();

        // insert all new blooms at level 0
        let mut i: usize = 0;
        while i < len
            invariant
                0 <= i <= len,
                self.wf(),
                bf == self.bf(),
                dbm == self.db_map(),
                lcount == self.spec_levels(),
                lcount >= 1,
                bf >= 1,
                len == blooms@.len(),
                start + len <= usize::MAX,
                result.wf(),
                forall|p: Position| #[trigger]
                    result@.contains_key(p) <==> (p.level == 0 && start <= p.index < start + i),
                forall|j: int|
                    0 <= j < i ==> #[trigger] result@[Position {
                        level: 0,
                        index: (start + j) as usize,
                    }] == blooms@[j],
            decreases len - i,
        {
            let position = self.positioner.position(start + i, 0);
            proof {
                lemma_slot_index_level0(bf, (start + i) as usize);
            }
            result.insert(position, blooms[i]);
            i = i + 1;
        }

        // reset the rest of blooms
        let reset_from = start + len;
        let mut n = reset_from;
        while n <= end
            invariant_except_break
                reset_from <= n,
                n <= end || n == reset_from,
                reset_from == start + len,
                start <= end,
                len == blooms@.len(),
                self.wf(),
                bf == self.bf(),
                lcount == self.spec_levels(),
                lcount >= 1,
                bf >= 1,
                hi == replace_hi(start, end, len as nat),
                result.wf(),
                forall|p: Position| #[trigger]
                    result@.contains_key(p) <==> (p.level == 0 && start <= p.index < n),
                forall|j: int|
                    0 <= j < len ==> #[trigger] result@[Position {
                        level: 0,
                        index: (start + j) as usize,
                    }] == blooms@[j],
                forall|m: Number|
                    reset_from <= m < n ==> #[trigger] result@[Position { level: 0, index: m }]
                        == spec_empty(),
            ensures
                result.wf(),
                forall|p: Position| #[trigger]
                    result@.contains_key(p) <==> (p.level == 0 && start <= p.index <= hi),
                forall|j: int|
                    0 <= j < len ==> #[trigger] result@[Position {
                        level: 0,
                        index: (start + j) as usize,
                    }] == blooms@[j],
                forall|m: Number|
                    reset_from <= m <= end ==> #[trigger] result@[Position { level: 0, index: m }]
                        == spec_empty(),
            decreases end - n,
        {
            let position = self.positioner.position(n, 0);
            proof {
                lemma_slot_index_level0(bf, n);
            }
            result.insert(position, Bloom::default());
            if n == end {
                break ;
            }
            n = n + 1;
        }

        // recompute the higher-level slots covering the written indices,
        // taking a child from the diff being built where it is already
        // there, else from the store
        let levels = self.positioner.levels();
        let mut level: usize = 1;
        while level < levels
            invariant
                1 <= level <= levels,
                self.wf(),
                bf == self.bf(),
                dbm == self.db_map(),
                lcount == self.spec_levels(),
                lcount >= 1,
                bf >= 1,
                levels as nat == lcount,
                len == blooms@.len(),
                start <= end,
                start + len <= usize::MAX,
                start + len + bf <= usize::MAX as int + 2,
                hi == replace_hi(start, end, len as nat),
                result.wf(),
                forall|p: Position| #[trigger]
                    result@.contains_key(p) <==> ((p.level == 0 && start <= p.index <= hi) || (1
                        <= p.level < level && exists|j: int|
                        0 <= j < len && p == #[trigger] pos_at(
                            bf,
                            (start + j) as usize,
                            p.level,
                        ))),
                forall|j: int|
                    0 <= j < len ==> #[trigger] result@[Position {
                        level: 0,
                        index: (start + j) as usize,
                    }] == blooms@[j],
                forall|m: Number|
                    start + len <= m <= end ==> #[trigger] result@[Position { level: 0, index: m }]
                        == spec_empty(),
                forall|l: usize, j: int|
                    1 <= l < level && 0 <= j < len ==> #[trigger] result@[pos_at(
                        bf,
                        (start + j) as usize,
                        l,
                    )] == children_union(result@, dbm, bf, pos_at(bf, (start + j) as usize, l), bf),
            decreases levels - level,
        {
            let mut i: usize = 0;
            while i < len
                invariant
                    0 <= i <= len,
                    1 <= level,
                    (level as nat) < lcount,
                    self.wf(),
                    bf == self.bf(),
                    dbm == self.db_map(),
                    lcount == self.spec_levels(),
                    bf >= 1,
                    len == blooms@.len(),
                    start <= end,
                    start + len <= usize::MAX,
                    start + len + bf <= usize::MAX as int + 2,
                    hi == replace_hi(start, end, len as nat),
                    result.wf(),
                    forall|p: Position| #[trigger]
                        result@.contains_key(p) <==> ((p.level == 0 && start <= p.index <= hi) || (
                        1 <= p.level < level && exists|j: int|
                            0 <= j < len && p == #[trigger] pos_at(
                                bf,
                                (start + j) as usize,
                                p.level,
                            )) || (p.level == level && exists|j: int|
                            0 <= j < i && p == #[trigger] pos_at(
                                bf,
                                (start + j) as usize,
                                p.level,
                            ))),
                    forall|j: int|
                        0 <= j < len ==> #[trigger] result@[Position {
                            level: 0,
                            index: (start + j) as usize,
                        }] == blooms@[j],
                    forall|m: Number|
                        start + len <= m <= end ==> #[trigger] result@[Position {
                            level: 0,
                            index: m,
                        }] == spec_empty(),
                    forall|l: usize, j: int|
                        (1 <= l < level && 0 <= j < len) || (l == level && 0 <= j < i)
                            ==> #[trigger] result@[pos_at(bf, (start + j) as usize, l)]
                            == children_union(
                            result@,
                            dbm,
                            bf,
                            pos_at(bf, (start + j) as usize, l),
                            bf,
                        ),
                decreases len - i,
            {
                let number = start + i;
                let index = self.positioner.position(number, level);
                proof {
                    lemma_slot_index_bounds(bf, number, level);
                    lemma_slot_index_bounds(bf, number, (level - 1) as usize);
                    lemma_slot_index_compose(bf, number, level);
                    lemma_child_within_parent(
                        bf,
                        slot_index(bf, number, (level - 1) as usize),
                        slot_index(bf, number, level),
                    );
                }
                let children = self.positioner.lower_level_positions(&index);
                let bf_exec = children.len();
                let mut acc = Bloom::default();
                let mut k: usize = 0;
                while k < bf_exec
                    invariant
                        0 <= k <= bf_exec,
                        bf_exec == bf,
                        bf == self.bf(),
                        dbm == self.db_map(),
                        self.wf(),
                        result.wf(),
                        children@.len() == bf,
                        forall|j: int|
                            0 <= j < children@.len() ==> #[trigger] children@[j] == child_at(
                                bf,
                                index,
                                j,
                            ),
                        acc == children_union(result@, dbm, bf, index, k as nat),
                    decreases bf_exec - k,
                {
                    let c = children[k];
                    let child_bloom = match result.get(&c) {
                        Some(b) => b,
                        None => match self.db.bloom_at(&c) {
                            Some(b) => b,
                            None => Bloom::default(),
                        },
                    };
                    proof {
                        assert(child_bloom == child_lookup(result@, dbm, child_at(bf, index, k as int)));
                    }
                    acc = acc.union(&child_bloom);
                    k = k + 1;
                }
                proof {
                    assert(index.level == level && index.level >= 1);
                    assert forall|l: usize, j: int|
                        ((1 <= l < level && 0 <= j < len) || (l == level && 0 <= j < i)) implies
                        children_union(
                        result@.insert(index, acc),
                        dbm,
                        bf,
                        #[trigger] pos_at(bf, (start + j) as usize, l),
                        bf,
                    ) == children_union(result@, dbm, bf, pos_at(bf, (start + j) as usize, l), bf) by {
                        lemma_children_union_insert_other_level(
                            result@,
                            dbm,
                            bf,
                            pos_at(bf, (start + j) as usize, l),
                            bf,
                            index,
                            acc,
                        );
                    }
                    lemma_children_union_insert_other_level(
                        result@,
                        dbm,
                        bf,
                        index,
                        bf,
                        index,
                        acc,
                    );
                }
                result.insert(index, acc);
                i = i + 1;
            }
            level = level + 1;
        }
        result
    }

    /// Internal function which does bloom search recursively.
    ///
    /// Returns `None` exactly when the slot of `level` covering `offset` is
    /// absent or its stored bloom does not contain `bloom` (the aggregation
    /// invariant then rules every descendant out, so the subtree is pruned);
    /// otherwise the returned numbers are exactly the subtree's members that
    /// match `bloom` at every level down to the records.
    fn blocks(&self, range: &NumberRange, bloom: &Bloom, level: usize, offset: Number) -> (r:
        Option<Vec<Number>>)
        requires
            self.wf(),
            (level as nat) < self.spec_levels(),
            range.start <= range.end,
            offset <= range.end,
            range.end + self.bf() <= usize::MAX as int + 1,
        ensures
            (r is Some) == (self.db_map().contains_key(pos_at(self.bf(), offset, level))
                && spec_contains(self.db_map()[pos_at(self.bf(), offset, level)], *bloom)),
            r is Some ==> forall|n: Number| #[trigger]
                (r->Some_0)@.contains(n) <==> subtree_member(
                    self.db_map(),
                    self.bf(),
                    range.start,
                    range.end,
                    level,
                    offset,
                    n,
                    *bloom,
                ),
        decreases level,
    {
        let ghost bf = self.bf();
        let ghost dbm = self.db_map();
        let ghost q = *bloom;
        let ghost start = range.start;
        let ghost end = range.end;
        proof {
            self.lemma_wf_bounds();
        }
        let index = self.positioner.position(offset, level);

        let level_bloom = match self.db.bloom_at(&index) {
            None => {
                return None;
            },
            Some(b) => b,
        };
        if level == 0 {
            if level_bloom.contains(bloom) {
                let found: Vec<Number> = vec![offset];
                proof {
                    lemma_slot_index_level0(bf, offset);
                    assert(found@[0] == offset);
                    assert forall|n: Number| #[trigger]
                        found@.contains(n) <==> subtree_member(
                        dbm,
                        bf,
                        start,
                        end,
                        0,
                        offset,
                        n,
                        q,
                    ) by {
                        lemma_slot_index_level0(bf, n);
                        if n == offset {
                            assert(found@.contains(n));
                            assert forall|l: usize| l <= 0 implies dbm.contains_key(
                                #[trigger] pos_at(bf, n, l),
                            ) && spec_contains(dbm[pos_at(bf, n, l)], q) by {
                                assert(l == 0);
                            }
                        } else {
                            assert(pos_at(bf, n, 0).index == n && pos_at(bf, offset, 0).index
                                == offset);
                            if found@.contains(n) {
                                let idx = choose|idx: int|
                                    0 <= idx < found@.len() && found@[idx] == n;
                                assert(idx == 0);
                            }
                        }
                    }
                }
                return Some(found);
            } else {
                return None;
            }
        }
        if !level_bloom.contains(bloom) {
            return None;
        }
        // the stored aggregate contains the query: go down one level
        let next_level = level - 1;
        let level_size = self.positioner.level_size(next_level);
        let from_position = self.positioner.position(range.start, next_level);
        let to_position = self.positioner.position(range.end, next_level);
        proof {
            lemma_slot_index_bounds(bf, offset, next_level);
            lemma_slot_index_bounds(bf, offset, level);
            lemma_slot_index_compose(bf, offset, level);
            lemma_child_within_parent(
                bf,
                slot_index(bf, offset, next_level),
                slot_index(bf, offset, level),
            );
        }
        let children = self.positioner.lower_level_positions(&index);
        let num_children = children.len();
        let mut result: Vec<Number> = Vec::new();
        let mut k: usize = 0;
        while k < num_children
            invariant
                0 <= k <= num_children,
                self.wf(),
                bf == self.bf(),
                dbm == self.db_map(),
                q == *bloom,
                start == range.start,
                end == range.end,
                bf >= 1,
                1 <= level,
                (level as nat) < self.spec_levels(),
                next_level == level - 1,
                start <= end,
                offset <= end,
                end + bf <= usize::MAX as int + 1,
                num_children as nat == bf,
                children@.len() == bf,
                forall|j: int|
                    0 <= j < children@.len() ==> #[trigger] children@[j] == child_at(bf, index, j),
                index == pos_at(bf, offset, level),
                index.index as int == slot_index(bf, offset, level),
                0 <= slot_index(bf, offset, level),
                level_size as int == pow(bf as int, next_level as nat),
                level_size >= 1,
                from_position.index as int == slot_index(bf, start, next_level),
                to_position.index as int == slot_index(bf, end, next_level),
                forall|n: Number| #[trigger]
                    result@.contains(n) <==> exists|j: int|
                        0 <= j < k && child_member(dbm, bf, start, end, level, index, j, n, q),
            decreases num_children - k,
        {
            let li = children[k];
            let ghost ci = index.index as int * bf as int + k;
            proof {
                assert(li == child_at(bf, index, k as int));
                lemma_slot_index_bounds(bf, end, next_level);
                lemma_slot_index_bounds(bf, offset, next_level);
                lemma_slot_index_compose(bf, offset, level);
                lemma_child_within_parent(
                    bf,
                    slot_index(bf, offset, next_level),
                    slot_index(bf, offset, level),
                );
                assert(li.index as int == ci);
            }
            if li.index >= from_position.index && li.index <= to_position.index {
                proof {
                    lemma_div_mul_le(end as int, level_size as int);
                    vstd::arithmetic::mul::lemma_mul_inequality(
                        ci,
                        slot_index(bf, end, next_level),
                        level_size as int,
                    );
                }
                let off = li.index * level_size;
                proof {
                    lemma_mul_div_exact(ci, level_size as int);
                    assert(slot_index(bf, off, next_level) == ci);
                }
                match self.blocks(range, bloom, next_level, off) {
                    Some(mut v) => {
                        proof {
                            lemma_seq_add_contains(result@, v@);
                            assert((ci * pow(bf as int, next_level as nat)) as usize == off);
                            assert(forall|n: Number| #[trigger]
                                v@.contains(n) <==> subtree_member(
                                    dbm,
                                    bf,
                                    start,
                                    end,
                                    next_level,
                                    off,
                                    n,
                                    q,
                                ));
                            assert forall|n: Number| #[trigger]
                                v@.contains(n) <==> child_member(
                                dbm,
                                bf,
                                start,
                                end,
                                level,
                                index,
                                k as int,
                                n,
                                q,
                            ) by {
                            }
                        }
                        result.append(&mut v);
                    },
                    None => {
                        proof {
                            assert((ci * pow(bf as int, next_level as nat)) as usize == off);
                            assert forall|n: Number|
                                !child_member(
                                    dbm,
                                    bf,
                                    start,
                                    end,
                                    level,
                                    index,
                                    k as int,
                                    n,
                                    q,
                                ) by {
                                if child_member(dbm, bf, start, end, level, index, k as int, n, q) {
                                    assert(pos_at(bf, n, next_level) == pos_at(
                                        bf,
                                        off,
                                        next_level,
                                    ));
                                    assert(dbm.contains_key(pos_at(bf, n, next_level))
                                        && spec_contains(dbm[pos_at(bf, n, next_level)], q));
                                }
                            }
                        }
                    },
                }
            } else {
                proof {
                    assert forall|n: Number|
                        !child_member(dbm, bf, start, end, level, index, k as int, n, q) by {}
                }
            }
            k = k + 1;
        }
        proof {
            assert forall|n: Number| #[trigger]
                result@.contains(n) <==> subtree_member(
                dbm,
                bf,
                start,
                end,
                level,
                offset,
                n,
                q,
            ) by {
                let ls = pow(bf as int, next_level as nat);
                vstd::arithmetic::power::lemma_pow_positive(bf as int, next_level as nat);
                if result@.contains(n) {
                    let j = choose|j: int|
                        0 <= j < bf && child_member(dbm, bf, start, end, level, index, j, n, q);
                    let ci = index.index as int * bf as int + j;
                    lemma_div_mul_le(end as int, ls);
                    vstd::arithmetic::mul::lemma_mul_inequality(
                        ci,
                        slot_index(bf, end, next_level),
                        ls,
                    );
                    let offj = (ci * ls) as usize;
                    lemma_mul_div_exact(ci, ls);
                    assert(slot_index(bf, offj, next_level) == ci);
                    lemma_slot_index_bounds(bf, n, next_level);
                    lemma_slot_index_bounds(bf, offj, next_level);
                    assert(slot_index(bf, n, next_level) == ci);
                    lemma_slot_index_compose(bf, n, level);
                    lemma_parent_of_child(bf, index.index as int, j);
                    lemma_slot_index_bounds(bf, n, level);
                    assert(pos_at(bf, n, level) == pos_at(bf, offset, level));
                    if next_level == 0 {
                        lemma_slot_index_level0(bf, n);
                        lemma_slot_index_level0(bf, offj);
                        lemma_slot_index_level0(bf, start);
                        lemma_slot_index_level0(bf, end);
                        assert(start <= n <= end);
                    }
                    assert forall|l: usize| l <= level implies dbm.contains_key(
                        #[trigger] pos_at(bf, n, l),
                    ) && spec_contains(dbm[pos_at(bf, n, l)], q) by {
                        if l == level {
                            assert(pos_at(bf, n, level) == index);
                        } else {
                            assert(l <= next_level);
                        }
                    }
                } else {
                    if subtree_member(dbm, bf, start, end, level, offset, n, q) {
                        lemma_slot_index_bounds(bf, n, level);
                        lemma_slot_index_bounds(bf, offset, level);
                        assert(slot_index(bf, n, level) == index.index as int);
                        lemma_slot_index_compose(bf, n, level);
                        let m = slot_index(bf, n, next_level);
                        lemma_slot_index_bounds(bf, n, next_level);
                        lemma_child_within_parent(bf, m, slot_index(bf, n, level));
                        let j = m - index.index as int * bf as int;
                        assert(0 <= j < bf);
                        lemma_slot_index_monotone(bf, start, n, next_level);
                        lemma_slot_index_monotone(bf, n, end, next_level);
                        lemma_div_mul_le(end as int, ls);
                        vstd::arithmetic::mul::lemma_mul_inequality(
                            m,
                            slot_index(bf, end, next_level),
                            ls,
                        );
                        let offj = (m * ls) as usize;
                        lemma_mul_div_exact(m, ls);
                        assert(slot_index(bf, offj, next_level) == m);
                        lemma_slot_index_bounds(bf, offj, next_level);
                        assert(pos_at(bf, offj, next_level) == pos_at(bf, n, next_level));
                        assert(child_member(dbm, bf, start, end, level, index, j, n, q));
                    }
                }
            }
        }
        Some(result)
    }

    /// Returns all numbers with given bloom.
    ///
    /// Pure: the store is only read. A number of the range is returned
    /// exactly when, at every level, the slot covering it is present in the
    /// store and its stored bloom contains `bloom`; by the aggregation
    /// invariant that is every match, while whole subtrees whose aggregate
    /// cannot contain `bloom` are pruned without being read.
    pub fn with_bloom(&self, range: &NumberRange, bloom: &Bloom) -> (r: Vec<Number>)
        requires
            self.wf(),
            range.start <= range.end,
            range.end + self.bf() <= usize::MAX as int + 1,
        ensures
            forall|n: Number| #[trigger]
                r@.contains(n) <==> (range.start <= n <= range.end && matches_at_levels(
                    self.db_map(),
                    self.bf(),
                    self.spec_levels(),
                    n,
                    *bloom,
                )),
    {
        let ghost bf = self.bf();
        let ghost dbm = self.db_map();
        let ghost q = *bloom;
        let ghost lcount = self.spec_levels();
        let start = range.start;
        let end = range.end;
        proof {
            self.lemma_wf_bounds();
        }
        // lets start from highest level
        let max_level = self.positioner.max_level();
        let level_size = self.positioner.level_size(max_level);
        let from_position = self.positioner.position(start, max_level);
        let to_position = self.positioner.position(end, max_level);
        proof {
            lemma_slot_index_monotone(bf, start, end, max_level);
            lemma_slot_index_bounds(bf, start, max_level);
            lemma_slot_index_bounds(bf, end, max_level);
        }
        let mut result: Vec<Number> = Vec::new();
        let mut index = from_position.index;
        while index <= to_position.index
            invariant_except_break
                from_position.index <= index <= to_position.index,
                self.wf(),
                bf == self.bf(),
                dbm == self.db_map(),
                q == *bloom,
                lcount == self.spec_levels(),
                bf >= 1,
                start == range.start,
                end == range.end,
                start <= end,
                end + bf <= usize::MAX as int + 1,
                (max_level as nat) == lcount - 1,
                level_size as int == pow(bf as int, max_level as nat),
                level_size >= 1,
                from_position.index as int == slot_index(bf, start, max_level),
                to_position.index as int == slot_index(bf, end, max_level),
                0 <= slot_index(bf, start, max_level),
                forall|n: Number| #[trigger]
                    result@.contains(n) <==> exists|t: int|
                        from_position.index <= t < index && top_member(
                            dbm,
                            bf,
                            start,
                            end,
                            max_level,
                            t,
                            n,
                            q,
                        ),
            ensures
                forall|n: Number| #[trigger]
                    result@.contains(n) <==> exists|t: int|
                        from_position.index <= t <= to_position.index && top_member(
                            dbm,
                            bf,
                            start,
                            end,
                            max_level,
                            t,
                            n,
                            q,
                        ),
            decreases to_position.index - index,
        {
            proof {
                lemma_div_mul_le(end as int, level_size as int);
                vstd::arithmetic::mul::lemma_mul_inequality(
                    index as int,
                    slot_index(bf, end, max_level),
                    level_size as int,
                );
            }
            // offset will be used to calculate where we are right now
            let offset = level_size * index;
            proof {
                lemma_mul_div_exact(index as int, level_size as int);
                assert(slot_index(bf, offset, max_level) == index as int);
                assert((index as int * pow(bf as int, max_level as nat)) as usize == offset);
            }
            // go down
            match self.blocks(range, bloom, max_level, offset) {
                Some(mut blocks) => {
                    proof {
                        lemma_seq_add_contains(result@, blocks@);
                        assert forall|n: Number| #[trigger]
                            blocks@.contains(n) <==> top_member(
                            dbm,
                            bf,
                            start,
                            end,
                            max_level,
                            index as int,
                            n,
                            q,
                        ) by {
                            lemma_slot_index_bounds(bf, n, max_level);
                            lemma_slot_index_bounds(bf, offset, max_level);
                        }
                    }
                    result.append(&mut blocks);
                },
                None => {
                    proof {
                        assert forall|n: Number|
                            !top_member(dbm, bf, start, end, max_level, index as int, n, q) by {
                            if top_member(dbm, bf, start, end, max_level, index as int, n, q) {
                                assert(pos_at(bf, n, max_level) == pos_at(bf, offset, max_level));
                                assert(dbm.contains_key(pos_at(bf, n, max_level)) && spec_contains(
                                    dbm[pos_at(bf, n, max_level)],
                                    q,
                                ));
                            }
                        }
                    }
                },
            }
            if index == to_position.index {
                break ;
            }
            index = index + 1;
        }
        proof {
            assert forall|n: Number| #[trigger]
                result@.contains(n) <==> (start <= n <= end && matches_at_levels(
                dbm,
                bf,
                lcount,
                n,
                q,
            )) by {
                vstd::arithmetic::power::lemma_pow_positive(bf as int, max_level as nat);
                let ls = pow(bf as int, max_level as nat);
                if result@.contains(n) {
                    let t = choose|t: int|
                        from_position.index <= t <= to_position.index && top_member(
                            dbm,
                            bf,
                            start,
                            end,
                            max_level,
                            t,
                            n,
                            q,
                        );
                    lemma_div_mul_le(end as int, ls);
                    vstd::arithmetic::mul::lemma_mul_inequality(
                        t,
                        slot_index(bf, end, max_level),
                        ls,
                    );
                    let offt = (t * ls) as usize;
                    if max_level == 0 {
                        lemma_slot_index_level0(bf, n);
                        lemma_slot_index_level0(bf, offt);
                        lemma_slot_index_level0(bf, start);
                        lemma_slot_index_level0(bf, end);
                        assert(start <= n <= end);
                    }
                    assert forall|l: usize| (l as nat) < lcount implies dbm.contains_key(
                        #[trigger] pos_at(bf, n, l),
                    ) && spec_contains(dbm[pos_at(bf, n, l)], q) by {
                        assert(l <= max_level);
                    }
                } else {
                    if start <= n <= end && matches_at_levels(dbm, bf, lcount, n, q) {
                        let t = slot_index(bf, n, max_level);
                        lemma_slot_index_monotone(bf, start, n, max_level);
                        lemma_slot_index_monotone(bf, n, end, max_level);
                        lemma_slot_index_bounds(bf, n, max_level);
                        lemma_div_mul_le(end as int, ls);
                        vstd::arithmetic::mul::lemma_mul_inequality(
                            t,
                            slot_index(bf, end, max_level),
                            ls,
                        );
                        let offt = (t * ls) as usize;
                        lemma_mul_div_exact(t, ls);
                        assert(slot_index(bf, offt, max_level) == t);
                        lemma_slot_index_bounds(bf, offt, max_level);
                        assert(pos_at(bf, offt, max_level) == pos_at(bf, n, max_level));
                        assert forall|l: usize| l <= max_level implies dbm.contains_key(
                            #[trigger] pos_at(bf, n, l),
                        ) && spec_contains(dbm[pos_at(bf, n, l)], q) by {
                            assert((l as nat) < lcount);
                        }
                        assert(top_member(dbm, bf, start, end, max_level, t, n, q));
                    }
                }
            }
        }
        result
    }

    /// Filter the chain, returning all numbers matching the filter.
    ///
    /// Runs the search once per candidate bloom, unions the results and
    /// returns them strictly ascending and free of duplicates: a number is
    /// returned exactly when it lies in the filter's range and matches at
    /// least one candidate at every level.
    pub fn filter<F: Filter>(&self, filter: &F) -> (r: Vec<Number>)
        requires
            self.wf(),
            filter.spec_range().start <= filter.spec_range().end,
            filter.spec_range().end + self.bf() <= usize::MAX as int + 1,
        ensures
            strictly_sorted(r@),
            forall|n: Number| #[trigger]
                r@.contains(n) <==> (filter.spec_range().start <= n <= filter.spec_range().end
                    && exists|c: int|
                    0 <= c < filter.spec_possibilities().len() && matches_at_levels(
                        self.db_map(),
                        self.bf(),
                        self.spec_levels(),
                        n,
                        #[trigger] filter.spec_possibilities()[c],
                    )),
    {
        let ghost bf = self.bf();
        let ghost dbm = self.db_map();
        let ghost lcount = self.spec_levels();
        let range = filter.range();
        let possibilities = filter.bloom_possibilities();
        let num_candidates = possibilities.len();
        let mut result: Vec<Number> = Vec::new();
        let mut c: usize = 0;
        while c < num_candidates
            invariant
                0 <= c <= num_candidates,
                self.wf(),
                bf == self.bf(),
                dbm == self.db_map(),
                lcount == self.spec_levels(),
                range == filter.spec_range(),
                possibilities@ == filter.spec_possibilities(),
                num_candidates == possibilities@.len(),
                range.start <= range.end,
                range.end + bf <= usize::MAX as int + 1,
                strictly_sorted(result@),
                forall|n: Number| #[trigger]
                    result@.contains(n) <==> (range.start <= n <= range.end && exists|c2: int|
                        0 <= c2 < c && matches_at_levels(
                            dbm,
                            bf,
                            lcount,
                            n,
                            #[trigger] possibilities@[c2],
                        )),
            decreases num_candidates - c,
        {
            let candidate = possibilities[c];
            let found = self.with_bloom(&range, &candidate);
            let found_len = found.len();
            let mut t: usize = 0;
            while t < found_len
                invariant
                    0 <= t <= found_len,
                    found_len == found@.len(),
                    0 <= c < possibilities@.len(),
                    candidate == possibilities@[c as int],
                    range.start <= range.end,
                    strictly_sorted(result@),
                    forall|n: Number| #[trigger]
                        found@.contains(n) <==> (range.start <= n <= range.end
                            && matches_at_levels(dbm, bf, lcount, n, candidate)),
                    forall|n: Number| #[trigger]
                        result@.contains(n) <==> ((range.start <= n <= range.end && exists|c2: int|
                            0 <= c2 < c && matches_at_levels(
                                dbm,
                                bf,
                                lcount,
                                n,
                                #[trigger] possibilities@[c2],
                            )) || exists|t2: int| 0 <= t2 < t && found@[t2] == n),
                decreases found_len - t,
            {
                let x = found[t];
                insert_sorted(&mut result, x);
                proof {
                    assert(found@[t as int] == x);
                }
                t = t + 1;
            }
            proof {
                assert forall|n: Number| #[trigger]
                    result@.contains(n) <==> (range.start <= n <= range.end && exists|c2: int|
                        0 <= c2 < c + 1 && matches_at_levels(
                            dbm,
                            bf,
                            lcount,
                            n,
                            #[trigger] possibilities@[c2],
                        )) by {
                    assert((exists|t2: int| 0 <= t2 < found@.len() && found@[t2] == n)
                        == found@.contains(n));
                }
            }
            c = c + 1;
        }
        result
    }
}

} // verus!
