//! Laws the index obeys, stated over the store's abstract content and proved
//! once and for all: the aggregation invariant that the pruning search relies
//! on, idempotence and monotonicity of `insert`, the round trip through
//! `replace` and the search, and the soundness of pruning itself.

use vstd::map::*;
use vstd::prelude::*;

use crate::bloom::{
    lemma_contains_transitive, lemma_union_associative, lemma_union_contains_operands,
    lemma_union_exchange, lemma_union_monotonic, spec_contains, spec_union, Bloom,
};
use crate::chain::{
    child_lookup, children_union, insert_diff, is_replace_diff, matches_at_levels, replace_dom,
    replace_hi, slot,
};
use crate::number::Number;
use crate::position::{
    child_at, lemma_child_within_parent, lemma_parent_of_child, lemma_slot_index_bounds,
    lemma_slot_index_compose, lemma_slot_index_level0, pos_at, slot_index, Position,
};

verus! {

/// The union of the stored blooms of the first `k` children of `p`, an
/// absent child counting as the all-zero bloom.
pub open spec fn children_slot_union(
    db: Map<Position, Bloom>,
    bf: nat,
    p: Position,
    k: nat,
) -> Bloom
    decreases k,
{
    if k == 0 {
        crate::bloom::spec_empty()
    } else {
        spec_union(children_slot_union(db, bf, p, (k - 1) as nat), slot(db, child_at(bf, p, k - 1)))
    }
}

/// The aggregation invariant at one slot `p` of level at least 1: the stored
/// bloom there equals the union of the stored blooms of its `bf` children.
pub open spec fn aggregated_at(db: Map<Position, Bloom>, bf: nat, p: Position) -> bool {
    slot(db, p) == children_slot_union(db, bf, p, bf)
}

/// Two stores that agree on every child of `p` give its children the same
/// union.
proof fn lemma_children_slot_union_agree(
    m1: Map<Position, Bloom>,
    m2: Map<Position, Bloom>,
    bf: nat,
    p: Position,
    k: nat,
)
    requires
        forall|j: int|
            0 <= j < k ==> slot(m1, #[trigger] child_at(bf, p, j)) == slot(m2, child_at(bf, p, j)),
    ensures
        children_slot_union(m1, bf, p, k) == children_slot_union(m2, bf, p, k),
    decreases k,
{
    if k > 0 {
        lemma_children_slot_union_agree(m1, m2, bf, p, (k - 1) as nat);
    }
}

/// Growing exactly the `jstar`-th child of `p` by `b` grows the children's
/// union by `b`.
proof fn lemma_children_slot_union_grow_one(
    db: Map<Position, Bloom>,
    m: Map<Position, Bloom>,
    bf: nat,
    p: Position,
    k: nat,
    jstar: int,
    b: Bloom,
)
    requires
        forall|j: int|
            0 <= j < k && j != jstar ==> slot(m, #[trigger] child_at(bf, p, j)) == slot(
                db,
                child_at(bf, p, j),
            ),
        0 <= jstar < k ==> slot(m, child_at(bf, p, jstar)) == spec_union(
            slot(db, child_at(bf, p, jstar)),
            b,
        ),
    ensures
        children_slot_union(m, bf, p, k) == if 0 <= jstar < k {
            spec_union(children_slot_union(db, bf, p, k), b)
        } else {
            children_slot_union(db, bf, p, k)
        },
    decreases k,
{
    if k > 0 {
        lemma_children_slot_union_grow_one(db, m, bf, p, (k - 1) as nat, jstar, b);
        let u = children_slot_union(db, bf, p, (k - 1) as nat);
        let s = slot(db, child_at(bf, p, k - 1));
        if jstar == k - 1 {
            lemma_union_associative(u, s, b);
        } else if 0 <= jstar < k - 1 {
            lemma_union_exchange(u, b, s);
        }
    }
}

/// The children's union taken over a store merged with a diff equals the
/// union taken with each child looked up in the diff first.
proof fn lemma_children_union_of_merge(
    d: Map<Position, Bloom>,
    db: Map<Position, Bloom>,
    bf: nat,
    q: Position,
    k: nat,
)
    ensures
        children_slot_union(db.union_prefer_right(d), bf, q, k) == children_union(
            d,
            db,
            bf,
            q,
            k,
        ),
    decreases k,
{
    if k > 0 {
        lemma_children_union_of_merge(d, db, bf, q, (k - 1) as nat);
    }
}

/// The children's union contains every child's looked-up value.
proof fn lemma_children_union_contains_child(
    d: Map<Position, Bloom>,
    db: Map<Position, Bloom>,
    bf: nat,
    q: Position,
    k: nat,
    j: int,
)
    requires
        0 <= j < k,
    ensures
        spec_contains(
            children_union(d, db, bf, q, k),
            child_lookup(d, db, child_at(bf, q, j)),
        ),
    decreases k,
{
    let u = children_union(d, db, bf, q, (k - 1) as nat);
    let s = child_lookup(d, db, child_at(bf, q, k - 1));
    if j == k - 1 {
        lemma_union_contains_operands(u, s);
    } else {
        lemma_children_union_contains_child(d, db, bf, q, (k - 1) as nat, j);
        crate::bloom::lemma_union_commutative(u, s);
        lemma_union_monotonic(u, s, child_lookup(d, db, child_at(bf, q, j)));
    }
}

/// The children's union over a store with no slot at all is the all-zero
/// bloom.
proof fn lemma_children_slot_union_empty(bf: nat, p: Position, k: nat)
    ensures
        children_slot_union(Map::<Position, Bloom>::empty(), bf, p, k)
            == crate::bloom::spec_empty(),
    decreases k,
{
    if k > 0 {
        lemma_children_slot_union_empty(bf, p, (k - 1) as nat);
        crate::bloom::lemma_union_identity(crate::bloom::spec_empty());
    }
}

/// The aggregation invariant holds of the empty store, so by the lemmas
/// below it holds of every store built by persisting `insert` diffs.
pub proof fn lemma_empty_store_aggregated(bf: nat, p: Position)
    ensures
        aggregated_at(Map::<Position, Bloom>::empty(), bf, p),
{
    lemma_children_slot_union_empty(bf, p, bf);
}

/// Persisting an `insert` diff preserves the aggregation invariant at every
/// slot where it held: the one touched child and its parent both grow by the
/// inserted bloom, every other slot is untouched.
pub proof fn lemma_insert_preserves_aggregation(
    db: Map<Position, Bloom>,
    bf: nat,
    levels: nat,
    n: Number,
    b: Bloom,
    p: Position,
)
    requires
        bf >= 1,
        1 <= p.level,
        (p.level as nat) < levels,
        p.index as int * bf as int + bf as int - 1 <= usize::MAX,
        aggregated_at(db, bf, p),
    ensures
        aggregated_at(db.union_prefer_right(insert_diff(db, bf, levels, n, b)), bf, p),
{
    let d = insert_diff(db, bf, levels, n, b);
    let m = db.union_prefer_right(d);
    let lo = (p.level - 1) as usize;
    let cstar = pos_at(bf, n, lo);
    lemma_slot_index_bounds(bf, n, lo);
    lemma_slot_index_bounds(bf, n, p.level);
    lemma_slot_index_compose(bf, n, p.level);
    if p == pos_at(bf, n, p.level) {
        lemma_child_within_parent(bf, slot_index(bf, n, lo), slot_index(bf, n, p.level));
        let jstar = slot_index(bf, n, lo) - p.index as int * bf as int;
        assert(0 <= jstar < bf);
        assert(child_at(bf, p, jstar) == cstar);
        assert(slot(m, cstar) == spec_union(slot(db, cstar), b));
        assert forall|j: int| 0 <= j < bf && j != jstar implies slot(
            m,
            #[trigger] child_at(bf, p, j),
        ) == slot(db, child_at(bf, p, j)) by {
            let c = child_at(bf, p, j);
            assert(c.index as int == p.index as int * bf as int + j);
            assert(c.index != cstar.index);
            assert(!d.contains_key(c));
        }
        lemma_children_slot_union_grow_one(db, m, bf, p, bf, jstar, b);
        assert(slot(m, p) == spec_union(slot(db, p), b));
    } else {
        assert(!d.contains_key(p));
        assert forall|j: int| 0 <= j < bf implies slot(m, #[trigger] child_at(bf, p, j)) == slot(
            db,
            child_at(bf, p, j),
        ) by {
            let c = child_at(bf, p, j);
            if d.contains_key(c) {
                assert(c == cstar);
                assert(c.index as int == p.index as int * bf as int + j);
                lemma_parent_of_child(bf, p.index as int, j);
                assert(pos_at(bf, n, p.level).index as int == slot_index(bf, n, p.level));
                assert(p == pos_at(bf, n, p.level));
            }
        }
        lemma_children_slot_union_agree(m, db, bf, p, bf);
    }
}

/// Persisting a `replace` diff establishes the aggregation invariant at every
/// recomputed slot, whatever held before: each such slot was written as the
/// union over exactly the values its children end up with.
pub proof fn lemma_replace_establishes_aggregation(
    d: Map<Position, Bloom>,
    db: Map<Position, Bloom>,
    bf: nat,
    levels: nat,
    start: Number,
    end: Number,
    blooms: Seq<Bloom>,
    l: usize,
    i: int,
)
    requires
        is_replace_diff(d, db, bf, levels, start, end, blooms),
        1 <= l,
        (l as nat) < levels,
        0 <= i < blooms.len(),
        start + i <= usize::MAX,
    ensures
        aggregated_at(db.union_prefer_right(d), bf, pos_at(bf, (start + i) as usize, l)),
{
    let q = pos_at(bf, (start + i) as usize, l);
    let m = db.union_prefer_right(d);
    assert(replace_dom(bf, levels, start, end, blooms.len(), q));
    assert(d.contains_key(q));
    assert(d[q] == children_union(d, db, bf, q, bf));
    lemma_children_union_of_merge(d, db, bf, q, bf);
    assert(slot(m, q) == d[q]);
}

/// Merging a diff that touches neither a slot nor any of its children leaves
/// the aggregation invariant there as it was.
pub proof fn lemma_merge_preserves_untouched_aggregation(
    d: Map<Position, Bloom>,
    db: Map<Position, Bloom>,
    bf: nat,
    p: Position,
)
    requires
        aggregated_at(db, bf, p),
        !d.contains_key(p),
        forall|j: int| 0 <= j < bf ==> !d.contains_key(#[trigger] child_at(bf, p, j)),
    ensures
        aggregated_at(db.union_prefer_right(d), bf, p),
{
    let m = db.union_prefer_right(d);
    assert forall|j: int| 0 <= j < bf implies slot(m, #[trigger] child_at(bf, p, j)) == slot(
        db,
        child_at(bf, p, j),
    ) by {}
    lemma_children_slot_union_agree(m, db, bf, p, bf);
}

/// Inserting the same bloom at the same number twice leaves the store exactly
/// as one insertion does: union is idempotent.
pub proof fn lemma_insert_idempotent(
    db: Map<Position, Bloom>,
    bf: nat,
    levels: nat,
    n: Number,
    b: Bloom,
)
    ensures
        ({
            let once = db.union_prefer_right(insert_diff(db, bf, levels, n, b));
            once.union_prefer_right(insert_diff(once, bf, levels, n, b)) == once
        }),
{
    let d1 = insert_diff(db, bf, levels, n, b);
    let once = db.union_prefer_right(d1);
    let d2 = insert_diff(once, bf, levels, n, b);
    assert forall|p: Position| #[trigger] d2.contains_key(p) implies d2[p] == d1[p] by {
        let s = slot(db, p);
        let (x, y) = (s.bits, b.bits);
        assert((x | y) | y == x | y) by (bit_vector);
        assert(slot(once, p) == spec_union(s, b));
    }
    assert(once.union_prefer_right(d2) =~= once);
}

/// After an `insert` is persisted, at every level the new stored bloom
/// contains both the previous stored bloom and the inserted one.
pub proof fn lemma_insert_monotonic(
    db: Map<Position, Bloom>,
    bf: nat,
    levels: nat,
    n: Number,
    b: Bloom,
    l: usize,
)
    requires
        (l as nat) < levels,
    ensures
        spec_contains(
            slot(db.union_prefer_right(insert_diff(db, bf, levels, n, b)), pos_at(bf, n, l)),
            slot(db, pos_at(bf, n, l)),
        ),
        spec_contains(
            slot(db.union_prefer_right(insert_diff(db, bf, levels, n, b)), pos_at(bf, n, l)),
            b,
        ),
{
    let p = pos_at(bf, n, l);
    let d = insert_diff(db, bf, levels, n, b);
    assert(d.contains_key(p));
    lemma_union_contains_operands(slot(db, p), b);
}

/// Pruning is sound: where the slot covering `n` at some level is absent or
/// its stored bloom does not contain the query, `n` matches at no account,
/// so the search may skip the whole subtree.
pub proof fn lemma_pruning(
    db: Map<Position, Bloom>,
    bf: nat,
    levels: nat,
    n: Number,
    q: Bloom,
    p: Position,
)
    requires
        (p.level as nat) < levels,
        pos_at(bf, n, p.level) == p,
        !(db.contains_key(p) && spec_contains(db[p], q)),
    ensures
        !matches_at_levels(db, bf, levels, n, q),
{
}

/// After a persisted `replace`, every written slot matches the query at every
/// level up to `l`: the new level-0 bloom contains the query and each
/// recomputed ancestor contains that child.
proof fn lemma_replace_matches_up(
    d: Map<Position, Bloom>,
    db: Map<Position, Bloom>,
    bf: nat,
    levels: nat,
    start: Number,
    end: Number,
    blooms: Seq<Bloom>,
    q: Bloom,
    n: Number,
    l: usize,
)
    requires
        bf >= 1,
        is_replace_diff(d, db, bf, levels, start, end, blooms),
        start <= n,
        n < start + blooms.len(),
        (l as nat) < levels,
        spec_contains(blooms[n - start], q),
    ensures
        d.contains_key(pos_at(bf, n, l)),
        spec_contains(d[pos_at(bf, n, l)], q),
    decreases l,
{
    let i = n - start;
    if l == 0 {
        lemma_slot_index_level0(bf, n);
        assert(replace_hi(start, end, blooms.len()) >= start + blooms.len() - 1);
        assert(replace_dom(bf, levels, start, end, blooms.len(), pos_at(bf, n, 0)));
        assert(d[Position { level: 0, index: (start + i) as usize }] == blooms[i]);
    } else {
        let lo = (l - 1) as usize;
        lemma_replace_matches_up(d, db, bf, levels, start, end, blooms, q, n, lo);
        let qp = pos_at(bf, n, l);
        let cstar = pos_at(bf, n, lo);
        assert(qp == pos_at(bf, (start + i) as usize, qp.level));
        assert(replace_dom(bf, levels, start, end, blooms.len(), qp));
        assert(d[pos_at(bf, (start + i) as usize, l)] == children_union(d, db, bf, qp, bf));
        lemma_slot_index_bounds(bf, n, lo);
        lemma_slot_index_bounds(bf, n, l);
        lemma_slot_index_compose(bf, n, l);
        lemma_child_within_parent(bf, slot_index(bf, n, lo), slot_index(bf, n, l));
        let jstar = slot_index(bf, n, lo) - qp.index as int * bf as int;
        assert(0 <= jstar < bf);
        assert(child_at(bf, qp, jstar) == cstar);
        lemma_children_union_contains_child(d, db, bf, qp, bf, jstar);
        assert(child_lookup(d, db, cstar) == d[cstar]);
        lemma_contains_transitive(children_union(d, db, bf, qp, bf), d[cstar], q);
    }
}

/// Round trip: after a `replace` is persisted, a written number matches a
/// query bloom at every level exactly when its new level-0 bloom contains the
/// query — so a search over the written span returns exactly the indices
/// whose new blooms contain it.
pub proof fn lemma_replace_round_trip(
    d: Map<Position, Bloom>,
    db: Map<Position, Bloom>,
    bf: nat,
    levels: nat,
    start: Number,
    end: Number,
    blooms: Seq<Bloom>,
    q: Bloom,
    n: Number,
)
    requires
        bf >= 1,
        levels >= 1,
        is_replace_diff(d, db, bf, levels, start, end, blooms),
        start <= n,
        n < start + blooms.len(),
    ensures
        matches_at_levels(db.union_prefer_right(d), bf, levels, n, q) <==> spec_contains(
            blooms[n - start],
            q,
        ),
{
    let m = db.union_prefer_right(d);
    let i = n - start;
    lemma_slot_index_level0(bf, n);
    if spec_contains(blooms[i], q) {
        assert forall|l: usize| (l as nat) < levels implies m.contains_key(
            #[trigger] pos_at(bf, n, l),
        ) && spec_contains(m[pos_at(bf, n, l)], q) by {
            lemma_replace_matches_up(d, db, bf, levels, start, end, blooms, q, n, l);
        }
    }
    if matches_at_levels(m, bf, levels, n, q) {
        let p0 = pos_at(bf, n, 0);
        assert(m.contains_key(p0) && spec_contains(m[p0], q));
        assert(replace_hi(start, end, blooms.len()) >= start + blooms.len() - 1);
        assert(replace_dom(bf, levels, start, end, blooms.len(), p0));
        assert(d[Position { level: 0, index: (start + i) as usize }] == blooms[i]);
        assert(m[p0] == blooms[i]);
    }
}

} // verus!
