use bloomchain::bloom::Bloom;
use bloomchain::chain::BloomChain;
use bloomchain::config::Config;
use bloomchain::database::{BloomDatabase, MemoryDatabase};
use bloomchain::filter::RangeFilter;
use bloomchain::number::NumberRange;
use bloomchain::position::Position;

fn config(b: usize, l: usize) -> Config {
    Config { elements_per_index: b, levels: l }
}

fn singleton(bit: u64) -> Bloom {
    Bloom::new(1u64 << bit)
}

fn insert_and_apply(db: &mut MemoryDatabase, cfg: Config, n: usize, b: Bloom) {
    let diff = BloomChain::new(cfg, db).insert(n, b);
    db.apply(&diff);
}

fn replace_and_apply(db: &mut MemoryDatabase, cfg: Config, range: NumberRange, blooms: Vec<Bloom>) {
    let diff = BloomChain::new(cfg, db).replace(&range, blooms);
    db.apply(&diff);
}

#[test]
fn insert_returns_one_entry_per_level() {
    let db = MemoryDatabase::new();
    let cfg = config(4, 3);
    let diff = BloomChain::new(cfg, &db).insert(7, singleton(1));
    assert_eq!(diff.len(), 3);
    assert_eq!(diff.get(&Position { level: 0, index: 7 }), Some(singleton(1)));
    assert_eq!(diff.get(&Position { level: 1, index: 1 }), Some(singleton(1)));
    assert_eq!(diff.get(&Position { level: 2, index: 0 }), Some(singleton(1)));
    assert_eq!(diff.get(&Position { level: 0, index: 6 }), None);
}

#[test]
fn insert_unions_with_stored_blooms() {
    let mut db = MemoryDatabase::new();
    let cfg = config(4, 2);
    insert_and_apply(&mut db, cfg, 5, singleton(0));
    let diff = BloomChain::new(cfg, &db).insert(5, singleton(1));
    assert_eq!(diff.get(&Position { level: 0, index: 5 }), Some(Bloom::new(0b11)));
    assert_eq!(diff.get(&Position { level: 1, index: 1 }), Some(Bloom::new(0b11)));
}

#[test]
fn search_scenario_sixteen_records() {
    // B = 16, L = 2: insert numbers 0..15 with distinct singleton blooms,
    // except number 5, which carries bloom X.
    let mut db = MemoryDatabase::new();
    let cfg = config(16, 2);
    let x = singleton(60);
    for n in 0..16usize {
        let b = if n == 5 { x } else { singleton(n as u64) };
        insert_and_apply(&mut db, cfg, n, b);
    }
    let chain = BloomChain::new(cfg, &db);
    assert_eq!(chain.with_bloom(&NumberRange::new(0, 15), &x), vec![5]);

    // Replacing the range with three new blooms, the middle one X, moves the
    // only match for X to index 1.
    let y0 = singleton(61);
    let y2 = singleton(62);
    replace_and_apply(&mut db, cfg, NumberRange::new(0, 15), vec![y0, x, y2]);
    let chain = BloomChain::new(cfg, &db);
    assert_eq!(chain.with_bloom(&NumberRange::new(0, 2), &x), vec![1]);
    assert_eq!(chain.with_bloom(&NumberRange::new(0, 15), &x), vec![1]);
}

#[test]
fn insert_twice_is_insert_once() {
    let cfg = config(4, 3);
    let mut once = MemoryDatabase::new();
    insert_and_apply(&mut once, cfg, 9, singleton(3));
    let mut twice = MemoryDatabase::new();
    insert_and_apply(&mut twice, cfg, 9, singleton(3));
    insert_and_apply(&mut twice, cfg, 9, singleton(3));
    for level in 0..3usize {
        for index in 0..16usize {
            let p = Position { level, index };
            assert_eq!(once.bloom_at(&p), twice.bloom_at(&p));
        }
    }
}

#[test]
fn insert_grows_stored_blooms_monotonically() {
    let mut db = MemoryDatabase::new();
    let cfg = config(4, 3);
    insert_and_apply(&mut db, cfg, 9, singleton(3));
    insert_and_apply(&mut db, cfg, 11, singleton(4));
    let before = [
        db.bloom_at(&Position { level: 0, index: 11 }),
        db.bloom_at(&Position { level: 1, index: 2 }),
        db.bloom_at(&Position { level: 2, index: 0 }),
    ];
    insert_and_apply(&mut db, cfg, 11, singleton(5));
    let after = [
        db.bloom_at(&Position { level: 0, index: 11 }),
        db.bloom_at(&Position { level: 1, index: 2 }),
        db.bloom_at(&Position { level: 2, index: 0 }),
    ];
    for (old, new) in before.iter().zip(after.iter()) {
        let old = old.unwrap_or_default();
        let new = new.expect("slot written by insert");
        assert!(new.contains(&old));
    }
}

fn check_aggregation(db: &MemoryDatabase, b: usize, level: usize, index: usize) {
    // The stored bloom of a higher-level slot must equal the union of its
    // children's stored blooms, an absent child counting as all-zero.
    let stored = db
        .bloom_at(&Position { level, index })
        .unwrap_or_default();
    let mut union = Bloom::default();
    for j in 0..b {
        let child = Position { level: level - 1, index: index * b + j };
        union = union.union(&db.bloom_at(&child).unwrap_or_default());
    }
    assert_eq!(stored, union);
}

#[test]
fn aggregation_invariant_after_inserts() {
    let mut db = MemoryDatabase::new();
    let cfg = config(4, 3);
    for (n, bit) in [(0usize, 0u64), (3, 1), (5, 2), (5, 3), (14, 4), (15, 5)] {
        insert_and_apply(&mut db, cfg, n, singleton(bit));
    }
    for index in 0..4usize {
        check_aggregation(&db, 4, 1, index);
    }
    check_aggregation(&db, 4, 2, 0);
}

#[test]
fn aggregation_invariant_after_replace() {
    let mut db = MemoryDatabase::new();
    let cfg = config(4, 3);
    for n in 0..16usize {
        insert_and_apply(&mut db, cfg, n, singleton(n as u64));
    }
    replace_and_apply(
        &mut db,
        cfg,
        NumberRange::new(0, 15),
        vec![singleton(20), singleton(21), singleton(22), singleton(23), singleton(24)],
    );
    // The recomputed ancestors are those covering the five written indices.
    check_aggregation(&db, 4, 1, 0);
    check_aggregation(&db, 4, 1, 1);
    check_aggregation(&db, 4, 2, 0);
}

#[test]
fn replace_leaves_pure_reset_ancestors_stale() {
    // B = 2, L = 2: all four level-0 slots carry X, so both level-1 slots
    // aggregate to X. Replacing the range with a single bloom recomputes only
    // the ancestor of the written index; the other keeps its stale union.
    let mut db = MemoryDatabase::new();
    let cfg = config(2, 2);
    let x = singleton(7);
    for n in 0..4usize {
        insert_and_apply(&mut db, cfg, n, x);
    }
    let y = singleton(8);
    replace_and_apply(&mut db, cfg, NumberRange::new(0, 3), vec![y]);
    assert_eq!(db.bloom_at(&Position { level: 1, index: 0 }), Some(y));
    assert_eq!(db.bloom_at(&Position { level: 1, index: 1 }), Some(x));
    assert_eq!(db.bloom_at(&Position { level: 0, index: 2 }), Some(Bloom::default()));
    // The stale aggregate still prunes correctly: its records were reset, so
    // the search descends into it and finds nothing.
    let chain = BloomChain::new(cfg, &db);
    assert_eq!(chain.with_bloom(&NumberRange::new(0, 3), &x), Vec::<usize>::new());
    assert_eq!(chain.with_bloom(&NumberRange::new(0, 3), &y), vec![0]);
}

#[test]
fn replace_round_trip() {
    let mut db = MemoryDatabase::new();
    let cfg = config(4, 2);
    for n in 0..16usize {
        insert_and_apply(&mut db, cfg, n, singleton(n as u64));
    }
    let blooms = vec![singleton(40), singleton(41), singleton(42), singleton(41)];
    replace_and_apply(&mut db, cfg, NumberRange::new(0, 15), blooms);
    let chain = BloomChain::new(cfg, &db);
    let written = NumberRange::new(0, 3);
    assert_eq!(chain.with_bloom(&written, &singleton(40)), vec![0]);
    assert_eq!(chain.with_bloom(&written, &singleton(41)), vec![1, 3]);
    assert_eq!(chain.with_bloom(&written, &singleton(42)), vec![2]);
    assert_eq!(chain.with_bloom(&written, &singleton(43)), Vec::<usize>::new());
}

#[test]
fn with_bloom_stays_in_range() {
    let mut db = MemoryDatabase::new();
    let cfg = config(4, 2);
    let x = singleton(1);
    for n in 0..8usize {
        insert_and_apply(&mut db, cfg, n, x);
    }
    let chain = BloomChain::new(cfg, &db);
    assert_eq!(chain.with_bloom(&NumberRange::new(2, 5), &x), vec![2, 3, 4, 5]);
    assert_eq!(chain.with_bloom(&NumberRange::new(6, 6), &x), vec![6]);
}

#[test]
fn with_bloom_prunes_untracked_and_unmatched_subtrees() {
    let mut db = MemoryDatabase::new();
    let cfg = config(4, 2);
    insert_and_apply(&mut db, cfg, 1, singleton(0));
    insert_and_apply(&mut db, cfg, 6, singleton(1));
    let chain = BloomChain::new(cfg, &db);
    // Numbers 8..15 were never tracked: their subtrees are pruned on absence.
    assert_eq!(chain.with_bloom(&NumberRange::new(0, 15), &singleton(0)), vec![1]);
    // The aggregate of slots 4..7 lacks bit 0, so that subtree is pruned too.
    assert_eq!(chain.with_bloom(&NumberRange::new(4, 7), &singleton(0)), Vec::<usize>::new());
}

#[test]
fn with_bloom_agrees_with_linear_scan() {
    // Pruning correctness against a brute-force scan of level-0 data, over a
    // store built with a simple deterministic bloom mix.
    let mut db = MemoryDatabase::new();
    let cfg = config(4, 3);
    let mut seed: u64 = 0x2545_f491_4f6c_dd1d;
    for n in 0..48usize {
        seed = seed.wrapping_mul(6364136223846793005).wrapping_add(1442695040888963407);
        insert_and_apply(&mut db, cfg, n, Bloom::new(seed >> 32));
    }
    let chain = BloomChain::new(cfg, &db);
    for query in [singleton(0), singleton(13), singleton(31), Bloom::new(0b101)] {
        let mut expected = Vec::new();
        for n in 5..40usize {
            if let Some(stored) = db.bloom_at(&Position { level: 0, index: n }) {
                if stored.contains(&query) {
                    expected.push(n);
                }
            }
        }
        assert_eq!(chain.with_bloom(&NumberRange::new(5, 39), &query), expected);
    }
}

#[test]
fn filter_output_is_strictly_increasing_without_duplicates() {
    let mut db = MemoryDatabase::new();
    let cfg = config(4, 2);
    // Number 6 matches both candidates; it must appear once.
    insert_and_apply(&mut db, cfg, 2, singleton(0));
    insert_and_apply(&mut db, cfg, 6, Bloom::new(0b11));
    insert_and_apply(&mut db, cfg, 9, singleton(1));
    let chain = BloomChain::new(cfg, &db);
    let query = RangeFilter::new(NumberRange::new(0, 15), vec![singleton(0), singleton(1)]);
    let found = chain.filter(&query);
    assert_eq!(found, vec![2, 6, 9]);
    for w in found.windows(2) {
        assert!(w[0] < w[1]);
    }
}

#[test]
fn filter_with_no_candidates_finds_nothing() {
    let mut db = MemoryDatabase::new();
    let cfg = config(4, 2);
    insert_and_apply(&mut db, cfg, 2, singleton(0));
    let chain = BloomChain::new(cfg, &db);
    let query = RangeFilter::new(NumberRange::new(0, 15), Vec::new());
    assert_eq!(chain.filter(&query), Vec::<usize>::new());
}

#[test]
fn single_level_chain_searches_level_zero_only() {
    let mut db = MemoryDatabase::new();
    let cfg = config(4, 1);
    insert_and_apply(&mut db, cfg, 3, singleton(2));
    let diff = BloomChain::new(cfg, &db).insert(5, singleton(3));
    assert_eq!(diff.len(), 1);
    db.apply(&diff);
    let chain = BloomChain::new(cfg, &db);
    assert_eq!(chain.with_bloom(&NumberRange::new(0, 10), &singleton(2)), vec![3]);
    assert_eq!(chain.with_bloom(&NumberRange::new(0, 10), &singleton(3)), vec![5]);
}

#[test]
fn unit_branching_factor_keeps_every_level_per_number() {
    let mut db = MemoryDatabase::new();
    let cfg = config(1, 3);
    insert_and_apply(&mut db, cfg, 4, singleton(1));
    for level in 0..3usize {
        assert_eq!(db.bloom_at(&Position { level, index: 4 }), Some(singleton(1)));
    }
    let chain = BloomChain::new(cfg, &db);
    assert_eq!(chain.with_bloom(&NumberRange::new(0, 9), &singleton(1)), vec![4]);
}

#[test]
fn reset_slots_are_present_but_empty() {
    // After a replace, a reset slot differs from an untracked one: it is
    // present and all-zero, and the all-zero query bloom matches it.
    let mut db = MemoryDatabase::new();
    let cfg = config(2, 1);
    insert_and_apply(&mut db, cfg, 0, singleton(0));
    insert_and_apply(&mut db, cfg, 1, singleton(1));
    replace_and_apply(&mut db, cfg, NumberRange::new(0, 1), vec![singleton(2)]);
    assert_eq!(db.bloom_at(&Position { level: 0, index: 1 }), Some(Bloom::default()));
    assert_eq!(db.bloom_at(&Position { level: 0, index: 5 }), None);
    let chain = BloomChain::new(cfg, &db);
    assert_eq!(chain.with_bloom(&NumberRange::new(0, 5), &Bloom::default()), vec![0, 1]);
}
