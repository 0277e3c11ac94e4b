use bloomchain::bloom::Bloom;
use bloomchain::number::NumberRange;
use bloomchain::position::{Position, PositionManager};

#[test]
fn bloom_union_is_bitwise_or() {
    let a = Bloom::new(0b0110);
    let b = Bloom::new(0b1010);
    assert_eq!(a.union(&b), Bloom::new(0b1110));
    assert_eq!(b.union(&a), Bloom::new(0b1110));
    assert_eq!(a.union(&a), a);
    assert_eq!(a.union(&Bloom::default()), a);
}

#[test]
fn bloom_contains_is_bit_subset() {
    let a = Bloom::new(0b1110);
    assert!(a.contains(&Bloom::new(0b0110)));
    assert!(a.contains(&Bloom::default()));
    assert!(a.contains(&a));
    assert!(!a.contains(&Bloom::new(0b0001)));
    assert!(!Bloom::default().contains(&Bloom::new(0b0001)));
}

#[test]
fn position_manager_addresses_slots() {
    let manager = PositionManager::new(16, 3);
    assert_eq!(manager.levels(), 3);
    assert_eq!(manager.max_level(), 2);
    assert_eq!(manager.level_size(0), 1);
    assert_eq!(manager.level_size(1), 16);
    assert_eq!(manager.level_size(2), 256);
    assert_eq!(manager.position(300, 0), Position { level: 0, index: 300 });
    assert_eq!(manager.position(300, 1), Position { level: 1, index: 18 });
    assert_eq!(manager.position(300, 2), Position { level: 2, index: 1 });
}

#[test]
fn lower_level_positions_span_the_children() {
    let manager = PositionManager::new(4, 2);
    let children = manager.lower_level_positions(&Position { level: 1, index: 3 });
    let expected: Vec<Position> = (12..16).map(|index| Position { level: 0, index }).collect();
    assert_eq!(children, expected);
}

#[test]
fn number_range_is_inclusive_pair() {
    let r = NumberRange::new(3, 9);
    assert_eq!(r.start, 3);
    assert_eq!(r.end, 9);
    assert_eq!(r, NumberRange { start: 3, end: 9 });
}
