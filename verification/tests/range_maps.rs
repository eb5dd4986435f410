use rangemap::etna::inclusive_ranges_equal;
use rangemap::segment_map::SegmentMap;
use rangemap::inclusive_map::RangeInclusiveMap;
use rangemap::range_map::RangeMap;

fn inclusive_triples(m: &RangeInclusiveMap) -> Vec<(u32, u32, i32)> {
    m.iter().into_iter().map(|(r, v)| (*r.start(), *r.end(), v)).collect()
}

#[test]
fn range_map_starts_empty() {
    let m = RangeMap::new();
    assert_eq!(m.len(), 0);
    assert!(m.iter().is_empty());
}

#[test]
fn range_map_coalesces_touching_same_value() {
    let mut m = RangeMap::new();
    m.insert(1..3, 0);
    m.insert(3..5, 0);
    assert_eq!(m.iter(), vec![(1..5, 0)]);
    assert_eq!(m.len(), 1);
}

#[test]
fn range_map_keeps_touching_different_values_apart() {
    let mut m = RangeMap::new();
    m.insert(1..3, 0);
    m.insert(3..5, 1);
    assert_eq!(m.iter(), vec![(1..3, 0), (3..5, 1)]);
}

#[test]
fn range_map_replace_middle_coalesces_both_sides() {
    let mut m = RangeMap::new();
    m.insert(1..3, 0);
    m.insert(3..5, 1);
    m.insert(5..8, 0);
    m.insert(3..5, 0);
    assert_eq!(m.iter(), vec![(1..8, 0)]);
}

#[test]
fn range_map_insert_splits_an_existing_range() {
    let mut m = RangeMap::new();
    m.insert(0..10, 7);
    m.insert(3..5, 9);
    assert_eq!(m.iter(), vec![(0..3, 7), (3..5, 9), (5..10, 7)]);
}

#[test]
fn range_map_insert_covers_several_ranges() {
    let mut m = RangeMap::new();
    m.insert(0..2, 1);
    m.insert(4..6, 2);
    m.insert(8..10, 3);
    m.insert(1..9, 4);
    assert_eq!(m.iter(), vec![(0..1, 1), (1..9, 4), (9..10, 3)]);
}

#[test]
fn range_map_same_value_over_gap_fills_it() {
    let mut m = RangeMap::new();
    m.insert(0..2, 1);
    m.insert(5..7, 1);
    m.insert(2..5, 1);
    assert_eq!(m.iter(), vec![(0..7, 1)]);
}

#[test]
fn range_map_keys_up_to_max() {
    let mut m = RangeMap::new();
    m.insert(u32::MAX - 2..u32::MAX, 5);
    assert_eq!(m.iter(), vec![(u32::MAX - 2..u32::MAX, 5)]);
}

#[test]
fn range_map_overlapping_forward_and_backward() {
    let mut m = RangeMap::new();
    m.insert(0..5, 1);
    m.insert(10..15, 2);
    m.insert(20..25, 3);
    assert_eq!(m.overlapping(&(4..12)), vec![(0..5, 1), (10..15, 2)]);
    assert_eq!(m.overlapping_rev(&(4..12)), vec![(10..15, 2), (0..5, 1)]);
    assert_eq!(m.overlapping(&(5..10)), vec![]);
    assert_eq!(m.overlapping(&(0..7)), vec![(0..5, 1)]);
    assert_eq!(m.overlapping_rev(&(0..7)), vec![(0..5, 1)]);
    assert_eq!(m.overlapping_rev(&(0..100)), vec![(20..25, 3), (10..15, 2), (0..5, 1)]);
}

#[test]
fn range_map_equality_compares_ranges() {
    let mut a = RangeMap::new();
    a.insert(1..3, 0);
    let mut b = RangeMap::new();
    b.insert(1..4, 0);
    assert!(a != b);
    let mut c = RangeMap::new();
    c.insert(1..2, 0);
    c.insert(2..3, 0);
    assert!(a == c);
}

#[test]
fn inclusive_map_coalesces_adjacent_keys() {
    let mut m = RangeInclusiveMap::new();
    m.insert(0..=2, 4);
    m.insert(3..=5, 4);
    assert_eq!(inclusive_triples(&m), vec![(0, 5, 4)]);
    assert_eq!(m.len(), 1);
}

#[test]
fn inclusive_map_single_key_range() {
    let mut m = RangeInclusiveMap::new();
    m.insert(0..=10, 1);
    m.insert(5..=5, 2);
    assert_eq!(inclusive_triples(&m), vec![(0, 4, 1), (5, 5, 2), (6, 10, 1)]);
}

#[test]
fn inclusive_map_range_ending_at_max() {
    let mut m = RangeInclusiveMap::new();
    m.insert(u32::MAX - 1..=u32::MAX, 3);
    m.insert(0..=0, 3);
    assert_eq!(inclusive_triples(&m), vec![(0, 0, 3), (u32::MAX - 1, u32::MAX, 3)]);
}

#[test]
fn inclusive_map_equality_compares_ranges() {
    let mut a = RangeInclusiveMap::new();
    a.insert(0..=5, 0);
    let mut b = RangeInclusiveMap::new();
    b.insert(0..=2, 0);
    assert!(a != b);
    b.insert(3..=5, 0);
    assert!(a == b);
}

#[test]
fn segment_map_insert_and_queries() {
    let mut m = SegmentMap::new();
    m.insert(0, 10, 1);
    m.insert(10, 20, 1);
    m.insert(5, 7, 2);
    assert_eq!(m.segment_list(), vec![(0, 5, 1), (5, 7, 2), (7, 20, 1)]);
    assert_eq!(m.len(), 3);
    assert_eq!(m.overlapping(6, 8), vec![(5, 7, 2), (7, 20, 1)]);
    assert_eq!(m.overlapping_rev(6, 8), vec![(7, 20, 1), (5, 7, 2)]);
    assert_eq!(m.overlapping(20, 30), vec![]);
    let mut n = SegmentMap::new();
    n.insert(0, 20, 1);
    assert!(!m.same_segments(&n));
    n.insert(5, 7, 2);
    assert!(m.same_segments(&n));
}

#[test]
fn inclusive_ranges_compare_by_bounds_and_value() {
    let a = vec![(0..=3, 1), (5..=5, 2)];
    assert!(inclusive_ranges_equal(&a, &vec![(0..=3, 1), (5..=5, 2)]));
    assert!(!inclusive_ranges_equal(&a, &vec![(0..=3, 1), (5..=6, 2)]));
    assert!(!inclusive_ranges_equal(&a, &vec![(0..=3, 1), (5..=5, 3)]));
    assert!(!inclusive_ranges_equal(&a, &vec![(0..=3, 1)]));
}
