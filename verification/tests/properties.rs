use rangemap::etna::{
    build_inclusive_map, build_range_map, direction_verdict, eq_verdict, inclusive_eq_verdict,
    property_coalesce_no_adjacent_same_value, property_inclusive_eq_matches_iter_eq,
    property_overlapping_reversible, property_partial_eq_matches_iter_eq, ranges_equal,
    reversed, seam_verdict, to_err, to_opt, PropertyResult,
};
use rangemap::witness::{
    canonical_coalesce, canonical_inclusive_eq, canonical_overlapping, canonical_partial_eq,
    check_coalesce_no_adjacent_same_value, check_inclusive_eq_matches_iter_eq,
    check_overlapping_reversible, check_partial_eq_matches_iter_eq,
};

fn is_pass(r: &PropertyResult) -> bool {
    matches!(r, PropertyResult::Pass)
}

fn is_discard(r: &PropertyResult) -> bool {
    matches!(r, PropertyResult::Discard)
}

fn fail_message(r: PropertyResult) -> String {
    match r {
        PropertyResult::Fail(m) => m,
        other => panic!("expected a failure, got {:?}", other),
    }
}

#[test]
fn coalesce_discards_all_empty_inserts() {
    assert!(is_discard(&property_coalesce_no_adjacent_same_value(vec![])));
    assert!(is_discard(&property_coalesce_no_adjacent_same_value(vec![(3, 3, 1), (5, 2, 0)])));
}

#[test]
fn coalesce_passes_when_one_insert_is_not_empty() {
    assert!(is_pass(&property_coalesce_no_adjacent_same_value(vec![(3, 3, 1), (2, 5, 0)])));
    assert!(is_pass(&property_coalesce_no_adjacent_same_value(vec![
        (0, 4, 1),
        (4, 8, 1),
        (2, 6, 2),
        (2, 6, 1),
    ])));
}

#[test]
fn seam_verdict_reports_first_seam() {
    let v = vec![(0..2, 1), (2..4, 3), (4..6, 3), (6..8, 3)];
    assert_eq!(
        fail_message(seam_verdict(&v)),
        "uncoalesced adjacent ranges with same value: 2..4=3 then 4..6=3"
    );
}

#[test]
fn seam_verdict_writes_negative_values() {
    let v = vec![(0..2, -1), (2..4, -1)];
    assert_eq!(
        fail_message(seam_verdict(&v)),
        "uncoalesced adjacent ranges with same value: 0..2=-1 then 2..4=-1"
    );
}

#[test]
fn seam_verdict_passes_without_seam() {
    let v = vec![(0..2, 1), (2..4, 3), (5..6, 3)];
    assert!(is_pass(&seam_verdict(&v)));
    assert!(is_pass(&seam_verdict(&vec![])));
}

#[test]
fn partial_eq_property_passes() {
    assert!(is_pass(&property_partial_eq_matches_iter_eq(vec![(1, 3, 0)], vec![(1, 4, 0)])));
    assert!(is_pass(&property_partial_eq_matches_iter_eq(
        vec![(1, 2, 0), (2, 3, 0)],
        vec![(1, 3, 0)]
    )));
    assert!(is_pass(&property_partial_eq_matches_iter_eq(vec![], vec![(4, 4, 1)])));
}

#[test]
fn eq_verdict_reports_disagreement() {
    assert!(is_pass(&eq_verdict(true, true, 1, 1)));
    assert!(is_pass(&eq_verdict(false, false, 1, 2)));
    assert_eq!(
        fail_message(eq_verdict(true, false, 1, 2)),
        "a == b = true, but a.iter().eq(b.iter()) = false; a.len=1, b.len=2"
    );
}

#[test]
fn inclusive_eq_property_passes() {
    assert!(is_pass(&property_inclusive_eq_matches_iter_eq(vec![(0, 5, 0)], vec![(0, 2, 0)])));
    assert!(is_pass(&property_inclusive_eq_matches_iter_eq(
        vec![(0, 2, 0), (3, 5, 0)],
        vec![(0, 5, 0)]
    )));
}

#[test]
fn inclusive_eq_verdict_reports_disagreement() {
    assert!(is_pass(&inclusive_eq_verdict(false, false, 0, 3)));
    assert_eq!(
        fail_message(inclusive_eq_verdict(false, true, 2, 3)),
        "a == b = false, but iter_eq = true; a.len=2, b.len=3"
    );
}

#[test]
fn overlapping_property_discards_empty_query() {
    assert!(is_discard(&property_overlapping_reversible(vec![(0, 5, 1)], 4, 4)));
    assert!(is_discard(&property_overlapping_reversible(vec![(0, 5, 1)], 6, 2)));
}

#[test]
fn overlapping_property_passes() {
    assert!(is_pass(&property_overlapping_reversible(
        vec![(0, 5, 1), (10, 15, 2), (3, 12, 4)],
        2,
        11
    )));
}

#[test]
fn direction_verdict_reports_difference() {
    let f = vec![(0..5, 1)];
    let b = vec![(10..15, 2), (0..5, 1)];
    assert!(is_pass(&direction_verdict(&f, &f)));
    assert_eq!(
        fail_message(direction_verdict(&f, &b)),
        "forward=[(0..5, 1)] != rev-then-reverse=[(10..15, 2), (0..5, 1)]"
    );
}

#[test]
fn reversed_and_ranges_equal() {
    let v = vec![(0..1, 1), (1..2, 2), (5..9, 3)];
    let r = reversed(&v);
    assert_eq!(r, vec![(5..9, 3), (1..2, 2), (0..1, 1)]);
    assert!(ranges_equal(&v, &reversed(&r)));
    assert!(!ranges_equal(&v, &r));
    assert!(!ranges_equal(&v, &vec![(0..1, 1)]));
}

#[test]
fn build_maps_skip_empty_ranges() {
    let m = build_range_map(&[(1, 3, 0), (4, 4, 1), (5, 2, 1), (3, 5, 0)]).unwrap();
    assert_eq!(m.iter(), vec![(1..5, 0)]);
    assert!(build_range_map(&[(4, 4, 1), (5, 2, 1)]).is_none());
    assert!(build_range_map(&[]).is_none());
    let n = build_inclusive_map(&[(1, 3, 0), (4, 4, 0), (7, 6, 1)]);
    let got: Vec<(u32, u32, i32)> =
        n.iter().into_iter().map(|(r, v)| (*r.start(), *r.end(), v)).collect();
    assert_eq!(got, vec![(1, 4, 0)]);
}

#[test]
fn to_opt_and_to_err() {
    assert_eq!(to_opt(PropertyResult::Pass), Some(true));
    assert_eq!(to_opt(PropertyResult::Fail("x".to_string())), Some(false));
    assert_eq!(to_opt(PropertyResult::Discard), None);
    assert_eq!(to_err(PropertyResult::Pass), Ok(()));
    assert_eq!(to_err(PropertyResult::Discard), Ok(()));
    assert_eq!(to_err(PropertyResult::Fail("why".to_string())), Err("why".to_string()));
}

#[test]
fn canonical_witnesses_pass() {
    assert_eq!(canonical_coalesce(), vec![(1, 3, 0), (3, 5, 1), (3, 5, 0)]);
    assert_eq!(canonical_partial_eq(), (vec![(1, 3, 0)], vec![(1, 4, 0)]));
    assert_eq!(canonical_inclusive_eq(), (vec![(0, 5, 0)], vec![(0, 2, 0)]));
    assert_eq!(canonical_overlapping(), (vec![(0, 5, 1), (10, 15, 2)], 0, 7));
    assert_eq!(check_coalesce_no_adjacent_same_value(), Ok(()));
    assert_eq!(check_partial_eq_matches_iter_eq(), Ok(()));
    assert_eq!(check_inclusive_eq_matches_iter_eq(), Ok(()));
    assert_eq!(check_overlapping_reversible(), Ok(()));
}
