//! Witness tests: each `witness_<name>_case_<tag>` calls one property
//! function with frozen concrete inputs that exercise a historical failure
//! mode of the range maps.

use rangemap::etna::{
    property_coalesce_no_adjacent_same_value, property_inclusive_eq_matches_iter_eq,
    property_overlapping_reversible, property_partial_eq_matches_iter_eq, PropertyResult,
};

fn assert_pass(r: PropertyResult) {
    match r {
        PropertyResult::Pass | PropertyResult::Discard => {}
        PropertyResult::Fail(m) => panic!("property failed: {}", m),
    }
}

/// Insert `1..3 => 0`, then `3..5 => 1`, then replace `3..5 => 0`: the
/// trailing `3..5 => 0` must be coalesced with `1..3 => 0` into `1..5 => 0`.
#[test]
fn witness_coalesce_no_adjacent_same_value_case_replace_middle() {
    assert_pass(property_coalesce_no_adjacent_same_value(vec![
        (1, 3, 0),
        (3, 5, 1),
        (3, 5, 0),
    ]));
}

/// Two maps with the same range start but different ends must not compare
/// equal.
#[test]
fn witness_partial_eq_matches_iter_eq_case_same_start_different_end() {
    assert_pass(property_partial_eq_matches_iter_eq(
        vec![(1, 3, 0)],
        vec![(1, 4, 0)],
    ));
}

/// Two inclusive maps with the same range start but different ends must
/// not compare equal.
#[test]
fn witness_inclusive_eq_matches_iter_eq_case_same_start_different_end() {
    assert_pass(property_inclusive_eq_matches_iter_eq(
        vec![(0, 5, 0)],
        vec![(0, 2, 0)],
    ));
}

/// Stored ranges `0..5` and `10..15`, query `0..7`: reading backwards must
/// skip `10..15` and still find `0..5`.
#[test]
fn witness_overlapping_reversible_case_trailing_non_overlap() {
    assert_pass(property_overlapping_reversible(
        vec![(0, 5, 1), (10, 15, 2)],
        0,
        7,
    ));
}
