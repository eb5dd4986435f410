//! The canonical witness inputs, one per property, and the checks that run
//! each property on its witness.
use vstd::prelude::*;
use crate::etna::{
    property_coalesce_no_adjacent_same_value, property_inclusive_eq_matches_iter_eq,
    property_overlapping_reversible, property_partial_eq_matches_iter_eq, to_err,
};

verus! {

/// Insert `1..3 => 0`, `3..5 => 1`, then replace `3..5 => 0`.
pub fn canonical_coalesce() -> (items: Vec<(u32, u32, i32)>)
    ensures
        items@ == seq![(1u32, 3u32, 0i32), (3, 5, 1), (3, 5, 0)],
{
    let items = vec![(1u32, 3u32, 0i32), (3, 5, 1), (3, 5, 0)];
    assert(items@ =~= seq![(1u32, 3u32, 0i32), (3, 5, 1), (3, 5, 0)]);
    items
}

/// Two half-open maps with the same range start and different ends.
pub fn canonical_partial_eq() -> (ab: (Vec<(u32, u32, i32)>, Vec<(u32, u32, i32)>))
    ensures
        ab.0@ == seq![(1u32, 3u32, 0i32)],
        ab.1@ == seq![(1u32, 4u32, 0i32)],
{
    let a = vec![(1u32, 3u32, 0i32)];
    let b = vec![(1u32, 4u32, 0i32)];
    assert(a@ =~= seq![(1u32, 3u32, 0i32)]);
    assert(b@ =~= seq![(1u32, 4u32, 0i32)]);
    (a, b)
}

/// Two inclusive maps with the same range start and different ends.
pub fn canonical_inclusive_eq() -> (ab: (Vec<(u32, u32, i32)>, Vec<(u32, u32, i32)>))
    ensures
        ab.0@ == seq![(0u32, 5u32, 0i32)],
        ab.1@ == seq![(0u32, 2u32, 0i32)],
{
    let a = vec![(0u32, 5u32, 0i32)];
    let b = vec![(0u32, 2u32, 0i32)];
    assert(a@ =~= seq![(0u32, 5u32, 0i32)]);
    assert(b@ =~= seq![(0u32, 2u32, 0i32)]);
    (a, b)
}

/// Stored ranges `0..5` and `10..15` with the query `0..7`.
pub fn canonical_overlapping() -> (input: (Vec<(u32, u32, i32)>, u32, u32))
    ensures
        input.0@ == seq![(0u32, 5u32, 1i32), (10, 15, 2)],
        input.1 == 0,
        input.2 == 7,
{
    let items = vec![(0u32, 5u32, 1i32), (10, 15, 2)];
    assert(items@ =~= seq![(0u32, 5u32, 1i32), (10, 15, 2)]);
    (items, 0, 7)
}

/// Runs the coalescing property on its witness.
pub fn check_coalesce_no_adjacent_same_value() -> (res: Result<(), String>)
    ensures
        res is Ok,
{
    to_err(property_coalesce_no_adjacent_same_value(canonical_coalesce()))
}

/// Runs the half-open equality property on its witness.
pub fn check_partial_eq_matches_iter_eq() -> (res: Result<(), String>)
    ensures
        res is Ok,
{
    let (a, b) = canonical_partial_eq();
    to_err(property_partial_eq_matches_iter_eq(a, b))
}

/// Runs the inclusive equality property on its witness.
pub fn check_inclusive_eq_matches_iter_eq() -> (res: Result<(), String>)
    ensures
        res is Ok,
{
    let (a, b) = canonical_inclusive_eq();
    to_err(property_inclusive_eq_matches_iter_eq(a, b))
}

/// Runs the overlapping-reversal property on its witness.
pub fn check_overlapping_reversible() -> (res: Result<(), String>)
    ensures
        res is Ok,
{
    let (items, qs, qe) = canonical_overlapping();
    to_err(property_overlapping_reversible(items, qs, qe))
}

} // verus!
