//! Framework-neutral property functions for the range maps.
//!
//! Each `property_<name>` takes concrete, owned inputs and returns a
//! [`PropertyResult`]; the test drivers and the witness tests all call these
//! functions directly, so every property-based testing tool exercises the
//! same invariant.
use std::ops::Range;
use std::ops::RangeInclusive;
use vstd::prelude::*;
use crate::inclusive_map::{
    RangeInclusiveMap, inclusive_end, inclusive_start, lemma_map_with_inclusive, map_with_inclusive,
};
use crate::map_eq::{lemma_inclusive_map_eq, lemma_range_map_eq};
use crate::text::{bool_text, dec_int, dec_nat, list_text, range_text};
use crate::range_map::{
    RangeMap, lemma_map_with_range, lemma_range_map_coalesced, map_with_range,
};

verus! {

/// The outcome of checking a property on one input.
#[derive(Debug)]
pub enum PropertyResult {
    /// The property holds.
    Pass,
    /// The property fails, with a description of the counterexample.
    Fail(String),
    /// The input does not meet the property's precondition.
    Discard,
}

/// The map that a list of `(start, end, value)` inserts builds on half-open
/// ranges, skipping each entry whose range `start..end` is empty.
pub open spec fn inserted_map(inserts: Seq<(u32, u32, i32)>) -> Map<u32, i32>
    decreases inserts.len(),
{
    if inserts.len() == 0 {
        Map::empty()
    } else {
        let x = inserts.last();
        let m = inserted_map(inserts.drop_last());
        if x.0 < x.1 {
            map_with_range(m, x.0, x.1, x.2)
        } else {
            m
        }
    }
}

/// The map that a list of `(start, end, value)` inserts builds on inclusive
/// ranges, skipping each entry whose range `start..=end` is empty.
pub open spec fn inserted_inclusive_map(inserts: Seq<(u32, u32, i32)>) -> Map<u32, i32>
    decreases inserts.len(),
{
    if inserts.len() == 0 {
        Map::empty()
    } else {
        let x = inserts.last();
        let m = inserted_inclusive_map(inserts.drop_last());
        if x.0 <= x.1 {
            map_with_inclusive(m, x.0, x.1, x.2)
        } else {
            m
        }
    }
}

/// Every insert of the list has an empty half-open range.
pub open spec fn all_ranges_empty(inserts: Seq<(u32, u32, i32)>) -> bool {
    forall|i: int| 0 <= i < inserts.len() ==> (#[trigger] inserts[i]).0 >= inserts[i].1
}

/// An input is all empty exactly when every insert `(s, e, v)` has
/// `s >= e`, whatever its value.
pub proof fn lemma_all_ranges_empty(inserts: Seq<(u32, u32, i32)>)
    ensures
        all_ranges_empty(inserts) <==> forall|i: int|
            0 <= i < inserts.len() ==> (#[trigger] inserts[i]).0 >= inserts[i].1,
        (exists|i: int| 0 <= i < inserts.len() && (#[trigger] inserts[i]).0 < inserts[i].1) ==> !all_ranges_empty(inserts),
{
}

/// The last write wins: after a list of half-open inserts, a key has a value
/// exactly when some insert's range holds it, and then it has the value of
/// the last insert whose range holds it, whatever that value is.
pub proof fn lemma_inserted_map_last_write(inserts: Seq<(u32, u32, i32)>, k: u32)
    ensures
        inserted_map(inserts).contains_key(k) <==> exists|j: int|
            0 <= j < inserts.len() && (#[trigger] inserts[j]).0 <= k < inserts[j].1,
        forall|j: int|
            0 <= j < inserts.len() && (#[trigger] inserts[j]).0 <= k < inserts[j].1 && (forall|l: int|
                j < l < inserts.len() ==> !((#[trigger] inserts[l]).0 <= k < inserts[l].1))
                ==> inserted_map(inserts)[k] == inserts[j].2,
    decreases inserts.len(),
{
    if inserts.len() > 0 {
        let t = inserts.drop_last();
        let x = inserts.last();
        let n = inserts.len() - 1;
        lemma_inserted_map_last_write(t, k);
        lemma_map_with_range(inserted_map(t), x.0, x.1, x.2);
        assert forall|j: int| 0 <= j < t.len() implies #[trigger] t[j] == inserts[j] by {}
        if inserted_map(inserts).contains_key(k) && !(x.0 <= k < x.1) {
            let j = choose|j: int| 0 <= j < t.len() && (#[trigger] t[j]).0 <= k < t[j].1;
            assert(inserts[j] == t[j]);
        }
        if exists|j: int| 0 <= j < inserts.len() && (#[trigger] inserts[j]).0 <= k < inserts[j].1 {
            let j = choose|j: int| 0 <= j < inserts.len() && (#[trigger] inserts[j]).0 <= k < inserts[j].1;
            if j < n {
                assert(t[j] == inserts[j]);
            }
        }
        assert forall|j: int|
            0 <= j < inserts.len() && (#[trigger] inserts[j]).0 <= k < inserts[j].1 && (forall|l: int|
                j < l < inserts.len() ==> !((#[trigger] inserts[l]).0 <= k < inserts[l].1))
                implies inserted_map(inserts)[k] == inserts[j].2 by {
            if j < n {
                assert(!(inserts[n].0 <= k < inserts[n].1));
                assert(t[j] == inserts[j]);
                assert forall|l: int| j < l < t.len() implies !((#[trigger] t[l]).0 <= k < t[l].1) by {
                    assert(t[l] == inserts[l]);
                }
            }
        }
    }
}

/// The last write wins on inclusive ranges: after a list of inclusive
/// inserts, a key has a value exactly when some insert's range holds it,
/// and then it has the value of the last insert whose range holds it.
pub proof fn lemma_inserted_inclusive_map_last_write(inserts: Seq<(u32, u32, i32)>, k: u32)
    ensures
        inserted_inclusive_map(inserts).contains_key(k) <==> exists|j: int|
            0 <= j < inserts.len() && (#[trigger] inserts[j]).0 <= k <= inserts[j].1,
        forall|j: int|
            0 <= j < inserts.len() && (#[trigger] inserts[j]).0 <= k <= inserts[j].1 && (forall|l: int|
                j < l < inserts.len() ==> !((#[trigger] inserts[l]).0 <= k <= inserts[l].1))
                ==> inserted_inclusive_map(inserts)[k] == inserts[j].2,
    decreases inserts.len(),
{
    if inserts.len() > 0 {
        let t = inserts.drop_last();
        let x = inserts.last();
        let n = inserts.len() - 1;
        lemma_inserted_inclusive_map_last_write(t, k);
        lemma_map_with_inclusive(inserted_inclusive_map(t), x.0, x.1, x.2);
        assert forall|j: int| 0 <= j < t.len() implies #[trigger] t[j] == inserts[j] by {}
        if inserted_inclusive_map(inserts).contains_key(k) && !(x.0 <= k <= x.1) {
            let j = choose|j: int| 0 <= j < t.len() && (#[trigger] t[j]).0 <= k <= t[j].1;
            assert(inserts[j] == t[j]);
        }
        if exists|j: int| 0 <= j < inserts.len() && (#[trigger] inserts[j]).0 <= k <= inserts[j].1 {
            let j = choose|j: int| 0 <= j < inserts.len() && (#[trigger] inserts[j]).0 <= k <= inserts[j].1;
            if j < n {
                assert(t[j] == inserts[j]);
            }
        }
        assert forall|j: int|
            0 <= j < inserts.len() && (#[trigger] inserts[j]).0 <= k <= inserts[j].1 && (forall|l: int|
                j < l < inserts.len() ==> !((#[trigger] inserts[l]).0 <= k <= inserts[l].1))
                implies inserted_inclusive_map(inserts)[k] == inserts[j].2 by {
            if j < n {
                assert(!(inserts[n].0 <= k <= inserts[n].1));
                assert(t[j] == inserts[j]);
                assert forall|l: int| j < l < t.len() implies !((#[trigger] t[l]).0 <= k <= t[l].1) by {
                    assert(t[l] == inserts[l]);
                }
            }
        }
    }
}

/// Stored range `i` ends where range `i + 1` starts, with the same value.
pub open spec fn is_seam(v: Seq<(Range<u32>, i32)>, i: int) -> bool {
    0 <= i && i + 1 < v.len() && v[i].0.end == v[i + 1].0.start && v[i].1 == v[i + 1].1
}

/// `i` is the first seam of `v`.
pub open spec fn is_first_seam(v: Seq<(Range<u32>, i32)>, i: int) -> bool {
    is_seam(v, i) && forall|j: int| 0 <= j < i ==> !is_seam(v, j)
}

/// The `(start, end, value)` of stored ranges, for messages.
pub open spec fn range_triples(v: Seq<(Range<u32>, i32)>) -> Seq<(u32, u32, i32)> {
    v.map_values(|x: (Range<u32>, i32)| (x.0.start, x.0.end, x.1))
}

/// The message for a seam between two stored ranges.
pub open spec fn seam_message(a: (u32, u32, i32), b: (u32, u32, i32)) -> Seq<char> {
    "uncoalesced adjacent ranges with same value: "@ + range_text(a.0, a.1) + "="@ + dec_int(a.2 as int)
        + " then "@ + range_text(b.0, b.1) + "="@ + dec_int(b.2 as int)
}

/// The message when `==` and the comparison of the iterated ranges
/// disagree on two half-open maps.
pub open spec fn eq_mismatch_message(eq: bool, iter_eq: bool, a_len: usize, b_len: usize) -> Seq<char> {
    "a == b = "@ + bool_text(eq) + ", but a.iter().eq(b.iter()) = "@ + bool_text(iter_eq) + "; a.len="@
        + dec_nat(a_len as nat) + ", b.len="@ + dec_nat(b_len as nat)
}

/// The message when `==` and the comparison of the iterated ranges
/// disagree on two inclusive maps.
pub open spec fn inclusive_eq_mismatch_message(
    eq: bool,
    iter_eq: bool,
    a_len: usize,
    b_len: usize,
) -> Seq<char> {
    "a == b = "@ + bool_text(eq) + ", but iter_eq = "@ + bool_text(iter_eq) + "; a.len="@ + dec_nat(
        a_len as nat,
    ) + ", b.len="@ + dec_nat(b_len as nat)
}

/// The message when the forward and the reversed backward overlapping
/// ranges differ.
pub open spec fn direction_message(
    forward: Seq<(u32, u32, i32)>,
    backward: Seq<(u32, u32, i32)>,
) -> Seq<char> {
    "forward="@ + list_text(forward) + " != rev-then-reverse="@ + list_text(backward)
}

/// `format!` of the seam message: std writes a `Range<u32>` as
/// `start..end` and integers in decimal.
#[verifier::external_body]
fn format_seam(a: &(Range<u32>, i32), b: &(Range<u32>, i32)) -> (m: String)
    ensures
        m@ == seam_message((a.0.start, a.0.end, a.1), (b.0.start, b.0.end, b.1)),
{
    format!("uncoalesced adjacent ranges with same value: {:?}={} then {:?}={}", a.0, a.1, b.0, b.1)
}

/// `format!` of the mismatch message: std writes booleans as `true` or
/// `false` and integers in decimal.
#[verifier::external_body]
fn format_eq_mismatch(eq: bool, iter_eq: bool, a_len: usize, b_len: usize) -> (m: String)
    ensures
        m@ == eq_mismatch_message(eq, iter_eq, a_len, b_len),
{
    format!("a == b = {}, but a.iter().eq(b.iter()) = {}; a.len={}, b.len={}", eq, iter_eq, a_len, b_len)
}

/// `format!` of the mismatch message: std writes booleans as `true` or
/// `false` and integers in decimal.
#[verifier::external_body]
fn format_inclusive_eq_mismatch(eq: bool, iter_eq: bool, a_len: usize, b_len: usize) -> (m: String)
    ensures
        m@ == inclusive_eq_mismatch_message(eq, iter_eq, a_len, b_len),
{
    format!("a == b = {}, but iter_eq = {}; a.len={}, b.len={}", eq, iter_eq, a_len, b_len)
}

/// `format!` of the direction message: std writes a `Vec` as `[a, b]`, a
/// pair as `(x, y)`, a `Range<u32>` as `start..end` and integers in decimal.
#[verifier::external_body]
fn format_direction(forward: &Vec<(Range<u32>, i32)>, backward: &Vec<(Range<u32>, i32)>) -> (m: String)
    ensures
        m@ == direction_message(range_triples(forward@), range_triples(backward@)),
{
    format!("forward={:?} != rev-then-reverse={:?}", forward, backward)
}

/// Builds a half-open range map from `(start, end, value)` inserts, in
/// order, skipping each entry whose range is empty.  Returns `None` if the
/// entire input was invalid, that is, if every range is empty.
pub fn build_range_map(inserts: &[(u32, u32, i32)]) -> (res: Option<RangeMap>)
    ensures
        res is None <==> all_ranges_empty(inserts@),
        res is None <==> forall|i: int| 0 <= i < inserts@.len() ==> (#[trigger] inserts@[i]).0 >= inserts@[i].1,
        res matches Some(m) ==> m.wf() && m@ == inserted_map(inserts@),
        res matches Some(m) ==> forall|k: u32|
            #[trigger] m@.contains_key(k) <==> exists|j: int|
                0 <= j < inserts@.len() && (#[trigger] inserts@[j]).0 <= k < inserts@[j].1,
        res matches Some(m) ==> forall|k: u32, j: int|
            0 <= j < inserts@.len() && (#[trigger] inserts@[j]).0 <= k < inserts@[j].1 && (forall|l: int|
                j < l < inserts@.len() ==> !((#[trigger] inserts@[l]).0 <= k < inserts@[l].1))
                ==> #[trigger] m@[k] == inserts@[j].2,
{
    proof {
        lemma_all_ranges_empty(inserts@);
    }
    let mut m = RangeMap::new();
    let mut any_valid = false;
    let mut i: usize = 0;
    while i < inserts.len()
        invariant
            0 <= i <= inserts@.len(),
            m.wf(),
            m@ == inserted_map(inserts@.take(i as int)),
            any_valid == exists|j: int| 0 <= j < i && (#[trigger] inserts@[j]).0 < inserts@[j].1,
        decreases inserts@.len() - i,
    {
        let (s, e, v) = inserts[i];
        proof {
            assert(inserts@.take(i + 1).drop_last() =~= inserts@.take(i as int));
        }
        if s < e {
            m.insert(s..e, v);
            any_valid = true;
        }
        i = i + 1;
    }
    proof {
        assert(inserts@.take(inserts@.len() as int) =~= inserts@);
    }
    proof {
        assert forall|k: u32| #[trigger] m@.contains_key(k) <==> exists|j: int|
            0 <= j < inserts@.len() && (#[trigger] inserts@[j]).0 <= k < inserts@[j].1 by {
            lemma_inserted_map_last_write(inserts@, k);
        }
        assert forall|k: u32, j: int|
            0 <= j < inserts@.len() && (#[trigger] inserts@[j]).0 <= k < inserts@[j].1 && (forall|l: int|
                j < l < inserts@.len() ==> !((#[trigger] inserts@[l]).0 <= k < inserts@[l].1))
                implies #[trigger] m@[k] == inserts@[j].2 by {
            lemma_inserted_map_last_write(inserts@, k);
        }
    }
    if any_valid {
        Some(m)
    } else {
        None
    }
}

/// The map that a list of inserts builds, the empty map where every range
/// of the list is empty.
fn range_map_or_empty(inserts: &[(u32, u32, i32)]) -> (m: RangeMap)
    ensures
        m.wf(),
        m@ == inserted_map(inserts@),
{
    match build_range_map(inserts) {
        Some(m) => m,
        None => {
            proof {
                lemma_empty_inserts(inserts@);
            }
            RangeMap::new()
        },
    }
}

/// A list of inserts whose ranges are all empty builds the empty map.
proof fn lemma_empty_inserts(inserts: Seq<(u32, u32, i32)>)
    requires
        all_ranges_empty(inserts),
    ensures
        inserted_map(inserts) == Map::<u32, i32>::empty(),
    decreases inserts.len(),
{
    if inserts.len() > 0 {
        let t = inserts.drop_last();
        assert forall|i: int| 0 <= i < t.len() implies (#[trigger] t[i]).0 >= t[i].1 by {
            assert(t[i] == inserts[i]);
        }
        assert(inserts[inserts.len() - 1].0 >= inserts[inserts.len() - 1].1);
        lemma_empty_inserts(t);
    }
}

/// Builds an inclusive range map from `(start, end, value)` inserts, in
/// order, skipping each entry whose range is empty.
pub fn build_inclusive_map(inserts: &[(u32, u32, i32)]) -> (m: RangeInclusiveMap)
    ensures
        m.wf(),
        m@ == inserted_inclusive_map(inserts@),
        forall|k: u32|
            #[trigger] m@.contains_key(k) <==> exists|j: int|
                0 <= j < inserts@.len() && (#[trigger] inserts@[j]).0 <= k <= inserts@[j].1,
        forall|k: u32, j: int|
            0 <= j < inserts@.len() && (#[trigger] inserts@[j]).0 <= k <= inserts@[j].1 && (forall|l: int|
                j < l < inserts@.len() ==> !((#[trigger] inserts@[l]).0 <= k <= inserts@[l].1))
                ==> #[trigger] m@[k] == inserts@[j].2,
{
    let mut m = RangeInclusiveMap::new();
    let mut i: usize = 0;
    while i < inserts.len()
        invariant
            0 <= i <= inserts@.len(),
            m.wf(),
            m@ == inserted_inclusive_map(inserts@.take(i as int)),
        decreases inserts@.len() - i,
    {
        let (s, e, v) = inserts[i];
        proof {
            assert(inserts@.take(i + 1).drop_last() =~= inserts@.take(i as int));
        }
        if s <= e {
            m.insert(RangeInclusive::new(s, e), v);
        }
        i = i + 1;
    }
    proof {
        assert(inserts@.take(inserts@.len() as int) =~= inserts@);
    }
    proof {
        assert forall|k: u32| #[trigger] m@.contains_key(k) <==> exists|j: int|
            0 <= j < inserts@.len() && (#[trigger] inserts@[j]).0 <= k <= inserts@[j].1 by {
            lemma_inserted_inclusive_map_last_write(inserts@, k);
        }
        assert forall|k: u32, j: int|
            0 <= j < inserts@.len() && (#[trigger] inserts@[j]).0 <= k <= inserts@[j].1 && (forall|l: int|
                j < l < inserts@.len() ==> !((#[trigger] inserts@[l]).0 <= k <= inserts@[l].1))
                implies #[trigger] m@[k] == inserts@[j].2 by {
            lemma_inserted_inclusive_map_last_write(inserts@, k);
        }
    }
    m
}

/// Checks a list of stored ranges for a seam: two consecutive ranges that
/// touch and carry the same value.  Fails on the first seam.
pub fn seam_verdict(collected: &Vec<(Range<u32>, i32)>) -> (r: PropertyResult)
    ensures
        (forall|i: int| !is_seam(collected@, i)) ==> r is Pass,
        forall|i: int|
            is_first_seam(collected@, i) ==> (r matches PropertyResult::Fail(m) && m@
                == seam_message(
                (collected@[i].0.start, collected@[i].0.end, collected@[i].1),
                (collected@[i + 1].0.start, collected@[i + 1].0.end, collected@[i + 1].1),
            )),
        r is Pass <==> forall|i: int|
            0 <= i && i + 1 < collected@.len() ==> !(#[trigger] collected@[i].0.end == collected@[i
                + 1].0.start && collected@[i].1 == collected@[i + 1].1),
        r is Pass || r is Fail,
{
    let n = collected.len();
    let mut i: usize = 0;
    while n > 0 && i < n - 1
        invariant
            n == collected@.len(),
            0 <= i <= n,
            forall|j: int| 0 <= j < i ==> !is_seam(collected@, j),
        decreases n - i,
    {
        let a = &collected[i];
        let b = &collected[i + 1];
        if a.0.end == b.0.start && a.1 == b.1 {
            let m = format_seam(a, b);
            proof {
                assert(is_first_seam(collected@, i as int));
                assert forall|j: int| is_first_seam(collected@, j) implies j == i by {
                    if j < i {
                        assert(!is_seam(collected@, j));
                    } else if j > i {
                        assert(!is_seam(collected@, i as int));
                    }
                }
            }
            proof {
                assert(collected@[i as int].0.end == collected@[i + 1].0.start && collected@[i as int].1
                    == collected@[i + 1].1);
            }
            return PropertyResult::Fail(m);
        }
        i = i + 1;
    }
    proof {
        assert forall|j: int| !is_seam(collected@, j) by {
            if 0 <= j < i {
            }
        }
        assert forall|j: int|
            0 <= j && j + 1 < collected@.len() implies !(#[trigger] collected@[j].0.end == collected@[j
                + 1].0.start && collected@[j].1 == collected@[j + 1].1) by {
            assert(!is_seam(collected@, j));
        }
    }
    PropertyResult::Pass
}

/// After any sequence of inserts into a half-open range map, no two
/// consecutive stored ranges touch and carry the same value: such pairs
/// are coalesced by `insert`.  Discards inputs whose ranges are all empty.
pub fn property_coalesce_no_adjacent_same_value(inserts: Vec<(u32, u32, i32)>) -> (r: PropertyResult)
    ensures
        r == if all_ranges_empty(inserts@) {
            PropertyResult::Discard
        } else {
            PropertyResult::Pass
        },
        (forall|i: int| 0 <= i < inserts@.len() ==> (#[trigger] inserts@[i]).0 >= inserts@[i].1) ==> r
            is Discard,
        (exists|i: int| 0 <= i < inserts@.len() && (#[trigger] inserts@[i]).0 < inserts@[i].1) ==> r
            is Pass,
{
    proof {
        lemma_all_ranges_empty(inserts@);
    }
    let mut all_empty = true;
    let mut i: usize = 0;
    while i < inserts.len()
        invariant
            0 <= i <= inserts@.len(),
            all_empty == forall|j: int| 0 <= j < i ==> (#[trigger] inserts@[j]).0 >= inserts@[j].1,
        decreases inserts@.len() - i,
    {
        if inserts[i].0 < inserts[i].1 {
            all_empty = false;
        }
        i = i + 1;
    }
    if all_empty {
        return PropertyResult::Discard;
    }
    let m = match build_range_map(inserts.as_slice()) {
        Some(m) => m,
        None => {
            return PropertyResult::Discard;
        },
    };
    let collected = m.iter();
    proof {
        lemma_range_map_coalesced(&m);
        assert forall|j: int| !is_seam(collected@, j) by {
            if 0 <= j && j + 1 < collected@.len() && collected@[j].0.end == collected@[j + 1].0.start {
                assert(m.ranges()[j].1 != m.ranges()[j + 1].1);
            }
        }
    }
    seam_verdict(&collected)
}

/// Whether two lists of stored ranges are equal, range by range.
pub fn ranges_equal(a: &Vec<(Range<u32>, i32)>, b: &Vec<(Range<u32>, i32)>) -> (r: bool)
    ensures
        r == (a@ == b@),
{
    if a.len() != b.len() {
        return false;
    }
    let mut i: usize = 0;
    while i < a.len()
        invariant
            a@.len() == b@.len(),
            0 <= i <= a@.len(),
            forall|j: int| 0 <= j < i ==> a@[j] == b@[j],
        decreases a@.len() - i,
    {
        let x = &a[i];
        let y = &b[i];
        if x.0.start != y.0.start || x.0.end != y.0.end || x.1 != y.1 {
            proof {
                assert(a@[i as int] != b@[i as int]);
            }
            return false;
        }
        proof {
            assert(a@[i as int] == b@[i as int]);
        }
        i = i + 1;
    }
    proof {
        assert(a@ =~= b@);
    }
    true
}

/// The verdict on two half-open maps: `==` must agree with the comparison
/// of their iterated ranges.
pub fn eq_verdict(eq: bool, iter_eq: bool, a_len: usize, b_len: usize) -> (r: PropertyResult)
    ensures
        eq == iter_eq ==> r is Pass,
        eq != iter_eq ==> (r matches PropertyResult::Fail(m) && m@ == eq_mismatch_message(
            eq,
            iter_eq,
            a_len,
            b_len,
        )),
{
    if eq == iter_eq {
        PropertyResult::Pass
    } else {
        PropertyResult::Fail(format_eq_mismatch(eq, iter_eq, a_len, b_len))
    }
}

/// For two half-open range maps `a` and `b`, `a == b` holds exactly when
/// their iterated ranges are equal.
pub fn property_partial_eq_matches_iter_eq(
    inserts_a: Vec<(u32, u32, i32)>,
    inserts_b: Vec<(u32, u32, i32)>,
) -> (r: PropertyResult)
    ensures
        r == PropertyResult::Pass,
{
    let a = range_map_or_empty(inserts_a.as_slice());
    let b = range_map_or_empty(inserts_b.as_slice());
    let eq_result = a == b;
    let iter_eq = ranges_equal(&a.iter(), &b.iter());
    proof {
        lemma_range_map_eq(&a, &b);
    }
    eq_verdict(eq_result, iter_eq, a.len(), b.len())
}

/// Whether two lists of stored inclusive ranges are equal, range by range.
pub fn inclusive_ranges_equal(a: &Vec<(RangeInclusive<u32>, i32)>, b: &Vec<(RangeInclusive<u32>, i32)>) -> (r: bool)
    requires
        forall|i: int| 0 <= i < a@.len() ==> !(#[trigger] a@[i]).0@.exhausted,
        forall|i: int| 0 <= i < b@.len() ==> !(#[trigger] b@[i]).0@.exhausted,
    ensures
        r == (a@.len() == b@.len() && forall|i: int|
            0 <= i < a@.len() ==> (#[trigger] a@[i]).0@.start == b@[i].0@.start && a@[i].0@.end
                == b@[i].0@.end && a@[i].1 == b@[i].1),
{
    if a.len() != b.len() {
        return false;
    }
    let mut i: usize = 0;
    while i < a.len()
        invariant
            a@.len() == b@.len(),
            0 <= i <= a@.len(),
            forall|j: int| 0 <= j < a@.len() ==> !(#[trigger] a@[j]).0@.exhausted,
            forall|j: int| 0 <= j < b@.len() ==> !(#[trigger] b@[j]).0@.exhausted,
            forall|j: int|
                0 <= j < i ==> (#[trigger] a@[j]).0@.start == b@[j].0@.start && a@[j].0@.end
                    == b@[j].0@.end && a@[j].1 == b@[j].1,
        decreases a@.len() - i,
    {
        let x = &a[i];
        let y = &b[i];
        if inclusive_start(&x.0) != inclusive_start(&y.0) || inclusive_end(&x.0) != inclusive_end(&y.0)
            || x.1 != y.1 {
            return false;
        }
        i = i + 1;
    }
    true
}

/// The verdict on two inclusive maps: `==` must agree with the comparison
/// of their iterated ranges.
pub fn inclusive_eq_verdict(eq: bool, iter_eq: bool, a_len: usize, b_len: usize) -> (r: PropertyResult)
    ensures
        eq == iter_eq ==> r is Pass,
        eq != iter_eq ==> (r matches PropertyResult::Fail(m) && m@ == inclusive_eq_mismatch_message(
            eq,
            iter_eq,
            a_len,
            b_len,
        )),
{
    if eq == iter_eq {
        PropertyResult::Pass
    } else {
        PropertyResult::Fail(format_inclusive_eq_mismatch(eq, iter_eq, a_len, b_len))
    }
}

/// For two inclusive range maps `a` and `b`, `a == b` holds exactly when
/// their iterated ranges are equal.
pub fn property_inclusive_eq_matches_iter_eq(
    inserts_a: Vec<(u32, u32, i32)>,
    inserts_b: Vec<(u32, u32, i32)>,
) -> (r: PropertyResult)
    ensures
        r == PropertyResult::Pass,
{
    let a = build_inclusive_map(inserts_a.as_slice());
    let b = build_inclusive_map(inserts_b.as_slice());
    let eq_result = a == b;
    let va = a.iter();
    let vb = b.iter();
    let iter_eq = inclusive_ranges_equal(&va, &vb);
    proof {
        lemma_inclusive_map_eq(&a, &b);
        if iter_eq {
            assert forall|i: int| 0 <= i < a.ranges().len() implies a.ranges()[i] == b.ranges()[i] by {
                assert(va@[i].0@.start == vb@[i].0@.start);
            }
            assert(a.ranges() =~= b.ranges());
        }
        if a.ranges() == b.ranges() {
            assert forall|i: int| 0 <= i < va@.len() implies (#[trigger] va@[i]).0@.start == vb@[i].0@.start
                && va@[i].0@.end == vb@[i].0@.end && va@[i].1 == vb@[i].1 by {
                assert(a.ranges()[i] == b.ranges()[i]);
            }
        }
    }
    inclusive_eq_verdict(eq_result, iter_eq, a.len(), b.len())
}

/// The list in reverse order.
pub fn reversed(v: &Vec<(Range<u32>, i32)>) -> (res: Vec<(Range<u32>, i32)>)
    ensures
        res@ == v@.reverse(),
{
    let mut out: Vec<(Range<u32>, i32)> = Vec::new();
    let mut i: usize = v.len();
    while i > 0
        invariant
            0 <= i <= v@.len(),
            out@.len() == v@.len() - i,
            forall|j: int| 0 <= j < out@.len() ==> out@[j] == v@[v@.len() - 1 - j],
        decreases i,
    {
        let x = &v[i - 1];
        out.push((Range { start: x.0.start, end: x.0.end }, x.1));
        i = i - 1;
    }
    proof {
        assert(out@ =~= v@.reverse());
    }
    out
}

/// The verdict on the overlapping ranges read forwards and read backwards
/// then reversed: the two lists must be equal.
pub fn direction_verdict(forward: &Vec<(Range<u32>, i32)>, backward: &Vec<(Range<u32>, i32)>) -> (r: PropertyResult)
    ensures
        forward@ == backward@ ==> r is Pass,
        forward@ != backward@ ==> (r matches PropertyResult::Fail(m) && m@ == direction_message(
            range_triples(forward@),
            range_triples(backward@),
        )),
{
    if ranges_equal(forward, backward) {
        PropertyResult::Pass
    } else {
        PropertyResult::Fail(format_direction(forward, backward))
    }
}

/// For any half-open range map and any non-empty query range, the ranges
/// that overlap the query read forwards equal those read backwards and then
/// reversed.  Discards empty or reversed queries.
pub fn property_overlapping_reversible(
    inserts: Vec<(u32, u32, i32)>,
    query_start: u32,
    query_end: u32,
) -> (r: PropertyResult)
    ensures
        r == if query_start >= query_end {
            PropertyResult::Discard
        } else {
            PropertyResult::Pass
        },
{
    if query_start >= query_end {
        return PropertyResult::Discard;
    }
    let m = range_map_or_empty(inserts.as_slice());
    let q: Range<u32> = query_start..query_end;
    let forward = m.overlapping(&q);
    let backward = reversed(&m.overlapping_rev(&q));
    proof {
        let f = m.overlapping_ranges(query_start, query_end);
        assert(f.reverse().reverse() =~= f);
    }
    direction_verdict(&forward, &backward)
}

/// The verdict as a flag for drivers that want one: `Some(true)` for a
/// pass, `Some(false)` for a failure, `None` for a discarded input.
pub fn to_opt(r: PropertyResult) -> (o: Option<bool>)
    ensures
        o == match r {
            PropertyResult::Pass => Some(true),
            PropertyResult::Fail(_) => Some(false),
            PropertyResult::Discard => None,
        },
{
    match r {
        PropertyResult::Pass => Some(true),
        PropertyResult::Fail(_) => Some(false),
        PropertyResult::Discard => None,
    }
}

/// The verdict as a `Result` for drivers that want one: a failure gives its
/// message, a pass or a discarded input gives `Ok`.
pub fn to_err(r: PropertyResult) -> (res: Result<(), String>)
    ensures
        match r {
            PropertyResult::Fail(m) => res == Err::<(), String>(m),
            _ => res is Ok,
        },
{
    match r {
        PropertyResult::Pass | PropertyResult::Discard => Ok(()),
        PropertyResult::Fail(m) => Err(m),
    }
}

} // verus!
