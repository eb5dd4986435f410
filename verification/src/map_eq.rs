//! Equality of range maps: two maps are equal when they store the same
//! ranges with the same values.  Since the stored ranges are canonical,
//! this is the same as holding the same keys with the same values.
use vstd::prelude::*;
use vstd::std_specs::cmp::{PartialEqSpec, PartialEqSpecImpl};
use crate::inclusive_map::{RangeInclusiveMap, lemma_inclusive_map_canonical};
use crate::range_map::{RangeMap, lemma_range_map_canonical};

verus! {

impl PartialEq for RangeMap {
    fn eq(&self, other: &Self) -> (r: bool) {
        self.same_ranges(other)
    }
}

impl PartialEqSpecImpl for RangeMap {
    open spec fn obeys_eq_spec() -> bool {
        true
    }

    open spec fn eq_spec(&self, other: &Self) -> bool {
        self.segments() == other.segments()
    }
}

impl PartialEq for RangeInclusiveMap {
    fn eq(&self, other: &Self) -> (r: bool) {
        self.same_ranges(other)
    }
}

impl PartialEqSpecImpl for RangeInclusiveMap {
    open spec fn obeys_eq_spec() -> bool {
        true
    }

    open spec fn eq_spec(&self, other: &Self) -> bool {
        self.segments() == other.segments()
    }
}

/// Two well-formed maps are `==` exactly when they hold the same keys with
/// the same values, and exactly when they store the same ranges.
pub proof fn lemma_range_map_eq(a: &RangeMap, b: &RangeMap)
    requires
        a.wf(),
        b.wf(),
    ensures
        PartialEqSpec::eq_spec(a, b) == (a@ == b@),
        PartialEqSpec::eq_spec(a, b) == (a.ranges() == b.ranges()),
{
    lemma_range_map_canonical(a, b);
    RangeMap::lemma_segments_ranges(a, b);
}

/// Two well-formed inclusive maps are `==` exactly when they hold the same
/// keys with the same values, and exactly when they store the same ranges.
pub proof fn lemma_inclusive_map_eq(a: &RangeInclusiveMap, b: &RangeInclusiveMap)
    requires
        a.wf(),
        b.wf(),
    ensures
        PartialEqSpec::eq_spec(a, b) == (a@ == b@),
        PartialEqSpec::eq_spec(a, b) == (a.ranges() == b.ranges()),
{
    lemma_inclusive_map_canonical(a, b);
    RangeInclusiveMap::lemma_segments_ranges(a, b);
}

} // verus!
