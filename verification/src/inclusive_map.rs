//! A map from inclusive ranges of `u32` keys to `i32` values.
//!
//! The inclusive range `start..=end` is kept as the half-open segment
//! `[start, end + 1)` of `u64` keys, so that a range may end at `u32::MAX`.
//! Two ranges touch when one ends right before the other starts; touching
//! ranges that carry the same value are coalesced.
use std::ops::RangeInclusive;
use vstd::prelude::*;
use crate::segment_map::{
    Segment, SegmentMap, lemma_canonical, lemma_lookup_held, lemma_lookup_some,
    lemma_lookup_unheld, lookup, seg_holds,
};

verus! {

/// `RangeInclusive::start`: the lower bound of the range.  Its
/// documentation leaves the bound unspecified once the range has been
/// iterated to exhaustion, so only ranges that have not been are accepted.
#[verifier::external_body]
pub(crate) fn inclusive_start(r: &RangeInclusive<u32>) -> (s: u32)
    requires
        !r@.exhausted,
    ensures
        s == r@.start,
{
    *r.start()
}

/// `RangeInclusive::end`: the upper (inclusive) bound of the range.  Its
/// documentation leaves the bound unspecified once the range has been
/// iterated to exhaustion, so only ranges that have not been are accepted.
#[verifier::external_body]
pub(crate) fn inclusive_end(r: &RangeInclusive<u32>) -> (e: u32)
    requires
        !r@.exhausted,
    ensures
        e == r@.end,
{
    *r.end()
}

/// The stored `(start, end, value)` of a segment: `end` is inclusive.
pub open spec fn seg_to_bounds(x: Segment) -> (u32, u32, i32) {
    (x.0 as u32, (x.1 - 1) as u32, x.2)
}

/// A map from inclusive `u32` ranges to `i32` values, kept in canonical
/// (sorted, disjoint, coalesced) form.
pub struct RangeInclusiveMap {
    inner: SegmentMap,
}

impl View for RangeInclusiveMap {
    type V = Map<u32, i32>;

    /// The value of each key that the map holds.
    closed spec fn view(&self) -> Map<u32, i32> {
        Map::new(|k: u32| self.inner.get(k as int) is Some, |k: u32| self.inner.get(k as int)->0)
    }
}

/// The map after giving every key of `start..=end` the value `v`.
pub open spec fn map_with_inclusive(m: Map<u32, i32>, start: u32, end: u32, v: i32) -> Map<u32, i32> {
    m.union_prefer_right(Map::new(|k: u32| start <= k <= end, |k: u32| v))
}

/// Writing a value on a range: every key of `start..=end` then holds
/// exactly `v`, and every other key keeps whatever it held (or did not hold)
/// before.
pub proof fn lemma_map_with_inclusive(m: Map<u32, i32>, start: u32, end: u32, v: i32)
    ensures
        forall|k: u32| start <= k <= end ==> map_with_inclusive(m, start, end, v).contains_key(k)
            && #[trigger] map_with_inclusive(m, start, end, v)[k] == v,
        forall|k: u32|
            !(start <= k <= end) ==> (map_with_inclusive(m, start, end, v).contains_key(k) == m.contains_key(k)
                && (m.contains_key(k) ==> #[trigger] map_with_inclusive(m, start, end, v)[k] == m[k])),
{
}

impl RangeInclusiveMap {
    /// The map is canonical and every range fits in `u32`.
    pub closed spec fn wf(&self) -> bool {
        &&& self.inner.wf()
        &&& forall|i: int|
            0 <= i < self.inner.segments().len() ==> (#[trigger] self.inner.segments()[i]).1
                <= u32::MAX + 1
    }

    /// The underlying segments.
    pub closed spec fn segments(&self) -> Seq<Segment> {
        self.inner.segments()
    }

    /// The stored ranges as `(start, end, value)` with `end` inclusive, in
    /// order.
    pub closed spec fn ranges(&self) -> Seq<(u32, u32, i32)> {
        self.inner.segments().map_values(|x: Segment| seg_to_bounds(x))
    }

    /// Whether the two maps store the same segments.
    pub fn same_ranges(&self, other: &Self) -> (r: bool)
        ensures
            r == (self.segments() == other.segments()),
    {
        self.inner.same_segments(&other.inner)
    }

    /// For well-formed maps, equal segments and equal stored ranges are the
    /// same thing.
    pub proof fn lemma_segments_ranges(a: &Self, b: &Self)
        requires
            a.wf(),
            b.wf(),
        ensures
            (a.segments() == b.segments()) == (a.ranges() == b.ranges()),
    {
        let sa = a.inner.segments();
        let sb = b.inner.segments();
        if a.ranges() == b.ranges() {
            assert(sa.len() == a.ranges().len());
            assert forall|i: int| 0 <= i < sa.len() implies sa[i] == sb[i] by {
                assert(a.ranges()[i] == seg_to_bounds(sa[i]));
                assert(b.ranges()[i] == seg_to_bounds(sb[i]));
                assert(sa[i].0 < sa[i].1 <= u32::MAX + 1);
                assert(sb[i].0 < sb[i].1 <= u32::MAX + 1);
            }
            assert(sa =~= sb);
        }
    }

    /// An empty map.
    pub fn new() -> (m: Self)
        ensures
            m.wf(),
            m@ == Map::<u32, i32>::empty(),
            m.ranges() == Seq::<(u32, u32, i32)>::empty(),
    {
        let m = RangeInclusiveMap { inner: SegmentMap::new() };
        assert(m@ =~= Map::<u32, i32>::empty());
        assert(m.ranges() =~= Seq::<(u32, u32, i32)>::empty());
        m
    }

    /// The number of stored ranges.
    pub fn len(&self) -> (n: usize)
        ensures
            n == self.ranges().len(),
    {
        self.inner.len()
    }

    /// Gives every key of `range` the value `value`; the other keys keep
    /// theirs.
    pub fn insert(&mut self, range: RangeInclusive<u32>, value: i32)
        requires
            old(self).wf(),
            !range@.exhausted,
            range@.start <= range@.end,
        ensures
            final(self).wf(),
            final(self)@ == map_with_inclusive(old(self)@, range@.start, range@.end, value),
            forall|k: u32| range@.start <= k <= range@.end ==> final(self)@.contains_key(k) && #[trigger] final(self)@[k] == value,
            forall|k: u32|
                !(range@.start <= k <= range@.end) ==> (final(self)@.contains_key(k) == old(self)@.contains_key(k)
                    && (old(self)@.contains_key(k) ==> #[trigger] final(self)@[k] == old(self)@[k])),
    {
        let ghost old_inner = self.inner;
        let s = inclusive_start(&range);
        let e = inclusive_end(&range);
        self.inner.insert(s as u64, e as u64 + 1, value);
        proof {
            let sg = self.inner.segments();
            assert forall|i: int| 0 <= i < sg.len() implies (#[trigger] sg[i]).1 <= u32::MAX + 1 by {
                let k = sg[i].1 - 1;
                lemma_lookup_held(sg, i, k);
                assert(self.inner.get(k) == lookup(sg, k));
                if !(s <= k < e + 1) {
                    lemma_lookup_some(old_inner.segments(), k);
                }
            }
            assert(self@ =~= map_with_inclusive(old(self)@, s, e, value));
            lemma_map_with_inclusive(old(self)@, s, e, value);
        }
    }

    /// The stored ranges with their values, in order.
    pub fn iter(&self) -> (res: Vec<(RangeInclusive<u32>, i32)>)
        requires
            self.wf(),
        ensures
            res@.len() == self.ranges().len(),
            forall|i: int|
                0 <= i < res@.len() ==> (#[trigger] res@[i]).0@.start == self.ranges()[i].0
                    && res@[i].0@.end == self.ranges()[i].1 && !res@[i].0@.exhausted && res@[i].1
                    == self.ranges()[i].2,
    {
        let segs = self.inner.segment_list();
        let mut out: Vec<(RangeInclusive<u32>, i32)> = Vec::new();
        let mut i: usize = 0;
        while i < segs.len()
            invariant
                segs@ == self.inner.segments(),
                self.wf(),
                0 <= i <= segs@.len(),
                out@.len() == i,
                forall|j: int|
                    0 <= j < i ==> (#[trigger] out@[j]).0@.start == self.ranges()[j].0
                        && out@[j].0@.end == self.ranges()[j].1 && !out@[j].0@.exhausted
                        && out@[j].1 == self.ranges()[j].2,
            decreases segs@.len() - i,
        {
            let x = segs[i];
            assert(self.ranges()[i as int] == seg_to_bounds(x));
            assert(x.0 < x.1 <= u32::MAX + 1);
            let r = RangeInclusive::new(x.0 as u32, (x.1 - 1) as u32);
            out.push((r, x.2));
            i = i + 1;
        }
        out
    }
}

/// Keys of a well-formed map lie in `u32`.
proof fn lemma_keys_fit(m: &RangeInclusiveMap, k: int)
    requires
        m.wf(),
        !(0 <= k <= u32::MAX),
    ensures
        m.inner.get(k) is None,
{
    let s = m.inner.segments();
    assert forall|i: int| 0 <= i < s.len() implies !seg_holds(#[trigger] s[i], k) by {
        assert(s[i].1 <= u32::MAX + 1);
    }
    lemma_lookup_unheld(s, k);
}

/// The view of a map is its key-value function on `u32`.
proof fn lemma_view_get(m: &RangeInclusiveMap, k: u32)
    ensures
        m@.contains_key(k) == (m.inner.get(k as int) is Some),
        m@.contains_key(k) ==> m@[k] == m.inner.get(k as int)->0,
{
}

/// Two well-formed maps hold the same keys with the same values exactly
/// when they store the same ranges: the stored ranges are canonical.
pub proof fn lemma_inclusive_map_canonical(a: &RangeInclusiveMap, b: &RangeInclusiveMap)
    requires
        a.wf(),
        b.wf(),
    ensures
        (a@ == b@) == (a.ranges() == b.ranges()),
{
    let sa = a.inner.segments();
    let sb = b.inner.segments();
    if a@ == b@ {
        assert forall|k: int| #[trigger] lookup(sa, k) == lookup(sb, k) by {
            if 0 <= k <= u32::MAX {
                let ku = k as u32;
                lemma_view_get(a, ku);
                lemma_view_get(b, ku);
                assert(a@.contains_key(ku) == b@.contains_key(ku));
                if a@.contains_key(ku) {
                    assert(a@[ku] == b@[ku]);
                }
            } else {
                lemma_keys_fit(a, k);
                lemma_keys_fit(b, k);
            }
        }
        lemma_canonical(sa, sb);
    }
    if a.ranges() == b.ranges() {
        RangeInclusiveMap::lemma_segments_ranges(a, b);
        assert(a@ =~= b@);
    }
}

/// The stored ranges of a well-formed map are non-empty, sorted and
/// disjoint, and two ranges that touch (one ends right before the other
/// starts) never carry the same value.
pub proof fn lemma_inclusive_map_coalesced(m: &RangeInclusiveMap)
    requires
        m.wf(),
    ensures
        forall|i: int| 0 <= i < m.ranges().len() ==> (#[trigger] m.ranges()[i]).0 <= m.ranges()[i].1,
        forall|i: int, j: int|
            #![trigger m.ranges()[i], m.ranges()[j]]
            0 <= i < j < m.ranges().len() ==> m.ranges()[i].1 < m.ranges()[j].0,
        forall|i: int|
            #![trigger m.ranges()[i], m.ranges()[i + 1]]
            0 <= i && i + 1 < m.ranges().len() && m.ranges()[i].1 + 1 == m.ranges()[i + 1].0
                ==> m.ranges()[i].2 != m.ranges()[i + 1].2,
{
    let s = m.inner.segments();
    let r = m.ranges();
    assert forall|i: int| 0 <= i < r.len() implies (#[trigger] r[i]).0 <= r[i].1 by {
        assert(r[i] == seg_to_bounds(s[i]));
        assert(s[i].0 < s[i].1 <= u32::MAX + 1);
    }
    assert forall|i: int, j: int| 0 <= i < j < r.len() implies #[trigger] r[i].1 < #[trigger] r[j].0 by {
        assert(r[i] == seg_to_bounds(s[i]));
        assert(r[j] == seg_to_bounds(s[j]));
        assert(s[i].0 < s[i].1 <= u32::MAX + 1);
        assert(s[j].0 < s[j].1 <= u32::MAX + 1);
        assert(s[i].1 <= s[j].0);
    }
    assert forall|i: int|
        0 <= i && i + 1 < r.len() && #[trigger] r[i].1 + 1 == #[trigger] r[i + 1].0 implies r[i].2 != r[i + 1].2 by {
        assert(r[i] == seg_to_bounds(s[i]));
        assert(r[i + 1] == seg_to_bounds(s[i + 1]));
        assert(s[i].0 < s[i].1 <= u32::MAX + 1);
        assert(s[i + 1].0 < s[i + 1].1 <= u32::MAX + 1);
    }
}

/// The stored ranges describe the map: a key has a value exactly when a
/// stored range holds it, and then it has that range's value.
pub proof fn lemma_inclusive_map_describes(m: &RangeInclusiveMap, i: int, k: u32)
    requires
        m.wf(),
        0 <= i < m.ranges().len(),
    ensures
        m.ranges()[i].0 <= k <= m.ranges()[i].1 ==> m@.contains_key(k) && m@[k] == m.ranges()[i].2,
        m@.contains_key(k) ==> exists|j: int|
            0 <= j < m.ranges().len() && m.ranges()[j].0 <= k <= (#[trigger] m.ranges()[j]).1
                && m@[k] == m.ranges()[j].2,
{
    let s = m.inner.segments();
    let r = m.ranges();
    assert(r[i] == seg_to_bounds(s[i]));
    assert(s[i].0 < s[i].1 <= u32::MAX + 1);
    lemma_view_get(m, k);
    if r[i].0 <= k <= r[i].1 {
        lemma_lookup_held(s, i, k as int);
    }
    if m@.contains_key(k) {
        lemma_lookup_some(s, k as int);
        let j = choose|j: int| 0 <= j < s.len() && seg_holds(#[trigger] s[j], k as int) && s[j].2 == lookup(s, k as int)->0;
        assert(r[j] == seg_to_bounds(s[j]));
        assert(s[j].0 < s[j].1 <= u32::MAX + 1);
    }
}

} // verus!
