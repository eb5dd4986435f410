//! A map from half-open ranges of `u32` keys to `i32` values.
//!
//! Inserting a range overwrites whatever the keys of that range held
//! before; touching ranges that end up with the same value are coalesced,
//! so the stored ranges are a canonical description of the map.
use std::ops::Range;
use vstd::prelude::*;
use crate::segment_map::{
    Segment, SegmentMap, lemma_canonical, lemma_filter_keeps, lemma_lookup_held, lemma_lookup_some,
    lemma_lookup_unheld, lemma_reverse_contains, lookup, overlap_pred, seg_holds,
};

verus! {

/// The stored range of a segment whose keys fit in `u32`.
pub open spec fn seg_to_range(x: Segment) -> (Range<u32>, i32) {
    (Range { start: x.0 as u32, end: x.1 as u32 }, x.2)
}

/// Whether a stored range starts before `qe` and ends after `qs`: for a
/// non-empty query `[qs, qe)`, whether the two share a key.
pub open spec fn range_overlaps(x: (Range<u32>, i32), qs: u32, qe: u32) -> bool {
    x.0.start < qe && qs < x.0.end
}

/// Whether the stored range `x` holds the key `k`.
pub open spec fn range_holds(x: (Range<u32>, i32), k: int) -> bool {
    x.0.start <= k < x.0.end
}

/// Filtering commutes with converting segments to ranges.
proof fn lemma_filter_ranges(s: Seq<Segment>, qs: u32, qe: u32)
    requires
        forall|i: int| 0 <= i < s.len() ==> (#[trigger] s[i]).1 <= u32::MAX,
        forall|i: int| 0 <= i < s.len() ==> (#[trigger] s[i]).0 < s[i].1,
    ensures
        s.map_values(|x: Segment| seg_to_range(x)).filter(
            |x: (Range<u32>, i32)| range_overlaps(x, qs, qe),
        ) == s.filter(overlap_pred(qs as int, qe as int)).map_values(
            |x: Segment| seg_to_range(x),
        ),
    decreases s.len(),
{
    reveal(Seq::filter);
    let f = |x: Segment| seg_to_range(x);
    let p = |x: (Range<u32>, i32)| range_overlaps(x, qs, qe);
    let q = overlap_pred(qs as int, qe as int);
    if s.len() == 0 {
        assert(s.map_values(f) =~= Seq::<(Range<u32>, i32)>::empty());
        assert(s.filter(q).map_values(f) =~= Seq::<(Range<u32>, i32)>::empty());
    } else {
        let t = s.drop_last();
        let x = s.last();
        lemma_filter_ranges(t, qs, qe);
        assert(s.map_values(f) =~= t.map_values(f).push(f(x)));
        assert(s =~= t.push(x));
        t.map_values(f).lemma_filter_push(f(x), p);
        t.lemma_filter_push(x, q);
        assert(x.0 < x.1 <= u32::MAX);
        assert(p(f(x)) == q(x));
        if q(x) {
            assert(t.filter(q).push(x).map_values(f) =~= t.filter(q).map_values(f).push(f(x)));
        }
    }
}

/// A map from half-open `u32` ranges to `i32` values, kept in canonical
/// (sorted, disjoint, coalesced) form.
pub struct RangeMap {
    inner: SegmentMap,
}

impl View for RangeMap {
    type V = Map<u32, i32>;

    /// The value of each key that the map holds.
    closed spec fn view(&self) -> Map<u32, i32> {
        Map::new(|k: u32| self.inner.get(k as int) is Some, |k: u32| self.inner.get(k as int)->0)
    }
}

/// The map after giving every key of `[start, end)` the value `v`.
pub open spec fn map_with_range(m: Map<u32, i32>, start: u32, end: u32, v: i32) -> Map<u32, i32> {
    m.union_prefer_right(Map::new(|k: u32| start <= k < end, |k: u32| v))
}

/// Writing a value on a range: every key of `start..end` then holds
/// exactly `v`, and every other key keeps whatever it held (or did not hold)
/// before.
pub proof fn lemma_map_with_range(m: Map<u32, i32>, start: u32, end: u32, v: i32)
    ensures
        forall|k: u32| start <= k < end ==> map_with_range(m, start, end, v).contains_key(k)
            && #[trigger] map_with_range(m, start, end, v)[k] == v,
        forall|k: u32|
            !(start <= k < end) ==> (map_with_range(m, start, end, v).contains_key(k) == m.contains_key(k)
                && (m.contains_key(k) ==> #[trigger] map_with_range(m, start, end, v)[k] == m[k])),
{
}

impl RangeMap {
    /// The map is canonical and every range fits in `u32`.
    pub closed spec fn wf(&self) -> bool {
        &&& self.inner.wf()
        &&& forall|i: int|
            0 <= i < self.inner.segments().len() ==> (#[trigger] self.inner.segments()[i]).1
                <= u32::MAX
    }

    /// The underlying segments.
    pub closed spec fn segments(&self) -> Seq<Segment> {
        self.inner.segments()
    }

    /// The stored ranges with their values, in order.
    pub closed spec fn ranges(&self) -> Seq<(Range<u32>, i32)> {
        self.inner.segments().map_values(|x: Segment| seg_to_range(x))
    }

    /// The stored ranges that overlap `[qs, qe)`, first to last.
    pub open spec fn overlapping_ranges(&self, qs: u32, qe: u32) -> Seq<(Range<u32>, i32)> {
        self.ranges().filter(|x: (Range<u32>, i32)| range_overlaps(x, qs, qe))
    }

    /// Whether the two maps store the same segments.
    pub fn same_ranges(&self, other: &Self) -> (r: bool)
        ensures
            r == (self.segments() == other.segments()),
    {
        self.inner.same_segments(&other.inner)
    }

    /// For well-formed maps, equal segments and equal stored ranges are the
    /// same thing.
    pub proof fn lemma_segments_ranges(a: &Self, b: &Self)
        requires
            a.wf(),
            b.wf(),
        ensures
            (a.segments() == b.segments()) == (a.ranges() == b.ranges()),
    {
        let sa = a.inner.segments();
        let sb = b.inner.segments();
        if a.ranges() == b.ranges() {
            assert(sa.len() == a.ranges().len());
            assert forall|i: int| 0 <= i < sa.len() implies sa[i] == sb[i] by {
                assert(a.ranges()[i] == seg_to_range(sa[i]));
                assert(b.ranges()[i] == seg_to_range(sb[i]));
                assert(sa[i].0 < sa[i].1 <= u32::MAX);
                assert(sb[i].0 < sb[i].1 <= u32::MAX);
            }
            assert(sa =~= sb);
        }
    }

    /// An empty map.
    pub fn new() -> (m: Self)
        ensures
            m.wf(),
            m@ == Map::<u32, i32>::empty(),
            m.ranges() == Seq::<(Range<u32>, i32)>::empty(),
    {
        let m = RangeMap { inner: SegmentMap::new() };
        assert(m@ =~= Map::<u32, i32>::empty());
        assert(m.ranges() =~= Seq::<(Range<u32>, i32)>::empty());
        m
    }

    /// The number of stored ranges.
    pub fn len(&self) -> (n: usize)
        ensures
            n == self.ranges().len(),
    {
        self.inner.len()
    }

    /// Gives every key of `range` the value `value`; the other keys keep
    /// theirs.
    pub fn insert(&mut self, range: Range<u32>, value: i32)
        requires
            old(self).wf(),
            range.start < range.end,
        ensures
            final(self).wf(),
            final(self)@ == map_with_range(old(self)@, range.start, range.end, value),
            forall|k: u32| range.start <= k < range.end ==> final(self)@.contains_key(k) && #[trigger] final(self)@[k] == value,
            forall|k: u32|
                !(range.start <= k < range.end) ==> (final(self)@.contains_key(k) == old(self)@.contains_key(k)
                    && (old(self)@.contains_key(k) ==> #[trigger] final(self)@[k] == old(self)@[k])),
    {
        let ghost old_inner = self.inner;
        self.inner.insert(range.start as u64, range.end as u64, value);
        proof {
            let s = self.inner.segments();
            assert forall|i: int| 0 <= i < s.len() implies (#[trigger] s[i]).1 <= u32::MAX by {
                let k = s[i].1 - 1;
                lemma_lookup_held(s, i, k);
                assert(self.inner.get(k) == lookup(s, k));
                if !(range.start <= k < range.end) {
                    lemma_lookup_some(old_inner.segments(), k);
                }
            }
            assert(self@ =~= map_with_range(old(self)@, range.start, range.end, value));
            lemma_map_with_range(old(self)@, range.start, range.end, value);
        }
    }

    /// The stored ranges with their values, in order.
    pub fn iter(&self) -> (res: Vec<(Range<u32>, i32)>)
        requires
            self.wf(),
        ensures
            res@ == self.ranges(),
    {
        let segs = self.inner.segment_list();
        to_ranges(&segs)
    }

    /// Every segment of the filtered list fits in `u32` and is non-empty.
    proof fn lemma_filtered_fit(&self, p: spec_fn(Segment) -> bool)
        requires
            self.wf(),
        ensures
            forall|i: int|
                0 <= i < self.inner.segments().filter(p).len() ==> (#[trigger] self.inner.segments().filter(p)[i]).1
                    <= u32::MAX && self.inner.segments().filter(p)[i].0 < self.inner.segments().filter(p)[i].1,
    {
        let r = |x: Segment| x.0 < x.1 <= u32::MAX;
        lemma_filter_keeps(self.segments(), p, r);
        let f = self.inner.segments().filter(p);
        assert forall|i: int| 0 <= i < f.len() implies (#[trigger] f[i]).1 <= u32::MAX && f[i].0 < f[i].1 by {
            assert(r(f[i]));
        }
    }

    /// The stored ranges that overlap `range`, first to last.
    pub fn overlapping(&self, range: &Range<u32>) -> (res: Vec<(Range<u32>, i32)>)
        requires
            self.wf(),
        ensures
            res@ == self.overlapping_ranges(range.start, range.end),
            range.start < range.end ==> forall|x: (Range<u32>, i32)|
                #[trigger] res@.contains(x) <==> self.ranges().contains(x) && exists|k: int|
                    range.start <= k < range.end && #[trigger] range_holds(x, k),
    {
        let segs = self.inner.overlapping(range.start as u64, range.end as u64);
        proof {
            lemma_filter_ranges(self.inner.segments(), range.start, range.end);
            let p = overlap_pred(range.start as int, range.end as int);
            self.lemma_filtered_fit(p);
            let f = self.inner.segments().filter(p);
            assert forall|i: int| 0 <= i < segs@.len() implies (#[trigger] segs@[i]).1 <= u32::MAX
                && segs@[i].0 < segs@[i].1 by {
                assert(segs@[i] == f[i]);
            }
        }
        let res = to_ranges(&segs);
        proof {
            if range.start < range.end {
                assert(res@ == self.overlapping_ranges(range.start, range.end));
                lemma_overlapping_ranges_keys(self, range.start, range.end);
            }
        }
        res
    }

    /// The stored ranges that overlap `range`, last to first.
    pub fn overlapping_rev(&self, range: &Range<u32>) -> (res: Vec<(Range<u32>, i32)>)
        requires
            self.wf(),
        ensures
            res@ == self.overlapping_ranges(range.start, range.end).reverse(),
            range.start < range.end ==> forall|x: (Range<u32>, i32)|
                #[trigger] res@.contains(x) <==> self.ranges().contains(x) && exists|k: int|
                    range.start <= k < range.end && #[trigger] range_holds(x, k),
    {
        proof {
            if range.start < range.end {
                lemma_overlapping_ranges_keys(self, range.start, range.end);
                lemma_reverse_contains(self.overlapping_ranges(range.start, range.end));
            }
        }
        let segs = self.inner.overlapping_rev(range.start as u64, range.end as u64);
        proof {
            lemma_filter_ranges(self.inner.segments(), range.start, range.end);
            let p = overlap_pred(range.start as int, range.end as int);
            self.lemma_filtered_fit(p);
            let f = |x: Segment| seg_to_range(x);
            let t = self.inner.segments().filter(p);
            assert(t.reverse().map_values(f) =~= t.map_values(f).reverse());
            assert forall|i: int| 0 <= i < segs@.len() implies (#[trigger] segs@[i]).1 <= u32::MAX
                && segs@[i].0 < segs@[i].1 by {
                assert(segs@[i] == t[t.len() - 1 - i]);
            }
        }
        to_ranges(&segs)
    }
}

/// Keys of a well-formed map lie in `u32`, below `u32::MAX`.
proof fn lemma_keys_fit(m: &RangeMap, k: int)
    requires
        m.wf(),
        !(0 <= k < u32::MAX),
    ensures
        m.inner.get(k) is None,
{
    let s = m.inner.segments();
    assert forall|i: int| 0 <= i < s.len() implies !seg_holds(#[trigger] s[i], k) by {
        assert(s[i].1 <= u32::MAX);
    }
    lemma_lookup_unheld(s, k);
}

/// The view of a well-formed map is its key-value function on `u32`.
proof fn lemma_view_get(m: &RangeMap, k: u32)
    ensures
        m@.contains_key(k) == (m.inner.get(k as int) is Some),
        m@.contains_key(k) ==> m@[k] == m.inner.get(k as int)->0,
{
}

/// The stored ranges that overlap a non-empty query `[qs, qe)` are exactly
/// those that share a key with it: some key `k` with `qs <= k < qe` lies in
/// the range.
pub proof fn lemma_overlapping_ranges_keys(m: &RangeMap, qs: u32, qe: u32)
    requires
        m.wf(),
        qs < qe,
    ensures
        forall|x: (Range<u32>, i32)|
            #[trigger] m.overlapping_ranges(qs, qe).contains(x) ==> m.ranges().contains(x) && exists|k: int|
                qs <= k < qe && #[trigger] range_holds(x, k),
        forall|x: (Range<u32>, i32)|
            #[trigger] m.ranges().contains(x) && (exists|k: int| qs <= k < qe && #[trigger] range_holds(x, k))
                ==> m.overlapping_ranges(qs, qe).contains(x),
{
    let r = m.ranges();
    let p = |x: (Range<u32>, i32)| range_overlaps(x, qs, qe);
    let f = r.filter(p);
    assert(f == m.overlapping_ranges(qs, qe));
    lemma_range_map_coalesced(m);
    assert forall|x: (Range<u32>, i32)| #[trigger] f.contains(x) implies r.contains(x) && exists|k: int|
        qs <= k < qe && #[trigger] range_holds(x, k) by {
        let i = choose|i: int| 0 <= i < f.len() && f[i] == x;
        r.lemma_filter_pred(p, i);
        lemma_filter_member(r, p, i);
        let j = choose|j: int| 0 <= j < r.len() && r[j] == x;
        assert(r[j].0.start < r[j].0.end);
        let k: int = if x.0.start < qs { qs as int } else { x.0.start as int };
        assert(qs <= k < qe && range_holds(x, k));
    }
    assert forall|x: (Range<u32>, i32)|
        #[trigger] r.contains(x) && (exists|k: int| qs <= k < qe && #[trigger] range_holds(x, k)) implies f.contains(x) by {
        let i = choose|i: int| 0 <= i < r.len() && r[i] == x;
        r.lemma_filter_contains(p, i);
    }
}

/// Every element that a filter keeps comes from the filtered sequence.
proof fn lemma_filter_member(
    r: Seq<(Range<u32>, i32)>,
    p: spec_fn((Range<u32>, i32)) -> bool,
    i: int,
)
    requires
        0 <= i < r.filter(p).len(),
    ensures
        r.contains(r.filter(p)[i]),
    decreases r.len(),
{
    reveal(Seq::filter);
    if r.len() > 0 {
        let t = r.drop_last();
        if i < t.filter(p).len() {
            lemma_filter_member(t, p, i);
            let j = choose|j: int| 0 <= j < t.len() && t[j] == t.filter(p)[i];
            assert(r[j] == t[j]);
        } else {
            assert(r[r.len() - 1] == r.filter(p)[i]);
        }
    }
}

/// Two well-formed maps hold the same keys with the same values exactly
/// when they store the same ranges: the stored ranges are canonical.
pub proof fn lemma_range_map_canonical(a: &RangeMap, b: &RangeMap)
    requires
        a.wf(),
        b.wf(),
    ensures
        (a@ == b@) == (a.ranges() == b.ranges()),
{
    let sa = a.inner.segments();
    let sb = b.inner.segments();
    if a@ == b@ {
        assert forall|k: int| #[trigger] lookup(sa, k) == lookup(sb, k) by {
            if 0 <= k < u32::MAX {
                let ku = k as u32;
                lemma_view_get(a, ku);
                lemma_view_get(b, ku);
                assert(a@.contains_key(ku) == b@.contains_key(ku));
                if a@.contains_key(ku) {
                    assert(a@[ku] == b@[ku]);
                }
            } else {
                lemma_keys_fit(a, k);
                lemma_keys_fit(b, k);
            }
        }
        lemma_canonical(sa, sb);
    }
    if a.ranges() == b.ranges() {
        RangeMap::lemma_segments_ranges(a, b);
        assert(a@ =~= b@);
    }
}

/// The stored ranges of a well-formed map are non-empty, sorted and
/// disjoint, and two ranges that touch never carry the same value.
pub proof fn lemma_range_map_coalesced(m: &RangeMap)
    requires
        m.wf(),
    ensures
        forall|i: int| 0 <= i < m.ranges().len() ==> (#[trigger] m.ranges()[i]).0.start < m.ranges()[i].0.end,
        forall|i: int, j: int|
            #![trigger m.ranges()[i], m.ranges()[j]]
            0 <= i < j < m.ranges().len() ==> m.ranges()[i].0.end <= m.ranges()[j].0.start,
        forall|i: int|
            #![trigger m.ranges()[i], m.ranges()[i + 1]]
            0 <= i && i + 1 < m.ranges().len() && m.ranges()[i].0.end == m.ranges()[i + 1].0.start
                ==> m.ranges()[i].1 != m.ranges()[i + 1].1,
{
    let s = m.inner.segments();
    let r = m.ranges();
    assert forall|i: int| 0 <= i < r.len() implies (#[trigger] r[i]).0.start < r[i].0.end by {
        assert(r[i] == seg_to_range(s[i]));
        assert(s[i].0 < s[i].1 <= u32::MAX);
    }
    assert forall|i: int, j: int| 0 <= i < j < r.len() implies #[trigger] r[i].0.end <= #[trigger] r[j].0.start by {
        assert(r[i] == seg_to_range(s[i]));
        assert(r[j] == seg_to_range(s[j]));
        assert(s[i].0 < s[i].1 <= u32::MAX);
        assert(s[j].0 < s[j].1 <= u32::MAX);
        assert(s[i].1 <= s[j].0);
    }
    assert forall|i: int|
        0 <= i && i + 1 < r.len() && #[trigger] r[i].0.end == #[trigger] r[i + 1].0.start implies r[i].1 != r[i + 1].1 by {
        assert(r[i] == seg_to_range(s[i]));
        assert(r[i + 1] == seg_to_range(s[i + 1]));
        assert(s[i].0 < s[i].1 <= u32::MAX);
        assert(s[i + 1].0 < s[i + 1].1 <= u32::MAX);
    }
}

/// The stored ranges describe the map: a key has a value exactly when a
/// stored range holds it, and then it has that range's value.
pub proof fn lemma_range_map_describes(m: &RangeMap, i: int, k: u32)
    requires
        m.wf(),
        0 <= i < m.ranges().len(),
    ensures
        m.ranges()[i].0.start <= k < m.ranges()[i].0.end ==> m@.contains_key(k) && m@[k] == m.ranges()[i].1,
        m@.contains_key(k) ==> exists|j: int|
            0 <= j < m.ranges().len() && m.ranges()[j].0.start <= k < (#[trigger] m.ranges()[j]).0.end
                && m@[k] == m.ranges()[j].1,
{
    let s = m.inner.segments();
    let r = m.ranges();
    assert(r[i] == seg_to_range(s[i]));
    assert(s[i].0 < s[i].1 <= u32::MAX);
    lemma_view_get(m, k);
    if r[i].0.start <= k < r[i].0.end {
        lemma_lookup_held(s, i, k as int);
    }
    if m@.contains_key(k) {
        lemma_lookup_some(s, k as int);
        let j = choose|j: int| 0 <= j < s.len() && seg_holds(#[trigger] s[j], k as int) && s[j].2 == lookup(s, k as int)->0;
        assert(r[j] == seg_to_range(s[j]));
        assert(s[j].0 < s[j].1 <= u32::MAX);
    }
}


/// Converts segments whose keys fit in `u32` to stored ranges.
fn to_ranges(segs: &Vec<Segment>) -> (res: Vec<(Range<u32>, i32)>)
    requires
        forall|i: int| 0 <= i < segs@.len() ==> (#[trigger] segs@[i]).1 <= u32::MAX,
        forall|i: int| 0 <= i < segs@.len() ==> (#[trigger] segs@[i]).0 < segs@[i].1,
    ensures
        res@ == segs@.map_values(|x: Segment| seg_to_range(x)),
{
    let mut out: Vec<(Range<u32>, i32)> = Vec::new();
    let mut i: usize = 0;
    while i < segs.len()
        invariant
            0 <= i <= segs@.len(),
            forall|j: int| 0 <= j < segs@.len() ==> (#[trigger] segs@[j]).1 <= u32::MAX,
            forall|j: int| 0 <= j < segs@.len() ==> (#[trigger] segs@[j]).0 < segs@[j].1,
            out@ == segs@.take(i as int).map_values(|x: Segment| seg_to_range(x)),
        decreases segs@.len() - i,
    {
        let x = segs[i];
        assert(segs@[i as int] == x);
        let r: Range<u32> = Range { start: x.0 as u32, end: x.1 as u32 };
        out.push((r, x.2));
        proof {
            assert(segs@.take(i + 1) =~= segs@.take(i as int).push(x));
            assert(out@ =~= segs@.take(i + 1).map_values(|x: Segment| seg_to_range(x)));
        }
        i = i + 1;
    }
    proof {
        assert(segs@.take(segs@.len() as int) =~= segs@);
    }
    out
}

} // verus!
