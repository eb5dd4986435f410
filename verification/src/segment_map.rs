//! A map from `u64` keys to `i32` values, stored as a sorted list of
//! half-open segments `[start, end)`, each carrying one value.
//!
//! The list is kept in a canonical form: segments are non-empty, sorted,
//! pairwise disjoint, and two segments that touch never carry the same
//! value (they are coalesced into one).  Both the half-open and the
//! inclusive range maps of this crate are built on it.
use vstd::prelude::*;

verus! {

/// A half-open segment `[start, end)` of `u64` keys carrying one value.
pub type Segment = (u64, u64, i32);

/// Whether the segment `x` holds the key `k`.
pub open spec fn seg_holds(x: Segment, k: int) -> bool {
    x.0 <= k < x.1
}

/// The canonical form of a segment list: every segment is non-empty, the
/// segments are sorted and pairwise disjoint, and two segments that touch
/// carry different values.
pub open spec fn segments_wf(s: Seq<Segment>) -> bool {
    &&& forall|i: int| 0 <= i < s.len() ==> (#[trigger] s[i]).0 < s[i].1
    &&& forall|i: int, j: int|
        #![trigger s[i], s[j]]
        0 <= i < j < s.len() ==> s[i].1 <= s[j].0
    &&& forall|i: int, j: int|
        #![trigger s[i], s[j]]
        0 <= i && j == i + 1 && j < s.len() && s[i].1 == s[j].0 ==> s[i].2 != s[j].2
}

/// The value that the segment list gives to key `k`: that of the last
/// segment that holds `k`, or `None` where no segment holds it.
pub open spec fn lookup(s: Seq<Segment>, k: int) -> Option<i32>
    decreases s.len(),
{
    if s.len() == 0 {
        None
    } else if seg_holds(s.last(), k) {
        Some(s.last().2)
    } else {
        lookup(s.drop_last(), k)
    }
}

/// Whether segment `x` starts before `qe` and ends after `qs`: for a
/// non-empty query `[qs, qe)`, whether the two share a key.
pub open spec fn seg_overlaps(x: Segment, qs: int, qe: int) -> bool {
    x.0 < qe && qs < x.1
}

/// The predicate of [`seg_overlaps`] for a fixed query, as a value.
pub open spec fn overlap_pred(qs: int, qe: int) -> spec_fn(Segment) -> bool {
    |x: Segment| seg_overlaps(x, qs, qe)
}

/// Pushing a segment: it wins on its own keys.
pub proof fn lemma_lookup_push(s: Seq<Segment>, x: Segment, k: int)
    ensures
        lookup(s.push(x), k) == if seg_holds(x, k) {
            Some(x.2)
        } else {
            lookup(s, k)
        },
{
    assert(s.push(x).drop_last() =~= s);
}

/// In a canonical list, a key held by segment `i` gets that segment's value.
pub proof fn lemma_lookup_held(s: Seq<Segment>, i: int, k: int)
    requires
        segments_wf(s),
        0 <= i < s.len(),
        seg_holds(s[i], k),
    ensures
        lookup(s, k) == Some(s[i].2),
    decreases s.len(),
{
    if i < s.len() - 1 {
        let last = s.len() - 1;
        assert(s[i].1 <= s[last].0);
        assert(!seg_holds(s.last(), k));
        assert(s.drop_last()[i] == s[i]);
        lemma_lookup_held(s.drop_last(), i, k);
    }
}

/// A key that no segment holds has no value.
pub proof fn lemma_lookup_unheld(s: Seq<Segment>, k: int)
    requires
        forall|i: int| 0 <= i < s.len() ==> !seg_holds(#[trigger] s[i], k),
    ensures
        lookup(s, k) is None,
    decreases s.len(),
{
    if s.len() > 0 {
        assert(!seg_holds(s[s.len() - 1], k));
        assert forall|i: int| 0 <= i < s.drop_last().len() implies !seg_holds(
            #[trigger] s.drop_last()[i],
            k,
        ) by {
            assert(s.drop_last()[i] == s[i]);
        }
        lemma_lookup_unheld(s.drop_last(), k);
    }
}

/// A key with a value is held by some segment carrying that value.
pub proof fn lemma_lookup_some(s: Seq<Segment>, k: int)
    requires
        lookup(s, k) is Some,
    ensures
        exists|i: int|
            0 <= i < s.len() && seg_holds(#[trigger] s[i], k) && s[i].2 == lookup(s, k)->0,
    decreases s.len(),
{
    if seg_holds(s.last(), k) {
        assert(seg_holds(s[s.len() - 1], k));
    } else {
        lemma_lookup_some(s.drop_last(), k);
        let i = choose|i: int|
            0 <= i < s.drop_last().len() && seg_holds(#[trigger] s.drop_last()[i], k)
                && s.drop_last()[i].2 == lookup(s.drop_last(), k)->0;
        assert(s[i] == s.drop_last()[i]);
    }
}

/// The tail of a canonical list is canonical.
pub proof fn lemma_wf_drop_first(s: Seq<Segment>)
    requires
        segments_wf(s),
        s.len() > 0,
    ensures
        segments_wf(s.drop_first()),
        forall|j: int| 0 <= j < s.drop_first().len() ==> s[0].1 <= (#[trigger] s.drop_first()[j]).0,
{
    let t = s.drop_first();
    assert forall|j: int| 0 <= j < t.len() implies s[0].1 <= (#[trigger] t[j]).0 by {
        assert(t[j] == s[j + 1]);
    }
    assert forall|i: int, j: int| 0 <= i < j < t.len() implies t[i].1 <= t[j].0 by {
        assert(t[i] == s[i + 1] && t[j] == s[j + 1]);
    }
    assert forall|i: int, j: int|
        0 <= i && j == i + 1 && j < t.len() && t[i].1 == t[j].0 implies t[i].2 != t[j].2 by {
        assert(t[i] == s[i + 1] && t[j] == s[j + 1]);
    }
}

/// In a canonical list, a key below the first segment has no value.
pub proof fn lemma_lookup_below(s: Seq<Segment>, k: int)
    requires
        segments_wf(s),
        s.len() > 0 ==> k < s[0].0,
    ensures
        lookup(s, k) is None,
{
    assert forall|i: int| 0 <= i < s.len() implies !seg_holds(#[trigger] s[i], k) by {
        if i > 0 {
            assert(s[0].1 <= s[i].0);
        }
    }
    lemma_lookup_unheld(s, k);
}

/// In a canonical list, the first segment decides its own keys and the
/// tail decides the others.
pub proof fn lemma_lookup_first(s: Seq<Segment>, k: int)
    requires
        segments_wf(s),
        s.len() > 0,
    ensures
        lookup(s, k) == if seg_holds(s[0], k) {
            Some(s[0].2)
        } else {
            lookup(s.drop_first(), k)
        },
{
    let t = s.drop_first();
    lemma_wf_drop_first(s);
    if seg_holds(s[0], k) {
        lemma_lookup_held(s, 0, k);
    } else if lookup(t, k) is Some {
        lemma_lookup_some(t, k);
        let i = choose|i: int| 0 <= i < t.len() && seg_holds(#[trigger] t[i], k) && t[i].2 == lookup(t, k)->0;
        assert(t[i] == s[i + 1]);
        lemma_lookup_held(s, i + 1, k);
    } else {
        assert forall|i: int| 0 <= i < s.len() implies !seg_holds(#[trigger] s[i], k) by {
            if i > 0 && seg_holds(s[i], k) {
                assert(t[i - 1] == s[i]);
                lemma_lookup_held(t, i - 1, k);
            }
        }
        lemma_lookup_unheld(s, k);
    }
}

/// Two canonical lists with the same values have first segments that
/// start together.
proof fn lemma_first_starts_agree(a: Seq<Segment>, b: Seq<Segment>)
    requires
        segments_wf(a),
        segments_wf(b),
        a.len() > 0,
        b.len() > 0,
        forall|k: int| #[trigger] lookup(a, k) == lookup(b, k),
    ensures
        a[0].0 >= b[0].0,
{
    if a[0].0 < b[0].0 {
        let k = a[0].0 as int;
        lemma_lookup_held(a, 0, k);
        lemma_lookup_below(b, k);
        assert(lookup(a, k) == lookup(b, k));
    }
}

/// Two canonical lists with the same values whose first segments start
/// together and carry the same value have first segments that end together.
proof fn lemma_first_ends_agree(a: Seq<Segment>, b: Seq<Segment>)
    requires
        segments_wf(a),
        segments_wf(b),
        a.len() > 0,
        b.len() > 0,
        a[0].0 == b[0].0,
        a[0].2 == b[0].2,
        forall|k: int| #[trigger] lookup(a, k) == lookup(b, k),
    ensures
        a[0].1 >= b[0].1,
{
    if a[0].1 < b[0].1 {
        let k = a[0].1 as int;
        lemma_lookup_held(b, 0, k);
        assert(lookup(a, k) == lookup(b, k));
        lemma_lookup_first(a, k);
        let t = a.drop_first();
        lemma_wf_drop_first(a);
        lemma_lookup_some(t, k);
        let i = choose|i: int| 0 <= i < t.len() && seg_holds(#[trigger] t[i], k) && t[i].2 == lookup(t, k)->0;
        assert(t[i] == a[i + 1]);
        if i > 0 {
            assert(a[1].1 <= a[i + 1].0);
            assert(a[0].1 <= a[1].0);
        }
        assert(a[1].0 == a[0].1);
    }
}

/// A canonical list is determined by the values it gives: two canonical
/// lists that agree on every key are equal.
pub proof fn lemma_canonical(a: Seq<Segment>, b: Seq<Segment>)
    requires
        segments_wf(a),
        segments_wf(b),
        forall|k: int| #[trigger] lookup(a, k) == lookup(b, k),
    ensures
        a == b,
    decreases a.len() + b.len(),
{
    if a.len() == 0 || b.len() == 0 {
        if a.len() > 0 {
            lemma_lookup_held(a, 0, a[0].0 as int);
            lemma_lookup_below(b, a[0].0 as int);
            assert(lookup(a, a[0].0 as int) == lookup(b, a[0].0 as int));
        }
        if b.len() > 0 {
            lemma_lookup_held(b, 0, b[0].0 as int);
            lemma_lookup_below(a, b[0].0 as int);
            assert(lookup(a, b[0].0 as int) == lookup(b, b[0].0 as int));
        }
        assert(a =~= b);
    } else {
        lemma_first_starts_agree(a, b);
        assert forall|k: int| #[trigger] lookup(b, k) == lookup(a, k) by {
            assert(lookup(a, k) == lookup(b, k));
        }
        lemma_first_starts_agree(b, a);
        let k0 = a[0].0 as int;
        lemma_lookup_held(a, 0, k0);
        lemma_lookup_held(b, 0, k0);
        assert(lookup(a, k0) == lookup(b, k0));
        lemma_first_ends_agree(a, b);
        lemma_first_ends_agree(b, a);
        assert(a[0] == b[0]);
        let ta = a.drop_first();
        let tb = b.drop_first();
        lemma_wf_drop_first(a);
        lemma_wf_drop_first(b);
        assert forall|k: int| #[trigger] lookup(ta, k) == lookup(tb, k) by {
            if k < a[0].1 {
                if ta.len() > 0 {
                    assert(a[0].1 <= ta[0].0);
                }
                if tb.len() > 0 {
                    assert(b[0].1 <= tb[0].0);
                }
                lemma_lookup_below(ta, k);
                lemma_lookup_below(tb, k);
            } else {
                lemma_lookup_first(a, k);
                lemma_lookup_first(b, k);
                assert(lookup(a, k) == lookup(b, k));
            }
        }
        lemma_canonical(ta, tb);
        assert(a =~= seq![a[0]] + ta);
        assert(b =~= seq![b[0]] + tb);
    }
}

/// Filtering keeps any property that every element has.
pub proof fn lemma_filter_keeps(s: Seq<Segment>, p: spec_fn(Segment) -> bool, r: spec_fn(Segment) -> bool)
    requires
        forall|i: int| 0 <= i < s.len() ==> r(#[trigger] s[i]),
    ensures
        forall|i: int| 0 <= i < s.filter(p).len() ==> r(#[trigger] s.filter(p)[i]),
    decreases s.len(),
{
    reveal(Seq::filter);
    if s.len() > 0 {
        let t = s.drop_last();
        assert forall|i: int| 0 <= i < t.len() implies r(#[trigger] t[i]) by {
            assert(t[i] == s[i]);
        }
        lemma_filter_keeps(t, p, r);
        assert(r(s[s.len() - 1]));
        let f = s.filter(p);
        assert forall|i: int| 0 <= i < f.len() implies r(#[trigger] f[i]) by {
            if i < t.filter(p).len() {
                assert(f[i] == t.filter(p)[i]);
            }
        }
    }
}

/// The segments that a query keeps are those that share a key with it: for a
/// non-empty query `[qs, qe)` and non-empty segments, a segment is kept
/// exactly when some key `k` with `qs <= k < qe` lies in it.
pub proof fn lemma_overlap_filter_keys(s: Seq<Segment>, qs: int, qe: int)
    requires
        qs < qe,
        forall|i: int| 0 <= i < s.len() ==> (#[trigger] s[i]).0 < s[i].1,
    ensures
        forall|x: Segment|
            #[trigger] s.filter(overlap_pred(qs, qe)).contains(x) ==> s.contains(x) && exists|k: int|
                qs <= k < qe && #[trigger] seg_holds(x, k),
        forall|x: Segment|
            #[trigger] s.contains(x) && (exists|k: int| qs <= k < qe && #[trigger] seg_holds(x, k)) ==> s.filter(
                overlap_pred(qs, qe),
            ).contains(x),
{
    let p = overlap_pred(qs, qe);
    let f = s.filter(p);
    let r = |x: Segment| s.contains(x) && x.0 < qe && qs < x.1;
    assert forall|i: int| 0 <= i < s.len() implies r(#[trigger] s[i]) || !p(s[i]) by {}
    let r2 = |x: Segment| s.contains(x);
    assert forall|i: int| 0 <= i < s.len() implies r2(#[trigger] s[i]) by {
        assert(s.contains(s[i]));
    }
    lemma_filter_keeps(s, p, r2);
    assert forall|x: Segment| #[trigger] f.contains(x) implies s.contains(x) && exists|k: int|
        qs <= k < qe && #[trigger] seg_holds(x, k) by {
        let i = choose|i: int| 0 <= i < f.len() && f[i] == x;
        s.lemma_filter_pred(p, i);
        assert(r2(f[i]));
        let k = if x.0 < qs { qs } else { x.0 as int };
        assert(qs <= k < qe && seg_holds(x, k));
    }
    assert forall|x: Segment|
        #[trigger] s.contains(x) && (exists|k: int| qs <= k < qe && #[trigger] seg_holds(x, k)) implies f.contains(x) by {
        let i = choose|i: int| 0 <= i < s.len() && s[i] == x;
        s.lemma_filter_contains(p, i);
    }
}

/// A sequence and its reverse hold the same elements.
pub proof fn lemma_reverse_contains<A>(f: Seq<A>)
    ensures
        forall|x: A| #[trigger] f.reverse().contains(x) <==> f.contains(x),
{
    assert forall|x: A| #[trigger] f.reverse().contains(x) <==> f.contains(x) by {
        if f.contains(x) {
            let i = choose|i: int| 0 <= i < f.len() && f[i] == x;
            assert(f.reverse()[f.len() - 1 - i] == x);
        }
        if f.reverse().contains(x) {
            let i = choose|i: int| 0 <= i < f.reverse().len() && f.reverse()[i] == x;
            assert(f[f.len() - 1 - i] == x);
        }
    }
}

/// Appends `x` to a canonical list whose segments all end at or before
/// `x` starts, merging it into the last segment where the two touch and
/// carry the same value.
fn push_coalesce(out: &mut Vec<Segment>, x: Segment)
    requires
        segments_wf(old(out)@),
        x.0 < x.1,
        old(out)@.len() > 0 ==> old(out)@.last().1 <= x.0,
    ensures
        segments_wf(final(out)@),
        final(out)@.len() > 0,
        final(out)@.last().1 == x.1,
        forall|k: int| #[trigger] lookup(final(out)@, k) == lookup(old(out)@.push(x), k),
{
    let n = out.len();
    if n > 0 && out[n - 1].1 == x.0 && out[n - 1].2 == x.2 {
        let last = out[n - 1];
        let merged: Segment = (last.0, x.1, x.2);
        out.set(n - 1, merged);
        proof {
            let o = old(out)@;
            let p = o.drop_last();
            assert(out@ =~= p.push(merged));
            assert forall|k: int| #[trigger] lookup(out@, k) == lookup(o.push(x), k) by {
                lemma_lookup_push(p, merged, k);
                lemma_lookup_push(o, x, k);
                assert(o =~= p.push(last));
                lemma_lookup_push(p, last, k);
            }
        }
    } else {
        out.push(x);
    }
}

/// A map from `u64` keys to `i32` values kept as a canonical segment list.
pub struct SegmentMap {
    segs: Vec<Segment>,
}

impl SegmentMap {
    /// The segments, in order.
    pub closed spec fn segments(&self) -> Seq<Segment> {
        self.segs@
    }

    /// The map is in canonical form.
    pub open spec fn wf(&self) -> bool {
        segments_wf(self.segments())
    }

    /// The value of key `k`.
    pub open spec fn get(&self, k: int) -> Option<i32> {
        lookup(self.segments(), k)
    }

    /// An empty map.
    pub fn new() -> (m: Self)
        ensures
            m.wf(),
            m.segments() == Seq::<Segment>::empty(),
            forall|k: int| m.get(k) is None,
    {
        SegmentMap { segs: Vec::new() }
    }

    /// The number of segments.
    pub fn len(&self) -> (n: usize)
        ensures
            n == self.segments().len(),
    {
        self.segs.len()
    }

    /// Gives every key of `[s, e)` the value `v`, leaving the other keys as
    /// they were, and restores the canonical form.
    pub fn insert(&mut self, s: u64, e: u64, v: i32)
        requires
            old(self).wf(),
            s < e,
        ensures
            final(self).wf(),
            forall|k: int| #[trigger]
                final(self).get(k) == if s <= k < e {
                    Some(v)
                } else {
                    old(self).get(k)
                },
    {
        let ghost old_segs = self.segs@;
        let n = self.segs.len();
        let mut out: Vec<Segment> = Vec::new();
        // The parts of the old segments that lie before `s`.
        let mut i: usize = 0;
        while i < n
            invariant
                n == old_segs.len(),
                self.segs@ == old_segs,
                0 <= i <= n,
                segments_wf(old_segs),
                segments_wf(out@),
                forall|k: int| #[trigger]
                    lookup(out@, k) == if k < s {
                        lookup(old_segs.take(i as int), k)
                    } else {
                        None
                    },
                out@.len() > 0 ==> out@.last().1 <= s,
                out@.len() > 0 ==> forall|j: int| i <= j < n ==> out@.last().1 <= #[trigger] old_segs[j].0,
            decreases n - i,
        {
            let x = self.segs[i];
            let ghost before = out@;
            if x.0 < s {
                let end = if x.1 < s { x.1 } else { s };
                proof {
                    if out@.len() > 0 {
                        assert(out@.last().1 <= old_segs[i as int].0);
                    }
                }
                push_coalesce(&mut out, (x.0, end, x.2));
                proof {
                    assert forall|j: int| i + 1 <= j < n implies out@.last().1 <= #[trigger] old_segs[j].0 by {
                        assert(old_segs[i as int].1 <= old_segs[j].0);
                    }
                }
            }
            proof {
                assert(old_segs.take(i + 1) =~= old_segs.take(i as int).push(x));
                assert forall|k: int| #[trigger]
                    lookup(out@, k) == if k < s {
                        lookup(old_segs.take(i + 1), k)
                    } else {
                        None
                    } by {
                    lemma_lookup_push(old_segs.take(i as int), x, k);
                    lemma_lookup_push(before, (x.0, if x.1 < s { x.1 } else { s }, x.2), k);
                }
            }
            i = i + 1;
        }
        proof {
            assert(old_segs.take(n as int) =~= old_segs);
        }
        let ghost mid = out@;
        push_coalesce(&mut out, (s, e, v));
        proof {
            assert forall|k: int| #[trigger]
                lookup(out@, k) == if s <= k < e {
                    Some(v)
                } else if k < s {
                    lookup(old_segs, k)
                } else {
                    None
                } by {
                lemma_lookup_push(mid, (s, e, v), k);
            }
            assert(old_segs.take(0) =~= Seq::<Segment>::empty());
        }
        // The parts of the old segments that lie at or after `e`.
        i = 0;
        while i < n
            invariant
                n == old_segs.len(),
                self.segs@ == old_segs,
                0 <= i <= n,
                s < e,
                segments_wf(old_segs),
                segments_wf(out@),
                forall|k: int| #[trigger]
                    lookup(out@, k) == if s <= k < e {
                        Some(v)
                    } else if k < s {
                        lookup(old_segs, k)
                    } else {
                        lookup(old_segs.take(i as int), k)
                    },
                out@.len() > 0,
                forall|j: int|
                    i <= j < n ==> out@.last().1 <= #[trigger] old_segs[j].0 || out@.last().1 <= e,
            decreases n - i,
        {
            let x = self.segs[i];
            let ghost before = out@;
            if x.1 > e {
                let start = if x.0 > e { x.0 } else { e };
                proof {
                    assert(out@.last().1 <= old_segs[i as int].0 || out@.last().1 <= e);
                }
                push_coalesce(&mut out, (start, x.1, x.2));
                proof {
                    assert forall|j: int| i + 1 <= j < n implies out@.last().1 <= #[trigger] old_segs[j].0
                        || out@.last().1 <= e by {
                        assert(old_segs[i as int].1 <= old_segs[j].0);
                    }
                }
            }
            proof {
                assert(old_segs.take(i + 1) =~= old_segs.take(i as int).push(x));
                assert forall|k: int| #[trigger]
                    lookup(out@, k) == if s <= k < e {
                        Some(v)
                    } else if k < s {
                        lookup(old_segs, k)
                    } else {
                        lookup(old_segs.take(i + 1), k)
                    } by {
                    lemma_lookup_push(old_segs.take(i as int), x, k);
                    lemma_lookup_push(before, (if x.0 > e { x.0 } else { e }, x.1, x.2), k);
                }
            }
            i = i + 1;
        }
        proof {
            assert(old_segs.take(n as int) =~= old_segs);
        }
        self.segs = out;
    }

    /// The segments, in order.
    pub fn segment_list(&self) -> (res: Vec<Segment>)
        ensures
            res@ == self.segments(),
    {
        let mut out: Vec<Segment> = Vec::new();
        let mut i: usize = 0;
        while i < self.segs.len()
            invariant
                0 <= i <= self.segs@.len(),
                out@ == self.segs@.take(i as int),
            decreases self.segs@.len() - i,
        {
            out.push(self.segs[i]);
            proof {
                assert(out@ =~= self.segs@.take(i + 1));
            }
            i = i + 1;
        }
        proof {
            assert(self.segs@.take(self.segs@.len() as int) =~= self.segs@);
        }
        out
    }

    /// The segments that overlap the query `[qs, qe)`, first to last.
    pub fn overlapping(&self, qs: u64, qe: u64) -> (res: Vec<Segment>)
        ensures
            res@ == self.segments().filter(overlap_pred(qs as int, qe as int)),
            qs < qe && self.wf() ==> forall|x: Segment|
                #[trigger] res@.contains(x) <==> self.segments().contains(x) && exists|k: int|
                    qs <= k < qe && #[trigger] seg_holds(x, k),
    {
        proof {
            if qs < qe && self.wf() {
                lemma_overlap_filter_keys(self.segments(), qs as int, qe as int);
            }
        }
        let ghost pred = overlap_pred(qs as int, qe as int);
        let n = self.segs.len();
        let mut out: Vec<Segment> = Vec::new();
        let mut i: usize = 0;
        proof {
            assert(self.segs@.take(0) =~= Seq::<Segment>::empty());
            reveal(Seq::filter);
        }
        while i < n
            invariant
                n == self.segs@.len(),
                0 <= i <= n,
                pred == overlap_pred(qs as int, qe as int),
                out@ == self.segs@.take(i as int).filter(pred),
            decreases n - i,
        {
            let x = self.segs[i];
            proof {
                assert(self.segs@.take(i + 1) =~= self.segs@.take(i as int).push(x));
                self.segs@.take(i as int).lemma_filter_push(x, pred);
            }
            if x.0 < qe && qs < x.1 {
                out.push(x);
            }
            i = i + 1;
        }
        proof {
            assert(self.segs@.take(n as int) =~= self.segs@);
        }
        out
    }

    /// The segments that overlap the query `[qs, qe)`, last to first.
    pub fn overlapping_rev(&self, qs: u64, qe: u64) -> (res: Vec<Segment>)
        ensures
            res@ == self.segments().filter(overlap_pred(qs as int, qe as int)).reverse(),
            qs < qe && self.wf() ==> forall|x: Segment|
                #[trigger] res@.contains(x) <==> self.segments().contains(x) && exists|k: int|
                    qs <= k < qe && #[trigger] seg_holds(x, k),
    {
        proof {
            if qs < qe && self.wf() {
                lemma_overlap_filter_keys(self.segments(), qs as int, qe as int);
                let f = self.segments().filter(overlap_pred(qs as int, qe as int));
                lemma_reverse_contains(f);
            }
        }
        let ghost pred = overlap_pred(qs as int, qe as int);
        let n = self.segs.len();
        let mut out: Vec<Segment> = Vec::new();
        let mut i: usize = n;
        proof {
            assert(self.segs@.skip(n as int) =~= Seq::<Segment>::empty());
            reveal(Seq::filter);
            assert(out@ =~= self.segs@.skip(n as int).filter(pred).reverse());
        }
        while i > 0
            invariant
                n == self.segs@.len(),
                0 <= i <= n,
                pred == overlap_pred(qs as int, qe as int),
                out@ == self.segs@.skip(i as int).filter(pred).reverse(),
            decreases i,
        {
            let x = self.segs[i - 1];
            let ghost rest = self.segs@.skip(i as int);
            let ghost before = out@;
            proof {
                assert(self.segs@.skip(i - 1) =~= seq![x] + rest);
                Seq::filter_distributes_over_add(seq![x], rest, pred);
                assert(seq![x] =~= Seq::<Segment>::empty().push(x));
                Seq::<Segment>::empty().lemma_filter_push(x, pred);
                reveal(Seq::filter);
                assert(Seq::<Segment>::empty().filter(pred) =~= Seq::<Segment>::empty());
            }
            if x.0 < qe && qs < x.1 {
                out.push(x);
                proof {
                    let f = rest.filter(pred);
                    assert(seq![x].filter(pred) =~= seq![x]);
                    assert((seq![x] + f).reverse() =~= f.reverse().push(x));
                }
            } else {
                proof {
                    let f = rest.filter(pred);
                    assert(seq![x].filter(pred) =~= Seq::<Segment>::empty());
                    assert(seq![x].filter(pred) + f =~= f);
                }
            }
            i = i - 1;
        }
        proof {
            assert(self.segs@.skip(0) =~= self.segs@);
        }
        out
    }

    /// Whether the two maps hold the same segments.
    pub fn same_segments(&self, other: &Self) -> (r: bool)
        ensures
            r == (self.segments() == other.segments()),
    {
        let n = self.segs.len();
        if n != other.segs.len() {
            proof {
                assert(self.segs@.len() != other.segs@.len());
            }
            return false;
        }
        let mut i: usize = 0;
        while i < n
            invariant
                n == self.segs@.len(),
                n == other.segs@.len(),
                0 <= i <= n,
                forall|j: int| 0 <= j < i ==> self.segs@[j] == other.segs@[j],
            decreases n - i,
        {
            let x = self.segs[i];
            let y = other.segs[i];
            if x.0 != y.0 || x.1 != y.1 || x.2 != y.2 {
                proof {
                    assert(self.segs@[i as int] != other.segs@[i as int]);
                }
                return false;
            }
            i = i + 1;
        }
        proof {
            assert(self.segs@ =~= other.segs@);
        }
        true
    }
}

} // verus!
