//! The arithmetic that turns raw random draws into property inputs: each
//! test driver draws numbers from its own generator and hands them here.
use vstd::prelude::*;

verus! {

/// The insert `(s, s + span, v)`, with the end saturating at `u32::MAX`.
pub fn triple_from_span(s: u32, span: u32, v: i32) -> (t: (u32, u32, i32))
    ensures
        t == (s, if s + span <= u32::MAX { (s + span) as u32 } else { u32::MAX }, v),
{
    (s, s.saturating_add(span), v)
}

/// A small insert from three raw draws: the start is below 16, the span
/// between 1 and 8, and the value the draw's remainder by 4 (which keeps
/// the draw's sign).
pub fn triple_from_draws(s_draw: u32, span_draw: u32, v_draw: i32) -> (t: (u32, u32, i32))
    ensures
        t.0 == s_draw % 16,
        t.1 == t.0 + 1 + span_draw % 8,
        t.2 == if v_draw >= 0 { v_draw as int % 4 } else { -((-v_draw) % 4) },
{
    let s: u32 = s_draw % 16;
    let span: u32 = 1 + span_draw % 8;
    let v: i32 = v_draw % 4;
    triple_from_span(s, span, v)
}

/// `x + y`, saturating at `u32::MAX`.
pub open spec fn sat_add(x: u32, y: u32) -> u32 {
    if x + y <= u32::MAX {
        (x + y) as u32
    } else {
        u32::MAX
    }
}

/// Saturating addition gives the sum where it fits in `u32` and `u32::MAX`
/// where it does not, never less than either operand.
pub proof fn lemma_sat_add(x: u32, y: u32)
    ensures
        x + y <= u32::MAX ==> sat_add(x, y) == x + y,
        x + y > u32::MAX ==> sat_add(x, y) == u32::MAX,
        sat_add(x, y) >= x && sat_add(x, y) >= y,
{
}

/// A second list of inserts derived from `a` by one perturbation, chosen by
/// `mode`: `0` keeps `a`; `1` widens the end of entry `idx_seed % len` by
/// `delta` (saturating); `2` gives that entry the value `new_v`; any other
/// mode, and modes `1` and `2` on an empty list, append
/// `(new_s, new_s + new_span, new_v)` (saturating).
pub fn perturb_inserts(
    a: &Vec<(u32, u32, i32)>,
    mode: u8,
    idx_seed: usize,
    delta: u32,
    new_v: i32,
    new_s: u32,
    new_span: u32,
) -> (b: Vec<(u32, u32, i32)>)
    ensures
        mode == 0 ==> b@ == a@,
        mode == 1 && a@.len() > 0 ==> b@ == a@.update(
            (idx_seed as int) % (a@.len() as int),
            (a@[(idx_seed as int) % (a@.len() as int)].0, sat_add(a@[(idx_seed as int) % (a@.len() as int)].1, delta), a@[(idx_seed as int) % (a@.len() as int)].2),
        ),
        mode == 2 && a@.len() > 0 ==> b@ == a@.update(
            (idx_seed as int) % (a@.len() as int),
            (a@[(idx_seed as int) % (a@.len() as int)].0, a@[(idx_seed as int) % (a@.len() as int)].1, new_v),
        ),
        mode != 0 && !((mode == 1 || mode == 2) && a@.len() > 0) ==> b@ == a@.push(
            (new_s, sat_add(new_s, new_span), new_v),
        ),
{
    let mut b = copy_inserts(a);
    if mode == 0 {
    } else if mode == 1 && b.len() > 0 {
        let i = idx_seed % b.len();
        let (s, e, v) = b[i];
        b.set(i, (s, e.saturating_add(delta), v));
    } else if mode == 2 && b.len() > 0 {
        let i = idx_seed % b.len();
        let (s, e, _v) = b[i];
        b.set(i, (s, e, new_v));
    } else {
        b.push(triple_from_span(new_s, new_span, new_v));
    }
    b
}

/// One mutation of a list of at most `max` inserts, chosen by `op`: `0`
/// bumps one field (chosen by `field`: start, end, or value) of entry
/// `idx_seed % len` by one, wrapping; `1` appends `(new_s, new_s + new_len,
/// new_v)` while the list is shorter than `max`; otherwise the last entry
/// is dropped, if there is one.
pub fn mutate_inserts(
    v: &Vec<(u32, u32, i32)>,
    op: u8,
    idx_seed: usize,
    field: u8,
    new_s: u32,
    new_len: u32,
    new_v: i32,
    max: usize,
) -> (out: Vec<(u32, u32, i32)>)
    requires
        op == 1 && v@.len() < max ==> new_s + new_len <= u32::MAX,
    ensures
        op == 0 && v@.len() > 0 ==> {
            let i = (idx_seed as int) % (v@.len() as int);
            let x = v@[i];
            out@ == v@.update(
                i,
                if field == 0 {
                    ((if x.0 == u32::MAX { 0 } else { (x.0 + 1) as u32 }), x.1, x.2)
                } else if field == 1 {
                    (x.0, (if x.1 == u32::MAX { 0 } else { (x.1 + 1) as u32 }), x.2)
                } else {
                    (x.0, x.1, (if x.2 == i32::MAX { i32::MIN } else { (x.2 + 1) as i32 }))
                },
            )
        },
        !(op == 0 && v@.len() > 0) && op == 1 && v@.len() < max ==> out@ == v@.push(
            (new_s, (new_s + new_len) as u32, new_v),
        ),
        !(op == 0 && v@.len() > 0) && !(op == 1 && v@.len() < max) ==> out@ == if v@.len() > 0 {
            v@.drop_last()
        } else {
            v@
        },
{
    let mut out = copy_inserts(v);
    if op == 0 && out.len() > 0 {
        let i = idx_seed % out.len();
        let (s, e, val) = out[i];
        if field == 0 {
            out.set(i, (s.wrapping_add(1), e, val));
        } else if field == 1 {
            out.set(i, (s, e.wrapping_add(1), val));
        } else {
            out.set(i, (s, e, val.wrapping_add(1)));
        }
    } else if op == 1 && out.len() < max {
        out.push((new_s, new_s + new_len, new_v));
    } else if out.len() > 0 {
        out.pop();
    }
    out
}

/// A copy of a list of inserts.
pub fn copy_inserts(a: &Vec<(u32, u32, i32)>) -> (b: Vec<(u32, u32, i32)>)
    ensures
        b@ == a@,
{
    let mut b: Vec<(u32, u32, i32)> = Vec::new();
    let mut i: usize = 0;
    while i < a.len()
        invariant
            0 <= i <= a@.len(),
            b@ == a@.take(i as int),
        decreases a@.len() - i,
    {
        b.push(a[i]);
        proof {
            assert(b@ =~= a@.take(i + 1));
        }
        i = i + 1;
    }
    proof {
        assert(a@.take(a@.len() as int) =~= a@);
    }
    b
}

} // verus!
