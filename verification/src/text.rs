//! How std writes the values that appear in messages and report lines:
//! integers in decimal, booleans as words, ranges as `start..end`, and
//! lists as `[a, b, ...]`.
use vstd::prelude::*;

verus! {

/// The decimal digit of `d`.
pub open spec fn digit_char(d: nat) -> char {
    ((48 + d) as u8) as char
}

/// `n` in decimal, without leading zeros.
pub open spec fn dec_nat(n: nat) -> Seq<char>
    decreases n,
{
    if n < 10 {
        seq![digit_char(n)]
    } else {
        dec_nat(n / 10) + seq![digit_char(n % 10)]
    }
}

/// `i` in decimal, with a leading minus sign when negative.
pub open spec fn dec_int(i: int) -> Seq<char> {
    if i < 0 {
        seq!['-'] + dec_nat((-i) as nat)
    } else {
        dec_nat(i as nat)
    }
}

/// `b` as the word `true` or `false`.
pub open spec fn bool_text(b: bool) -> Seq<char> {
    if b {
        seq!['t', 'r', 'u', 'e']
    } else {
        seq!['f', 'a', 'l', 's', 'e']
    }
}

/// The range `start..end`, its bounds in decimal.
pub open spec fn range_text(start: u32, end: u32) -> Seq<char> {
    dec_nat(start as nat) + seq!['.', '.'] + dec_nat(end as nat)
}

/// A stored range with its value, as the pair `(start..end, value)`.
pub open spec fn entry_text(x: (u32, u32, i32)) -> Seq<char> {
    seq!['('] + range_text(x.0, x.1) + seq![',', ' '] + dec_int(x.2 as int) + seq![')']
}

/// The entries, each as [`entry_text`], separated by `, `.
pub open spec fn entries_text(v: Seq<(u32, u32, i32)>) -> Seq<char>
    decreases v.len(),
{
    if v.len() == 0 {
        Seq::empty()
    } else if v.len() == 1 {
        entry_text(v[0])
    } else {
        entries_text(v.drop_last()) + seq![',', ' '] + entry_text(v.last())
    }
}

/// A list of stored ranges with their values, as `[(s..e, v), ...]`.
pub open spec fn list_text(v: Seq<(u32, u32, i32)>) -> Seq<char> {
    seq!['['] + entries_text(v) + seq![']']
}

} // verus!
