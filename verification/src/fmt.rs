//! Decimal rendering of integers, as `format!("{}")` and `format!("{:0w}")`
//! produce it.

use vstd::prelude::*;
use crate::text::push_chars;

verus! {

/// The ASCII digit for `d < 10`.
pub open spec fn digit(d: nat) -> char {
    ((d + 48) as u32) as char
}

/// Decimal digits of `n`, most significant first, no leading zeros.
pub open spec fn decimal(n: nat) -> Seq<char>
    decreases n,
{
    if n < 10 {
        seq![digit(n)]
    } else {
        decimal(n / 10).push(digit(n % 10))
    }
}

/// `n` in decimal, left-padded with `'0'` to at least `width` characters.
pub open spec fn padded(n: nat, width: nat) -> Seq<char> {
    let d = decimal(n);
    if d.len() >= width {
        d
    } else {
        Seq::new((width - d.len()) as nat, |i: int| '0') + d
    }
}

fn digit_char(d: u64) -> (c: char)
    requires
        d < 10,
    ensures
        c == digit(d as nat),
{
    ((d + 48) as u8) as char
}

/// Decimal digits of `n`.
pub fn decimal_chars(n: u64) -> (r: Vec<char>)
    ensures
        r@ == decimal(n as nat),
        r@.len() >= 1,
    decreases n,
{
    if n < 10 {
        let mut r = Vec::new();
        r.push(digit_char(n));
        assert(r@ =~= seq![digit(n as nat)]);
        r
    } else {
        let mut r = decimal_chars(n / 10);
        r.push(digit_char(n % 10));
        r
    }
}

/// Appends `n` in decimal.
pub fn push_decimal(s: &mut String, n: u64)
    ensures
        final(s)@ == old(s)@ + decimal(n as nat),
{
    let d = decimal_chars(n);
    push_chars(s, d.as_slice());
}

/// Appends `n` in decimal, zero-padded to `width` characters.
pub fn push_padded(s: &mut String, n: u64, width: usize)
    ensures
        final(s)@ == old(s)@ + padded(n as nat, width as nat),
{
    let d = decimal_chars(n);
    let mut z: Vec<char> = Vec::new();
    if d.len() < width {
        let k = width - d.len();
        let mut i: usize = 0;
        while i < k
            invariant
                i <= k,
                z@ =~= Seq::new(i as nat, |j: int| '0'),
            decreases k - i,
        {
            z.push('0');
            i = i + 1;
        }
    }
    push_chars(s, z.as_slice());
    push_chars(s, d.as_slice());
    assert(z@ + d@ =~= padded(n as nat, width as nat));
}

} // verus!
