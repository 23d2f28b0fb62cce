//! Whole-number arithmetic that gives what double precision arithmetic gives.
//!
//! A double holds 53 binary digits. After every operation the exact result is replaced by
//! the nearest number with that many digits, or, of two that are as near, by the one whose
//! last digit is 0.

use vstd::arithmetic::power2::{
    lemma2_to64, lemma2_to64_rest, lemma_pow2_adds, lemma_pow2_pos, lemma_pow2_strictly_increases, pow2,
};
use vstd::prelude::*;

use crate::eliasfano;
use crate::eliasfano::{ceil_div, floor_log2};

verus! {

/// `num / den`, rounded to the nearest whole number; halves go to the even one.
pub open spec fn half_even(num: nat, den: nat) -> nat {
    let q = num / den;
    let r = num % den;
    if 2 * r > den || (2 * r == den && q % 2 == 1) { q + 1 } else { q }
}

/// The double that is nearest to a whole number.
pub open spec fn nearest(x: nat) -> nat {
    if x < pow2(53) {
        x
    } else {
        let unit = pow2((floor_log2(x) - 52) as nat);
        half_even(x, unit) * unit
    }
}

/// The least whole number that is not below the double nearest to `num / den`, for a
/// quotient that is zero or at least 1.
pub open spec fn quotient_up(num: nat, den: nat) -> nat {
    let top = floor_log2(num / den);
    if top <= 52 {
        let parts = pow2((52 - top) as nat);
        ceil_div(half_even(num * parts, den), parts)
    } else {
        let unit = pow2((top - 52) as nat);
        half_even(num, den * unit) * unit
    }
}

proof fn lemma_powers()
    ensures
        pow2(52) == 0x10_0000_0000_0000,
        pow2(53) == 0x20_0000_0000_0000,
        pow2(64) == 0x1_0000_0000_0000_0000,
        pow2(126) == 0x4000_0000_0000_0000_0000_0000_0000_0000,
        pow2(128) == 0x1_0000_0000_0000_0000_0000_0000_0000_0000,
{
    lemma2_to64();
    lemma2_to64_rest();
    lemma_pow2_adds(63, 63);
    lemma_pow2_adds(64, 64);
    assert(0x8000_0000_0000_0000 * 0x8000_0000_0000_0000 == 0x4000_0000_0000_0000_0000_0000_0000_0000);
    assert(0x1_0000_0000_0000_0000 * 0x1_0000_0000_0000_0000 == 0x1_0000_0000_0000_0000_0000_0000_0000_0000);
}

proof fn lemma_top(x: nat, k: nat)
    requires
        x < pow2(k),
        k > 0,
    ensures
        floor_log2(x) < k,
{
    eliasfano::lemma_floor_log2(x);
    if floor_log2(x) > k {
        lemma_pow2_strictly_increases(k, floor_log2(x));
    }
}

fn half_even_of(num: u128, den: u128) -> (r: u128)
    requires
        0 < den <= u128::MAX / 2,
    ensures
        r == half_even(num as nat, den as nat),
        r <= num / den + 1,
{
    let q: u128 = num / den;
    let rem: u128 = num % den;
    if 2 * rem > den || (2 * rem == den && q % 2 == 1) {
        proof {
            assert(q < u128::MAX) by (nonlinear_arith)
                requires
                    q == num / den,
                    rem == num % den,
                    rem > 0,
                    den > 0,
                    num <= u128::MAX,
            ;
        }
        q + 1
    } else {
        q
    }
}

/// A power of two.
fn power(k: u64) -> (r: u128)
    requires
        k < 127,
    ensures
        r == pow2(k as nat),
        0 < r <= u128::MAX / 2,
{
    let mut r: u128 = 1;
    let mut i: u64 = 0;
    proof {
        lemma2_to64();
        lemma_powers();
    }
    while i < k
        invariant
            i <= k < 127,
            r == pow2(i as nat),
            0 < r <= pow2(126),
            pow2(126) == 0x4000_0000_0000_0000_0000_0000_0000_0000,
        decreases k - i,
    {
        proof {
            lemma_pow2_adds(i as nat, 1);
            if i + 1 < 126 {
                lemma_pow2_strictly_increases((i + 1) as nat, 126);
            }
            lemma2_to64();
        }
        r = 2 * r;
        i = i + 1;
    }
    r
}

/// The place of the highest binary digit.
fn top_digit(x: u128) -> (k: u64)
    ensures
        k == floor_log2(x as nat),
        k < 128,
{
    let mut y: u128 = x;
    let mut k: u64 = 0;
    proof {
        lemma_powers();
        lemma_top(x as nat, 128);
    }
    while y > 1
        invariant
            k + floor_log2(y as nat) == floor_log2(x as nat),
            floor_log2(x as nat) < 128,
        decreases y,
    {
        y = y / 2;
        k = k + 1;
    }
    k
}

/// The unit of the last digit is no more than a part in `2^52`.
proof fn lemma_unit(x: nat, top: nat) -> (unit: nat)
    requires
        x > 0,
        top == floor_log2(x),
        top >= 52,
    ensures
        unit == pow2((top - 52) as nat),
        unit > 0,
        unit * 0x10_0000_0000_0000 <= x < unit * 0x20_0000_0000_0000,
{
    let unit = pow2((top - 52) as nat);
    eliasfano::lemma_floor_log2(x);
    lemma_powers();
    lemma_pow2_pos((top - 52) as nat);
    lemma_pow2_adds((top - 52) as nat, 52);
    unit
}

/// Rounding adds less than one.
proof fn lemma_half_even(num: nat, den: nat)
    requires
        den > 0,
    ensures
        half_even(num, den) <= num / den + 1,
        half_even(num, den) * den <= num + den,
{
    let q = num / den;
    assert((q + 1) * den <= num + den) by (nonlinear_arith)
        requires
            q == num / den,
            den > 0,
    ;
    assert(q * den <= (q + 1) * den) by (nonlinear_arith);
}

/// The nearest double lies within a part in `2^52`.
pub proof fn lemma_nearest(x: nat)
    ensures
        nearest(x) <= x + x / 0x10_0000_0000_0000,
{
    lemma_powers();
    if x >= pow2(53) {
        eliasfano::lemma_floor_log2(x);
        let top = floor_log2(x);
        if top < 52 {
            lemma_pow2_strictly_increases(top, 52);
        }
        let unit = lemma_unit(x, top);
        lemma_half_even(x, unit);
    }
}

/// The quotient is at most two above the exact one.
pub proof fn lemma_quotient(num: nat, den: nat)
    requires
        den > 0,
        num / den < 0x10_0000_0000_0000,
    ensures
        quotient_up(num, den) <= num / den + 2,
{
    lemma_powers();
    let w = num / den;
    let top = floor_log2(w);
    lemma_top(w, 52);
    let parts = pow2((52 - top) as nat);
    lemma_pow2_pos((52 - top) as nat);
    let h = half_even(num * parts, den);
    lemma_half_even(num * parts, den);
    assert(num * parts < (w + 1) * parts * den) by (nonlinear_arith)
        requires
            w == num / den,
            den > 0,
            parts > 0,
    ;
    let c = num * parts / den;
    assert(c < (w + 1) * parts) by (nonlinear_arith)
        requires
            c == num * parts / den,
            num * parts < (w + 1) * parts * den,
            den > 0,
    ;
    assert(h <= (w + 1) * parts);
    assert((h + parts - 1) / parts as int <= w + 1) by (nonlinear_arith)
        requires
            h <= (w + 1) * parts,
            parts > 0,
            h >= 0,
    ;
}

/// The double that is nearest to a whole number.
pub fn nearest_double(x: u128) -> (r: u128)
    requires
        x < 0x1000_0000_0000_0000_0000_0000_0000_0000,
    ensures
        r == nearest(x as nat),
{
    proof {
        lemma_powers();
        lemma_nearest(x as nat);
        eliasfano::lemma_floor_log2(x as nat);
    }
    if x < 0x20_0000_0000_0000 {
        return x;
    }
    let top: u64 = top_digit(x);
    proof {
        if top < 52 {
            lemma_pow2_strictly_increases(top as nat, 52);
        }
        let unit = lemma_unit(x as nat, top as nat);
        lemma_half_even(x as nat, unit);
    }
    let unit: u128 = power(top - 52);
    half_even_of(x, unit) * unit
}

/// The least whole number that is not below the double nearest to `num / den`, for a
/// quotient that is zero or at least 1.
pub fn quotient_double_up(num: u128, den: u128) -> (r: u128)
    requires
        num < 0x1000_0000_0000_0000_0000_0000_0000_0000,
        0 < den < 0x20_0000_0000_0000,
    ensures
        r == quotient_up(num as nat, den as nat),
{
    let w: u128 = num / den;
    let top: u64 = top_digit(w);
    proof {
        lemma_powers();
        eliasfano::lemma_floor_log2(w as nat);
    }
    if top <= 52 {
        let parts: u128 = power(52 - top);
        proof {
            lemma_pow2_adds((52 - top) as nat, top as nat);
            let t = pow2(top as nat);
            lemma_pow2_pos(top as nat);
            assert(w < 2 * t);
            assert(num * parts < den * 0x20_0000_0000_0000) by (nonlinear_arith)
                requires
                    w == num / den,
                    w < 2 * t,
                    parts * t == 0x10_0000_0000_0000,
                    den > 0,
                    parts > 0,
                    num >= 0,
            ;
            assert(num * parts < u128::MAX / 2);
            assert(parts <= 0x10_0000_0000_0000) by (nonlinear_arith)
                requires
                    parts * t == 0x10_0000_0000_0000,
                    t >= 1,
                    parts > 0,
            ;
            lemma_half_even((num * parts) as nat, den as nat);
        }
        let h: u128 = half_even_of(num * parts, den);
        (h + parts - 1) / parts
    } else {
        let unit: u128 = power(top - 52);
        proof {
            let u2 = lemma_unit(w as nat, top as nat);
            assert(0 < den * unit <= num) by (nonlinear_arith)
                requires
                    w == num / den,
                    unit * 0x10_0000_0000_0000 <= w,
                    den > 0,
                    unit > 0,
            ;
            lemma_half_even(num as nat, (den * unit) as nat);
            let h = half_even(num as nat, (den * unit) as nat);
            assert(h * unit <= h * (den * unit)) by (nonlinear_arith)
                requires
                    den >= 1,
                    unit > 0,
                    h >= 0,
            ;
        }
        half_even_of(num, den * unit) * unit
    }
}

} // verus!
