//! Bits of integers and of byte strings, as mathematics.
//!
//! Bit `i` of a number is its `i`-th binary digit counted from the least significant
//! one; bit `p` of a byte string is bit `p % 8` of byte `p / 8`. Every code, table and
//! bit array of the format is described with these two notions.

use vstd::arithmetic::div_mod::*;
use vstd::arithmetic::mul::*;
use vstd::arithmetic::power2::*;
use vstd::bits::*;
use vstd::prelude::*;

verus! {

/// Binary digit `i` of `x`.
pub open spec fn nbit(x: int, i: int) -> bool {
    (x / (pow2(i as nat) as int)) % 2 == 1
}

/// Bit `p` of a byte string; bits past its end read as zero.
pub open spec fn dbit(data: Seq<u8>, p: int) -> bool {
    0 <= p && p / 8 < data.len() && nbit(data[p / 8] as int, p % 8)
}

/// Bit `p` of an array of 64-bit words; bits past its end read as zero.
pub open spec fn wbit(words: Seq<u64>, p: int) -> bool {
    0 <= p && p / 64 < words.len() && nbit(words[p / 64] as int, p % 64)
}

/// One or zero.
pub open spec fn digit(b: bool) -> int {
    if b { 1int } else { 0int }
}

pub proof fn lemma_pow2_split(n: int, i: int)
    requires
        0 <= i <= n,
    ensures
        pow2(n as nat) == pow2(i as nat) * pow2((n - i) as nat),
        pow2(i as nat) > 0,
        pow2((n - i) as nat) > 0,
        pow2(i as nat) <= pow2(n as nat),
{
    lemma_pow2_adds(i as nat, (n - i) as nat);
    lemma_pow2_pos(i as nat);
    lemma_pow2_pos((n - i) as nat);
    assert(i as nat + (n - i) as nat == n as nat);
    if i < n {
        lemma_pow2_strictly_increases(i as nat, n as nat);
    }
}

/// The low `n + 1` digits are the low `n` digits plus digit `n`.
pub proof fn lemma_nbit_split(x: int, n: int)
    requires
        0 <= x,
        0 <= n,
    ensures
        x % (pow2((n + 1) as nat) as int) == x % (pow2(n as nat) as int) + digit(nbit(x, n)) * pow2(n as nat),
{
    lemma_pow2_pos(n as nat);
    lemma_pow2_unfold((n + 1) as nat);
    let m = pow2(n as nat) as int;
    assert(pow2((n + 1) as nat) == m * 2) by (nonlinear_arith)
        requires
            pow2((n + 1) as nat) == 2 * m,
    ;
    lemma_mod_breakdown(x, m, 2);
    let q = (x / m) % 2;
    assert(q == 0 || q == 1);
    if nbit(x, n) {
        assert(m * q == m) by (nonlinear_arith)
            requires
                q == 1,
        ;
    } else {
        assert(m * q == 0) by (nonlinear_arith)
            requires
                q == 0,
        ;
    }
}

/// A number below `2^n` is determined by its low `n` digits.
pub proof fn lemma_nbit_ext(x: int, y: int, n: int)
    requires
        0 <= n,
        0 <= x < pow2(n as nat),
        0 <= y < pow2(n as nat),
        forall|i: int| 0 <= i < n ==> #[trigger] nbit(x, i) == nbit(y, i),
    ensures
        x == y,
{
    lemma_nbit_ext_mod(x, y, n);
    lemma_small_mod(x as nat, pow2(n as nat));
    lemma_small_mod(y as nat, pow2(n as nat));
}

proof fn lemma_nbit_ext_mod(x: int, y: int, n: int)
    requires
        0 <= n,
        0 <= x,
        0 <= y,
        forall|i: int| 0 <= i < n ==> #[trigger] nbit(x, i) == nbit(y, i),
    ensures
        x % (pow2(n as nat) as int) == y % (pow2(n as nat) as int),
    decreases n,
{
    if n == 0 {
        lemma2_to64();
        assert(x % 1 == 0 && y % 1 == 0);
    } else {
        lemma_nbit_ext_mod(x, y, n - 1);
        lemma_nbit_split(x, n - 1);
        lemma_nbit_split(y, n - 1);
        assert(nbit(x, n - 1) == nbit(y, n - 1));
    }
}

/// Digits of `x + y * 2^n` for `x < 2^n`.
pub proof fn lemma_nbit_append(x: int, y: int, n: int, i: int)
    requires
        0 <= n,
        0 <= i,
        0 <= x < pow2(n as nat),
        0 <= y,
    ensures
        nbit(x + y * pow2(n as nat), i) == if i < n { nbit(x, i) } else { nbit(y, i - n) },
{
    let v = x + y * pow2(n as nat);
    let m = pow2(n as nat) as int;
    lemma_pow2_pos(n as nat);
    if i < n {
        lemma_pow2_split(n, i);
        lemma_pow2_unfold((n - i) as nat);
        let a = pow2(i as nat) as int;
        let h = pow2((n - i - 1) as nat) as int;
        // v = x + (y * 2 * h) * a
        assert(v == x + (y * (2 * h)) * a) by (nonlinear_arith)
            requires
                v == x + y * m,
                m == a * (2 * h),
        ;
        lemma_hoist_over_denominator(x, y * (2 * h), a as nat);
        assert(v / a == x / a + y * (2 * h));
        assert(x / a + y * (2 * h) == 2 * (y * h) + x / a) by (nonlinear_arith);
        lemma_mod_multiples_vanish(y * h, x / a, 2);
    } else {
        lemma_pow2_split(i, n);
        let b = pow2((i - n) as nat) as int;
        assert(v == m * y + x) by (nonlinear_arith)
            requires
                v == x + y * m,
        ;
        assert(0 <= v) by (nonlinear_arith)
            requires
                v == m * y + x,
                m > 0,
                y >= 0,
                x >= 0,
        ;
        lemma_div_multiples_vanish_fancy(y, x, m);
        lemma_div_denominator(v, m, b);
        assert(pow2(i as nat) == m * b);
    }
}

/// Digits of the low part of a number.
pub proof fn lemma_nbit_mod(x: int, n: int, i: int)
    requires
        0 <= x,
        0 <= n,
        0 <= i,
    ensures
        nbit(x % (pow2(n as nat) as int), i) == (i < n && nbit(x, i)),
{
    let m = pow2(n as nat) as int;
    lemma_pow2_pos(n as nat);
    lemma_fundamental_div_mod(x, m);
    lemma_mul_is_commutative(m, x / m);
    assert(x / m >= 0) by {
        lemma_div_pos_is_pos(x, m);
    }
    lemma_mod_bound(x, m);
    lemma_nbit_append(x % m, x / m, n, i);
    lemma_nbit_append(x % m, 0, n, i);
    assert(0 * pow2(n as nat) == 0);
    if i >= n {
        lemma_nbit_zero(i - n);
    }
}

/// Digits of a right shift.
pub proof fn lemma_nbit_div(x: int, n: int, i: int)
    requires
        0 <= x,
        0 <= n,
        0 <= i,
    ensures
        nbit(x / (pow2(n as nat) as int), i) == nbit(x, i + n),
{
    lemma_pow2_split(i + n, n);
    lemma_div_denominator(x, pow2(n as nat) as int, pow2(i as nat) as int);
    assert((i + n - n) as nat == i as nat);
}

pub proof fn lemma_nbit_zero(i: int)
    requires
        0 <= i,
    ensures
        !nbit(0, i),
{
    lemma_pow2_pos(i as nat);
    lemma_div_basics(pow2(i as nat) as int);
}

/// A number below `2^n` has no digit at or above `n`.
pub proof fn lemma_nbit_high(x: int, n: int, i: int)
    requires
        0 <= x < pow2(n as nat),
        0 <= n <= i,
    ensures
        !nbit(x, i),
{
    lemma_small_mod(x as nat, pow2(n as nat));
    lemma_nbit_mod(x, n, i);
}

pub proof fn lemma_nbit_one(i: int)
    requires
        0 <= i,
    ensures
        nbit(1, i) == (i == 0),
{
    lemma2_to64();
    if i > 0 {
        lemma_nbit_high(1, 1, i);
    } else {
        assert(1int / (pow2(0) as int) == 1) by (nonlinear_arith)
            requires
                pow2(0) == 1,
        ;
    }
}

// ------------------------------------------------------------------ machine words

/// Shifting right and masking one bit reads a digit.
pub proof fn lemma_bit64(x: u64, i: u64)
    requires
        i < 64,
    ensures
        ((x >> i) & 1 == 1) == nbit(x as int, i as int),
        ((x >> i) & 1 == 0) == !nbit(x as int, i as int),
{
    lemma_u64_shr_is_div(x, i);
    let y = x >> i;
    assert(y & 1 == y % 2) by (bit_vector);
}

pub proof fn lemma_pow2_64()
    ensures
        pow2(8) == 0x100,
        pow2(9) == 0x200,
        pow2(16) == 0x1_0000,
        pow2(32) == 0x1_0000_0000,
        pow2(64) == 0x1_0000_0000_0000_0000,
{
    lemma2_to64();
    lemma2_to64_rest();
}

/// `1 << k`.
pub proof fn lemma_shl_one(k: u64)
    requires
        k < 64,
    ensures
        (1u64 << k) == pow2(k as nat),
{
    lemma_u64_pow2_no_overflow(k as nat);
    lemma_u64_shl_is_mul(1, k);
}

/// Setting a bit.
pub proof fn lemma_or_bit(x: u64, k: u64, i: int)
    requires
        k < 64,
        0 <= i < 64,
    ensures
        nbit((x | (1u64 << k)) as int, i) == (nbit(x as int, i) || i == k),
{
    let j = i as u64;
    let y = x | (1u64 << k);
    lemma_bit64(x, j);
    lemma_bit64(y, j);
    assert((((x | (1u64 << k)) >> j) & 1 == 1) == ((x >> j) & 1 == 1 || j == k)) by (bit_vector)
        requires
            k < 64,
            j < 64,
    ;
}

/// Bitwise or, digit by digit.
pub proof fn lemma_or(x: u64, y: u64, i: int)
    requires
        0 <= i < 64,
    ensures
        nbit((x | y) as int, i) == (nbit(x as int, i) || nbit(y as int, i)),
{
    let j = i as u64;
    let z = x | y;
    lemma_bit64(x, j);
    lemma_bit64(y, j);
    lemma_bit64(z, j);
    assert((((x | y) >> j) & 1 == 1) == ((x >> j) & 1 == 1 || (y >> j) & 1 == 1)) by (bit_vector)
        requires
            j < 64,
    ;
}

/// Bitwise and, digit by digit.
pub proof fn lemma_and(x: u64, y: u64, i: int)
    requires
        0 <= i < 64,
    ensures
        nbit((x & y) as int, i) == (nbit(x as int, i) && nbit(y as int, i)),
{
    let j = i as u64;
    let z = x & y;
    lemma_bit64(x, j);
    lemma_bit64(y, j);
    lemma_bit64(z, j);
    assert((((x & y) >> j) & 1 == 1) == ((x >> j) & 1 == 1 && (y >> j) & 1 == 1)) by (bit_vector)
        requires
            j < 64,
    ;
}

/// Left shift within a word, digit by digit: digits pushed past bit 63 are lost.
pub proof fn lemma_shl(x: u64, s: u64, i: int)
    requires
        s < 64,
        0 <= i < 64,
    ensures
        nbit((x << s) as int, i) == (i >= s && nbit(x as int, i - s)),
{
    let j = i as u64;
    let z = x << s;
    lemma_bit64(z, j);
    if i >= s {
        let k = (i - s) as u64;
        lemma_bit64(x, k);
        assert((((x << s) >> j) & 1 == 1) == ((x >> k) & 1 == 1)) by (bit_vector)
            requires
                s < 64,
                j < 64,
                s <= j,
                k == j - s,
        ;
    } else {
        assert(((x << s) >> j) & 1 == 0) by (bit_vector)
            requires
                s < 64,
                j < s,
        ;
    }
}

/// Right shift within a word, digit by digit.
pub proof fn lemma_shr(x: u64, s: u64, i: int)
    requires
        s < 64,
        0 <= i < 64,
    ensures
        nbit((x >> s) as int, i) == (i + s < 64 && nbit(x as int, i + s)),
{
    lemma_u64_shr_is_div(x, s);
    lemma_nbit_div(x as int, s as int, i);
    lemma_pow2_64();
    if i + s >= 64 {
        lemma_nbit_high(x as int, 64, i + s);
    }
}

/// Two words with the same digits are equal.
pub proof fn lemma_ext64(x: u64, y: u64)
    requires
        forall|i: int| 0 <= i < 64 ==> #[trigger] nbit(x as int, i) == nbit(y as int, i),
    ensures
        x == y,
{
    lemma_pow2_64();
    lemma_nbit_ext(x as int, y as int, 64);
}

/// Clearing the lowest set bit.
pub proof fn lemma_clear_lowest(x: u64, low: u64, i: int)
    requires
        low < 64,
        nbit(x as int, low as int),
        forall|j: int| 0 <= j < low ==> !nbit(x as int, j),
        0 <= i < 64,
    ensures
        x != 0,
        nbit((x & ((x - 1) as u64)) as int, i) == (nbit(x as int, i) && i != low),
{
    if x == 0 {
        lemma_nbit_zero(low as int);
    }
    let y = (x - 1) as u64;
    let j = i as u64;
    let z = x & y;
    let s = (64 - low) as u64;
    assert(low == 0 || x << s == 0) by {
        if low > 0 {
            assert forall|k: int| 0 <= k < 64 implies nbit((x << s) as int, k) == nbit(0, k) by {
                lemma_shl(x, s, k);
                lemma_nbit_zero(k);
            }
            lemma_ext64(x << s, 0);
        }
    }
    lemma_bit64(x, low);
    lemma_bit64(x, j);
    lemma_bit64(z, j);
    assert((((x & y) >> j) & 1 == 1) == ((x >> j) & 1 == 1 && j != low)) by (bit_vector)
        requires
            low < 64,
            j < 64,
            x != 0,
            y == x - 1,
            (x >> low) & 1 == 1,
            s == 64 - low,
            low == 0 || x << s == 0,
    ;
}

/// What `trailing_zeros` returns on a nonzero word: the lowest set bit.
pub proof fn lemma_trailing_zeros(x: u64)
    ensures
        x == 0 ==> x.trailing_zeros() == 64,
        x != 0 ==> {
            &&& x.trailing_zeros() < 64
            &&& nbit(x as int, x.trailing_zeros() as int)
            &&& forall|j: int| 0 <= j < x.trailing_zeros() ==> !nbit(x as int, j)
        },
{
    vstd::std_specs::bits::axiom_u64_trailing_zeros(x);
    if x != 0 {
        let t = x.trailing_zeros() as u64;
        lemma_bit64(x, t);
        assert forall|j: int| 0 <= j < t implies !nbit(x as int, j) by {
            let k = j as u64;
            lemma_bit64(x, k);
            assert((x >> k) & 1u64 == 0u64);
        }
    }
}

} // verus!
