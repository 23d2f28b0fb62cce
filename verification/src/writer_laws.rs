//! What written index and filter files hold, byte by byte, also where no reader looks.

use vstd::arithmetic::power2::*;
use vstd::prelude::*;

use crate::bits;
use crate::bloom;
use crate::bt_writer;
use crate::bt_writer::{BtLayout, BtOptions, Walk};
use crate::btree;
use crate::bytes;
use crate::double;
use crate::ef_builder;
use crate::eliasfano;
use crate::hash_laws;
use crate::hash_laws::word8;
use crate::kvei_writer;
use crate::seg_laws::{lemma_number8, number8};
use crate::words;

verus! {

// ------------------------------------------------------------------ rounding

/// `q` is the whole number nearest to `num / den`; of two that are as near, the even one.
pub open spec fn rounds(q: int, num: int, den: int) -> bool {
    &&& 2 * (q * den - num) <= den
    &&& 2 * (num - q * den) <= den
    &&& 2 * (q * den - num) == den || 2 * (num - q * den) == den ==> q % 2 == 0
}

proof fn lemma_rounds(num: nat, den: nat)
    requires
        den > 0,
    ensures
        rounds(double::half_even(num, den) as int, num as int, den as int),
{
    let q = num / den;
    let r = num % den;
    assert(num == q * den + r && r < den) by (nonlinear_arith)
        requires
            q == num / den,
            r == num % den,
            den > 0,
    ;
    assert((q + 1) * den == q * den + den) by (nonlinear_arith);
}

proof fn lemma_log(x: nat, k: nat)
    requires
        pow2(k) <= x < pow2(k + 1),
    ensures
        eliasfano::floor_log2(x) == k,
{
    let f = eliasfano::floor_log2(x);
    lemma_pow2_pos(k);
    eliasfano::lemma_floor_log2(x);
    lemma_pow2_unfold(f + 1);
    if f < k {
        if f + 1 < k {
            lemma_pow2_strictly_increases(f + 1, k);
        }
    } else if k < f {
        if k + 1 < f {
            lemma_pow2_strictly_increases(k + 1, f);
        }
    }
}

/// The double nearest to a whole number: that number itself below `2^53`, otherwise the
/// number rounded to 53 binary digits.
pub proof fn law_nearest_double(x: nat, k: nat)
    requires
        pow2(k) <= x < pow2(k + 1),
    ensures
        k < 53 ==> double::nearest(x) == x,
        k >= 53 ==> exists|q: int| #[trigger]
            rounds(q, x as int, pow2((k - 52) as nat) as int) && double::nearest(x) == q * pow2((k - 52) as nat),
{
    lemma_log(x, k);
    if k < 53 {
        if k < 52 {
            lemma_pow2_strictly_increases(k + 1, 53);
        }
    } else {
        if k > 53 {
            lemma_pow2_strictly_increases(53, k);
        }
        let unit = pow2((k - 52) as nat);
        lemma_pow2_pos((k - 52) as nat);
        lemma_rounds(x, unit);
        assert(rounds(double::half_even(x, unit) as int, x as int, unit as int));
    }
}

/// The least whole number that is not below the double nearest to a quotient: the quotient
/// is rounded to 53 binary digits and then up.
pub proof fn law_quotient_up(num: nat, den: nat, k: nat)
    requires
        den > 0,
        pow2(k) * den <= num < pow2(k + 1) * den,
    ensures
        k <= 52 ==> exists|q: int| #[trigger]
            rounds(q, (num * pow2((52 - k) as nat)) as int, den as int) && {
                let r = double::quotient_up(num, den);
                (r - 1) * pow2((52 - k) as nat) < q <= r * pow2((52 - k) as nat)
            },
        k > 52 ==> exists|q: int| #[trigger]
            rounds(q, num as int, (den * pow2((k - 52) as nat)) as int) && double::quotient_up(num, den) == q * pow2(
                (k - 52) as nat,
            ),
{
    let w = num / den;
    let (a, b) = (pow2(k), pow2(k + 1));
    assert(a <= w < b) by (nonlinear_arith)
        requires
            w == num / den,
            den > 0,
            a * den <= num < b * den,
    ;
    lemma_log(w, k);
    if k <= 52 {
        let parts = pow2((52 - k) as nat);
        lemma_pow2_pos((52 - k) as nat);
        lemma_rounds(num * parts, den);
        let q = double::half_even(num * parts, den);
        let r = (q + parts - 1) / parts as int;
        assert((r - 1) * parts < q <= r * parts) by (nonlinear_arith)
            requires
                r == (q + parts - 1) / parts as int,
                parts > 0,
        ;
        assert(0 <= r) by (nonlinear_arith)
            requires
                q <= r * parts,
                parts > 0,
                q >= 0,
        ;
        assert(rounds(q as int, (num * parts) as int, den as int));
    } else {
        let unit = pow2((k - 52) as nat);
        lemma_pow2_pos((k - 52) as nat);
        assert(den * unit > 0) by (nonlinear_arith)
            requires
                den > 0,
                unit > 0,
        ;
        lemma_rounds(num, den * unit);
        assert(rounds(double::half_even(num, den * unit) as int, num as int, (den * unit) as int));
    }
}

// ------------------------------------------------------------------ the `.kvei`

/// The double nearest to a number is within a part in `2^53` of it.
proof fn lemma_near(x: nat)
    requires
        x > 0,
    ensures
        9007199254740992 * (double::nearest(x) - x) <= x,
        9007199254740992 * (x - double::nearest(x)) <= x,
{
    let k = eliasfano::floor_log2(x);
    eliasfano::lemma_floor_log2(x);
    lemma_pow2_unfold(k + 1);
    law_nearest_double(x, k);
    if k >= 53 {
        let unit = pow2((k - 52) as nat) as int;
        let q = choose|q: int| #[trigger] rounds(q, x as int, unit) && double::nearest(x) == q * unit;
        lemma_pow2_adds((k - 52) as nat, 52);
        lemma2_to64_rest();
        assert(unit * 4503599627370496 <= x);
    }
}

proof fn lemma_scale(m: int, n: int, c: int, d: int, p: int, b: int)
    requires
        b > 0,
        d > 0,
        n >= 0,
        c > 0,
        p >= 0,
        (m - 1) * d * b <= 16 * p * (b + 1),
        m * d * b >= 16 * p * (b - 1),
        b * p <= n * c * (b + 1),
        b * p >= n * c * (b - 1),
    ensures
        (m - 1) * d * b * b <= 16 * n * c * (b + 1) * (b + 1),
        m * d * b * b >= 16 * n * c * (b - 1) * (b - 1),
{
    assert((m - 1) * d * b * b <= 16 * p * (b + 1) * b) by (nonlinear_arith)
        requires
            (m - 1) * d * b <= 16 * p * (b + 1),
            b > 0,
    ;
    assert(16 * p * (b + 1) * b == 16 * (b + 1) * (b * p)) by (nonlinear_arith);
    assert(16 * (b + 1) * (b * p) <= 16 * (b + 1) * (n * c * (b + 1))) by (nonlinear_arith)
        requires
            b * p <= n * c * (b + 1),
            b > 0,
    ;
    assert(16 * (b + 1) * (n * c * (b + 1)) == 16 * n * c * (b + 1) * (b + 1)) by (nonlinear_arith);
    assert(m * d * b * b >= 16 * p * (b - 1) * b) by (nonlinear_arith)
        requires
            m * d * b >= 16 * p * (b - 1),
            b > 0,
    ;
    assert(16 * p * (b - 1) * b == 16 * (b - 1) * (b * p)) by (nonlinear_arith);
    assert(16 * (b - 1) * (b * p) >= 16 * (b - 1) * (n * c * (b - 1))) by (nonlinear_arith)
        requires
            b * p >= n * c * (b - 1),
            b > 0,
    ;
    assert(16 * (b - 1) * (n * c * (b - 1)) == 16 * n * c * (b - 1) * (b - 1)) by (nonlinear_arith);
}

/// A quotient of doubles, rounded up, is within a part in `2^53` of the quotient rounded up.
proof fn lemma_quotient_near(num: nat, den: nat, k: nat)
    requires
        den > 0,
        k <= 52,
        pow2(k) * den <= num < pow2(k + 1) * den,
    ensures
        (double::quotient_up(num, den) - 1) * den * 9007199254740992 <= num * 9007199254740993,
        double::quotient_up(num, den) * den * 9007199254740992 >= num * 9007199254740991,
{
    law_quotient_up(num, den, k);
    let parts = pow2((52 - k) as nat) as int;
    let r = double::quotient_up(num, den) as int;
    let q = choose|q: int| #[trigger]
        rounds(q, (num * pow2((52 - k) as nat)) as int, den as int) && (r - 1) * pow2((52 - k) as nat) < q <= r * pow2(
            (52 - k) as nat,
        );
    lemma_pow2_pos((52 - k) as nat);
    lemma_pow2_adds((52 - k) as nat, k);
    lemma2_to64_rest();
    let t = pow2(k) as int;
    let (n, d) = (num as int, den as int);
    assert(4503599627370496 * d <= n * parts) by (nonlinear_arith)
        requires
            t * d <= n,
            parts * t == 4503599627370496,
            parts > 0,
    ;
    assert(9007199254740992 * (q * d) <= 9007199254740993 * (n * parts));
    assert(9007199254740992 * (q * d) >= 9007199254740991 * (n * parts));
    assert((r - 1) * d * 9007199254740992 <= n * 9007199254740993) by (nonlinear_arith)
        requires
            9007199254740992 * (q * d) <= 9007199254740993 * (n * parts),
            (r - 1) * parts <= q,
            parts > 0,
            d > 0,
    {
        assert((r - 1) * parts * d <= q * d);
        assert(((r - 1) * d * 9007199254740992) * parts <= (n * 9007199254740993) * parts);
    }
    assert(r * d * 9007199254740992 >= n * 9007199254740991) by (nonlinear_arith)
        requires
            9007199254740992 * (q * d) >= 9007199254740991 * (n * parts),
            r * parts >= q,
            parts > 0,
            d > 0,
    {
        assert(r * parts * d >= q * d);
        assert((r * d * 9007199254740992) * parts >= (n * 9007199254740991) * parts);
    }
}

/// How many bits a filter has: some 9.585 for each key, up to what doubles round off. The
/// factor is `-ln(0.01) / ln(2)^2`, with `-ln(0.01)` in units of `2^-50` and `ln(2)^2` in
/// units of `2^-54`.
pub proof fn law_filter_size(n: u64)
    requires
        2 <= n <= 0x1_0000_0000_0000,
    ensures
        ({
            let m = kvei_writer::filter_m(n) as int;
            let b: int = 9007199254740992;
            &&& m == kvei_writer::optimal_m_spec(n)
            &&& (m - 1) * 8655072057804174 * b * b <= 16 * n * 5184960683398421 * (b + 1) * (b + 1)
            &&& m * 8655072057804174 * b * b >= 16 * n * 5184960683398421 * (b - 1) * (b - 1)
        }),
{
    lemma2_to64_rest();
    let x = (n * 5184960683398421) as nat;
    let p = double::nearest(x);
    assert(double::nearest(n as nat) == n);
    lemma_near(x);
    let (num, den) = (16 * p, 8655072057804174nat);
    let w = num / den;
    assert(18 <= w < 0x10_0000_0000_0000);
    let k = eliasfano::floor_log2(w);
    eliasfano::lemma_floor_log2(w);
    lemma_pow2_unfold(k + 1);
    if k > 51 {
        if k > 52 {
            lemma_pow2_strictly_increases(52, k);
        }
    }
    let (a, c) = (pow2(k), pow2(k + 1));
    assert(a * den <= num < c * den) by (nonlinear_arith)
        requires
            w == num / den,
            den > 0,
            a <= w < c,
    ;
    lemma_quotient_near(num, den, k);
    let m = double::quotient_up(num, den) as int;
    lemma_scale(m, n as int, 5184960683398421, 8655072057804174, p as int, 9007199254740992);
    assert(2 < m <= u64::MAX);
}

/// One number of the generator that the keys of a filter come from.
pub open spec fn scrambled(state: u64) -> u64 {
    let a = ((state ^ (state >> 30)) as int * 0xBF58_476D_1CE4_E5B9) % 0x1_0000_0000_0000_0000;
    let b = ((a as u64 ^ (a as u64 >> 27)) as int * 0x94D0_49BB_1331_11EB) % 0x1_0000_0000_0000_0000;
    b as u64 ^ (b as u64 >> 31)
}

/// The state of that generator after `k` steps from `seed`.
pub open spec fn stepped(seed: u64, k: int) -> u64 {
    ((seed + k * 0x9E37_79B9_7F4A_7C15) % 0x1_0000_0000_0000_0000) as u64
}

/// The keys of a filter are three numbers of splitmix64, whose seed is a constant combined
/// with the number of keys.
pub proof fn law_filter_keys(n: u64)
    ensures
        kvei_writer::filter_keys(n) == seq![
            scrambled(stepped(0x1234_5678_9ABC_DEF0u64 ^ n, 1)),
            scrambled(stepped(0x1234_5678_9ABC_DEF0u64 ^ n, 2)),
            scrambled(stepped(0x1234_5678_9ABC_DEF0u64 ^ n, 3)),
        ],
{
    let seed = 0x1234_5678_9ABC_DEF0u64 ^ n;
    assert(kvei_writer::mixed_state(seed) == stepped(seed, 1));
    assert(kvei_writer::mixed_state(stepped(seed, 1)) == stepped(seed, 2));
    assert(kvei_writer::mixed_state(stepped(seed, 2)) == stepped(seed, 3));
    lemma_scrambled(stepped(seed, 1));
    lemma_scrambled(stepped(seed, 2));
    lemma_scrambled(stepped(seed, 3));
}

proof fn lemma_scrambled(state: u64)
    ensures
        kvei_writer::mixed(state) == scrambled(state),
{
    let x = state ^ (state >> 30);
    let a = x.wrapping_mul(0xBF58_476D_1CE4_E5B9);
    assert(a == (x as int * 0xBF58_476D_1CE4_E5B9) % 0x1_0000_0000_0000_0000);
    let y = a ^ (a >> 27);
    let b = y.wrapping_mul(0x94D0_49BB_1331_11EB);
    assert(b == (y as int * 0x94D0_49BB_1331_11EB) % 0x1_0000_0000_0000_0000);
}

proof fn lemma_written8(out: Seq<u8>, at: int, v: u64)
    requires
        0 <= at,
        at + 8 <= out.len(),
        out.subrange(at, at + 8) == bytes::le_bytes(v as nat, 8),
    ensures
        word8(out, at) == v,
{
    let t = out.subrange(at, at + 8);
    bits::lemma_pow2_64();
    bytes::lemma_le_roundtrip(v as nat, 8);
    hash_laws::lemma_word8(t);
    assert(word8(t, 0) == word8(out, at));
}

/// The bit that a filter of `m` bits has for the key hash `h` and its first, second or third
/// key is bit `p`.
pub open spec fn sets(k0: u64, k1: u64, k2: u64, m: u64, h: u64, p: int) -> bool {
    let h0 = ((h << 17u64) | (h >> 47u64)) ^ k0;
    let h1 = ((h0 << 17u64) | (h0 >> 47u64)) ^ k1;
    let h2 = ((h1 << 17u64) | (h1 >> 47u64)) ^ k2;
    h0 % m == p || h1 % m == p || h2 % m == p
}

/// Bit `p` is one of those that the filter has for one of the hashes.
pub open spec fn some_sets(k0: u64, k1: u64, k2: u64, m: u64, hashes: Seq<u64>, p: int) -> bool {
    exists|i: int| 0 <= i < hashes.len() && sets(k0, k1, k2, m, #[trigger] hashes[i], p)
}

/// Bit `p` of the words that start at byte 60.
pub open spec fn bit_in(out: Seq<u8>, p: int) -> bool {
    (word8(out, 60 + 8 * (p / 64)) as int / pow2((p % 64) as nat) as int) % 2 == 1
}

proof fn lemma_sets(k0: u64, k1: u64, k2: u64, m: u64, hashes: Seq<u64>, p: int)
    ensures
        kvei_writer::touched(seq![k0, k1, k2], m, hashes, p) == some_sets(k0, k1, k2, m, hashes, p),
{
    let keys = seq![k0, k1, k2];
    reveal_with_fuel(bloom::probe, 4);
    assert forall|h: u64|
        #![trigger sets(k0, k1, k2, m, h, p)]
        sets(k0, k1, k2, m, h, p) == (bloom::probe(keys, h, 0) % m == p || bloom::probe(keys, h, 1) % m == p
            || bloom::probe(keys, h, 2) % m == p) by {
        let h0 = ((h << 17u64) | (h >> 47u64)) ^ k0;
        let h1 = ((h0 << 17u64) | (h0 >> 47u64)) ^ k1;
        assert(bloom::probe(keys, h, 0) == h0);
        assert(bloom::probe(keys, h, 1) == h1);
    }
    if kvei_writer::touched(keys, m, hashes, p) {
        let (i, j) = choose|i: int, j: nat|
            0 <= i < hashes.len() && j < 3 && #[trigger] bloom::probe(keys, hashes[i], j) % m == p;
        assert(j == 0 || j == 1 || j == 2);
        assert(sets(k0, k1, k2, m, hashes[i], p));
    }
    if some_sets(k0, k1, k2, m, hashes, p) {
        let i = choose|i: int| 0 <= i < hashes.len() && sets(k0, k1, k2, m, #[trigger] hashes[i], p);
        assert(bloom::probe(keys, hashes[i], 0) % m == p || bloom::probe(keys, hashes[i], 1) % m == p || bloom::probe(
            keys,
            hashes[i],
            2,
        ) % m == p);
    }
}

proof fn lemma_filter_head(n: u64, b: Seq<u64>, out: Seq<u8>)
    requires
        out == kvei_writer::kvei_file(n, b),
    ensures
        out.len() == 108 + 8 * b.len(),
        out.subrange(0, 12) == seq![0u8, 0u8, 0u8, 0u8, 0u8, 0u8, 0u8, 0u8, 118u8, 48u8, 50u8, 10u8],
        word8(out, 12) == 3,
        word8(out, 20) == n,
        word8(out, 28) == kvei_writer::filter_m(n),
        word8(out, 36) == kvei_writer::filter_keys(n)[0],
        word8(out, 44) == kvei_writer::filter_keys(n)[1],
        word8(out, 52) == kvei_writer::filter_keys(n)[2],
        forall|k: int| 0 <= k < b.len() ==> word8(out, 60 + 8 * k) == #[trigger] b[k],
        forall|i: int| out.len() - 48 <= i < out.len() ==> #[trigger] out[i] == 0,
{
    let keys = kvei_writer::filter_keys(n);
    let m = kvei_writer::filter_m(n);
    let head = bloom::bloom_magic() + bytes::le_bytes(3, 8) + bytes::le_bytes(n as nat, 8) + bytes::le_bytes(m as nat, 8)
        + bytes::le_bytes(keys[0] as nat, 8) + bytes::le_bytes(keys[1] as nat, 8) + bytes::le_bytes(keys[2] as nat, 8);
    let wb = ef_builder::words_bytes(b, b.len());
    ef_builder::lemma_words_bytes(b, b.len());
    assert(out == head + wb + words::zeros(48));
    assert(head.len() == 60);
    assert(out.subrange(0, 12) =~= bloom::bloom_magic());
    assert(out.subrange(12, 20) =~= bytes::le_bytes(3, 8));
    assert(out.subrange(20, 28) =~= bytes::le_bytes(n as nat, 8));
    assert(out.subrange(28, 36) =~= bytes::le_bytes(m as nat, 8));
    assert(out.subrange(36, 44) =~= bytes::le_bytes(keys[0] as nat, 8));
    assert(out.subrange(44, 52) =~= bytes::le_bytes(keys[1] as nat, 8));
    assert(out.subrange(52, 60) =~= bytes::le_bytes(keys[2] as nat, 8));
    lemma_written8(out, 12, 3);
    lemma_written8(out, 20, n);
    lemma_written8(out, 28, m);
    lemma_written8(out, 36, keys[0]);
    lemma_written8(out, 44, keys[1]);
    lemma_written8(out, 52, keys[2]);
    assert forall|k: int| 0 <= k < b.len() implies word8(out, 60 + 8 * k) == #[trigger] b[k] by {
        assert(out.subrange(60 + 8 * k, 60 + 8 * k + 8) =~= wb.subrange(8 * k, 8 * k + 8));
        lemma_written8(out, 60 + 8 * k, b[k]);
    }
    assert forall|i: int| out.len() - 48 <= i < out.len() implies #[trigger] out[i] == 0 by {
        assert(out[i] == words::zeros(48)[i - (60 + wb.len())]);
    }
}

/// What a written filter holds: behind the magic the number of hash functions, of keys and
/// of bits and the three keys, then the bits, of which exactly those of the added hashes are
/// set, and 48 zeros. For fewer than two keys there are no bytes.
pub proof fn law_filter_file(n: u64, hashes: Seq<u64>, out: Seq<u8>)
    requires
        kvei_writer::is_kvei(n, hashes, out),
    ensures
        n < 2 ==> out.len() == 0,
        n >= 2 ==> {
            let m = kvei_writer::filter_m(n);
            let keys = kvei_writer::filter_keys(n);
            let nwords = (m + 63) / 64;
            &&& out.len() == 108 + 8 * nwords
            &&& out.subrange(0, 12) == seq![0u8, 0u8, 0u8, 0u8, 0u8, 0u8, 0u8, 0u8, 118u8, 48u8, 50u8, 10u8]
            &&& word8(out, 12) == 3
            &&& word8(out, 20) == n
            &&& word8(out, 28) == m
            &&& word8(out, 36) == keys[0]
            &&& word8(out, 44) == keys[1]
            &&& word8(out, 52) == keys[2]
            &&& forall|p: int|
                0 <= p < 64 * nwords ==> #[trigger] bit_in(out, p) == some_sets(keys[0], keys[1], keys[2], m, hashes, p)
            &&& forall|i: int| out.len() - 48 <= i < out.len() ==> #[trigger] out[i] == 0
        },
{
    if n >= 2 {
        let keys = kvei_writer::filter_keys(n);
        let m = kvei_writer::filter_m(n);
        let b = choose|b: Seq<u64>| #[trigger]
            kvei_writer::is_bloom(keys, m, hashes, b) && out == kvei_writer::kvei_file(n, b);
        lemma_filter_head(n, b, out);
        assert(keys =~= seq![keys[0], keys[1], keys[2]]);
        assert forall|p: int| 0 <= p < 64 * b.len() implies #[trigger] bit_in(out, p) == some_sets(
            keys[0],
            keys[1],
            keys[2],
            m,
            hashes,
            p,
        ) by {
            assert(bits::wbit(b, p) == kvei_writer::touched(keys, m, hashes, p));
            assert(word8(out, 60 + 8 * (p / 64)) == b[p / 64]);
            lemma_sets(keys[0], keys[1], keys[2], m, hashes, p);
        }
    }
}

// ------------------------------------------------------------------ the `.bt`

proof fn lemma_written_number(out: Seq<u8>, at: int, v: nat)
    requires
        0 <= at,
        at + 8 <= out.len(),
        v <= u64::MAX,
        out.subrange(at, at + 8) == bytes::be_bytes(v, 8),
    ensures
        number8(out, at) == v,
{
    bits::lemma_pow2_64();
    bytes::lemma_be_roundtrip(v, 8);
    lemma_number8(out, at);
}

proof fn lemma_padded(s: Seq<u8>, align: nat)
    requires
        align > 0,
    ensures
        ({
            let t = bt_writer::padded(s, align);
            &&& t.len() % align == 0
            &&& s.len() <= t.len() < s.len() + align
            &&& t.take(s.len() as int) == s
            &&& forall|i: int| s.len() <= i < t.len() ==> #[trigger] t[i] == 0
        }),
{
    let t = bt_writer::padded(s, align);
    let n = s.len();
    let r = n % align;
    if r == 0 {
        assert(t.take(n as int) =~= s);
    } else {
        assert(r < align) by (nonlinear_arith)
            requires
                r == n % align,
                align > 0,
        ;
        assert((n + (align - r)) % align as int == 0) by (nonlinear_arith)
            requires
                r == n % align,
                align > 0,
        {
            assert(n == (n / align) * align + r);
            assert(n + (align - r) == (n / align + 1) * align);
            vstd::arithmetic::div_mod::lemma_mod_multiples_basic((n / align + 1) as int, align as int);
        }
        assert(t.take(n as int) =~= s);
    }
}

/// What a written index in the footer layout holds: a 1, the nodes, each behind its length in
/// two bytes, zeros up to a multiple of 4096 bytes, the section of offsets, zeros up to a
/// multiple of eight, the numbers of keys and of keys for each node, where the section starts,
/// the length of these three, a version, which is 1, and the magic.
#[verifier::spinoff_prover]
#[verifier::rlimit(50)]
pub proof fn law_index_file(opts: BtOptions, w: Walk, size: nat, out: Seq<u8>)
    requires
        opts.layout == BtLayout::Footer,
        0 < w.offsets.len(),
        out.len() <= u64::MAX,
        bt_writer::is_bt(opts, w, size, out),
    ensures
        ({
            let n = out.len() as int;
            let at = number8(out, n - 24);
            let nodes = bt_writer::nodes_bytes(w.nodes, w.nodes.len());
            let used = 1 + nodes.len() as int;
            let section = 16 + 8 * (eliasfano::lower_words(w.offsets.len(), size + 1) + eliasfano::upper_words(
                w.offsets.len(),
                size + 1,
            ) + ef_builder::jump_words(w.offsets.len())) as int;
            &&& n % 8 == 0
            &&& out[0] == 1
            &&& out.subrange(1, used) == nodes
            &&& at % 4096 == 0
            &&& used <= at < used + 4096
            &&& forall|i: int| used <= i < at ==> #[trigger] out[i] == 0
            &&& at + section <= n - 40 < at + section + 8
            &&& forall|i: int| at + section <= i < n - 40 ==> #[trigger] out[i] == 0
            &&& w.offsets.len() <= u64::MAX ==> number8(out, n - 40) == w.offsets.len()
            &&& number8(out, n - 32) == if opts.m == 0 { 1 } else { opts.m as int }
            &&& out.subrange(n - 16, n) == seq![
                0u8,
                0u8,
                0u8,
                24u8,
                0u8,
                0u8,
                0u8,
                1u8,
                101u8,
                114u8,
                105u8,
                103u8,
                111u8,
                110u8,
                0u8,
                0u8,
            ]
        }),
{
    let k = w.offsets.len();
    let m = bt_writer::fanout(opts);
    let ef = choose|ef: Seq<u64>| #[trigger]
        ef_builder::is_ef(w.offsets, size + 1, ef) && out == bt_writer::bt_file(
            opts.layout,
            m,
            k,
            w.nodes,
            ef_builder::ef_bytes(k, size + 1, ef),
        );
    let e = ef_builder::ef_bytes(k, size + 1, ef);
    ef_builder::lemma_words_bytes(ef, ef.len());
    let front = bt_writer::node_part(w.nodes);
    let body = bt_writer::padded(front + e, 8);
    lemma_padded(front + e, 8);
    lemma_foot(body, k, m, front.len());
    lemma_front(w.nodes);
    let n = out.len() as int;
    let at = front.len() as int;
    assert forall|i: int| 0 <= i < at implies #[trigger] out[i] == front[i] by {
        assert(body.take((front + e).len() as int)[i] == body[i]);
    }
    assert(out.subrange(1, 1 + bt_writer::nodes_bytes(w.nodes, w.nodes.len()).len() as int) =~= front.subrange(
        1,
        1 + bt_writer::nodes_bytes(w.nodes, w.nodes.len()).len() as int,
    ));
    assert(e.len() == 16 + 8 * ef.len());
    assert(n == body.len() + 40);
    assert forall|i: int| at + e.len() <= i < n - 40 implies #[trigger] out[i] == 0 by {
        assert(out[i] == body[i]);
    }
}

proof fn lemma_front(nodes: Seq<Seq<u8>>)
    ensures
        ({
            let front = bt_writer::node_part(nodes);
            let all = bt_writer::nodes_bytes(nodes, nodes.len());
            let used = 1 + all.len() as int;
            &&& front.len() % 4096 == 0
            &&& used <= front.len() < used + 4096
            &&& front[0] == 1
            &&& front.subrange(1, used) == all
            &&& forall|i: int| used <= i < front.len() ==> #[trigger] front[i] == 0
        }),
{
    let all = bt_writer::nodes_bytes(nodes, nodes.len());
    let first = seq![1u8] + all;
    let front = bt_writer::node_part(nodes);
    lemma_padded(first, 4096);
    assert forall|i: int| 0 <= i < first.len() implies #[trigger] front[i] == first[i] by {
        assert(front.take(first.len() as int)[i] == front[i]);
    }
    assert(front.subrange(1, 1 + all.len() as int) =~= all);
}

proof fn lemma_foot(body: Seq<u8>, k: nat, m: u64, at: nat)
    requires
        at <= u64::MAX,
    ensures
        ({
            let out = body + bt_writer::footer_part(k, m, at);
            let n = out.len() as int;
            &&& n == body.len() + 40
            &&& k <= u64::MAX ==> number8(out, n - 40) == k
            &&& number8(out, n - 32) == m
            &&& number8(out, n - 24) == at
            &&& out.subrange(n - 16, n) == seq![
                0u8,
                0u8,
                0u8,
                24u8,
                0u8,
                0u8,
                0u8,
                1u8,
                101u8,
                114u8,
                105u8,
                103u8,
                111u8,
                110u8,
                0u8,
                0u8,
            ]
        }),
{
    let foot = bt_writer::footer_part(k, m, at);
    let out = body + foot;
    assert(foot.len() == 40);
    let n = out.len() as int;
    assert(out.subrange(n - 40, n - 32) =~= bytes::be_bytes(k, 8));
    assert(out.subrange(n - 32, n - 24) =~= bytes::be_bytes(m as nat, 8));
    assert(out.subrange(n - 24, n - 16) =~= bytes::be_bytes(at, 8));
    if k <= u64::MAX {
        lemma_written_number(out, n - 40, k);
    }
    lemma_written_number(out, n - 32, m as nat);
    lemma_written_number(out, n - 24, at);
    lemma_anchor();
    assert(out.subrange(n - 16, n) =~= bytes::be_bytes(24, 4) + bytes::be_bytes(0, 2) + bytes::be_bytes(1, 2)
        + btree::footer_magic());
}

proof fn lemma_digits(v: nat)
    ensures
        bytes::byte_of(v, 0) == v % 256,
        bytes::byte_of(v, 1) == (v / 0x100) % 256,
        bytes::byte_of(v, 2) == (v / 0x1_0000) % 256,
        bytes::byte_of(v, 3) == (v / 0x100_0000) % 256,
{
    lemma2_to64();
    assert(pow2((8 * 0int) as nat) == 1);
    assert(pow2((8 * 1int) as nat) == 0x100);
    assert(pow2((8 * 2int) as nat) == 0x1_0000);
    assert(pow2((8 * 3int) as nat) == 0x100_0000);
}

proof fn lemma_anchor()
    ensures
        bytes::be_bytes(24, 4) == seq![0u8, 0u8, 0u8, 24u8],
        bytes::be_bytes(0, 2) == seq![0u8, 0u8],
        bytes::be_bytes(1, 2) == seq![0u8, 1u8],
{
    lemma_digits(24);
    lemma_digits(1);
    lemma_digits(0);
    assert(bytes::be_bytes(24, 4) =~= seq![0u8, 0u8, 0u8, 24u8]);
    assert(bytes::be_bytes(0, 2) =~= seq![0u8, 0u8]);
    assert(bytes::be_bytes(1, 2) =~= seq![0u8, 1u8]);
}

/// Each node stands behind its length in two bytes, most significant first.
pub proof fn law_node_bytes(nodes: Seq<Seq<u8>>, node: Seq<u8>)
    requires
        node.len() <= 65535,
    ensures
        bt_writer::nodes_bytes(Seq::empty(), 0).len() == 0,
        bt_writer::nodes_bytes(nodes.push(node), nodes.len() + 1) == bt_writer::nodes_bytes(nodes, nodes.len()) + seq![
            (node.len() / 256) as u8,
            (node.len() % 256) as u8,
        ] + node,
{
    lemma_digits(node.len());
    let more = nodes.push(node);
    lemma_nodes_same(nodes, more, nodes.len());
    assert(bytes::be_bytes(node.len(), 2) =~= seq![(node.len() / 256) as u8, (node.len() % 256) as u8]);
}

proof fn lemma_nodes_same(a: Seq<Seq<u8>>, b: Seq<Seq<u8>>, n: nat)
    requires
        n <= a.len(),
        n <= b.len(),
        forall|i: int| 0 <= i < n ==> #[trigger] a[i] == b[i],
    ensures
        bt_writer::nodes_bytes(a, n) == bt_writer::nodes_bytes(b, n),
    decreases n,
{
    if n > 0 {
        lemma_nodes_same(a, b, (n - 1) as nat);
        assert(a[n - 1] == b[n - 1]);
    }
}

// ------------------------------------------------------------------ the section of offsets

/// Bit `p` of an array of words.
pub open spec fn bit_of(w: Seq<u64>, p: int) -> bool {
    (w[p / 64] as int / pow2((p % 64) as nat) as int) % 2 == 1
}

/// Bit `b` of a number.
pub open spec fn digit_of(x: u64, b: int) -> bool {
    (x as int / pow2(b as nat) as int) % 2 == 1
}

/// Where the one of offset `c` stands: as many zeros before it as its upper part, and the ones
/// of the offsets before it.
pub open spec fn one_of(offsets: Seq<u64>, l: nat, c: int) -> int {
    offsets[c] as int / pow2(l) as int + c
}

/// How far the one of offset `c` is from that of the first of its 16384; zero if there is no
/// such offset.
pub open spec fn distance_of(offsets: Seq<u64>, l: nat, c: int) -> int {
    if c < offsets.len() { one_of(offsets, l, c) - one_of(offsets, l, c - c % 16384) } else { 0 }
}

/// What a written section of offsets holds: the low parts one after the other, zeros up to the
/// ones, and the jump table.
pub proof fn law_section_words(offsets: Seq<u64>, u: nat, w: Seq<u64>, q: int, r: int)
    requires
        offsets.len() > 0,
        ef_builder::is_ef(offsets, u, w),
        0 <= q,
        0 <= r < 32,
    ensures
        ({
            let n = offsets.len();
            let l = eliasfano::low_width(n, u);
            let wl = eliasfano::lower_words(n, u) as int;
            let wu = eliasfano::upper_words(n, u) as int;
            let block = wl + wu + 33 * q;
            let c = 16384 * q + 512 * r;
            &&& w.len() == wl + wu + ef_builder::jump_words(n)
            &&& forall|i: int, b: int|
                0 <= i < n && 0 <= b < l && i * l + b < 64 * wl ==> #[trigger] bit_of(w, i * l + b) == digit_of(offsets[i], b)
            &&& forall|p: int| n * l <= p < 64 * wl ==> !#[trigger] bit_of(w, p)
            &&& forall|p: int|
                0 <= p < 64 * wu ==> #[trigger] bit_of(w, 64 * wl + p) == (exists|i: int|
                    0 <= i < n && #[trigger] one_of(offsets, l, i) == p)
            &&& block < w.len() && 16384 * q < n ==> w[block] == one_of(offsets, l, 16384 * q)
            &&& block + 1 + r < w.len() ==> w[block + 1 + r] == distance_of(offsets, l, c) + distance_of(offsets, l, c + 256)
                * 0x1_0000_0000
        }),
{
    let n = offsets.len();
    let l = eliasfano::low_width(n, u);
    let wl = eliasfano::lower_words(n, u) as int;
    let wu = eliasfano::upper_words(n, u) as int;
    let jb = (eliasfano::lower_words(n, u) + eliasfano::upper_words(n, u)) as int;
    assert forall|i: int, b: int|
        0 <= i < n && 0 <= b < l && i * l + b < 64 * wl implies #[trigger] bit_of(w, i * l + b) == digit_of(offsets[i], b) by {
        assert(i * l >= 0) by (nonlinear_arith)
            requires
                i >= 0,
        ;
        assert(bits::wbit(w, i * l + b) == bits::nbit(offsets[i] as int, b));
    }
    assert forall|p: int| n * l <= p < 64 * wl implies !#[trigger] bit_of(w, p) by {
        assert(n * l >= 0) by (nonlinear_arith);
        assert(!bits::wbit(w, p));
    }
    assert forall|p: int| 0 <= p < 64 * wu implies #[trigger] bit_of(w, 64 * wl + p) == (exists|i: int|
        0 <= i < n && #[trigger] one_of(offsets, l, i) == p) by {
        assert(bits::wbit(w, 64 * wl + p) == ef_builder::upper_bit(offsets, l, p));
        if ef_builder::upper_bit(offsets, l, p) {
            let i = choose|i: int| 0 <= i < n && #[trigger] ef_builder::one_at(offsets, l, i) == p;
            assert(one_of(offsets, l, i) == p);
        }
        if exists|i: int| 0 <= i < n && #[trigger] one_of(offsets, l, i) == p {
            let i = choose|i: int| 0 <= i < n && #[trigger] one_of(offsets, l, i) == p;
            assert(ef_builder::one_at(offsets, l, i) == p);
        }
    }
    let block = jb + 33 * q;
    if block < w.len() {
        let k = 33 * q;
        assert(0 <= k < ef_builder::jump_words(n));
        assert(w[jb + k] == ef_builder::jump_word(offsets, l, k));
        assert(k / 33 == q && k % 33 == 0);
    }
    if block + 1 + r < w.len() {
        let j = 33 * q + 1 + r;
        assert(0 <= j < ef_builder::jump_words(n));
        assert(w[jb + j] == ef_builder::jump_word(offsets, l, j));
        assert(j / 33 == q && j % 33 == 1 + r);
        let c = 16384 * q + 512 * r;
        assert(c - c % 16384 == (c / 16384) * 16384);
        let d = c + 256;
        assert(d - d % 16384 == (d / 16384) * 16384);
    }
}

} // verus!
