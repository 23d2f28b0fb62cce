//! What the hash makes of its input, block by block and byte by byte.
//!
//! The hash keeps two 64-bit lanes. [`law_hash_starts`], [`law_hash_takes_blocks`],
//! [`law_hash_pads_the_rest`] and [`law_hash_ends`] say what each part of the input does to
//! them; together they fix the hash of every byte string. [`law_every_byte_counts`] says
//! that no part of the input is passed over.

use vstd::arithmetic::div_mod::*;
use vstd::prelude::*;

use crate::bytes;
use crate::hash;

verus! {

/// The 64-bit word that the eight bytes from `at` on spell, least significant first.
pub open spec fn word8(s: Seq<u8>, at: int) -> u64 {
    (s[at] + 0x100 * s[at + 1] + 0x1_0000 * s[at + 2] + 0x100_0000 * s[at + 3] + 0x1_0000_0000 * s[at + 4]
        + 0x100_0000_0000 * s[at + 5] + 0x1_0000_0000_0000 * s[at + 6] + 0x100_0000_0000_0000 * s[at + 7]) as u64
}

/// `s` followed by zeros, 16 bytes in all.
pub open spec fn padded_block(s: Seq<u8>) -> Seq<u8> {
    Seq::new(16, |i: int| if i < s.len() { s[i] } else { 0 })
}

pub proof fn lemma_word8(s: Seq<u8>)
    requires
        s.len() == 8,
    ensures
        bytes::le_value(s) == s[0] + 0x100 * s[1] + 0x1_0000 * s[2] + 0x100_0000 * s[3] + 0x1_0000_0000 * s[4]
            + 0x100_0000_0000 * s[5] + 0x1_0000_0000_0000 * s[6] + 0x100_0000_0000_0000 * s[7],
        hash::word_of(s) == word8(s, 0),
{
    reveal_with_fuel(bytes::le_value, 9);
    let t1 = s.drop_first();
    let t2 = t1.drop_first();
    let t3 = t2.drop_first();
    let t4 = t3.drop_first();
    let t5 = t4.drop_first();
    let t6 = t5.drop_first();
    let t7 = t6.drop_first();
    assert(t7.drop_first().len() == 0);
    assert(t1[0] == s[1] && t2[0] == s[2] && t3[0] == s[3] && t4[0] == s[4] && t5[0] == s[5] && t6[0] == s[6] && t7[0]
        == s[7]);
}

/// Zeros behind a byte string do not change the number it spells.
proof fn lemma_zeros_behind(s: Seq<u8>, t: Seq<u8>)
    requires
        s.len() <= t.len(),
        forall|i: int| 0 <= i < t.len() ==> #[trigger] t[i] == if i < s.len() { s[i] } else { 0u8 },
    ensures
        bytes::le_value(t) == bytes::le_value(s),
    decreases t.len(),
{
    if t.len() > 0 {
        let t1 = t.drop_first();
        if s.len() > 0 {
            let s1 = s.drop_first();
            assert forall|i: int| 0 <= i < t1.len() implies #[trigger] t1[i] == if i < s1.len() { s1[i] } else { 0u8 } by {
                assert(t1[i] == t[i + 1]);
            }
            lemma_zeros_behind(s1, t1);
            assert(t[0] == s[0]);
        } else {
            assert forall|i: int| 0 <= i < t1.len() implies #[trigger] t1[i] == if i < s.len() { s[i] } else { 0u8 } by {
                assert(t1[i] == t[i + 1]);
            }
            lemma_zeros_behind(s, t1);
            assert(t[0] == 0);
        }
    }
}

/// The lanes after whole blocks do not depend on what follows them.
proof fn lemma_lanes_prefix(d: Seq<u8>, e: Seq<u8>, seed: u32, n: nat)
    requires
        16 * n <= d.len(),
        16 * n <= e.len(),
        d.take((16 * n) as int) == e.take((16 * n) as int),
    ensures
        hash::lanes(d, seed, n) == hash::lanes(e, seed, n),
    decreases n,
{
    if n > 0 {
        let b = 16 * (n - 1);
        let m = (n - 1) as nat;
        assert(d.take((16 * m) as int) =~= d.take((16 * n) as int).take((16 * m) as int));
        assert(e.take((16 * m) as int) =~= e.take((16 * n) as int).take((16 * m) as int));
        lemma_lanes_prefix(d, e, seed, m);
        assert(d.subrange(b, b + 8) =~= d.take((16 * n) as int).subrange(b, b + 8));
        assert(e.subrange(b, b + 8) =~= e.take((16 * n) as int).subrange(b, b + 8));
        assert(d.subrange(b + 8, b + 16) =~= d.take((16 * n) as int).subrange(b + 8, b + 16));
        assert(e.subrange(b + 8, b + 16) =~= e.take((16 * n) as int).subrange(b + 8, b + 16));
    }
}

/// The seed starts both lanes.
pub proof fn law_hash_starts(seed: u32)
    ensures
        hash::state(Seq::empty(), seed) == (seed as u64, seed as u64),
{
}

/// A block of 16 bytes behind whole blocks: its first word, multiplied, rotated by 31 bits
/// and multiplied again, goes into the first lane, which is rotated by 27 bits, added to
/// the second, and stretched; the second word goes the same way into the second lane.
pub proof fn law_hash_takes_blocks(d: Seq<u8>, b: Seq<u8>, seed: u32)
    requires
        d.len() % 16 == 0,
        b.len() == 16,
    ensures
        ({
            let (h1, h2) = hash::state(d, seed);
            let k1 = word8(b, 0).wrapping_mul(0x87c3_7b91_1142_53d5);
            let m1 = ((k1 << 31u64) | (k1 >> 33u64)).wrapping_mul(0x4cf5_ad43_2745_937f);
            let k2 = word8(b, 8).wrapping_mul(0x4cf5_ad43_2745_937f);
            let m2 = ((k2 << 33u64) | (k2 >> 31u64)).wrapping_mul(0x87c3_7b91_1142_53d5);
            let x1 = h1 ^ m1;
            let x2 = h2 ^ m2;
            let g1 = ((x1 << 27u64) | (x1 >> 37u64)).wrapping_add(h2).wrapping_mul(5).wrapping_add(0x52dc_e729);
            let g2 = ((x2 << 31u64) | (x2 >> 33u64)).wrapping_add(g1).wrapping_mul(5).wrapping_add(0x3849_5ab5);
            hash::state(d + b, seed) == (g1, g2)
        }),
{
    let e = d + b;
    let n = d.len() / 16;
    assert(e.len() / 16 == n + 1);
    assert(d.take((16 * n) as int) =~= e.take((16 * n) as int));
    lemma_lanes_prefix(d, e, seed, n);
    let at = 16 * n as int;
    assert(e.subrange(at, at + 8) =~= b.subrange(0, 8));
    assert(e.subrange(at + 8, at + 16) =~= b.subrange(8, 16));
    lemma_word8(b.subrange(0, 8));
    lemma_word8(b.subrange(8, 16));
    assert(hash::lanes(e, seed, n + 1) == hash::block(
        hash::lanes(e, seed, n),
        hash::word_of(e.subrange(at, at + 8)),
        hash::word_of(e.subrange(at + 8, at + 16)),
    ));
}

/// Up to 15 bytes behind whole blocks are mixed in as the block that they make with zeros
/// behind them would be, but the lanes are not rotated, added and stretched: doing that
/// afterwards gives the lanes of the padded input. With up to eight bytes the second lane
/// stays as it is.
pub proof fn law_hash_pads_the_rest(d: Seq<u8>, t: Seq<u8>, seed: u32)
    requires
        d.len() % 16 == 0,
        0 < t.len() < 16,
    ensures
        ({
            let (h1, h2) = hash::state(d, seed);
            let (x1, x2) = hash::state(d + t, seed);
            let g1 = ((x1 << 27u64) | (x1 >> 37u64)).wrapping_add(h2).wrapping_mul(5).wrapping_add(0x52dc_e729);
            let g2 = ((x2 << 31u64) | (x2 >> 33u64)).wrapping_add(g1).wrapping_mul(5).wrapping_add(0x3849_5ab5);
            &&& hash::state(d + padded_block(t), seed) == (g1, g2)
            &&& t.len() <= 8 ==> x2 == h2
        }),
{
    let e = d + t;
    let p = padded_block(t);
    let f = d + p;
    let n = d.len() / 16;
    let at = 16 * n as int;
    assert(e.len() / 16 == n);
    assert(f.len() / 16 == n + 1);
    assert(d.take(at) =~= e.take(at));
    assert(d.take(at) =~= f.take(at));
    lemma_lanes_prefix(d, e, seed, n);
    lemma_lanes_prefix(d, f, seed, n);
    assert(e.skip(at) =~= t);
    assert(f.subrange(at, at + 8) =~= p.subrange(0, 8));
    assert(f.subrange(at + 8, at + 16) =~= p.subrange(8, 16));
    assert(hash::lanes(f, seed, n + 1) == hash::block(
        hash::lanes(f, seed, n),
        hash::word_of(f.subrange(at, at + 8)),
        hash::word_of(f.subrange(at + 8, at + 16)),
    ));
    if t.len() > 8 {
        assert(p.subrange(0, 8) =~= t.take(8));
        lemma_zeros_behind(t.skip(8), p.subrange(8, 16));
    } else {
        lemma_zeros_behind(t, p.subrange(0, 8));
        lemma_zeros_behind(Seq::empty(), p.subrange(8, 16));
        assert(hash::mix2(0) == 0) by {
            assert(0u64.wrapping_mul(0x4cf5_ad43_2745_937f) == 0);
            assert((0u64 << 33u64) | (0u64 >> 31u64) == 0) by (bit_vector);
            assert(0u64.wrapping_mul(0x87c3_7b91_1142_53d5) == 0);
        }
        let y = hash::lanes(d, seed, n).1;
        assert(y ^ 0 == y) by (bit_vector);
    }
}

/// The length goes into both lanes, they are added to each other, finalized, and added.
pub proof fn law_hash_ends(d: Seq<u8>, seed: u32)
    ensures
        ({
            let (h1, h2) = hash::state(d, seed);
            let n = d.len() as u64;
            let a = (h1 ^ n).wrapping_add(h2 ^ n);
            let b = (h2 ^ n).wrapping_add(a);
            let a1 = (a ^ (a >> 33u64)).wrapping_mul(0xff51_afd7_ed55_8ccd);
            let a2 = (a1 ^ (a1 >> 33u64)).wrapping_mul(0xc4ce_b9fe_1a85_ec53);
            let b1 = (b ^ (b >> 33u64)).wrapping_mul(0xff51_afd7_ed55_8ccd);
            let b2 = (b1 ^ (b1 >> 33u64)).wrapping_mul(0xc4ce_b9fe_1a85_ec53);
            hash::murmur3(d, seed) == (a2 ^ (a2 >> 33u64)).wrapping_add(b2 ^ (b2 >> 33u64))
        }),
{
}

// ------------------------------------------------------------------ every byte counts

/// Multiplying by an odd number loses nothing.
proof fn lemma_mul_injective(x: u64, y: u64, c: u64, inverse: nat, k: nat)
    requires
        c * inverse == 1 + k * 0x1_0000_0000_0000_0000,
        x.wrapping_mul(c) == y.wrapping_mul(c),
    ensures
        x == y,
{
    let m: int = 0x1_0000_0000_0000_0000;
    let a = x as int;
    let b = y as int;
    assert((a * c) % m == (b * c) % m);
    lemma_mul_mod_noop_left(a * c, inverse as int, m);
    lemma_mul_mod_noop_left(b * c, inverse as int, m);
    assert(a * c * inverse == a + m * (a * k)) by (nonlinear_arith)
        requires
            c * inverse == 1 + k * m,
    ;
    assert(b * c * inverse == b + m * (b * k)) by (nonlinear_arith)
        requires
            c * inverse == 1 + k * m,
    ;
    lemma_mod_multiples_vanish(a * k, a, m);
    lemma_mod_multiples_vanish(b * k, b, m);
    lemma_small_mod(x as nat, m as nat);
    lemma_small_mod(y as nat, m as nat);
}

proof fn lemma_mul_injective_c1(x: u64, y: u64)
    requires
        x.wrapping_mul(0x87c3_7b91_1142_53d5) == y.wrapping_mul(0x87c3_7b91_1142_53d5),
    ensures
        x == y,
{
    lemma_mul_injective(x, y, 0x87c3_7b91_1142_53d5, 12214898983567248765, 6477885590964564419);
}

proof fn lemma_mul_injective_c2(x: u64, y: u64)
    requires
        x.wrapping_mul(0x4cf5_ad43_2745_937f) == y.wrapping_mul(0x4cf5_ad43_2745_937f),
    ensures
        x == y,
{
    lemma_mul_injective(x, y, 0x4cf5_ad43_2745_937f, 12114143059468233855, 3641798879065535354);
}

proof fn lemma_stretch_injective(x: u64, y: u64, c: u64)
    requires
        x.wrapping_mul(5).wrapping_add(c) == y.wrapping_mul(5).wrapping_add(c),
    ensures
        x == y,
{
    lemma_mul_injective(x, y, 5, 14757395258967641293, 4);
}

proof fn lemma_rotl_injective(x: u64, y: u64)
    ensures
        hash::rotl(x, 27) == hash::rotl(y, 27) ==> x == y,
        hash::rotl(x, 31) == hash::rotl(y, 31) ==> x == y,
        hash::rotl(x, 33) == hash::rotl(y, 33) ==> x == y,
{
    assert((x << 27u64) | (x >> 37u64) == (y << 27u64) | (y >> 37u64) ==> x == y) by (bit_vector);
    assert((x << 31u64) | (x >> 33u64) == (y << 31u64) | (y >> 33u64) ==> x == y) by (bit_vector);
    assert((x << 33u64) | (x >> 31u64) == (y << 33u64) | (y >> 31u64) ==> x == y) by (bit_vector);
}

proof fn lemma_xor_injective(h: u64, x: u64, y: u64)
    ensures
        h ^ x == h ^ y ==> x == y,
        x ^ h == y ^ h ==> x == y,
{
    assert(h ^ x == h ^ y ==> x == y) by (bit_vector);
    assert(x ^ h == y ^ h ==> x == y) by (bit_vector);
}

proof fn lemma_mix_injective(x: u64, y: u64)
    ensures
        hash::mix1(x) == hash::mix1(y) ==> x == y,
        hash::mix2(x) == hash::mix2(y) ==> x == y,
{
    if hash::mix1(x) == hash::mix1(y) {
        let a = x.wrapping_mul(0x87c3_7b91_1142_53d5);
        let b = y.wrapping_mul(0x87c3_7b91_1142_53d5);
        lemma_mul_injective_c2(hash::rotl(a, 31), hash::rotl(b, 31));
        lemma_rotl_injective(a, b);
        lemma_mul_injective_c1(x, y);
    }
    if hash::mix2(x) == hash::mix2(y) {
        let a = x.wrapping_mul(0x4cf5_ad43_2745_937f);
        let b = y.wrapping_mul(0x4cf5_ad43_2745_937f);
        lemma_mul_injective_c1(hash::rotl(a, 33), hash::rotl(b, 33));
        lemma_rotl_injective(a, b);
        lemma_mul_injective_c2(x, y);
    }
}

/// A block loses neither the lanes before it nor its own words.
proof fn lemma_block_injective(h: (u64, u64), k1: u64, k2: u64, g: (u64, u64), l1: u64, l2: u64)
    requires
        hash::block(h, k1, k2) == hash::block(g, l1, l2),
    ensures
        k1 == l1 && k2 == l2 ==> h == g,
        h == g ==> k1 == l1 && k2 == l2,
{
    let a1 = h.0 ^ hash::mix1(k1);
    let b1 = g.0 ^ hash::mix1(l1);
    let a2 = h.1 ^ hash::mix2(k2);
    let b2 = g.1 ^ hash::mix2(l2);
    let n1 = hash::block(h, k1, k2).0;
    lemma_stretch_injective(hash::rotl(a1, 27).wrapping_add(h.1), hash::rotl(b1, 27).wrapping_add(g.1), 0x52dc_e729);
    lemma_stretch_injective(hash::rotl(a2, 31).wrapping_add(n1), hash::rotl(b2, 31).wrapping_add(n1), 0x3849_5ab5);
    lemma_rotl_injective(a2, b2);
    assert(a2 == b2);
    if k1 == l1 && k2 == l2 {
        lemma_xor_injective(hash::mix2(k2), h.1, g.1);
        lemma_rotl_injective(a1, b1);
        lemma_xor_injective(hash::mix1(k1), h.0, g.0);
    }
    if h == g {
        lemma_xor_injective(h.1, hash::mix2(k2), hash::mix2(l2));
        lemma_mix_injective(k2, l2);
        lemma_rotl_injective(a1, b1);
        lemma_xor_injective(h.0, hash::mix1(k1), hash::mix1(l1));
        lemma_mix_injective(k1, l1);
    }
}

/// Byte strings of one length that spell the same number are the same.
proof fn lemma_le_injective(s: Seq<u8>, t: Seq<u8>)
    requires
        s.len() == t.len(),
        bytes::le_value(s) == bytes::le_value(t),
    ensures
        s == t,
    decreases s.len(),
{
    if s.len() > 0 {
        assert(s[0] == bytes::le_value(s) % 256);
        assert(t[0] == bytes::le_value(t) % 256);
        lemma_le_injective(s.drop_first(), t.drop_first());
        assert(s =~= seq![s[0]] + s.drop_first());
        assert(t =~= seq![t[0]] + t.drop_first());
    } else {
        assert(s =~= t);
    }
}

proof fn lemma_word_injective(s: Seq<u8>, t: Seq<u8>)
    requires
        s.len() == t.len() <= 8,
        hash::word_of(s) == hash::word_of(t),
    ensures
        s == t,
{
    bytes::lemma_le_bound(s);
    bytes::lemma_le_bound(t);
    crate::bits::lemma_pow2_64();
    if s.len() < 8 {
        vstd::arithmetic::power2::lemma_pow2_strictly_increases(8 * s.len(), 64);
    }
    lemma_le_injective(s, t);
}

/// Two inputs that differ in block `k` alone have different lanes from there on.
proof fn lemma_lanes_differ(a: Seq<u8>, b: Seq<u8>, seed: u32, k: nat, n: nat)
    requires
        a.len() == b.len(),
        16 * n <= a.len(),
        forall|i: int| 0 <= i < a.len() && !(16 * k <= i < 16 * k + 16) ==> #[trigger] a[i] == b[i],
        k < n,
        a.subrange(16 * k as int, 16 * k as int + 16) != b.subrange(16 * k as int, 16 * k as int + 16),
    ensures
        hash::lanes(a, seed, n) != hash::lanes(b, seed, n),
    decreases n,
{
    let m = (n - 1) as nat;
    let p = 16 * m as int;
    let (k1, k2) = (hash::word_of(a.subrange(p, p + 8)), hash::word_of(a.subrange(p + 8, p + 16)));
    let (l1, l2) = (hash::word_of(b.subrange(p, p + 8)), hash::word_of(b.subrange(p + 8, p + 16)));
    let h = hash::lanes(a, seed, m);
    let g = hash::lanes(b, seed, m);
    if hash::lanes(a, seed, n) == hash::lanes(b, seed, n) {
        assert(hash::block(h, k1, k2) == hash::block(g, l1, l2));
        lemma_block_injective(h, k1, k2, g, l1, l2);
        if m == k {
            assert(a.take((16 * m) as int) =~= b.take((16 * m) as int));
            lemma_lanes_prefix(a, b, seed, m);
            lemma_word_injective(a.subrange(p, p + 8), b.subrange(p, p + 8));
            lemma_word_injective(a.subrange(p + 8, p + 16), b.subrange(p + 8, p + 16));
            assert(a.subrange(p, p + 16) =~= a.subrange(p, p + 8) + a.subrange(p + 8, p + 16));
            assert(b.subrange(p, p + 16) =~= b.subrange(p, p + 8) + b.subrange(p + 8, p + 16));
        } else {
            assert(a.subrange(p, p + 8) =~= b.subrange(p, p + 8));
            assert(a.subrange(p + 8, p + 16) =~= b.subrange(p + 8, p + 16));
            lemma_lanes_differ(a, b, seed, k, m);
        }
    }
}

/// Every byte counts: two inputs of the same length that differ, but only within one
/// stretch of 16 bytes that starts at a multiple of 16, leave different lanes. If that is
/// the part behind the last whole block, its first eight bytes decide the first lane alone,
/// and the others the second lane alone.
pub proof fn law_every_byte_counts(a: Seq<u8>, b: Seq<u8>, seed: u32, k: nat)
    requires
        a.len() == b.len(),
        forall|i: int| 0 <= i < a.len() && !(16 * k <= i < 16 * k + 16) ==> #[trigger] a[i] == b[i],
    ensures
        a != b ==> hash::state(a, seed) != hash::state(b, seed),
        16 * k + 16 > a.len() ==> {
            let (x1, x2) = hash::state(a, seed);
            let (y1, y2) = hash::state(b, seed);
            &&& (x1 == y1) == (forall|i: int| 16 * k <= i < 16 * k + 8 && i < a.len() ==> #[trigger] a[i] == b[i])
            &&& (x2 == y2) == (forall|i: int| 16 * k + 8 <= i < a.len() ==> #[trigger] a[i] == b[i])
        },
{
    let n = a.len() / 16;
    let at = 16 * n as int;
    let s = a.skip(at);
    let t = b.skip(at);
    if k < n {
        assert(s =~= t);
        if a != b {
            let w = 16 * k as int;
            if a.subrange(w, w + 16) == b.subrange(w, w + 16) {
                assert forall|i: int| 0 <= i < a.len() implies a[i] == b[i] by {
                    if w <= i < w + 16 {
                        assert(a.subrange(w, w + 16)[i - w] == b.subrange(w, w + 16)[i - w]);
                    }
                }
                assert(a =~= b);
            }
            lemma_lanes_differ(a, b, seed, k, n);
            let h = hash::lanes(a, seed, n);
            let g = hash::lanes(b, seed, n);
            if s.len() > 8 {
                lemma_xor_injective(hash::mix1(hash::word_of(s.take(8))), h.0, g.0);
                lemma_xor_injective(hash::mix2(hash::word_of(s.skip(8))), h.1, g.1);
            } else if s.len() > 0 {
                lemma_xor_injective(hash::mix1(hash::word_of(s)), h.0, g.0);
            }
        }
    } else {
        assert(a.take(at) =~= b.take(at));
        lemma_lanes_prefix(a, b, seed, n);
        lemma_tail_counts(a, b, seed, n);
        if k > n {
            assert(a =~= b);
        } else {
            lemma_tail_bytes(a, b, n);
            if a != b && hash::state(a, seed) == hash::state(b, seed) {
                assert forall|i: int| 0 <= i < a.len() implies a[i] == b[i] by {}
                assert(a =~= b);
            }
        }
    }
}

proof fn lemma_tail_counts(a: Seq<u8>, b: Seq<u8>, seed: u32, n: nat)
    requires
        a.len() == b.len(),
        n == a.len() / 16,
        hash::lanes(a, seed, n) == hash::lanes(b, seed, n),
    ensures
        ({
            let s = a.skip((16 * n) as int);
            let t = b.skip((16 * n) as int);
            let (x1, x2) = hash::state(a, seed);
            let (y1, y2) = hash::state(b, seed);
            if s.len() > 8 {
                &&& (x1 == y1) == (s.take(8) == t.take(8))
                &&& (x2 == y2) == (s.skip(8) == t.skip(8))
            } else {
                &&& (x1 == y1) == (s == t)
                &&& x2 == y2
            }
        }),
{
    let s = a.skip((16 * n) as int);
    let t = b.skip((16 * n) as int);
    let h = hash::lanes(a, seed, n);
    if s.len() > 8 {
        let (k1, l1) = (hash::word_of(s.take(8)), hash::word_of(t.take(8)));
        let (k2, l2) = (hash::word_of(s.skip(8)), hash::word_of(t.skip(8)));
        lemma_xor_injective(h.0, hash::mix1(k1), hash::mix1(l1));
        lemma_xor_injective(h.1, hash::mix2(k2), hash::mix2(l2));
        lemma_mix_injective(k1, l1);
        lemma_mix_injective(k2, l2);
        if k1 == l1 {
            lemma_word_injective(s.take(8), t.take(8));
        }
        if k2 == l2 {
            lemma_word_injective(s.skip(8), t.skip(8));
        }
    } else if s.len() > 0 {
        let (k1, l1) = (hash::word_of(s), hash::word_of(t));
        lemma_xor_injective(h.0, hash::mix1(k1), hash::mix1(l1));
        lemma_mix_injective(k1, l1);
        if k1 == l1 {
            lemma_word_injective(s, t);
        }
    } else {
        assert(s =~= t);
    }
}

/// Parts of the tails are equal if their bytes are.
proof fn lemma_tail_bytes(a: Seq<u8>, b: Seq<u8>, n: nat)
    requires
        a.len() == b.len(),
        n == a.len() / 16,
    ensures
        ({
            let s = a.skip((16 * n) as int);
            let t = b.skip((16 * n) as int);
            let low = forall|i: int| 16 * n <= i < 16 * n + 8 && i < a.len() ==> #[trigger] a[i] == b[i];
            let high = forall|i: int| 16 * n + 8 <= i < a.len() ==> #[trigger] a[i] == b[i];
            if s.len() > 8 {
                &&& (s.take(8) == t.take(8)) == low
                &&& (s.skip(8) == t.skip(8)) == high
            } else {
                &&& (s == t) == low
                &&& high
            }
        }),
{
    let at = 16 * n as int;
    let s = a.skip(at);
    let t = b.skip(at);
    let low = forall|i: int| at <= i < at + 8 && i < a.len() ==> #[trigger] a[i] == b[i];
    let high = forall|i: int| at + 8 <= i < a.len() ==> #[trigger] a[i] == b[i];
    if s.len() > 8 {
        if s.take(8) == t.take(8) {
            assert forall|i: int| at <= i < at + 8 && i < a.len() implies #[trigger] a[i] == b[i] by {
                assert(s.take(8)[i - at] == t.take(8)[i - at]);
            }
        }
        if low {
            assert(s.take(8) =~= t.take(8));
        }
        if s.skip(8) == t.skip(8) {
            assert forall|i: int| at + 8 <= i < a.len() implies #[trigger] a[i] == b[i] by {
                assert(s.skip(8)[i - at - 8] == t.skip(8)[i - at - 8]);
            }
        }
        if high {
            assert(s.skip(8) =~= t.skip(8));
        }
    } else {
        if s == t {
            assert forall|i: int| at <= i < at + 8 && i < a.len() implies #[trigger] a[i] == b[i] by {
                assert(s[i - at] == t[i - at]);
            }
        }
        if low {
            assert(s =~= t);
        }
    }
}

} // verus!
