//! Builder for a serialized Elias-Fano sequence (the inverse of
//! [`eliasfano`](crate::eliasfano)).
//!
//! Offsets must be added in non-decreasing order and there must be exactly as many as
//! announced; an over-estimate of the largest offset, such as the size of the data file,
//! is fine.

use vstd::arithmetic::div_mod::*;
use vstd::arithmetic::mul::*;
use vstd::arithmetic::power2::*;
use vstd::bits::*;
use vstd::prelude::*;

use crate::bits;
use crate::bitwriter;
use crate::bytes;
use crate::bytes::{push_be, push_le};
use crate::eliasfano;
use crate::eliasfano::{low_width, lower_words, upper_words, EfModel};

verus! {

// ------------------------------------------------------------------ what is built

/// Where the one of value `c` stands.
pub open spec fn one_at(offsets: Seq<u64>, l: nat, c: int) -> int {
    offsets[c] as int / pow2(l) as int + c
}

/// Some value has its one at `p`.
pub open spec fn upper_bit(offsets: Seq<u64>, l: nat, p: int) -> bool {
    exists|c: int| 0 <= c < offsets.len() && #[trigger] one_at(offsets, l, c) == p
}

/// Words of the jump table for `n` values.
pub open spec fn jump_words(n: nat) -> nat {
    let r = n % 16384;
    (n / 16384) * 33 + if r != 0 { 1 + ((r + 255) / 256 + 3) / 2 } else { 0 }
}

/// Length of the section for `n` values below `u`.
pub open spec fn section_len(n: nat, u: nat) -> nat {
    16 + 8 * (lower_words(n, u) + upper_words(n, u) + jump_words(n))
}

/// The section for `n` values below `u` can be made: it is no longer than the longest
/// vector of the machine, and a 64-bit number tells where each of its ones stands.
pub open spec fn section_fits(n: nat, u: nat) -> bool {
    &&& section_len(n, u) <= isize::MAX
    &&& n + u / pow2(low_width(n, u)) <= u64::MAX
}

/// How far the one of value `c` is from the first of its block.
pub open spec fn jump_distance(offsets: Seq<u64>, l: nat, c: int) -> int {
    if 0 <= c < offsets.len() {
        one_at(offsets, l, c) - one_at(offsets, l, (c / 16384) * 16384)
    } else {
        0
    }
}

/// Word `j` of the jump table.
pub open spec fn jump_word(offsets: Seq<u64>, l: nat, j: int) -> int {
    let block = (j / 33) * 16384;
    let r = j % 33;
    if r == 0 {
        if block < offsets.len() { one_at(offsets, l, block) } else { 0 }
    } else {
        let c = block + 512 * (r - 1);
        jump_distance(offsets, l, c) + jump_distance(offsets, l, c + 256) * 0x1_0000_0000
    }
}

/// Every distance in the jump table fits in 32 bits.
pub open spec fn jumps_fit(offsets: Seq<u64>, l: nat) -> bool {
    forall|c: int| 0 <= c < offsets.len() && c % 256 == 0 ==> #[trigger] jump_distance(offsets, l, c) < 0x1_0000_0000
}

/// `w` holds the low parts and the ones of `offsets`, with room for `n` values below `u`.
pub open spec fn holds_bits(offsets: Seq<u64>, n: nat, u: nat, w: Seq<u64>) -> bool {
    let l = low_width(n, u);
    let wl = lower_words(n, u) as int;
    let wu = upper_words(n, u) as int;
    &&& w.len() == wl + wu + jump_words(n)
    &&& forall|c: int, b: int|
        0 <= c < offsets.len() && 0 <= b < l ==> #[trigger] bits::wbit(w, c * l + b) == bits::nbit(offsets[c] as int, b)
    &&& forall|p: int| offsets.len() * l <= p < 64 * wl ==> !#[trigger] bits::wbit(w, p)
    &&& forall|p: int| 0 <= p < 64 * wu ==> #[trigger] bits::wbit(w, 64 * wl + p) == upper_bit(offsets, l, p)
}

/// `w` are the words of the section that holds `offsets`, all below `u`.
pub open spec fn is_ef(offsets: Seq<u64>, u: nat, w: Seq<u64>) -> bool {
    let n = offsets.len();
    let l = low_width(n, u);
    let jb = (lower_words(n, u) + upper_words(n, u)) as int;
    &&& holds_bits(offsets, n, u, w)
    &&& forall|j: int| 0 <= j < jump_words(n) ==> #[trigger] w[jb + j] == jump_word(offsets, l, j)
}

/// Words in the little-endian form.
pub open spec fn words_bytes(w: Seq<u64>, n: nat) -> Seq<u8>
    decreases n,
{
    if n == 0 {
        Seq::empty()
    } else {
        words_bytes(w, (n - 1) as nat) + bytes::le_bytes(w[n - 1] as nat, 8)
    }
}

/// The section with these words, for `n` values below `u`.
pub open spec fn ef_bytes(n: nat, u: nat, w: Seq<u64>) -> Seq<u8> {
    bytes::be_bytes((n - 1) as nat, 8) + bytes::be_bytes(u, 8) + words_bytes(w, w.len())
}

/// The offsets never decrease and lie below `u`.
pub open spec fn monotone(offsets: Seq<u64>, u: nat) -> bool {
    &&& forall|a: int, b: int| 0 <= a <= b < offsets.len() ==> (#[trigger] offsets[a]) <= (#[trigger] offsets[b])
    &&& forall|a: int| 0 <= a < offsets.len() ==> (#[trigger] offsets[a]) < u
}

// ------------------------------------------------------------------ sizes

/// The high part of the universe is less than two for each value.
pub proof fn lemma_high_bound(n: nat, u: nat)
    requires
        n > 0,
    ensures
        u / pow2(low_width(n, u)) < 2 * n,
        pow2(low_width(n, u)) > 0,
{
    let l = low_width(n, u);
    let d = pow2(l);
    lemma_pow2_pos(l);
    lemma2_to64();
    eliasfano::lemma_floor_log2(u / n);
    let q = u / n;
    assert(u < (q + 1) * n) by (nonlinear_arith)
        requires
            q == u / n,
            n > 0,
    ;
    if q == 0 {
        assert(d == 1);
        assert(u / 1 == u) by (nonlinear_arith);
        assert(u < n) by (nonlinear_arith)
            requires
                u < (q + 1) * n,
                q == 0,
        ;
    } else {
        assert(u < (2 * n) * d) by (nonlinear_arith)
            requires
                u < (q + 1) * n,
                q + 1 <= 2 * d,
                n > 0,
        ;
        assert(u / d < 2 * n) by (nonlinear_arith)
            requires
                u < (2 * n) * d,
                d > 0,
        ;
    }
}

/// Ones lie in the upper words, strictly one after the other.
pub proof fn lemma_one_at(offsets: Seq<u64>, n: nat, u: nat)
    requires
        monotone(offsets, u),
        offsets.len() <= n,
        n > 0,
    ensures
        forall|a: int, b: int|
            0 <= a < b < offsets.len() ==> #[trigger] one_at(offsets, low_width(n, u), a) < #[trigger] one_at(
                offsets,
                low_width(n, u),
                b,
            ),
        forall|a: int|
            0 <= a < offsets.len() ==> a <= #[trigger] one_at(offsets, low_width(n, u), a) < 64 * upper_words(n, u),
        forall|a: int|
            0 <= a < offsets.len() ==> #[trigger] one_at(offsets, low_width(n, u), a) < n + u / pow2(low_width(n, u)),
{
    let l = low_width(n, u);
    let d = pow2(l) as int;
    lemma_pow2_pos(l);
    assert forall|a: int, b: int| 0 <= a < b < offsets.len() implies #[trigger] one_at(offsets, l, a) < #[trigger] one_at(
        offsets,
        l,
        b,
    ) by {
        lemma_div_is_ordered(offsets[a] as int, offsets[b] as int, d);
    }
    assert forall|a: int| 0 <= a < offsets.len() implies a <= #[trigger] one_at(offsets, l, a) < n + u / pow2(l) by {
        lemma_div_is_ordered(offsets[a] as int, u as int, d);
        lemma_div_pos_is_pos(offsets[a] as int, d);
    }
}

// ------------------------------------------------------------------ building

/// Accumulates a monotone offset sequence and serializes it as Elias-Fano.
pub struct EfBuilder {
    data: Vec<u64>,
    n: u64,
    u: u64,
    l: u64,
    i: u64,
    words_lower: usize,
    words_upper: usize,
    offsets: Ghost<Seq<u64>>,
    built: Ghost<bool>,
}

fn jump_size_words(n: u64) -> (r: u64)
    ensures
        r == jump_words(n as nat),
{
    let r: u64 = n % 16384;
    let whole: u64 = (n / 16384) * 33;
    if r != 0 {
        whole + 1 + ((r + 255) / 256 + 3) / 2
    } else {
        whole
    }
}

/// The product that the words of the low parts are counted by.
proof fn lemma_word_counts(count: u64, u: u64, l: u64)
    requires
        l < 64,
    ensures
        count as u128 * l as u128 == count * l,
        0 <= count * l <= 63 * u64::MAX,
{
    assert(0 <= count * l <= 63 * u64::MAX) by (nonlinear_arith)
        requires
            0 <= l <= 63,
            0 <= count <= u64::MAX,
    ;
}

impl EfBuilder {
    pub closed spec fn inv(&self) -> bool {
        &&& 0 < self.n
        &&& section_fits(self.n as nat, self.u as nat)
        &&& self.l == low_width(self.n as nat, self.u as nat)
        &&& self.l < 64
        &&& self.words_lower == lower_words(self.n as nat, self.u as nat)
        &&& self.words_upper == upper_words(self.n as nat, self.u as nat)
        &&& self.i == self.offsets@.len()
        &&& self.i <= self.n
        &&& monotone(self.offsets@, self.u as nat)
        &&& holds_bits(self.offsets@, self.n as nat, self.u as nat, self.data@)
        &&& if self.built@ {
            self.i == self.n && is_ef(self.offsets@, self.u as nat, self.data@)
        } else {
            forall|j: int|
                0 <= j < jump_words(self.n as nat) ==> #[trigger] self.data@[self.words_lower + self.words_upper + j] == 0
        }
    }

    /// Number of offsets announced.
    pub closed spec fn capacity(&self) -> nat {
        self.n as nat
    }

    /// The bound below which all offsets lie.
    pub closed spec fn universe(&self) -> nat {
        self.u as nat
    }

    /// The offsets added so far.
    pub closed spec fn added(&self) -> Seq<u64> {
        self.offsets@
    }

    /// Whether the jump table has been constructed.
    pub closed spec fn is_built(&self) -> bool {
        self.built@
    }

    /// The words of the section.
    pub closed spec fn words(&self) -> Seq<u64> {
        self.data@
    }

    /// Whether a section for `count` offsets (at least one) up to `max_offset` can be made
    /// on this machine.
    pub fn fits(count: u64, max_offset: u64) -> (r: bool)
        requires
            0 < count,
            max_offset < u64::MAX,
        ensures
            r == section_fits(count as nat, (max_offset + 1) as nat),
    {
        let u: u64 = max_offset + 1;
        let l: u64 = eliasfano::log2_floor(u / count);
        proof {
            lemma_u64_shr_is_div(u, l);
            lemma_word_counts(count, u, l);
        }
        let lower: u128 = (count as u128 * l as u128 + 63) / 64 + 1;
        let ones: u128 = count as u128 + (u >> l) as u128;
        let upper: u128 = (ones + 63) / 64;
        let jumps: u128 = jump_size_words(count) as u128;
        16 + 8 * (lower + upper + jumps) <= isize::MAX as u128 && ones <= u64::MAX as u128
    }

    /// Create a builder for `count` offsets (at least one) up to `max_offset`.
    pub fn new(count: u64, max_offset: u64) -> (b: EfBuilder)
        requires
            0 < count,
            max_offset < u64::MAX,
            section_fits(count as nat, (max_offset + 1) as nat),
        ensures
            b.inv(),
            b.capacity() == count,
            b.universe() == max_offset + 1,
            b.added() == Seq::<u64>::empty(),
            !b.is_built(),
    {
        let u: u64 = max_offset + 1;
        let l: u64 = eliasfano::log2_floor(u / count);
        proof {
            lemma_u64_shr_is_div(u, l);
            lemma_word_counts(count, u, l);
        }
        let lower: u128 = (count as u128 * l as u128 + 63) / 64 + 1;
        let upper: u128 = (count as u128 + (u >> l) as u128 + 63) / 64;
        let words_lower: usize = lower as usize;
        let words_upper: usize = upper as usize;
        let total: usize = words_lower + words_upper + jump_size_words(count) as usize;
        let data: Vec<u64> = vec![0u64; total];
        let b = EfBuilder {
            data,
            n: count,
            u,
            l,
            i: 0,
            words_lower,
            words_upper,
            offsets: Ghost(Seq::empty()),
            built: Ghost(false),
        };
        proof {
            assert forall|p: int| !#[trigger] bits::wbit(data@, p) by {
                if 0 <= p && p / 64 < data@.len() {
                    assert(data@[p / 64] == 0);
                    bits::lemma_nbit_zero(p % 64);
                }
            }
        }
        b
    }

    /// Add the next offset.
    #[verifier::rlimit(60)]
    pub fn add_offset(&mut self, offset: u64)
        requires
            old(self).inv(),
            !old(self).is_built(),
            old(self).added().len() < old(self).capacity(),
            offset < old(self).universe(),
            old(self).added().len() > 0 ==> old(self).added().last() <= offset,
        ensures
            final(self).inv(),
            !final(self).is_built(),
            final(self).capacity() == old(self).capacity(),
            final(self).universe() == old(self).universe(),
            final(self).added() == old(self).added().push(offset),
    {
        let ghost offs = self.offsets@;
        let ghost after = offs.push(offset);
        let ghost n = self.n as nat;
        let ghost u = self.u as nat;
        let ghost l = self.l as nat;
        let ghost w0 = self.data@;
        let ghost wl = self.words_lower as int;
        let ghost wu = self.words_upper as int;
        let ghost c = self.i as int;
        proof {
            lemma_push_monotone(offs, offset, u);
            lemma_one_at(after, n, u);
            assert(one_at(after, l, c) < 64 * wu);
            lemma_u64_shr_is_div(offset, self.l);
            lemma_high_bound(n, u);
            lemma_div_is_ordered(offset as int, u as int, pow2(l) as int);
            bits::lemma_shl_one(self.l);
            lemma_pow2_pos(l);
            assert(c * l + l <= n * l) by (nonlinear_arith)
                requires
                    c + 1 <= n,
            ;
        }
        if self.l != 0 {
            let low: u64 = offset % (1u64 << self.l);
            proof {
                assert(self.i as u128 * self.l as u128 == c * l);
                assert(c * l <= u64::MAX * 64) by (nonlinear_arith)
                    requires
                        0 <= c <= u64::MAX,
                        0 <= l <= 64,
                ;
            }
            set_bits(&mut self.data, self.i as u128 * self.l as u128, low, self.l);
        }
        let ghost w1 = self.data@;
        proof {
            assert forall|b: int| 0 <= b < l implies #[trigger] bits::nbit((offset % (pow2(l) as u64)) as int, b)
                == bits::nbit(offset as int, b) by {
                bits::lemma_nbit_mod(offset as int, l as int, b);
            }
            if l > 0 {
                let at = offs.len() * l;
                assert forall|p: int| 0 <= p implies #[trigger] bits::wbit(w1, p) == (bits::wbit(w0, p) || (at <= p < at + l
                    && bits::nbit(offset as int, p - at))) by {
                    if at <= p < at + l {
                        assert(bits::nbit((offset % (pow2(l) as u64)) as int, p - at) == bits::nbit(offset as int, p - at));
                    }
                }
            }
            lemma_lower_step(offs, offset, l, w0, w1, wl, n);
        }
        let pos: u64 = (offset >> self.l) + self.i;
        proof {
            assert(self.data.len() == w0.len());
            assert(pos / 64 < wu);
        }
        let word: usize = self.words_lower + (pos / 64) as usize;
        let bit: u64 = pos % 64;
        let v: u64 = self.data[word] | (1u64 << bit);
        self.data.set(word, v);
        proof {
            let w2 = self.data@;
            assert forall|p: int| 0 <= p implies #[trigger] bits::wbit(w2, p) == (bits::wbit(w1, p) || p == 64 * wl + pos) by {
                if p / 64 == word && p / 64 < w1.len() {
                    bits::lemma_or_bit(w1[word as int], bit, p % 64);
                }
            }
            assert(one_at(after, l, c) == pos);
            assert forall|p: int| 0 <= p < 64 * wu implies #[trigger] bits::wbit(w2, 64 * wl + p) == upper_bit(after, l, p) by {
                assert(bits::wbit(w0, 64 * wl + p) == upper_bit(offs, l, p));
                assert(bits::wbit(w1, 64 * wl + p) == bits::wbit(w0, 64 * wl + p));
                lemma_upper_push(offs, offset, l, p);
            }
            assert forall|a: int, b: int| 0 <= a < after.len() && 0 <= b < l implies #[trigger] bits::wbit(w2, a * l + b)
                == bits::nbit(after[a] as int, b) by {
                assert(0 <= a * l + b < n * l) by (nonlinear_arith)
                    requires
                        0 <= a < n,
                        0 <= b < l,
                ;
                assert(n * l <= 64 * wl);
                assert(bits::wbit(w1, a * l + b) == bits::nbit(after[a] as int, b));
            }
            assert forall|j: int| 0 <= j < jump_words(n) implies #[trigger] w2[wl + wu + j] == 0 by {
                assert(w0[wl + wu + j] == 0);
                assert(w1[wl + wu + j] == w0[wl + wu + j]);
            }
        }
        self.i = self.i + 1;
        self.offsets = Ghost(after);
    }
}

/// Write the `l` bits of `value` into `data` from bit `start` on, over zeros.
fn set_bits(data: &mut Vec<u64>, start: u128, value: u64, l: u64)
    requires
        0 < l < 64,
        value < pow2(l as nat),
        start / 64 + 1 < old(data).len(),
        forall|k: int| 0 <= k < 128 && start % 64 + k < 128 ==> !#[trigger] bits::wbit(old(data)@, start + k),
    ensures
        final(data)@.len() == old(data)@.len(),
        forall|p: int|
            0 <= p ==> #[trigger] bits::wbit(final(data)@, p) == (bits::wbit(old(data)@, p) || (start <= p < start + l
                && bits::nbit(value as int, p - start))),
        forall|k: int|
            0 <= k < old(data)@.len() && k != start / 64 && k != start / 64 + 1 ==> #[trigger] final(data)@[k] == old(data)@[k],
{
    let ghost before = data@;
    let idx: usize = (start / 64) as usize;
    let shift: u64 = (start % 64) as u64;
    let a: u64 = data[idx] | (value << shift);
    data.set(idx, a);
    if shift != 0 {
        let b: u64 = data[idx + 1] | (value >> (64 - shift));
        data.set(idx + 1, b);
    }
    proof {
        bits::lemma_pow2_64();
        assert forall|p: int| 0 <= p implies #[trigger] bits::wbit(data@, p) == (bits::wbit(before, p) || (start <= p
            < start + l && bits::nbit(value as int, p - start))) by {
            let b = p % 64;
            if p / 64 == idx {
                bits::lemma_or(before[idx as int], value << shift, b);
                bits::lemma_shl(value, shift, b);
                if p >= start && p >= start + l {
                    bits::lemma_nbit_high(value as int, l as int, p - start);
                }
            } else if p / 64 == idx + 1 {
                if shift != 0 {
                    bits::lemma_or(before[idx + 1], value >> ((64 - shift) as u64), b);
                    bits::lemma_shr(value, (64 - shift) as u64, b);
                    if b + 64 - shift >= l {
                        bits::lemma_nbit_high(value as int, l as int, b + 64 - shift);
                    }
                }
            }
        }
    }
}

proof fn lemma_push_monotone(offs: Seq<u64>, offset: u64, u: nat)
    requires
        monotone(offs, u),
        offset < u,
        offs.len() > 0 ==> offs.last() <= offset,
    ensures
        monotone(offs.push(offset), u),
{
    let after = offs.push(offset);
    assert forall|a: int, b: int| 0 <= a <= b < after.len() implies (#[trigger] after[a]) <= (#[trigger] after[b]) by {
        if b == offs.len() && a < offs.len() {
            assert(offs[a] <= offs[offs.len() - 1]);
        } else if b < offs.len() {
            assert(offs[a] <= offs[b]);
        }
    }
}

/// One more value, one more one.
proof fn lemma_upper_push(offs: Seq<u64>, offset: u64, l: nat, p: int)
    ensures
        upper_bit(offs.push(offset), l, p) == (upper_bit(offs, l, p) || p == one_at(
            offs.push(offset),
            l,
            offs.len() as int,
        )),
{
    let after = offs.push(offset);
    if upper_bit(offs, l, p) {
        let c = choose|c: int| 0 <= c < offs.len() && #[trigger] one_at(offs, l, c) == p;
        assert(one_at(after, l, c) == p);
    }
    if upper_bit(after, l, p) {
        let c = choose|c: int| 0 <= c < after.len() && #[trigger] one_at(after, l, c) == p;
        if c < offs.len() {
            assert(one_at(offs, l, c) == p);
        }
    }
}

/// The low part of one more value.
proof fn lemma_lower_step(offs: Seq<u64>, offset: u64, l: nat, w0: Seq<u64>, w1: Seq<u64>, wl: int, n: nat)
    requires
        offs.len() < n,
        n * l <= 64 * wl,
        w0.len() == w1.len(),
        forall|c: int, b: int|
            0 <= c < offs.len() && 0 <= b < l ==> #[trigger] bits::wbit(w0, c * l + b) == bits::nbit(offs[c] as int, b),
        forall|p: int| offs.len() * l <= p < 64 * wl ==> !#[trigger] bits::wbit(w0, p),
        l == 0 ==> w0 == w1,
        l > 0 ==> forall|p: int|
            0 <= p ==> #[trigger] bits::wbit(w1, p) == (bits::wbit(w0, p) || (offs.len() * l <= p < offs.len() * l + l
                && bits::nbit(offset as int, p - offs.len() * l))),
    ensures
        forall|c: int, b: int|
            0 <= c < offs.push(offset).len() && 0 <= b < l ==> #[trigger] bits::wbit(w1, c * l + b) == bits::nbit(
                offs.push(offset)[c] as int,
                b,
            ),
        forall|p: int| offs.push(offset).len() * l <= p < 64 * wl ==> !#[trigger] bits::wbit(w1, p),
{
    let m = offs.len();
    let after = offs.push(offset);
    assert(after.len() * l == m * l + l) by (nonlinear_arith)
        requires
            after.len() == m + 1,
    ;
    if l > 0 {
        assert forall|c: int, b: int| 0 <= c < after.len() && 0 <= b < l implies #[trigger] bits::wbit(w1, c * l + b)
            == bits::nbit(after[c] as int, b) by {
            if c < m {
                assert(0 <= c * l + b < m * l) by (nonlinear_arith)
                    requires
                        0 <= c < m,
                        0 <= b < l,
                ;
                assert(bits::wbit(w0, c * l + b) == bits::nbit(offs[c] as int, b));
            } else {
                assert(m * l + l <= n * l) by (nonlinear_arith)
                    requires
                        m + 1 <= n,
                ;
                assert(!bits::wbit(w0, m * l + b));
            }
        }
        assert forall|p: int| after.len() * l <= p < 64 * wl implies !#[trigger] bits::wbit(w1, p) by {
            assert(!bits::wbit(w0, p));
        }
    }
}

// ------------------------------------------------------------------ the jump table

/// All ones below `q` belong to the first `c` values.
spec fn passed(offsets: Seq<u64>, l: nat, c: int, q: int) -> bool {
    forall|k: int| 0 <= k < offsets.len() ==> (#[trigger] one_at(offsets, l, k) < q <==> k < c)
}

/// The jump table depends on every 256th value only.
proof fn lemma_jump_same(offsets: Seq<u64>, l: nat, c: int, j: int)
    requires
        0 <= c < offsets.len(),
        c % 256 != 0,
        0 <= j,
    ensures
        jump_word(offsets.take(c + 1), l, j) == jump_word(offsets.take(c), l, j),
{
    let a = offsets.take(c);
    let b = offsets.take(c + 1);
    let block = (j / 33) * 16384;
    let r = j % 33;
    if r == 0 {
        if block < c {
            assert(a[block] == b[block]);
        }
    } else {
        lemma_distance_same(offsets, l, c, block + 512 * (r - 1));
        lemma_distance_same(offsets, l, c, block + 512 * (r - 1) + 256);
    }
}

proof fn lemma_distance_same(offsets: Seq<u64>, l: nat, c: int, x: int)
    requires
        0 <= c < offsets.len(),
        0 <= x,
        x != c,
    ensures
        jump_distance(offsets.take(c + 1), l, x) == jump_distance(offsets.take(c), l, x),
{
    if x < c {
        let s = (x / 16384) * 16384;
        assert(offsets.take(c + 1)[x] == offsets.take(c)[x]);
        assert(offsets.take(c + 1)[s] == offsets.take(c)[s]);
    }
}

/// What value `c`, a multiple of 256, adds to the jump table.
proof fn lemma_jump_step(offsets: Seq<u64>, l: nat, c: int, j: int)
    requires
        0 <= c < offsets.len(),
        c % 256 == 0,
        0 <= j,
    ensures
        ({
            let at = (c / 16384) * 33 + 1 + ((c % 16384) / 256) / 2;
            let d = jump_distance(offsets, l, c);
            let before = jump_word(offsets.take(c), l, j);
            let after = jump_word(offsets.take(c + 1), l, j);
            if j == at {
                if ((c % 16384) / 256) % 2 == 0 {
                    before == 0 && after == d
                } else {
                    after == before + d * 0x1_0000_0000
                }
            } else if j == (c / 16384) * 33 && c % 16384 == 0 {
                before == 0 && after == one_at(offsets, l, c)
            } else {
                after == before
            }
        }),
{
    let a = offsets.take(c);
    let b = offsets.take(c + 1);
    let block = (j / 33) * 16384;
    let r = j % 33;
    assert(b[c] == offsets[c]);
    assert(b[(c / 16384) * 16384] == offsets[(c / 16384) * 16384]);
    assert(jump_distance(b, l, c) == jump_distance(offsets, l, c));
    if r == 0 {
        if block < c {
            assert(a[block] == b[block]);
        }
    } else {
        let x = block + 512 * (r - 1);
        if x != c {
            lemma_distance_same(offsets, l, c, x);
        }
        if x + 256 != c {
            lemma_distance_same(offsets, l, c, x + 256);
        }
    }
}

proof fn lemma_jump_empty(offsets: Seq<u64>, l: nat, j: int)
    requires
        0 <= j,
    ensures
        jump_word(offsets.take(0), l, j) == 0,
{
}

/// Enter the one of value `c`, which stands at `p`, into the jump table, where `last` is
/// the first one of the block of the value before. Gives the first one of the block of
/// `c`, or `None` if the distance from there does not fit.
fn note_one(data: &mut Vec<u64>, jb: usize, c: u64, p: u64, last: u64, Ghost(offs): Ghost<Seq<u64>>, Ghost(l): Ghost<nat>) -> (r: Option<u64>)
    requires
        c < offs.len(),
        one_at(offs, l, c as int) == p,
        old(data).len() == jb + jump_words(offs.len()),
        0 < c ==> last == one_at(offs, l, (c - 1) / 16384 * 16384),
        forall|a: int, b: int| 0 <= a < b < offs.len() ==> #[trigger] one_at(offs, l, a) < #[trigger] one_at(offs, l, b),
        forall|j: int|
            0 <= j < jump_words(offs.len()) ==> #[trigger] old(data)@[jb + j] == jump_word(offs.take(c as int), l, j),
        forall|x: int| 0 <= x < c && x % 256 == 0 ==> #[trigger] jump_distance(offs, l, x) < 0x1_0000_0000,
    ensures
        final(data)@.len() == old(data)@.len(),
        r is None ==> c % 256 == 0 && jump_distance(offs, l, c as int) >= 0x1_0000_0000,
        r matches Some(x) ==> {
            &&& x == one_at(offs, l, c as int / 16384 * 16384)
            &&& c % 256 == 0 ==> jump_distance(offs, l, c as int) < 0x1_0000_0000
            &&& forall|k: int| 0 <= k < jb ==> #[trigger] final(data)@[k] == old(data)@[k]
            &&& forall|j: int|
                0 <= j < jump_words(offs.len()) ==> #[trigger] final(data)@[jb + j] == jump_word(offs.take(c + 1), l, j)
        },
{
    let ghost d1 = data@;
    let ghost n = offs.len();
    proof {
        lemma_jump_index(n, c as int);
    }
    if c % 256 != 0 {
        proof {
            assert forall|j: int| 0 <= j < jump_words(n) implies #[trigger] data@[jb + j] == jump_word(
                offs.take(c + 1),
                l,
                j,
            ) by {
                lemma_jump_same(offs, l, c as int, j);
            }
            assert((c - 1) / 16384 == c as int / 16384);
        }
        return Some(last);
    }
    let mut first: u64 = last;
    if c % 16384 == 0 {
        first = p;
        let k: usize = jb + ((c / 16384) * 33) as usize;
        data.set(k, p);
    } else {
        proof {
            assert((c - 1) / 16384 == c as int / 16384);
        }
    }
    let ghost d2 = data@;
    proof {
        let s = (c as int / 16384) * 16384;
        if s < c {
            assert(one_at(offs, l, s) < one_at(offs, l, c as int));
        }
        assert(first == one_at(offs, l, s));
        assert(jump_distance(offs, l, c as int) == p - first);
    }
    let offset: u64 = p - first;
    if offset >= 0x1_0000_0000 {
        return None;
    }
    let inside: u64 = (c % 16384) / 256;
    let at: usize = jb + ((c / 16384) * 33 + 1 + inside / 2) as usize;
    proof {
        let ja = (at - jb) as int;
        assert(d2[jb + ja] == d1[jb + ja]);
        assert(d1[jb + ja] == jump_word(offs.take(c as int), l, ja));
        lemma_jump_step(offs, l, c as int, ja);
        lemma_jump_low(offs, l, c as int);
    }
    let old_word: u64 = data[at];
    let v: u64 = if inside % 2 == 0 { offset } else { old_word + offset * 0x1_0000_0000 };
    data.set(at, v);
    proof {
        assert forall|j: int| 0 <= j < jump_words(n) implies #[trigger] data@[jb + j] == jump_word(
            offs.take(c + 1),
            l,
            j,
        ) by {
            assert(d1[jb + j] == jump_word(offs.take(c as int), l, j));
            lemma_jump_step(offs, l, c as int, j);
        }
    }
    Some(first)
}

impl EfBuilder {
    /// Construct the jump table. Reports whether every distance in it fits in 32 bits,
    /// which is the case for any realistic universe; if not, the table is not complete.
    pub fn try_build(&mut self) -> (ok: bool)
        requires
            old(self).inv(),
            !old(self).is_built(),
            old(self).added().len() == old(self).capacity(),
        ensures
            final(self).capacity() == old(self).capacity(),
            final(self).universe() == old(self).universe(),
            final(self).added() == old(self).added(),
            ok == jumps_fit(old(self).added(), low_width(old(self).capacity(), old(self).universe())),
            ok ==> final(self).inv() && final(self).is_built(),
    {
        let ghost offs = self.offsets@;
        let ghost n = self.n as nat;
        let ghost u = self.u as nat;
        let ghost l = self.l as nat;
        let ghost w0 = self.data@;
        let wl: usize = self.words_lower;
        let wu: usize = self.words_upper;
        proof {
            assert(self.data.len() == w0.len());
        }
        let jb: usize = wl + wu;
        let mut c: u64 = 0;
        let mut last: u64 = 0;
        let mut i: usize = 0;
        proof {
            lemma_one_at(offs, n, u);
            assert forall|j: int| 0 <= j < jump_words(n) implies #[trigger] self.data@[jb + j] == jump_word(
                offs.take(0),
                l,
                j,
            ) by {
                lemma_jump_empty(offs, l, j);
                assert(w0[wl + wu + j] == 0);
            }
            assert(self.data.len() == w0.len());
        }
        while i < wu
            invariant
                i <= wu,
                wl == lower_words(n, u),
                wu == upper_words(n, u),
                l == low_width(n, u),
                jb == wl + wu,
                n == offs.len(),
                wu <= u64::MAX / 8,
                n + u / pow2(l) <= u64::MAX,
                self.n == n,
                self.u == u,
                self.l == l,
                self.words_lower == wl,
                self.words_upper == wu,
                self.i == n,
                self.offsets@ == offs,
                *self == (EfBuilder { data: self.data, ..*old(self) }),
                old(self).inv(),
                w0 == old(self).data@,
                self.data@.len() == w0.len(),
                w0.len() == jb + jump_words(n),
                w0.len() <= usize::MAX,
                monotone(offs, u),
                forall|k: int| 0 <= k < jb ==> #[trigger] self.data@[k] == w0[k],
                forall|p: int| 0 <= p < 64 * wu ==> #[trigger] bits::wbit(w0, 64 * wl + p) == upper_bit(offs, l, p),
                forall|a: int, b: int|
                    0 <= a < b < n ==> #[trigger] one_at(offs, l, a) < #[trigger] one_at(offs, l, b),
                forall|a: int| 0 <= a < n ==> a <= #[trigger] one_at(offs, l, a) < 64 * wu,
                forall|a: int| 0 <= a < n ==> #[trigger] one_at(offs, l, a) < n + u / pow2(l),
                c <= n,
                passed(offs, l, c as int, 64 * i),
                0 < c ==> last == one_at(offs, l, (c as int - 1) / 16384 * 16384),
                forall|j: int| 0 <= j < jump_words(n) ==> #[trigger] self.data@[jb + j] == jump_word(offs.take(c as int), l, j),
                forall|x: int| 0 <= x < c && x % 256 == 0 ==> #[trigger] jump_distance(offs, l, x) < 0x1_0000_0000,
            decreases wu - i,
        {
            let mut word: u64 = self.data[wl + i];
            let ghost mut q: int = 64 * i;
            proof {
                assert(word == w0[wl + i]);
                assert forall|j: int| 0 <= j < 64 implies #[trigger] bits::nbit(word as int, j) == (64 * i + j >= q
                    && upper_bit(offs, l, 64 * i + j)) by {
                    let p = 64 * i + j;
                    assert(bits::wbit(w0, 64 * wl + p) == upper_bit(offs, l, p));
                    assert((64 * wl + p) / 64 == wl + i && (64 * wl + p) % 64 == j);
                }
            }
            while word != 0
                invariant
                    i < wu,
                    wl == lower_words(n, u),
                    wu == upper_words(n, u),
                    l == low_width(n, u),
                    jb == wl + wu,
                    n == offs.len(),
                    wu <= u64::MAX / 8,
                    n + u / pow2(l) <= u64::MAX,
                    64 * i < n + u / pow2(l),
                    *self == (EfBuilder { data: self.data, ..*old(self) }),
                    old(self).inv(),
                    self.n == n,
                    self.u == u,
                    self.offsets@ == offs,
                    w0 == old(self).data@,
                    self.data@.len() == w0.len(),
                    w0.len() == jb + jump_words(n),
                    w0.len() <= usize::MAX,
                    forall|k: int| 0 <= k < jb ==> #[trigger] self.data@[k] == w0[k],
                    forall|a: int, b: int|
                        0 <= a < b < n ==> #[trigger] one_at(offs, l, a) < #[trigger] one_at(offs, l, b),
                    forall|a: int| 0 <= a < n ==> a <= #[trigger] one_at(offs, l, a) < 64 * wu,
                forall|a: int| 0 <= a < n ==> #[trigger] one_at(offs, l, a) < n + u / pow2(l),
                    c <= n,
                    64 * i <= q <= 64 * i + 64,
                    passed(offs, l, c as int, q),
                    0 < c ==> last == one_at(offs, l, (c as int - 1) / 16384 * 16384),
                    forall|j: int|
                        0 <= j < 64 ==> #[trigger] bits::nbit(word as int, j) == (64 * i + j >= q && upper_bit(
                            offs,
                            l,
                            64 * i + j,
                        )),
                    forall|j: int| 0 <= j < jump_words(n) ==> #[trigger] self.data@[jb + j] == jump_word(offs.take(c as int), l, j),
                    forall|x: int| 0 <= x < c && x % 256 == 0 ==> #[trigger] jump_distance(offs, l, x) < 0x1_0000_0000,
                decreases 64 * i + 64 - q,
            {
                let b: u64 = word.trailing_zeros() as u64;
                proof {
                    bits::lemma_trailing_zeros(word);
                    lemma_next_one(offs, l, c as int, q, 64 * i + b, word, i as int, b as int);
                }
                let p: u64 = i as u64 * 64 + b;
                proof {
                    assert forall|j: int| 0 <= j < 64 implies #[trigger] bits::nbit((word & ((word - 1) as u64)) as int, j) == (
                    64 * i + j >= p + 1 && upper_bit(offs, l, 64 * i + j)) by {
                        bits::lemma_clear_lowest(word, b, j);
                        if j < b {
                            assert(!bits::nbit(word as int, j));
                        }
                    }
                }
                last = match note_one(&mut self.data, jb, c, p, last, Ghost(offs), Ghost(l)) {
                    Some(x) => x,
                    None => {
                        proof {
                            assert(jump_distance(offs, l, c as int) >= 0x1_0000_0000);
                        }
                        return false;
                    },
                };
                c = c + 1;
                word = word & (word - 1);
                proof {
                    q = p + 1;
                }
            }
            proof {
                assert forall|k: int| 0 <= k < n implies (#[trigger] one_at(offs, l, k) < 64 * (i + 1) <==> k < c) by {
                    let x = one_at(offs, l, k);
                    if q <= x < 64 * i + 64 {
                        let j = x - 64 * i;
                        assert(upper_bit(offs, l, 64 * i + j));
                        bits::lemma_nbit_zero(j);
                        assert(!bits::nbit(word as int, j));
                    }
                }
            }
            i = i + 1;
        }
        proof {
            if c < n {
                assert(one_at(offs, l, c as int) < 64 * wu);
            }
            assert(offs.take(c as int) =~= offs);
            let w = self.data@;
            assert forall|p: int| 0 <= p < 64 * jb implies #[trigger] bits::wbit(w, p) == bits::wbit(w0, p) by {}
            assert forall|a: int, b: int| 0 <= a < offs.len() && 0 <= b < l implies #[trigger] bits::wbit(w, a * l + b)
                == bits::nbit(offs[a] as int, b) by {
                assert(0 <= a * l + b < n * l) by (nonlinear_arith)
                    requires
                        0 <= a < n,
                        0 <= b < l,
                ;
                assert(bits::wbit(w0, a * l + b) == bits::nbit(offs[a] as int, b));
            }
            assert(jumps_fit(offs, l));
        }
        self.built = Ghost(true);
        true
    }

    /// Construct the jump table.
    pub fn build(&mut self)
        requires
            old(self).inv(),
            !old(self).is_built(),
            old(self).added().len() == old(self).capacity(),
            jumps_fit(old(self).added(), low_width(old(self).capacity(), old(self).universe())),
        ensures
            final(self).inv(),
            final(self).is_built(),
            final(self).capacity() == old(self).capacity(),
            final(self).universe() == old(self).universe(),
            final(self).added() == old(self).added(),
    {
        let _ok: bool = self.try_build();
    }
}

/// The lowest remaining one is that of the next value.
proof fn lemma_next_one(offs: Seq<u64>, l: nat, c: int, q: int, p: int, word: u64, i: int, b: int)
    requires
        0 <= c <= offs.len(),
        0 <= b < 64,
        p == 64 * i + b,
        64 * i <= q <= 64 * i + 64,
        passed(offs, l, c, q),
        bits::nbit(word as int, b),
        forall|j: int| 0 <= j < b ==> !bits::nbit(word as int, j),
        forall|j: int|
            0 <= j < 64 ==> #[trigger] bits::nbit(word as int, j) == (64 * i + j >= q && upper_bit(offs, l, 64 * i + j)),
        forall|a: int, b: int|
            0 <= a < b < offs.len() ==> #[trigger] one_at(offs, l, a) < #[trigger] one_at(offs, l, b),
    ensures
        c < offs.len(),
        one_at(offs, l, c) == p,
        p >= q,
        passed(offs, l, c + 1, p + 1),
{
    assert(upper_bit(offs, l, p));
    let k = choose|k: int| 0 <= k < offs.len() && #[trigger] one_at(offs, l, k) == p;
    assert(k >= c);
    if k > c {
        let x = one_at(offs, l, c);
        assert(q <= x < p);
        let j = x - 64 * i;
        assert(upper_bit(offs, l, 64 * i + j));
        assert(bits::nbit(word as int, j));
    }
    assert forall|m: int| 0 <= m < offs.len() implies (#[trigger] one_at(offs, l, m) < p + 1 <==> m < c + 1) by {
        if m < c {
            assert(one_at(offs, l, m) < one_at(offs, l, c));
        } else if m > c {
            assert(one_at(offs, l, c) < one_at(offs, l, m));
        }
    }
}

/// The entries of value `c` lie in the jump table.
proof fn lemma_jump_index(n: nat, c: int)
    requires
        0 <= c < n,
    ensures
        (c / 16384) * 33 + 1 + ((c % 16384) / 256) / 2 < jump_words(n),
{
}

/// Which value the lower half of the entry of value `c` belongs to.
proof fn lemma_lower_half(c: int)
    requires
        0 <= c,
        c % 256 == 0,
        ((c % 16384) / 256) % 2 == 1,
    ensures
        ({
            let at = (c / 16384) * 33 + 1 + ((c % 16384) / 256) / 2;
            &&& at % 33 != 0
            &&& (at / 33) * 16384 + 512 * (at % 33 - 1) == c - 256
            &&& (c - 256) / 16384 == c / 16384
        }),
        0 <= c - 256,
        (c - 256) % 256 == 0,
{
    let s = c / 16384;
    let inside = (c % 16384) / 256;
    let at = s * 33 + 1 + inside / 2;
    assert(c == 16384 * s + 256 * inside);
    assert(at / 33 == s && at % 33 == 1 + inside / 2);
}

/// The lower half of an entry is there before the upper half.
proof fn lemma_jump_low(offs: Seq<u64>, l: nat, c: int)
    requires
        0 <= c < offs.len(),
        c % 256 == 0,
        forall|x: int| 0 <= x < c && x % 256 == 0 ==> #[trigger] jump_distance(offs, l, x) < 0x1_0000_0000,
        forall|a: int, b: int|
            0 <= a < b < offs.len() ==> #[trigger] one_at(offs, l, a) < #[trigger] one_at(offs, l, b),
    ensures
        ({
            let at = (c / 16384) * 33 + 1 + ((c % 16384) / 256) / 2;
            ((c % 16384) / 256) % 2 == 1 ==> 0 <= jump_word(offs.take(c), l, at) < 0x1_0000_0000
        }),
{
    let a = offs.take(c);
    let inside = (c % 16384) / 256;
    let at = (c / 16384) * 33 + 1 + inside / 2;
    if inside % 2 == 1 {
        lemma_lower_half(c);
        let x = c - 256;
        let s = (x / 16384) * 16384;
        assert(s <= x);
        assert(a[x] == offs[x]);
        assert(a[s] == offs[s]);
        assert(jump_distance(a, l, x) == jump_distance(offs, l, x));
        assert(jump_distance(a, l, x + 256) == 0);
        if s < x {
            assert(one_at(offs, l, s) < one_at(offs, l, x));
        }
    }
}

// ------------------------------------------------------------------ serializing

impl EfBuilder {
    /// Serialize: the number of offsets minus one and the universe, both big-endian, then
    /// the words, little-endian.
    pub fn write_to(&self, out: &mut Vec<u8>)
        requires
            self.inv(),
        ensures
            final(out)@ == old(out)@ + ef_bytes(self.capacity(), self.universe(), self.words()),
    {
        let ghost before = out@;
        push_be(out, self.n - 1, 8);
        push_be(out, self.u, 8);
        let ghost head = bytes::be_bytes((self.n - 1) as nat, 8) + bytes::be_bytes(self.u as nat, 8);
        let mut i: usize = 0;
        proof {
            assert(out@ =~= before + head + words_bytes(self.data@, 0));
        }
        while i < self.data.len()
            invariant
                i <= self.data.len(),
                out@ == before + head + words_bytes(self.data@, i as nat),
            decreases self.data.len() - i,
        {
            let ghost o = out@;
            push_le(out, self.data[i], 8);
            proof {
                assert(out@ =~= before + head + words_bytes(self.data@, (i + 1) as nat));
            }
            i = i + 1;
        }
        proof {
            assert(out@ =~= before + ef_bytes(self.capacity(), self.universe(), self.words()));
        }
    }

    /// Total serialized length in bytes.
    pub fn serialized_len(&self) -> (n: usize)
        requires
            self.inv(),
        ensures
            n == ef_bytes(self.capacity(), self.universe(), self.words()).len(),
    {
        proof {
            lemma_words_bytes(self.data@, self.data@.len());
        }
        16 + self.data.len() * 8
    }

    /// What a finished builder holds.
    pub proof fn lemma_built(&self)
        requires
            self.inv(),
            self.is_built(),
        ensures
            is_ef(self.added(), self.universe(), self.words()),
            self.added().len() == self.capacity(),
            self.capacity() > 0,
            monotone(self.added(), self.universe()),
            self.universe() <= u64::MAX,
    {
    }
}

pub proof fn lemma_words_bytes(w: Seq<u64>, n: nat)
    requires
        n <= w.len(),
    ensures
        words_bytes(w, n).len() == 8 * n,
        forall|k: int|
            0 <= k < n ==> #[trigger] words_bytes(w, n).subrange(8 * k, 8 * k + 8) == bytes::le_bytes(w[k] as nat, 8),
    decreases n,
{
    if n > 0 {
        let m = (n - 1) as nat;
        lemma_words_bytes(w, m);
        let a = words_bytes(w, m);
        let s = words_bytes(w, n);
        assert forall|k: int| 0 <= k < n implies #[trigger] s.subrange(8 * k, 8 * k + 8) == bytes::le_bytes(
            w[k] as nat,
            8,
        ) by {
            if k < m {
                assert(s.subrange(8 * k, 8 * k + 8) =~= a.subrange(8 * k, 8 * k + 8));
            } else {
                assert(s.subrange(8 * k, 8 * k + 8) =~= bytes::le_bytes(w[k] as nat, 8));
            }
        }
    }
}

/// The first words found after some bytes are those that were written there.
pub proof fn lemma_words_from(pre: Seq<u8>, w: Seq<u64>, post: Seq<u8>)
    ensures
        eliasfano::words_from(pre + words_bytes(w, w.len()) + post, pre.len() as int).len() >= w.len(),
        forall|k: int|
            0 <= k < w.len() ==> #[trigger] eliasfano::words_from(
                pre + words_bytes(w, w.len()) + post,
                pre.len() as int,
            )[k] == w[k],
{
    let s = words_bytes(w, w.len());
    let d = pre + s + post;
    let f = eliasfano::words_from(d, pre.len() as int);
    lemma_words_bytes(w, w.len());
    bits::lemma_pow2_64();
    assert forall|k: int| 0 <= k < w.len() implies #[trigger] f[k] == w[k] by {
        let at = pre.len() + 8 * k;
        assert(d.subrange(at, at + 8) =~= s.subrange(8 * k, 8 * k + 8));
        bytes::lemma_le_roundtrip(w[k] as nat, 8);
    }
}

// ------------------------------------------------------------------ reading back

/// Between ones there is nothing to find.
proof fn lemma_nth_gap(words: Seq<u64>, from: int, to: int, k: int)
    requires
        from <= to <= 64 * words.len(),
        forall|p: int| from <= p < to ==> !#[trigger] bits::wbit(words, p),
    ensures
        eliasfano::nth_one(words, from, k) == eliasfano::nth_one(words, to, k),
    decreases to - from,
{
    if from < to {
        assert(!bits::wbit(words, from));
        lemma_nth_gap(words, from + 1, to, k);
    }
}

/// The `k`-th one from that of value `c` on is that of value `c + k`.
proof fn lemma_nth_value(words: Seq<u64>, offsets: Seq<u64>, l: nat, wu: int, c: int, k: int)
    requires
        0 <= c,
        0 <= k,
        c + k < offsets.len(),
        64 * wu <= 64 * words.len(),
        forall|p: int| 0 <= p < 64 * wu ==> #[trigger] bits::wbit(words, p) == upper_bit(offsets, l, p),
        forall|a: int, b: int|
            0 <= a < b < offsets.len() ==> #[trigger] one_at(offsets, l, a) < #[trigger] one_at(offsets, l, b),
        forall|a: int| 0 <= a < offsets.len() ==> a <= #[trigger] one_at(offsets, l, a) < 64 * wu,
    ensures
        eliasfano::nth_one(words, one_at(offsets, l, c), k) == Some(one_at(offsets, l, c + k)),
    decreases k,
{
    let p = one_at(offsets, l, c);
    assert(upper_bit(offsets, l, p));
    assert(bits::wbit(words, p));
    if k > 0 {
        let q = one_at(offsets, l, c + 1);
        assert(p < q);
        assert forall|x: int| p + 1 <= x < q implies !#[trigger] bits::wbit(words, x) by {
            if upper_bit(offsets, l, x) {
                let d = choose|d: int| 0 <= d < offsets.len() && #[trigger] one_at(offsets, l, d) == x;
                if d < c {
                    assert(one_at(offsets, l, d) < one_at(offsets, l, c));
                } else if d > c + 1 {
                    assert(one_at(offsets, l, c + 1) < one_at(offsets, l, d));
                }
            }
        }
        lemma_nth_gap(words, p + 1, q, k - 1);
        lemma_nth_value(words, offsets, l, wu, c + 1, k - 1);
    }
}

/// Reading a built section, wherever it stands in a file, gives every offset back.
pub proof fn law_ef_roundtrip(offsets: Seq<u64>, u: nat, w: Seq<u64>, pre: Seq<u8>, post: Seq<u8>)
    requires
        0 < offsets.len() <= u64::MAX,
        u <= u64::MAX,
        monotone(offsets, u),
        is_ef(offsets, u, w),
        jumps_fit(offsets, low_width(offsets.len(), u)),
    ensures
        eliasfano::parse_ef(pre + ef_bytes(offsets.len(), u, w) + post, pre.len() as int) matches Ok(m) && m.n
            == offsets.len() && m.u == u && forall|i: int|
            0 <= i < offsets.len() ==> #[trigger] eliasfano::ef_get(m, i) == Some(offsets[i]),
{
    let n = offsets.len();
    let l = low_width(n, u);
    let wl = lower_words(n, u) as int;
    let wu = upper_words(n, u) as int;
    let e = ef_bytes(n, u, w);
    let d = pre + e + post;
    let base = pre.len() as int;
    let head = bytes::be_bytes((n - 1) as nat, 8) + bytes::be_bytes(u, 8);
    bits::lemma_pow2_64();
    bytes::lemma_be_roundtrip((n - 1) as nat, 8);
    bytes::lemma_be_roundtrip(u, 8);
    assert(d.subrange(base, base + 8) =~= bytes::be_bytes((n - 1) as nat, 8));
    assert(d.subrange(base + 8, base + 16) =~= bytes::be_bytes(u, 8));
    lemma_words_bytes(w, w.len());
    assert(d =~= (pre + head) + words_bytes(w, w.len()) + post);
    lemma_words_from(pre + head, w, post);
    let m = EfModel { n, u, words: eliasfano::words_from(d, base + 16) };
    assert(eliasfano::parse_ef(d, base) == Ok::<EfModel, crate::error::FormatError>(m));
    assert(starts_with(m, offsets, u, w));
    assert forall|i: int| 0 <= i < n implies #[trigger] eliasfano::ef_get(m, i) == Some(offsets[i]) by {
        lemma_get_built(offsets, u, w, m, i);
    }
}

/// The words of a section start with those of a built one.
spec fn starts_with(m: EfModel, offsets: Seq<u64>, u: nat, w: Seq<u64>) -> bool {
    &&& 0 < offsets.len() <= u64::MAX
    &&& u <= u64::MAX
    &&& monotone(offsets, u)
    &&& is_ef(offsets, u, w)
    &&& jumps_fit(offsets, low_width(offsets.len(), u))
    &&& m.n == offsets.len()
    &&& m.u == u
    &&& m.words.len() >= w.len()
    &&& forall|k: int| 0 <= k < w.len() ==> #[trigger] m.words[k] == w[k]
}

/// Where the entry of value `i` stands in the jump table.
proof fn lemma_jump_places(i: int)
    requires
        0 <= i,
    ensures
        ({
            let inside = (i % 16384) / 256;
            let block = (i / 16384) * 33;
            let at = block + 1 + inside / 2;
            let s = (i / 16384) * 16384;
            let x = s + 512 * (inside / 2);
            let c = (i / 256) * 256;
            &&& block / 33 == i / 16384
            &&& block % 33 == 0
            &&& at / 33 == i / 16384
            &&& at % 33 == 1 + inside / 2
            &&& x % 256 == 0
            &&& c == if inside % 2 == 0 { x } else { x + 256 }
            &&& (c / 16384) * 16384 == s
            &&& 0 <= c <= i
        }),
{
    let inside = (i % 16384) / 256;
    assert(0 <= inside < 64);
    assert(i / 256 == 64 * (i / 16384) + inside);
}

/// The jump table leads to the one of the nearest multiple of 256.
proof fn lemma_jump_built(offsets: Seq<u64>, u: nat, w: Seq<u64>, m: EfModel, i: int)
    requires
        starts_with(m, offsets, u, w),
        0 <= i < offsets.len(),
    ensures
        eliasfano::jump_start(m, i) == Some(one_at(offsets, low_width(offsets.len(), u), (i / 256) * 256)),
{
    let n = offsets.len();
    let l = low_width(n, u);
    let jb = (lower_words(n, u) + upper_words(n, u)) as int;
    lemma_one_at(offsets, n, u);
    lemma_jump_index(n, i);
    lemma_jump_places(i);
    let c = (i / 256) * 256;
    let inside = (i % 16384) / 256;
    let block = (i / 16384) * 33;
    let at = block + 1 + inside / 2;
    let s = (i / 16384) * 16384;
    let x = s + 512 * (inside / 2);
    let lo = jump_distance(offsets, l, x);
    let hi = jump_distance(offsets, l, x + 256);
    assert(m.words[jb + block] == one_at(offsets, l, s)) by {
        assert(w[jb + block] == jump_word(offsets, l, block));
        assert(m.words[jb + block] == w[jb + block]);
    }
    assert(m.words[jb + at] == lo + hi * 0x1_0000_0000) by {
        assert(w[jb + at] == jump_word(offsets, l, at));
        assert(m.words[jb + at] == w[jb + at]);
    }
    lemma_distance_range(offsets, l, x);
    lemma_distance_range(offsets, l, x + 256);
    assert(jump_distance(offsets, l, c) == one_at(offsets, l, c) - one_at(offsets, l, s));
    let v = m.words[jb + at] as nat;
    assert(v % 0x1_0000_0000 == lo && v / 0x1_0000_0000 == hi);
}

/// Counting ones from there leads to the one of value `i`.
proof fn lemma_one_built(offsets: Seq<u64>, u: nat, w: Seq<u64>, m: EfModel, i: int)
    requires
        starts_with(m, offsets, u, w),
        0 <= i < offsets.len(),
    ensures
        eliasfano::nth_one(
            m.words.skip(lower_words(offsets.len(), u) as int),
            one_at(offsets, low_width(offsets.len(), u), (i / 256) * 256),
            i % 256,
        ) == Some(one_at(offsets, low_width(offsets.len(), u), i)),
{
    let n = offsets.len();
    let l = low_width(n, u);
    let wl = lower_words(n, u) as int;
    let wu = upper_words(n, u) as int;
    let upper = m.words.skip(wl);
    lemma_one_at(offsets, n, u);
    assert forall|p: int| 0 <= p < 64 * wu implies #[trigger] bits::wbit(upper, p) == upper_bit(offsets, l, p) by {
        assert(bits::wbit(w, 64 * wl + p) == upper_bit(offsets, l, p));
        assert((64 * wl + p) / 64 == wl + p / 64 && (64 * wl + p) % 64 == p % 64);
        assert(upper[p / 64] == m.words[wl + p / 64]);
        assert(m.words[wl + p / 64] == w[wl + p / 64]);
    }
    let c = (i / 256) * 256;
    lemma_nth_value(upper, offsets, l, wu, c, i % 256);
    assert(c + i % 256 == i);
}

/// The low part read is that of value `i`.
proof fn lemma_low_built(offsets: Seq<u64>, u: nat, w: Seq<u64>, m: EfModel, i: int)
    requires
        starts_with(m, offsets, u, w),
        0 <= i < offsets.len(),
    ensures
        eliasfano::low_bits(m.words, i * low_width(offsets.len(), u), low_width(offsets.len(), u)) == offsets[i] as int
            % pow2(low_width(offsets.len(), u)) as int,
{
    let n = offsets.len();
    let l = low_width(n, u);
    let wl = lower_words(n, u) as int;
    let v = offsets[i];
    lemma_pow2_pos(l);
    let b = Seq::new(l, |k: int| bits::wbit(m.words, i * l + k));
    bitwriter::lemma_bits_value_bound(b);
    assert forall|k: int| 0 <= k < l implies #[trigger] bits::nbit(bitwriter::bits_value(b) as int, k) == bits::nbit(
        v as int % pow2(l) as int,
        k,
    ) by {
        bitwriter::lemma_bits_value(b, k);
        bits::lemma_nbit_mod(v as int, l as int, k);
        assert(bits::wbit(w, i * l + k) == bits::nbit(v as int, k));
        let p = i * l + k;
        assert(0 <= p < n * l) by (nonlinear_arith)
            requires
                p == i * l + k,
                0 <= i < n,
                0 <= k < l,
        ;
        assert(p / 64 < wl);
        assert(m.words[p / 64] == w[p / 64]);
    }
    lemma_mod_bound(v as int, pow2(l) as int);
    bits::lemma_nbit_ext(bitwriter::bits_value(b) as int, v as int % pow2(l) as int, l as int);
}

/// The high and the low part make up the value.
proof fn lemma_get_built(offsets: Seq<u64>, u: nat, w: Seq<u64>, m: EfModel, i: int)
    requires
        starts_with(m, offsets, u, w),
        0 <= i < offsets.len(),
    ensures
        eliasfano::ef_get(m, i) == Some(offsets[i]),
{
    let n = offsets.len();
    let l = low_width(n, u);
    let v = offsets[i];
    let d = pow2(l) as int;
    lemma_jump_built(offsets, u, w, m, i);
    lemma_one_built(offsets, u, w, m, i);
    lemma_low_built(offsets, u, w, m, i);
    eliasfano::lemma_floor_log2(u / n);
    lemma_pow2_pos(l);
    assert(u / n <= u) by (nonlinear_arith)
        requires
            n > 0,
    ;
    assert(l < 64);
    let q = v as int / d;
    let high = q as u64;
    let r = v as int % d;
    lemma_fundamental_div_mod(v as int, d);
    lemma_mod_bound(v as int, d);
    lemma_div_pos_is_pos(v as int, d);
    assert(q * d + r == v) by (nonlinear_arith)
        requires
            v == d * q + r,
    ;
    assert(q <= v && q * d <= v) by (nonlinear_arith)
        requires
            q * d + r == v,
            r >= 0,
            q >= 0,
            d >= 1,
    ;
    lemma_u64_shl_is_mul(high, l as u64);
    assert(one_at(offsets, l, i) - i == q);
}

proof fn lemma_distance_range(offsets: Seq<u64>, l: nat, c: int)
    requires
        0 <= c,
        c % 256 == 0,
        jumps_fit(offsets, l),
        forall|a: int, b: int|
            0 <= a < b < offsets.len() ==> #[trigger] one_at(offsets, l, a) < #[trigger] one_at(offsets, l, b),
    ensures
        0 <= jump_distance(offsets, l, c) < 0x1_0000_0000,
{
    if c < offsets.len() {
        let s = (c / 16384) * 16384;
        if s < c {
            assert(one_at(offsets, l, s) < one_at(offsets, l, c));
        }
    }
}

/// Up to about a billion values, every distance fits in the jump table.
pub proof fn law_jumps_fit(offsets: Seq<u64>, u: nat)
    requires
        0 < offsets.len() <= 0x4000_0000,
        monotone(offsets, u),
    ensures
        jumps_fit(offsets, low_width(offsets.len(), u)),
{
    let n = offsets.len();
    let l = low_width(n, u);
    let p = pow2(l) as int;
    lemma_pow2_pos(l);
    lemma_high_bound(n, u);
    assert forall|c: int| 0 <= c < n && c % 256 == 0 implies #[trigger] jump_distance(offsets, l, c) < 0x1_0000_0000 by {
        let b = (c / 16384) * 16384;
        let o = offsets[c] as int;
        assert(offsets[c] < u);
        vstd::arithmetic::div_mod::lemma_div_is_ordered(o, u as int, p);
        vstd::arithmetic::div_mod::lemma_div_pos_is_pos(offsets[b] as int, p);
    }
}

} // verus!
