//! Reader for a serialized Elias-Fano sequence: the monotone array of `.kv` byte offsets
//! stored inside a `.bt` index.
//!
//! The section is: the number of values minus one and the universe (largest value plus
//! one), both big-endian, then 64-bit little-endian words. The words hold the low bits of
//! the values, one after the other; then a bit array with a one for every value, at the
//! place of its high bits plus its index; then a table of where every 256th one is.

use vstd::arithmetic::power2::*;
use vstd::bits::*;
use vstd::prelude::*;

use crate::bits;
use crate::bitwriter;
use crate::bytes;
use crate::bytes::{read_be, read_le};
use crate::error::{Error, FormatError, Result};

verus! {

/// Ones between two entries of the jump table.
pub const EF_Q: u64 = 256;

/// Ones that a block of the jump table covers.
pub const EF_SUPERQ: u64 = 16384;

/// Words in a block of the jump table: a full position, then two 32-bit distances a word.
pub const EF_SUPERQ_SIZE: u64 = 33;

// ------------------------------------------------------------------ counting bits

/// Set bits of `x` at or above bit `b`.
pub open spec fn ones(x: u64, b: int) -> nat
    decreases 64 - b,
{
    if b >= 64 {
        0
    } else {
        (if bits::nbit(x as int, b) { 1nat } else { 0nat }) + ones(x, b + 1)
    }
}

/// The `k`-th set bit of `x` at or above bit `b`, counted from zero.
pub open spec fn nth_bit(x: u64, b: int, k: int) -> int
    decreases 64 - b,
{
    if b >= 64 {
        64
    } else if bits::nbit(x as int, b) {
        if k == 0 { b } else { nth_bit(x, b + 1, k - 1) }
    } else {
        nth_bit(x, b + 1, k)
    }
}

/// The `k`-th set bit of an array at or after bit `from`, counted from zero.
pub open spec fn nth_one(words: Seq<u64>, from: int, k: int) -> Option<int>
    decreases 64 * words.len() - from,
{
    if from >= 64 * words.len() {
        None
    } else if bits::wbit(words, from) {
        if k == 0 { Some(from) } else { nth_one(words, from + 1, k - 1) }
    } else {
        nth_one(words, from + 1, k)
    }
}

proof fn lemma_ones_bound(x: u64, b: int)
    requires
        0 <= b <= 64,
    ensures
        ones(x, b) <= 64 - b,
    decreases 64 - b,
{
    if b < 64 {
        lemma_ones_bound(x, b + 1);
    }
}

/// Clearing the lowest set bit leaves one fewer, and the others where they were.
proof fn lemma_cleared(x: u64, y: u64, low: int, b: int, k: int)
    requires
        0 <= b <= 64,
        0 <= low < 64,
        bits::nbit(x as int, low),
        forall|j: int| 0 <= j < low ==> !bits::nbit(x as int, j),
        forall|j: int| 0 <= j < 64 ==> #[trigger] bits::nbit(y as int, j) == (bits::nbit(x as int, j) && j != low),
    ensures
        ones(x, b) == ones(y, b) + if b <= low { 1nat } else { 0nat },
        b > low ==> nth_bit(x, b, k) == nth_bit(y, b, k),
        b <= low && k > 0 ==> nth_bit(x, b, k) == nth_bit(y, b, k - 1),
        b <= low && k == 0 ==> nth_bit(x, b, k) == low,
    decreases 64 - b,
{
    if b < 64 {
        assert(bits::nbit(y as int, b) == (bits::nbit(x as int, b) && b != low));
        lemma_cleared(x, y, low, b + 1, k);
        if b == low {
            lemma_cleared(x, y, low, b + 1, k - 1);
        } else if b > low && bits::nbit(x as int, b) {
            lemma_cleared(x, y, low, b + 1, k - 1);
        }
    }
}

proof fn lemma_ones_zero(b: int)
    requires
        0 <= b <= 64,
    ensures
        ones(0, b) == 0,
    decreases 64 - b,
{
    if b < 64 {
        bits::lemma_nbit_zero(b);
        lemma_ones_zero(b + 1);
    }
}

/// Number of set bits.
fn count_ones(x: u64) -> (n: u32)
    ensures
        n == ones(x, 0),
{
    let mut y: u64 = x;
    let mut n: u32 = 0;
    proof {
        lemma_ones_bound(x, 0);
    }
    while y != 0
        invariant
            n + ones(y, 0) == ones(x, 0),
            ones(x, 0) <= 64,
        decreases ones(y, 0),
    {
        let z: u64 = y & (y - 1);
        proof {
            bits::lemma_trailing_zeros(y);
            let low = y.trailing_zeros() as u64;
            assert forall|j: int| 0 <= j < 64 implies #[trigger] bits::nbit(z as int, j) == (bits::nbit(y as int, j) && j != low) by {
                bits::lemma_clear_lowest(y, low, j);
            }
            lemma_cleared(y, z, low as int, 0, 0);
        }
        y = z;
        n = n + 1;
    }
    proof {
        lemma_ones_zero(0);
    }
    n
}

/// Index (0-based) of the `k`-th set bit in `x`, by clearing the lowest set bit `k` times.
pub fn select64_fallback(x: u64, k: u32) -> (r: u32)
    requires
        k < ones(x, 0),
    ensures
        r == nth_bit(x, 0, k as int),
        r < 64,
{
    let mut y: u64 = x;
    let mut i: u32 = 0;
    while i < k
        invariant
            i <= k,
            k < ones(x, 0),
            ones(y, 0) + i == ones(x, 0),
            nth_bit(y, 0, k - i) == nth_bit(x, 0, k as int),
        decreases k - i,
    {
        proof {
            if y == 0 {
                lemma_ones_zero(0);
            }
        }
        let z: u64 = y & (y - 1);
        proof {
            bits::lemma_trailing_zeros(y);
            let low = y.trailing_zeros() as u64;
            assert forall|j: int| 0 <= j < 64 implies #[trigger] bits::nbit(z as int, j) == (bits::nbit(y as int, j) && j != low) by {
                bits::lemma_clear_lowest(y, low, j);
            }
            lemma_cleared(y, z, low as int, 0, k - i);
        }
        y = z;
        i = i + 1;
    }
    proof {
        if y == 0 {
            lemma_ones_zero(0);
        }
        bits::lemma_trailing_zeros(y);
        let low = y.trailing_zeros() as u64;
        let z = y & ((y - 1) as u64);
        assert forall|j: int| 0 <= j < 64 implies #[trigger] bits::nbit(z as int, j) == (bits::nbit(y as int, j) && j != low) by {
            bits::lemma_clear_lowest(y, low, j);
        }
        lemma_cleared(y, z, low as int, 0, 0);
    }
    y.trailing_zeros()
}

/// Scanning one word: either the one looked for is in it, or it lies in a later word.
proof fn lemma_scan(words: Seq<u64>, c: int, b: int, k: int)
    requires
        0 <= c < words.len(),
        0 <= b <= 64,
        0 <= k,
    ensures
        nth_one(words, 64 * c + b, k) == if ones(words[c], b) > k {
            Some(64 * c + nth_bit(words[c], b, k))
        } else {
            nth_one(words, 64 * (c + 1), k - ones(words[c], b))
        },
    decreases 64 - b,
{
    if b < 64 {
        assert((64 * c + b) / 64 == c && (64 * c + b) % 64 == b);
        if bits::nbit(words[c] as int, b) {
            if k > 0 {
                lemma_scan(words, c, b + 1, k - 1);
            }
        } else {
            lemma_scan(words, c, b + 1, k);
        }
    }
}

/// Masking off the low bits of a word.
proof fn lemma_masked(x: u64, y: u64, s: int, b: int, k: int)
    requires
        0 <= b <= 64,
        0 <= s < 64,
        forall|j: int| 0 <= j < 64 ==> #[trigger] bits::nbit(y as int, j) == (bits::nbit(x as int, j) && j >= s),
    ensures
        ones(y, b) == ones(x, if b < s { s } else { b }),
        nth_bit(y, b, k) == nth_bit(x, if b < s { s } else { b }, k),
    decreases 64 - b,
{
    if b < 64 {
        assert(bits::nbit(y as int, b) == (bits::nbit(x as int, b) && b >= s));
        lemma_masked(x, y, s, b + 1, k);
        lemma_masked(x, y, s, b + 1, k - 1);
    }
}

// ------------------------------------------------------------------ the section

/// The largest `k` with `2^k <= x`; zero for zero.
pub open spec fn floor_log2(x: nat) -> nat
    decreases x,
{
    if x <= 1 {
        0
    } else {
        1 + floor_log2(x / 2)
    }
}

/// `x / y`, rounded up.
pub open spec fn ceil_div(x: nat, y: nat) -> nat {
    ((x + y - 1) / y as int) as nat
}

/// Width of the low part of a value, for `n` values below `u`.
pub open spec fn low_width(n: nat, u: nat) -> nat {
    floor_log2(u / n)
}

/// Words that hold the low parts.
pub open spec fn lower_words(n: nat, u: nat) -> nat {
    ceil_div(n * low_width(n, u), 64) + 1
}

/// Words that hold the ones.
pub open spec fn upper_words(n: nat, u: nat) -> nat {
    ceil_div(n + u / pow2(low_width(n, u)), 64)
}

/// An Elias-Fano section.
pub struct EfModel {
    /// Number of values.
    pub n: nat,
    /// The universe.
    pub u: nat,
    /// The words, to the end of the file.
    pub words: Seq<u64>,
}

/// The little-endian words from byte `start` to the end of the data.
pub open spec fn words_from(data: Seq<u8>, start: int) -> Seq<u64> {
    Seq::new(
        ((data.len() - start) / 8) as nat,
        |k: int| bytes::le_value(data.subrange(start + 8 * k, start + 8 * k + 8)) as u64,
    )
}

/// The section at `base`: `None` if its header or its bit arrays do not fit.
pub open spec fn parse_ef(data: Seq<u8>, base: int) -> core::result::Result<EfModel, FormatError> {
    if base + 16 > data.len() {
        Err(FormatError::EliasFanoHeader)
    } else {
        let n = bytes::be_value(data.subrange(base, base + 8)) + 1;
        let u = bytes::be_value(data.subrange(base + 8, base + 16));
        if n > u64::MAX || base + 16 + 8 * (lower_words(n, u) + upper_words(n, u)) > data.len() {
            Err(FormatError::EliasFanoData)
        } else {
            Ok(EfModel { n, u, words: words_from(data, base + 16) })
        }
    }
}

/// The number in the `l` bits from bit `start` on.
pub open spec fn low_bits(words: Seq<u64>, start: int, l: nat) -> nat {
    bitwriter::bits_value(Seq::new(l, |k: int| bits::wbit(words, start + k)))
}

/// Where the jump table says to start looking for the one of value `i`.
pub open spec fn jump_start(m: EfModel, i: int) -> Option<int> {
    let block = lower_words(m.n, m.u) + upper_words(m.n, m.u) + (i / 16384) * 33;
    let inside = (i % 16384) / 256;
    let at = block + 1 + inside / 2;
    if at >= m.words.len() {
        None
    } else {
        let half = if inside % 2 == 0 {
            m.words[at] as nat % 0x1_0000_0000
        } else {
            m.words[at] as nat / 0x1_0000_0000
        };
        Some(m.words[block] + half)
    }
}

/// Value `i` of the sequence; `None` if there is none or the tables are damaged.
pub open spec fn ef_get(m: EfModel, i: int) -> Option<u64> {
    let l = low_width(m.n, m.u);
    if i < 0 || i >= m.n {
        None
    } else {
        match jump_start(m, i) {
            None => None,
            Some(from) => match nth_one(m.words.skip(lower_words(m.n, m.u) as int), from, i % 256) {
                None => None,
                Some(p) => if p < i {
                    None
                } else {
                    Some(((((p - i) as u64) << (l as u64)) + low_bits(m.words, i * l, l)) as u64)
                },
            },
        }
    }
}

pub proof fn lemma_floor_log2(x: nat)
    ensures
        x > 0 ==> pow2(floor_log2(x)) <= x < 2 * pow2(floor_log2(x)),
        x < 0x1_0000_0000_0000_0000 ==> floor_log2(x) < 64,
    decreases x,
{
    lemma2_to64();
    bits::lemma_pow2_64();
    if x > 1 {
        lemma_floor_log2(x / 2);
        lemma_pow2_unfold((floor_log2(x / 2) + 1) as nat);
        if x < 0x1_0000_0000_0000_0000 && floor_log2(x) >= 64 {
            if floor_log2(x) > 64 {
                lemma_pow2_strictly_increases(64, floor_log2(x));
            }
        }
    }
}

pub fn log2_floor(x: u64) -> (k: u64)
    ensures
        k == floor_log2(x as nat),
        k < 64,
{
    let mut y: u64 = x;
    let mut k: u64 = 0;
    proof {
        lemma_floor_log2(x as nat);
    }
    while y > 1
        invariant
            k + floor_log2(y as nat) == floor_log2(x as nat),
            floor_log2(x as nat) < 64,
        decreases y,
    {
        y = y / 2;
        k = k + 1;
    }
    k
}

/// A read-only view of an Elias-Fano monotone sequence at a fixed place in a file.
pub struct EliasFano<'a> {
    data: &'a [u8],
    /// Where the words start.
    start: usize,
    n: u64,
    l: u64,
    words_lower: usize,
    words_upper: usize,
    u: Ghost<nat>,
}

impl<'a> EliasFano<'a> {
    #[verifier::type_invariant]
    spec fn inv(self) -> bool {
        &&& self.n > 0
        &&& self.l == low_width(self.n as nat, self.u@)
        &&& self.l < 64
        &&& self.words_lower == lower_words(self.n as nat, self.u@)
        &&& self.words_upper == upper_words(self.n as nat, self.u@)
        &&& self.start + 8 * (self.words_lower + self.words_upper) <= self.data@.len()
    }

    /// The section that is read.
    pub closed spec fn model(&self) -> EfModel {
        EfModel { n: self.n as nat, u: self.u@, words: words_from(self.data@, self.start as int) }
    }

    /// Parse the header located at `base`.
    pub fn open(data: &'a [u8], base: usize) -> (r: Result<EliasFano<'a>>)
        ensures
            match parse_ef(data@, base as int) {
                Ok(m) => r matches Ok(ef) && ef.model() == m,
                Err(e) => r == Err::<EliasFano<'a>, Error>(Error::Format(e)),
            },
    {
        let len: usize = data.len();
        if len < 16 || base > len - 16 {
            return Err(Error::Format(FormatError::EliasFanoHeader));
        }
        let count = read_be(data, base, 8);
        let u = read_be(data, base + 8, 8);
        let room: u128 = ((len - base - 16) / 8) as u128;
        if count == u64::MAX {
            return Err(Error::Format(FormatError::EliasFanoData));
        }
        let n: u64 = count + 1;
        let l: u64 = log2_floor(u / n);
        proof {
            assert(n * l <= u64::MAX * 64) by (nonlinear_arith)
                requires
                    n <= u64::MAX,
                    l < 64,
            ;
            lemma_u64_shr_is_div(u, l);
            assert(n as u128 * l as u128 == n * l);
        }
        let words_lower: u128 = (n as u128 * l as u128 + 63) / 64 + 1;
        let words_upper: u128 = (n as u128 + (u >> l) as u128 + 63) / 64;
        if words_lower + words_upper > room {
            return Err(Error::Format(FormatError::EliasFanoData));
        }
        Ok(
            EliasFano {
                data,
                start: base + 16,
                n,
                l,
                words_lower: words_lower as usize,
                words_upper: words_upper as usize,
                u: Ghost(u as nat),
            },
        )
    }

    /// Number of values in the sequence.
    pub fn len(&self) -> (n: u64)
        ensures
            n == self.model().n,
    {
        self.n
    }

    /// Whether the sequence is empty, which it never is.
    pub fn is_empty(&self) -> (r: bool)
        ensures
            r == (self.model().n == 0),
            !r,
    {
        proof {
            use_type_invariant(self);
        }
        false
    }

    /// Word `idx`, if it lies in the data.
    fn word(&self, idx: u128) -> (r: Option<u64>)
        ensures
            r == if idx < self.model().words.len() { Some(self.model().words[idx as int]) } else { None },
    {
        proof {
            use_type_invariant(self);
        }
        let room: usize = (self.data.len() - self.start) / 8;
        if idx >= room as u128 {
            return None;
        }
        let off: usize = self.start + 8 * idx as usize;
        Some(read_le(self.data, off, 8))
    }

    /// The low part of value `i`.
    fn lower(&self, i: u64) -> (r: u64)
        requires
            i < self.model().n,
        ensures
            r == low_bits(self.model().words, i * low_width(self.model().n, self.model().u), low_width(self.model().n, self.model().u)),
            r < pow2(low_width(self.model().n, self.model().u)),
    {
        proof {
            use_type_invariant(self);
            bits::lemma_pow2_64();
            lemma2_to64();
        }
        let ghost words = self.model().words;
        let ghost l = self.l as int;
        let ghost start = i * l;
        let ghost b = Seq::new(l as nat, |k: int| bits::wbit(words, start + k));
        proof {
            bitwriter::lemma_bits_value_bound(b);
        }
        if self.l == 0 {
            return 0;
        }
        proof {
            assert(0 <= start < self.n * l && self.n * l <= u64::MAX * 64) by (nonlinear_arith)
                requires
                    0 <= i < self.n,
                    self.n <= u64::MAX,
                    0 < l < 64,
                    start == i * l,
            ;
            assert(i as u128 * self.l as u128 == start);
        }
        let bit: u128 = i as u128 * self.l as u128;
        let idx: u128 = bit / 64;
        let shift: u64 = (bit % 64) as u64;
        proof {
            assert(idx + 1 < self.words_lower) by {
                let t = self.n * l;
                assert(self.words_lower == (t + 63) / 64 + 1);
            }
            assert(words.len() == (self.data@.len() - self.start) / 8);
        }
        let first: u64 = match self.word(idx) {
            Some(w) => w,
            None => 0,
        };
        let second: u64 = match self.word(idx + 1) {
            Some(w) => w,
            None => 0,
        };
        let joined: u64 = if shift > 0 { (first >> shift) | (second << (64 - shift)) } else { first };
        let m: u64 = 1u64 << self.l;
        proof {
            bits::lemma_shl_one(self.l);
            lemma_pow2_pos(self.l as nat);
        }
        let r: u64 = joined % m;
        proof {
            assert forall|k: int| 0 <= k < l implies #[trigger] bits::nbit(r as int, k) == bits::nbit(
                bitwriter::bits_value(b) as int,
                k,
            ) by {
                bits::lemma_nbit_mod(joined as int, l, k);
                bitwriter::lemma_bits_value(b, k);
                let p = start + k;
                if shift > 0 {
                    bits::lemma_or(first >> shift, second << ((64 - shift) as u64), k);
                    bits::lemma_shr(first, shift, k);
                    bits::lemma_shl(second, (64 - shift) as u64, k);
                }
                if shift + k < 64 {
                    assert(p / 64 == idx && p % 64 == shift + k);
                } else {
                    assert(p / 64 == idx + 1 && p % 64 == shift + k - 64);
                }
            }
            bits::lemma_nbit_ext(r as int, bitwriter::bits_value(b) as int, l);
        }
        r
    }

    /// Where the jump table says to start looking for the one of value `i`.
    fn jump(&self, i: u64) -> (r: Option<u128>)
        requires
            i < self.model().n,
        ensures
            r is Some == jump_start(self.model(), i as int) is Some,
            r matches Some(from) ==> jump_start(self.model(), i as int) == Some(from as int) && from <= 2 * u64::MAX,
    {
        proof {
            use_type_invariant(self);
        }
        let block: u128 = self.words_lower as u128 + self.words_upper as u128 + (i / EF_SUPERQ) as u128 * 33;
        let inside: u64 = (i % EF_SUPERQ) / EF_Q;
        let at: u128 = block + 1 + (inside / 2) as u128;
        let w: u64 = match self.word(at) {
            Some(w) => w,
            None => return None,
        };
        let base: u64 = match self.word(block) {
            Some(b) => b,
            None => return None,
        };
        let half: u64 = if inside % 2 == 0 { w % 0x1_0000_0000 } else { w / 0x1_0000_0000 };
        Some(base as u128 + half as u128)
    }

    /// The `i`-th value of the monotone sequence (a `.kv` byte offset); `None` if there
    /// is none or the section is damaged.
    pub fn try_get(&self, i: u64) -> (r: Option<u64>)
        ensures
            r == ef_get(self.model(), i as int),
    {
        proof {
            use_type_invariant(self);
        }
        if i >= self.n {
            return None;
        }
        let ghost m = self.model();
        let ghost upper = m.words.skip(self.words_lower as int);
        let ghost k = i % 256;
        let from: u128 = match self.jump(i) {
            Some(f) => f,
            None => return None,
        };
        let lower: u64 = self.lower(i);
        let mut curr: u128 = from / 64;
        let s: u64 = (from % 64) as u64;
        let w0: u64 = match self.word(self.words_lower as u128 + curr) {
            Some(w) => w,
            None => return None,
        };
        let mask: u64 = u64::MAX << s;
        let mut window: u64 = w0 & mask;
        let mut d: u32 = (i % EF_Q) as u32;
        proof {
            assert(self.data@.len() == self.data.len());
            assert(upper[curr as int] == w0);
            assert forall|j: int| 0 <= j < 64 implies #[trigger] bits::nbit(window as int, j) == (bits::nbit(w0 as int, j)
                && j >= s) by {
                bits::lemma_and(w0, mask, j);
                bits::lemma_shl(u64::MAX, s, j);
                if j >= s {
                    lemma_all_ones(j - s);
                }
            }
            lemma_masked(w0, window, s as int, 0, d as int);
            lemma_scan(upper, curr as int, s as int, d as int);
            assert(from == 64 * curr + s);
        }
        let mut n: u32 = count_ones(window);
        while n <= d
            invariant
                m == self.model(),
                i < m.n,
                self.words_lower == lower_words(m.n, m.u),
                upper == m.words.skip(self.words_lower as int),
                self.words_lower <= m.words.len(),
                m.words.len() <= 0x2000_0000_0000_0000,
                jump_start(m, i as int) == Some(from as int),
                curr < upper.len(),
                n == ones(window, 0),
                nth_one(upper, from as int, (i % 256) as int) == if ones(window, 0) > d {
                    Some(64 * curr + nth_bit(window, 0, d as int))
                } else {
                    nth_one(upper, 64 * (curr + 1), d - ones(window, 0))
                },
            decreases upper.len() - curr,
        {
            d = d - n;
            curr = curr + 1;
            window = match self.word(self.words_lower as u128 + curr) {
                Some(w) => w,
                None => return None,
            };
            n = count_ones(window);
            proof {
                assert(upper[curr as int] == window);
                lemma_scan(upper, curr as int, 0, d as int);
            }
        }
        let sel: u32 = select64_fallback(window, d);
        let p: u128 = curr * 64 + sel as u128;
        if p < i as u128 {
            return None;
        }
        let high: u64 = (p - i as u128) as u64;
        let l: u64 = self.l;
        proof {
            bits::lemma_shl_one(l);
            assert((high << l) + lower <= u64::MAX && ((high << l) | lower) == (high << l) + lower) by (bit_vector)
                requires
                    l < 64,
                    lower < (1u64 << l),
            ;
        }
        Some((high << l) | lower)
    }

    /// The `i`-th value of the monotone sequence (a `.kv` byte offset).
    pub fn get(&self, i: u64) -> (r: u64)
        requires
            ef_get(self.model(), i as int) is Some,
        ensures
            ef_get(self.model(), i as int) == Some(r),
    {
        self.try_get(i).unwrap()
    }
}

proof fn lemma_all_ones(i: int)
    requires
        0 <= i < 64,
    ensures
        bits::nbit(u64::MAX as int, i),
{
    let k = i as u64;
    bits::lemma_bit64(u64::MAX, k);
    assert((0xffff_ffff_ffff_ffffu64 >> k) & 1 == 1) by (bit_vector)
        requires
            k < 64,
    ;
}

} // verus!
