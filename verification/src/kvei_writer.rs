//! Writer for `.kvei` existence filters (the bloom layout).
//!
//! A filter with three hash functions, sized `m = ceil(-n * ln(0.01) / ln(2)^2)` bits.
//! Keys are hashed with [`murmur3_x64_128_h1`](crate::hash::murmur3_x64_128_h1) under a
//! caller-supplied salt. For fewer than two keys the filter is empty (match-all) and its
//! file has no bytes.

use vstd::prelude::*;

use crate::bits;
use crate::bloom;
use crate::bytes;
use crate::bytes::push_le;
use crate::double::{lemma_nearest, lemma_quotient, nearest, nearest_double, quotient_double_up, quotient_up};
use crate::ef_builder;
use crate::eliasfano;
use crate::error::{Error, FormatError, Result};
use crate::hash;
use crate::hash::{murmur3_x64_128_h1, rotate_left};
use crate::seg::Seg;
use crate::words;
use crate::words::SegModel;

verus! {

/// The double nearest to `-ln(p)`, where `p` is the double nearest to 0.01, in units of
/// `2^-50`.
pub const MINUS_LN_RATE: u64 = 5184960683398421;

/// The double nearest to the square of that nearest to `ln(2)`, in units of `2^-54`.
pub const LN_2_SQUARED: u64 = 8655072057804174;

/// Bits of a filter for `n` keys at a false-positive rate of one percent, as far as they
/// can be counted in 64 bits: `-n * ln(0.01) / ln(2)^2`, worked out in double precision
/// and rounded up.
pub open spec fn optimal_m_spec(n: u64) -> nat {
    let product = nearest(nearest(n as nat) * MINUS_LN_RATE as nat);
    let m = quotient_up(16 * product, LN_2_SQUARED as nat);
    if m > u64::MAX { u64::MAX as nat } else { m }
}

pub fn optimal_m(n: u64) -> (m: u64)
    ensures
        m == optimal_m_spec(n),
{
    let a: u128 = nearest_double(n as u128);
    proof {
        lemma_nearest(n as nat);
        assert(a * MINUS_LN_RATE <= 0x1_0010_0000_0000_0000 * MINUS_LN_RATE) by (nonlinear_arith)
            requires
                0 <= a <= 0x1_0010_0000_0000_0000,
        ;
    }
    let exact: u128 = a * MINUS_LN_RATE as u128;
    proof {
        lemma_nearest(exact as nat);
    }
    let product: u128 = nearest_double(exact);
    let m: u128 = quotient_double_up(16 * product, LN_2_SQUARED as u128);
    if m > u64::MAX as u128 { u64::MAX } else { m as u64 }
}

/// The state of the key generator after one more step.
pub open spec fn mixed_state(state: u64) -> u64 {
    state.wrapping_add(0x9E37_79B9_7F4A_7C15)
}

/// What the key generator makes of a state.
pub open spec fn mixed(state: u64) -> u64 {
    let a = (state ^ (state >> 30)).wrapping_mul(0xBF58_476D_1CE4_E5B9);
    let b = (a ^ (a >> 27)).wrapping_mul(0x94D0_49BB_1331_11EB);
    b ^ (b >> 31)
}

/// splitmix64, to derive the filter's keys deterministically.
fn splitmix64(state: &mut u64) -> (r: u64)
    ensures
        *final(state) == mixed_state(*old(state)),
        r == mixed(mixed_state(*old(state))),
{
    *state = (*state).wrapping_add(0x9E37_79B9_7F4A_7C15);
    let z: u64 = *state;
    let a: u64 = (z ^ (z >> 30)).wrapping_mul(0xBF58_476D_1CE4_E5B9);
    let b: u64 = (a ^ (a >> 27)).wrapping_mul(0x94D0_49BB_1331_11EB);
    b ^ (b >> 31)
}

/// The keys of a filter for `n` keys. Their values only need to be reproducible, not
/// secret: every added key is recorded, so there are never false negatives.
pub open spec fn filter_keys(n: u64) -> Seq<u64> {
    let s = mixed_state(0x1234_5678_9ABC_DEF0u64 ^ n);
    seq![mixed(s), mixed(mixed_state(s)), mixed(mixed_state(mixed_state(s)))]
}

/// Bits of a filter for `n` keys.
pub open spec fn filter_m(n: u64) -> u64 {
    if optimal_m_spec(n) > 2 { optimal_m_spec(n) as u64 } else { 2 }
}

/// Length of a filter file for `n` keys, if there are two or more.
pub open spec fn filter_len(n: u64) -> nat {
    108 + 8 * eliasfano::ceil_div(filter_m(n) as nat, 64)
}

/// A filter for `n` keys can be made: it is no longer than the longest vector of the
/// machine.
pub open spec fn filter_fits(n: u64) -> bool {
    n < 2 || filter_len(n) <= isize::MAX
}

/// A filter takes little more than a byte for a key.
pub proof fn lemma_filter_len(n: u64)
    requires
        n <= 0x1_0000_0000,
    ensures
        filter_m(n) <= 10 * n + 2,
        filter_len(n) <= 10 * n / 8 + 120,
{
    vstd::arithmetic::power2::lemma2_to64_rest();
    let product = nearest(n as nat * MINUS_LN_RATE as nat);
    lemma_nearest(n as nat * MINUS_LN_RATE as nat);
    assert(product <= n * 5184960683398423);
    lemma_quotient(16 * product, LN_2_SQUARED as nat);
}

/// A machine that can hold 24 bytes for each key can hold a filter for the keys.
pub proof fn lemma_filter_small(n: u64)
    requires
        24 * n + 1000 <= isize::MAX,
    ensures
        filter_fits(n),
{
    if n <= 0x1_0000_0000 {
        lemma_filter_len(n);
    }
}

/// Bit `p` belongs to one of `hashes`.
pub open spec fn touched(keys: Seq<u64>, m: u64, hashes: Seq<u64>, p: int) -> bool {
    exists|i: int, j: nat|
        0 <= i < hashes.len() && j < 3 && #[trigger] bloom::probe(keys, hashes[i], j) % m == p
}

/// The bit array holds exactly the bits of `hashes`.
pub open spec fn is_bloom(keys: Seq<u64>, m: u64, hashes: Seq<u64>, b: Seq<u64>) -> bool {
    &&& b.len() == eliasfano::ceil_div(m as nat, 64)
    &&& forall|p: int| 0 <= p < 64 * b.len() ==> #[trigger] bits::wbit(b, p) == touched(keys, m, hashes, p)
}

/// The file with bit array `b` for `n` keys.
pub open spec fn kvei_file(n: u64, b: Seq<u64>) -> Seq<u8> {
    let keys = filter_keys(n);
    bloom::bloom_magic() + bytes::le_bytes(3, 8) + bytes::le_bytes(n as nat, 8) + bytes::le_bytes(filter_m(n) as nat, 8)
        + bytes::le_bytes(keys[0] as nat, 8) + bytes::le_bytes(keys[1] as nat, 8) + bytes::le_bytes(keys[2] as nat, 8)
        + ef_builder::words_bytes(b, b.len()) + words::zeros(48)
}

/// `out` is the filter file for `n` keys to which `hashes` were added.
pub open spec fn is_kvei(n: u64, hashes: Seq<u64>, out: Seq<u8>) -> bool {
    if n < 2 {
        out.len() == 0
    } else {
        exists|b: Seq<u64>| #[trigger]
            is_bloom(filter_keys(n), filter_m(n), hashes, b) && out == kvei_file(n, b)
    }
}

/// Accumulates set bits for a `.kvei` bloom filter.
pub struct KveiBuilder {
    k0: u64,
    k1: u64,
    k2: u64,
    m: u64,
    n: u64,
    bits: Vec<u64>,
    added: Ghost<Seq<u64>>,
}

impl KveiBuilder {
    #[verifier::type_invariant]
    spec fn inv(self) -> bool {
        self.n >= 2 ==> {
            &&& seq![self.k0, self.k1, self.k2] == filter_keys(self.n)
            &&& self.m == filter_m(self.n)
            &&& is_bloom(filter_keys(self.n), self.m, self.added@, self.bits@)
        }
    }

    /// Number of keys that the filter is sized for.
    pub closed spec fn sized_for(&self) -> u64 {
        self.n
    }

    /// The hashes added so far.
    pub closed spec fn hashes(&self) -> Seq<u64> {
        self.added@
    }

    /// Whether a filter for `key_count` keys can be made on this machine.
    pub fn fits(key_count: u64) -> (r: bool)
        ensures
            r == filter_fits(key_count),
    {
        let best: u64 = optimal_m(key_count);
        let m: u64 = if best > 2 { best } else { 2 };
        let nwords: u64 = if m % 64 == 0 { m / 64 } else { m / 64 + 1 };
        key_count < 2 || 108 + 8 * nwords as u128 <= isize::MAX as u128
    }

    /// Create a builder sized for `key_count` keys. With fewer than two keys the filter is
    /// empty (match-all) and serializes to no bytes.
    pub fn new(key_count: u64) -> (b: KveiBuilder)
        requires
            filter_fits(key_count),
        ensures
            b.sized_for() == key_count,
            b.hashes() == Seq::<u64>::empty(),
    {
        if key_count < 2 {
            return KveiBuilder {
                k0: 0,
                k1: 0,
                k2: 0,
                m: 0,
                n: key_count,
                bits: Vec::new(),
                added: Ghost(Seq::empty()),
            };
        }
        let best: u64 = optimal_m(key_count);
        let m: u64 = if best > 2 { best } else { 2 };
        let mut seed: u64 = 0x1234_5678_9ABC_DEF0u64 ^ key_count;
        let k0: u64 = splitmix64(&mut seed);
        let k1: u64 = splitmix64(&mut seed);
        let k2: u64 = splitmix64(&mut seed);
        let nwords: u64 = if m % 64 == 0 { m / 64 } else { m / 64 + 1 };
        let data: Vec<u64> = vec![0u64; nwords as usize];
        proof {
            assert(seq![k0, k1, k2] =~= filter_keys(key_count));
            assert forall|p: int| 0 <= p < 64 * data@.len() implies #[trigger] bits::wbit(data@, p) == touched(
                filter_keys(key_count),
                m,
                Seq::empty(),
                p,
            ) by {
                assert(data@[p / 64] == 0);
                bits::lemma_nbit_zero(p % 64);
            }
        }
        KveiBuilder { k0, k1, k2, m, n: key_count, bits: data, added: Ghost(Seq::empty()) }
    }

    /// Add a pre-hashed key (murmur3).
    pub fn add_hash(&mut self, hash: u64)
        ensures
            final(self).sized_for() == old(self).sized_for(),
            final(self).hashes() == old(self).hashes().push(hash),
    {
        proof {
            use_type_invariant(&*self);
        }
        let ghost before = self.added@;
        let ghost after = before.push(hash);
        if self.n < 2 {
            self.added = Ghost(after);
            return;
        }
        let (k0, k1, k2, m, n) = (self.k0, self.k1, self.k2, self.m, self.n);
        let mut fresh = KveiBuilder { k0: 0, k1: 0, k2: 0, m: 0, n: 0, bits: Vec::new(), added: Ghost(Seq::empty()) };
        std::mem::swap(&mut fresh, self);
        let mut data = take_bits(fresh);
        let ghost keys = filter_keys(n);
        let ghost b0 = data@;
        let h0: u64 = rotate_left(hash, 17) ^ k0;
        let h1: u64 = rotate_left(h0, 17) ^ k1;
        let h2: u64 = rotate_left(h1, 17) ^ k2;
        set_bit(&mut data, h0 % m);
        set_bit(&mut data, h1 % m);
        set_bit(&mut data, h2 % m);
        proof {
            reveal_with_fuel(bloom::probe, 4);
            assert(keys[0] == k0 && keys[1] == k1 && keys[2] == k2) by {
                let s = seq![k0, k1, k2];
                assert(s[0] == k0 && s[1] == k1 && s[2] == k2);
            }
            assert(bloom::probe(keys, hash, 0) == h0);
            assert(bloom::probe(keys, hash, 1) == h1);
            assert(bloom::probe(keys, hash, 2) == h2);
            assert forall|p: int| 0 <= p < 64 * data@.len() implies #[trigger] bits::wbit(data@, p) == touched(
                keys,
                m,
                after,
                p,
            ) by {
                assert(bits::wbit(b0, p) == touched(keys, m, before, p));
                lemma_touched_push(keys, m, before, hash, p);
            }
        }
        *self = KveiBuilder { k0, k1, k2, m, n, bits: data, added: Ghost(after) };
    }

    /// Add a key, hashing it with the given salt.
    pub fn add_key(&mut self, key: &[u8], salt: u32)
        ensures
            final(self).sized_for() == old(self).sized_for(),
            final(self).hashes() == old(self).hashes().push(hash::murmur3(key@, salt)),
    {
        self.add_hash(murmur3_x64_128_h1(key, salt));
    }

    /// Serialize the filter.
    pub fn finish(self) -> (out: Vec<u8>)
        ensures
            is_kvei(self.sized_for(), self.hashes(), out@),
    {
        proof {
            use_type_invariant(&self);
        }
        let mut out: Vec<u8> = Vec::new();
        if self.n < 2 {
            return out;
        }
        let ghost keys = filter_keys(self.n);
        proof {
            let s = seq![self.k0, self.k1, self.k2];
            assert(s[0] == keys[0] && s[1] == keys[1] && s[2] == keys[2]);
        }
        push_magic(&mut out);
        push_le(&mut out, 3, 8);
        push_le(&mut out, self.n, 8);
        push_le(&mut out, self.m, 8);
        push_le(&mut out, self.k0, 8);
        push_le(&mut out, self.k1, 8);
        push_le(&mut out, self.k2, 8);
        let ghost head = out@;
        let mut i: usize = 0;
        proof {
            assert(out@ =~= head + ef_builder::words_bytes(self.bits@, 0));
        }
        while i < self.bits.len()
            invariant
                i <= self.bits.len(),
                out@ == head + ef_builder::words_bytes(self.bits@, i as nat),
            decreases self.bits.len() - i,
        {
            let ghost o = out@;
            push_le(&mut out, self.bits[i], 8);
            proof {
                assert(out@ =~= head + ef_builder::words_bytes(self.bits@, (i + 1) as nat));
            }
            i = i + 1;
        }
        // 48-byte trailer: the slot of a checksum that no reader verifies.
        let ghost body = out@;
        let mut j: usize = 0;
        while j < 48
            invariant
                j <= 48,
                out@ =~= body + words::zeros(j as nat),
            decreases 48 - j,
        {
            out.push(0);
            j = j + 1;
        }
        proof {
            assert(out@ =~= kvei_file(self.n, self.bits@));
        }
        out
    }
}

fn take_bits(b: KveiBuilder) -> (v: Vec<u64>)
    ensures
        v@ == b.bits@,
{
    b.bits
}

fn push_magic(out: &mut Vec<u8>)
    ensures
        final(out)@ == old(out)@ + bloom::bloom_magic(),
{
    let ghost before = out@;
    let mut i: usize = 0;
    while i < 8
        invariant
            i <= 8,
            out@ =~= before + words::zeros(i as nat),
        decreases 8 - i,
    {
        out.push(0);
        i = i + 1;
    }
    out.push(118);
    out.push(48);
    out.push(50);
    out.push(10);
    proof {
        assert(out@ =~= before + bloom::bloom_magic());
    }
}

fn set_bit(data: &mut Vec<u64>, i: u64)
    requires
        i < 64 * old(data)@.len(),
    ensures
        final(data)@.len() == old(data)@.len(),
        forall|p: int| 0 <= p ==> #[trigger] bits::wbit(final(data)@, p) == (bits::wbit(old(data)@, p) || p == i),
{
    let ghost before = data@;
    proof {
        assert(data@.len() == data.len());
    }
    let k: usize = (i / 64) as usize;
    let b: u64 = i % 64;
    let v: u64 = data[k] | (1u64 << b);
    data.set(k, v);
    proof {
        assert forall|p: int| 0 <= p implies #[trigger] bits::wbit(data@, p) == (bits::wbit(before, p) || p == i) by {
            if p / 64 == k {
                bits::lemma_or_bit(before[k as int], b, p % 64);
            }
        }
    }
}

proof fn lemma_touched_push(keys: Seq<u64>, m: u64, before: Seq<u64>, h: u64, p: int)
    ensures
        touched(keys, m, before.push(h), p) == (touched(keys, m, before, p) || bloom::probe(keys, h, 0) % m == p
            || bloom::probe(keys, h, 1) % m == p || bloom::probe(keys, h, 2) % m == p),
{
    let after = before.push(h);
    let n = before.len() as int;
    if touched(keys, m, before, p) {
        let (i, j) = choose|i: int, j: nat|
            0 <= i < before.len() && j < 3 && #[trigger] bloom::probe(keys, before[i], j) % m == p;
        assert(after[i] == before[i]);
        assert(bloom::probe(keys, after[i], j) % m == p);
    }
    if bloom::probe(keys, h, 0) % m == p {
        assert(bloom::probe(keys, after[n], 0) % m == p);
    }
    if bloom::probe(keys, h, 1) % m == p {
        assert(bloom::probe(keys, after[n], 1) % m == p);
    }
    if bloom::probe(keys, h, 2) % m == p {
        assert(bloom::probe(keys, after[n], 2) % m == p);
    }
    if touched(keys, m, after, p) {
        let (i, j) = choose|i: int, j: nat|
            0 <= i < after.len() && j < 3 && #[trigger] bloom::probe(keys, after[i], j) % m == p;
        if i < n {
            assert(bloom::probe(keys, before[i], j) % m == p);
        } else {
            assert(j == 0 || j == 1 || j == 2);
        }
    }
}

/// A filter never reports a key that was added as absent: opening the written file and
/// asking for any hash that went into it gives yes.
pub proof fn law_no_false_negatives(n: u64, hashes: Seq<u64>, out: Seq<u8>, i: int)
    requires
        is_kvei(n, hashes, out),
        0 <= i < hashes.len(),
    ensures
        bloom::filter_contains(bloom::parse_filter(out), hashes[i]),
        n >= 2 ==> bloom::parse_filter(out) is Bloom,
        n < 2 ==> bloom::parse_filter(out) is Empty,
{
    if n >= 2 {
        let keys = filter_keys(n);
        let m = filter_m(n);
        let b = choose|b: Seq<u64>| #[trigger] is_bloom(keys, m, hashes, b) && out == kvei_file(n, b);
        let head = bloom::bloom_magic() + bytes::le_bytes(3, 8) + bytes::le_bytes(n as nat, 8) + bytes::le_bytes(m as nat, 8)
            + bytes::le_bytes(keys[0] as nat, 8) + bytes::le_bytes(keys[1] as nat, 8) + bytes::le_bytes(keys[2] as nat, 8);
        let wb = ef_builder::words_bytes(b, b.len());
        bits::lemma_pow2_64();
        ef_builder::lemma_words_bytes(b, b.len());
        ef_builder::lemma_words_from(head, b, words::zeros(48));
        assert(out == head + wb + words::zeros(48));
        assert(head.len() == 60);
        assert(out.subrange(0, 12) =~= bloom::bloom_magic());
        assert(out.subrange(12, 20) =~= bytes::le_bytes(3, 8));
        assert(out.subrange(28, 36) =~= bytes::le_bytes(m as nat, 8));
        assert(out.subrange(36, 44) =~= bytes::le_bytes(keys[0] as nat, 8));
        assert(out.subrange(44, 52) =~= bytes::le_bytes(keys[1] as nat, 8));
        assert(out.subrange(52, 60) =~= bytes::le_bytes(keys[2] as nat, 8));
        bytes::lemma_le_roundtrip(3, 8);
        bytes::lemma_le_roundtrip(m as nat, 8);
        bytes::lemma_le_roundtrip(keys[0] as nat, 8);
        bytes::lemma_le_roundtrip(keys[1] as nat, 8);
        bytes::lemma_le_roundtrip(keys[2] as nat, 8);
        assert(seq![keys[0], keys[1], keys[2]] =~= keys);
        let f = eliasfano::words_from(out, 60);
        let h = hashes[i];
        assert forall|j: nat| j < 3 implies bits::wbit(f, (#[trigger] bloom::probe(keys, h, j) % m) as int) by {
            let p = (bloom::probe(keys, h, j) % m) as int;
            assert(touched(keys, m, hashes, p)) by {
                assert(bloom::probe(keys, hashes[i], j) % m == p);
            }
            assert(0 <= p < m);
            assert(bits::wbit(b, p) == touched(keys, m, hashes, p));
            assert(f[p / 64] == b[p / 64]);
        }
    }
}

// ------------------------------------------------------------------ from a `.kv`

/// The first `n` keys of a `.kv` of alternating keys and values, and where the next pair
/// starts.
pub open spec fn pair_keys(m: SegModel, n: nat) -> Option<(Seq<Seq<u8>>, int)>
    decreases n,
{
    if n == 0 {
        Some((Seq::empty(), 0))
    } else {
        match pair_keys(m, (n - 1) as nat) {
            None => None,
            Some((keys, at)) => match words::decode_word(m, at) {
                None => None,
                Some((key, value_at)) => match words::skip_word(m, value_at) {
                    None => None,
                    Some((_, next)) => Some((keys.push(key), next)),
                },
            },
        }
    }
}

/// The hashes of some keys.
pub open spec fn hashes_of(keys: Seq<Seq<u8>>, salt: u32) -> Seq<u64> {
    Seq::new(keys.len(), |i: int| hash::murmur3(keys[i], salt))
}

/// What building a filter for a `.kv` with these contents gives.
pub open spec fn kvei_result(m: SegModel, salt: u32, r: Result<Vec<u8>>) -> bool {
    let n = m.words_count / 2;
    if !filter_fits(n) {
        r == Err::<Vec<u8>, Error>(Error::Format(FormatError::TooLarge))
    } else {
        match pair_keys(m, n as nat) {
            None => r == Err::<Vec<u8>, Error>(Error::Format(FormatError::BadWord)),
            Some((keys, _)) => r matches Ok(out) && is_kvei(n, hashes_of(keys, salt), out@),
        }
    }
}

proof fn lemma_pairs_stuck(m: SegModel, k: nat, n: nat)
    requires
        k <= n,
        pair_keys(m, k) is None,
    ensures
        pair_keys(m, n) is None,
    decreases n,
{
    if k < n {
        lemma_pairs_stuck(m, k, (n - 1) as nat);
    }
}

/// Whether the first `key_count` keys of a `.kv` can be read.
fn keys_readable(seg: &Seg, key_count: u64) -> (r: bool)
    ensures
        r == pair_keys(seg.model(), key_count as nat) is Some,
{
    let ghost m = seg.model();
    let mut g = seg.getter();
    let mut i: u64 = 0;
    while i < key_count
        invariant
            i <= key_count,
            m == seg.model(),
            g.model() == m,
            pair_keys(m, i as nat) matches Some((_, at)) && at == g.at(),
        decreases key_count - i,
    {
        proof {
            if pair_keys(m, (i + 1) as nat) is None {
                lemma_pairs_stuck(m, (i + 1) as nat, key_count as nat);
            }
        }
        match g.try_next() {
            Some(_) => {},
            None => return false,
        }
        match g.try_skip() {
            Some(_) => {},
            None => return false,
        }
        i = i + 1;
    }
    true
}

/// Build a `.kvei` for every key in a `.kv`, hashing with `salt`: the bytes of the filter.
pub fn build_kvei_from_seg(seg: &Seg, salt: u32) -> (r: Result<Vec<u8>>)
    ensures
        kvei_result(seg.model(), salt, r),
{
    let ghost m = seg.model();
    let key_count: u64 = seg.words_count() / 2;
    if !KveiBuilder::fits(key_count) {
        return Err(Error::Format(FormatError::TooLarge));
    }
    // More keys than bytes: see whether they are there before making room for them.
    if key_count > seg.len() as u64 && !keys_readable(seg, key_count) {
        return Err(Error::Format(FormatError::BadWord));
    }
    let mut b = KveiBuilder::new(key_count);
    let mut g = seg.getter();
    let ghost mut keys: Seq<Seq<u8>> = Seq::empty();
    let mut i: u64 = 0;
    proof {
        assert(b.hashes() =~= hashes_of(keys, salt));
    }
    while i < key_count
        invariant
            i <= key_count,
            m == seg.model(),
            key_count == m.words_count / 2,
            filter_fits(key_count),
            g.model() == m,
            pair_keys(m, i as nat) == Some((keys, g.at() as int)),
            b.sized_for() == key_count,
            b.hashes() == hashes_of(keys, salt),
        decreases key_count - i,
    {
        proof {
            if pair_keys(m, (i + 1) as nat) is None {
                lemma_pairs_stuck(m, (i + 1) as nat, key_count as nat);
            }
        }
        let key: Vec<u8> = match g.try_next() {
            Some(k) => k,
            None => return Err(Error::Format(FormatError::BadWord)),
        };
        match g.try_skip() {
            Some(_) => {},
            None => return Err(Error::Format(FormatError::BadWord)),
        }
        b.add_key(key.as_slice(), salt);
        proof {
            keys = keys.push(key@);
            assert(b.hashes() =~= hashes_of(keys, salt));
        }
        i = i + 1;
    }
    Ok(b.finish())
}

/// Build a `.kvei` for the bytes of a `.kv`, hashing with `salt`.
pub fn build_kvei(kv: &[u8], salt: u32) -> (r: Result<Vec<u8>>)
    ensures
        match words::parse_seg(kv@, false) {
            Some(m) => kvei_result(m, salt, r),
            None => r == Err::<Vec<u8>, Error>(Error::Format(FormatError::InvalidKv)),
        },
{
    match Seg::open(kv) {
        Ok(seg) => build_kvei_from_seg(&seg, salt),
        Err(e) => Err(e),
    }
}

} // verus!
