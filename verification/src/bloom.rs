//! Reader for a `.kvei` existence filter: a *negative* lookup accelerator.
//!
//! `contains_hash(h)` being `false` means that the key is **definitely absent**; `true`
//! means "probably present" (a small false-positive rate). It never reports a real key as
//! absent, so a `false` lets a point lookup skip the `.bt` search entirely.
//!
//! Two `.kvei` encodings exist in the wild:
//!
//! * the bloom layout (magic = 8 zero bytes then `v02\n`), a filter with three hash
//!   functions, each a rotation by 17 and an exclusive or with a key of its own;
//! * a newer "fuse filter" layout (no bloom magic), detected but not decoded. It is taken
//!   to match everything, which keeps lookups correct (just unaccelerated).

use vstd::prelude::*;

use crate::bits;
use crate::bytes;
use crate::bytes::read_le;
use crate::eliasfano;
use crate::hash;
use crate::hash::rotate_left;

verus! {

/// Byte offset of the bit array: magic(12) + k(8) + n(8) + m(8) + keys(24).
pub const BLOOM_BITS_OFFSET: usize = 60;

/// Header magic of the bloom layout: 8 zero bytes followed by `v02\n`.
pub open spec fn bloom_magic() -> Seq<u8> {
    seq![0u8, 0u8, 0u8, 0u8, 0u8, 0u8, 0u8, 0u8, 118u8, 48u8, 50u8, 10u8]
}

/// What kind of filter a `.kvei` turned out to be.
#[derive(Debug, Clone, Copy, PartialEq, Eq, Structural)]
#[non_exhaustive]
pub enum FilterKind {
    /// An empty (0-byte) filter: matches every key.
    Empty,
    /// A supported bloom filter.
    Bloom,
    /// A recognized-but-unsupported encoding (e.g. fuse filter): treated as match-all.
    Unsupported,
}

/// The contents of a filter.
pub enum FilterModel {
    Empty,
    Bloom { keys: Seq<u64>, m: u64, bits: Seq<u64> },
    Unsupported,
}

/// The hash that function `j` of a filter makes of a key's hash: the functions work one
/// after the other.
pub open spec fn probe(keys: Seq<u64>, h: u64, j: nat) -> u64
    decreases j,
{
    let before = if j == 0 { h } else { probe(keys, h, (j - 1) as nat) };
    hash::rotl(before, 17) ^ keys[j as int]
}

/// All three bits of a key are set.
pub open spec fn bloom_contains(keys: Seq<u64>, m: u64, b: Seq<u64>, h: u64) -> bool {
    forall|j: nat| j < 3 ==> bits::wbit(b, (#[trigger] probe(keys, h, j) % m) as int)
}

/// What a filter says about a key's hash.
pub open spec fn filter_contains(f: FilterModel, h: u64) -> bool {
    match f {
        FilterModel::Bloom { keys, m, bits } => bloom_contains(keys, m, bits, h),
        _ => true,
    }
}

pub open spec fn filter_kind(f: FilterModel) -> FilterKind {
    match f {
        FilterModel::Empty => FilterKind::Empty,
        FilterModel::Bloom { .. } => FilterKind::Bloom,
        FilterModel::Unsupported => FilterKind::Unsupported,
    }
}

/// The little-endian word at byte `off`.
pub open spec fn word_at(d: Seq<u8>, off: int) -> u64 {
    bytes::le_value(d.subrange(off, off + 8)) as u64
}

/// The contents of a `.kvei` file.
pub open spec fn parse_filter(d: Seq<u8>) -> FilterModel {
    if d.len() == 0 {
        FilterModel::Empty
    } else if d.len() >= BLOOM_BITS_OFFSET && d.subrange(0, 12) == bloom_magic() && word_at(d, 12) == 3 && word_at(d, 28) >= 2
        && BLOOM_BITS_OFFSET + 8 * eliasfano::ceil_div(word_at(d, 28) as nat, 64) <= d.len() {
        FilterModel::Bloom {
            keys: seq![word_at(d, 36), word_at(d, 44), word_at(d, 52)],
            m: word_at(d, 28),
            bits: eliasfano::words_from(d, 60),
        }
    } else {
        FilterModel::Unsupported
    }
}

#[derive(Clone, Copy)]
enum Inner {
    Empty,
    Bloom { k0: u64, k1: u64, k2: u64, m: u64 },
    Unsupported,
}

/// A `.kvei` existence filter.
pub struct ExistenceFilter<'a> {
    data: &'a [u8],
    inner: Inner,
}

impl<'a> ExistenceFilter<'a> {
    #[verifier::type_invariant]
    spec fn inv(self) -> bool {
        self.inner matches Inner::Bloom { k0, k1, k2, m } ==> m >= 2 && BLOOM_BITS_OFFSET + 8 * eliasfano::ceil_div(
            m as nat,
            64,
        ) <= self.data@.len()
    }

    /// The contents of the filter.
    pub closed spec fn model(&self) -> FilterModel {
        match self.inner {
            Inner::Empty => FilterModel::Empty,
            Inner::Bloom { k0, k1, k2, m } => FilterModel::Bloom {
                keys: seq![k0, k1, k2],
                m,
                bits: eliasfano::words_from(self.data@, 60),
            },
            Inner::Unsupported => FilterModel::Unsupported,
        }
    }

    /// Size of the file.
    pub closed spec fn file_size(&self) -> nat {
        self.data@.len()
    }

    /// Open and parse a `.kvei` file.
    ///
    /// Unknown encodings open successfully as [`FilterKind::Unsupported`] (match-all)
    /// rather than failing, so a reader can fall back to the exact `.bt` search without
    /// special-casing the filter format.
    pub fn open(data: &'a [u8]) -> (f: ExistenceFilter<'a>)
        ensures
            f.model() == parse_filter(data@),
            f.file_size() == data@.len(),
    {
        let inner = parse(data);
        ExistenceFilter { data, inner }
    }

    /// Which encoding this filter turned out to be.
    pub fn kind(&self) -> (k: FilterKind)
        ensures
            k == filter_kind(self.model()),
    {
        match self.inner {
            Inner::Empty => FilterKind::Empty,
            Inner::Bloom { .. } => FilterKind::Bloom,
            Inner::Unsupported => FilterKind::Unsupported,
        }
    }

    /// Whether this filter can actually exclude keys (i.e. is a supported bloom). When
    /// `false`, [`contains_hash`](Self::contains_hash) is always `true`.
    pub fn is_accelerating(&self) -> (r: bool)
        ensures
            r == (self.model() is Bloom),
    {
        matches!(self.inner, Inner::Bloom { .. })
    }

    /// Bytes that this `.kvei` occupies.
    pub fn mapped_bytes(&self) -> (n: u64)
        ensures
            n == self.file_size(),
    {
        self.data.len() as u64
    }

    fn bit(&self, i: u64) -> (r: bool)
        requires
            60 + 8 * (i / 64) + 8 <= self.data@.len(),
        ensures
            r == bits::wbit(eliasfano::words_from(self.data@, 60), i as int),
    {
        proof {
            assert(self.data@.len() == self.data.len());
        }
        let off: usize = BLOOM_BITS_OFFSET + 8 * (i / 64) as usize;
        let w = read_le(self.data, off, 8);
        let b: u64 = i % 64;
        proof {
            bits::lemma_bit64(w, b);
        }
        (w >> b) & 1 == 1
    }

    /// `false` means that the key is definitely absent. `hash` is the murmur3 hash of the
    /// key (see [`crate::hash::murmur3_x64_128_h1`]). Always `true` for an empty or
    /// unsupported filter.
    pub fn contains_hash(&self, hash: u64) -> (r: bool)
        ensures
            r == filter_contains(self.model(), hash),
    {
        proof {
            use_type_invariant(self);
        }
        match self.inner {
            Inner::Bloom { k0, k1, k2, m } => {
                let ghost keys = seq![k0, k1, k2];
                let ghost b = eliasfano::words_from(self.data@, 60);
                let h0: u64 = rotate_left(hash, 17) ^ k0;
                let h1: u64 = rotate_left(h0, 17) ^ k1;
                let h2: u64 = rotate_left(h1, 17) ^ k2;
                proof {
                    reveal_with_fuel(probe, 4);
                    assert(probe(keys, hash, 0) == h0);
                    assert(probe(keys, hash, 1) == h1);
                    assert(probe(keys, hash, 2) == h2);
                    lemma_bit_fits(h0 % m, m);
                    lemma_bit_fits(h1 % m, m);
                    lemma_bit_fits(h2 % m, m);
                }
                let r: bool = self.bit(h0 % m) && self.bit(h1 % m) && self.bit(h2 % m);
                proof {
                    if r {
                        assert forall|j: nat| j < 3 implies bits::wbit(b, (#[trigger] probe(keys, hash, j) % m) as int) by {
                            assert(j == 0 || j == 1 || j == 2);
                        }
                    } else if bloom_contains(keys, m, b, hash) {
                        assert(bits::wbit(b, (probe(keys, hash, 0) % m) as int));
                        assert(bits::wbit(b, (probe(keys, hash, 1) % m) as int));
                        assert(bits::wbit(b, (probe(keys, hash, 2) % m) as int));
                    }
                }
                r
            },
            Inner::Empty => true,
            Inner::Unsupported => true,
        }
    }
}

proof fn lemma_bit_fits(i: u64, m: u64)
    requires
        i < m,
    ensures
        8 * (i / 64) + 8 <= 8 * eliasfano::ceil_div(m as nat, 64),
{
}

fn has_bloom_magic(d: &[u8]) -> (r: bool)
    requires
        d@.len() >= 12,
    ensures
        r == (d@.subrange(0, 12) == bloom_magic()),
{
    let r: bool = d[0] == 0 && d[1] == 0 && d[2] == 0 && d[3] == 0 && d[4] == 0 && d[5] == 0 && d[6] == 0 && d[7] == 0
        && d[8] == 118 && d[9] == 48 && d[10] == 50 && d[11] == 10;
    proof {
        let t = d@.subrange(0, 12);
        if r {
            assert(t =~= bloom_magic());
        } else if t == bloom_magic() {
            assert(t[0] == 0 && t[1] == 0 && t[2] == 0 && t[3] == 0 && t[4] == 0 && t[5] == 0);
            assert(t[6] == 0 && t[7] == 0 && t[8] == 118 && t[9] == 48 && t[10] == 50 && t[11] == 10);
        }
    }
    r
}

fn parse(d: &[u8]) -> (r: Inner)
    ensures
        (ExistenceFilter { data: d, inner: r }).model() == parse_filter(d@),
        r matches Inner::Bloom { k0, k1, k2, m } ==> m >= 2 && BLOOM_BITS_OFFSET + 8 * eliasfano::ceil_div(m as nat, 64)
            <= d@.len(),
{
    let len: usize = d.len();
    if len == 0 {
        return Inner::Empty;
    }
    if len >= BLOOM_BITS_OFFSET && has_bloom_magic(d) {
        let k = read_le(d, 12, 8);
        let m = read_le(d, 28, 8);
        let k0 = read_le(d, 36, 8);
        let k1 = read_le(d, 44, 8);
        let k2 = read_le(d, 52, 8);
        let nwords: u64 = if m % 64 == 0 { m / 64 } else { m / 64 + 1 };
        if k == 3 && m >= 2 && nwords <= ((len - BLOOM_BITS_OFFSET) / 8) as u64 {
            return Inner::Bloom { k0, k1, k2, m };
        }
    }
    Inner::Unsupported
}

} // verus!
