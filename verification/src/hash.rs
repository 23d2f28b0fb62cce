//! MurmurHash3 x64 128-bit, as Erigon hashes keys for the existence filter.
//!
//! The first 64-bit half of the hash of a key, seeded with the index salt, is what the
//! `.kvei` filter is fed. The 32-bit seed initialises both 64-bit lanes.

use vstd::prelude::*;
use vstd::slice::*;

use crate::bits;
use crate::bytes;
use crate::bytes::read_le;

verus! {

const C1: u64 = 0x87c3_7b91_1142_53d5;
const C2: u64 = 0x4cf5_ad43_2745_937f;
const N1: u64 = 0x52dc_e729;
const N2: u64 = 0x3849_5ab5;
const F1: u64 = 0xff51_afd7_ed55_8ccd;
const F2: u64 = 0xc4ce_b9fe_1a85_ec53;

/// `x` rotated left by `r` bits.
pub open spec fn rotl(x: u64, r: u64) -> u64 {
    (x << r) | (x >> ((64 - r) as u64))
}

pub fn rotate_left(x: u64, r: u64) -> (y: u64)
    requires
        0 < r < 64,
    ensures
        y == rotl(x, r),
{
    (x << r) | (x >> (64 - r))
}

/// The part of a block that goes into the first lane.
pub open spec fn mix1(k: u64) -> u64 {
    rotl(k.wrapping_mul(0x87c3_7b91_1142_53d5), 31).wrapping_mul(0x4cf5_ad43_2745_937f)
}

/// The part of a block that goes into the second lane.
pub open spec fn mix2(k: u64) -> u64 {
    rotl(k.wrapping_mul(0x4cf5_ad43_2745_937f), 33).wrapping_mul(0x87c3_7b91_1142_53d5)
}

/// The lanes after a block made of the words `k1` and `k2`.
pub open spec fn block(h: (u64, u64), k1: u64, k2: u64) -> (u64, u64) {
    let h1 = rotl(h.0 ^ mix1(k1), 27).wrapping_add(h.1).wrapping_mul(5).wrapping_add(0x52dc_e729);
    let h2 = rotl(h.1 ^ mix2(k2), 31).wrapping_add(h1).wrapping_mul(5).wrapping_add(0x3849_5ab5);
    (h1, h2)
}

/// The little-endian word that a byte string of up to eight bytes spells.
pub open spec fn word_of(s: Seq<u8>) -> u64 {
    bytes::le_value(s) as u64
}

/// The lanes after the first `n` blocks of 16 bytes.
pub open spec fn lanes(data: Seq<u8>, seed: u32, n: nat) -> (u64, u64)
    decreases n,
{
    if n == 0 {
        (seed as u64, seed as u64)
    } else {
        let b = 16 * (n - 1);
        block(
            lanes(data, seed, (n - 1) as nat),
            word_of(data.subrange(b, b + 8)),
            word_of(data.subrange(b + 8, b + 16)),
        )
    }
}

/// The finalizer of a lane.
pub open spec fn fmix(k: u64) -> u64 {
    let a = (k ^ (k >> 33)).wrapping_mul(0xff51_afd7_ed55_8ccd);
    let b = (a ^ (a >> 33)).wrapping_mul(0xc4ce_b9fe_1a85_ec53);
    b ^ (b >> 33)
}

/// The lanes after all bytes: the whole blocks, then the remaining bytes.
pub open spec fn state(data: Seq<u8>, seed: u32) -> (u64, u64) {
    let n = data.len() / 16;
    let h = lanes(data, seed, n);
    let tail = data.skip((16 * n) as int);
    let h2 = if tail.len() > 8 { h.1 ^ mix2(word_of(tail.skip(8))) } else { h.1 };
    let h1 = if tail.len() > 8 {
        h.0 ^ mix1(word_of(tail.take(8)))
    } else if tail.len() > 0 {
        h.0 ^ mix1(word_of(tail))
    } else {
        h.0
    };
    (h1, h2)
}

/// The first half of the hash: the lanes after all bytes, then the length, then the
/// finalizers.
pub open spec fn murmur3(data: Seq<u8>, seed: u32) -> u64 {
    let (h1, h2) = state(data, seed);
    let len = data.len() as u64;
    let a = (h1 ^ len).wrapping_add(h2 ^ len);
    let b = (h2 ^ len).wrapping_add(a);
    fmix(a).wrapping_add(fmix(b))
}

fn mix_first(k: u64) -> (r: u64)
    ensures
        r == mix1(k),
{
    rotate_left(k.wrapping_mul(C1), 31).wrapping_mul(C2)
}

fn mix_second(k: u64) -> (r: u64)
    ensures
        r == mix2(k),
{
    rotate_left(k.wrapping_mul(C2), 33).wrapping_mul(C1)
}

fn fmix64(k: u64) -> (r: u64)
    ensures
        r == fmix(k),
{
    let a: u64 = (k ^ (k >> 33)).wrapping_mul(F1);
    let b: u64 = (a ^ (a >> 33)).wrapping_mul(F2);
    b ^ (b >> 33)
}

/// MurmurHash3 x64 128-bit, returning only the first 64-bit half: the value that the
/// existence filter takes as the hashed key.
pub fn murmur3_x64_128_h1(data: &[u8], seed: u32) -> (r: u64)
    ensures
        r == murmur3(data@, seed),
{
    let len: usize = data.len();
    let nblocks: usize = len / 16;
    let mut h1: u64 = seed as u64;
    let mut h2: u64 = seed as u64;
    let mut i: usize = 0;
    while i < nblocks
        invariant
            i <= nblocks,
            nblocks == len / 16,
            len == data.len(),
            (h1, h2) == lanes(data@, seed, i as nat),
        decreases nblocks - i,
    {
        let k1 = read_le(data, i * 16, 8);
        let k2 = read_le(data, i * 16 + 8, 8);
        h1 = rotate_left(h1 ^ mix_first(k1), 27).wrapping_add(h2).wrapping_mul(5).wrapping_add(N1);
        h2 = rotate_left(h2 ^ mix_second(k2), 31).wrapping_add(h1).wrapping_mul(5).wrapping_add(N2);
        i = i + 1;
    }
    let start: usize = nblocks * 16;
    let tl: usize = len - start;
    let ghost tail = data@.skip(start as int);
    if tl > 8 {
        proof {
            assert(data@.subrange(start + 8, start + tl) =~= tail.skip(8));
            assert(data@.subrange(start as int, start + 8) =~= tail.take(8));
        }
        h2 = h2 ^ mix_second(read_le(data, start + 8, tl - 8));
        h1 = h1 ^ mix_first(read_le(data, start, 8));
    } else if tl > 0 {
        proof {
            assert(data@.subrange(start as int, start + tl) =~= tail);
        }
        h1 = h1 ^ mix_first(read_le(data, start, tl));
    }
    let n: u64 = len as u64;
    let a: u64 = (h1 ^ n).wrapping_add(h2 ^ n);
    let b: u64 = (h2 ^ n).wrapping_add(a);
    fmix64(a).wrapping_add(fmix64(b))
}

} // verus!
