//! Index salt handling for the `.kvei` existence filter.
//!
//! Each key is hashed together with a per-snapshot 32-bit salt before it is added to the
//! bloom filter (Erigon stores the salt in `salt-state.txt` / `salt-blocks.txt`). Without
//! the right salt the filter cannot be used, so a reader must learn it: from the file,
//! from the caller, or by brute force.

use vstd::prelude::*;

use crate::bytes;
use crate::bytes::read_be;

verus! {

/// How to obtain the `.kvei` index salt.
#[derive(Debug, Clone, Copy)]
#[non_exhaustive]
pub enum Salt {
    /// No salt: do not use the bloom filter. Lookups stay correct (exact `.bt` search),
    /// just without the negative-lookup speedup.
    Off,
    /// A known salt (e.g. from `salt-state.txt`, big-endian `u32`).
    Known(u32),
    /// Brute-force the salt by requiring a batch of real keys to all hit the bloom, with
    /// up to so many workers. The ~1% per-key false-positive rate makes a wrong salt
    /// passing every sampled key astronomically unlikely.
    Find(usize),
}

/// The salt that the bytes of a salt file spell.
pub open spec fn salt_in(b: Seq<u8>) -> Option<u32> {
    if b.len() >= 4 { Some(bytes::be_value(b.subrange(0, 4)) as u32) } else { Option::None }
}

/// A salt is spelt by the first four bytes, most significant first, whatever follows them;
/// fewer spell none.
pub proof fn law_salt_is_four_bytes(a: u8, b: u8, c: u8, d: u8, rest: Seq<u8>)
    ensures
        salt_in(seq![a, b, c, d] + rest) matches Some(s) && s == 0x100_0000 * a + 0x1_0000 * b + 0x100 * c + d,
        rest.len() < 4 ==> salt_in(rest) is None,
{
    let w = seq![a, b, c, d];
    assert((w + rest).subrange(0, 4) =~= w);
    reveal_with_fuel(bytes::be_value, 5);
    let t1 = w.drop_last();
    let t2 = t1.drop_last();
    let t3 = t2.drop_last();
    assert(t3.drop_last().len() == 0);
    assert(w.last() == d && t1.last() == c && t2.last() == b && t3.last() == a);
}

/// The salt in the bytes of a salt file: a 4-byte big-endian `u32`; `None` if there are
/// too few.
pub fn salt_from_bytes(b: &[u8]) -> (r: Option<u32>)
    ensures
        r == salt_in(b@),
{
    if b.len() < 4 {
        return None;
    }
    proof {
        bytes::lemma_be_bound(b@.subrange(0, 4));
        crate::bits::lemma_pow2_64();
    }
    Some(read_be(b, 0, 4) as u32)
}

} // verus!
