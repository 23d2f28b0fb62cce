//! Reader for a `.bt` B-tree index file.
//!
//! The `.bt` carries two things a point lookup can use:
//!
//! * an Elias-Fano array of the `.kv` byte offset of every key, in key order; and
//! * (footer layout only) the *di-nodes*: the key at every `M`-th position, stored
//!   uncompressed.
//!
//! Without the di-nodes a lookup is a binary search over all keys, where each probe
//! decompresses a key to compare. The di-nodes narrow that to the one `M`-key block that
//! can contain the key, using only comparisons against keys already in memory. See
//! [`Nodes::narrow`].
//!
//! Two on-disk layouts are supported:
//!
//! * **legacy**: the Elias-Fano section at offset 0. Nothing locates trailing nodes, so
//!   narrowing is unavailable and lookups use the full binary search.
//! * **footer**: `[0x01][nodes][Elias-Fano][footer][anchor]`; the fixed 16-byte anchor
//!   ends with the magic `erigon\0\0` and carries the length of the footer, which holds
//!   the number of keys, `M`, and the offset of the Elias-Fano section.

use vstd::prelude::*;
use vstd::slice::*;

use crate::bytes;
use crate::bytes::{lex_le, lex_lt, lex_order, push_bytes, read_be, Order};
use crate::eliasfano;
use crate::eliasfano::{EfModel, EliasFano};
use crate::error::{Error, FormatError, Result};

verus! {

/// Length of the anchor: `footer_len:u32 | flags:u16 | version:u16 | magic:u64`.
pub const ANCHOR_LEN: usize = 16;

/// The footer payload is at least `keys_count(8) | M(8) | ef_offset(8)`.
pub const META_LEN: usize = 24;

/// First byte of a footer-layout file (a legacy file has `0x00` here).
pub const FIRST_BYTE_FOOTER: u8 = 0x01;

/// Trailing magic identifying the footer layout: `erigon\0\0`.
pub open spec fn footer_magic() -> Seq<u8> {
    seq![101u8, 114u8, 105u8, 103u8, 111u8, 110u8, 0u8, 0u8]
}

// ------------------------------------------------------------------ di-nodes

/// The di-nodes of an index.
pub struct NodesModel {
    /// Node `j` is key `j * m` of the file.
    pub keys: Seq<Seq<u8>>,
    pub m: u64,
    pub key_count: u64,
}

/// `count` keys from byte `p` on, each behind its length; none may reach past `end`, and
/// all together, after `total` bytes before them, must fit in 32 bits.
pub open spec fn parse_keys(data: Seq<u8>, p: int, count: nat, end: int, total: int) -> Option<Seq<Seq<u8>>>
    decreases count,
{
    if count == 0 {
        Some(Seq::empty())
    } else if p + 2 > data.len() {
        None
    } else {
        let klen = bytes::be_value(data.subrange(p, p + 2)) as int;
        let q = p + 2 + klen;
        if q > end || total + klen > u32::MAX {
            None
        } else {
            match parse_keys(data, q, (count - 1) as nat, end, total + klen) {
                None => None,
                Some(rest) => Some(seq![data.subrange(p + 2, q)] + rest),
            }
        }
    }
}

/// The di-nodes of a footer-layout file, if they can be made out.
pub open spec fn parse_nodes_spec(data: Seq<u8>, key_count: u64, m: u64, ef_offset: int) -> Option<NodesModel> {
    if key_count == 0 || m == 0 || ef_offset <= 1 || ef_offset > data.len() {
        None
    } else {
        match parse_keys(data, 1, eliasfano::ceil_div(key_count as nat, m as nat), ef_offset, 0) {
            None => None,
            Some(keys) => Some(NodesModel { keys, m, key_count }),
        }
    }
}

/// Bytes of the first `n` keys.
pub open spec fn total_len(keys: Seq<Seq<u8>>, n: nat) -> nat
    decreases n,
{
    if n == 0 {
        0
    } else {
        total_len(keys, (n - 1) as nat) + keys[n - 1].len()
    }
}

/// All keys have the same length.
pub open spec fn uniform(keys: Seq<Seq<u8>>) -> bool {
    forall|j: int| 0 <= j < keys.len() ==> (#[trigger] keys[j]).len() == keys[0].len()
}

/// Memory that the nodes take: their keys and, unless all have the same length, four
/// bytes each for where they end.
pub open spec fn footprint(keys: Seq<Seq<u8>>) -> nat {
    total_len(keys, keys.len()) + if uniform(keys) { 0 } else { 4 * keys.len() }
}

/// Binary search in `keys[lo..hi]` for the first key above `key`.
pub open spec fn bisect(keys: Seq<Seq<u8>>, key: Seq<u8>, lo: int, hi: int) -> int
    decreases hi - lo,
{
    if lo >= hi {
        lo
    } else {
        let mid = lo + (hi - lo) / 2;
        if lex_le(keys[mid], key) {
            bisect(keys, key, mid + 1, hi)
        } else {
            bisect(keys, key, lo, mid)
        }
    }
}

/// The half-open range of key indices that can hold `key`.
pub open spec fn narrow_spec(n: NodesModel, key: Seq<u8>) -> (int, int) {
    let above = bisect(n.keys, key, 0, n.keys.len() as int);
    if above == 0 {
        (0, 0)
    } else {
        let start = (above - 1) * n.m;
        (start, if start + n.m < n.key_count { start + n.m } else { n.key_count as int })
    }
}

/// The keys are strictly increasing.
pub open spec fn increasing(keys: Seq<Seq<u8>>) -> bool {
    forall|a: int, b: int| 0 <= a < b < keys.len() ==> lex_lt(#[trigger] keys[a], #[trigger] keys[b])
}

/// In sorted keys the search finds how many are at most `key`.
pub proof fn law_bisect(keys: Seq<Seq<u8>>, key: Seq<u8>, lo: int, hi: int)
    requires
        0 <= lo <= hi <= keys.len(),
        increasing(keys),
        forall|j: int| 0 <= j < lo ==> lex_le(#[trigger] keys[j], key),
        forall|j: int| hi <= j < keys.len() ==> lex_lt(key, #[trigger] keys[j]),
    ensures
        lo <= bisect(keys, key, lo, hi) <= hi,
        forall|j: int| 0 <= j < bisect(keys, key, lo, hi) ==> lex_le(#[trigger] keys[j], key),
        forall|j: int| bisect(keys, key, lo, hi) <= j < keys.len() ==> lex_lt(key, #[trigger] keys[j]),
    decreases hi - lo,
{
    if lo < hi {
        let mid = lo + (hi - lo) / 2;
        bytes::lemma_lex_total(keys[mid], key);
        if lex_le(keys[mid], key) {
            assert forall|j: int| 0 <= j < mid + 1 implies lex_le(#[trigger] keys[j], key) by {
                if j < mid {
                    assert(lex_lt(keys[j], keys[mid]));
                    if lex_lt(keys[mid], key) {
                        bytes::lemma_lex_transitive(keys[j], keys[mid], key);
                    }
                }
            }
            law_bisect(keys, key, mid + 1, hi);
        } else {
            assert forall|j: int| mid <= j < keys.len() implies lex_lt(key, #[trigger] keys[j]) by {
                if j > mid {
                    assert(lex_lt(keys[mid], keys[j]));
                    bytes::lemma_lex_transitive(key, keys[mid], keys[j]);
                }
            }
            law_bisect(keys, key, lo, mid);
        }
    }
}

/// The nodes are every `m`-th one of `keys`.
pub open spec fn nodes_of(n: NodesModel, keys: Seq<Seq<u8>>) -> bool {
    &&& n.m > 0
    &&& n.key_count == keys.len()
    &&& n.keys.len() == eliasfano::ceil_div(keys.len(), n.m as nat)
    &&& forall|j: int| 0 <= j < n.keys.len() ==> #[trigger] n.keys[j] == keys[j * n.m]
}

/// Narrowing never loses a key: in a file of strictly increasing keys, the range for a
/// key that is there contains its index, and no range is longer than a block.
pub proof fn law_narrow_brackets(n: NodesModel, keys: Seq<Seq<u8>>, i: int)
    requires
        nodes_of(n, keys),
        increasing(keys),
        0 <= i < keys.len(),
    ensures
        narrow_spec(n, keys[i]).0 <= i < narrow_spec(n, keys[i]).1,
        narrow_spec(n, keys[i]).1 - narrow_spec(n, keys[i]).0 <= n.m,
{
    let key = keys[i];
    let m = n.m as int;
    assert(increasing(n.keys)) by {
        assert forall|a: int, b: int| 0 <= a < b < n.keys.len() implies lex_lt(#[trigger] n.keys[a], #[trigger] n.keys[b]) by {
            assert(a * m < b * m) by (nonlinear_arith)
                requires
                    a < b,
                    m > 0,
            ;
            lemma_block_start(keys.len(), n.m as nat, a);
            lemma_block_start(keys.len(), n.m as nat, b);
            assert(n.keys[a] == keys[a * m]);
            assert(n.keys[b] == keys[b * m]);
        }
    }
    law_bisect(n.keys, key, 0, n.keys.len() as int);
    let above = bisect(n.keys, key, 0, n.keys.len() as int);
    let block = i / m;
    assert(block * m <= i < (block + 1) * m) by (nonlinear_arith)
        requires
            block == i / m,
            m > 0,
    ;
    assert(0 <= block) by (nonlinear_arith)
        requires
            block == i / m,
            m > 0,
            i >= 0,
    ;
    assert(block < n.keys.len()) by {
        lemma_blocks(keys.len(), n.m as nat, i);
    }
    // Node `block` is at or before the key, and node `block + 1` after it.
    if above <= block {
        assert(lex_lt(key, n.keys[block]));
        assert(n.keys[block] == keys[block * m]);
        if block * m < i {
            assert(lex_lt(keys[block * m], keys[i]));
            bytes::lemma_lex_total(keys[block * m], keys[i]);
        } else {
            bytes::lemma_lex_irreflexive(key);
        }
    }
    if above > block + 1 {
        assert(lex_le(n.keys[block + 1], key));
        lemma_block_start(keys.len(), n.m as nat, block + 1);
        assert(n.keys[block + 1] == keys[(block + 1) * m]);
        assert(lex_lt(keys[i], keys[(block + 1) * m]));
        bytes::lemma_lex_total(keys[(block + 1) * m], keys[i]);
        bytes::lemma_lex_irreflexive(key);
    }
    assert(above == block + 1);
    assert((above - 1) * n.m == block * m);
    assert((block + 1) * m == block * m + m) by (nonlinear_arith);
}

/// There are enough blocks for every key.
pub proof fn lemma_blocks(n: nat, m: nat, i: int)
    requires
        m > 0,
        0 <= i < n,
    ensures
        0 <= i / (m as int) < eliasfano::ceil_div(n, m),
{
    let mi = m as int;
    let c = (n + m - 1) / mi;
    assert(i / mi < c) by (nonlinear_arith)
        requires
            c == (n + m - 1) / mi,
            mi == m,
            m > 0,
            i < n,
            i >= 0,
    ;
    assert(0 <= i / mi) by (nonlinear_arith)
        requires
            mi > 0,
            i >= 0,
    ;
}

/// Every block starts at a key.
pub proof fn lemma_block_start(n: nat, m: nat, j: int)
    requires
        m > 0,
        0 <= j < eliasfano::ceil_div(n, m),
    ensures
        0 <= j * m < n,
{
    let mi = m as int;
    let c = (n + m - 1) / mi;
    assert(j * mi < n) by (nonlinear_arith)
        requires
            c == (n + m - 1) / mi,
            mi == m,
            m > 0,
            0 <= j <= c - 1,
    ;
    assert(0 <= j * mi) by (nonlinear_arith)
        requires
            0 <= j,
            mi > 0,
    ;
}

/// The di-node array: the key at every `M`-th position.
pub struct Nodes {
    /// All node keys back to back.
    arena: Vec<u8>,
    /// End offset of each node key within `arena`, or empty when every key has the same
    /// length (`fixed_len`), in which case offsets are computed arithmetically.
    ends: Vec<u32>,
    /// The length of every node key, if it is always the same.
    fixed_len: Option<u32>,
    count: usize,
    m: u64,
    key_count: u64,
}

/// Where key `j` starts, given where each key ends.
spec fn start_of(ends: Seq<u32>, j: int) -> int {
    if j == 0 { 0 } else { ends[j - 1] as int }
}

/// The ends are in order and lie in an arena of `len` bytes.
spec fn ordered(ends: Seq<u32>, len: int) -> bool {
    &&& forall|j: int| 0 <= j < ends.len() ==> start_of(ends, j) <= #[trigger] ends[j] <= len
}

/// The keys in an arena.
closed spec fn keys_in(arena: Seq<u8>, ends: Seq<u32>, fixed_len: Option<u32>, count: nat) -> Seq<Seq<u8>> {
    Seq::new(
        count,
        |j: int|
            match fixed_len {
                Some(l) => arena.subrange(j * l, j * l + l),
                None => arena.subrange(start_of(ends, j), ends[j] as int),
            },
    )
}

impl Nodes {
    #[verifier::type_invariant]
    spec fn inv(self) -> bool {
        &&& self.m > 0
        &&& self.count == eliasfano::ceil_div(self.key_count as nat, self.m as nat)
        &&& self.arena@.len() == total_len(self.model().keys, self.count as nat)
        &&& self.fixed_len is Some == uniform(self.model().keys)
        &&& match self.fixed_len {
            Some(l) => self.arena@.len() == self.count * l && self.ends@.len() == 0,
            None => self.ends@.len() == self.count && ordered(self.ends@, self.arena@.len() as int),
        }
    }

    /// The nodes.
    pub closed spec fn model(&self) -> NodesModel {
        NodesModel {
            keys: keys_in(self.arena@, self.ends@, self.fixed_len, self.count as nat),
            m: self.m,
            key_count: self.key_count,
        }
    }

    /// Number of nodes (`ceil(key_count / M)`).
    pub fn len(&self) -> (n: usize)
        ensures
            n == self.model().keys.len(),
    {
        self.count
    }

    /// Whether there are no nodes.
    pub fn is_empty(&self) -> (r: bool)
        ensures
            r == (self.model().keys.len() == 0),
    {
        self.count == 0
    }

    /// The B-tree fanout `M` these nodes were sampled at.
    pub fn m(&self) -> (m: u64)
        ensures
            m == self.model().m,
    {
        self.m
    }

    /// Heap held by the arena and (when present) the offset table.
    pub fn heap_bytes(&self) -> (n: usize)
        ensures
            n == if footprint(self.model().keys) <= usize::MAX {
                footprint(self.model().keys)
            } else {
                usize::MAX as nat
            },
    {
        proof {
            use_type_invariant(self);
        }
        let total: u128 = self.arena.len() as u128 + self.ends.len() as u128 * 4;
        if total > usize::MAX as u128 { usize::MAX } else { total as usize }
    }

    /// The `j`-th node key, which is key number `j * M` in the file.
    pub fn key(&self, j: usize) -> (k: &[u8])
        requires
            j < self.model().keys.len(),
        ensures
            k@ == self.model().keys[j as int],
    {
        proof {
            use_type_invariant(self);
        }
        match self.fixed_len {
            Some(l) => {
                proof {
                    assert(j * l + l <= self.count * l) by (nonlinear_arith)
                        requires
                            j + 1 <= self.count,
                    ;
                    assert(0 <= j * l) by (nonlinear_arith);
                    assert(self.arena@.len() == self.arena.len());
                    assert(j * l + l == j * l + l);
                }
                let s: usize = j * l as usize;
                slice_subrange(self.arena.as_slice(), s, s + l as usize)
            },
            None => {
                let s: usize = if j == 0 { 0 } else { self.ends[j - 1] as usize };
                proof {
                    assert(start_of(self.ends@, j as int) <= self.ends@[j as int] <= self.arena@.len());
                }
                slice_subrange(self.arena.as_slice(), s, self.ends[j] as usize)
            },
        }
    }

    /// Number of nodes that are at most `key`, i.e. the index of the first node above it.
    pub fn upper_bound(&self, key: &[u8]) -> (r: usize)
        ensures
            r == bisect(self.model().keys, key@, 0, self.model().keys.len() as int),
            r <= self.model().keys.len(),
    {
        let ghost keys = self.model().keys;
        let mut lo: usize = 0;
        let mut hi: usize = self.count;
        while lo < hi
            invariant
                keys == self.model().keys,
                lo <= hi <= keys.len(),
                bisect(keys, key@, lo as int, hi as int) == bisect(keys, key@, 0, keys.len() as int),
            decreases hi - lo,
        {
            let mid: usize = lo + (hi - lo) / 2;
            let o = lex_order(self.key(mid), key);
            if matches!(o, Order::Greater) {
                proof {
                    bytes::lemma_lex_total(keys[mid as int], key@);
                    bytes::lemma_lex_irreflexive(key@);
                }
                hi = mid;
            } else {
                proof {
                    bytes::lemma_lex_total(keys[mid as int], key@);
                }
                lo = mid + 1;
            }
        }
        lo
    }

    /// Narrow a search for `key` to the half-open key-index range that can contain it.
    ///
    /// Node `j` is key `j * M`, and keys are sorted, so if `node[j] <= key < node[j + 1]`
    /// then `key`, if present, lies in `[j * M, (j + 1) * M)`. Gives an empty range when
    /// `key` sorts before the very first key, which cannot be in the file at all.
    pub fn narrow(&self, key: &[u8]) -> (r: (u64, u64))
        ensures
            (r.0 as int, r.1 as int) == narrow_spec(self.model(), key@),
            r.0 <= r.1 <= self.model().key_count,
    {
        proof {
            use_type_invariant(self);
        }
        let above: usize = self.upper_bound(key);
        if above == 0 {
            return (0, 0);
        }
        proof {
            lemma_block_start(self.key_count as nat, self.m as nat, above - 1);
            assert((above - 1) as u64 * self.m == (above - 1) * self.m);
        }
        let start: u64 = (above - 1) as u64 * self.m;
        let end: u64 = if self.key_count - start > self.m { start + self.m } else { self.key_count };
        (start, end)
    }
}

/// Parse the di-node array out of a footer-layout `.bt`. Gives `None` if anything fails to
/// line up, which only costs the narrowing.
#[verifier::rlimit(60)]
#[verifier::spinoff_prover]
pub fn parse_nodes(data: &[u8], key_count: u64, m: u64, ef_offset: usize) -> (r: Option<Nodes>)
    ensures
        r is Some == parse_nodes_spec(data@, key_count, m, ef_offset as int) is Some,
        r matches Some(n) ==> parse_nodes_spec(data@, key_count, m, ef_offset as int) == Some(n.model()),
{
    let len: usize = data.len();
    if key_count == 0 || m == 0 || ef_offset <= 1 || ef_offset > len {
        return None;
    }
    let ghost count = eliasfano::ceil_div(key_count as nat, m as nat);
    proof {
        lemma_ceil(key_count as int, m as int);
    }
    let blocks: u64 = if key_count % m == 0 { key_count / m } else { key_count / m + 1 };
    let ghost goal = parse_keys(data@, 1, count, ef_offset as int, 0);
    let mut arena: Vec<u8> = Vec::new();
    let mut ends: Vec<u32> = Vec::new();
    let mut first_len: u32 = 0;
    let mut uniform: bool = true;
    let mut p: usize = 1;
    let mut j: u64 = 0;
    let ghost mut keys: Seq<Seq<u8>> = Seq::empty();
    proof {
        if let Some(rest) = parse_keys(data@, 1, count, ef_offset as int, 0) {
            assert(keys + rest =~= rest);
        }
    }
    while j < blocks
        invariant
            j <= blocks,
            blocks == count,
            count == eliasfano::ceil_div(key_count as nat, m as nat),
            key_count != 0,
            m != 0,
            1 < ef_offset,
            len == data.len(),
            1 <= p <= ef_offset <= len,
            goal == parse_keys(data@, 1, count, ef_offset as int, 0),
            ends@.len() == j,
            ordered(ends@, arena@.len() as int),
            arena@.len() <= u32::MAX,
            start_of(ends@, j as int) == arena@.len(),
            keys.len() == j,
            forall|k: int| 0 <= k < j ==> #[trigger] keys[k] == arena@.subrange(start_of(ends@, k), ends@[k] as int),
            uniform ==> forall|k: int| 0 <= k < j ==> #[trigger] ends@[k] == (k + 1) * first_len,
            uniform == (forall|k: int| 0 <= k < j ==> (#[trigger] keys[k]).len() == first_len),
            j > 0 ==> keys[0].len() == first_len,
            arena@.len() == total_len(keys, j as nat),
            match parse_keys(data@, p as int, (count - j) as nat, ef_offset as int, arena@.len() as int) {
                Some(rest) => goal == Some(keys + rest),
                None => goal is None,
            },
        decreases blocks - j,
    {
        if len - p < 2 {
            return None;
        }
        proof {
            bytes::lemma_be_bound(data@.subrange(p as int, p + 2));
            crate::bits::lemma_pow2_64();
        }
        let klen: usize = read_be(data, p, 2) as usize;
        if p + 2 > ef_offset || klen > ef_offset - (p + 2) {
            return None;
        }
        let q: usize = p + 2 + klen;
        if arena.len() as u64 + klen as u64 > u32::MAX as u64 {
            return None;
        }
        let ghost was_uniform = uniform;
        if j == 0 {
            first_len = klen as u32;
        } else if klen as u32 != first_len {
            uniform = false;
        }
        let ghost arena0 = arena@;
        let ghost ends0 = ends@;
        let ghost keys0 = keys;
        push_bytes(&mut arena, slice_subrange(data, p + 2, q));
        ends.push(arena.len() as u32);
        proof {
            keys = keys.push(data@.subrange(p + 2, q as int));
            assert forall|k: int| 0 <= k < j + 1 implies #[trigger] keys[k] == arena@.subrange(
                start_of(ends@, k),
                ends@[k] as int,
            ) by {
                if k < j {
                    assert(keys0[k] == arena0.subrange(start_of(ends0, k), ends0[k] as int));
                    assert(start_of(ends0, k) <= ends0[k] <= arena0.len());
                    assert(arena@.subrange(start_of(ends@, k), ends@[k] as int) =~= arena0.subrange(
                        start_of(ends0, k),
                        ends0[k] as int,
                    ));
                } else {
                    assert(arena@.subrange(arena0.len() as int, arena@.len() as int) =~= data@.subrange(p + 2, q as int));
                }
            }
            assert(ordered(ends@, arena@.len() as int)) by {
                assert forall|k: int| 0 <= k < ends@.len() implies start_of(ends@, k) <= #[trigger] ends@[k] <= arena@.len() by {
                    if k < j {
                        assert(start_of(ends0, k) <= ends0[k] <= arena0.len());
                    }
                }
            }
            if uniform {
                assert forall|k: int| 0 <= k < j + 1 implies #[trigger] ends@[k] == (k + 1) * first_len by {
                    if k == j {
                        if j > 0 {
                            assert(ends0[j - 1] == (j - 1 + 1) * first_len);
                        }
                        assert((j + 1) * first_len == j * first_len + first_len) by (nonlinear_arith);
                    } else {
                        assert(ends0[k] == (k + 1) * first_len);
                    }
                }
            }
            lemma_total_prefix(keys0, keys, j as nat);
            assert(keys[j as int].len() == klen);
            assert forall|k: int| 0 <= k < j implies (#[trigger] keys[k]).len() == keys0[k].len() by {}
            if was_uniform {
                assert forall|k: int| 0 <= k < j implies (#[trigger] keys0[k]).len() == keys0[0].len() by {}
            } else {
                let k = choose|k: int| 0 <= k < j && (#[trigger] keys0[k]).len() != first_len;
                assert(keys[k].len() != first_len);
            }
            if let Some(rest) = parse_keys(data@, q as int, (count - j - 1) as nat, ef_offset as int, arena@.len() as int) {
                assert(keys0 + (seq![data@.subrange(p + 2, q as int)] + rest) =~= keys + rest);
            }
        }
        p = q;
        j = j + 1;
    }
    let n: usize = ends.len();
    proof {
        assert(keys + Seq::<Seq<u8>>::empty() =~= keys);
        if uniform {
            assert forall|k: int| 0 <= k < n implies #[trigger] keys[k] == arena@.subrange(
                k * first_len,
                k * first_len + first_len,
            ) by {
                assert(ends@[k] == (k + 1) * first_len);
                assert((k + 1) * first_len == k * first_len + first_len) by (nonlinear_arith);
                if k > 0 {
                    assert(ends@[k - 1] == (k - 1 + 1) * first_len);
                    assert((k - 1 + 1) * first_len == k * first_len);
                } else {
                    assert(0 * first_len == 0);
                }
                assert(start_of(ends@, k) == k * first_len);
            }
            if n > 0 {
                assert(ends@[n - 1] == (n - 1 + 1) * first_len);
            }
        }
    }
    proof {
        assert(uniform == self::uniform(keys));
        if uniform {
            assert(keys =~= keys_in(arena@, Seq::empty(), Some(first_len), n as nat));
        } else {
            assert(keys =~= keys_in(arena@, ends@, None, n as nat));
        }
    }
    let nodes = if uniform {
        let none: Vec<u32> = Vec::new();
        proof {
            assert(none@ =~= Seq::empty());
        }
        Nodes { arena, ends: none, fixed_len: Some(first_len), count: n, m, key_count }
    } else {
        Nodes { arena, ends, fixed_len: None, count: n, m, key_count }
    };
    proof {
        assert(nodes.model().keys =~= keys);
    }
    Some(nodes)
}

proof fn lemma_total_prefix(a: Seq<Seq<u8>>, b: Seq<Seq<u8>>, n: nat)
    requires
        n <= a.len(),
        n <= b.len(),
        forall|i: int| 0 <= i < n ==> #[trigger] a[i] == b[i],
    ensures
        total_len(a, n) == total_len(b, n),
    decreases n,
{
    if n > 0 {
        lemma_total_prefix(a, b, (n - 1) as nat);
        assert(a[n - 1] == b[n - 1]);
    }
}

proof fn lemma_ceil(a: int, b: int)
    requires
        0 < a,
        0 < b,
    ensures
        eliasfano::ceil_div(a as nat, b as nat) == if a % b == 0 { a / b } else { a / b + 1 },
        0 < eliasfano::ceil_div(a as nat, b as nat) <= a,
{
    let q = a / b;
    let r = a % b;
    vstd::arithmetic::div_mod::lemma_fundamental_div_mod(a, b);
    vstd::arithmetic::div_mod::lemma_mod_bound(a, b);
    vstd::arithmetic::div_mod::lemma_div_pos_is_pos(a, b);
    if r == 0 {
        assert((a + b - 1) / b == q) by (nonlinear_arith)
            requires
                a == b * q,
                b > 0,
        ;
        assert(0 < q <= a) by (nonlinear_arith)
            requires
                a == b * q,
                b > 0,
                a > 0,
        ;
    } else {
        assert((a + b - 1) / b == q + 1) by (nonlinear_arith)
            requires
                a == b * q + r,
                0 < r < b,
        ;
        assert(q + 1 <= a) by (nonlinear_arith)
            requires
                a == b * q + r,
                0 < r < b,
                q >= 0,
        ;
    }
}

// ------------------------------------------------------------------ the index

/// The contents of a `.bt` file.
pub struct BtModel {
    /// The offsets of the keys; none in an empty index.
    pub ef: Option<EfModel>,
    /// The fanout, if the layout records it.
    pub m: Option<u64>,
    /// The di-nodes, if there are any.
    pub nodes: Option<NodesModel>,
}

/// The file ends with the magic of the footer layout.
pub open spec fn has_magic_spec(data: Seq<u8>) -> bool {
    data.len() >= ANCHOR_LEN && data.subrange(data.len() - 8, data.len() as int) == footer_magic()
}

/// The contents of a footer-layout file.
pub open spec fn parse_footer(data: Seq<u8>) -> core::result::Result<BtModel, FormatError> {
    let len = data.len() as int;
    let footer_len = bytes::be_value(data.subrange(len - 16, len - 12)) as int;
    if footer_len < META_LEN || ANCHOR_LEN + footer_len > len {
        Err(FormatError::FooterLength { footer_len: footer_len as u64, file: len as u64 })
    } else {
        let start = len - 16 - footer_len;
        let keys_count = bytes::be_value(data.subrange(start, start + 8)) as u64;
        let m = bytes::be_value(data.subrange(start + 8, start + 16)) as u64;
        let ef_offset = bytes::be_value(data.subrange(start + 16, start + 24)) as int;
        if ef_offset >= start {
            Err(FormatError::FooterOffset { ef_offset: ef_offset as u64, body: start as u64 })
        } else {
            match eliasfano::parse_ef(data, ef_offset) {
                Err(e) => Err(e),
                Ok(ef) => if ef.n != keys_count {
                    Err(FormatError::FooterKeys { found: ef.n as u64, footer: keys_count })
                } else {
                    Ok(
                        BtModel {
                            ef: Some(ef),
                            m: Some(m),
                            nodes: parse_nodes_spec(data, keys_count, m, ef_offset),
                        },
                    )
                },
            }
        }
    }
}

/// The contents of a `.bt` file, or what is wrong with it.
pub open spec fn parse_bt(data: Seq<u8>) -> core::result::Result<BtModel, FormatError> {
    if data.len() == 0 {
        Ok(BtModel { ef: None, m: None, nodes: None })
    } else if has_magic_spec(data) {
        parse_footer(data)
    } else if data[0] == FIRST_BYTE_FOOTER {
        Err(FormatError::FooterMissing)
    } else {
        match eliasfano::parse_ef(data, 0) {
            Err(e) => Err(e),
            Ok(ef) => Ok(BtModel { ef: Some(ef), m: None, nodes: None }),
        }
    }
}

/// Number of keys of an index.
pub open spec fn key_count_of(b: BtModel) -> nat {
    match b.ef {
        Some(ef) => ef.n,
        None => 0,
    }
}

/// The offset of key `i`; `None` if there is none or the index is damaged.
pub open spec fn key_offset_of(b: BtModel, i: int) -> Option<u64> {
    match b.ef {
        Some(ef) => eliasfano::ef_get(ef, i),
        None => None,
    }
}

/// The range of key indices that can hold `key`: all of them without nodes.
pub open spec fn narrow_in(b: BtModel, key: Seq<u8>) -> (int, int) {
    match b.nodes {
        Some(n) => narrow_spec(n, key),
        None => (0, key_count_of(b) as int),
    }
}

/// A `.bt` index: the Elias-Fano offset array plus, when known, the B-tree fanout `M` and
/// the di-node array used to narrow lookups.
pub struct BtreeIndex<'a> {
    ef: Option<EliasFano<'a>>,
    m: Option<u64>,
    nodes: Option<Nodes>,
    size: usize,
}

fn has_magic(data: &[u8]) -> (r: bool)
    ensures
        r == has_magic_spec(data@),
{
    let n: usize = data.len();
    if n < ANCHOR_LEN {
        return false;
    }
    let r: bool = data[n - 8] == 101 && data[n - 7] == 114 && data[n - 6] == 105 && data[n - 5] == 103 && data[n - 4]
        == 111 && data[n - 3] == 110 && data[n - 2] == 0 && data[n - 1] == 0;
    proof {
        let t = data@.subrange(n - 8, n as int);
        if r {
            assert(t =~= footer_magic());
        } else if t == footer_magic() {
            assert(t[0] == 101 && t[1] == 114 && t[2] == 105 && t[3] == 103);
            assert(t[4] == 111 && t[5] == 110 && t[6] == 0 && t[7] == 0);
        }
    }
    r
}

impl<'a> BtreeIndex<'a> {
    #[verifier::type_invariant]
    spec fn inv(self) -> bool {
        self.nodes matches Some(n) ==> self.ef matches Some(ef) && n.model().key_count == ef.model().n
    }

    /// The contents of the index.
    pub closed spec fn model(&self) -> BtModel {
        BtModel {
            ef: match self.ef {
                Some(ef) => Some(ef.model()),
                None => None,
            },
            m: self.m,
            nodes: match self.nodes {
                Some(n) => Some(n.model()),
                None => None,
            },
        }
    }

    /// Size of the file.
    pub closed spec fn file_size(&self) -> nat {
        self.size as nat
    }

    /// Open and parse a `.bt` file, auto-detecting the legacy vs footer layout.
    pub fn open(data: &'a [u8]) -> (r: Result<BtreeIndex<'a>>)
        ensures
            match parse_bt(data@) {
                Ok(b) => r matches Ok(idx) && idx.model() == b && idx.file_size() == data@.len(),
                Err(e) => r == Err::<BtreeIndex<'a>, Error>(Error::Format(e)),
            },
    {
        let len: usize = data.len();
        // A zero-length .bt is a valid empty index (0 keys).
        if len == 0 {
            return Ok(BtreeIndex { ef: None, m: None, nodes: None, size: 0 });
        }
        if has_magic(data) {
            return BtreeIndex::open_footer(data);
        }
        if data[0] == FIRST_BYTE_FOOTER {
            return Err(Error::Format(FormatError::FooterMissing));
        }
        match EliasFano::open(data, 0) {
            Ok(ef) => Ok(BtreeIndex { ef: Some(ef), m: None, nodes: None, size: len }),
            Err(e) => Err(e),
        }
    }

    fn open_footer(data: &'a [u8]) -> (r: Result<BtreeIndex<'a>>)
        requires
            data@.len() >= ANCHOR_LEN,
        ensures
            match parse_footer(data@) {
                Ok(b) => r matches Ok(idx) && idx.model() == b && idx.file_size() == data@.len(),
                Err(e) => r == Err::<BtreeIndex<'a>, Error>(Error::Format(e)),
            },
    {
        let len: usize = data.len();
        proof {
            bytes::lemma_be_bound(data@.subrange(len - 16, len - 12));
            crate::bits::lemma_pow2_64();
        }
        let footer_len = read_be(data, len - 16, 4);
        if footer_len < META_LEN as u64 || footer_len > (len - ANCHOR_LEN) as u64 {
            return Err(Error::Format(FormatError::FooterLength { footer_len, file: len as u64 }));
        }
        let start: usize = len - ANCHOR_LEN - footer_len as usize;
        let keys_count = read_be(data, start, 8);
        let m = read_be(data, start + 8, 8);
        let ef_offset = read_be(data, start + 16, 8);
        if ef_offset >= start as u64 {
            return Err(Error::Format(FormatError::FooterOffset { ef_offset, body: start as u64 }));
        }
        let ef_offset: usize = ef_offset as usize;
        match EliasFano::open(data, ef_offset) {
            Err(e) => Err(e),
            Ok(ef) => {
                let found: u64 = ef.len();
                if found != keys_count {
                    return Err(Error::Format(FormatError::FooterKeys { found, footer: keys_count }));
                }
                let nodes = parse_nodes(data, keys_count, m, ef_offset);
                Ok(BtreeIndex { ef: Some(ef), m: Some(m), nodes, size: len })
            },
        }
    }

    /// Number of indexed keys.
    pub fn key_count(&self) -> (n: u64)
        ensures
            n == key_count_of(self.model()),
    {
        match &self.ef {
            Some(ef) => ef.len(),
            None => 0,
        }
    }

    /// The `.kv` byte offset of the `i`-th key (0-based). Gives `None` if out of range, or
    /// if the index is damaged.
    pub fn key_offset(&self, i: u64) -> (r: Option<u64>)
        ensures
            r == key_offset_of(self.model(), i as int),
    {
        match &self.ef {
            Some(ef) => ef.try_get(i),
            None => None,
        }
    }

    /// The B-tree fanout `M`, if the layout records it (footer layout only).
    pub fn m(&self) -> (m: Option<u64>)
        ensures
            m == self.model().m,
    {
        self.m
    }

    /// The di-node array: `None` for the legacy layout, for an empty index, or if the
    /// section does not parse. In each case lookups fall back to the full binary search.
    pub fn nodes(&self) -> (r: Option<&Nodes>)
        ensures
            r is Some == self.model().nodes is Some,
            r matches Some(n) ==> self.model().nodes == Some(n.model()),
    {
        match &self.nodes {
            Some(n) => Some(n),
            None => None,
        }
    }

    /// Narrow a lookup for `key` to the half-open key-index range that can contain it,
    /// using the di-nodes. Falls back to the full range when narrowing is unavailable.
    pub fn narrow(&self, key: &[u8]) -> (r: (u64, u64))
        ensures
            (r.0 as int, r.1 as int) == narrow_in(self.model(), key@),
            r.0 <= r.1 <= key_count_of(self.model()),
    {
        proof {
            use_type_invariant(self);
        }
        match &self.nodes {
            Some(n) => n.narrow(key),
            None => (0, self.key_count()),
        }
    }

    /// Bytes that this `.bt` occupies.
    pub fn mapped_bytes(&self) -> (n: u64)
        ensures
            n == self.file_size(),
    {
        self.size as u64
    }

    /// Borrow the underlying Elias-Fano offset array, if the index is non-empty.
    pub fn elias_fano(&self) -> (r: Option<&EliasFano<'a>>)
        ensures
            r is Some == self.model().ef is Some,
            r matches Some(ef) ==> self.model().ef == Some(ef.model()),
    {
        match &self.ef {
            Some(ef) => Some(ef),
            None => None,
        }
    }
}

} // verus!
