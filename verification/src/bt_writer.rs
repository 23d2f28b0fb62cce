//! Writer for `.bt` B-tree index files, in both on-disk layouts.
//!
//! The index records the `.kv` byte offset of every key as an Elias-Fano array. Two
//! layouts are produced (selectable via [`BtLayout`]):
//!
//! * [`BtLayout::Legacy`]: just the serialized Elias-Fano section.
//! * [`BtLayout::Footer`]: `[0x01][nodes][pad to 4096][Elias-Fano][pad to 8][footer][anchor]`,
//!   where the nodes hold the key at every `M`-th position behind its length, and the
//!   trailing footer and anchor carry the number of keys, `M`, the offset of the
//!   Elias-Fano section, and the `erigon\0\0` magic.

use vstd::prelude::*;

use crate::btree;
use crate::bytes;
use crate::bytes::{push_be, push_bytes};
use crate::ef_builder;
use crate::ef_builder::EfBuilder;
use crate::eliasfano;
use crate::error::{Error, FormatError, Result};
use crate::seg::Seg;
use crate::words;
use crate::words::SegModel;

verus! {

/// Default B-tree fanout, the number of keys per leaf.
pub const DEFAULT_BTREE_M: u64 = 256;

const BT_EF_ALIGN: usize = 4096;
const BT_FOOTER_ALIGN: usize = 8;

/// Which `.bt` on-disk layout to emit.
#[derive(Debug, Clone, Copy, PartialEq, Eq, Structural)]
pub enum BtLayout {
    /// Just the Elias-Fano offset array (smallest; binary search only).
    Legacy,
    /// Footer layout with di-nodes for narrowed searches.
    Footer,
}

/// Options for building a `.bt` index.
#[derive(Debug, Clone, Copy)]
pub struct BtOptions {
    /// Which layout to write.
    pub layout: BtLayout,
    /// B-tree fanout `M` (footer layout only).
    pub m: u64,
}

impl Default for BtOptions {
    fn default() -> (o: BtOptions)
        ensures
            o.layout == BtLayout::Footer,
            o.m == DEFAULT_BTREE_M,
    {
        BtOptions { layout: BtLayout::Footer, m: DEFAULT_BTREE_M }
    }
}

// ------------------------------------------------------------------ what is indexed

/// What a walk over the keys of a `.kv` has found so far, and where it stands.
pub struct Walk {
    /// The offset of each key.
    pub offsets: Seq<u64>,
    /// The keys that become nodes.
    pub nodes: Seq<Seq<u8>>,
    pub next: int,
}

/// Walk over the first `n` pairs of key and value. Every `step`-th key becomes a node, or
/// none if `step` is zero. Fails where there is no word, where a key starts past `limit`,
/// and on a node that is too long.
pub open spec fn key_walk(m: SegModel, limit: int, step: nat, n: nat) -> core::result::Result<Walk, FormatError>
    decreases n,
{
    if n == 0 {
        Ok(Walk { offsets: Seq::empty(), nodes: Seq::empty(), next: 0 })
    } else {
        match key_walk(m, limit, step, (n - 1) as nat) {
            Err(e) => Err(e),
            Ok(w) => if w.next > limit {
                Err(FormatError::BadWord)
            } else {
                let offsets = w.offsets.push(w.next as u64);
                if step > 0 && (n - 1) as nat % step == 0 {
                    match words::decode_word(m, w.next) {
                        None => Err(FormatError::BadWord),
                        Some((key, value_at)) => if key.len() > u16::MAX {
                            Err(FormatError::KeyTooLong)
                        } else {
                            match words::skip_word(m, value_at) {
                                None => Err(FormatError::BadWord),
                                Some((_, next)) => Ok(Walk { offsets, nodes: w.nodes.push(key), next }),
                            }
                        },
                    }
                } else {
                    match words::skip_word(m, w.next) {
                        None => Err(FormatError::BadWord),
                        Some((_, value_at)) => match words::skip_word(m, value_at) {
                            None => Err(FormatError::BadWord),
                            Some((_, next)) => Ok(Walk { offsets, nodes: w.nodes, next }),
                        },
                    }
                }
            },
        }
    }
}

/// The offsets found never decrease and lie within the limit.
pub proof fn lemma_walk(m: SegModel, limit: int, step: nat, n: nat)
    requires
        0 <= limit < u64::MAX,
    ensures
        key_walk(m, limit, step, n) matches Ok(w) ==> {
            &&& w.offsets.len() == n
            &&& ef_builder::monotone(w.offsets, (limit + 1) as nat)
            &&& n > 0 ==> w.offsets.last() <= w.next
            &&& 0 <= w.next
            &&& forall|j: int| 0 <= j < w.nodes.len() ==> (#[trigger] w.nodes[j]).len() <= u16::MAX
            &&& step == 0 ==> w.nodes.len() == 0
            &&& step > 0 ==> w.nodes.len() == eliasfano::ceil_div(n, step)
        },
    decreases n,
{
    if n == 0 {
        if step > 0 {
            assert((step - 1) / step as int == 0) by (nonlinear_arith)
                requires
                    step > 0,
            ;
        }
    } else {
        lemma_walk(m, limit, step, (n - 1) as nat);
        if let Ok(w) = key_walk(m, limit, step, (n - 1) as nat) {
            if w.next <= limit {
                words::lemma_skip_advances(m, w.next);
                words::law_skip_agrees_with_next(m, w.next);
                let a: int = if step > 0 && (n - 1) as nat % step == 0 {
                    match words::decode_word(m, w.next) {
                        Some((key, a)) => a,
                        None => 0,
                    }
                } else {
                    match words::skip_word(m, w.next) {
                        Some((_, a)) => a,
                        None => 0,
                    }
                };
                words::lemma_skip_advances(m, a);
                let offsets = w.offsets.push(w.next as u64);
                assert forall|x: int, y: int| 0 <= x <= y < offsets.len() implies (#[trigger] offsets[x]) <= (
                #[trigger] offsets[y]) by {
                    if y == n - 1 && x < y {
                        assert(w.offsets[x] <= w.offsets[n - 2]);
                    }
                }
                if step > 0 {
                    lemma_ceil_step(n, step);
                }
            }
        }
    }
}

/// One more node for every `step` keys.
proof fn lemma_ceil_step(n: nat, step: nat)
    requires
        n > 0,
        step > 0,
    ensures
        eliasfano::ceil_div(n, step) == eliasfano::ceil_div((n - 1) as nat, step) + if (n - 1) as nat % step == 0 {
            1nat
        } else {
            0nat
        },
{
    let s = step as int;
    let k = (n - 1) as int;
    let q = k / s;
    let r = k % s;
    vstd::arithmetic::div_mod::lemma_fundamental_div_mod(k, s);
    vstd::arithmetic::div_mod::lemma_mod_bound(k, s);
    vstd::arithmetic::div_mod::lemma_div_pos_is_pos(k, s);
    assert((k + 1 + s - 1) / s == q + 1) by (nonlinear_arith)
        requires
            k == s * q + r,
            0 <= r < s,
    ;
    if r == 0 {
        assert((k + s - 1) / s == q) by (nonlinear_arith)
            requires
                k == s * q,
                s > 0,
        ;
    } else {
        assert((k + s - 1) / s == q + 1) by (nonlinear_arith)
            requires
                k == s * q + r,
                0 < r < s,
        ;
    }
}

// ------------------------------------------------------------------ the file

/// The first `n` nodes, each behind its length.
pub open spec fn nodes_bytes(nodes: Seq<Seq<u8>>, n: nat) -> Seq<u8>
    decreases n,
{
    if n == 0 {
        Seq::empty()
    } else {
        nodes_bytes(nodes, (n - 1) as nat) + bytes::be_bytes(nodes[n - 1].len(), 2) + nodes[n - 1]
    }
}

/// `s` with zeros up to a multiple of `align`.
pub open spec fn padded(s: Seq<u8>, align: nat) -> Seq<u8> {
    if s.len() % align == 0 {
        s
    } else {
        s + words::zeros((align - s.len() % align) as nat)
    }
}

/// What stands before the Elias-Fano section in the footer layout.
pub open spec fn node_part(nodes: Seq<Seq<u8>>) -> Seq<u8> {
    padded(seq![btree::FIRST_BYTE_FOOTER] + nodes_bytes(nodes, nodes.len()), 4096)
}

/// What ends a file in the footer layout.
pub open spec fn footer_part(key_count: nat, m: u64, ef_offset: nat) -> Seq<u8> {
    bytes::be_bytes(key_count, 8) + bytes::be_bytes(m as nat, 8) + bytes::be_bytes(ef_offset, 8) + bytes::be_bytes(24, 4)
        + bytes::be_bytes(0, 2) + bytes::be_bytes(1, 2) + btree::footer_magic()
}

/// The index file with an Elias-Fano section `ef` for `key_count` keys.
pub open spec fn bt_file(layout: BtLayout, m: u64, key_count: nat, nodes: Seq<Seq<u8>>, ef: Seq<u8>) -> Seq<u8> {
    match layout {
        BtLayout::Legacy => ef,
        BtLayout::Footer => padded(node_part(nodes) + ef, 8) + footer_part(key_count, m, node_part(nodes).len()),
    }
}

/// The fanout that is used: at least one.
pub open spec fn fanout(opts: BtOptions) -> u64 {
    if opts.m > 1 { opts.m } else { 1 }
}

/// Every how many keys a node is taken; zero for never.
pub open spec fn node_step(opts: BtOptions) -> nat {
    match opts.layout {
        BtLayout::Legacy => 0,
        BtLayout::Footer => fanout(opts) as nat,
    }
}

/// `out` is an index with these offsets and nodes, for a `.kv` of `size` bytes.
pub open spec fn is_bt(opts: BtOptions, w: Walk, size: nat, out: Seq<u8>) -> bool {
    exists|ef: Seq<u64>| #[trigger]
        ef_builder::is_ef(w.offsets, size + 1, ef) && out == bt_file(
            opts.layout,
            fanout(opts),
            w.offsets.len(),
            w.nodes,
            ef_builder::ef_bytes(w.offsets.len(), size + 1, ef),
        )
}

/// What building an index for a `.kv` of `size` bytes with these contents gives.
pub open spec fn bt_result(m: SegModel, size: nat, opts: BtOptions, r: Result<Vec<u8>>) -> bool {
    let n = (m.words_count / 2) as nat;
    if n == 0 {
        r matches Ok(out) && out@.len() == 0
    } else if size >= u64::MAX || !ef_builder::section_fits(n, size + 1) {
        r == Err::<Vec<u8>, Error>(Error::Format(FormatError::TooLarge))
    } else {
        match key_walk(m, size as int, node_step(opts), n) {
            Err(e) => r == Err::<Vec<u8>, Error>(Error::Format(e)),
            Ok(w) => if ef_builder::jumps_fit(w.offsets, eliasfano::low_width(n, size + 1)) {
                r matches Ok(out) && is_bt(opts, w, size, out@)
            } else {
                r == Err::<Vec<u8>, Error>(Error::Format(FormatError::IndexRange))
            },
        }
    }
}

fn pad_to(out: &mut Vec<u8>, align: usize)
    requires
        0 < align <= 4096,
    ensures
        final(out)@ == padded(old(out)@, align as nat),
{
    let ghost before = out@;
    let rem: usize = out.len() % align;
    if rem != 0 {
        let k: usize = align - rem;
        let mut i: usize = 0;
        while i < k
            invariant
                i <= k,
                out@ =~= before + words::zeros(i as nat),
            decreases k - i,
        {
            out.push(0);
            i = i + 1;
        }
    }
}

/// Go over the keys of a `.kv` of `limit` bytes: add their offsets to `ef` and the nodes,
/// each behind its length, to `out`.
fn walk_keys(seg: &Seg, step: u64, key_count: u64, ef: &mut EfBuilder, out: &mut Vec<u8>) -> (r: Result<()>)
    requires
        seg.bytes().len() < u64::MAX,
        old(ef).inv(),
        !old(ef).is_built(),
        old(ef).capacity() == key_count,
        old(ef).universe() == seg.bytes().len() + 1,
        old(ef).added() == Seq::<u64>::empty(),
    ensures
        match key_walk(seg.model(), seg.bytes().len() as int, step as nat, key_count as nat) {
            Ok(w) => {
                &&& r is Ok
                &&& final(ef).inv()
                &&& !final(ef).is_built()
                &&& final(ef).capacity() == old(ef).capacity()
                &&& final(ef).universe() == old(ef).universe()
                &&& final(ef).added() == w.offsets
                &&& final(out)@ == old(out)@ + nodes_bytes(w.nodes, w.nodes.len())
            },
            Err(e) => r == Err::<(), Error>(Error::Format(e)),
        },
{
    let ghost m = seg.model();
    let ghost before = out@;
    let ghost mut nodes: Seq<Seq<u8>> = Seq::empty();
    let limit: u64 = seg.len() as u64;
    let mut g = seg.getter();
    let mut di: u64 = 0;
    proof {
        assert(out@ =~= before + nodes_bytes(nodes, 0));
    }
    while di < key_count
        invariant
            di <= key_count,
            m == seg.model(),
            limit == seg.bytes().len(),
            limit < u64::MAX,
            g.model() == m,
            ef.inv(),
            !ef.is_built(),
            ef.capacity() == key_count,
            ef.universe() == limit + 1,
            out@ == before + nodes_bytes(nodes, nodes.len()),
            key_walk(m, limit as int, step as nat, di as nat) == Ok::<Walk, FormatError>(
                Walk { offsets: ef.added(), nodes, next: g.at() as int },
            ),
        decreases key_count - di,
    {
        let ghost offsets = ef.added();
        proof {
            lemma_walk_stuck(m, limit as int, step as nat, (di + 1) as nat, key_count as nat);
            lemma_walk(m, limit as int, step as nat, di as nat);
        }
        let off = g.offset();
        if off > limit {
            return Err(Error::Format(FormatError::BadWord));
        }
        if step > 0 && di % step == 0 {
            let key: Vec<u8> = match g.try_next() {
                Some(k) => k,
                None => return Err(Error::Format(FormatError::BadWord)),
            };
            if key.len() > u16::MAX as usize {
                return Err(Error::Format(FormatError::KeyTooLong));
            }
            let ghost more = nodes.push(key@);
            push_be(out, key.len() as u64, 2);
            push_bytes(out, key.as_slice());
            proof {
                lemma_nodes_same(nodes, more, nodes.len());
                assert(more[nodes.len() as int] == key@);
                assert(out@ =~= before + nodes_bytes(more, more.len()));
                nodes = more;
            }
        } else {
            match g.try_skip() {
                Some(_) => {},
                None => return Err(Error::Format(FormatError::BadWord)),
            }
        }
        match g.try_skip() {
            Some(_) => {},
            None => return Err(Error::Format(FormatError::BadWord)),
        }
        proof {
            assert(key_walk(m, limit as int, step as nat, (di + 1) as nat) == Ok::<Walk, FormatError>(
                Walk { offsets: offsets.push(off), nodes, next: g.at() as int },
            ));
            lemma_walk(m, limit as int, step as nat, (di + 1) as nat);
            let after = offsets.push(off);
            if offsets.len() > 0 {
                let k = offsets.len() - 1;
                assert(after[k] <= after[k + 1]);
                assert(after[k] == offsets.last());
            }
        }
        ef.add_offset(off);
        di = di + 1;
    }
    Ok(())
}

/// Whether the keys of a `.kv` can be gone over, and what is in the way if not.
fn check_keys(seg: &Seg, step: u64, key_count: u64) -> (r: Result<()>)
    requires
        seg.bytes().len() < u64::MAX,
    ensures
        match key_walk(seg.model(), seg.bytes().len() as int, step as nat, key_count as nat) {
            Ok(_) => r is Ok,
            Err(e) => r == Err::<(), Error>(Error::Format(e)),
        },
{
    let ghost m = seg.model();
    let limit: u64 = seg.len() as u64;
    let mut g = seg.getter();
    let mut di: u64 = 0;
    while di < key_count
        invariant
            di <= key_count,
            m == seg.model(),
            limit == seg.bytes().len(),
            g.model() == m,
            key_walk(m, limit as int, step as nat, di as nat) matches Ok(w) && w.next == g.at(),
        decreases key_count - di,
    {
        proof {
            lemma_walk_stuck(m, limit as int, step as nat, (di + 1) as nat, key_count as nat);
        }
        if g.offset() > limit {
            return Err(Error::Format(FormatError::BadWord));
        }
        if step > 0 && di % step == 0 {
            match g.try_next() {
                Some(key) => {
                    if key.len() > u16::MAX as usize {
                        return Err(Error::Format(FormatError::KeyTooLong));
                    }
                },
                None => return Err(Error::Format(FormatError::BadWord)),
            }
        } else {
            match g.try_skip() {
                Some(_) => {},
                None => return Err(Error::Format(FormatError::BadWord)),
            }
        }
        match g.try_skip() {
            Some(_) => {},
            None => return Err(Error::Format(FormatError::BadWord)),
        }
        di = di + 1;
    }
    Ok(())
}

/// The first nodes are the same, whatever follows them.
proof fn lemma_nodes_same(a: Seq<Seq<u8>>, b: Seq<Seq<u8>>, n: nat)
    requires
        n <= a.len(),
        n <= b.len(),
        forall|i: int| 0 <= i < n ==> #[trigger] a[i] == b[i],
    ensures
        nodes_bytes(a, n) == nodes_bytes(b, n),
    decreases n,
{
    if n > 0 {
        lemma_nodes_same(a, b, (n - 1) as nat);
        assert(a[n - 1] == b[n - 1]);
    }
}

/// A walk that fails stays failed.
proof fn lemma_walk_stuck(m: SegModel, limit: int, step: nat, k: nat, n: nat)
    requires
        k <= n,
    ensures
        key_walk(m, limit, step, k) matches Err(e) ==> key_walk(m, limit, step, n) == Err::<Walk, FormatError>(e),
    decreases n,
{
    if k < n {
        lemma_walk_stuck(m, limit, step, k, (n - 1) as nat);
    }
}

/// Build a `.bt` index for a `.kv` file: the bytes of the index.
pub fn build_bt(kv: &[u8], opts: BtOptions) -> (r: Result<Vec<u8>>)
    ensures
        match words::parse_seg(kv@, false) {
            None => r == Err::<Vec<u8>, Error>(Error::Format(FormatError::InvalidKv)),
            Some(m) => bt_result(m, kv@.len(), opts, r),
        },
{
    match Seg::open(kv) {
        Ok(seg) => build_bt_from_seg(&seg, opts),
        Err(e) => Err(e),
    }
}

/// Build a `.bt` index from an already-open [`Seg`]: the bytes of the index.
pub fn build_bt_from_seg(seg: &Seg, opts: BtOptions) -> (r: Result<Vec<u8>>)
    ensures
        bt_result(seg.model(), seg.bytes().len(), opts, r),
{
    let key_count: u64 = seg.words_count() / 2;
    // An empty domain yields an empty index, which the reader treats as 0 keys.
    if key_count == 0 {
        return Ok(Vec::new());
    }
    let size: u64 = seg.len() as u64;
    if size == u64::MAX || !EfBuilder::fits(key_count, size) {
        return Err(Error::Format(FormatError::TooLarge));
    }
    let m: u64 = if opts.m > 1 { opts.m } else { 1 };
    let footer: bool = matches!(opts.layout, BtLayout::Footer);
    let step: u64 = if footer { m } else { 0 };
    if key_count > size {
        // More keys than bytes: see whether they are there before making room for them.
        match check_keys(seg, step, key_count) {
            Ok(_) => {},
            Err(e) => return Err(e),
        }
    }
    let mut ef = EfBuilder::new(key_count, size);
    let mut out: Vec<u8> = Vec::new();
    if footer {
        out.push(btree::FIRST_BYTE_FOOTER);
    }
    let ghost first = out@;
    match walk_keys(seg, step, key_count, &mut ef, &mut out) {
        Ok(_) => {},
        Err(e) => return Err(e),
    }
    let ghost w = key_walk(seg.model(), size as int, step as nat, key_count as nat)->Ok_0;
    proof {
        lemma_walk(seg.model(), size as int, step as nat, key_count as nat);
    }
    if !ef.try_build() {
        return Err(Error::Format(FormatError::IndexRange));
    }
    proof {
        ef.lemma_built();
    }
    let ghost section = ef_builder::ef_bytes(key_count as nat, (size + 1) as nat, ef.words());
    if footer {
        proof {
            assert(first =~= seq![btree::FIRST_BYTE_FOOTER]);
        }
        pad_to(&mut out, BT_EF_ALIGN);
        let ef_offset: u64 = out.len() as u64;
        ef.write_to(&mut out);
        pad_to(&mut out, BT_FOOTER_ALIGN);
        let ghost body = out@;
        push_be(&mut out, key_count, 8);
        push_be(&mut out, m, 8);
        push_be(&mut out, ef_offset, 8);
        push_be(&mut out, 24, 4);
        push_be(&mut out, 0, 2);
        push_be(&mut out, 1, 2);
        push_magic(&mut out);
        proof {
            assert(out@ =~= body + footer_part(key_count as nat, m, ef_offset as nat));
            assert(out@ == bt_file(opts.layout, fanout(opts), key_count as nat, w.nodes, section));
        }
    } else {
        ef.write_to(&mut out);
        proof {
            assert(out@ =~= bt_file(opts.layout, fanout(opts), key_count as nat, w.nodes, section));
        }
    }
    proof {
        assert(ef_builder::is_ef(w.offsets, (size + 1) as nat, ef.words()));
    }
    Ok(out)
}

fn push_magic(out: &mut Vec<u8>)
    ensures
        final(out)@ == old(out)@ + btree::footer_magic(),
{
    let ghost before = out@;
    out.push(101);
    out.push(114);
    out.push(105);
    out.push(103);
    out.push(111);
    out.push(110);
    out.push(0);
    out.push(0);
    proof {
        assert(out@ =~= before + btree::footer_magic());
    }
}

// ------------------------------------------------------------------ opening what was built

proof fn lemma_nodes_prefix(nodes: Seq<Seq<u8>>, k: nat, n: nat)
    requires
        k <= n <= nodes.len(),
    ensures
        nodes_bytes(nodes, k).len() <= nodes_bytes(nodes, n).len(),
        nodes_bytes(nodes, n).take(nodes_bytes(nodes, k).len() as int) == nodes_bytes(nodes, k),
    decreases n,
{
    let a = nodes_bytes(nodes, k);
    let s = nodes_bytes(nodes, n);
    if k == n {
        assert(s.take(a.len() as int) =~= a);
    } else {
        lemma_nodes_prefix(nodes, k, (n - 1) as nat);
        let t = nodes_bytes(nodes, (n - 1) as nat);
        assert(s.take(a.len() as int) =~= t.take(a.len() as int));
    }
}

proof fn lemma_total_len_grows(nodes: Seq<Seq<u8>>, k: nat, n: nat)
    requires
        k <= n,
    ensures
        btree::total_len(nodes, k) <= btree::total_len(nodes, n),
    decreases n,
{
    if k < n {
        lemma_total_len_grows(nodes, k, (n - 1) as nat);
    }
}

/// An entry of the nodes stands where it should.
proof fn lemma_entry_at(data: Seq<u8>, s: Seq<u8>, a: Seq<u8>, lb: Seq<u8>, key: Seq<u8>)
    requires
        lb.len() == 2,
        1 + s.len() <= data.len(),
        data.subrange(1, 1 + s.len() as int) == s,
        (a + lb + key).len() <= s.len(),
        s.take((a + lb + key).len() as int) == a + lb + key,
    ensures
        ({
            let p = 1 + a.len() as int;
            &&& data.subrange(p, p + 2) == lb
            &&& data.subrange(p + 2, p + 2 + key.len()) == key
        }),
{
    let b = a + lb + key;
    let p = 1 + a.len() as int;
    assert forall|i: int| 0 <= i < b.len() implies #[trigger] data[1 + i] == b[i] by {
        assert(s.take(b.len() as int)[i] == s[i]);
        assert(data.subrange(1, 1 + s.len() as int)[i] == data[1 + i]);
    }
    assert forall|i: int| 0 <= i < 2 implies #[trigger] data.subrange(p, p + 2)[i] == lb[i] by {
        assert(data[1 + (a.len() + i)] == b[a.len() + i]);
    }
    assert(data.subrange(p, p + 2) =~= lb);
    let t = data.subrange(p + 2, p + 2 + key.len());
    assert forall|i: int| 0 <= i < key.len() implies #[trigger] t[i] == key[i] by {
        assert(data[1 + (a.len() + 2 + i)] == b[a.len() + 2 + i]);
    }
    assert(t =~= key);
}

/// Parsing goes on behind an entry that stands at `p`.
proof fn lemma_parse_entry(data: Seq<u8>, p: int, count: nat, end: int, total: int, key: Seq<u8>)
    requires
        0 < count,
        0 <= p,
        p + 2 + key.len() <= end <= data.len(),
        key.len() <= u16::MAX,
        data.subrange(p, p + 2) == bytes::be_bytes(key.len(), 2),
        data.subrange(p + 2, p + 2 + key.len()) == key,
    ensures
        btree::parse_keys(data, p, count, end, total) == if total + key.len() > u32::MAX {
            None
        } else {
            match btree::parse_keys(data, p + 2 + key.len(), (count - 1) as nat, end, total + key.len()) {
                None => None,
                Some(rest) => Some(seq![key] + rest),
            }
        },
{
    crate::bits::lemma_pow2_64();
    bytes::lemma_be_roundtrip(key.len(), 2);
}

/// Parsing the nodes where they stand gives them back, unless they are too long together.
#[verifier::spinoff_prover]
#[verifier::rlimit(40)]
proof fn lemma_parse_nodes(nodes: Seq<Seq<u8>>, data: Seq<u8>, end: int, k: nat)
    requires
        k <= nodes.len(),
        1 + nodes_bytes(nodes, nodes.len()).len() <= end <= data.len(),
        data.subrange(1, 1 + nodes_bytes(nodes, nodes.len()).len() as int) == nodes_bytes(nodes, nodes.len()),
        forall|j: int| 0 <= j < nodes.len() ==> (#[trigger] nodes[j]).len() <= u16::MAX,
        btree::total_len(nodes, k) <= u32::MAX,
    ensures
        btree::parse_keys(
            data,
            1 + nodes_bytes(nodes, k).len() as int,
            (nodes.len() - k) as nat,
            end,
            btree::total_len(nodes, k) as int,
        ) == if btree::total_len(nodes, nodes.len()) <= u32::MAX { Some(nodes.skip(k as int)) } else { None },
    decreases nodes.len() - k,
{
    let n = nodes.len();
    let s = nodes_bytes(nodes, n);
    if k == n {
        assert(nodes.skip(k as int) =~= Seq::empty());
    } else {
        lemma_total_len_grows(nodes, k + 1, n);
        if btree::total_len(nodes, k + 1) <= u32::MAX {
            lemma_parse_nodes(nodes, data, end, k + 1);
        }
        lemma_nodes_prefix(nodes, k + 1, n);
        let a = nodes_bytes(nodes, k);
        let b = nodes_bytes(nodes, k + 1);
        let key = nodes[k as int];
        let lb = bytes::be_bytes(key.len(), 2);
        assert(b == a + lb + key);
        lemma_entry_at(data, s, a, lb, key);
        let p = 1 + a.len() as int;
        lemma_parse_entry(data, p, (n - k) as nat, end, btree::total_len(nodes, k) as int, key);
        assert(nodes.skip(k as int) =~= seq![key] + nodes.skip((k + 1) as int));
    }
}

/// The magic, read as a word.
proof fn lemma_magic_value()
    ensures
        bytes::le_value(btree::footer_magic()) == 0x6e6f_6769_7265,
{
    let m = btree::footer_magic();
    reveal_with_fuel(bytes::le_value, 9);
    let t1 = m.drop_first();
    let t2 = t1.drop_first();
    let t3 = t2.drop_first();
    let t4 = t3.drop_first();
    let t5 = t4.drop_first();
    let t6 = t5.drop_first();
    let t7 = t6.drop_first();
    let t8 = t7.drop_first();
    assert(t8.len() == 0);
    assert(t7[0] == 0 && t6[0] == 0 && t5[0] == 110 && t4[0] == 111 && t3[0] == 103 && t2[0] == 105 && t1[0] == 114);
    assert(bytes::le_value(t8) == 0);
    assert(bytes::le_value(t7) == 0);
    assert(bytes::le_value(t6) == 0);
    assert(bytes::le_value(t5) == 110);
    assert(bytes::le_value(t4) == 111 + 256 * 110);
}

/// The last word of a jump table never looks like the magic.
proof fn lemma_last_word(offsets: Seq<u64>, u: nat, w: Seq<u64>)
    requires
        0 < offsets.len(),
        ef_builder::monotone(offsets, u),
        ef_builder::is_ef(offsets, u, w),
        ef_builder::jumps_fit(offsets, eliasfano::low_width(offsets.len(), u)),
    ensures
        w.len() > 0,
        w[w.len() - 1] != 0x6e6f_6769_7265,
{
    let n = offsets.len();
    let l = eliasfano::low_width(n, u);
    let js = ef_builder::jump_words(n) as int;
    let jb = (eliasfano::lower_words(n, u) + eliasfano::upper_words(n, u)) as int;
    ef_builder::lemma_one_at(offsets, n, u);
    let j = js - 1;
    assert(js > 0);
    assert(w[jb + j] == ef_builder::jump_word(offsets, l, j));
    let rem = n % 16384;
    let s = n / 16384;
    if rem != 0 {
        let k = (rem + 255) / 256;
        let r0 = (k + 3) / 2;
        assert(j == 33 * s + r0);
        if r0 == 33 {
            assert(j / 33 == s + 1 && j % 33 == 0);
        } else {
            assert(j / 33 == s && j % 33 == r0);
            let c = s * 16384 + 512 * (r0 - 1);
            assert(c >= n);
        }
        assert(ef_builder::jump_word(offsets, l, j) == 0);
    } else {
        assert(j == 33 * (s - 1) + 32);
        assert(j / 33 == s - 1 && j % 33 == 32);
        let b = (s - 1) * 16384;
        let c = b + 512 * 31;
        let lo = ef_builder::jump_distance(offsets, l, c);
        let hi = ef_builder::jump_distance(offsets, l, c + 256);
        assert((c / 16384) * 16384 == b && ((c + 256) / 16384) * 16384 == b);
        assert(ef_builder::one_at(offsets, l, c) < ef_builder::one_at(offsets, l, c + 256));
        assert(ef_builder::one_at(offsets, l, b) < ef_builder::one_at(offsets, l, c));
        assert(0 <= lo < hi < 0x1_0000_0000);
    }
}

/// The contents of an index that was built from a walk.
pub open spec fn built_model(opts: BtOptions, w: Walk, b: btree::BtModel) -> bool {
    &&& btree::key_count_of(b) == w.offsets.len()
    &&& forall|i: int| 0 <= i < w.offsets.len() ==> #[trigger] btree::key_offset_of(b, i) == Some(w.offsets[i])
    &&& match opts.layout {
        BtLayout::Legacy => b.m is None && b.nodes is None,
        BtLayout::Footer => b.m == Some(fanout(opts)) && b.nodes == if btree::total_len(w.nodes, w.nodes.len())
            <= u32::MAX {
            Some(btree::NodesModel { keys: w.nodes, m: fanout(opts), key_count: w.offsets.len() as u64 })
        } else {
            None
        },
    }
}

/// What an index file that was built opens as.
pub open spec fn opens_as(opts: BtOptions, w: Walk, out: Seq<u8>) -> bool {
    btree::parse_bt(out) matches Ok(b) && built_model(opts, w, b)
}

/// A built legacy index opens and gives back every offset.
proof fn lemma_legacy_opens(opts: BtOptions, w: Walk, size: nat, ef: Seq<u64>)
    requires
        opts.layout == BtLayout::Legacy,
        0 < w.offsets.len() <= u64::MAX,
        (w.offsets.len() - 1) / 0x100_0000_0000_0000 != 1,
        size < u64::MAX,
        ef_builder::monotone(w.offsets, size + 1),
        ef_builder::is_ef(w.offsets, size + 1, ef),
        ef_builder::jumps_fit(w.offsets, eliasfano::low_width(w.offsets.len(), size + 1)),
    ensures
        opens_as(opts, w, ef_builder::ef_bytes(w.offsets.len(), size + 1, ef)),
{
    let n = w.offsets.len();
    let out = ef_builder::ef_bytes(n, size + 1, ef);
    let none = Seq::<u8>::empty();
    ef_builder::law_ef_roundtrip(w.offsets, size + 1, ef, none, none);
    assert(none + out + none =~= out);
    ef_builder::lemma_words_bytes(ef, ef.len());
    lemma_last_word(w.offsets, size + 1, ef);
    vstd::arithmetic::power2::lemma2_to64_rest();
    crate::bits::lemma_pow2_64();
    assert(!btree::has_magic_spec(out)) by {
        let k = ef.len() - 1;
        let wb = ef_builder::words_bytes(ef, ef.len());
        let tail = out.subrange(out.len() - 8, out.len() as int);
        assert(wb.subrange(8 * k, 8 * k + 8) == bytes::le_bytes(ef[k] as nat, 8));
        assert(tail =~= wb.subrange(8 * k, 8 * k + 8));
        bytes::lemma_le_roundtrip(ef[k] as nat, 8);
        lemma_magic_value();
    }
    assert(out[0] == bytes::byte_of((n - 1) as nat, 7));
    let top = (n - 1) / 0x100_0000_0000_0000;
    assert(top < 256);
    assert(out[0] == top);
}

/// A built footer index opens and gives back every offset and node.
#[verifier::spinoff_prover]
#[verifier::rlimit(60)]
proof fn lemma_footer_opens(opts: BtOptions, w: Walk, size: nat, ef: Seq<u64>)
    requires
        opts.layout == BtLayout::Footer,
        0 < w.offsets.len() <= u64::MAX,
        size < u64::MAX,
        ef_builder::monotone(w.offsets, size + 1),
        ef_builder::is_ef(w.offsets, size + 1, ef),
        ef_builder::jumps_fit(w.offsets, eliasfano::low_width(w.offsets.len(), size + 1)),
        w.nodes.len() == eliasfano::ceil_div(w.offsets.len(), fanout(opts) as nat),
        forall|j: int| 0 <= j < w.nodes.len() ==> (#[trigger] w.nodes[j]).len() <= u16::MAX,
        bt_file(opts.layout, fanout(opts), w.offsets.len(), w.nodes, ef_builder::ef_bytes(w.offsets.len(), size + 1, ef)).len()
            <= u64::MAX,
    ensures
        opens_as(
            opts,
            w,
            bt_file(opts.layout, fanout(opts), w.offsets.len(), w.nodes, ef_builder::ef_bytes(w.offsets.len(), size + 1, ef)),
        ),
{
    let n = w.offsets.len();
    let m = fanout(opts);
    let e = ef_builder::ef_bytes(n, size + 1, ef);
    let a = node_part(w.nodes);
    let body = padded(a + e, 8);
    let f = footer_part(n, m, a.len());
    let out = body + f;
    let post = out.skip((a + e).len() as int);
    let len = out.len() as int;
    let start = body.len() as int;
    crate::bits::lemma_pow2_64();
    vstd::arithmetic::power2::lemma2_to64();
    assert(body.len() >= (a + e).len() && body.take((a + e).len() as int) =~= a + e);
    assert(out =~= a + e + post) by {
        assert(out.take((a + e).len() as int) =~= a + e);
    }
    ef_builder::law_ef_roundtrip(w.offsets, size + 1, ef, a, post);
    bytes::lemma_be_roundtrip(n, 8);
    bytes::lemma_be_roundtrip(m as nat, 8);
    bytes::lemma_be_roundtrip(a.len(), 8);
    bytes::lemma_be_roundtrip(24, 4);
    assert(out.subrange(len - 8, len) =~= btree::footer_magic());
    assert(out.subrange(len - 16, len - 12) =~= bytes::be_bytes(24, 4));
    assert(start == len - 16 - 24);
    assert(out.subrange(start, start + 8) =~= bytes::be_bytes(n, 8));
    assert(out.subrange(start + 8, start + 16) =~= bytes::be_bytes(m as nat, 8));
    assert(out.subrange(start + 16, start + 24) =~= bytes::be_bytes(a.len(), 8));
    ef_builder::lemma_words_bytes(ef, ef.len());
    assert(e.len() >= 16);
    assert(out.take(a.len() as int) =~= a) by {
        assert((a + e).take(a.len() as int) =~= a);
    }
    lemma_footer_nodes(w.nodes, n as u64, m, out);
}

/// The nodes at the start of a file in the footer layout.
proof fn lemma_footer_nodes(nodes: Seq<Seq<u8>>, key_count: u64, m: u64, out: Seq<u8>)
    requires
        key_count > 0,
        m > 0,
        node_part(nodes).len() <= out.len(),
        out.take(node_part(nodes).len() as int) == node_part(nodes),
        nodes.len() == eliasfano::ceil_div(key_count as nat, m as nat),
        forall|j: int| 0 <= j < nodes.len() ==> (#[trigger] nodes[j]).len() <= u16::MAX,
    ensures
        btree::parse_nodes_spec(out, key_count, m, node_part(nodes).len() as int) == if btree::total_len(
            nodes,
            nodes.len(),
        ) <= u32::MAX {
            Some(btree::NodesModel { keys: nodes, m, key_count })
        } else {
            None
        },
{
    let a = node_part(nodes);
    let nb = nodes_bytes(nodes, nodes.len());
    assert(a.subrange(1, 1 + nb.len() as int) =~= nb);
    assert(out.subrange(1, 1 + nb.len() as int) =~= out.take(a.len() as int).subrange(1, 1 + nb.len() as int));
    lemma_parse_nodes(nodes, out, a.len() as int, 0);
    assert(nodes.skip(0) =~= nodes);
    assert(a.len() >= 4096);
}

/// An index that was built for a `.kv` opens as an index with the offset of every key
/// and, in the footer layout, with the fanout and, unless they are too long together,
/// the nodes.
pub proof fn law_built_index_opens(m: SegModel, size: nat, opts: BtOptions, out: Seq<u8>)
    requires
        0 < m.words_count / 2,
        size < u64::MAX,
        out.len() <= u64::MAX,
        key_walk(m, size as int, node_step(opts), (m.words_count / 2) as nat) matches Ok(w) && ef_builder::jumps_fit(
            w.offsets,
            eliasfano::low_width((m.words_count / 2) as nat, size + 1),
        ) && is_bt(opts, w, size, out),
        opts.layout == BtLayout::Legacy ==> (m.words_count / 2 - 1) / 0x100_0000_0000_0000 != 1,
    ensures
        opens_as(opts, key_walk(m, size as int, node_step(opts), (m.words_count / 2) as nat)->Ok_0, out),
{
    let n = (m.words_count / 2) as nat;
    let w = key_walk(m, size as int, node_step(opts), n)->Ok_0;
    lemma_walk(m, size as int, node_step(opts), n);
    let ef = choose|ef: Seq<u64>| #[trigger]
        ef_builder::is_ef(w.offsets, size + 1, ef) && out == bt_file(
            opts.layout,
            fanout(opts),
            w.offsets.len(),
            w.nodes,
            ef_builder::ef_bytes(w.offsets.len(), size + 1, ef),
        );
    match opts.layout {
        BtLayout::Legacy => {
            lemma_legacy_opens(opts, w, size, ef);
        },
        BtLayout::Footer => {
            lemma_footer_opens(opts, w, size, ef);
        },
    }
}

} // verus!
