//! Indexes and filters built for a `.kv` that is there already.
//!
//! Whatever `.kv` holds a list of pairs, an index that
//! [`build_bt`](crate::bt_writer::build_bt) makes for it, and a filter that
//! [`build_kvei`](crate::kvei_writer::build_kvei) makes for it, open beside it, and the file
//! set holds the same pairs: lookups, iteration and narrowing give what they should.

use vstd::prelude::*;

use crate::bt_writer;
use crate::bt_writer::{BtLayout, BtOptions};
use crate::btree;
use crate::btree::NodesModel;
use crate::domain;
use crate::domain::Pair;
use crate::eliasfano;
use crate::kvei_writer;
use crate::readback;
use crate::reader;
use crate::reader::ReaderModel;
use crate::salt::Salt;
use crate::words;

verus! {

/// A `.kv` opens on its own and holds these pairs.
pub open spec fn kv_holds(kv: Seq<u8>, has_metadata: bool, pairs: Seq<Pair>) -> bool {
    reader::opened(kv, None, None, has_metadata) matches Ok(r) && readback::holds(r, pairs)
}

/// `bt` is what building an index for a `.kv` gave.
pub open spec fn index_built(kv: Seq<u8>, has_metadata: bool, opts: BtOptions, bt: Vec<u8>) -> bool {
    words::parse_seg(kv, has_metadata) matches Some(m) && bt_writer::bt_result(m, kv.len(), opts, Ok(bt))
}

/// `kvei` is what building a filter for a `.kv` gave.
pub open spec fn filter_built(kv: Seq<u8>, has_metadata: bool, salt: u32, kvei: Vec<u8>) -> bool {
    words::parse_seg(kv, has_metadata) matches Some(m) && kvei_writer::kvei_result(m, salt, Ok(kvei))
}

/// The layout of an index for `n` keys can be told from its first byte: in the legacy
/// layout that is the top byte of `n - 1`, and it is taken for the mark of the other
/// layout if it is 1.
pub open spec fn layout_is_clear(opts: BtOptions, n: nat) -> bool {
    opts.layout == BtLayout::Legacy ==> (n - 1) / 0x100_0000_0000_0000 != 1
}

/// An index built for a `.kv` opens beside it, whatever filter there is, and the file set
/// holds the pairs that the `.kv` holds: every lookup by the index finds what is there.
pub proof fn law_built_index_holds(
    kv: Seq<u8>,
    has_metadata: bool,
    kvei: Option<Seq<u8>>,
    pairs: Seq<Pair>,
    opts: BtOptions,
    bt: Vec<u8>,
)
    requires
        kv_holds(kv, has_metadata, pairs),
        index_built(kv, has_metadata, opts, bt),
        layout_is_clear(opts, pairs.len()),
    ensures
        reader::opened(kv, Some(bt@), kvei, has_metadata) matches Ok(r) && r.index is Some && readback::holds(r, pairs),
{
    let r = reader::opened(kv, None, None, has_metadata)->Ok_0;
    let offs = choose|offs: Seq<int>| #[trigger] readback::holds_at(r, pairs, offs);
    words::lemma_words_in_file(kv, has_metadata);
    readback::lemma_index_built(r.seg, pairs, offs, kv.len(), opts, bt);
    let s = reader::opened(kv, Some(bt@), kvei, has_metadata)->Ok_0;
    assert(readback::holds_at(s, pairs, offs));
}

/// A filter built for a `.kv` opens beside it, whatever index there is, and the file set
/// holds the pairs, also with the filter in use under the salt it was built with. A filter
/// for two keys or more is accepted with that salt.
pub proof fn law_built_filter_holds(
    kv: Seq<u8>,
    has_metadata: bool,
    bt: Option<Seq<u8>>,
    pairs: Seq<Pair>,
    salt: u32,
    kvei: Vec<u8>,
)
    requires
        reader::opened(kv, bt, None, has_metadata) matches Ok(r) && readback::holds(r, pairs),
        filter_built(kv, has_metadata, salt, kvei),
    ensures
        reader::opened(kv, bt, Some(kvei@), has_metadata) matches Ok(r) && {
            &&& r.bloom is Some
            &&& readback::holds(r, pairs)
            &&& readback::holds(ReaderModel { salt: Some(salt), ..r }, pairs)
            &&& pairs.len() >= 2 ==> reader::enabled_salt(r, Salt::Known(salt)) == Some(salt)
        },
{
    let r = reader::opened(kv, bt, None, has_metadata)->Ok_0;
    let offs = choose|offs: Seq<int>| #[trigger] readback::holds_at(r, pairs, offs);
    readback::lemma_filter_built(r.seg, pairs, offs, salt, kvei);
    let s = reader::opened(kv, bt, Some(kvei@), has_metadata)->Ok_0;
    assert(readback::holds_at(s, pairs, offs));
    assert(readback::holds_at(ReaderModel { salt: Some(salt), ..s }, pairs, offs));
    if pairs.len() >= 2 {
        readback::law_right_salt_is_accepted(s, pairs, salt);
    }
}

// ------------------------------------------------------------------ nodes

/// Every `step`-th key.
pub open spec fn node_keys(pairs: Seq<Pair>, step: nat) -> Seq<Seq<u8>> {
    Seq::new(eliasfano::ceil_div(pairs.len(), step), |j: int| pairs[j * step].0)
}

/// The nodes of an index in the footer layout, built for a `.kv`, are every `M`-th key of
/// it, with the fanout and the number of keys; an index whose nodes take 4 GiB or more is
/// read without them.
pub proof fn law_built_nodes(kv: Seq<u8>, has_metadata: bool, pairs: Seq<Pair>, opts: BtOptions, bt: Vec<u8>)
    requires
        kv_holds(kv, has_metadata, pairs),
        pairs.len() > 0,
        opts.layout == BtLayout::Footer,
        index_built(kv, has_metadata, opts, bt),
    ensures
        btree::parse_bt(bt@) matches Ok(b) && {
            let keys = node_keys(pairs, bt_writer::fanout(opts) as nat);
            &&& b.m == Some(bt_writer::fanout(opts))
            &&& b.nodes == if btree::total_len(keys, keys.len()) <= u32::MAX {
                Some(NodesModel { keys, m: bt_writer::fanout(opts), key_count: pairs.len() as u64 })
            } else {
                None
            }
        },
{
    let r = reader::opened(kv, None, None, has_metadata)->Ok_0;
    let m = r.seg;
    let offs = choose|offs: Seq<int>| #[trigger] readback::holds_at(r, pairs, offs);
    let step = bt_writer::node_step(opts);
    words::lemma_words_in_file(kv, has_metadata);
    readback::lemma_walk_stored(m, pairs, offs, kv.len() as int, step, pairs.len());
    let w = bt_writer::key_walk(m, kv.len() as int, step, pairs.len())->Ok_0;
    assert(bt@.len() == bt.len());
    bt_writer::law_built_index_opens(m, kv.len(), opts, bt@);
    assert(w.nodes =~= node_keys(pairs, step));
}

/// Narrowing by an index built for a `.kv` gives a range within its keys that holds every
/// key that is there: at most a block long in the footer layout, unless the nodes take
/// 4 GiB or more, and all keys in the legacy layout, which has no nodes.
pub proof fn law_built_index_narrows(
    kv: Seq<u8>,
    has_metadata: bool,
    pairs: Seq<Pair>,
    opts: BtOptions,
    bt: Vec<u8>,
    key: Seq<u8>,
)
    requires
        kv_holds(kv, has_metadata, pairs),
        pairs.len() > 0,
        index_built(kv, has_metadata, opts, bt),
        layout_is_clear(opts, pairs.len()),
    ensures
        btree::parse_bt(bt@) matches Ok(b) && {
            let (lo, hi) = btree::narrow_in(b, key);
            let keys = node_keys(pairs, bt_writer::fanout(opts) as nat);
            &&& 0 <= lo <= hi <= pairs.len()
            &&& forall|i: int| 0 <= i < pairs.len() && (#[trigger] pairs[i]).0 == key ==> lo <= i < hi
            &&& match opts.layout {
                BtLayout::Legacy => b.nodes is None && lo == 0 && hi == pairs.len(),
                BtLayout::Footer => btree::total_len(keys, keys.len()) <= u32::MAX ==> hi - lo <= bt_writer::fanout(opts),
            }
        },
{
    let r = reader::opened(kv, None, None, has_metadata)->Ok_0;
    let m = r.seg;
    let offs = choose|offs: Seq<int>| #[trigger] readback::holds_at(r, pairs, offs);
    words::lemma_words_in_file(kv, has_metadata);
    readback::lemma_index_built(m, pairs, offs, kv.len(), opts, bt);
    let b = btree::parse_bt(bt@)->Ok_0;
    let (lo, hi) = btree::narrow_in(b, key);
    let keys = domain::keys_of(pairs);
    if let Some(n) = b.nodes {
        readback::lemma_narrow_bounds(n, keys, key);
        assert forall|i: int| 0 <= i < pairs.len() && (#[trigger] pairs[i]).0 == key implies lo <= i < hi by {
            assert(keys[i] == key);
            btree::law_narrow_brackets(n, keys, i);
        }
    }
    match opts.layout {
        BtLayout::Legacy => {
            assert(bt@.len() == bt.len());
            readback::lemma_walk_stored(m, pairs, offs, kv.len() as int, bt_writer::node_step(opts), pairs.len());
            bt_writer::law_built_index_opens(m, kv.len(), opts, bt@);
        },
        BtLayout::Footer => {
            law_built_nodes(kv, has_metadata, pairs, opts, bt);
        },
    }
}

} // verus!
