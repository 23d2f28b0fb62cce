//! Reading gives back what was written.
//!
//! [`holds`] says that a reader's files hold a list of pairs with strictly increasing
//! keys: the data file stores them word by word, the index, if there is one, knows where
//! each key starts, and the filter, if it is in use, contains every key. Such a reader
//! finds every key with its value, and nothing else. The files that a
//! [`DomainWriter`](crate::domain::DomainWriter) makes are such files.

use vstd::prelude::*;

use crate::bloom;
use crate::bloom::FilterModel;
use crate::bt_writer;
use crate::bt_writer::{BtLayout, BtOptions, Walk};
use crate::btree;
use crate::btree::{BtModel, NodesModel};
use crate::bytes;
use crate::bytes::lex_lt;
use crate::coder;
use crate::compress::weight;
use crate::depth;
use crate::domain;
use crate::domain::{DomainFiles, DomainOptions, Pair};
use crate::ef_builder;
use crate::eliasfano;
use crate::error::{Error, FormatError, Result};
use crate::hash;
use crate::kvei_writer;
use crate::merge;
use crate::reader;
use crate::reader::{Found, ReaderModel};
use crate::roundtrip;
use crate::salt::Salt;
use crate::seg_writer;
use crate::words;
use crate::words::SegModel;

verus! {

/// The file stores `ws`, word `i` at `offs[i]`, from its start to its end.
pub open spec fn stores(m: SegModel, ws: Seq<Seq<u8>>, offs: Seq<int>) -> bool {
    &&& m.words_count == ws.len()
    &&& m.words.len() <= u64::MAX
    &&& offs.len() == ws.len() + 1
    &&& offs[0] == 0
    &&& offs[ws.len() as int] == m.words.len()
    &&& forall|a: int, b: int| 0 <= a < b < offs.len() ==> #[trigger] offs[a] < #[trigger] offs[b]
    &&& forall|i: int| 0 <= i < ws.len() ==> words::decode_word(m, offs[i]) == Some((#[trigger] ws[i], offs[i + 1]))
}

/// The index knows where every key of the pairs starts, and its nodes are some of them.
pub open spec fn indexes(b: BtModel, pairs: Seq<Pair>, offs: Seq<int>) -> bool {
    &&& btree::key_count_of(b) == pairs.len()
    &&& forall|i: int| 0 <= i < pairs.len() ==> #[trigger] btree::key_offset_of(b, i) == Some(offs[2 * i] as u64)
    &&& b.nodes matches Some(n) ==> btree::nodes_of(n, domain::keys_of(pairs))
}

/// The filter contains every key of the pairs under `salt`.
pub open spec fn covers_keys(f: FilterModel, pairs: Seq<Pair>, salt: u32) -> bool {
    forall|i: int| 0 <= i < pairs.len() ==> bloom::filter_contains(f, hash::murmur3((#[trigger] pairs[i]).0, salt))
}

/// The files of a reader hold these pairs, the words of which start at `offs`.
pub open spec fn holds_at(r: ReaderModel, pairs: Seq<Pair>, offs: Seq<int>) -> bool {
    &&& stores(r.seg, domain::words_of(pairs), offs)
    &&& btree::increasing(domain::keys_of(pairs))
    &&& r.index matches Some(b) ==> indexes(b, pairs, offs)
    &&& r.salt matches Some(s) ==> r.bloom matches Some(f) ==> covers_keys(f, pairs, s)
}

/// The files of a reader hold these pairs.
pub open spec fn holds(r: ReaderModel, pairs: Seq<Pair>) -> bool {
    exists|offs: Seq<int>| #[trigger] holds_at(r, pairs, offs)
}

/// `f` is what a lookup of `key` among the pairs from `lo` to `hi` should find.
pub open spec fn right(f: Found, pairs: Seq<Pair>, key: Seq<u8>, lo: int, hi: int) -> bool {
    &&& forall|i: int| lo <= i < hi && (#[trigger] pairs[i]).0 == key ==> f == Ok::<Option<Seq<u8>>, FormatError>(
        Some(pairs[i].1),
    )
    &&& (forall|i: int| lo <= i < hi ==> (#[trigger] pairs[i]).0 != key) ==> f == Ok::<Option<Seq<u8>>, FormatError>(
        None,
    )
}

/// Keys in order: what is before a key that is below is below, and so on.
proof fn lemma_keys_order(pairs: Seq<Pair>, i: int, j: int)
    requires
        btree::increasing(domain::keys_of(pairs)),
        0 <= i < j < pairs.len(),
    ensures
        lex_lt(pairs[i].0, pairs[j].0),
        pairs[i].0 != pairs[j].0,
{
    let keys = domain::keys_of(pairs);
    assert(keys[i] == pairs[i].0 && keys[j] == pairs[j].0);
    bytes::lemma_lex_irreflexive(keys[i]);
}

/// What the two words of pair `i` decode to.
pub proof fn lemma_pair(m: SegModel, pairs: Seq<Pair>, offs: Seq<int>, i: int)
    requires
        stores(m, domain::words_of(pairs), offs),
        0 <= i < pairs.len(),
    ensures
        0 <= offs[2 * i] < offs[2 * i + 1] < m.words.len(),
        offs[2 * i + 1] < offs[2 * i + 2] <= m.words.len(),
        words::decode_word(m, offs[2 * i]) == Some((pairs[i].0, offs[2 * i + 1])),
        words::decode_word(m, offs[2 * i + 1]) == Some((pairs[i].1, offs[2 * i + 2])),
        words::skip_word(m, offs[2 * i]) == Some((pairs[i].0.len() as u64, offs[2 * i + 1])),
        words::skip_word(m, offs[2 * i + 1]) == Some((pairs[i].1.len() as u64, offs[2 * i + 2])),
        reader::value_at(m, offs[2 * i + 1]) == Ok::<(Seq<u8>, int), FormatError>((pairs[i].1, offs[2 * i + 2])),
{
    let ws = domain::words_of(pairs);
    assert(ws[2 * i] == pairs[i].0);
    assert(ws[2 * i + 1] == pairs[i].1);
    assert(offs[2 * i] < offs[2 * i + 1]);
    assert(offs[2 * i + 1] < offs[2 * i + 2]);
    if i > 0 {
        assert(offs[0] < offs[2 * i]);
    }
    if 2 * i + 2 < ws.len() {
        assert(offs[2 * i + 2] < offs[ws.len() as int]);
    }
    words::law_skip_agrees_with_next(m, offs[2 * i]);
    words::law_skip_agrees_with_next(m, offs[2 * i + 1]);
}

proof fn lemma_scan(m: SegModel, pairs: Seq<Pair>, offs: Seq<int>, key: Seq<u8>, j: int)
    requires
        stores(m, domain::words_of(pairs), offs),
        btree::increasing(domain::keys_of(pairs)),
        0 <= j <= pairs.len(),
    ensures
        right(reader::scan(m, key, offs[2 * j]), pairs, key, j, pairs.len() as int),
    decreases pairs.len() - j,
{
    if j < pairs.len() {
        lemma_pair(m, pairs, offs, j);
        lemma_scan(m, pairs, offs, key, j + 1);
        bytes::lemma_lex_total(pairs[j].0, key);
        assert forall|i: int| j < i < pairs.len() implies lex_lt(pairs[j].0, (#[trigger] pairs[i]).0) && pairs[i].0
            != pairs[j].0 by {
            lemma_keys_order(pairs, j, i);
        }
        if lex_lt(key, pairs[j].0) {
            assert forall|i: int| j <= i < pairs.len() implies (#[trigger] pairs[i]).0 != key by {
                if i > j {
                    bytes::lemma_lex_total(pairs[i].0, pairs[j].0);
                }
            }
        }
    } else {
        assert(offs[2 * j] == m.words.len());
    }
}

proof fn lemma_search(m: SegModel, b: BtModel, pairs: Seq<Pair>, offs: Seq<int>, key: Seq<u8>, lo: int, hi: int)
    requires
        stores(m, domain::words_of(pairs), offs),
        btree::increasing(domain::keys_of(pairs)),
        indexes(b, pairs, offs),
        0 <= lo,
        hi <= pairs.len(),
    ensures
        right(reader::search(m, b, key, lo, hi), pairs, key, lo, hi),
    decreases hi - lo,
{
    if lo < hi {
        let mid = lo + (hi - lo) / 2;
        lemma_pair(m, pairs, offs, mid);
        assert(btree::key_offset_of(b, mid) == Some(offs[2 * mid] as u64));
        lemma_search(m, b, pairs, offs, key, mid + 1, hi);
        lemma_search(m, b, pairs, offs, key, lo, mid);
        bytes::lemma_lex_total(pairs[mid].0, key);
        assert forall|i: int| lo <= i < hi && i != mid implies (#[trigger] pairs[i]).0 != pairs[mid].0 by {
            if i < mid {
                lemma_keys_order(pairs, i, mid);
            } else {
                lemma_keys_order(pairs, mid, i);
            }
        }
        if pairs[mid].0 != key {
            if lex_lt(pairs[mid].0, key) {
                assert forall|i: int| lo <= i < mid + 1 implies (#[trigger] pairs[i]).0 != key by {
                    if i < mid {
                        lemma_keys_order(pairs, i, mid);
                        bytes::lemma_lex_total(pairs[mid].0, pairs[i].0);
                    }
                }
            } else {
                assert forall|i: int| mid <= i < hi implies (#[trigger] pairs[i]).0 != key by {
                    if i > mid {
                        lemma_keys_order(pairs, mid, i);
                        bytes::lemma_lex_total(pairs[mid].0, pairs[i].0);
                    }
                }
            }
        }
    }
}

/// A narrowed range lies within the keys and is no longer than a block.
pub proof fn lemma_narrow_bounds(n: NodesModel, keys: Seq<Seq<u8>>, key: Seq<u8>)
    requires
        btree::nodes_of(n, keys),
    ensures
        0 <= btree::narrow_spec(n, key).0 <= btree::narrow_spec(n, key).1 <= keys.len(),
        btree::narrow_spec(n, key).1 - btree::narrow_spec(n, key).0 <= n.m,
{
    lemma_bisect_bounds(n.keys, key, 0, n.keys.len() as int);
    let above = btree::bisect(n.keys, key, 0, n.keys.len() as int);
    if above > 0 {
        btree::lemma_block_start(keys.len(), n.m as nat, above - 1);
    }
}

proof fn lemma_bisect_bounds(keys: Seq<Seq<u8>>, key: Seq<u8>, lo: int, hi: int)
    requires
        lo <= hi,
    ensures
        lo <= btree::bisect(keys, key, lo, hi) <= hi,
    decreases hi - lo,
{
    if lo < hi {
        let mid = lo + (hi - lo) / 2;
        lemma_bisect_bounds(keys, key, mid + 1, hi);
        lemma_bisect_bounds(keys, key, lo, mid);
    }
}

proof fn lemma_exact(r: ReaderModel, pairs: Seq<Pair>, offs: Seq<int>, key: Seq<u8>)
    requires
        holds_at(r, pairs, offs),
    ensures
        right(reader::exact_lookup(r, key), pairs, key, 0, pairs.len() as int),
{
    match r.index {
        None => {
            lemma_scan(r.seg, pairs, offs, key, 0);
        },
        Some(b) => {
            let keys = domain::keys_of(pairs);
            let (lo, hi) = btree::narrow_in(b, key);
            if let Some(n) = b.nodes {
                lemma_narrow_bounds(n, keys, key);
                assert forall|i: int| 0 <= i < pairs.len() && (#[trigger] pairs[i]).0 == key implies lo <= i < hi by {
                    assert(keys[i] == key);
                    btree::law_narrow_brackets(n, keys, i);
                }
            }
            lemma_search(r.seg, b, pairs, offs, key, lo, hi);
        },
    }
}

/// A lookup finds every key that the files hold, with its value: with or without an
/// index, in whichever layout, with or without the filter.
pub proof fn law_lookup_finds(r: ReaderModel, pairs: Seq<Pair>, i: int)
    requires
        holds(r, pairs),
        0 <= i < pairs.len(),
    ensures
        reader::lookup(r, pairs[i].0) == Ok::<Option<Seq<u8>>, FormatError>(Some(pairs[i].1)),
{
    let offs = choose|offs: Seq<int>| #[trigger] holds_at(r, pairs, offs);
    lemma_exact(r, pairs, offs, pairs[i].0);
}

/// A lookup finds no key that the files do not hold.
pub proof fn law_lookup_misses(r: ReaderModel, pairs: Seq<Pair>, key: Seq<u8>)
    requires
        holds(r, pairs),
        forall|i: int| 0 <= i < pairs.len() ==> (#[trigger] pairs[i]).0 != key,
    ensures
        reader::lookup(r, key) == Ok::<Option<Seq<u8>>, FormatError>(None),
{
    let offs = choose|offs: Seq<int>| #[trigger] holds_at(r, pairs, offs);
    lemma_exact(r, pairs, offs, key);
}

/// Narrowing a search with the nodes of an index changes no answer.
pub proof fn law_narrowing_changes_nothing(r: ReaderModel, pairs: Seq<Pair>, key: Seq<u8>)
    requires
        holds(r, pairs),
        r.index is Some,
    ensures
        reader::lookup(r, key) == reader::lookup(
            ReaderModel { index: Some(BtModel { nodes: None, ..r.index->0 }), ..r },
            key,
        ),
{
    let plain = ReaderModel { index: Some(BtModel { nodes: None, ..r.index->0 }), ..r };
    let offs = choose|offs: Seq<int>| #[trigger] holds_at(r, pairs, offs);
    let b = plain.index->0;
    assert forall|i: int| 0 <= i < pairs.len() implies #[trigger] btree::key_offset_of(b, i) == Some(offs[2 * i] as u64) by {
        assert(btree::key_offset_of(r.index->0, i) == Some(offs[2 * i] as u64));
    }
    assert(holds_at(plain, pairs, offs));
    lemma_exact(r, pairs, offs, key);
    lemma_exact(plain, pairs, offs, key);
}

proof fn lemma_pairs_from(m: SegModel, pairs: Seq<Pair>, offs: Seq<int>, j: int)
    requires
        stores(m, domain::words_of(pairs), offs),
        0 <= j <= pairs.len(),
    ensures
        merge::pairs_from(m, offs[2 * j]) == Ok::<Seq<Pair>, FormatError>(pairs.skip(j)),
    decreases pairs.len() - j,
{
    if j < pairs.len() {
        lemma_pair(m, pairs, offs, j);
        lemma_pairs_from(m, pairs, offs, j + 1);
        assert(pairs.skip(j) =~= seq![(pairs[j].0, pairs[j].1)] + pairs.skip(j + 1));
    } else {
        assert(offs[2 * j] == m.words.len());
        assert(pairs.skip(j) =~= Seq::empty());
    }
}

/// Going through the pairs of a file one after the other gives all of them in order.
pub proof fn law_iteration_gives_pairs(r: ReaderModel, pairs: Seq<Pair>)
    requires
        holds(r, pairs),
    ensures
        merge::pairs_from(r.seg, 0) == Ok::<Seq<Pair>, FormatError>(pairs),
{
    let offs = choose|offs: Seq<int>| #[trigger] holds_at(r, pairs, offs);
    lemma_pairs_from(r.seg, pairs, offs, 0);
    assert(pairs.skip(0) =~= pairs);
}

/// The number of keys is that of the pairs.
pub proof fn law_key_count(r: ReaderModel, pairs: Seq<Pair>)
    requires
        holds(r, pairs),
    ensures
        reader::reader_key_count(r) == pairs.len(),
{
}

// ------------------------------------------------------------------ samples and salts

/// Sample `k` of `total` lies in a file of `c` keys.
proof fn lemma_spread_index(c: nat, total: nat, k: int)
    requires
        0 <= k < total,
        0 < c,
    ensures
        0 <= (k * c) / (total as int) < c,
{
    let t = total as int;
    let di = (k * c) / t;
    assert(0 <= di < c) by (nonlinear_arith)
        requires
            0 <= k < t,
            0 < c,
            di == (k * c) / t,
    ;
}

/// The first `n` of `total` samples.
spec fn is_spread(ks: Seq<Seq<u8>>, pairs: Seq<Pair>, total: nat, n: nat) -> bool {
    &&& ks.len() == n
    &&& forall|k: int| 0 <= k < n ==> #[trigger] ks[k] == pairs[(k * pairs.len()) / (total as int)].0
}

proof fn lemma_spread(m: SegModel, b: BtModel, pairs: Seq<Pair>, offs: Seq<int>, total: nat, n: nat)
    requires
        stores(m, domain::words_of(pairs), offs),
        indexes(b, pairs, offs),
        n <= total,
        0 < total <= pairs.len(),
    ensures
        reader::spread_keys(m, b, pairs.len(), total, n) matches Some(ks) && is_spread(ks, pairs, total, n),
    decreases n,
{
    if n > 0 {
        lemma_spread(m, b, pairs, offs, total, (n - 1) as nat);
        let k = n - 1;
        let di = (k * pairs.len()) / (total as int);
        lemma_spread_index(pairs.len(), total, k);
        lemma_pair(m, pairs, offs, di);
        assert(btree::key_offset_of(b, di) == Some(offs[2 * di] as u64));
        let before = reader::spread_keys(m, b, pairs.len(), total, k as nat)->0;
        let ks = before.push(pairs[di].0);
        assert(reader::spread_keys(m, b, pairs.len(), total, n) == Some(ks));
        assert forall|x: int| 0 <= x < n implies #[trigger] ks[x] == pairs[(x * pairs.len()) / (total as int)].0 by {
            if x < k {
                assert(before[x] == ks[x]);
            }
        }
    }
}

proof fn lemma_leading(m: SegModel, pairs: Seq<Pair>, offs: Seq<int>, j: int, n: nat)
    requires
        stores(m, domain::words_of(pairs), offs),
        0 <= j <= pairs.len(),
    ensures
        reader::leading_keys(m, offs[2 * j], n) == Some(
            domain::keys_of(pairs).subrange(j, if j + n < pairs.len() { j + n } else { pairs.len() as int }),
        ),
    decreases n,
{
    let keys = domain::keys_of(pairs);
    let end = if j + n < pairs.len() { j + n } else { pairs.len() as int };
    if n == 0 || j == pairs.len() {
        assert(keys.subrange(j, end) =~= Seq::empty());
        if j == pairs.len() {
            assert(offs[2 * j] == m.words.len());
        }
    } else {
        lemma_pair(m, pairs, offs, j);
        lemma_leading(m, pairs, offs, j + 1, (n - 1) as nat);
        assert(keys.subrange(j, end) =~= seq![pairs[j].0] + keys.subrange(j + 1, end));
    }
}

/// Which key a sample is.
pub proof fn lemma_sample_at(r: ReaderModel, pairs: Seq<Pair>, n: nat, k: int)
    requires
        holds(r, pairs),
        0 <= k < n,
        k < pairs.len(),
    ensures
        reader::samples(r, n) matches Some(ks) && k < ks.len() && ks[k] == match r.index {
            Some(_) => pairs[(k * pairs.len()) / if n < pairs.len() { n as int } else { pairs.len() as int }].0,
            None => pairs[k].0,
        },
{
    let offs = choose|offs: Seq<int>| #[trigger] holds_at(r, pairs, offs);
    let total = if n < pairs.len() { n } else { pairs.len() };
    match r.index {
        Some(b) => {
            lemma_spread(r.seg, b, pairs, offs, total, total);
        },
        None => {
            lemma_leading(r.seg, pairs, offs, 0, n);
            assert(domain::keys_of(pairs)[k] == pairs[k].0);
        },
    }
}

/// Samples are keys of the file, and there are some, unless the file is empty or none is
/// asked for; if no more keys are there than asked for, every key is sampled.
pub proof fn law_samples_are_keys(r: ReaderModel, pairs: Seq<Pair>, n: nat)
    requires
        holds(r, pairs),
    ensures
        reader::samples(r, n) matches Some(ks) && {
            &&& ks.len() == if n < pairs.len() { n } else { pairs.len() }
            &&& forall|k: int| 0 <= k < ks.len() ==> domain::keys_of(pairs).contains(#[trigger] ks[k])
            &&& pairs.len() <= n ==> ks == domain::keys_of(pairs)
        },
{
    let keys = domain::keys_of(pairs);
    let offs = choose|offs: Seq<int>| #[trigger] holds_at(r, pairs, offs);
    match r.index {
        Some(b) => {
            let total = if n < pairs.len() { n } else { pairs.len() };
            if total > 0 {
                lemma_spread(r.seg, b, pairs, offs, total, total);
                let ks = reader::samples(r, n)->0;
                let t = total as int;
                assert forall|k: int| 0 <= k < ks.len() implies keys.contains(#[trigger] ks[k]) by {
                    let di = (k * pairs.len()) / t;
                    lemma_spread_index(pairs.len(), total, k);
                    assert(keys[di] == ks[k]);
                }
                if pairs.len() <= n {
                    assert forall|k: int| 0 <= k < ks.len() implies #[trigger] ks[k] == keys[k] by {
                        assert((k * t) / t == k) by (nonlinear_arith)
                            requires
                                t > 0,
                        ;
                    }
                    assert(ks =~= keys);
                }
            } else {
                assert(reader::samples(r, n)->0 =~= Seq::empty());
                if pairs.len() == 0 {
                    assert(keys =~= Seq::empty());
                }
            }
        },
        None => {
            lemma_leading(r.seg, pairs, offs, 0, n);
            let ks = reader::samples(r, n)->0;
            assert forall|k: int| 0 <= k < ks.len() implies keys.contains(#[trigger] ks[k]) by {
                assert(keys[k] == ks[k]);
            }
            if pairs.len() <= n {
                assert(ks =~= keys);
            }
        },
    }
}

/// A salt under which the filter contains every key validates.
proof fn lemma_validates(r: ReaderModel, pairs: Seq<Pair>, salt: u32, n: nat)
    requires
        holds(r, pairs),
        pairs.len() > 0,
        n > 0,
        r.bloom matches Some(f) && f is Bloom && covers_keys(f, pairs, salt),
    ensures
        reader::validates(r, salt, n),
{
    law_samples_are_keys(r, pairs, n);
    let ks = reader::samples(r, n)->0;
    let keys = domain::keys_of(pairs);
    assert forall|i: int| 0 <= i < ks.len() implies bloom::filter_contains(
        r.bloom->0,
        hash::murmur3(#[trigger] ks[i], salt),
    ) by {
        assert(keys.contains(ks[i]));
        let j = choose|j: int| 0 <= j < keys.len() && keys[j] == ks[i];
        assert(keys[j] == pairs[j].0);
    }
}

/// A salt is accepted exactly if the filter contains every key under it.
proof fn lemma_validates_all(r: ReaderModel, pairs: Seq<Pair>, salt: u32)
    requires
        holds(r, pairs),
    ensures
        reader::validates_all(r, salt) == (r.bloom matches Some(f) && f is Bloom && pairs.len() > 0 && covers_keys(
            f,
            pairs,
            salt,
        )),
{
    let offs = choose|offs: Seq<int>| #[trigger] holds_at(r, pairs, offs);
    law_samples_are_keys(r, pairs, 64);
    if let Some(f) = r.bloom {
        if reader::hides_none(r, f, salt) {
            assert forall|i: int| 0 <= i < pairs.len() implies bloom::filter_contains(
                f,
                hash::murmur3((#[trigger] pairs[i]).0, salt),
            ) by {
                lemma_exact(r, pairs, offs, pairs[i].0);
            }
        }
        if covers_keys(f, pairs, salt) {
            if f is Bloom && pairs.len() > 0 {
                lemma_validates(r, pairs, salt, 64);
            }
            assert forall|key: Seq<u8>| (#[trigger] reader::exact_lookup(r, key) matches Ok(Some(_)))
                implies bloom::filter_contains(f, hash::murmur3(key, salt)) by {
                lemma_exact(r, pairs, offs, key);
                assert(exists|i: int| 0 <= i < pairs.len() && (#[trigger] pairs[i]).0 == key);
            }
        }
    }
}

/// The salt that a filter was built with is accepted: enabling the filter with it
/// succeeds.
pub proof fn law_right_salt_is_accepted(r: ReaderModel, pairs: Seq<Pair>, salt: u32)
    requires
        holds(r, pairs),
        pairs.len() > 0,
        r.bloom matches Some(f) && f is Bloom && covers_keys(f, pairs, salt),
    ensures
        reader::enabled_salt(r, Salt::Known(salt)) == Some(salt),
{
    lemma_validates_all(r, pairs, salt);
}

/// The search for the salt of a filter finds one, at most the one it was built with.
pub proof fn law_search_finds_a_salt(r: ReaderModel, pairs: Seq<Pair>, salt: u32)
    requires
        holds(r, pairs),
        pairs.len() > 0,
        r.bloom matches Some(f) && f is Bloom && covers_keys(f, pairs, salt),
    ensures
        reader::least_salt(r, 0) matches Some(s) && s <= salt && reader::validates(r, s, 16),
{
    lemma_validates(r, pairs, salt, 16);
    reader::law_least_salt(r, 0);
}

/// A wrong salt can never cause a missed key: whatever the salt, a filter that enabling
/// accepts contains every key, and the file set still holds its pairs.
pub proof fn law_enabling_is_safe(r: ReaderModel, pairs: Seq<Pair>, salt: Salt)
    requires
        holds(r, pairs),
        reader::enabled_salt(r, salt) is Some,
    ensures
        holds(ReaderModel { salt: reader::enabled_salt(r, salt), ..r }, pairs),
{
    let s = reader::enabled_salt(r, salt)->0;
    lemma_validates_all(r, pairs, s);
    let offs = choose|offs: Seq<int>| #[trigger] holds_at(r, pairs, offs);
    assert(holds_at(ReaderModel { salt: Some(s), ..r }, pairs, offs));
}

// ------------------------------------------------------------------ written files

/// Where the words of a written file start.
pub open spec fn written_offsets(ws: Seq<Seq<u8>>, patterns: Seq<Seq<u8>>) -> Seq<int> {
    Seq::new(ws.len() + 1, |i: int| coder::word_offset(ws, patterns, i as nat))
}

proof fn lemma_offsets_increase(ws: Seq<Seq<u8>>, patterns: Seq<Seq<u8>>, a: int, b: int)
    requires
        roundtrip::readable(ws, patterns),
        0 <= a < b <= ws.len(),
    ensures
        coder::word_offset(ws, patterns, a as nat) < coder::word_offset(ws, patterns, b as nat),
    decreases b - a,
{
    roundtrip::law_words_roundtrip(ws, patterns, (b - 1) as nat);
    if a < b - 1 {
        lemma_offsets_increase(ws, patterns, a, b - 1);
    }
}

/// A written file stores the words it was written from.
pub proof fn law_written_file_stores(ws: Seq<Seq<u8>>, patterns: Seq<Seq<u8>>)
    requires
        roundtrip::readable(ws, patterns),
    ensures
        stores(roundtrip::written_model(ws, patterns), ws, written_offsets(ws, patterns)),
{
    let m = roundtrip::written_model(ws, patterns);
    let offs = written_offsets(ws, patterns);
    assert forall|a: int, b: int| 0 <= a < b < offs.len() implies #[trigger] offs[a] < #[trigger] offs[b] by {
        lemma_offsets_increase(ws, patterns, a, b);
    }
    assert forall|i: int| 0 <= i < ws.len() implies words::decode_word(m, offs[i]) == Some((#[trigger] ws[i], offs[i + 1])) by {
        roundtrip::law_words_roundtrip(ws, patterns, i as nat);
    }
}

/// The words of a file from `at` on, one after the other, if each can be read.
pub open spec fn words_from(m: SegModel, at: int) -> Option<Seq<Seq<u8>>>
    decreases words::left(m.words.len() - at),
{
    if at >= m.words.len() {
        Some(Seq::empty())
    } else {
        match words::decode_word(m, at) {
            None => None,
            Some((w, next)) => if next <= at {
                None
            } else {
                match words_from(m, next) {
                    None => None,
                    Some(rest) => Some(seq![w] + rest),
                }
            },
        }
    }
}

proof fn lemma_words_from(m: SegModel, ws: Seq<Seq<u8>>, offs: Seq<int>, i: int)
    requires
        stores(m, ws, offs),
        0 <= i <= ws.len(),
    ensures
        words_from(m, offs[i]) == Some(ws.skip(i)),
    decreases ws.len() - i,
{
    if i == ws.len() {
        assert(ws.skip(i) =~= Seq::empty());
    } else {
        assert(offs[i] < offs[ws.len() as int]);
        assert(offs[i] < offs[i + 1]);
        assert(words::decode_word(m, offs[i]) == Some((ws[i], offs[i + 1])));
        lemma_words_from(m, ws, offs, i + 1);
        assert(seq![ws[i]] + ws.skip(i + 1) =~= ws.skip(i));
    }
}

/// Whichever patterns a file is written with, if it opens it has the counts of its words
/// and of the empty ones among them, and reading from its start to its end gives the words
/// it was written from, one after the other.
pub proof fn law_written_words_read_back(ws: Seq<Seq<u8>>, patterns: Seq<Seq<u8>>, kv: Seq<u8>)
    requires
        kv == coder::seg_bytes(ws, patterns),
        kv.len() <= u64::MAX,
        ws.len() < 0x100_0000_0000_0000,
        forall|i: int| 0 <= i < ws.len() ==> (#[trigger] ws[i]).len() <= isize::MAX,
        words::parse_seg(kv, false) is Some,
    ensures
        words::parse_seg(kv, false) matches Some(m) && {
            &&& m.words_count == ws.len()
            &&& m.empty_words_count == coder::empty_words(ws, ws.len())
            &&& stores(m, ws, written_offsets(ws, patterns))
            &&& words_from(m, 0) == Some(ws)
        },
{
    roundtrip::law_opened_is_readable(ws, patterns);
    roundtrip::law_written_file_opens(ws, patterns);
    law_written_file_stores(ws, patterns);
    roundtrip::lemma_empty_words(ws, ws.len());
    lemma_words_from(roundtrip::written_model(ws, patterns), ws, written_offsets(ws, patterns), 0);
    assert(ws.skip(0) =~= ws);
}

/// A finished file, compressed or not, reads back: if it opens it has the counts of the
/// words that were added and of the empty ones among them, and gives the words one after
/// the other.
pub proof fn law_finished_words_read_back(ws: Seq<Seq<u8>>, compress: bool, kv: Seq<u8>)
    requires
        seg_writer::written(ws, compress, kv),
        kv.len() <= u64::MAX,
        ws.len() < 0x100_0000_0000_0000,
        forall|i: int| 0 <= i < ws.len() ==> (#[trigger] ws[i]).len() <= isize::MAX,
        words::parse_seg(kv, false) is Some,
    ensures
        words::parse_seg(kv, false) matches Some(m) && {
            &&& m.words_count == ws.len()
            &&& m.empty_words_count == coder::empty_words(ws, ws.len())
            &&& words_from(m, 0) == Some(ws)
        },
{
    let ps = choose|ps: Seq<Seq<u8>>| #[trigger]
        seg_writer::pattern_choice(ws, compress, ps) && kv == coder::seg_bytes(ws, ps);
    law_written_words_read_back(ws, ps, kv);
}

/// A finished file of less than some fifty billion bytes and words opens and reads back.
pub proof fn law_small_files_read_back(ws: Seq<Seq<u8>>, compress: bool, kv: Seq<u8>)
    requires
        seg_writer::written(ws, compress, kv),
        kv.len() <= u64::MAX,
        weight(ws, ws.len()) < depth::symbol_limit(),
        forall|i: int| 0 <= i < ws.len() ==> (#[trigger] ws[i]).len() <= isize::MAX,
    ensures
        words::parse_seg(kv, false) matches Some(m) && words_from(m, 0) == Some(ws),
{
    let ps = choose|ps: Seq<Seq<u8>>| #[trigger]
        seg_writer::pattern_choice(ws, compress, ps) && kv == coder::seg_bytes(ws, ps);
    depth::law_small_files_are_readable(ws, ps);
    law_written_words_read_back(ws, ps, kv);
}

/// What walking over the first `n` keys of stored pairs finds.
pub open spec fn stored_walk(w: Walk, pairs: Seq<Pair>, offs: Seq<int>, step: nat, n: nat) -> bool {
    &&& w.next == offs[2 * n as int]
    &&& w.offsets.len() == n
    &&& forall|i: int| 0 <= i < n ==> #[trigger] w.offsets[i] == offs[2 * i] as u64
    &&& step == 0 ==> w.nodes.len() == 0
    &&& step > 0 ==> w.nodes.len() == eliasfano::ceil_div(n, step) && forall|j: int|
        0 <= j < w.nodes.len() ==> #[trigger] w.nodes[j] == pairs[j * step].0
}

/// One of the first `n` keys is to be a node but too long for one.
pub open spec fn long_node(pairs: Seq<Pair>, step: nat, n: nat) -> bool {
    step > 0 && exists|i: int| 0 <= i < n && i % (step as int) == 0 && (#[trigger] pairs[i]).0.len() > u16::MAX
}

/// What a walk over stored pairs finds, and when it fails.
pub proof fn lemma_walk_stored(m: SegModel, pairs: Seq<Pair>, offs: Seq<int>, limit: int, step: nat, n: nat)
    requires
        stores(m, domain::words_of(pairs), offs),
        n <= pairs.len(),
        m.words.len() <= limit < u64::MAX,
    ensures
        match bt_writer::key_walk(m, limit, step, n) {
            Ok(w) => stored_walk(w, pairs, offs, step, n) && !long_node(pairs, step, n),
            Err(e) => e == FormatError::KeyTooLong && long_node(pairs, step, n),
        },
    decreases n,
{
    bt_writer::lemma_walk(m, limit, step, n);
    if n > 0 {
        let k = n - 1;
        lemma_walk_stored(m, pairs, offs, limit, step, k as nat);
        lemma_pair(m, pairs, offs, k);
        bt_writer::lemma_walk(m, limit, step, k as nat);
        match bt_writer::key_walk(m, limit, step, k as nat) {
            Err(e) => {
                let i = choose|i: int| 0 <= i < k && i % (step as int) == 0 && (#[trigger] pairs[i]).0.len() > u16::MAX;
                assert(pairs[i].0.len() > u16::MAX);
            },
            Ok(w) => {
                lemma_walk_step(m, pairs, offs, limit, step, n, w);
            },
        }
    }
}

proof fn lemma_walk_step(m: SegModel, pairs: Seq<Pair>, offs: Seq<int>, limit: int, step: nat, n: nat, w: Walk)
    requires
        stores(m, domain::words_of(pairs), offs),
        0 < n <= pairs.len(),
        m.words.len() <= limit < u64::MAX,
        bt_writer::key_walk(m, limit, step, (n - 1) as nat) == Ok::<Walk, FormatError>(w),
        stored_walk(w, pairs, offs, step, (n - 1) as nat),
        !long_node(pairs, step, (n - 1) as nat),
    ensures
        match bt_writer::key_walk(m, limit, step, n) {
            Ok(w) => stored_walk(w, pairs, offs, step, n) && !long_node(pairs, step, n),
            Err(e) => e == FormatError::KeyTooLong && long_node(pairs, step, n),
        },
{
    let k = n - 1;
    let s = step as int;
    lemma_pair(m, pairs, offs, k);
    bt_writer::lemma_walk(m, limit, step, n);
    let offsets = w.offsets.push(offs[2 * k] as u64);
    if step > 0 && k as nat % step == 0 {
        if pairs[k].0.len() > u16::MAX {
            assert(k % s == 0 && pairs[k].0.len() > u16::MAX);
            assert(long_node(pairs, step, n));
        } else {
            let v = Walk { offsets, nodes: w.nodes.push(pairs[k].0), next: offs[2 * k + 2] };
            assert(bt_writer::key_walk(m, limit, step, n) == Ok::<Walk, FormatError>(v));
            let c = w.nodes.len() as int;
            assert(c * s == k) by (nonlinear_arith)
                requires
                    c == (k + s - 1) / s,
                    k % s == 0,
                    s > 0,
                    k >= 0,
            ;
            assert forall|j: int| 0 <= j < v.nodes.len() implies #[trigger] v.nodes[j]
                == pairs[j * step].0 by {
                if j < c {
                    assert(v.nodes[j] == w.nodes[j]);
                }
            }
            assert(!long_node(pairs, step, n)) by {
                assert forall|i: int| 0 <= i < n && i % s == 0 implies (#[trigger] pairs[i]).0.len() <= u16::MAX by {}
            }
        }
    } else {
        let v = Walk { offsets, nodes: w.nodes, next: offs[2 * k + 2] };
        assert(bt_writer::key_walk(m, limit, step, n) == Ok::<Walk, FormatError>(v));
        if step > 0 {
            assert forall|j: int| 0 <= j < v.nodes.len() implies #[trigger] v.nodes[j]
                == pairs[j * step].0 by {
                assert(v.nodes[j] == w.nodes[j]);
            }
            assert(!long_node(pairs, step, n)) by {
                assert forall|i: int| 0 <= i < n && i % s == 0 implies (#[trigger] pairs[i]).0.len() <= u16::MAX by {}
            }
        }
    }
}

proof fn lemma_keys_stored(m: SegModel, pairs: Seq<Pair>, offs: Seq<int>, n: nat)
    requires
        stores(m, domain::words_of(pairs), offs),
        n <= pairs.len(),
    ensures
        kvei_writer::pair_keys(m, n) == Some((domain::keys_of(pairs).take(n as int), offs[2 * n as int])),
    decreases n,
{
    let keys = domain::keys_of(pairs);
    if n > 0 {
        lemma_keys_stored(m, pairs, offs, (n - 1) as nat);
        lemma_pair(m, pairs, offs, n - 1);
        assert(keys.take(n as int) =~= keys.take(n - 1).push(pairs[n - 1].0));
    } else {
        assert(keys.take(0) =~= Seq::empty());
    }
}

/// An index that was built for stored pairs knows where their keys start.
pub proof fn lemma_index_built(m: SegModel, pairs: Seq<Pair>, offs: Seq<int>, size: nat, opts: BtOptions, bt: Vec<u8>)
    requires
        stores(m, domain::words_of(pairs), offs),
        opts.layout == BtLayout::Legacy ==> (pairs.len() - 1) / 0x100_0000_0000_0000 != 1,
        m.words.len() <= size,
        bt_writer::bt_result(m, size, opts, Ok(bt)),
    ensures
        btree::parse_bt(bt@) matches Ok(b) && indexes(b, pairs, offs),
{
    let n = pairs.len();
    if n > 0 {
        let step = bt_writer::node_step(opts);
        assert(bt@.len() == bt.len());
        lemma_walk_stored(m, pairs, offs, size as int, step, n);
        let w = bt_writer::key_walk(m, size as int, step, n)->Ok_0;
        bt_writer::law_built_index_opens(m, size, opts, bt@);
        lemma_model_indexes(pairs, offs, opts, w, btree::parse_bt(bt@)->Ok_0);
    }
}

proof fn lemma_model_indexes(pairs: Seq<Pair>, offs: Seq<int>, opts: BtOptions, w: Walk, b: BtModel)
    requires
        0 < pairs.len() <= u64::MAX,
        stored_walk(w, pairs, offs, bt_writer::node_step(opts), pairs.len()),
        bt_writer::built_model(opts, w, b),
    ensures
        indexes(b, pairs, offs),
{
    let n = pairs.len();
    let step = bt_writer::node_step(opts);
    assert forall|i: int| 0 <= i < n implies #[trigger] btree::key_offset_of(b, i) == Some(offs[2 * i] as u64) by {
        assert(btree::key_offset_of(b, i) == Some(w.offsets[i]));
    }
    if let Some(nodes) = b.nodes {
        let keys = domain::keys_of(pairs);
        assert forall|j: int| 0 <= j < nodes.keys.len() implies #[trigger] nodes.keys[j] == keys[j * nodes.m] by {
            btree::lemma_block_start(n, step, j);
            assert(w.nodes[j] == pairs[j * step].0);
        }
    }
}

/// A filter that was built for stored pairs contains their keys.
pub proof fn lemma_filter_built(m: SegModel, pairs: Seq<Pair>, offs: Seq<int>, salt: u32, kvei: Vec<u8>)
    requires
        stores(m, domain::words_of(pairs), offs),
        kvei_writer::kvei_result(m, salt, Ok(kvei)),
    ensures
        covers_keys(bloom::parse_filter(kvei@), pairs, salt),
        pairs.len() >= 2 ==> bloom::parse_filter(kvei@) is Bloom,
{
    let n = pairs.len();
    let keys = domain::keys_of(pairs);
    lemma_keys_stored(m, pairs, offs, n);
    assert(keys.take(n as int) =~= keys);
    let hashes = kvei_writer::hashes_of(keys, salt);
    assert forall|i: int| 0 <= i < n implies bloom::filter_contains(
        bloom::parse_filter(kvei@),
        hash::murmur3((#[trigger] pairs[i]).0, salt),
    ) by {
        kvei_writer::law_no_false_negatives(n as u64, hashes, kvei@, i);
        assert(hashes[i] == hash::murmur3(keys[i], salt));
    }
    if n >= 2 {
        kvei_writer::law_no_false_negatives(n as u64, hashes, kvei@, 0);
    }
}

/// The index of a file set, if it is used.
pub open spec fn bt_of(f: DomainFiles, used: bool) -> Option<Seq<u8>> {
    if used { Some(f.bt@) } else { None }
}

/// The filter of a file set, if there is one and it is used.
pub open spec fn kvei_of(f: DomainFiles, used: bool) -> Option<Seq<u8>> {
    match f.kvei {
        Some(k) => if used { Some(k@) } else { None },
        None => None,
    }
}

/// Pairs that a machine can hold in one file.
pub open spec fn storable(pairs: Seq<Pair>) -> bool {
    &&& pairs.len() < 0x80_0000_0000_0000
    &&& forall|i: int| 0 <= i < pairs.len() ==> (#[trigger] pairs[i]).0.len() <= isize::MAX && pairs[i].1.len() <= isize::MAX
}

/// Whenever a domain was written, its files open, with the index and the filter or
/// without, and hold the pairs they were written from, also with the filter in use under
/// the salt it was built with. A filter for two keys or more is accepted with that salt.
pub proof fn law_written_domain_holds(pairs: Seq<Pair>, opts: DomainOptions, f: DomainFiles, with_bt: bool, with_kvei: bool)
    requires
        storable(pairs),
        btree::increasing(domain::keys_of(pairs)),
        domain::domain_result(domain::words_of(pairs), opts, Ok(f)),
    ensures
        reader::opened(f.kv@, bt_of(f, with_bt), kvei_of(f, with_kvei), false) matches Ok(r) && {
            &&& r.salt is None
            &&& holds(r, pairs)
            &&& opts.salt matches Some(s) ==> {
                &&& holds(ReaderModel { salt: Some(s), ..r }, pairs)
                &&& with_kvei && pairs.len() >= 2 ==> reader::enabled_salt(r, Salt::Known(s)) == Some(s)
            }
        },
{
    let ws = domain::words_of(pairs);
    let kv = f.kv@;
    assert(kv.len() == f.kv.len());
    let ps = choose|ps: Seq<Seq<u8>>| #[trigger]
        seg_writer::pattern_choice(ws, opts.compress, ps) && kv == coder::seg_bytes(ws, ps);
    assert forall|i: int| 0 <= i < ws.len() implies (#[trigger] ws[i]).len() <= isize::MAX by {
        assert(pairs[i / 2].0.len() <= isize::MAX);
    }
    roundtrip::law_opened_is_readable(ws, ps);
    roundtrip::law_written_file_opens(ws, ps);
    law_written_file_stores(ws, ps);
    let m = roundtrip::written_model(ws, ps);
    let offs = written_offsets(ws, ps);
    lemma_index_built(m, pairs, offs, kv.len(), opts.bt, f.bt);
    let r = reader::opened(kv, bt_of(f, with_bt), kvei_of(f, with_kvei), false)->Ok_0;
    if let Some(s) = opts.salt {
        lemma_filter_built(m, pairs, offs, s, f.kvei->0);
        assert(holds_at(ReaderModel { salt: Some(s), ..r }, pairs, offs));
        assert(holds_at(r, pairs, offs));
        if with_kvei && pairs.len() >= 2 {
            law_right_salt_is_accepted(r, pairs, s);
        }
    }
    assert(holds_at(r, pairs, offs));
}

/// A domain that was written reads back: every key is found with its value, and no other
/// key is found. This holds with the index and the filter or without, and with the filter
/// in use under its salt.
pub proof fn law_written_domain_reads_back(
    pairs: Seq<Pair>,
    opts: DomainOptions,
    f: DomainFiles,
    with_bt: bool,
    with_kvei: bool,
    key: Seq<u8>,
)
    requires
        storable(pairs),
        btree::increasing(domain::keys_of(pairs)),
        domain::domain_result(domain::words_of(pairs), opts, Ok(f)),
    ensures
        reader::opened(f.kv@, bt_of(f, with_bt), kvei_of(f, with_kvei), false) matches Ok(r) && {
            &&& right(reader::lookup(r, key), pairs, key, 0, pairs.len() as int)
            &&& opts.salt matches Some(s) ==> right(
                reader::lookup(ReaderModel { salt: Some(s), ..r }, key),
                pairs,
                key,
                0,
                pairs.len() as int,
            )
            &&& merge::pairs_from(r.seg, 0) == Ok::<Seq<Pair>, FormatError>(pairs)
        },
{
    law_written_domain_holds(pairs, opts, f, with_bt, with_kvei);
    let r = reader::opened(f.kv@, bt_of(f, with_bt), kvei_of(f, with_kvei), false)->Ok_0;
    lemma_right(r, pairs, key);
    if let Some(s) = opts.salt {
        lemma_right(ReaderModel { salt: Some(s), ..r }, pairs, key);
    }
    law_iteration_gives_pairs(r, pairs);
}

proof fn lemma_right(r: ReaderModel, pairs: Seq<Pair>, key: Seq<u8>)
    requires
        holds(r, pairs),
    ensures
        right(reader::lookup(r, key), pairs, key, 0, pairs.len() as int),
{
    if exists|i: int| 0 <= i < pairs.len() && (#[trigger] pairs[i]).0 == key {
        let i = choose|i: int| 0 <= i < pairs.len() && (#[trigger] pairs[i]).0 == key;
        law_lookup_finds(r, pairs, i);
        let offs = choose|offs: Seq<int>| #[trigger] holds_at(r, pairs, offs);
        lemma_exact(r, pairs, offs, key);
    } else {
        law_lookup_misses(r, pairs, key);
    }
}

/// Nothing stands in the way of an index and a filter for the pairs in this `.kv`: it
/// opens, a machine can hold the section with the offsets of its keys and the filter, no
/// key that is to be a node is too long for one, and the offsets do not lie too far apart
/// for the jump table.
pub open spec fn can_finish(kv: Seq<u8>, pairs: Seq<Pair>, opts: DomainOptions) -> bool {
    &&& kv.len() < u64::MAX
    &&& pairs.len() > 0 ==> ef_builder::section_fits(pairs.len(), kv.len() + 1)
    &&& opts.salt is Some ==> kvei_writer::filter_fits(pairs.len() as u64)
    &&& !long_node(pairs, bt_writer::node_step(opts.bt), pairs.len())
    &&& words::parse_seg(kv, false) matches Some(m) && (bt_writer::key_walk(
        m,
        kv.len() as int,
        bt_writer::node_step(opts.bt),
        pairs.len(),
    ) matches Ok(w) ==> ef_builder::jumps_fit(w.offsets, eliasfano::low_width(pairs.len(), kv.len() + 1)))
}

proof fn lemma_no_errors(m: SegModel, pairs: Seq<Pair>, offs: Seq<int>, kv: Seq<u8>, opts: DomainOptions, e: Error)
    requires
        stores(m, domain::words_of(pairs), offs),
        words::parse_seg(kv, false) == Some(m),
        m.words.len() <= kv.len(),
        can_finish(kv, pairs, opts),
    ensures
        !bt_writer::bt_result(m, kv.len(), opts.bt, Err(e)),
        opts.salt matches Some(s) ==> !kvei_writer::kvei_result(m, s, Err(e)),
{
    lemma_walk_stored(m, pairs, offs, kv.len() as int, bt_writer::node_step(opts.bt), pairs.len());
    lemma_keys_stored(m, pairs, offs, pairs.len());
}

/// Finishing a domain succeeds whenever nothing stands in the way of its index.
pub proof fn law_finish_succeeds(pairs: Seq<Pair>, opts: DomainOptions, r: Result<DomainFiles>)
    requires
        storable(pairs),
        domain::domain_result(domain::words_of(pairs), opts, r),
        forall|kv: Seq<u8>| #[trigger]
            seg_writer::written(domain::words_of(pairs), opts.compress, kv) ==> can_finish(kv, pairs, opts),
    ensures
        r is Ok,
{
    if let Err(e) = r {
        let ws = domain::words_of(pairs);
        let kv = choose|kv: Seq<u8>| #[trigger]
            seg_writer::written(ws, opts.compress, kv) && match words::parse_seg(kv, false) {
                None => e == Error::Format(FormatError::InvalidKv),
                Some(m) => {
                    ||| bt_writer::bt_result(m, kv.len(), opts.bt, Err(e))
                    ||| opts.salt matches Some(s) && kvei_writer::kvei_result(m, s, Err(e))
                },
            };
        let ps = choose|ps: Seq<Seq<u8>>| #[trigger]
            seg_writer::pattern_choice(ws, opts.compress, ps) && kv == coder::seg_bytes(ws, ps);
        assert forall|i: int| 0 <= i < ws.len() implies (#[trigger] ws[i]).len() <= isize::MAX by {
            assert(pairs[i / 2].0.len() <= isize::MAX);
        }
        roundtrip::law_opened_is_readable(ws, ps);
        roundtrip::law_written_file_opens(ws, ps);
        law_written_file_stores(ws, ps);
        lemma_no_errors(roundtrip::written_model(ws, ps), pairs, written_offsets(ws, ps), kv, opts, e);
    }
}

/// Finishing succeeds for every domain of less than some fifty billion bytes and up to
/// about a billion keys whose nodes have at most 65535 bytes.
pub proof fn law_small_domains_finish(pairs: Seq<Pair>, opts: DomainOptions, r: Result<DomainFiles>)
    requires
        storable(pairs),
        weight(domain::words_of(pairs), 2 * pairs.len()) < depth::symbol_limit(),
        pairs.len() <= 0x4000_0000,
        !long_node(pairs, bt_writer::node_step(opts.bt), pairs.len()),
        domain::domain_result(domain::words_of(pairs), opts, r),
        forall|kv: Seq<u8>| #[trigger]
            seg_writer::written(domain::words_of(pairs), opts.compress, kv) ==> kv.len() < u64::MAX && (pairs.len() > 0
                ==> ef_builder::section_fits(pairs.len(), kv.len() + 1)),
    ensures
        r is Ok,
{
    let ws = domain::words_of(pairs);
    assert forall|kv: Seq<u8>| #[trigger] seg_writer::written(ws, opts.compress, kv) implies can_finish(kv, pairs, opts) by {
        let ps = choose|ps: Seq<Seq<u8>>| #[trigger]
            seg_writer::pattern_choice(ws, opts.compress, ps) && kv == coder::seg_bytes(ws, ps);
        assert forall|i: int| 0 <= i < ws.len() implies (#[trigger] ws[i]).len() <= isize::MAX by {
            assert(pairs[i / 2].0.len() <= isize::MAX);
        }
        depth::law_small_files_are_readable(ws, ps);
        kvei_writer::lemma_filter_len(pairs.len() as u64);
        let m = words::parse_seg(kv, false)->0;
        let step = bt_writer::node_step(opts.bt);
        if let Ok(w) = bt_writer::key_walk(m, kv.len() as int, step, pairs.len()) {
            bt_writer::lemma_walk(m, kv.len() as int, step, pairs.len());
            if pairs.len() > 0 {
                ef_builder::law_jumps_fit(w.offsets, kv.len() + 1);
            }
        }
    }
    law_finish_succeeds(pairs, opts, r);
}

} // verus!
