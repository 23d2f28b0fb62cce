//! What a domain writer takes, and when it can finish.

use vstd::prelude::*;

use crate::bt_writer;
use crate::btree;
use crate::bytes::lex_lt;
use crate::coder;
use crate::compress::weight;
use crate::domain;
use crate::domain::{DomainFiles, DomainOptions, Pair};
use crate::ef_builder;
use crate::eliasfano;
use crate::error::{Error, FormatError, Result};
use crate::kvei_writer;
use crate::merge;
use crate::readback;
use crate::reader;
use crate::roundtrip;
use crate::seg_writer;
use crate::words;
use crate::writer_laws;

verus! {

/// The bytes of all keys and values, and four for each pair.
pub open spec fn size_of_pairs(pairs: Seq<Pair>) -> nat
    decreases pairs.len(),
{
    if pairs.len() == 0 {
        0
    } else {
        size_of_pairs(pairs.drop_last()) + pairs.last().0.len() + pairs.last().1.len() + 4
    }
}

/// The weight of words is their bytes, and two for each.
pub proof fn law_weight(ws: Seq<Seq<u8>>, w: Seq<u8>)
    ensures
        weight(Seq::empty(), 0) == 0,
        weight(ws.push(w), (ws.len() + 1) as nat) == weight(ws, ws.len()) + w.len() + 2,
{
    let more = ws.push(w);
    seg_writer::lemma_weight_prefix(ws, more, ws.len());
    assert(more[ws.len() as int] == w);
}

pub proof fn lemma_size(pairs: Seq<Pair>)
    ensures
        weight(domain::words_of(pairs), 2 * pairs.len()) == size_of_pairs(pairs),
    decreases pairs.len(),
{
    let ws = domain::words_of(pairs);
    let n = pairs.len();
    if n > 0 {
        let d = pairs.drop_last();
        let vs = domain::words_of(d);
        lemma_size(d);
        assert forall|i: int| 0 <= i < 2 * (n - 1) implies #[trigger] ws[i] == vs[i] by {
            assert(d[i / 2] == pairs[i / 2]);
        }
        seg_writer::lemma_weight_prefix(ws, vs, (2 * (n - 1)) as nat);
        assert(ws[2 * n - 2] == pairs.last().0);
        assert(ws[2 * n - 1] == pairs.last().1);
        assert(weight(ws, (2 * n - 1) as nat) == weight(ws, (2 * n - 2) as nat) + ws[2 * n - 2].len() + 2);
        assert(weight(ws, (2 * n) as nat) == weight(ws, (2 * n - 1) as nat) + ws[2 * n - 1].len() + 2);
    }
}

/// A pair is refused only for two reasons: its key does not come after the last one, or the
/// bytes of all keys and values, with four for each pair, can no longer be counted in 64
/// bits. How long its value is does not matter otherwise.
pub proof fn law_add_takes_what_fits(pairs: Seq<Pair>, key: Seq<u8>, value: Seq<u8>)
    ensures
        domain::refusal(pairs, key, value) == if pairs.len() > 0 && !lex_lt(pairs[pairs.len() - 1].0, key) {
            Some(FormatError::KeyOrder)
        } else if size_of_pairs(pairs) + key.len() + value.len() + 4 > 0xffff_ffff_ffff_ffff {
            Some(FormatError::TooLarge)
        } else {
            None
        },
{
    lemma_size(pairs);
}

proof fn lemma_size_grows(pairs: Seq<Pair>, n: int)
    requires
        0 <= n <= pairs.len(),
    ensures
        size_of_pairs(pairs.take(n)) <= size_of_pairs(pairs),
    decreases pairs.len(),
{
    if n < pairs.len() {
        let d = pairs.drop_last();
        lemma_size_grows(d, n);
        assert(d.take(n) =~= pairs.take(n));
    } else {
        assert(pairs.take(n) =~= pairs);
    }
}

/// Pairs with strictly increasing keys are all taken, one after the other, if all of them
/// fit.
pub proof fn law_sorted_pairs_are_taken(pairs: Seq<Pair>, n: nat)
    requires
        btree::increasing(domain::keys_of(pairs)),
        size_of_pairs(pairs) <= 0xffff_ffff_ffff_ffff,
        n <= pairs.len(),
    ensures
        merge::add_error(pairs, n) is None,
        n < pairs.len() ==> domain::refusal(pairs.take(n as int), pairs[n as int].0, pairs[n as int].1) is None,
    decreases n,
{
    if n > 0 {
        law_sorted_pairs_are_taken(pairs, (n - 1) as nat);
    }
    if n < pairs.len() {
        let before = pairs.take(n as int);
        let keys = domain::keys_of(pairs);
        law_add_takes_what_fits(before, pairs[n as int].0, pairs[n as int].1);
        lemma_size_grows(pairs, n as int + 1);
        let more = pairs.take(n as int + 1);
        assert(more.drop_last() =~= before);
        assert(more.last() == pairs[n as int]);
        if n > 0 {
            assert(before[n - 1] == pairs[n - 1]);
            assert(lex_lt(keys[n - 1], keys[n as int]));
        }
    }
}

// ------------------------------------------------------------------ finishing

/// The section of offsets takes little more than nine bytes for a key.
pub proof fn law_section_is_small(n: nat, u: nat)
    requires
        0 < n,
        24 * n + 1000 <= isize::MAX,
        u <= u64::MAX,
    ensures
        ef_builder::section_fits(n, u),
        ef_builder::section_len(n, u) <= 10 * n + 1000,
{
    let l = eliasfano::low_width(n, u);
    ef_builder::lemma_high_bound(n, u);
    assert(u / n <= u64::MAX) by (nonlinear_arith)
        requires
            n > 0,
            u <= u64::MAX,
    ;
    eliasfano::lemma_floor_log2(u / n);
    assert(l < 64);
    assert(n * l <= 63 * n) by (nonlinear_arith)
        requires
            l <= 63,
    ;
}

/// A domain that a machine can hold never fails to finish for its size.
pub proof fn law_finish_is_not_too_large(pairs: Seq<Pair>, opts: DomainOptions, e: Error)
    requires
        readback::storable(pairs),
        24 * pairs.len() + 1000 <= isize::MAX,
        domain::domain_result(domain::words_of(pairs), opts, Err(e)),
        forall|kv: Seq<u8>| #[trigger]
            seg_writer::written(domain::words_of(pairs), opts.compress, kv) ==> kv.len() < u64::MAX,
    ensures
        e != Error::Format(FormatError::TooLarge),
{
    let ws = domain::words_of(pairs);
    let kv = choose|kv: Seq<u8>| #[trigger]
        seg_writer::written(ws, opts.compress, kv) && match words::parse_seg(kv, false) {
            None => e == Error::Format(FormatError::InvalidKv),
            Some(m) => {
                ||| bt_writer::bt_result(m, kv.len(), opts.bt, Err(e))
                ||| opts.salt matches Some(s) && kvei_writer::kvei_result(m, s, Err(e))
            },
        };
    if let Some(m) = words::parse_seg(kv, false) {
        let ps = choose|ps: Seq<Seq<u8>>| #[trigger]
            seg_writer::pattern_choice(ws, opts.compress, ps) && kv == coder::seg_bytes(ws, ps);
        assert forall|i: int| 0 <= i < ws.len() implies (#[trigger] ws[i]).len() <= isize::MAX by {
            assert(pairs[i / 2].0.len() <= isize::MAX);
        }
        roundtrip::law_opened_is_readable(ws, ps);
        roundtrip::law_written_file_opens(ws, ps);
        let n = pairs.len();
        assert(m.words_count / 2 == n);
        if n > 0 {
            law_section_is_small(n, kv.len() + 1);
        }
        readback::law_written_file_stores(ws, ps);
        bt_writer::lemma_walk(m, kv.len() as int, bt_writer::node_step(opts.bt), n);
        readback::lemma_walk_stored(m, pairs, readback::written_offsets(ws, ps), kv.len() as int, bt_writer::node_step(opts.bt), n);
        kvei_writer::lemma_filter_small(n as u64);
    }
}

/// Finishing succeeds for every domain of less than some fifty billion bytes and up to
/// about a billion keys whose nodes have at most 65535 bytes, on a machine that can hold it.
pub proof fn law_ordinary_domains_finish(pairs: Seq<Pair>, opts: DomainOptions, r: Result<DomainFiles>)
    requires
        readback::storable(pairs),
        size_of_pairs(pairs) < 50_000_000_000,
        pairs.len() <= 0x4000_0000,
        24 * pairs.len() + 1000 <= isize::MAX,
        forall|i: int| 0 <= i < pairs.len() ==> (#[trigger] pairs[i]).0.len() <= 65535,
        domain::domain_result(domain::words_of(pairs), opts, r),
        forall|kv: Seq<u8>| #[trigger]
            seg_writer::written(domain::words_of(pairs), opts.compress, kv) ==> kv.len() < u64::MAX,
    ensures
        r is Ok,
{
    lemma_size(pairs);
    assert forall|kv: Seq<u8>| #[trigger] seg_writer::written(domain::words_of(pairs), opts.compress, kv) implies kv.len()
        < u64::MAX && (pairs.len() > 0 ==> ef_builder::section_fits(pairs.len(), kv.len() + 1)) by {
        if pairs.len() > 0 {
            law_section_is_small(pairs.len(), kv.len() + 1);
        }
    }
    readback::law_small_domains_finish(pairs, opts, r);
}

/// Which files are made: a filter exactly if there is a salt; it has no bytes for fewer than
/// two keys. The index has no bytes exactly if there are no keys.
pub proof fn law_files_made(pairs: Seq<Pair>, opts: DomainOptions, f: DomainFiles)
    requires
        readback::storable(pairs),
        btree::increasing(domain::keys_of(pairs)),
        domain::domain_result(domain::words_of(pairs), opts, Ok(f)),
    ensures
        f.kvei is Some == opts.salt is Some,
        f.kvei matches Some(k) ==> (k@.len() == 0 <==> pairs.len() < 2),
        f.bt@.len() == 0 <==> pairs.len() == 0,
{
    readback::law_written_domain_holds(pairs, opts, f, true, true);
    let m = words::parse_seg(f.kv@, false)->0;
    let r = reader::opened(f.kv@, Some(f.bt@), readback::kvei_of(f, true), false)->Ok_0;
    let offs = choose|offs: Seq<int>| #[trigger] readback::holds_at(r, pairs, offs);
    assert(r.seg == m);
    assert(domain::words_of(pairs).len() == 2 * pairs.len());
    assert(m.words_count / 2 == pairs.len());
    assert(readback::indexes(r.index->0, pairs, offs));
    if let (Some(s), Some(k)) = (opts.salt, f.kvei) {
        let n = (m.words_count / 2) as u64;
        let hs = choose|hs: Seq<u64>| #[trigger] kvei_writer::is_kvei(n, hs, k@);
        writer_laws::law_filter_file(n, hs, k@);
    }
}

} // verus!
