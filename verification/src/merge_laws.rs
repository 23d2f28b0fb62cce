//! What a merge keeps: the newest value of every key, and deletions unless the merged range
//! starts at step zero.

use vstd::prelude::*;

use crate::ages;
use crate::btree;
use crate::compress::weight;
use crate::domain;
use crate::domain::{DomainFiles, Pair};
use crate::domain_laws;
use crate::error::{Error, FormatError, Result};
use crate::merge;
use crate::merge::{MergeInput, MergeOptions};
use crate::names;
use crate::newest;
use crate::readback;
use crate::reader;
use crate::reader::ReaderModel;
use crate::seg_writer;
use crate::stack;
use crate::stack::FileModel;
use crate::words;

verus! {

/// Number of pairs in the first `n` lists.
pub open spec fn pair_count(lists: Seq<Seq<Pair>>, n: nat) -> nat
    decreases n,
{
    if n == 0 {
        0
    } else {
        pair_count(lists, (n - 1) as nat) + lists[n - 1].len()
    }
}

/// The inputs can be read, each has strictly increasing keys, and a machine can hold their
/// pairs in one file.
pub open spec fn mergeable(inputs: Seq<MergeInput>) -> bool {
    &&& forall|i: int|
        0 <= i < inputs.len() ==> (merge::pairs_in((#[trigger] inputs[i]).kv@) matches Ok(ps) && btree::increasing(
            domain::keys_of(ps),
        ) && readback::storable(ps))
    &&& pair_count(ages::pairs_of(inputs), inputs.len()) < 0x80_0000_0000_0000
}

/// The pairs of the inputs in some order.
pub open spec fn in_order(inputs: Seq<MergeInput>, order: Seq<usize>) -> Seq<Seq<Pair>> {
    Seq::new(order.len(), |i: int| ages::pairs_of(inputs)[order[i] as int])
}

/// The step that the merged range starts at, as far as it is known.
pub open spec fn first_step(out_name: Seq<u8>, opts: MergeOptions) -> Option<u64> {
    match opts.range_from {
        Some(f) => Some(f),
        None => match names::step_range(out_name) {
            Some((f, _)) => Some(f),
            None => None,
        },
    }
}

/// What merges, step by step, comes from the lists, and there is no more of it.
proof fn lemma_merged_storable(lists: Seq<Seq<Pair>>, at: Seq<nat>)
    requires
        forall|i: int| 0 <= i < lists.len() ==> readback::storable(#[trigger] lists[i]),
    ensures
        merge::merged(lists, at).len() <= merge::remaining(lists, at, lists.len()),
        forall|j: int|
            0 <= j < merge::merged(lists, at).len() ==> (#[trigger] merge::merged(lists, at)[j]).0.len() <= isize::MAX
                && merge::merged(lists, at)[j].1.len() <= isize::MAX,
    decreases merge::remaining(lists, at, lists.len()),
{
    merge::lemma_winner(lists, at, lists.len());
    if let Some(w) = merge::winner(lists, at, lists.len()) {
        let p = lists[w][at[w] as int];
        let next = merge::advance(lists, at, p.0);
        merge::lemma_advance_shrinks(lists, at, p.0, lists.len());
        assert(merge::heads_with(lists, at, p.0, w));
        lemma_merged_storable(lists, next);
        assert(readback::storable(lists[w]));
        let rest = merge::merged(lists, next);
        let out = merge::merged(lists, at);
        assert(out == seq![p] + rest);
        assert forall|j: int| 0 <= j < out.len() implies (#[trigger] out[j]).0.len() <= isize::MAX && out[j].1.len()
            <= isize::MAX by {
            if j > 0 {
                assert(out[j] == rest[j - 1]);
            }
        }
    }
}

proof fn lemma_kept_storable(pairs: Seq<Pair>, drop: bool)
    requires
        readback::storable(pairs),
    ensures
        readback::storable(merge::kept(pairs, drop)),
        merge::kept(pairs, drop).len() <= pairs.len(),
    decreases pairs.len(),
{
    if pairs.len() > 0 {
        let r = pairs.drop_first();
        assert forall|i: int| 0 <= i < r.len() implies (#[trigger] r[i]).0.len() <= isize::MAX && r[i].1.len() <= isize::MAX by {
            assert(r[i] == pairs[i + 1]);
        }
        lemma_kept_storable(r, drop);
        let k = merge::kept(r, drop);
        let o = seq![pairs[0]] + k;
        assert forall|i: int| 0 <= i < o.len() implies (#[trigger] o[i]).0.len() <= isize::MAX && o[i].1.len() <= isize::MAX by {
            if i > 0 {
                assert(o[i] == k[i - 1]);
            }
        }
    }
}

proof fn lemma_count_rest(lists: Seq<Seq<Pair>>, n: nat)
    requires
        n <= lists.len(),
    ensures
        merge::remaining(lists, merge::starts(lists.len()), n) == pair_count(lists, n),
    decreases n,
{
    if n > 0 {
        lemma_count_rest(lists, (n - 1) as nat);
    }
}

/// One more list in a rearranged count.
proof fn lemma_count_without(lists: Seq<Seq<Pair>>, x: int, n: nat)
    requires
        0 <= x < n <= lists.len(),
    ensures
        pair_count(lists, n) == lists[x].len() + pair_count(lists.update(x, Seq::empty()), n),
    decreases n,
{
    let u = lists.update(x, Seq::empty());
    if x == n - 1 {
        lemma_count_same(lists, u, (n - 1) as nat);
    } else {
        lemma_count_without(lists, x, (n - 1) as nat);
    }
}

proof fn lemma_count_same(a: Seq<Seq<Pair>>, b: Seq<Seq<Pair>>, n: nat)
    requires
        forall|i: int| 0 <= i < n ==> #[trigger] a[i] == b[i],
    ensures
        pair_count(a, n) == pair_count(b, n),
    decreases n,
{
    if n > 0 {
        lemma_count_same(a, b, (n - 1) as nat);
        assert(a[n - 1] == b[n - 1]);
    }
}

/// Lists taken in another order, none twice, have no more pairs than all.
proof fn lemma_count_reordered(lists: Seq<Seq<Pair>>, order: Seq<int>, n: nat)
    requires
        n <= order.len(),
        forall|i: int| 0 <= i < order.len() ==> 0 <= #[trigger] order[i] < lists.len(),
        order.no_duplicates(),
    ensures
        pair_count(Seq::new(order.len(), |i: int| lists[order[i]]), n) <= pair_count(lists, lists.len()),
    decreases n,
{
    if n > 0 {
        let x = order[n - 1];
        let u = lists.update(x, Seq::empty());
        let a = Seq::new(order.len(), |i: int| lists[order[i]]);
        let b = Seq::new(order.len(), |i: int| u[order[i]]);
        assert forall|i: int| 0 <= i < n - 1 implies #[trigger] a[i] == b[i] by {
            assert(order[i] != order[n - 1]);
        }
        lemma_count_same(a, b, (n - 1) as nat);
        lemma_count_reordered(u, order, (n - 1) as nat);
        lemma_count_without(lists, x, lists.len());
    }
}

/// The order of a merge lists no input twice.
proof fn lemma_order_distinct(froms: Seq<u64>, order: Seq<usize>)
    requires
        merge::age_order(froms, order),
    ensures
        ages::as_ints(order).no_duplicates(),
        forall|i: int| 0 <= i < order.len() ==> 0 <= #[trigger] ages::as_ints(order)[i] < froms.len(),
{
    let o = ages::as_ints(order);
    assert forall|a: int, b: int| 0 <= a < o.len() && 0 <= b < o.len() && a != b implies o[a] != o[b] by {
        if a < b {
            assert(merge::older(froms, order[a] as int, order[b] as int));
        } else {
            assert(merge::older(froms, order[b] as int, order[a] as int));
        }
    }
    assert forall|i: int| 0 <= i < order.len() implies 0 <= #[trigger] o[i] < froms.len() by {
        assert(0 <= order[i] < froms.len());
    }
}

/// `order` lists the inputs by the first step that their names spell, zero if they spell
/// none, and those with the same first step as they are given.
pub open spec fn by_first_step(inputs: Seq<MergeInput>, order: Seq<usize>) -> bool {
    let first = |i: int|
        match names::step_range(inputs[i].name@) {
            Some((f, _)) => f,
            None => 0u64,
        };
    &&& order.len() == inputs.len()
    &&& forall|a: int| 0 <= a < order.len() ==> (#[trigger] order[a]) < inputs.len()
    &&& forall|a: int, b: int|
        0 <= a < b < order.len() ==> {
            let (x, y) = (first((#[trigger] order[a]) as int), first((#[trigger] order[b]) as int));
            x < y || (x == y && order[a] < order[b])
        }
}

proof fn lemma_by_first_step(inputs: Seq<MergeInput>, order: Seq<usize>)
    requires
        by_first_step(inputs, order),
    ensures
        merge::age_order(merge::froms_of(inputs), order),
{
    let froms = merge::froms_of(inputs);
    assert forall|a: int, b: int| 0 <= a < b < order.len() implies merge::older(
        froms,
        (#[trigger] order[a]) as int,
        (#[trigger] order[b]) as int,
    ) by {
        assert(order[a] < inputs.len() && order[b] < inputs.len());
    }
}

/// What merged files hold, from what the inputs hold.
proof fn lemma_merged_holds(
    inputs: Seq<MergeInput>,
    out_name: Seq<u8>,
    opts: MergeOptions,
    f: DomainFiles,
    order: Seq<usize>,
)
    requires
        mergeable(inputs),
        merge::merge_result(inputs, out_name, opts, Ok(f)),
        by_first_step(inputs, order),
    ensures
        reader::opened(f.kv@, Some(f.bt@), readback::kvei_of(f, true), false) matches Ok(r) && readback::holds(
            r,
            merge::kept(
                merge::merged(in_order(inputs, order), merge::starts(inputs.len())),
                merge::drops(out_name, opts),
            ),
        ),
        newest::all_sorted(in_order(inputs, order)),
{
    let drop = merge::drops(out_name, opts);
    let froms = merge::froms_of(inputs);
    let n = inputs.len();
    let ps = ages::pairs_of(inputs);
    lemma_by_first_step(inputs, order);
    let b = choose|o: Seq<usize>| #[trigger]
        merge::age_order(froms, o) && merge::merges_to(merge::kvs_in(inputs, o), drop, opts.domain, Ok(f));
    ages::law_one_merge_order(froms, b, order);
    let kvs = merge::kvs_in(inputs, order);
    let lists = merge::lists_of(kvs);
    assert forall|i: int| 0 <= i < n implies #[trigger] lists[i] == in_order(inputs, order)[i] by {
        assert(order[i] < inputs.len());
    }
    assert(lists =~= in_order(inputs, order));
    assert forall|i: int| 0 <= i < n implies btree::increasing(domain::keys_of(#[trigger] lists[i])) && readback::storable(
        lists[i],
    ) by {
        assert(order[i] < inputs.len());
        assert(merge::pairs_in(inputs[order[i] as int].kv@) is Ok);
    }
    let ints = ages::as_ints(order);
    lemma_order_distinct(froms, order);
    lemma_count_reordered(ps, ints, n);
    assert(Seq::new(ints.len(), |i: int| ps[ints[i]]) =~= lists);
    lemma_count_rest(lists, n);
    lemma_merged_storable(lists, merge::starts(n));
    lemma_kept_storable(merge::merged(lists, merge::starts(n)), drop);
    newest::law_merged_files_hold(kvs, drop, opts.domain, f);
}

/// What a merge keeps. A key has its newest value in the merged file, by the age of the
/// inputs; it is left out only if deletions shall be dropped, the merged range is known to
/// start at step 0, and that value is empty. No other key is there.
pub proof fn law_merge_drops_only_from_zero(
    inputs: Seq<MergeInput>,
    out_name: Seq<u8>,
    opts: MergeOptions,
    f: DomainFiles,
    order: Seq<usize>,
    key: Seq<u8>,
)
    requires
        mergeable(inputs),
        merge::merge_result(inputs, out_name, opts, Ok(f)),
        by_first_step(inputs, order),
    ensures
        reader::opened(f.kv@, Some(f.bt@), readback::kvei_of(f, true), false) matches Ok(r) && reader::lookup(r, key)
            == Ok::<Option<Seq<u8>>, FormatError>(
            match newest::newest_value(in_order(inputs, order), key, inputs.len()) {
                Some(v) => if opts.drop_deleted && first_step(out_name, opts) == Some(0u64) && v.len() == 0 {
                    None
                } else {
                    Some(v)
                },
                None => None,
            },
        ),
{
    lemma_merged_holds(inputs, out_name, opts, f, order);
    let r = reader::opened(f.kv@, Some(f.bt@), readback::kvei_of(f, true), false)->Ok_0;
    let lists = in_order(inputs, order);
    assert(lists.len() == inputs.len());
    newest::law_merged_value(lists, merge::drops(out_name, opts), r, key);
}

/// Replacing files by their merge changes no answer of a stack that also has older files,
/// unless the merged range is known to start at step 0: a deletion in the merged files still
/// hides what the older files have.
pub proof fn law_merge_hides_what_its_inputs_hid(
    inputs: Seq<MergeInput>,
    out_name: Seq<u8>,
    opts: MergeOptions,
    f: DomainFiles,
    order: Seq<usize>,
    base: Seq<FileModel>,
    base_lists: Seq<Seq<Pair>>,
    files: Seq<FileModel>,
    whole: FileModel,
    key: Seq<u8>,
)
    requires
        mergeable(inputs),
        merge::merge_result(inputs, out_name, opts, Ok(f)),
        by_first_step(inputs, order),
        first_step(out_name, opts) != Some(0u64) || !opts.drop_deleted,
        newest::files_hold(base, base_lists),
        newest::files_hold(files, in_order(inputs, order)),
        reader::opened(f.kv@, Some(f.bt@), readback::kvei_of(f, true), false) == Ok::<ReaderModel, FormatError>(whole.data),
    ensures
        stack::stack_lookup(base.push(whole), key) == stack::stack_lookup(base + files, key),
{
    let lists = in_order(inputs, order);
    let n = inputs.len();
    lemma_merged_holds(inputs, out_name, opts, f, order);
    law_merge_drops_only_from_zero(inputs, out_name, opts, f, order, key);
    let out = merge::kept(merge::merged(lists, merge::starts(n)), merge::drops(out_name, opts));
    let a = base_lists.push(out);
    let b = base_lists + lists;
    let fa = base.push(whole);
    let fb = base + files;
    assert forall|i: int| 0 <= i < fa.len() implies readback::holds((#[trigger] fa[i]).data, a[i]) by {
        if i < base.len() {
            assert(readback::holds(base[i].data, base_lists[i]));
        }
    }
    assert forall|i: int| 0 <= i < fb.len() implies readback::holds((#[trigger] fb[i]).data, b[i]) by {
        if i < base.len() {
            assert(readback::holds(base[i].data, base_lists[i]));
        } else {
            assert(readback::holds(files[i - base.len()].data, lists[i - base.len()]));
        }
    }
    newest::law_stack_finds_newest(fa, a, key);
    newest::law_stack_finds_newest(fb, b, key);
    newest::law_merged_value(lists, merge::drops(out_name, opts), whole.data, key);
    newest::lemma_lookup_value(whole.data, out, key);
    lemma_newest_prefix(base_lists, a, key, base_lists.len());
    lemma_newest_split(base_lists, lists, key, lists.len());
    assert(a[a.len() - 1] == out);
}

proof fn lemma_newest_prefix(a: Seq<Seq<Pair>>, b: Seq<Seq<Pair>>, key: Seq<u8>, n: nat)
    requires
        n <= a.len(),
        n <= b.len(),
        forall|i: int| 0 <= i < n ==> #[trigger] a[i] == b[i],
    ensures
        newest::newest_value(a, key, n) == newest::newest_value(b, key, n),
    decreases n,
{
    if n > 0 {
        lemma_newest_prefix(a, b, key, (n - 1) as nat);
        assert(a[n - 1] == b[n - 1]);
    }
}

proof fn lemma_newest_split(a: Seq<Seq<Pair>>, b: Seq<Seq<Pair>>, key: Seq<u8>, n: nat)
    requires
        n <= b.len(),
    ensures
        newest::newest_value(a + b, key, a.len() + n) == match newest::newest_value(b, key, n) {
            Some(v) => Some(v),
            None => newest::newest_value(a, key, a.len()),
        },
    decreases n,
{
    if n > 0 {
        lemma_newest_split(a, b, key, (n - 1) as nat);
        assert((a + b)[a.len() + n - 1] == b[n - 1]);
    } else {
        lemma_newest_prefix(a, a + b, key, a.len());
    }
}

/// Every pair has a key of at most 65535 bytes, and key and value have at most `size`.
pub open spec fn pairs_within(pairs: Seq<Pair>, size: nat) -> bool {
    forall|j: int| 0 <= j < pairs.len() ==> (#[trigger] pairs[j]).0.len() <= 65535 && pairs[j].0.len() + pairs[j].1.len() <= size
}

proof fn lemma_merged_within(lists: Seq<Seq<Pair>>, at: Seq<nat>, size: nat)
    requires
        forall|i: int| 0 <= i < lists.len() ==> pairs_within(#[trigger] lists[i], size),
    ensures
        pairs_within(merge::merged(lists, at), size),
    decreases merge::remaining(lists, at, lists.len()),
{
    merge::lemma_winner(lists, at, lists.len());
    if let Some(w) = merge::winner(lists, at, lists.len()) {
        let p = lists[w][at[w] as int];
        let next = merge::advance(lists, at, p.0);
        merge::lemma_advance_shrinks(lists, at, p.0, lists.len());
        assert(merge::heads_with(lists, at, p.0, w));
        lemma_merged_within(lists, next, size);
        assert(pairs_within(lists[w], size));
        let rest = merge::merged(lists, next);
        let out = merge::merged(lists, at);
        assert(out == seq![p] + rest);
        assert forall|j: int| 0 <= j < out.len() implies (#[trigger] out[j]).0.len() <= 65535 && out[j].0.len()
            + out[j].1.len() <= size by {
            if j > 0 {
                assert(out[j] == rest[j - 1]);
            }
        }
    }
}

proof fn lemma_kept_within(pairs: Seq<Pair>, drop: bool, size: nat)
    requires
        pairs_within(pairs, size),
    ensures
        pairs_within(merge::kept(pairs, drop), size),
    decreases pairs.len(),
{
    if pairs.len() > 0 {
        let r = pairs.drop_first();
        assert forall|j: int| 0 <= j < r.len() implies (#[trigger] r[j]).0.len() <= 65535 && r[j].0.len() + r[j].1.len()
            <= size by {
            assert(r[j] == pairs[j + 1]);
        }
        lemma_kept_within(r, drop, size);
        let k = merge::kept(r, drop);
        let o = seq![pairs[0]] + k;
        assert forall|j: int| 0 <= j < o.len() implies (#[trigger] o[j]).0.len() <= 65535 && o[j].0.len() + o[j].1.len()
            <= size by {
            if j > 0 {
                assert(o[j] == k[j - 1]);
            }
        }
    }
}

proof fn lemma_size_within(pairs: Seq<Pair>, size: nat)
    requires
        pairs_within(pairs, size),
    ensures
        domain_laws::size_of_pairs(pairs) <= pairs.len() * (size + 4),
    decreases pairs.len(),
{
    if pairs.len() > 0 {
        let d = pairs.drop_last();
        lemma_size_within(d, size);
        assert(pairs.last() == pairs[pairs.len() - 1]);
        let n = pairs.len() as int;
        assert((n - 1) * (size + 4) + (size + 4) == n * (size + 4)) by (nonlinear_arith);
    }
}

/// A merge without inputs, or of a file that is none, is refused, and one of a file that is
/// damaged fails.
pub proof fn law_merge_refusals(inputs: Seq<MergeInput>, out_name: Seq<u8>, opts: MergeOptions, r: Result<DomainFiles>, i: int)
    requires
        merge::merge_result(inputs, out_name, opts, r),
    ensures
        inputs.len() == 0 ==> r == Err::<DomainFiles, Error>(Error::Format(FormatError::NoInputs)),
        0 <= i < inputs.len() && words::parse_seg(inputs[i].kv@, false) is None ==> r == Err::<DomainFiles, Error>(
            Error::Format(FormatError::InvalidKv),
        ),
        0 <= i < inputs.len() && merge::pairs_in(inputs[i].kv@) is Err ==> r is Err,
{
    if 0 <= i < inputs.len() {
        let froms = merge::froms_of(inputs);
        let o = choose|o: Seq<usize>| #[trigger]
            merge::age_order(froms, o) && merge::merges_to(
                merge::kvs_in(inputs, o),
                merge::drops(out_name, opts),
                opts.domain,
                r,
            );
        lemma_order_distinct(froms, o);
        let ints = ages::as_ints(o);
        let a = lemma_order_reaches(ints, i);
        assert(o[a] == i);
        assert(merge::kvs_in(inputs, o)[a] == inputs[i].kv@);
    }
}

/// An order that lists none of `n` files twice lists all.
proof fn lemma_order_reaches(order: Seq<int>, i: int) -> (a: int)
    requires
        order.no_duplicates(),
        forall|k: int| 0 <= k < order.len() ==> 0 <= #[trigger] order[k] < order.len(),
        0 <= i < order.len(),
    ensures
        0 <= a < order.len(),
        order[a] == i,
{
    let n = order.len() as int;
    if forall|a: int| 0 <= a < n ==> order[a] != i {
        let seen = order.to_set();
        let all = vstd::set_lib::set_int_range(0, n);
        vstd::set_lib::lemma_int_range(0, n);
        order.unique_seq_to_set();
        assert(seen.subset_of(all.remove(i))) by {
            assert forall|x: int| seen.contains(x) implies all.remove(i).contains(x) by {
                let k = choose|k: int| 0 <= k < order.len() && order[k] == x;
                assert(order[k] == x);
            }
        }
        vstd::set_lib::lemma_len_subset(seen, all.remove(i));
        assert(false);
    }
    choose|a: int| 0 <= a < n && order[a] == i
}

/// A merge succeeds: of files that can be read, with keys of at most 65535 bytes in order, up
/// to about a billion pairs and some fifty billion bytes in all, on a machine that can hold
/// them.
pub proof fn law_ordinary_merges_finish(
    inputs: Seq<MergeInput>,
    out_name: Seq<u8>,
    opts: MergeOptions,
    r: Result<DomainFiles>,
    size: nat,
)
    requires
        inputs.len() > 0,
        mergeable(inputs),
        merge::merge_result(inputs, out_name, opts, r),
        forall|i: int| 0 <= i < inputs.len() ==> pairs_within(#[trigger] ages::pairs_of(inputs)[i], size),
        pair_count(ages::pairs_of(inputs), inputs.len()) <= 0x4000_0000,
        pair_count(ages::pairs_of(inputs), inputs.len()) * (size + 4) < 50_000_000_000,
        24 * pair_count(ages::pairs_of(inputs), inputs.len()) + 1000 <= isize::MAX,
        forall|ws: Seq<Seq<u8>>, kv: Seq<u8>| #[trigger]
            seg_writer::written(ws, opts.domain.compress, kv) && weight(ws, ws.len()) < 50_000_000_000 ==> kv.len()
                < u64::MAX,
    ensures
        r is Ok,
{
    let drop = merge::drops(out_name, opts);
    let froms = merge::froms_of(inputs);
    let n = inputs.len();
    let ps = ages::pairs_of(inputs);
    let order = choose|o: Seq<usize>| #[trigger]
        merge::age_order(froms, o) && merge::merges_to(merge::kvs_in(inputs, o), drop, opts.domain, r);
    let kvs = merge::kvs_in(inputs, order);
    let lists = merge::lists_of(kvs);
    assert forall|i: int| 0 <= i < n implies #[trigger] lists[i] == in_order(inputs, order)[i] && pairs_within(lists[i], size)
        && btree::increasing(domain::keys_of(lists[i])) && readback::storable(lists[i]) && merge::pairs_in(kvs[i]) is Ok by {
        assert(order[i] < inputs.len());
        assert(merge::pairs_in(inputs[order[i] as int].kv@) is Ok);
        assert(pairs_within(ps[order[i] as int], size));
    }
    assert(!merge::some_invalid(kvs)) by {
        if merge::some_invalid(kvs) {
            let i = choose|i: int| 0 <= i < kvs.len() && words::parse_seg(#[trigger] kvs[i], false) is None;
            assert(lists[i] == in_order(inputs, order)[i]);
        }
    }
    assert(!merge::some_damaged(kvs)) by {
        if merge::some_damaged(kvs) {
            let i = choose|i: int| 0 <= i < kvs.len() && merge::pairs_in(#[trigger] kvs[i]) is Err;
            assert(lists[i] == in_order(inputs, order)[i]);
        }
    }
    let ints = ages::as_ints(order);
    lemma_order_distinct(froms, order);
    lemma_count_reordered(ps, ints, n);
    assert(Seq::new(ints.len(), |i: int| ps[ints[i]]) =~= lists);
    lemma_count_rest(lists, n);
    let m = merge::merged(lists, merge::starts(n));
    lemma_merged_storable(lists, merge::starts(n));
    lemma_merged_within(lists, merge::starts(n), size);
    lemma_kept_storable(m, drop);
    lemma_kept_within(m, drop, size);
    let out = merge::kept(m, drop);
    lemma_size_within(out, size);
    let count = pair_count(ps, n);
    assert(out.len() * (size + 4) <= count * (size + 4)) by (nonlinear_arith)
        requires
            out.len() <= count,
    ;
    newest::law_merge_takes_newest(lists, Seq::empty());
    newest::law_deletions_are_dropped(m, drop, Seq::empty());
    domain_laws::law_sorted_pairs_are_taken(out, out.len());
    let ws = domain::words_of(out);
    domain_laws::lemma_size(out);
    assert forall|kv: Seq<u8>| #[trigger] seg_writer::written(ws, opts.domain.compress, kv) implies kv.len() < u64::MAX by {}
    domain_laws::law_ordinary_domains_finish(out, opts.domain, r);
}

} // verus!
