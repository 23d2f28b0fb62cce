//! The age of files: that a stack and a merge agree on it, and that neither depends on the
//! order in which the files are given.
//!
//! A stack orders its files by first and last step, a merge by first step alone, and both
//! leave files of the same age as they were given. Files whose steps are pairwise distinct
//! are therefore put into one and the same order, however they are given.

use vstd::prelude::*;

use crate::domain::{DomainFiles, Pair};
use crate::error::{FormatError, Result};
use crate::merge;
use crate::merge::{MergeInput, MergeOptions};
use crate::names;
use crate::newest;
use crate::readback;
use crate::reader;
use crate::salt::Salt;
use crate::stack;
use crate::stack::FileModel;

verus! {

// ------------------------------------------------------------------ orders

/// `p` lists each of the numbers below its length once.
pub open spec fn is_permutation(p: Seq<int>) -> bool {
    &&& forall|i: int| 0 <= i < p.len() ==> 0 <= #[trigger] p[i] < p.len()
    &&& p.no_duplicates()
}

/// `b` has the items of `a` in another order, or in the same.
pub open spec fn rearranged<T>(a: Seq<T>, b: Seq<T>) -> bool {
    exists|p: Seq<int>| #[trigger] rearranged_by(a, b, p)
}

/// Item `i` of `b` is item `p[i]` of `a`.
pub open spec fn rearranged_by<T>(a: Seq<T>, b: Seq<T>, p: Seq<int>) -> bool {
    &&& is_permutation(p)
    &&& a.len() == p.len()
    &&& b.len() == p.len()
    &&& forall|i: int| 0 <= i < p.len() ==> #[trigger] b[i] == a[p[i]]
}

/// A permutation lists every number.
proof fn lemma_lists_all(p: Seq<int>, x: int)
    requires
        is_permutation(p),
        0 <= x < p.len(),
    ensures
        p.contains(x),
{
    let n = p.len() as int;
    p.unique_seq_to_set();
    vstd::set_lib::lemma_int_range(0, n);
    vstd::seq_lib::seq_to_set_is_finite(p);
    assert(p.to_set().subset_of(vstd::set_lib::set_int_range(0, n)));
    vstd::set_lib::lemma_subset_equality(p.to_set(), vstd::set_lib::set_int_range(0, n));
    assert(p.to_set().contains(x));
}

/// Where a permutation lists a number.
spec fn place_in(p: Seq<int>, x: int) -> int {
    choose|i: int| 0 <= i < p.len() && p[i] == x
}

/// The permutation that undoes another.
spec fn inverse(p: Seq<int>) -> Seq<int> {
    Seq::new(p.len(), |x: int| place_in(p, x))
}

proof fn lemma_inverse(p: Seq<int>)
    requires
        is_permutation(p),
    ensures
        is_permutation(inverse(p)),
        forall|x: int| 0 <= x < p.len() ==> p[#[trigger] inverse(p)[x]] == x,
{
    let q = inverse(p);
    assert forall|x: int| 0 <= x < p.len() implies 0 <= #[trigger] q[x] < p.len() && p[q[x]] == x by {
        lemma_lists_all(p, x);
    }
}

/// `order` lists the numbers from least to greatest.
spec fn goes_up(lt: spec_fn(int, int) -> bool, order: Seq<int>) -> bool {
    forall|a: int, b: int| 0 <= a < b < order.len() ==> lt(#[trigger] order[a], #[trigger] order[b])
}

/// No number is less than one that is less than it.
spec fn one_way(lt: spec_fn(int, int) -> bool) -> bool {
    forall|i: int, j: int| !(#[trigger] lt(i, j) && lt(j, i))
}

proof fn lemma_up_is_permutation(lt: spec_fn(int, int) -> bool, order: Seq<int>)
    requires
        one_way(lt),
        goes_up(lt, order),
        forall|i: int| 0 <= i < order.len() ==> 0 <= #[trigger] order[i] < order.len(),
    ensures
        is_permutation(order),
{
    assert forall|a: int, b: int| 0 <= a < order.len() && 0 <= b < order.len() && a != b implies order[a] != order[b] by {
        if a < b {
            assert(lt(order[a], order[b]));
        } else {
            assert(lt(order[b], order[a]));
        }
    }
}

/// There is one order from least to greatest.
proof fn lemma_one_order(lt: spec_fn(int, int) -> bool, a: Seq<int>, b: Seq<int>, k: int)
    requires
        one_way(lt),
        goes_up(lt, a),
        goes_up(lt, b),
        is_permutation(a),
        is_permutation(b),
        a.len() == b.len(),
        0 <= k <= a.len(),
    ensures
        forall|i: int| 0 <= i < k ==> #[trigger] a[i] == b[i],
    decreases k,
{
    if k > 0 {
        let x = k - 1;
        lemma_one_order(lt, a, b, x);
        lemma_lists_all(b, a[x]);
        lemma_lists_all(a, b[x]);
        let i = choose|i: int| 0 <= i < b.len() && b[i] == a[x];
        let j = choose|j: int| 0 <= j < a.len() && a[j] == b[x];
        if i < x {
            assert(a[i] == b[i]);
        }
        if j < x {
            assert(a[j] == b[j]);
        }
        if a[x] != b[x] {
            assert(lt(b[x], b[i]));
            assert(lt(a[x], a[j]));
        }
    }
}

// ------------------------------------------------------------------ the stack

/// No two files have the same first and last step.
pub open spec fn distinct_ranges(files: Seq<FileModel>) -> bool {
    forall|i: int, j: int|
        0 <= i < j < files.len() ==> names::step_key_spec((#[trigger] files[i]).name) != names::step_key_spec(
            (#[trigger] files[j]).name,
        )
}

/// Files have one order from oldest to newest.
pub proof fn law_one_age_order(files: Seq<FileModel>, a: Seq<int>, b: Seq<int>)
    requires
        stack::age_order(files, a),
        stack::age_order(files, b),
    ensures
        a == b,
{
    let lt = |i: int, j: int| stack::older(files, i, j);
    lemma_up_is_permutation(lt, a);
    lemma_up_is_permutation(lt, b);
    lemma_one_order(lt, a, b, a.len() as int);
    assert(a =~= b);
}

/// Inputs of a merge have one order from oldest to newest.
pub proof fn law_one_merge_order(froms: Seq<u64>, a: Seq<usize>, b: Seq<usize>)
    requires
        merge::age_order(froms, a),
        merge::age_order(froms, b),
    ensures
        a == b,
{
    let lt = |i: int, j: int| merge::older(froms, i, j);
    let x = as_ints(a);
    let y = as_ints(b);
    assert forall|i: int, j: int| 0 <= i < j < x.len() implies lt(#[trigger] x[i], #[trigger] x[j]) by {
        assert(merge::older(froms, a[i] as int, a[j] as int));
    }
    assert forall|i: int, j: int| 0 <= i < j < y.len() implies lt(#[trigger] y[i], #[trigger] y[j]) by {
        assert(merge::older(froms, b[i] as int, b[j] as int));
    }
    assert forall|i: int| 0 <= i < x.len() implies 0 <= #[trigger] x[i] < x.len() by {
        assert(0 <= a[i] < froms.len());
    }
    assert forall|i: int| 0 <= i < y.len() implies 0 <= #[trigger] y[i] < y.len() by {
        assert(0 <= b[i] < froms.len());
    }
    lemma_up_is_permutation(lt, x);
    lemma_up_is_permutation(lt, y);
    lemma_one_order(lt, x, y, x.len() as int);
    assert forall|i: int| 0 <= i < a.len() implies a[i] == b[i] by {
        assert(x[i] == y[i]);
    }
    assert(a =~= b);
}

/// The files of a stack may be given in any order: those with pairwise distinct step
/// ranges make the same stack, with the same salt, however they are given.
pub proof fn law_stack_takes_any_order(
    given: Seq<FileModel>,
    other: Seq<FileModel>,
    salt: Salt,
    stacked: Seq<FileModel>,
    used: Option<u32>,
    other_stacked: Seq<FileModel>,
    other_used: Option<u32>,
)
    requires
        distinct_ranges(given),
        rearranged(given, other),
        stack::stacks(given, salt, stacked, used),
        stack::stacks(other, salt, other_stacked, other_used),
    ensures
        stacked == other_stacked,
        used == other_used,
{
    let n = given.len();
    let p = choose|p: Seq<int>| #[trigger] rearranged_by(given, other, p);
    let a = choose|order: Seq<int>| #[trigger]
        stack::age_order(given, order) && {
            let sorted = Seq::new(given.len(), |i: int| given[order[i]]);
            &&& used == stack::resolved_salt(sorted, salt)
            &&& stacked == Seq::new(given.len(), |i: int| stack::with_salt(sorted[i], used))
        };
    let b = choose|order: Seq<int>| #[trigger]
        stack::age_order(other, order) && {
            let sorted = Seq::new(other.len(), |i: int| other[order[i]]);
            &&& other_used == stack::resolved_salt(sorted, salt)
            &&& other_stacked == Seq::new(other.len(), |i: int| stack::with_salt(sorted[i], other_used))
        };
    let c = Seq::new(n, |i: int| p[b[i]]);
    assert forall|i: int| 0 <= i < n implies 0 <= #[trigger] c[i] < n && given[c[i]] == other[b[i]] by {
        assert(0 <= b[i] < n);
        assert(other[b[i]] == given[p[b[i]]]);
    }
    assert forall|i: int, j: int| 0 <= i < j < n implies stack::older(given, #[trigger] c[i], #[trigger] c[j]) by {
        assert(stack::older(other, b[i], b[j]));
        assert(given[c[i]] == other[b[i]] && given[c[j]] == other[b[j]]);
        assert(b[i] != b[j]);
        assert(p[b[i]] != p[b[j]]);
        assert(names::step_key_spec(given[c[i]].name) != names::step_key_spec(given[c[j]].name));
    }
    assert(stack::age_order(given, c));
    law_one_age_order(given, a, c);
    assert(Seq::new(given.len(), |i: int| given[a[i]]) =~= Seq::new(other.len(), |i: int| other[b[i]]));
    assert(stacked =~= other_stacked);
}

/// A wrong salt can never cause a missed key: whatever the salt, a stack finds the newest
/// value of a key in the files that it was opened from, and nothing else.
pub proof fn law_stack_finds_newest_under_any_salt(
    given: Seq<FileModel>,
    lists: Seq<Seq<Pair>>,
    salt: Salt,
    stacked: Seq<FileModel>,
    used: Option<u32>,
    order: Seq<int>,
    key: Seq<u8>,
)
    requires
        newest::files_hold(given, lists),
        stack::stacks(given, salt, stacked, used),
        stack::age_order(given, order),
    ensures
        stack::stack_lookup(stacked, key) == Ok::<Option<Seq<u8>>, FormatError>(
            newest::newest_value(Seq::new(lists.len(), |i: int| lists[order[i]]), key, lists.len()),
        ),
{
    let n = given.len();
    let a = choose|order: Seq<int>| #[trigger]
        stack::age_order(given, order) && {
            let sorted = Seq::new(given.len(), |i: int| given[order[i]]);
            &&& used == stack::resolved_salt(sorted, salt)
            &&& stacked == Seq::new(given.len(), |i: int| stack::with_salt(sorted[i], used))
        };
    law_one_age_order(given, a, order);
    let sorted_lists = Seq::new(lists.len(), |i: int| lists[order[i]]);
    assert forall|i: int| 0 <= i < n implies readback::holds((#[trigger] stacked[i]).data, sorted_lists[i]) by {
        let f = given[order[i]];
        assert(0 <= order[i] < n);
        assert(readback::holds(f.data, lists[order[i]]));
        assert(stacked[i] == stack::with_salt(f, used));
        if let Some(s) = used {
            if reader::enabled_salt(f.data, Salt::Known(s)) is Some {
                readback::law_enabling_is_safe(f.data, lists[order[i]], Salt::Known(s));
            }
        }
    }
    newest::law_stack_finds_newest(stacked, sorted_lists, key);
}

// ------------------------------------------------------------------ the merge

/// No two inputs have the same first step.
pub open spec fn distinct_froms(inputs: Seq<MergeInput>) -> bool {
    forall|i: int, j: int|
        0 <= i < j < inputs.len() ==> merge::from_step((#[trigger] inputs[i]).name@) != merge::from_step(
            (#[trigger] inputs[j]).name@,
        )
}

/// The files are those that are merged.
pub open spec fn same_names(inputs: Seq<MergeInput>, files: Seq<FileModel>) -> bool {
    &&& inputs.len() == files.len()
    &&& forall|i: int| 0 <= i < inputs.len() ==> (#[trigger] inputs[i]).name@ == files[i].name
}

/// An order as numbers.
pub open spec fn as_ints(order: Seq<usize>) -> Seq<int> {
    Seq::new(order.len(), |i: int| order[i] as int)
}

/// A merge and a stack put files with pairwise distinct first steps into the same order.
pub proof fn law_merge_and_stack_order_alike(inputs: Seq<MergeInput>, files: Seq<FileModel>, order: Seq<usize>)
    requires
        distinct_froms(inputs),
        same_names(inputs, files),
    ensures
        merge::age_order(merge::froms_of(inputs), order) == stack::age_order(files, as_ints(order)),
{
    let froms = merge::froms_of(inputs);
    let ints = as_ints(order);
    assert forall|i: int, j: int| 0 <= i < inputs.len() && 0 <= j < inputs.len() implies #[trigger] merge::older(froms, i, j)
        == stack::older(files, i, j) by {
        assert(inputs[i].name@ == files[i].name);
        assert(inputs[j].name@ == files[j].name);
        assert(froms[i] == names::step_key_spec(files[i].name).0);
        assert(froms[j] == names::step_key_spec(files[j].name).0);
    }
    if merge::age_order(froms, order) {
        assert forall|a: int| 0 <= a < ints.len() implies 0 <= #[trigger] ints[a] < files.len() by {
            assert(0 <= order[a] < froms.len());
        }
        assert forall|a: int, b: int| 0 <= a < b < ints.len() implies stack::older(
            files,
            #[trigger] ints[a],
            #[trigger] ints[b],
        ) by {
            assert(merge::older(froms, order[a] as int, order[b] as int));
        }
    }
    if stack::age_order(files, ints) {
        assert forall|a: int| 0 <= a < order.len() implies 0 <= #[trigger] order[a] < froms.len() by {
            assert(0 <= ints[a] < files.len());
        }
        assert forall|a: int, b: int| 0 <= a < b < order.len() implies merge::older(
            froms,
            (#[trigger] order[a]) as int,
            (#[trigger] order[b]) as int,
        ) by {
            assert(stack::older(files, ints[a], ints[b]));
        }
    }
}

/// The order of rearranged inputs, as an order of the inputs before.
proof fn lemma_order_rearranged(inputs: Seq<MergeInput>, other: Seq<MergeInput>, p: Seq<int>, b: Seq<usize>) -> (c: Seq<usize>)
    requires
        distinct_froms(inputs),
        rearranged_by(inputs, other, p),
        inputs.len() <= usize::MAX,
        merge::age_order(merge::froms_of(other), b),
    ensures
        merge::age_order(merge::froms_of(inputs), c),
        merge::kvs_in(inputs, c) == merge::kvs_in(other, b),
        c.len() == b.len(),
        forall|i: int| 0 <= i < c.len() ==> #[trigger] c[i] == p[b[i] as int],
{
    let froms = merge::froms_of(inputs);
    let other_froms = merge::froms_of(other);
    let n = inputs.len();
    let c = Seq::new(n, |i: int| p[b[i] as int] as usize);
    assert forall|i: int| 0 <= i < n implies #[trigger] c[i] == p[b[i] as int] && 0 <= p[b[i] as int] < n by {
        assert(0 <= b[i] < other_froms.len());
        assert(0 <= p[b[i] as int] < n);
    }
    assert forall|i: int| 0 <= i < n implies inputs[(#[trigger] c[i]) as int] == other[b[i] as int] by {
        assert(0 <= b[i] < other_froms.len());
        assert(other[b[i] as int] == inputs[p[b[i] as int]]);
    }
    assert forall|i: int, j: int| 0 <= i < j < n implies merge::older(froms, (#[trigger] c[i]) as int, (#[trigger] c[j]) as int) by {
        assert(merge::older(other_froms, b[i] as int, b[j] as int));
        assert(inputs[c[i] as int] == other[b[i] as int] && inputs[c[j] as int] == other[b[j] as int]);
        assert(0 <= b[i] < other_froms.len());
        assert(0 <= b[j] < other_froms.len());
        assert(p[b[i] as int] != p[b[j] as int]);
        assert(merge::from_step(inputs[c[i] as int].name@) != merge::from_step(inputs[c[j] as int].name@));
    }
    assert(merge::kvs_in(inputs, c) =~= merge::kvs_in(other, b));
    c
}

proof fn lemma_merge_rearranged(
    inputs: Seq<MergeInput>,
    other: Seq<MergeInput>,
    out_name: Seq<u8>,
    opts: MergeOptions,
    r: Result<DomainFiles>,
)
    requires
        distinct_froms(inputs),
        rearranged(inputs, other),
        inputs.len() <= usize::MAX,
        merge::merge_result(other, out_name, opts, r),
    ensures
        merge::merge_result(inputs, out_name, opts, r),
{
    let p = choose|p: Seq<int>| #[trigger] rearranged_by(inputs, other, p);
    if inputs.len() > 0 {
        let drop = merge::drops(out_name, opts);
        let b = choose|order: Seq<usize>| #[trigger]
            merge::age_order(merge::froms_of(other), order) && merge::merges_to(
                merge::kvs_in(other, order),
                drop,
                opts.domain,
                r,
            );
        let c = lemma_order_rearranged(inputs, other, p, b);
        assert(merge::age_order(merge::froms_of(inputs), c));
    }
}

proof fn lemma_rearranged_back<T>(a: Seq<T>, b: Seq<T>)
    requires
        rearranged(a, b),
    ensures
        rearranged(b, a),
{
    let p = choose|p: Seq<int>| #[trigger] rearranged_by(a, b, p);
    let q = inverse(p);
    lemma_inverse(p);
    assert forall|i: int| 0 <= i < q.len() implies #[trigger] a[i] == b[q[i]] by {
        assert(p[q[i]] == i);
        assert(0 <= q[i] < p.len());
        assert(b[q[i]] == a[p[q[i]]]);
    }
    assert(rearranged_by(b, a, q));
}

/// The inputs of a merge may be given in any order: those with pairwise distinct first
/// steps merge to the same, however they are given.
pub proof fn law_merge_takes_any_order(
    inputs: Seq<MergeInput>,
    other: Seq<MergeInput>,
    out_name: Seq<u8>,
    opts: MergeOptions,
    r: Result<DomainFiles>,
)
    requires
        distinct_froms(inputs),
        rearranged(inputs, other),
        inputs.len() <= usize::MAX,
    ensures
        merge::merge_result(inputs, out_name, opts, r) == merge::merge_result(other, out_name, opts, r),
{
    let p = choose|p: Seq<int>| #[trigger] rearranged_by(inputs, other, p);
    assert forall|i: int, j: int| 0 <= i < j < other.len() implies merge::from_step((#[trigger] other[i]).name@)
        != merge::from_step((#[trigger] other[j]).name@) by {
        assert(other[i] == inputs[p[i]]);
        assert(other[j] == inputs[p[j]]);
        assert(0 <= p[i] < p.len() && 0 <= p[j] < p.len());
        assert(p[i] != p[j]);
    }
    lemma_rearranged_back(inputs, other);
    if merge::merge_result(other, out_name, opts, r) {
        lemma_merge_rearranged(inputs, other, out_name, opts, r);
    }
    if merge::merge_result(inputs, out_name, opts, r) {
        lemma_merge_rearranged(other, inputs, out_name, opts, r);
    }
}

// ------------------------------------------------------------------ merge and stack

/// The pairs of each input.
pub open spec fn pairs_of(inputs: Seq<MergeInput>) -> Seq<Seq<Pair>> {
    Seq::new(inputs.len(), |i: int| merge::pairs_in(inputs[i].kv@)->Ok_0)
}

/// Merging files changes no answer: the merge of files with pairwise distinct first steps
/// opens, and answers every lookup as a stack of those files does under any salt, except
/// that a dropped deletion is absent where the stack has an empty value.
pub proof fn law_merge_answers_as_stack(
    inputs: Seq<MergeInput>,
    given: Seq<FileModel>,
    out_name: Seq<u8>,
    opts: MergeOptions,
    f: DomainFiles,
    salt: Salt,
    stacked: Seq<FileModel>,
    used: Option<u32>,
    order: Seq<usize>,
    key: Seq<u8>,
)
    requires
        distinct_froms(inputs),
        same_names(inputs, given),
        newest::files_hold(given, pairs_of(inputs)),
        merge::merge_result(inputs, out_name, opts, Ok(f)),
        stack::stacks(given, salt, stacked, used),
        merge::age_order(merge::froms_of(inputs), order),
        readback::storable(
            merge::kept(
                merge::merged(merge::lists_of(merge::kvs_in(inputs, order)), merge::starts(inputs.len())),
                merge::drops(out_name, opts),
            ),
        ),
    ensures
        reader::opened(f.kv@, Some(f.bt@), readback::kvei_of(f, true), false) matches Ok(r) && match stack::stack_lookup(
            stacked,
            key,
        ) {
            Ok(Some(v)) => reader::lookup(r, key) == Ok::<Option<Seq<u8>>, FormatError>(
                if merge::drops(out_name, opts) && v.len() == 0 { None } else { Some(v) },
            ),
            Ok(None) => reader::lookup(r, key) == Ok::<Option<Seq<u8>>, FormatError>(None),
            Err(_) => false,
        },
{
    let drop = merge::drops(out_name, opts);
    let n = inputs.len();
    if n > 0 {
        let b = choose|o: Seq<usize>| #[trigger]
            merge::age_order(merge::froms_of(inputs), o) && merge::merges_to(
                merge::kvs_in(inputs, o),
                drop,
                opts.domain,
                Ok(f),
            );
        law_merge_and_stack_order_alike(inputs, given, b);
        law_merge_and_stack_order_alike(inputs, given, order);
        law_one_age_order(given, as_ints(b), as_ints(order));
        assert forall|i: int| 0 <= i < n implies #[trigger] b[i] == order[i] by {
            assert(as_ints(b)[i] == as_ints(order)[i]);
        }
        assert(b =~= order);
        let kvs = merge::kvs_in(inputs, order);
        let lists = merge::lists_of(kvs);
        let ps = pairs_of(inputs);
        let ints = as_ints(order);
        assert forall|i: int| 0 <= i < n implies #[trigger] lists[i] == ps[ints[i]] by {
            assert(0 <= order[i] < merge::froms_of(inputs).len());
        }
        assert(lists =~= Seq::new(ps.len(), |i: int| ps[ints[i]]));
        assert forall|i: int| 0 <= i < lists.len() implies crate::btree::increasing(
            crate::domain::keys_of(#[trigger] lists[i]),
        ) by {
            assert(0 <= order[i] < merge::froms_of(inputs).len());
            assert(readback::holds(given[ints[i]].data, ps[ints[i]]));
        }
        newest::law_merged_files_hold(kvs, drop, opts.domain, f);
        law_stack_finds_newest_under_any_salt(given, ps, salt, stacked, used, ints, key);
        let r = reader::opened(f.kv@, Some(f.bt@), readback::kvei_of(f, true), false)->Ok_0;
        newest::law_merged_value(lists, drop, r, key);
    }
}

} // verus!
