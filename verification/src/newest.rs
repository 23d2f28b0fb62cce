//! Newest wins: what a merge makes of several domains, and that it answers lookups as a
//! stack of the same files does.

use vstd::prelude::*;

use crate::btree;
use crate::bytes;
use crate::bytes::lex_lt;
use crate::domain;
use crate::domain::{DomainFiles, DomainOptions, Pair};
use crate::error::FormatError;
use crate::merge;
use crate::readback;
use crate::reader;
use crate::reader::ReaderModel;
use crate::stack;
use crate::stack::FileModel;

verus! {

/// The value of `key` in a list of pairs, if it is there.
pub open spec fn value_in(pairs: Seq<Pair>, key: Seq<u8>) -> Option<Seq<u8>>
    decreases pairs.len(),
{
    if pairs.len() == 0 {
        None
    } else if pairs.last().0 == key {
        Some(pairs.last().1)
    } else {
        value_in(pairs.drop_last(), key)
    }
}

/// The value of `key` in the newest of the first `n` lists that has it.
pub open spec fn newest_value(lists: Seq<Seq<Pair>>, key: Seq<u8>, n: nat) -> Option<Seq<u8>>
    decreases n,
{
    if n == 0 {
        None
    } else {
        match value_in(lists[n - 1], key) {
            Some(v) => Some(v),
            None => newest_value(lists, key, (n - 1) as nat),
        }
    }
}

/// Every list has strictly increasing keys.
pub open spec fn all_sorted(lists: Seq<Seq<Pair>>) -> bool {
    forall|i: int| 0 <= i < lists.len() ==> btree::increasing(domain::keys_of(#[trigger] lists[i]))
}

/// A key that no pair has, has no value.
pub proof fn lemma_value_absent(pairs: Seq<Pair>, key: Seq<u8>)
    requires
        forall|j: int| 0 <= j < pairs.len() ==> (#[trigger] pairs[j]).0 != key,
    ensures
        value_in(pairs, key) is None,
    decreases pairs.len(),
{
    if pairs.len() > 0 {
        assert(pairs[pairs.len() - 1].0 != key);
        let d = pairs.drop_last();
        assert forall|j: int| 0 <= j < d.len() implies (#[trigger] d[j]).0 != key by {
            assert(d[j] == pairs[j]);
        }
        lemma_value_absent(d, key);
    }
}

proof fn lemma_value_found(pairs: Seq<Pair>, key: Seq<u8>) -> (j: int)
    ensures
        match value_in(pairs, key) {
            Some(v) => 0 <= j < pairs.len() && pairs[j] == (key, v),
            None => forall|j: int| 0 <= j < pairs.len() ==> (#[trigger] pairs[j]).0 != key,
        },
    decreases pairs.len(),
{
    if pairs.len() == 0 {
        0
    } else if pairs.last().0 == key {
        pairs.len() - 1
    } else {
        let d = pairs.drop_last();
        let j = lemma_value_found(d, key);
        assert forall|x: int| 0 <= x < pairs.len() && value_in(d, key) is None implies (#[trigger] pairs[x]).0 != key by {
            if x < d.len() {
                assert(d[x] == pairs[x]);
            }
        }
        j
    }
}

/// In a sorted list a key has one value.
pub proof fn lemma_value_is(pairs: Seq<Pair>, j: int)
    requires
        btree::increasing(domain::keys_of(pairs)),
        0 <= j < pairs.len(),
    ensures
        value_in(pairs, pairs[j].0) == Some(pairs[j].1),
{
    let key = pairs[j].0;
    let keys = domain::keys_of(pairs);
    let x = lemma_value_found(pairs, key);
    assert(pairs[j].0 == key);
    if x != j {
        assert(keys[x] == keys[j]);
        bytes::lemma_lex_irreflexive(key);
        if x < j {
            assert(lex_lt(keys[x], keys[j]));
        } else {
            assert(lex_lt(keys[j], keys[x]));
        }
    }
}

// ------------------------------------------------------------------ the merge

/// Pair `j` of list `i` has not been passed.
spec fn waits(lists: Seq<Seq<Pair>>, at: Seq<nat>, i: int, j: int) -> bool {
    0 <= i < lists.len() && at[i] <= j < lists[i].len()
}

/// No list newer than `i` still has `key`.
spec fn newest_left(lists: Seq<Seq<Pair>>, at: Seq<nat>, i: int, key: Seq<u8>) -> bool {
    forall|a: int, b: int| i < a && #[trigger] waits(lists, at, a, b) ==> lists[a][b].0 != key
}

/// The pairs that come out are the newest ones of those that wait, in order.
spec fn right_order(lists: Seq<Seq<Pair>>, at: Seq<nat>, out: Seq<Pair>) -> bool {
    &&& btree::increasing(domain::keys_of(out))
    &&& forall|q: int| 0 <= q < out.len() ==> comes_from(lists, at, #[trigger] out[q])
    &&& forall|i: int, j: int| #[trigger] waits(lists, at, i, j) ==> has_key(out, lists[i][j].0)
}

spec fn comes_from(lists: Seq<Seq<Pair>>, at: Seq<nat>, p: Pair) -> bool {
    exists|i: int, j: int| #[trigger] waits(lists, at, i, j) && lists[i][j] == p && newest_left(lists, at, i, p.0)
}

spec fn has_key(out: Seq<Pair>, key: Seq<u8>) -> bool {
    exists|q: int| 0 <= q < out.len() && (#[trigger] out[q]).0 == key
}

/// In a sorted list no waiting pair comes before the first.
proof fn lemma_waits_order(lists: Seq<Seq<Pair>>, at: Seq<nat>, i: int, j: int)
    requires
        all_sorted(lists),
        waits(lists, at, i, j),
    ensures
        j > at[i] ==> lex_lt(lists[i][at[i] as int].0, lists[i][j].0),
{
    let keys = domain::keys_of(lists[i]);
    assert(btree::increasing(keys));
    if j > at[i] {
        assert(keys[at[i] as int] == lists[i][at[i] as int].0);
        assert(keys[j] == lists[i][j].0);
    }
}

/// After the winner's key has been passed, only greater keys wait.
proof fn lemma_rest_is_greater(lists: Seq<Seq<Pair>>, at: Seq<nat>, w: int, i: int, j: int)
    requires
        all_sorted(lists),
        at.len() == lists.len(),
        merge::winner(lists, at, lists.len()) == Some(w),
        waits(lists, merge::advance(lists, at, lists[w][at[w] as int].0), i, j),
    ensures
        waits(lists, at, i, j),
        lex_lt(lists[w][at[w] as int].0, lists[i][j].0),
{
    let key = lists[w][at[w] as int].0;
    merge::lemma_winner(lists, at, lists.len());
    lemma_waits_order(lists, at, i, j);
    let head = lists[i][at[i] as int].0;
    assert(bytes::lex_le(key, head));
    if j > at[i] && head != key {
        bytes::lemma_lex_transitive(key, head, lists[i][j].0);
    }
}

proof fn lemma_merged(lists: Seq<Seq<Pair>>, at: Seq<nat>)
    requires
        all_sorted(lists),
        at.len() == lists.len(),
    ensures
        right_order(lists, at, merge::merged(lists, at)),
    decreases merge::remaining(lists, at, lists.len()),
{
    merge::lemma_winner(lists, at, lists.len());
    let out = merge::merged(lists, at);
    match merge::winner(lists, at, lists.len()) {
        None => {},
        Some(w) => {
            let p = lists[w][at[w] as int];
            let key = p.0;
            let next = merge::advance(lists, at, key);
            let rest = merge::merged(lists, next);
            merge::lemma_advance_shrinks(lists, at, key, lists.len());
            assert(merge::heads_with(lists, at, key, w));
            lemma_merged(lists, next);
            assert(out == seq![p] + rest);
            lemma_merged_step(lists, at, w, rest);
        },
    }
}

proof fn lemma_merged_step(lists: Seq<Seq<Pair>>, at: Seq<nat>, w: int, rest: Seq<Pair>)
    requires
        all_sorted(lists),
        at.len() == lists.len(),
        merge::winner(lists, at, lists.len()) == Some(w),
        right_order(lists, merge::advance(lists, at, lists[w][at[w] as int].0), rest),
    ensures
        right_order(lists, at, seq![lists[w][at[w] as int]] + rest),
{
    let p = lists[w][at[w] as int];
    let key = p.0;
    let next = merge::advance(lists, at, key);
    let out = seq![p] + rest;
    merge::lemma_winner(lists, at, lists.len());
    bytes::lemma_lex_irreflexive(key);
    // Everything that follows is greater.
    assert forall|q: int| 0 <= q < rest.len() implies lex_lt(key, (#[trigger] rest[q]).0) by {
        assert(comes_from(lists, next, rest[q]));
        let (i, j) = choose|i: int, j: int| #[trigger]
            waits(lists, next, i, j) && lists[i][j] == rest[q] && newest_left(lists, next, i, rest[q].0);
        lemma_rest_is_greater(lists, at, w, i, j);
    }
    let keys = domain::keys_of(out);
    assert forall|a: int, b: int| 0 <= a < b < keys.len() implies lex_lt(#[trigger] keys[a], #[trigger] keys[b]) by {
        assert(keys[b] == rest[b - 1].0);
        if a > 0 {
            let rk = domain::keys_of(rest);
            assert(rk[a - 1] == keys[a] && rk[b - 1] == keys[b]);
        }
    }
    assert forall|q: int| 0 <= q < out.len() implies comes_from(lists, at, #[trigger] out[q]) by {
        if q == 0 {
            assert(waits(lists, at, w, at[w] as int));
            assert(newest_left(lists, at, w, key)) by {
                assert forall|a: int, b: int| w < a && #[trigger] waits(lists, at, a, b) implies lists[a][b].0 != key by {
                    lemma_waits_order(lists, at, a, b);
                    let head = lists[a][at[a] as int].0;
                    assert(lex_lt(key, head));
                    if b > at[a] {
                        bytes::lemma_lex_transitive(key, head, lists[a][b].0);
                    }
                }
            }
        } else {
            let r = rest[q - 1];
            assert(out[q] == r);
            assert(comes_from(lists, next, r));
            let (i, j) = choose|i: int, j: int| #[trigger]
                waits(lists, next, i, j) && lists[i][j] == r && newest_left(lists, next, i, r.0);
            assert(waits(lists, at, i, j));
            assert(newest_left(lists, at, i, r.0)) by {
                assert forall|a: int, b: int| i < a && #[trigger] waits(lists, at, a, b) implies lists[a][b].0 != r.0 by {
                    if waits(lists, next, a, b) {
                    } else {
                        assert(lists[a][b].0 == key);
                    }
                }
            }
        }
    }
    assert forall|i: int, j: int| #[trigger] waits(lists, at, i, j) implies has_key(out, lists[i][j].0) by {
        if waits(lists, next, i, j) {
            assert(has_key(rest, lists[i][j].0));
            let q = choose|q: int| 0 <= q < rest.len() && (#[trigger] rest[q]).0 == lists[i][j].0;
            assert(out[q + 1].0 == lists[i][j].0);
        } else {
            assert(lists[i][j].0 == key);
            assert(out[0].0 == key);
        }
    }
}

/// The newest value of a key that no list from `n` on has is that among the first `n`.
proof fn lemma_newest_from(lists: Seq<Seq<Pair>>, key: Seq<u8>, i: int, n: nat)
    requires
        0 <= i < n <= lists.len(),
        value_in(lists[i], key) is Some,
        forall|a: int| i < a < n ==> value_in(#[trigger] lists[a], key) is None,
    ensures
        newest_value(lists, key, n) == value_in(lists[i], key),
    decreases n,
{
    if i < n - 1 {
        assert(value_in(lists[n - 1], key) is None);
        lemma_newest_from(lists, key, i, (n - 1) as nat);
    }
}

proof fn lemma_newest_none(lists: Seq<Seq<Pair>>, key: Seq<u8>, n: nat) -> (i: int)
    requires
        n <= lists.len(),
    ensures
        match newest_value(lists, key, n) {
            Some(v) => 0 <= i < n && value_in(lists[i], key) == Some(v),
            None => true,
        },
    decreases n,
{
    if n == 0 {
        0
    } else if value_in(lists[n - 1], key) is Some {
        n - 1
    } else {
        lemma_newest_none(lists, key, (n - 1) as nat)
    }
}

/// A merge of sorted lists, oldest first, gives a sorted list in which every key has its
/// newest value, and no other key is.
pub proof fn law_merge_takes_newest(lists: Seq<Seq<Pair>>, key: Seq<u8>)
    requires
        all_sorted(lists),
    ensures
        btree::increasing(domain::keys_of(merge::merged(lists, merge::starts(lists.len())))),
        value_in(merge::merged(lists, merge::starts(lists.len())), key) == newest_value(lists, key, lists.len()),
{
    let n = lists.len();
    let at = merge::starts(n);
    let out = merge::merged(lists, at);
    lemma_merged(lists, at);
    let q = lemma_value_found(out, key);
    match value_in(out, key) {
        Some(v) => {
            assert(comes_from(lists, at, out[q]));
            let (i, j) = choose|i: int, j: int| #[trigger]
                waits(lists, at, i, j) && lists[i][j] == out[q] && newest_left(lists, at, i, out[q].0);
            lemma_value_is(lists[i], j);
            assert forall|a: int| i < a < n implies value_in(#[trigger] lists[a], key) is None by {
                assert forall|b: int| 0 <= b < lists[a].len() implies (#[trigger] lists[a][b]).0 != key by {
                    assert(waits(lists, at, a, b));
                }
                lemma_value_absent(lists[a], key);
            }
            lemma_newest_from(lists, key, i, n);
        },
        None => {
            let i = lemma_newest_none(lists, key, n);
            if newest_value(lists, key, n) is Some {
                let j = lemma_value_found(lists[i], key);
                assert(waits(lists, at, i, j));
                assert(has_key(out, key));
            }
        },
    }
}

// ------------------------------------------------------------------ deletions

proof fn lemma_kept(pairs: Seq<Pair>, drop: bool, p: Pair)
    ensures
        merge::kept(pairs, drop).contains(p) == (pairs.contains(p) && !(drop && p.1.len() == 0)),
    decreases pairs.len(),
{
    if pairs.len() > 0 {
        let r = pairs.drop_first();
        let k = merge::kept(r, drop);
        lemma_kept(r, drop, p);
        assert(pairs.contains(p) == (pairs[0] == p || r.contains(p))) by {
            if r.contains(p) {
                let i = choose|i: int| 0 <= i < r.len() && r[i] == p;
                assert(pairs[i + 1] == p);
            }
            if pairs.contains(p) && pairs[0] != p {
                let i = choose|i: int| 0 <= i < pairs.len() && pairs[i] == p;
                assert(r[i - 1] == p);
            }
        }
        let o = seq![pairs[0]] + k;
        assert(o.contains(p) == (pairs[0] == p || k.contains(p))) by {
            assert(o[0] == pairs[0]);
            if k.contains(p) {
                let i = choose|i: int| 0 <= i < k.len() && k[i] == p;
                assert(o[i + 1] == p);
            }
            if o.contains(p) && pairs[0] != p {
                let i = choose|i: int| 0 <= i < o.len() && o[i] == p;
                assert(k[i - 1] == p);
            }
        }
    }
}

proof fn lemma_kept_sorted(pairs: Seq<Pair>, drop: bool)
    requires
        btree::increasing(domain::keys_of(pairs)),
    ensures
        btree::increasing(domain::keys_of(merge::kept(pairs, drop))),
    decreases pairs.len(),
{
    if pairs.len() > 0 {
        let r = pairs.drop_first();
        let keys = domain::keys_of(pairs);
        let rk = domain::keys_of(r);
        assert forall|a: int, b: int| 0 <= a < b < rk.len() implies lex_lt(#[trigger] rk[a], #[trigger] rk[b]) by {
            assert(rk[a] == keys[a + 1] && rk[b] == keys[b + 1]);
        }
        lemma_kept_sorted(r, drop);
        let k = merge::kept(r, drop);
        let o = seq![pairs[0]] + k;
        let ok = domain::keys_of(o);
        let kk = domain::keys_of(k);
        assert forall|a: int, b: int| 0 <= a < b < ok.len() implies lex_lt(#[trigger] ok[a], #[trigger] ok[b]) by {
            assert(ok[b] == kk[b - 1]);
            if a > 0 {
                assert(ok[a] == kk[a - 1]);
            } else {
                let p = k[b - 1];
                lemma_kept(r, drop, p);
                assert(k.contains(p));
                let i = choose|i: int| 0 <= i < r.len() && r[i] == p;
                assert(keys[i + 1] == p.0);
                assert(keys[0] == pairs[0].0);
            }
        }
    }
}

/// Dropping deletions keeps the order, and drops exactly the keys with an empty value.
pub proof fn law_deletions_are_dropped(pairs: Seq<Pair>, drop: bool, key: Seq<u8>)
    requires
        btree::increasing(domain::keys_of(pairs)),
    ensures
        btree::increasing(domain::keys_of(merge::kept(pairs, drop))),
        value_in(merge::kept(pairs, drop), key) == match value_in(pairs, key) {
            Some(v) => if drop && v.len() == 0 { None } else { Some(v) },
            None => None,
        },
        !drop ==> merge::kept(pairs, drop) == pairs,
{
    let k = merge::kept(pairs, drop);
    lemma_kept_sorted(pairs, drop);
    let i = lemma_value_found(pairs, key);
    let j = lemma_value_found(k, key);
    if let Some(v) = value_in(pairs, key) {
        lemma_kept(pairs, drop, (key, v));
        assert(pairs.contains((key, v)));
        if k.contains((key, v)) {
            let x = choose|x: int| 0 <= x < k.len() && k[x] == (key, v);
            lemma_value_is(k, x);
        }
    }
    if let Some(v) = value_in(k, key) {
        assert(k.contains(k[j]));
        lemma_kept(pairs, drop, k[j]);
        let x = choose|x: int| 0 <= x < pairs.len() && pairs[x] == k[j];
        lemma_value_is(pairs, x);
    }
    if !drop {
        lemma_kept_all(pairs);
    }
}

proof fn lemma_kept_all(pairs: Seq<Pair>)
    ensures
        merge::kept(pairs, false) == pairs,
    decreases pairs.len(),
{
    if pairs.len() > 0 {
        lemma_kept_all(pairs.drop_first());
        assert(seq![pairs[0]] + pairs.drop_first() =~= pairs);
    }
}

// ------------------------------------------------------------------ the stack

/// The files hold the lists, one each.
pub open spec fn files_hold(files: Seq<FileModel>, lists: Seq<Seq<Pair>>) -> bool {
    &&& files.len() == lists.len()
    &&& forall|i: int| 0 <= i < files.len() ==> readback::holds((#[trigger] files[i]).data, lists[i])
}

/// A lookup gives the value of a key.
pub proof fn lemma_lookup_value(r: ReaderModel, pairs: Seq<Pair>, key: Seq<u8>)
    requires
        readback::holds(r, pairs),
    ensures
        reader::lookup(r, key) == Ok::<Option<Seq<u8>>, FormatError>(value_in(pairs, key)),
{
    let j = lemma_value_found(pairs, key);
    if value_in(pairs, key) is Some {
        readback::law_lookup_finds(r, pairs, j);
    } else {
        readback::law_lookup_misses(r, pairs, key);
    }
}

proof fn lemma_newest_answers(files: Seq<FileModel>, lists: Seq<Seq<Pair>>, key: Seq<u8>, n: nat)
    requires
        files_hold(files, lists),
        n <= files.len(),
    ensures
        stack::newest(stack::answers(files, key), n) == Ok::<Option<Seq<u8>>, FormatError>(newest_value(lists, key, n)),
    decreases n,
{
    if n > 0 {
        assert(readback::holds(files[n - 1].data, lists[n - 1]));
        lemma_lookup_value(files[n - 1].data, lists[n - 1], key);
        lemma_newest_answers(files, lists, key, (n - 1) as nat);
    }
}

/// A stack of files finds the newest value of a key.
pub proof fn law_stack_finds_newest(files: Seq<FileModel>, lists: Seq<Seq<Pair>>, key: Seq<u8>)
    requires
        files_hold(files, lists),
    ensures
        stack::stack_lookup(files, key) == Ok::<Option<Seq<u8>>, FormatError>(newest_value(lists, key, lists.len())),
{
    lemma_newest_answers(files, lists, key, files.len());
}

/// A file that holds a merge gives every key its newest value, or nothing where that is a
/// dropped deletion.
pub proof fn law_merged_value(lists: Seq<Seq<Pair>>, drop: bool, r: ReaderModel, key: Seq<u8>)
    requires
        all_sorted(lists),
        readback::holds(r, merge::kept(merge::merged(lists, merge::starts(lists.len())), drop)),
    ensures
        reader::lookup(r, key) == Ok::<Option<Seq<u8>>, FormatError>(
            match newest_value(lists, key, lists.len()) {
                Some(v) => if drop && v.len() == 0 { None } else { Some(v) },
                None => None,
            },
        ),
{
    let out = merge::merged(lists, merge::starts(lists.len()));
    law_merge_takes_newest(lists, key);
    law_deletions_are_dropped(out, drop, key);
    lemma_lookup_value(r, merge::kept(out, drop), key);
}

/// Merging changes no answer: a file that holds the merge of what the files of a stack
/// hold answers every lookup as the stack does, except that a dropped deletion is absent
/// where the stack has an empty value.
pub proof fn law_merge_agrees_with_stack(
    files: Seq<FileModel>,
    lists: Seq<Seq<Pair>>,
    drop: bool,
    r: ReaderModel,
    key: Seq<u8>,
)
    requires
        files_hold(files, lists),
        readback::holds(r, merge::kept(merge::merged(lists, merge::starts(lists.len())), drop)),
    ensures
        match stack::stack_lookup(files, key) {
            Ok(Some(v)) => reader::lookup(r, key) == Ok::<Option<Seq<u8>>, FormatError>(
                if drop && v.len() == 0 { None } else { Some(v) },
            ),
            Ok(None) => reader::lookup(r, key) == Ok::<Option<Seq<u8>>, FormatError>(None),
            Err(_) => false,
        },
{
    assert forall|i: int| 0 <= i < lists.len() implies btree::increasing(domain::keys_of(#[trigger] lists[i])) by {
        assert(readback::holds(files[i].data, lists[i]));
    }
    law_stack_finds_newest(files, lists, key);
    law_merged_value(lists, drop, r, key);
}

proof fn lemma_add_in_order(pairs: Seq<Pair>, n: nat)
    requires
        btree::increasing(domain::keys_of(pairs)),
        n <= pairs.len(),
    ensures
        merge::add_error(pairs, n) != Some(FormatError::KeyOrder),
    decreases n,
{
    if n > 0 {
        lemma_add_in_order(pairs, (n - 1) as nat);
        if n > 1 {
            let keys = domain::keys_of(pairs);
            assert(lex_lt(keys[n - 2], keys[n - 1]));
        }
    }
}

/// Sorted inputs never make a merge fail for the order of its keys.
pub proof fn law_merge_keeps_order(lists: Seq<Seq<Pair>>, drop: bool)
    requires
        all_sorted(lists),
    ensures
        ({
            let out = merge::kept(merge::merged(lists, merge::starts(lists.len())), drop);
            merge::add_error(out, out.len()) != Some(FormatError::KeyOrder)
        }),
{
    let m = merge::merged(lists, merge::starts(lists.len()));
    law_merge_takes_newest(lists, Seq::empty());
    law_deletions_are_dropped(m, drop, Seq::empty());
    lemma_add_in_order(merge::kept(m, drop), merge::kept(m, drop).len());
}

/// The files that a merge of sorted inputs makes open and hold what the inputs merge to.
pub proof fn law_merged_files_hold(kvs: Seq<Seq<u8>>, drop: bool, opts: DomainOptions, f: DomainFiles)
    requires
        merge::merges_to(kvs, drop, opts, Ok(f)),
        all_sorted(merge::lists_of(kvs)),
        readback::storable(merge::kept(merge::merged(merge::lists_of(kvs), merge::starts(kvs.len())), drop)),
    ensures
        reader::opened(f.kv@, Some(f.bt@), readback::kvei_of(f, true), false) matches Ok(r) && readback::holds(
            r,
            merge::kept(merge::merged(merge::lists_of(kvs), merge::starts(kvs.len())), drop),
        ),
{
    let lists = merge::lists_of(kvs);
    let m = merge::merged(lists, merge::starts(lists.len()));
    law_merge_takes_newest(lists, Seq::empty());
    law_deletions_are_dropped(m, drop, Seq::empty());
    readback::law_written_domain_holds(merge::kept(m, drop), opts, f, true, true);
}

} // verus!
