//! K-way merge of several domain `.kv` files into one.
//!
//! Inputs are sorted, unique-keyed domain files. The merge emits each distinct key once,
//! in order, taking the value from the **newest** input that contains it. Newer is the input
//! with the higher first step, or, of two with the same first step, the one given later. If
//! no two have the same, this is what a lookup in a [`KvStack`](crate::stack::KvStack) of
//! the inputs gives; a stack tells files with the same first step apart by their last step.
//!
//! The inputs are gone through side by side, with one pair of each at hand, kept in line by
//! key.
//!
//! **Deleted entries are dropped**: a key is omitted iff the merged range starts at step 0
//! *and* the winning value is empty. Outside a from-zero merge an empty value is a
//! legitimate stored value (e.g. an empty account) and is preserved. The range start is
//! taken from [`MergeOptions::range_from`], or parsed from the output filename's
//! `<from>-<to>`.

use vstd::prelude::*;

use crate::bytes;
use crate::bytes::{bytes_equal, copy_bytes, lex_lt, lex_order, Order};
use crate::domain;
use crate::domain::{DomainFiles, DomainOptions, DomainWriter, Pair};
use crate::error::{Error, FormatError, Result};
use crate::names;
use crate::names::parse_from;
use crate::reader;
use crate::seg::{Getter, Seg};
use crate::sort::{sort_indices, Ranking};
use crate::words;
use crate::words::SegModel;

verus! {

/// Options for [`merge`].
#[derive(Debug, Clone, Copy)]
pub struct MergeOptions {
    /// `.bt` and `.kvei` options for the merged output.
    pub domain: DomainOptions,
    /// Honor the rule that an empty value means deletion (only triggers when the merged
    /// range starts at step 0). Default `true`.
    pub drop_deleted: bool,
    /// The merged range's start step. If `None`, parsed from the output `.kv` filename's
    /// `<from>-<to>` segment; if that fails too, no key is ever dropped, which is the safe
    /// choice.
    pub range_from: Option<u64>,
}

impl Default for MergeOptions {
    fn default() -> (o: MergeOptions)
        ensures
            o.domain.bt.layout == crate::bt_writer::BtLayout::Footer,
            o.domain.bt.m == crate::bt_writer::DEFAULT_BTREE_M,
            o.domain.salt is None,
            !o.domain.compress,
            o.drop_deleted,
            o.range_from is None,
    {
        MergeOptions { domain: DomainOptions::default(), drop_deleted: true, range_from: None }
    }
}

/// A file to merge: its base name and its contents.
#[derive(Debug, Clone, Copy)]
pub struct MergeInput<'a> {
    pub name: &'a [u8],
    pub kv: &'a [u8],
}

// ------------------------------------------------------------------ the inputs

/// The first step of a file, zero if its name has none.
pub open spec fn from_step(name: Seq<u8>) -> u64 {
    match names::step_range(name) {
        Some((a, _)) => a,
        None => 0,
    }
}

/// Input `i` comes before input `j`: by first step, and as given where that is the same.
pub open spec fn older(froms: Seq<u64>, i: int, j: int) -> bool {
    froms[i] < froms[j] || (froms[i] == froms[j] && i < j)
}

/// `order` lists the inputs from oldest to newest. None is listed twice, since none is
/// older than itself, so all are.
pub open spec fn age_order(froms: Seq<u64>, order: Seq<usize>) -> bool {
    &&& order.len() == froms.len()
    &&& forall|a: int| 0 <= a < order.len() ==> 0 <= #[trigger] order[a] < froms.len()
    &&& forall|a: int, b: int|
        0 <= a < b < order.len() ==> older(froms, (#[trigger] order[a]) as int, (#[trigger] order[b]) as int)
}

/// The first steps of the inputs.
pub open spec fn froms_of(inputs: Seq<MergeInput>) -> Seq<u64> {
    Seq::new(inputs.len(), |i: int| from_step(inputs[i].name@))
}

struct ByAge<'a> {
    froms: &'a Vec<u64>,
}

impl<'a> Ranking for ByAge<'a> {
    closed spec fn count(&self) -> nat {
        self.froms@.len()
    }

    closed spec fn precedes(&self, i: int, j: int) -> bool {
        older(self.froms@, i, j)
    }

    proof fn ranking_is_total(&self, i: int, j: int) {
    }

    proof fn ranking_is_transitive(&self, i: int, j: int, k: int) {
    }

    fn before(&self, i: usize, j: usize) -> (r: bool) {
        self.froms[i] < self.froms[j] || (self.froms[i] == self.froms[j] && i < j)
    }
}

/// The pairs of a file from `at` on. A pair that takes no bytes is none: there would be no
/// end of them.
pub open spec fn pairs_from(m: SegModel, at: int) -> core::result::Result<Seq<Pair>, FormatError>
    decreases words::left(m.words.len() - at),
{
    if at >= m.words.len() {
        Ok(Seq::empty())
    } else {
        match reader::pair_at(m, at) {
            Err(e) => Err(e),
            Ok((k, v, next)) => if next <= at {
                Err(FormatError::BadWord)
            } else {
                match pairs_from(m, next) {
                    Err(e) => Err(e),
                    Ok(rest) => Ok(seq![(k, v)] + rest),
                }
            },
        }
    }
}

/// The pairs of a file from `at` on, up to the first that cannot be read.
pub open spec fn pairs_before(m: SegModel, at: int) -> Seq<Pair>
    decreases words::left(m.words.len() - at),
{
    if at >= m.words.len() {
        Seq::empty()
    } else {
        match reader::pair_at(m, at) {
            Err(_) => Seq::empty(),
            Ok((k, v, next)) => if next <= at { Seq::empty() } else { seq![(k, v)] + pairs_before(m, next) },
        }
    }
}

/// A file that can be read holds what comes before its end.
proof fn lemma_pairs_before(m: SegModel, at: int)
    ensures
        pairs_from(m, at) matches Ok(ps) ==> ps == pairs_before(m, at),
    decreases words::left(m.words.len() - at),
{
    if at < m.words.len() {
        if let Ok((k, v, next)) = reader::pair_at(m, at) {
            if next > at {
                lemma_pairs_before(m, next);
            }
        }
    }
}

/// An input that is being merged: its next pair, and where it goes on.
struct Cursor<'a> {
    getter: Getter<'a>,
    head: Option<(Vec<u8>, Vec<u8>)>,
}

/// The pair that two byte strings stand for.
spec fn head_view(h: Option<(Vec<u8>, Vec<u8>)>) -> Option<Pair> {
    match h {
        Some(p) => Some((p.0@, p.1@)),
        None => None,
    }
}

/// The cursor stands at pair `at` of `list`, with the rest of the list still in the file
/// behind it; `bad` tells whether the file is damaged there.
spec fn tracks(c: Cursor, list: Seq<Pair>, bad: bool, at: nat) -> bool {
    let m = c.getter.model();
    match head_view(c.head) {
        Some(p) => {
            &&& at < list.len()
            &&& list[at as int] == p
            &&& list.skip(at as int + 1) == pairs_before(m, c.getter.at() as int)
            &&& bad == pairs_from(m, c.getter.at() as int) is Err
        },
        None => at == list.len() && !bad,
    }
}

impl<'a> Cursor<'a> {
    /// Read the next pair.
    fn refill(&mut self) -> (r: Result<()>)
        ensures
            ({
                let m = old(self).getter.model();
                let at = old(self).getter.at() as int;
                let rest = pairs_before(m, at);
                let end = final(self).getter.at() as int;
                &&& final(self).getter.model() == m
                &&& match r {
                    Ok(_) => match head_view(final(self).head) {
                        Some(p) => {
                            &&& rest.len() > 0
                            &&& p == rest[0]
                            &&& pairs_before(m, end) == rest.skip(1)
                            &&& pairs_from(m, end) is Err == pairs_from(m, at) is Err
                        },
                        None => rest.len() == 0 && pairs_from(m, at) is Ok,
                    },
                    Err(e) => e == Error::Format(FormatError::BadWord) && rest.len() == 0 && pairs_from(m, at) is Err,
                }
            }),
    {
        let ghost m = self.getter.model();
        if !self.getter.has_next() {
            self.head = None;
            return Ok(());
        }
        let at: u64 = self.getter.offset();
        let key: Vec<u8> = match self.getter.try_next() {
            Some(k) => k,
            None => return Err(Error::Format(FormatError::BadWord)),
        };
        let value: Vec<u8> = if self.getter.has_next() {
            match self.getter.try_next() {
                Some(v) => v,
                None => return Err(Error::Format(FormatError::BadWord)),
            }
        } else {
            Vec::new()
        };
        let ghost p = (key@, value@);
        proof {
            assert(reader::pair_at(m, at as int) matches Ok((k, v, next)) && k == key@ && v =~= value@ && next
                == self.getter.at());
        }
        if self.getter.offset() <= at {
            return Err(Error::Format(FormatError::BadWord));
        }
        proof {
            let rest = pairs_before(m, self.getter.at() as int);
            assert((seq![p] + rest).skip(1) =~= rest);
        }
        self.head = Some((key, value));
        Ok(())
    }
}

// ------------------------------------------------------------------ the merge

/// The list, among the first `n`, whose next pair comes next: the newest one of those
/// with the least key.
pub open spec fn winner(lists: Seq<Seq<Pair>>, at: Seq<nat>, n: nat) -> Option<int>
    decreases n,
{
    if n == 0 {
        None
    } else {
        let w = winner(lists, at, (n - 1) as nat);
        let i = n - 1;
        if at[i] >= lists[i].len() {
            w
        } else {
            match w {
                None => Some(i),
                Some(b) => if lex_lt(lists[b][at[b] as int].0, lists[i][at[i] as int].0) { Some(b) } else { Some(i) },
            }
        }
    }
}

/// List `i` goes on with `key`.
pub open spec fn heads_with(lists: Seq<Seq<Pair>>, at: Seq<nat>, key: Seq<u8>, i: int) -> bool {
    at[i] < lists[i].len() && lists[i][at[i] as int].0 == key
}

/// Every list that goes on with `key` moves past it.
pub open spec fn advance(lists: Seq<Seq<Pair>>, at: Seq<nat>, key: Seq<u8>) -> Seq<nat> {
    Seq::new(lists.len(), |i: int| if heads_with(lists, at, key, i) { at[i] + 1 } else { at[i] })
}

/// Number of pairs left in the first `n` lists.
pub open spec fn remaining(lists: Seq<Seq<Pair>>, at: Seq<nat>, n: nat) -> nat
    decreases n,
{
    if n == 0 {
        0
    } else {
        remaining(lists, at, (n - 1) as nat) + words::left(lists[n - 1].len() - at[n - 1])
    }
}

/// The pairs that the lists, oldest first, merge to: least key first, of equal keys only
/// that of the newest list.
pub open spec fn merged(lists: Seq<Seq<Pair>>, at: Seq<nat>) -> Seq<Pair>
    decreases remaining(lists, at, lists.len()),
    via merged_decreases
{
    match winner(lists, at, lists.len()) {
        None => Seq::empty(),
        Some(w) => {
            let p = lists[w][at[w] as int];
            seq![p] + merged(lists, advance(lists, at, p.0))
        },
    }
}

/// One of the lists is at its end, where its file is damaged.
pub open spec fn meets_damage(lists: Seq<Seq<Pair>>, bad: Seq<bool>, at: Seq<nat>) -> bool {
    exists|i: int| 0 <= i < lists.len() && #[trigger] bad[i] && at[i] >= lists[i].len()
}

/// What the lists, oldest first, merge to until the end of one is met whose file is
/// damaged there.
pub open spec fn merged_until(lists: Seq<Seq<Pair>>, bad: Seq<bool>, at: Seq<nat>) -> Seq<Pair>
    decreases remaining(lists, at, lists.len()),
    via merged_until_decreases
{
    if meets_damage(lists, bad, at) {
        Seq::empty()
    } else {
        match winner(lists, at, lists.len()) {
            None => Seq::empty(),
            Some(w) => {
                let p = lists[w][at[w] as int];
                seq![p] + merged_until(lists, bad, advance(lists, at, p.0))
            },
        }
    }
}

pub open spec fn starts(n: nat) -> Seq<nat> {
    Seq::new(n, |i: int| 0nat)
}

pub proof fn lemma_winner(lists: Seq<Seq<Pair>>, at: Seq<nat>, n: nat)
    ensures
        match winner(lists, at, n) {
            Some(w) => {
                &&& 0 <= w < n
                &&& at[w] < lists[w].len()
                &&& forall|i: int| 0 <= i < n && at[i] < (#[trigger] lists[i]).len() ==> bytes::lex_le(
                    lists[w][at[w] as int].0,
                    lists[i][at[i] as int].0,
                )
                &&& forall|i: int|
                    w < i < n && at[i] < (#[trigger] lists[i]).len() ==> lex_lt(
                        lists[w][at[w] as int].0,
                        lists[i][at[i] as int].0,
                    )
            },
            None => forall|i: int| 0 <= i < n ==> at[i] >= (#[trigger] lists[i]).len(),
        },
    decreases n,
{
    if n > 0 {
        lemma_winner(lists, at, (n - 1) as nat);
        let i = n - 1;
        if at[i] < lists[i].len() {
            if let Some(b) = winner(lists, at, (n - 1) as nat) {
                let kb = lists[b][at[b] as int].0;
                let ki = lists[i][at[i] as int].0;
                bytes::lemma_lex_total(kb, ki);
                if !lex_lt(kb, ki) {
                    assert forall|j: int| 0 <= j < n && at[j] < (#[trigger] lists[j]).len() implies bytes::lex_le(
                        ki,
                        lists[j][at[j] as int].0,
                    ) by {
                        if j < i {
                            let kj = lists[j][at[j] as int].0;
                            if ki != kb && kb != kj {
                                bytes::lemma_lex_transitive(ki, kb, kj);
                            }
                        }
                    }
                }
            }
        }
    }
}

pub proof fn lemma_advance_shrinks(lists: Seq<Seq<Pair>>, at: Seq<nat>, key: Seq<u8>, n: nat)
    requires
        n <= lists.len(),
    ensures
        remaining(lists, advance(lists, at, key), n) <= remaining(lists, at, n),
        forall|w: int| 0 <= w < n && #[trigger] heads_with(lists, at, key, w) ==> remaining(
            lists,
            advance(lists, at, key),
            n,
        ) < remaining(lists, at, n),
    decreases n,
{
    if n > 0 {
        lemma_advance_shrinks(lists, at, key, (n - 1) as nat);
    }
}

#[via_fn]
proof fn merged_decreases(lists: Seq<Seq<Pair>>, at: Seq<nat>) {
    lemma_winner(lists, at, lists.len());
    if let Some(w) = winner(lists, at, lists.len()) {
        let key = lists[w][at[w] as int].0;
        lemma_advance_shrinks(lists, at, key, lists.len());
        assert(heads_with(lists, at, key, w));
    }
}

#[via_fn]
proof fn merged_until_decreases(lists: Seq<Seq<Pair>>, bad: Seq<bool>, at: Seq<nat>) {
    lemma_winner(lists, at, lists.len());
    if let Some(w) = winner(lists, at, lists.len()) {
        let key = lists[w][at[w] as int].0;
        lemma_advance_shrinks(lists, at, key, lists.len());
        assert(heads_with(lists, at, key, w));
    }
}

/// Without damage the lists merge to their end.
proof fn lemma_merged_until(lists: Seq<Seq<Pair>>, bad: Seq<bool>, at: Seq<nat>)
    requires
        forall|i: int| 0 <= i < lists.len() ==> !(#[trigger] bad[i]),
    ensures
        merged_until(lists, bad, at) == merged(lists, at),
    decreases remaining(lists, at, lists.len()),
{
    lemma_winner(lists, at, lists.len());
    if let Some(w) = winner(lists, at, lists.len()) {
        let key = lists[w][at[w] as int].0;
        lemma_advance_shrinks(lists, at, key, lists.len());
        assert(heads_with(lists, at, key, w));
        lemma_merged_until(lists, bad, advance(lists, at, key));
    }
}

/// What is left of merged pairs when deleted ones are dropped.
pub open spec fn kept(pairs: Seq<Pair>, drop: bool) -> Seq<Pair>
    decreases pairs.len(),
{
    if pairs.len() == 0 {
        Seq::empty()
    } else {
        let rest = kept(pairs.drop_first(), drop);
        if drop && pairs[0].1.len() == 0 { rest } else { seq![pairs[0]] + rest }
    }
}

// ------------------------------------------------------------------ the result

/// Why a writer refuses one of the first `n` pairs, if it does: the first reason.
pub open spec fn add_error(pairs: Seq<Pair>, n: nat) -> Option<FormatError>
    decreases n,
{
    if n == 0 {
        None
    } else {
        match add_error(pairs, (n - 1) as nat) {
            Some(e) => Some(e),
            None => domain::refusal(pairs.take(n - 1), pairs[n - 1].0, pairs[n - 1].1),
        }
    }
}

/// Whether deleted entries are dropped: the merged range must start at step zero.
pub open spec fn drops(out_name: Seq<u8>, opts: MergeOptions) -> bool {
    opts.drop_deleted && match opts.range_from {
        Some(f) => f == 0,
        None => names::step_range(out_name) matches Some((f, _)) && f == 0,
    }
}

/// One of the files is no valid `.kv`.
pub open spec fn some_invalid(kvs: Seq<Seq<u8>>) -> bool {
    exists|i: int| 0 <= i < kvs.len() && words::parse_seg(#[trigger] kvs[i], false) is None
}

/// What the pairs of a `.kv` are.
pub open spec fn pairs_in(kv: Seq<u8>) -> core::result::Result<Seq<Pair>, FormatError> {
    match words::parse_seg(kv, false) {
        None => Err(FormatError::InvalidKv),
        Some(m) => pairs_from(m, 0),
    }
}

/// One of the files holds bytes that are no pair.
pub open spec fn some_damaged(kvs: Seq<Seq<u8>>) -> bool {
    exists|i: int| 0 <= i < kvs.len() && pairs_in(#[trigger] kvs[i]) is Err
}

/// The pairs of each file.
pub open spec fn lists_of(kvs: Seq<Seq<u8>>) -> Seq<Seq<Pair>> {
    Seq::new(kvs.len(), |i: int| pairs_in(kvs[i])->Ok_0)
}

/// The pairs of each file, up to the first that cannot be read.
pub open spec fn readable_lists(kvs: Seq<Seq<u8>>) -> Seq<Seq<Pair>> {
    Seq::new(
        kvs.len(),
        |i: int|
            match words::parse_seg(kvs[i], false) {
                None => Seq::empty(),
                Some(m) => pairs_before(m, 0),
            },
    )
}

/// Which files are damaged.
pub open spec fn damage_of(kvs: Seq<Seq<u8>>) -> Seq<bool> {
    Seq::new(kvs.len(), |i: int| pairs_in(kvs[i]) is Err)
}

/// Why merging files, oldest first, of which some are damaged, fails: for what comes before
/// the damage, or for the damage.
pub open spec fn damage_error(kvs: Seq<Seq<u8>>, drop: bool) -> FormatError {
    let out = kept(merged_until(readable_lists(kvs), damage_of(kvs), starts(kvs.len())), drop);
    match add_error(out, out.len()) {
        Some(e) => e,
        None => FormatError::BadWord,
    }
}

/// What merging files, oldest first, gives.
pub open spec fn merges_to(kvs: Seq<Seq<u8>>, drop: bool, opts: DomainOptions, r: Result<DomainFiles>) -> bool {
    if some_invalid(kvs) {
        r == Err::<DomainFiles, Error>(Error::Format(FormatError::InvalidKv))
    } else if some_damaged(kvs) {
        r == Err::<DomainFiles, Error>(Error::Format(damage_error(kvs, drop)))
    } else {
        let out = kept(merged(lists_of(kvs), starts(kvs.len())), drop);
        match add_error(out, out.len()) {
            Some(e) => r == Err::<DomainFiles, Error>(Error::Format(e)),
            None => domain::domain_result(domain::words_of(out), opts, r),
        }
    }
}

/// The contents of the inputs in some order.
pub open spec fn kvs_in(inputs: Seq<MergeInput>, order: Seq<usize>) -> Seq<Seq<u8>> {
    Seq::new(order.len(), |i: int| inputs[order[i] as int].kv@)
}

/// What [`merge`] gives.
pub open spec fn merge_result(inputs: Seq<MergeInput>, out_name: Seq<u8>, opts: MergeOptions, r: Result<DomainFiles>) -> bool {
    if inputs.len() == 0 {
        r == Err::<DomainFiles, Error>(Error::Format(FormatError::NoInputs))
    } else {
        exists|order: Seq<usize>| #[trigger]
            age_order(froms_of(inputs), order) && merges_to(kvs_in(inputs, order), drops(out_name, opts), opts.domain, r)
    }
}

proof fn lemma_add_error_stays(pairs: Seq<Pair>, k: nat, n: nat)
    requires
        k <= n,
        add_error(pairs, k) is Some,
    ensures
        add_error(pairs, n) == add_error(pairs, k),
    decreases n,
{
    if k < n {
        lemma_add_error_stays(pairs, k, (n - 1) as nat);
    }
}

// ------------------------------------------------------------------ the queue

/// The next pairs of the inputs.
spec fn heads_of(cursors: Seq<Cursor>) -> Seq<Option<Pair>> {
    Seq::new(cursors.len(), |i: int| head_view(cursors[i].head))
}

/// The key of the next pair of an input.
spec fn key_in(heads: Seq<Option<Pair>>, i: int) -> Seq<u8> {
    match heads[i] {
        Some(p) => p.0,
        None => Seq::empty(),
    }
}

/// Input `i` comes before input `j`: by the key of its next pair, and the newer one where
/// that is the same.
spec fn sooner(heads: Seq<Option<Pair>>, i: int, j: int) -> bool {
    lex_lt(key_in(heads, i), key_in(heads, j)) || (key_in(heads, i) == key_in(heads, j) && i > j)
}

/// The queue has inputs with a next pair, the first to come last.
spec fn in_line(queue: Seq<usize>, heads: Seq<Option<Pair>>) -> bool {
    &&& forall|a: int| 0 <= a < queue.len() ==> (#[trigger] queue[a]) < heads.len() && heads[queue[a] as int] is Some
    &&& forall|a: int, b: int|
        0 <= a < b < queue.len() ==> sooner(heads, (#[trigger] queue[b]) as int, (#[trigger] queue[a]) as int)
}

proof fn lemma_sooner_transitive(heads: Seq<Option<Pair>>, i: int, j: int, k: int)
    requires
        sooner(heads, i, j),
        sooner(heads, j, k),
    ensures
        sooner(heads, i, k),
{
    let (a, b, c) = (key_in(heads, i), key_in(heads, j), key_in(heads, k));
    if lex_lt(a, b) && lex_lt(b, c) {
        bytes::lemma_lex_transitive(a, b, c);
    }
}

fn is_sooner(cursors: &Vec<Cursor>, i: usize, j: usize) -> (r: bool)
    requires
        i < cursors@.len(),
        j < cursors@.len(),
        cursors@[i as int].head is Some,
        cursors@[j as int].head is Some,
    ensures
        r == sooner(heads_of(cursors@), i as int, j as int),
{
    match (&cursors[i].head, &cursors[j].head) {
        (Some(a), Some(b)) => {
            proof {
                bytes::lemma_lex_total(a.0@, b.0@);
                bytes::lemma_lex_irreflexive(a.0@);
            }
            match lex_order(a.0.as_slice(), b.0.as_slice()) {
                Order::Less => true,
                Order::Equal => i > j,
                Order::Greater => false,
            }
        },
        _ => false,
    }
}

/// Put input `i` into the queue.
fn enqueue(queue: &mut Vec<usize>, cursors: &Vec<Cursor>, i: usize)
    requires
        i < cursors@.len(),
        cursors@[i as int].head is Some,
        in_line(old(queue)@, heads_of(cursors@)),
        !old(queue)@.contains(i),
    ensures
        in_line(final(queue)@, heads_of(cursors@)),
        forall|j: usize| #[trigger] final(queue)@.contains(j) == (old(queue)@.contains(j) || j == i),
{
    let ghost heads = heads_of(cursors@);
    let ghost before = queue@;
    let mut lo: usize = 0;
    let mut hi: usize = queue.len();
    while lo < hi
        invariant
            lo <= hi <= queue@.len(),
            queue@ == before,
            heads == heads_of(cursors@),
            in_line(before, heads),
            i < cursors@.len(),
            cursors@[i as int].head is Some,
            !before.contains(i),
            forall|a: int| 0 <= a < lo ==> sooner(heads, i as int, (#[trigger] before[a]) as int),
            forall|a: int| hi <= a < before.len() ==> sooner(heads, (#[trigger] before[a]) as int, i as int),
        decreases hi - lo,
    {
        let mid: usize = lo + (hi - lo) / 2;
        let q: usize = queue[mid];
        if is_sooner(cursors, i, q) {
            proof {
                assert forall|a: int| 0 <= a < mid + 1 implies sooner(heads, i as int, (#[trigger] before[a]) as int) by {
                    if a < mid {
                        lemma_sooner_transitive(heads, i as int, before[mid as int] as int, before[a] as int);
                    }
                }
            }
            lo = mid + 1;
        } else {
            proof {
                assert(before.contains(q));
                bytes::lemma_lex_total(key_in(heads, i as int), key_in(heads, q as int));
                assert(sooner(heads, q as int, i as int));
                assert forall|a: int| mid <= a < before.len() implies sooner(heads, (#[trigger] before[a]) as int, i as int) by {
                    if a > mid {
                        lemma_sooner_transitive(heads, before[a] as int, before[mid as int] as int, i as int);
                    }
                }
            }
            hi = mid;
        }
    }
    queue.insert(lo, i);
    proof {
        let after = queue@;
        assert forall|j: usize| #[trigger] after.contains(j) == (before.contains(j) || j == i) by {
            if before.contains(j) {
                let a = choose|a: int| 0 <= a < before.len() && before[a] == j;
                assert(after[if a < lo { a } else { a + 1 }] == j);
            }
            if j == i {
                assert(after[lo as int] == j);
            }
            if after.contains(j) && j != i {
                let a = choose|a: int| 0 <= a < after.len() && after[a] == j;
                assert(before[if a < lo { a } else { a - 1 }] == j);
            }
        }
    }
}

/// Take the inputs whose next key is `key`, the least one, out of the queue.
fn take_equal(queue: &mut Vec<usize>, cursors: &Vec<Cursor>, key: &[u8]) -> (same: Vec<usize>)
    requires
        in_line(old(queue)@, heads_of(cursors@)),
        forall|a: int|
            0 <= a < old(queue)@.len() ==> bytes::lex_le(key@, key_in(heads_of(cursors@), (#[trigger] old(queue)@[a]) as int)),
    ensures
        in_line(final(queue)@, heads_of(cursors@)),
        forall|j: usize| #[trigger] old(queue)@.contains(j) == (final(queue)@.contains(j) || same@.contains(j)),
        forall|j: usize| #[trigger] same@.contains(j) ==> !final(queue)@.contains(j),
        forall|a: int| 0 <= a < final(queue)@.len() ==> key_in(heads_of(cursors@), (#[trigger] final(queue)@[a]) as int) != key@,
        forall|b: int|
            0 <= b < same@.len() ==> (#[trigger] same@[b]) < cursors@.len() && cursors@[same@[b] as int].head is Some && key_in(
                heads_of(cursors@),
                same@[b] as int,
            ) == key@,
        same@.no_duplicates(),
{
    let ghost heads = heads_of(cursors@);
    let ghost before = queue@;
    let mut same: Vec<usize> = Vec::new();
    let mut n: usize = queue.len();
    proof {
        assert(before.take(n as int) =~= before);
    }
    while n > 0 && head_is(cursors, queue[n - 1], key)
        invariant
            n <= before.len(),
            n == queue@.len(),
            queue@ == before.take(n as int),
            heads == heads_of(cursors@),
            in_line(before, heads),
            same@.len() == before.len() - n,
            forall|b: int| 0 <= b < same@.len() ==> #[trigger] same@[b] == before[before.len() - 1 - b],
            forall|a: int| n <= a < before.len() ==> key_in(heads, (#[trigger] before[a]) as int) == key@,
        decreases n,
    {
        let i: usize = queue[n - 1];
        let _last = queue.pop();
        same.push(i);
        n = n - 1;
        proof {
            assert(queue@ =~= before.take(n as int));
        }
    }
    proof {
        assert forall|a: int, b: int| 0 <= a < before.len() && 0 <= b < before.len() && a != b implies before[a] != before[b] by {
            lemma_in_line_distinct(before, heads, a, b);
        }
        assert forall|a: int| 0 <= a < n implies key_in(heads, (#[trigger] queue@[a]) as int) != key@ by {
            let l = before[n - 1] as int;
            assert(queue@[a] == before[a]);
            assert(queue@[n - 1] == before[n - 1]);
            if a < n - 1 {
                assert(sooner(heads, before[n - 1] as int, before[a] as int));
                bytes::lemma_lex_irreflexive(key@);
                if lex_lt(key@, key_in(heads, l)) && lex_lt(key_in(heads, l), key_in(heads, before[a] as int)) {
                    bytes::lemma_lex_transitive(key@, key_in(heads, l), key_in(heads, before[a] as int));
                }
            }
        }
        assert forall|j: usize| #[trigger] before.contains(j) == (queue@.contains(j) || same@.contains(j)) by {
            if before.contains(j) {
                let a = choose|a: int| 0 <= a < before.len() && before[a] == j;
                if a < n {
                    assert(queue@[a] == j);
                } else {
                    assert(same@[before.len() - 1 - a] == j);
                }
            }
            if queue@.contains(j) {
                let a = choose|a: int| 0 <= a < queue@.len() && queue@[a] == j;
                assert(before[a] == j);
            }
            if same@.contains(j) {
                let b = choose|b: int| 0 <= b < same@.len() && same@[b] == j;
                assert(before[before.len() - 1 - b] == j);
            }
        }
        assert forall|j: usize| #[trigger] same@.contains(j) implies !queue@.contains(j) by {
            let b = choose|b: int| 0 <= b < same@.len() && same@[b] == j;
            if queue@.contains(j) {
                let a = choose|a: int| 0 <= a < queue@.len() && queue@[a] == j;
                assert(before[a] == before[before.len() - 1 - b]);
            }
        }
    }
    same
}

proof fn lemma_in_line_distinct(queue: Seq<usize>, heads: Seq<Option<Pair>>, a: int, b: int)
    requires
        in_line(queue, heads),
        0 <= a < queue.len(),
        0 <= b < queue.len(),
        a != b,
    ensures
        queue[a] != queue[b],
{
    bytes::lemma_lex_irreflexive(key_in(heads, queue[a] as int));
    if a < b {
        assert(sooner(heads, queue[b] as int, queue[a] as int));
    } else {
        assert(sooner(heads, queue[a] as int, queue[b] as int));
    }
}

/// Whether the next key of an input is `key`.
fn head_is(cursors: &Vec<Cursor>, i: usize, key: &[u8]) -> (r: bool)
    requires
        i < cursors@.len(),
        cursors@[i as int].head is Some,
    ensures
        r == (key_in(heads_of(cursors@), i as int) == key@),
{
    match &cursors[i].head {
        Some(p) => bytes_equal(p.0.as_slice(), key),
        None => false,
    }
}

/// Every input of `same` moves on by one pair.
spec fn bumped(at: Seq<nat>, same: Seq<usize>) -> Seq<nat> {
    Seq::new(at.len(), |i: int| if same.contains(i as usize) { at[i] + 1 } else { at[i] })
}

/// The cursors stand where `at` says.
spec fn all_track(cursors: Seq<Cursor>, ls: Seq<Seq<Pair>>, bad: Seq<bool>, at: Seq<nat>) -> bool {
    &&& cursors.len() == ls.len()
    &&& bad.len() == ls.len()
    &&& at.len() == ls.len()
    &&& ls.len() <= usize::MAX
    &&& forall|i: int| 0 <= i < ls.len() ==> tracks(#[trigger] cursors[i], ls[i], bad[i], at[i])
}

/// The inputs with a next pair that are not in `out` are in the queue.
spec fn queues(queue: Seq<usize>, cursors: Seq<Cursor>, out: Seq<usize>) -> bool {
    &&& in_line(queue, heads_of(cursors))
    &&& forall|i: usize|
        i < cursors.len() ==> #[trigger] queue.contains(i) == (cursors[i as int].head is Some && !out.contains(i))
}

/// Read the next pair of each input in `same` and put those that have one into the queue.
fn refill_all(
    cursors: &mut Vec<Cursor>,
    queue: &mut Vec<usize>,
    same: &Vec<usize>,
    Ghost(ls): Ghost<Seq<Seq<Pair>>>,
    Ghost(bad): Ghost<Seq<bool>>,
    Ghost(at): Ghost<Seq<nat>>,
) -> (r: Result<()>)
    requires
        all_track(old(cursors)@, ls, bad, at),
        queues(old(queue)@, old(cursors)@, same@),
        same@.no_duplicates(),
        forall|b: int| 0 <= b < same@.len() ==> (#[trigger] same@[b]) < ls.len() && old(cursors)@[same@[b] as int].head is Some,
    ensures
        match r {
            Ok(_) => all_track(final(cursors)@, ls, bad, bumped(at, same@)) && queues(
                final(queue)@,
                final(cursors)@,
                Seq::empty(),
            ),
            Err(e) => e == Error::Format(FormatError::BadWord) && meets_damage(ls, bad, bumped(at, same@)),
        },
{
    let mut x: usize = 0;
    let ghost mut now = at;
    proof {
        assert(same@.skip(0) =~= same@);
        assert(now =~= bumped(at, same@.take(0)));
    }
    while x < same.len()
        invariant
            x <= same@.len(),
            all_track(cursors@, ls, bad, now),
            now == bumped(at, same@.take(x as int)),
            at.len() == ls.len(),
            queues(queue@, cursors@, same@.skip(x as int)),
            same@.no_duplicates(),
            forall|b: int| x <= b < same@.len() ==> (#[trigger] same@[b]) < ls.len() && cursors@[same@[b] as int].head is Some,
        decreases same@.len() - x,
    {
        let i: usize = same[x];
        let ghost before = cursors@;
        let ghost was = now;
        let ghost rest = same@.skip(x as int);
        let ghost tail = same@.skip(x + 1);
        proof {
            assert(rest[0] == i);
            assert(rest.contains(i));
            assert(!queue@.contains(i));
            assert(tracks(before[i as int], ls[i as int], bad[i as int], was[i as int]));
            now = bumped(at, same@.take(x + 1));
            lemma_bump(at, same@, x as int);
        }
        match cursors[i].refill() {
            Ok(_) => {},
            Err(e) => {
                proof {
                    assert(same@[x as int] == i);
                    assert(same@.contains(i));
                    assert(bumped(at, same@)[i as int] == at[i as int] + 1);
                    assert(was[i as int] == at[i as int]);
                    assert(bad[i as int]);
                }
                return Err(e);
            },
        }
        proof {
            let l = ls[i as int];
            let k = was[i as int] as int;
            assert(now[i as int] == k + 1);
            if l.len() > k + 1 {
                assert(l.skip(k + 1).skip(1) =~= l.skip(k + 2));
            }
            assert(tracks(cursors@[i as int], l, bad[i as int], now[i as int]));
            assert forall|j: int| 0 <= j < ls.len() implies tracks(#[trigger] cursors@[j], ls[j], bad[j], now[j]) by {
                if j != i {
                    assert(cursors@[j] == before[j]);
                    assert(tracks(before[j], ls[j], bad[j], was[j]));
                }
            }
            lemma_still_in_line(queue@, before, cursors@, i as int);
            lemma_skip_contains(same@, x as int);
        }
        if cursors[i].head.is_some() {
            enqueue(queue, cursors, i);
        }
        x = x + 1;
    }
    proof {
        assert(same@.take(x as int) =~= same@);
        assert(same@.skip(x as int) =~= Seq::empty());
    }
    Ok(())
}

proof fn lemma_bump(at: Seq<nat>, same: Seq<usize>, x: int)
    requires
        0 <= x < same.len(),
        same.no_duplicates(),
        same[x] < at.len(),
        at.len() <= usize::MAX,
    ensures
        bumped(at, same.take(x))[same[x] as int] == at[same[x] as int],
        forall|j: int|
            0 <= j < at.len() ==> #[trigger] bumped(at, same.take(x + 1))[j] == if j == same[x] {
                at[j] + 1
            } else {
                bumped(at, same.take(x))[j]
            },
{
    let a = same.take(x);
    let b = same.take(x + 1);
    assert(b =~= a.push(same[x]));
    assert(!a.contains(same[x]));
    assert forall|j: usize| #[trigger] b.contains(j) == (a.contains(j) || j == same[x]) by {
        if a.contains(j) {
            let y = choose|y: int| 0 <= y < a.len() && a[y] == j;
            assert(b[y] == j);
        }
        if j == same[x] {
            assert(b[x] == j);
        }
        if b.contains(j) && j != same[x] {
            let y = choose|y: int| 0 <= y < b.len() && b[y] == j;
            assert(a[y] == j);
        }
    }
}

proof fn lemma_skip_contains(same: Seq<usize>, x: int)
    requires
        0 <= x < same.len(),
        same.no_duplicates(),
    ensures
        forall|j: usize| #[trigger] same.skip(x).contains(j) == (same.skip(x + 1).contains(j) || j == same[x]),
        !same.skip(x + 1).contains(same[x]),
{
    let a = same.skip(x);
    let b = same.skip(x + 1);
    assert forall|j: usize| #[trigger] a.contains(j) == (b.contains(j) || j == same[x]) by {
        if b.contains(j) {
            let y = choose|y: int| 0 <= y < b.len() && b[y] == j;
            assert(a[y + 1] == j);
        }
        if j == same[x] {
            assert(a[0] == j);
        }
        if a.contains(j) && j != same[x] {
            let y = choose|y: int| 0 <= y < a.len() && a[y] == j;
            assert(b[y - 1] == j);
        }
    }
}

/// The queue stays in line when an input that is not in it changes.
proof fn lemma_still_in_line(queue: Seq<usize>, before: Seq<Cursor>, after: Seq<Cursor>, i: int)
    requires
        in_line(queue, heads_of(before)),
        before.len() <= after.len(),
        forall|j: int| 0 <= j < before.len() && j != i ==> #[trigger] after[j] == before[j],
        forall|a: int| 0 <= a < queue.len() ==> (#[trigger] queue[a]) != i,
    ensures
        in_line(queue, heads_of(after)),
{
    assert forall|a: int| 0 <= a < queue.len() implies (#[trigger] queue[a]) < after.len() && heads_of(after)[queue[a] as int]
        == heads_of(before)[queue[a] as int] by {
        assert(queue[a] != i);
    }
    assert forall|a: int, b: int| 0 <= a < b < queue.len() implies sooner(
        heads_of(after),
        (#[trigger] queue[b]) as int,
        (#[trigger] queue[a]) as int,
    ) by {
        assert(sooner(heads_of(before), queue[b] as int, queue[a] as int));
    }
}

/// The pairs of each input, up to the first that cannot be read.
spec fn lists_in(segs: Seq<Seg>) -> Seq<Seq<Pair>> {
    Seq::new(segs.len(), |i: int| pairs_before(segs[i].model(), 0))
}

/// Which inputs are damaged.
spec fn damage_in(segs: Seq<Seg>) -> Seq<bool> {
    Seq::new(segs.len(), |i: int| pairs_from(segs[i].model(), 0) is Err)
}

/// The first in the queue has the pair that comes next.
proof fn lemma_first_wins(
    queue: Seq<usize>,
    cursors: Seq<Cursor>,
    ls: Seq<Seq<Pair>>,
    bad: Seq<bool>,
    at: Seq<nat>,
)
    requires
        all_track(cursors, ls, bad, at),
        queues(queue, cursors, Seq::empty()),
    ensures
        queue.len() == 0 ==> winner(ls, at, ls.len()) is None,
        queue.len() > 0 ==> {
            let w = queue.last() as int;
            &&& 0 <= w < ls.len()
            &&& winner(ls, at, ls.len()) == Some(w)
            &&& head_view(cursors[w].head) == Some(ls[w][at[w] as int])
            &&& forall|a: int|
                0 <= a < queue.len() ==> bytes::lex_le(ls[w][at[w] as int].0, key_in(heads_of(cursors), (#[trigger] queue[a]) as int))
        },
        !meets_damage(ls, bad, at),
{
    let n = ls.len();
    let heads = heads_of(cursors);
    lemma_winner(ls, at, n);
    assert forall|i: int| 0 <= i < n && #[trigger] bad[i] implies at[i] < ls[i].len() by {
        assert(tracks(cursors[i], ls[i], bad[i], at[i]));
    }
    assert forall|i: int| 0 <= i < n implies (at[i] < (#[trigger] ls[i]).len()) == queue.contains(i as usize) && (at[i]
        < ls[i].len() ==> heads[i] == Some(ls[i][at[i] as int])) by {
        assert(tracks(cursors[i], ls[i], bad[i], at[i]));
        assert(queue.contains(i as usize) == (cursors[i as usize as int].head is Some && !Seq::<usize>::empty().contains(i as usize)));
    }
    if queue.len() > 0 {
        let w = queue.last() as int;
        assert(queue[queue.len() - 1] == w);
        assert(queue.contains(w as usize));
        assert(at[w] < ls[w].len());
        let v = winner(ls, at, n)->0;
        assert(winner(ls, at, n) is Some) by {
            if winner(ls, at, n) is None {
                assert(at[w] >= ls[w].len());
            }
        }
        assert(queue.contains(v as usize));
        let a = choose|a: int| 0 <= a < queue.len() && queue[a] == v;
        let kw = ls[w][at[w] as int].0;
        let kv = ls[v][at[v] as int].0;
        bytes::lemma_lex_irreflexive(kw);
        if v != w {
            assert(a < queue.len() - 1);
            assert(sooner(heads, queue[queue.len() - 1] as int, queue[a] as int));
            assert(bytes::lex_le(kv, kw));
            if lex_lt(kw, kv) && lex_lt(kv, kw) {
                bytes::lemma_lex_transitive(kw, kv, kw);
            }
        }
        assert forall|a: int| 0 <= a < queue.len() implies bytes::lex_le(kw, key_in(heads, (#[trigger] queue[a]) as int)) by {
            if a < queue.len() - 1 {
                assert(sooner(heads, queue[queue.len() - 1] as int, queue[a] as int));
            }
        }
    } else {
        if let Some(v) = winner(ls, at, n) {
            assert(queue.contains(v as usize));
        }
    }
}

/// Moving past a key moves on the inputs that were taken out of the queue.
proof fn lemma_bump_is_advance(
    cursors: Seq<Cursor>,
    ls: Seq<Seq<Pair>>,
    bad: Seq<bool>,
    at: Seq<nat>,
    key: Seq<u8>,
    queue: Seq<usize>,
    left: Seq<usize>,
    same: Seq<usize>,
)
    requires
        all_track(cursors, ls, bad, at),
        queues(queue, cursors, Seq::empty()),
        in_line(left, heads_of(cursors)),
        forall|j: usize| #[trigger] queue.contains(j) == (left.contains(j) || same.contains(j)),
        forall|j: usize| #[trigger] same.contains(j) ==> !left.contains(j),
        forall|a: int| 0 <= a < left.len() ==> key_in(heads_of(cursors), (#[trigger] left[a]) as int) != key,
        forall|b: int|
            0 <= b < same.len() ==> (#[trigger] same[b]) < cursors.len() && cursors[same[b] as int].head is Some && key_in(
                heads_of(cursors),
                same[b] as int,
            ) == key,
    ensures
        bumped(at, same) == advance(ls, at, key),
        queues(left, cursors, same),
{
    let heads = heads_of(cursors);
    assert forall|i: int| 0 <= i < ls.len() implies bumped(at, same)[i] == #[trigger] advance(ls, at, key)[i] by {
        let j = i as usize;
        assert(tracks(cursors[i], ls[i], bad[i], at[i]));
        assert(queue.contains(j) == (cursors[j as int].head is Some && !Seq::<usize>::empty().contains(j)));
        if same.contains(j) {
            let b = choose|b: int| 0 <= b < same.len() && same[b] == j;
            assert(key_in(heads, same[b] as int) == key);
        } else if left.contains(j) {
            let a = choose|a: int| 0 <= a < left.len() && left[a] == j;
            assert(key_in(heads, left[a] as int) != key);
        }
    }
    assert(bumped(at, same) =~= advance(ls, at, key));
    assert forall|i: usize| i < cursors.len() implies #[trigger] left.contains(i) == (cursors[i as int].head is Some
        && !same.contains(i)) by {
        assert(queue.contains(i) == (cursors[i as int].head is Some && !Seq::<usize>::empty().contains(i)));
    }
}

/// Merge files, oldest first, pair by pair, into a file set.
fn merge_segs(segs: &Vec<Seg>, drop: bool, opts: DomainOptions) -> (r: Result<DomainFiles>)
    ensures
        ({
            let ls = lists_in(segs@);
            let bad = damage_in(segs@);
            let out = kept(merged_until(ls, bad, starts(ls.len())), drop);
            match add_error(out, out.len()) {
                Some(e) => r == Err::<DomainFiles, Error>(Error::Format(e)),
                None => if exists|i: int| 0 <= i < bad.len() && #[trigger] bad[i] {
                    r == Err::<DomainFiles, Error>(Error::Format(FormatError::BadWord))
                } else {
                    domain::domain_result(domain::words_of(out), opts, r)
                },
            }
        }),
{
    let ghost ls = lists_in(segs@);
    let ghost bad = damage_in(segs@);
    let ghost out = kept(merged_until(ls, bad, starts(ls.len())), drop);
    let n: usize = segs.len();
    let mut cursors: Vec<Cursor> = Vec::new();
    let mut queue: Vec<usize> = Vec::new();
    let mut i: usize = 0;
    while i < n
        invariant
            i <= n,
            n == segs@.len(),
            cursors@.len() == i,
            ls == lists_in(segs@),
            bad == damage_in(segs@),
            out == kept(merged_until(ls, bad, starts(ls.len())), drop),
            forall|j: int| 0 <= j < i ==> tracks(#[trigger] cursors@[j], ls[j], bad[j], 0),
            queues(queue@, cursors@, Seq::empty()),
        decreases n - i,
    {
        let mut c = Cursor { getter: segs[i].getter(), head: None };
        match c.refill() {
            Ok(_) => {},
            Err(e) => {
                proof {
                    assert(bad[i as int] && starts(ls.len())[i as int] >= ls[i as int].len());
                    assert(meets_damage(ls, bad, starts(ls.len())));
                    assert(out =~= Seq::empty());
                }
                return Err(e);
            },
        }
        let ghost before = cursors@;
        let some: bool = c.head.is_some();
        cursors.push(c);
        proof {
            assert(tracks(cursors@[i as int], ls[i as int], bad[i as int], 0));
            assert forall|j: int| 0 <= j < i implies #[trigger] cursors@[j] == before[j] by {}
            assert(!queue@.contains(i)) by {
                if queue@.contains(i) {
                    let a = choose|a: int| 0 <= a < queue@.len() && queue@[a] == i;
                    assert(queue@[a] < heads_of(before).len());
                }
            }
            lemma_still_in_line(queue@, before, cursors@, i as int);
        }
        let ghost q = queue@;
        if some {
            enqueue(&mut queue, &cursors, i);
        }
        proof {
            assert forall|j: usize| j < cursors@.len() implies #[trigger] queue@.contains(j) == (cursors@[j as int].head is Some
                && !Seq::<usize>::empty().contains(j)) by {
                if j < i {
                    assert(q.contains(j) == (before[j as int].head is Some && !Seq::<usize>::empty().contains(j)));
                }
            }
        }
        i = i + 1;
    }
    let mut writer = DomainWriter::create(opts);
    let ghost mut at: Seq<nat> = starts(ls.len());
    proof {
        assert(writer.pairs() + out =~= out);
        assert(writer.pairs() =~= out.take(0));
    }
    while queue.len() > 0
        invariant
            ls == lists_in(segs@),
            bad == damage_in(segs@),
            all_track(cursors@, ls, bad, at),
            queues(queue@, cursors@, Seq::empty()),
            out == kept(merged_until(ls, bad, starts(ls.len())), drop),
            out == writer.pairs() + kept(merged_until(ls, bad, at), drop),
            writer.pairs().len() <= out.len(),
            add_error(out, writer.pairs().len()) is None,
            writer.options() == opts,
        decreases remaining(ls, at, ls.len()),
    {
        proof {
            lemma_first_wins(queue@, cursors@, ls, bad, at);
        }
        let w: usize = queue[queue.len() - 1];
        let key: Vec<u8> = match &cursors[w].head {
            Some(h) => copy_bytes(h.0.as_slice()),
            None => Vec::new(),
        };
        let ghost p = head_view(cursors@[w as int].head)->0;
        let ghost next = advance(ls, at, p.0);
        proof {
            assert(ls[w as int][at[w as int] as int] == p);
            lemma_winner(ls, at, ls.len());
            lemma_advance_shrinks(ls, at, p.0, ls.len());
            assert(heads_with(ls, at, p.0, w as int));
            let rest = merged_until(ls, bad, next);
            assert(merged_until(ls, bad, at) == seq![p] + rest);
            assert((seq![p] + rest).drop_first() =~= rest);
            if !(drop && p.1.len() == 0) {
                let done = writer.pairs();
                let k = done.len();
                assert(done + (seq![p] + kept(rest, drop)) =~= done.push(p) + kept(rest, drop));
                assert(out.len() > k);
                assert(out.take(k as int) =~= done);
                assert(out[k as int] == p);
                if k > 0 {
                    assert(out[k - 1] == done.last());
                }
                if add_error(out, k + 1) is Some {
                    lemma_add_error_stays(out, k + 1, out.len());
                }
            }
        }
        if let Some(h) = &cursors[w].head {
            // An empty value is a deletion in a from-zero merge.
            if !drop || h.1.len() > 0 {
                match writer.add(h.0.as_slice(), h.1.as_slice()) {
                    Ok(_) => {},
                    Err(e) => return Err(e),
                }
            }
        }
        let ghost line = queue@;
        let same = take_equal(&mut queue, &cursors, key.as_slice());
        proof {
            lemma_bump_is_advance(cursors@, ls, bad, at, p.0, line, queue@, same@);
        }
        match refill_all(&mut cursors, &mut queue, &same, Ghost(ls), Ghost(bad), Ghost(at)) {
            Ok(_) => {},
            Err(e) => {
                proof {
                    assert(merged_until(ls, bad, next) =~= Seq::empty());
                    assert(kept(merged_until(ls, bad, next), drop) =~= Seq::empty());
                    assert(out =~= writer.pairs());
                    let x = choose|x: int| 0 <= x < ls.len() && #[trigger] bad[x] && next[x] >= ls[x].len();
                    assert(bad[x]);
                }
                return Err(e);
            },
        }
        proof {
            at = next;
        }
    }
    proof {
        lemma_first_wins(queue@, cursors@, ls, bad, at);
        lemma_winner(ls, at, ls.len());
        assert(merged_until(ls, bad, at) =~= Seq::empty());
        assert(out =~= writer.pairs());
        assert forall|x: int| 0 <= x < bad.len() implies !(#[trigger] bad[x]) by {
            assert(at[x] >= ls[x].len());
        }
    }
    writer.finish()
}

/// What the opened files hold is what the merge of their bytes is about.
proof fn lemma_segs(kvs: Seq<Seq<u8>>, segs: Seq<Seg>)
    requires
        kvs.len() == segs.len(),
        forall|i: int| 0 <= i < kvs.len() ==> words::parse_seg(kvs[i], false) == Some((#[trigger] segs[i]).model()),
    ensures
        lists_in(segs) == readable_lists(kvs),
        damage_in(segs) == damage_of(kvs),
        some_damaged(kvs) == exists|i: int| 0 <= i < kvs.len() && #[trigger] damage_in(segs)[i],
        !some_damaged(kvs) ==> merged_until(lists_in(segs), damage_in(segs), starts(kvs.len())) == merged(
            lists_of(kvs),
            starts(kvs.len()),
        ),
{
    let bad = damage_in(segs);
    assert forall|i: int| 0 <= i < kvs.len() implies #[trigger] bad[i] == pairs_in(kvs[i]) is Err && lists_in(segs)[i]
        == readable_lists(kvs)[i] && (pairs_in(kvs[i]) is Ok ==> lists_in(segs)[i] == lists_of(kvs)[i]) by {
        assert(words::parse_seg(kvs[i], false) == Some(segs[i].model()));
        lemma_pairs_before(segs[i].model(), 0);
    }
    assert(bad =~= damage_of(kvs)) by {
        assert forall|i: int| 0 <= i < kvs.len() implies #[trigger] damage_of(kvs)[i] == bad[i] by {}
    }
    assert(lists_in(segs) =~= readable_lists(kvs)) by {
        assert forall|i: int| 0 <= i < kvs.len() implies lists_in(segs)[i] == #[trigger] readable_lists(kvs)[i] by {
            assert(bad[i] == pairs_in(kvs[i]) is Err);
        }
    }
    if some_damaged(kvs) {
        let i = choose|i: int| 0 <= i < kvs.len() && pairs_in(#[trigger] kvs[i]) is Err;
        assert(bad[i]);
    } else {
        assert forall|i: int| 0 <= i < kvs.len() implies !(#[trigger] bad[i]) by {
            assert(pairs_in(kvs[i]) is Ok);
        }
        assert(lists_in(segs) =~= lists_of(kvs)) by {
            assert forall|i: int| 0 <= i < kvs.len() implies lists_in(segs)[i] == #[trigger] lists_of(kvs)[i] by {
                assert(!bad[i]);
            }
        }
        lemma_merged_until(lists_in(segs), bad, starts(kvs.len()));
    }
}

/// Merge `inputs` (domain `.kv` files) into the file set of a `.kv` that will be named
/// `out_name`, building its `.bt` and, if `opts.domain.salt` is set, `.kvei`.
///
/// Inputs are reordered oldest to newest by the `<from>` step parsed from their names
/// (stable, so files without a parseable step keep their given order); the last is
/// treated as newest.
pub fn merge(inputs: &Vec<MergeInput>, out_name: &[u8], opts: MergeOptions) -> (r: Result<DomainFiles>)
    ensures
        merge_result(inputs@, out_name@, opts, r),
{
    let n: usize = inputs.len();
    if n == 0 {
        return Err(Error::Format(FormatError::NoInputs));
    }
    let mut froms: Vec<u64> = Vec::new();
    while froms.len() < n
        invariant
            froms.len() <= n,
            n == inputs.len(),
            forall|i: int| 0 <= i < froms@.len() ==> #[trigger] froms@[i] == from_step(inputs@[i].name@),
        decreases n - froms.len(),
    {
        let f: u64 = match parse_from(inputs[froms.len()].name) {
            Some(a) => a,
            None => 0,
        };
        froms.push(f);
    }
    let by_age = ByAge { froms: &froms };
    let order = sort_indices(&by_age, n);
    let ghost kvs = kvs_in(inputs@, order@);
    proof {
        assert(froms@ =~= froms_of(inputs@));
        assert forall|a: int, b: int| 0 <= a < b < order@.len() implies older(
            froms@,
            (#[trigger] order@[a]) as int,
            (#[trigger] order@[b]) as int,
        ) by {
            assert(by_age.precedes(order@[a] as int, order@[b] as int));
        }
        assert(age_order(froms_of(inputs@), order@));
    }
    let drop: bool = opts.drop_deleted && match opts.range_from {
        Some(f) => f == 0,
        None => match parse_from(out_name) {
            Some(f) => f == 0,
            None => false,
        },
    };
    let mut segs: Vec<Seg> = Vec::new();
    while segs.len() < n
        invariant
            segs.len() <= n,
            n == inputs.len(),
            n == order.len(),
            n > 0,
            kvs == kvs_in(inputs@, order@),
            age_order(froms_of(inputs@), order@),
            forall|i: int| 0 <= i < segs@.len() ==> words::parse_seg(kvs[i], false) == Some((#[trigger] segs@[i]).model()),
        decreases n - segs.len(),
    {
        let i: usize = segs.len();
        match Seg::open(inputs[order[i]].kv) {
            Ok(s) => segs.push(s),
            Err(e) => {
                proof {
                    assert(words::parse_seg(kvs[i as int], false) is None);
                }
                return Err(e);
            },
        }
    }
    proof {
        assert forall|i: int| 0 <= i < kvs.len() implies words::parse_seg(#[trigger] kvs[i], false) is Some by {
            assert(words::parse_seg(kvs[i], false) == Some(segs@[i].model()));
        }
        assert(drop == drops(out_name@, opts));
        lemma_segs(kvs, segs@);
    }
    merge_segs(&segs, drop, opts.domain)
}

} // verus!
