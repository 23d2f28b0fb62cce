//! Choosing the patterns of a compressing writer: frequent fixed-length substrings.
//!
//! Substrings of a few lengths are counted over a sample of the words. Those that repeat
//! are scored by the bytes they could save, and the best ones become the patterns.

use vstd::prelude::*;
use vstd::slice::*;

use crate::bytes;
use crate::bytes::{bytes_equal, copy_bytes, lex_lt, lex_order, texts, Order};
use crate::hash;
use crate::hash::murmur3_x64_128_h1;
use crate::sort;
use crate::sort::Ranking;

verus! {

/// Words that are sampled.
pub const SAMPLE_WORDS: usize = 100_000;

/// Distinct substrings that are counted; later ones are passed over.
pub const CANDIDATE_CAP: usize = 3_000_000;

/// Patterns that are kept.
pub const MAX_PATTERNS: usize = 8192;

/// Bytes that using a pattern costs.
pub const OVERHEAD: u64 = 4;

const BUCKETS: usize = 65536;

/// The substrings of length `l`, in order.
pub open spec fn grams_of(w: Seq<u8>, l: nat) -> Seq<Seq<u8>> {
    if w.len() < l {
        Seq::empty()
    } else {
        Seq::new((w.len() - l + 1) as nat, |p: int| w.subrange(p, p + l))
    }
}

/// The substrings of a word that are counted.
pub open spec fn grams(w: Seq<u8>) -> Seq<Seq<u8>> {
    grams_of(w, 64) + grams_of(w, 32) + grams_of(w, 16) + grams_of(w, 8)
}

/// The substrings of the first `n` words that are counted.
pub open spec fn sample(ws: Seq<Seq<u8>>, n: nat) -> Seq<Seq<u8>>
    decreases n,
{
    if n == 0 {
        Seq::empty()
    } else {
        sample(ws, (n - 1) as nat) + grams(ws[n - 1])
    }
}

/// One more occurrence of `g`, unless it is new and there is no room for it.
pub open spec fn noted(m: Map<Seq<u8>, nat>, g: Seq<u8>) -> Map<Seq<u8>, nat> {
    if m.contains_key(g) {
        m.insert(g, m[g] + 1)
    } else if m.dom().len() < CANDIDATE_CAP {
        m.insert(g, 1)
    } else {
        m
    }
}

/// How often each substring occurs.
pub open spec fn counted(gs: Seq<Seq<u8>>) -> Map<Seq<u8>, nat>
    decreases gs.len(),
{
    if gs.len() == 0 {
        Map::empty()
    } else {
        noted(counted(gs.drop_last()), gs.last())
    }
}

/// The counts of the sampled substrings of a list of words.
pub open spec fn sampled(ws: Seq<Seq<u8>>) -> Map<Seq<u8>, nat> {
    counted(sample(ws, if ws.len() < SAMPLE_WORDS { ws.len() } else { SAMPLE_WORDS as nat }))
}

/// Bytes that a pattern could save.
pub open spec fn score(m: Map<Seq<u8>, nat>, k: Seq<u8>) -> int {
    (k.len() - OVERHEAD) * (m[k] - 1)
}

/// `a` is a better pattern than `b`.
pub open spec fn better(m: Map<Seq<u8>, nat>, a: Seq<u8>, b: Seq<u8>) -> bool {
    score(m, a) > score(m, b) || (score(m, a) == score(m, b) && lex_lt(a, b))
}

/// `k` repeats.
pub open spec fn repeats(m: Map<Seq<u8>, nat>, k: Seq<u8>) -> bool {
    m.contains_key(k) && m[k] >= 2
}

/// `ps` are the best repeated substrings, best first.
pub open spec fn selects(m: Map<Seq<u8>, nat>, ps: Seq<Seq<u8>>) -> bool {
    &&& ps.len() <= MAX_PATTERNS
    &&& forall|i: int| 0 <= i < ps.len() ==> repeats(m, #[trigger] ps[i])
    &&& forall|i: int, j: int| 0 <= i < j < ps.len() ==> better(m, #[trigger] ps[i], #[trigger] ps[j])
    &&& forall|k: Seq<u8>| #[trigger]
        repeats(m, k) && !ps.contains(k) ==> ps.len() == MAX_PATTERNS && forall|i: int|
            0 <= i < ps.len() ==> better(m, #[trigger] ps[i], k)
}

// ------------------------------------------------------------------ counting

spec fn bucket_of(k: Seq<u8>) -> int {
    (hash::murmur3(k, 0) % 65536) as int
}

/// A hash table of counted byte strings.
struct ByteCounts {
    buckets: Vec<Vec<(Vec<u8>, u128)>>,
    size: usize,
    counts: Ghost<Map<Seq<u8>, nat>>,
}

spec fn in_bucket(b: Seq<(Vec<u8>, u128)>, k: Seq<u8>) -> bool {
    exists|x: int| 0 <= x < b.len() && (#[trigger] b[x]).0@ == k
}

impl ByteCounts {
    spec fn inv(&self) -> bool {
        let m = self.counts@;
        &&& self.buckets@.len() == BUCKETS
        &&& m.dom().finite()
        &&& self.size == m.dom().len()
        &&& forall|k: Seq<u8>| #[trigger] m.contains_key(k) ==> in_bucket(self.buckets@[bucket_of(k)]@, k)
        &&& forall|b: int, x: int|
            0 <= b < self.buckets@.len() && 0 <= x < self.buckets@[b]@.len() ==> {
                let e = #[trigger] self.buckets@[b]@[x];
                bucket_of(e.0@) == b && m.contains_key(e.0@) && m[e.0@] == e.1
            }
        &&& forall|b: int, x: int, y: int|
            0 <= b < self.buckets@.len() && 0 <= x < y < self.buckets@[b]@.len() ==> (#[trigger] self.buckets@[b]@[x]).0@ != (
            #[trigger] self.buckets@[b]@[y]).0@
    }

    fn new() -> (c: ByteCounts)
        ensures
            c.inv(),
            c.counts@ == Map::<Seq<u8>, nat>::empty(),
    {
        let mut buckets: Vec<Vec<(Vec<u8>, u128)>> = Vec::with_capacity(BUCKETS);
        let mut i: usize = 0;
        while i < BUCKETS
            invariant
                i <= BUCKETS,
                buckets@.len() == i,
                forall|b: int| 0 <= b < i ==> (#[trigger] buckets@[b])@.len() == 0,
            decreases BUCKETS - i,
        {
            buckets.push(Vec::new());
            i = i + 1;
        }
        ByteCounts { buckets, size: 0, counts: Ghost(Map::empty()) }
    }

    fn note(&mut self, g: &[u8], Ghost(n): Ghost<nat>)
        requires
            old(self).inv(),
            forall|k: Seq<u8>| #[trigger] old(self).counts@.contains_key(k) ==> old(self).counts@[k] <= n,
            n < u128::MAX,
        ensures
            final(self).inv(),
            final(self).counts@ == noted(old(self).counts@, g@),
    {
        let b: usize = (murmur3_x64_128_h1(g, 0) % 65536) as usize;
        let ghost m = self.counts@;
        let ghost before = self.buckets@;
        let mut i: usize = 0;
        while i < self.buckets[b].len()
            invariant
                *self == *old(self),
                self.inv(),
                b < self.buckets@.len(),
                i <= self.buckets@[b as int]@.len(),
                b == bucket_of(g@),
                m == self.counts@,
                before == self.buckets@,
                forall|k: Seq<u8>| #[trigger] m.contains_key(k) ==> m[k] <= n,
                n < u128::MAX,
                forall|x: int| 0 <= x < i ==> (#[trigger] self.buckets@[b as int]@[x]).0@ != g@,
            decreases self.buckets@[b as int]@.len() - i,
        {
            if bytes_equal(self.buckets[b][i].0.as_slice(), g) {
                let ghost e = before[b as int]@[i as int];
                proof {
                    assert(m.contains_key(e.0@) && m[e.0@] == e.1);
                }
                let c: u128 = self.buckets[b][i].1;
                self.buckets[b][i].1 = c + 1;
                self.counts = Ghost(noted(m, g@));
                proof {
                    let m2 = self.counts@;
                    assert(m2.dom() =~= m.dom());
                    assert forall|k: Seq<u8>| #[trigger] m2.contains_key(k) implies in_bucket(
                        self.buckets@[bucket_of(k)]@,
                        k,
                    ) by {
                        assert(m.contains_key(k));
                        assert(in_bucket(before[bucket_of(k)]@, k));
                        let x = choose|x: int|
                            0 <= x < before[bucket_of(k)]@.len() && (#[trigger] before[bucket_of(k)]@[x]).0@ == k;
                        assert(self.buckets@[bucket_of(k)]@[x].0@ == k);
                    }
                    assert forall|b2: int, x: int| 0 <= b2 < self.buckets@.len() && 0 <= x < self.buckets@[b2]@.len() implies {
                        let e = #[trigger] self.buckets@[b2]@[x];
                        bucket_of(e.0@) == b2 && m2.contains_key(e.0@) && m2[e.0@] == e.1
                    } by {
                        let o = before[b2]@[x];
                        assert(bucket_of(o.0@) == b2 && m.contains_key(o.0@) && m[o.0@] == o.1);
                        if b2 == b && x != i {
                            if x < i {
                                assert(before[b as int]@[x].0@ != before[b as int]@[i as int].0@);
                            } else {
                                assert(before[b as int]@[i as int].0@ != before[b as int]@[x].0@);
                            }
                        }
                    }
                    assert forall|b2: int, x: int, y: int|
                        0 <= b2 < self.buckets@.len() && 0 <= x < y < self.buckets@[b2]@.len() implies (
                    #[trigger] self.buckets@[b2]@[x]).0@ != (#[trigger] self.buckets@[b2]@[y]).0@ by {
                        assert(before[b2]@[x].0@ != before[b2]@[y].0@);
                    }
                }
                return;
            }
            i = i + 1;
        }
        proof {
            if m.contains_key(g@) {
                assert(in_bucket(before[b as int]@, g@));
            }
        }
        if self.size < CANDIDATE_CAP {
            let key = copy_bytes(g);
            let ghost entry = (key, 1u128);
            self.buckets[b].push((key, 1));
            self.size = self.size + 1;
            self.counts = Ghost(noted(m, g@));
            proof {
                let m2 = self.counts@;
                assert(m2 == m.insert(g@, 1));
                assert forall|k: Seq<u8>| #[trigger] m2.contains_key(k) implies in_bucket(
                    self.buckets@[bucket_of(k)]@,
                    k,
                ) by {
                    if k == g@ {
                        assert(self.buckets@[b as int]@[before[b as int]@.len() as int].0@ == k);
                    } else {
                        assert(m.contains_key(k));
                        let x = choose|x: int|
                            0 <= x < before[bucket_of(k)]@.len() && (#[trigger] before[bucket_of(k)]@[x]).0@ == k;
                        assert(self.buckets@[bucket_of(k)]@[x].0@ == k);
                    }
                }
                assert forall|b2: int, x: int| 0 <= b2 < self.buckets@.len() && 0 <= x < self.buckets@[b2]@.len() implies {
                    let e = #[trigger] self.buckets@[b2]@[x];
                    bucket_of(e.0@) == b2 && m2.contains_key(e.0@) && m2[e.0@] == e.1
                } by {
                    if x < before[b2]@.len() {
                        let o = before[b2]@[x];
                        assert(bucket_of(o.0@) == b2 && m.contains_key(o.0@) && m[o.0@] == o.1);
                    }
                }
                assert forall|b2: int, x: int, y: int|
                    0 <= b2 < self.buckets@.len() && 0 <= x < y < self.buckets@[b2]@.len() implies (
                #[trigger] self.buckets@[b2]@[x]).0@ != (#[trigger] self.buckets@[b2]@[y]).0@ by {
                    if y < before[b2]@.len() {
                        assert(before[b2]@[x].0@ != before[b2]@[y].0@);
                    } else {
                        assert(before[b as int]@[x].0@ != g@);
                    }
                }
            }
        }
    }
}

proof fn lemma_counted_bound(gs: Seq<Seq<u8>>)
    ensures
        forall|k: Seq<u8>| #[trigger] counted(gs).contains_key(k) ==> 1 <= counted(gs)[k] <= gs.len(),
    decreases gs.len(),
{
    if gs.len() > 0 {
        let m = counted(gs.drop_last());
        lemma_counted_bound(gs.drop_last());
        assert forall|k: Seq<u8>| #[trigger] counted(gs).contains_key(k) implies 1 <= counted(gs)[k] <= gs.len() by {
            if m.contains_key(k) {
                assert(1 <= m[k] <= gs.drop_last().len());
            }
        }
    }
}

/// Every counted byte string is one of the list.
proof fn lemma_counted_from(gs: Seq<Seq<u8>>, k: Seq<u8>)
    requires
        counted(gs).contains_key(k),
    ensures
        gs.contains(k),
    decreases gs.len(),
{
    if gs.len() > 0 {
        if k == gs.last() {
            assert(gs[gs.len() - 1] == k);
        } else {
            lemma_counted_from(gs.drop_last(), k);
            let i = choose|i: int| 0 <= i < gs.drop_last().len() && gs.drop_last()[i] == k;
            assert(gs[i] == k);
        }
    }
}

/// The substrings counted are longer than what using one costs.
proof fn lemma_sample_lengths(ws: Seq<Seq<u8>>, n: nat)
    ensures
        forall|i: int| 0 <= i < sample(ws, n).len() ==> 8 <= (#[trigger] sample(ws, n)[i]).len() <= 64,
    decreases n,
{
    if n > 0 {
        lemma_sample_lengths(ws, (n - 1) as nat);
        let w = ws[n - 1];
        assert forall|i: int| 0 <= i < grams(w).len() implies 8 <= (#[trigger] grams(w)[i]).len() <= 64 by {}
        let a = sample(ws, (n - 1) as nat);
        assert forall|i: int| 0 <= i < sample(ws, n).len() implies 8 <= (#[trigger] sample(ws, n)[i]).len() <= 64 by {
            if i < a.len() {
                assert(sample(ws, n)[i] == a[i]);
            } else {
                assert(sample(ws, n)[i] == grams(w)[i - a.len()]);
            }
        }
    }
}

/// Count the substrings of length `l` of a word.
fn note_grams(counts: &mut ByteCounts, word: &Vec<u8>, l: usize, Ghost(before): Ghost<Seq<Seq<u8>>>)
    requires
        old(counts).inv(),
        old(counts).counts@ == counted(before),
        before.len() + word@.len() < u128::MAX,
        0 < l,
    ensures
        final(counts).inv(),
        final(counts).counts@ == counted(before + grams_of(word@, l as nat)),
{
    let n: usize = word.len();
    let mut pos: usize = 0;
    proof {
        assert(before + grams_of(word@, l as nat).take(0) =~= before);
    }
    while l <= n && pos <= n - l
        invariant
            counts.inv(),
            n == word.len(),
            0 < l,
            l <= n ==> pos <= n - l + 1,
            l > n ==> pos == 0,
            before.len() + word@.len() < u128::MAX,
            counts.counts@ == counted(before + grams_of(word@, l as nat).take(pos as int)),
        decreases n - pos,
    {
        let ghost gs = grams_of(word@, l as nat);
        let ghost s = before + gs.take(pos as int);
        proof {
            lemma_counted_bound(s);
            assert((before + gs.take(pos + 1)).drop_last() =~= s);
            assert((before + gs.take(pos + 1)).last() == gs[pos as int]);
        }
        counts.note(slice_subrange(word.as_slice(), pos, pos + l), Ghost(s.len()));
        pos = pos + 1;
    }
    proof {
        assert(grams_of(word@, l as nat).take(pos as int) =~= grams_of(word@, l as nat));
    }
}

proof fn lemma_sample_len(ws: Seq<Seq<u8>>, n: nat)
    requires
        n <= ws.len(),
        forall|i: int| 0 <= i < ws.len() ==> (#[trigger] ws[i]).len() <= u64::MAX,
    ensures
        sample(ws, n).len() <= n * (4 * u64::MAX),
    decreases n,
{
    if n > 0 {
        lemma_sample_len(ws, (n - 1) as nat);
        assert(ws[n - 1].len() <= u64::MAX);
        assert(grams(ws[n - 1]).len() <= 4 * u64::MAX);
        assert(n * (4 * u64::MAX) == (n - 1) * (4 * u64::MAX) + 4 * u64::MAX) by (nonlinear_arith);
    }
}

/// Count the sampled substrings of the words.
fn count_grams(words: &Vec<Vec<u8>>) -> (counts: ByteCounts)
    ensures
        counts.inv(),
        counts.counts@ == sampled(texts(words@)),
{
    let ghost ws = texts(words@);
    let n: usize = if words.len() < SAMPLE_WORDS { words.len() } else { SAMPLE_WORDS };
    let mut counts = ByteCounts::new();
    let mut i: usize = 0;
    while i < n
        invariant
            i <= n,
            n <= words.len(),
            n <= SAMPLE_WORDS,
            ws == texts(words@),
            counts.inv(),
            counts.counts@ == counted(sample(ws, i as nat)),
        decreases n - i,
    {
        let ghost s = sample(ws, i as nat);
        let w: &Vec<u8> = &words[i];
        proof {
            assert(ws[i as int] == w@);
            assert forall|k: int| 0 <= k < ws.len() implies (#[trigger] ws[k]).len() <= u64::MAX by {
                assert(words@[k]@.len() == words@[k].len());
            }
            lemma_sample_len(ws, i as nat);
            assert(i * (4 * u64::MAX) <= 100_000 * (4 * u64::MAX)) by (nonlinear_arith)
                requires
                    i <= 100_000,
            ;
            assert(w@.len() == w.len());
        }
        note_grams(&mut counts, w, 64, Ghost(s));
        note_grams(&mut counts, w, 32, Ghost(s + grams_of(w@, 64)));
        note_grams(&mut counts, w, 16, Ghost(s + grams_of(w@, 64) + grams_of(w@, 32)));
        note_grams(&mut counts, w, 8, Ghost(s + grams_of(w@, 64) + grams_of(w@, 32) + grams_of(w@, 16)));
        proof {
            assert(s + grams_of(w@, 64) + grams_of(w@, 32) + grams_of(w@, 16) + grams_of(w@, 8) =~= s + grams(w@));
        }
        i = i + 1;
    }
    counts
}

// ------------------------------------------------------------------ selecting

/// Ranks candidates by score, the higher first, then by their bytes.
struct ByScore<'a> {
    items: &'a Vec<(u128, Vec<u8>)>,
}

impl<'a> Ranking for ByScore<'a> {
    closed spec fn count(&self) -> nat {
        self.items@.len()
    }

    closed spec fn precedes(&self, i: int, j: int) -> bool {
        let a = self.items@[i];
        let b = self.items@[j];
        a.0 > b.0 || (a.0 == b.0 && (lex_lt(a.1@, b.1@) || (a.1@ == b.1@ && i < j)))
    }

    proof fn ranking_is_total(&self, i: int, j: int) {
        bytes::lemma_lex_total(self.items@[i].1@, self.items@[j].1@);
        bytes::lemma_lex_irreflexive(self.items@[i].1@);
    }

    proof fn ranking_is_transitive(&self, i: int, j: int, k: int) {
        let a = self.items@[i];
        let b = self.items@[j];
        let c = self.items@[k];
        if lex_lt(a.1@, b.1@) && lex_lt(b.1@, c.1@) {
            bytes::lemma_lex_transitive(a.1@, b.1@, c.1@);
        }
    }

    fn before(&self, i: usize, j: usize) -> (r: bool) {
        let a: &(u128, Vec<u8>) = &self.items[i];
        let b: &(u128, Vec<u8>) = &self.items[j];
        if a.0 != b.0 {
            return a.0 > b.0;
        }
        match lex_order(a.1.as_slice(), b.1.as_slice()) {
            Order::Less => true,
            Order::Greater => {
                proof {
                    bytes::lemma_lex_total(a.1@, b.1@);
                    bytes::lemma_lex_irreflexive(a.1@);
                }
                false
            },
            Order::Equal => {
                proof {
                    bytes::lemma_lex_irreflexive(a.1@);
                }
                i < j
            },
        }
    }
}

spec fn listed(items: Seq<(u128, Vec<u8>)>, k: Seq<u8>) -> bool {
    exists|i: int| 0 <= i < items.len() && (#[trigger] items[i]).1@ == k
}

/// The items are exactly the repeated substrings, each once, with their scores.
spec fn candidates(m: Map<Seq<u8>, nat>, items: Seq<(u128, Vec<u8>)>) -> bool {
    &&& forall|i: int|
        0 <= i < items.len() ==> repeats(m, (#[trigger] items[i]).1@) && items[i].0 == score(m, items[i].1@)
    &&& forall|i: int, j: int| 0 <= i < j < items.len() ==> (#[trigger] items[i]).1@ != (#[trigger] items[j]).1@
    &&& forall|k: Seq<u8>| #[trigger] repeats(m, k) ==> listed(items, k)
}

/// All repeated substrings with their scores.
fn gather(counts: &ByteCounts) -> (items: Vec<(u128, Vec<u8>)>)
    requires
        counts.inv(),
        forall|k: Seq<u8>|
            #[trigger] counts.counts@.contains_key(k) ==> 8 <= k.len() <= 64 && counts.counts@[k] <= 0x1_0000_0000_0000_0000_0000_0000,
    ensures
        candidates(counts.counts@, items@),
{
    let ghost m = counts.counts@;
    let mut items: Vec<(u128, Vec<u8>)> = Vec::new();
    let mut b: usize = 0;
    while b < BUCKETS
        invariant
            counts.inv(),
            m == counts.counts@,
            forall|k: Seq<u8>|
                #[trigger] m.contains_key(k) ==> 8 <= k.len() <= 64 && m[k] <= 0x1_0000_0000_0000_0000_0000_0000,
            b <= BUCKETS,
            forall|i: int|
                0 <= i < items@.len() ==> repeats(m, (#[trigger] items@[i]).1@) && items@[i].0 == score(m, items@[i].1@)
                    && bucket_of(items@[i].1@) < b,
            forall|i: int, j: int| 0 <= i < j < items@.len() ==> (#[trigger] items@[i]).1@ != (#[trigger] items@[j]).1@,
            forall|k: Seq<u8>| #[trigger] repeats(m, k) && bucket_of(k) < b ==> listed(items@, k),
        decreases BUCKETS - b,
    {
        let bucket: &Vec<(Vec<u8>, u128)> = &counts.buckets[b];
        let mut x: usize = 0;
        while x < bucket.len()
            invariant
                counts.inv(),
                m == counts.counts@,
                forall|k: Seq<u8>|
                    #[trigger] m.contains_key(k) ==> 8 <= k.len() <= 64 && m[k] <= 0x1_0000_0000_0000_0000_0000_0000,
                b < BUCKETS,
                bucket@ == counts.buckets@[b as int]@,
                x <= bucket.len(),
                forall|i: int|
                    0 <= i < items@.len() ==> repeats(m, (#[trigger] items@[i]).1@) && items@[i].0 == score(m, items@[i].1@)
                        && (bucket_of(items@[i].1@) < b || in_bucket(bucket@.take(x as int), items@[i].1@)),
                forall|i: int, j: int| 0 <= i < j < items@.len() ==> (#[trigger] items@[i]).1@ != (#[trigger] items@[j]).1@,
                forall|k: Seq<u8>| #[trigger] repeats(m, k) && bucket_of(k) < b ==> listed(items@, k),
                forall|k: Seq<u8>| #[trigger] repeats(m, k) && in_bucket(bucket@.take(x as int), k) ==> listed(items@, k),
            decreases bucket.len() - x,
        {
            let ghost e = bucket@[x as int];
            let ghost before = items@;
            proof {
                assert(counts.buckets@[b as int]@[x as int] == e);
                assert(bucket_of(e.0@) == b && m.contains_key(e.0@) && m[e.0@] == e.1);
                assert forall|k: Seq<u8>| in_bucket(bucket@.take(x as int), k) implies #[trigger] in_bucket(
                    bucket@.take(x + 1),
                    k,
                ) by {
                    let y = choose|y: int| 0 <= y < bucket@.take(x as int).len() && (#[trigger] bucket@.take(x as int)[y]).0@ == k;
                    assert(bucket@.take(x + 1)[y].0@ == k);
                }
                assert forall|k: Seq<u8>| #[trigger] in_bucket(bucket@.take(x + 1), k) implies k == e.0@ || in_bucket(
                    bucket@.take(x as int),
                    k,
                ) by {
                    let y = choose|y: int| 0 <= y < bucket@.take(x + 1).len() && (#[trigger] bucket@.take(x + 1)[y]).0@ == k;
                    if y < x {
                        assert(bucket@.take(x as int)[y].0@ == k);
                    }
                }
                assert(!in_bucket(bucket@.take(x as int), e.0@)) by {
                    if in_bucket(bucket@.take(x as int), e.0@) {
                        let y = choose|y: int|
                            0 <= y < bucket@.take(x as int).len() && (#[trigger] bucket@.take(x as int)[y]).0@ == e.0@;
                        assert(counts.buckets@[b as int]@[y].0@ != counts.buckets@[b as int]@[x as int].0@);
                    }
                }
                assert(bucket@.take(x + 1)[x as int].0@ == e.0@);
                assert(in_bucket(bucket@.take(x + 1), e.0@));
            }
            let c: u128 = bucket[x].1;
            if c >= 2 {
                let l: u128 = bucket[x].0.len() as u128;
                proof {
                    assert((l - 4) * (c - 1) <= 60 * 0x1_0000_0000_0000_0000_0000_0000) by (nonlinear_arith)
                        requires
                            8 <= l <= 64,
                            2 <= c <= 0x1_0000_0000_0000_0000_0000_0000,
                    ;
                }
                let key = copy_bytes(bucket[x].0.as_slice());
                items.push(((l - 4) * (c - 1), key));
                proof {
                    assert(items@[before.len() as int].1@ == e.0@);
                    assert(listed(items@, e.0@));
                    assert forall|k: Seq<u8>| listed(before, k) implies #[trigger] listed(items@, k) by {
                        let i = choose|i: int| 0 <= i < before.len() && (#[trigger] before[i]).1@ == k;
                        assert(items@[i].1@ == k);
                    }
                    assert forall|i: int, j: int| 0 <= i < j < items@.len() implies (#[trigger] items@[i]).1@ != (
                    #[trigger] items@[j]).1@ by {
                        if j == before.len() {
                            assert(before[i].1@ != e.0@);
                        }
                    }
                }
            }
            x = x + 1;
        }
        proof {
            assert(bucket@.take(x as int) =~= bucket@);
            assert forall|i: int| 0 <= i < items@.len() implies bucket_of((#[trigger] items@[i]).1@) < b + 1 by {
                let k = items@[i].1@;
                if in_bucket(bucket@, k) {
                    let y = choose|y: int| 0 <= y < bucket@.len() && (#[trigger] bucket@[y]).0@ == k;
                    assert(counts.buckets@[b as int]@[y] == bucket@[y]);
                }
            }
            assert forall|k: Seq<u8>| #[trigger] repeats(m, k) && bucket_of(k) < b + 1 implies listed(items@, k) by {
                if bucket_of(k) == b {
                    assert(m.contains_key(k));
                    assert(in_bucket(counts.buckets@[bucket_of(k)]@, k));
                }
            }
        }
        b = b + 1;
    }
    items
}

/// The sampled substrings are of the counted lengths, and no count is out of bounds.
proof fn lemma_sampled(ws: Seq<Seq<u8>>)
    requires
        forall|i: int| 0 <= i < ws.len() ==> (#[trigger] ws[i]).len() <= u64::MAX,
    ensures
        forall|k: Seq<u8>|
            #[trigger] sampled(ws).contains_key(k) ==> 8 <= k.len() <= 64 && sampled(ws)[k]
                <= 0x1_0000_0000_0000_0000_0000_0000,
{
    let n: nat = if ws.len() < SAMPLE_WORDS { ws.len() } else { SAMPLE_WORDS as nat };
    let gs = sample(ws, n);
    let m = sampled(ws);
    lemma_sample_lengths(ws, n);
    lemma_counted_bound(gs);
    lemma_sample_len(ws, n);
    assert(n * (4 * u64::MAX) <= 100_000 * (4 * u64::MAX)) by (nonlinear_arith)
        requires
            n <= 100_000,
    ;
    assert forall|k: Seq<u8>| #[trigger] m.contains_key(k) implies 8 <= k.len() <= 64 && m[k]
        <= 0x1_0000_0000_0000_0000_0000_0000 by {
        lemma_counted_from(gs, k);
        let i = choose|i: int| 0 <= i < gs.len() && gs[i] == k;
        assert(8 <= gs[i].len() <= 64);
    }
}

/// The first candidates in rank order are the best ones.
proof fn lemma_selected(m: Map<Seq<u8>, nat>, r: &ByScore, order: Seq<usize>, ps: Seq<Seq<u8>>)
    requires
        candidates(m, r.items@),
        r.items@.len() <= usize::MAX,
        sort::ranks(r, order, 0, r.items@.len() as int),
        ps.len() <= order.len(),
        ps.len() <= MAX_PATTERNS,
        ps.len() < order.len() ==> ps.len() == MAX_PATTERNS,
        forall|a: int| 0 <= a < ps.len() ==> #[trigger] ps[a] == r.items@[order[a] as int].1@,
    ensures
        selects(m, ps),
{
    assert forall|a: int| 0 <= a < ps.len() implies repeats(m, #[trigger] ps[a]) by {
        assert(repeats(m, r.items@[order[a] as int].1@));
    }
    assert forall|a: int, b: int| 0 <= a < b < ps.len() implies better(m, #[trigger] ps[a], #[trigger] ps[b]) by {
        assert(r.precedes(order[a] as int, order[b] as int));
        r.ranking_is_total(order[a] as int, order[a] as int);
        lemma_better(m, r, order[a] as int, order[b] as int);
    }
    assert forall|k: Seq<u8>| #[trigger] repeats(m, k) && !ps.contains(k) implies ps.len() == MAX_PATTERNS
        && forall|a: int| 0 <= a < ps.len() ==> better(m, #[trigger] ps[a], k) by {
        assert(listed(r.items@, k));
        let x = choose|x: int| 0 <= x < r.items@.len() && (#[trigger] r.items@[x]).1@ == k;
        assert(order.contains(x as usize));
        let y = choose|y: int| 0 <= y < order.len() && order[y] == x as usize;
        if y < ps.len() {
            assert(ps[y] == k);
            assert(ps.contains(k));
        }
        assert forall|a: int| 0 <= a < ps.len() implies better(m, #[trigger] ps[a], k) by {
            assert(r.precedes(order[a] as int, order[y] as int));
            r.ranking_is_total(order[a] as int, order[a] as int);
            lemma_better(m, r, order[a] as int, order[y] as int);
        }
    }
}

/// Choose the patterns for a list of words.
pub fn build_patterns(words: &Vec<Vec<u8>>) -> (patterns: Vec<Vec<u8>>)
    ensures
        selects(sampled(texts(words@)), texts(patterns@)),
{
    let counts = count_grams(words);
    let ghost m = counts.counts@;
    proof {
        let ws = texts(words@);
        assert forall|k: int| 0 <= k < ws.len() implies (#[trigger] ws[k]).len() <= u64::MAX by {
            assert(words@[k]@.len() == words@[k].len());
        }
        lemma_sampled(ws);
    }
    let items = gather(&counts);
    let ranking = ByScore { items: &items };
    let order = sort::sort_indices(&ranking, items.len());
    let n: usize = if order.len() < MAX_PATTERNS { order.len() } else { MAX_PATTERNS };
    let mut patterns: Vec<Vec<u8>> = Vec::with_capacity(n);
    let mut i: usize = 0;
    while i < n
        invariant
            i <= n,
            n <= order.len(),
            forall|a: int| 0 <= a < order@.len() ==> 0 <= #[trigger] order@[a] < items@.len(),
            patterns@.len() == i,
            forall|a: int| 0 <= a < i ==> (#[trigger] patterns@[a])@ == items@[order@[a] as int].1@,
        decreases n - i,
    {
        patterns.push(copy_bytes(items[order[i]].1.as_slice()));
        i = i + 1;
    }
    proof {
        let ps = texts(patterns@);
        assert forall|a: int| 0 <= a < ps.len() implies #[trigger] ps[a] == items@[order@[a] as int].1@ by {
            assert(ps[a] == patterns@[a]@);
        }
        assert(items@.len() == items.len());
        lemma_selected(m, &ranking, order@, ps);
    }
    patterns
}

/// What ranks before is better.
proof fn lemma_better(m: Map<Seq<u8>, nat>, r: &ByScore, i: int, j: int)
    requires
        candidates(m, r.items@),
        0 <= i < r.items@.len(),
        0 <= j < r.items@.len(),
        i != j,
        r.precedes(i, j),
    ensures
        better(m, r.items@[i].1@, r.items@[j].1@),
{
    if i < j {
        assert(r.items@[i].1@ != r.items@[j].1@);
    } else {
        assert(r.items@[j].1@ != r.items@[i].1@);
    }
}

/// Of two different substrings exactly one is better.
proof fn lemma_better_total(m: Map<Seq<u8>, nat>, a: Seq<u8>, b: Seq<u8>)
    ensures
        a != b ==> better(m, a, b) || better(m, b, a),
        !(better(m, a, b) && better(m, b, a)),
{
    bytes::lemma_lex_total(a, b);
    bytes::lemma_lex_irreflexive(a);
}

proof fn lemma_same_choice(m: Map<Seq<u8>, nat>, ps: Seq<Seq<u8>>, qs: Seq<Seq<u8>>, n: int)
    requires
        selects(m, ps),
        selects(m, qs),
        0 <= n <= ps.len(),
    ensures
        n <= qs.len(),
        forall|i: int| 0 <= i < n ==> #[trigger] ps[i] == qs[i],
    decreases n,
{
    if n > 0 {
        let i = n - 1;
        lemma_same_choice(m, ps, qs, i);
        assert(repeats(m, ps[i]));
        lemma_better_total(m, ps[i], ps[i]);
        if i == qs.len() || ps[i] != qs[i] {
            if qs.contains(ps[i]) {
                let j = choose|j: int| 0 <= j < qs.len() && qs[j] == ps[i];
                if j < i {
                    assert(ps[j] == qs[j]);
                    assert(better(m, ps[j], ps[i]));
                } else {
                    assert(better(m, qs[i], qs[j]));
                    lemma_not_behind(m, ps, qs, i);
                }
            } else {
                // Everything chosen is better, and there are as many as can be.
                assert(qs.len() == MAX_PATTERNS);
                assert(better(m, qs[i], ps[i]));
                lemma_not_behind(m, ps, qs, i);
            }
        }
    }
}

/// Where two choices part, neither is the better one.
proof fn lemma_not_behind(m: Map<Seq<u8>, nat>, ps: Seq<Seq<u8>>, qs: Seq<Seq<u8>>, i: int)
    requires
        selects(m, ps),
        selects(m, qs),
        0 <= i < ps.len(),
        i < qs.len(),
        forall|k: int| 0 <= k < i ==> #[trigger] ps[k] == qs[k],
    ensures
        !better(m, qs[i], ps[i]),
{
    let q = qs[i];
    assert(repeats(m, q));
    lemma_better_total(m, q, q);
    lemma_better_total(m, q, ps[i]);
    if ps.contains(q) {
        let j = choose|j: int| 0 <= j < ps.len() && ps[j] == q;
        if j < i {
            assert(ps[j] == qs[j]);
            assert(better(m, qs[j], qs[i]));
        } else if j > i {
            assert(better(m, ps[i], ps[j]));
        }
    } else {
        assert(better(m, ps[i], q));
    }
}

/// There is only one choice of patterns.
pub proof fn law_choice_is_unique(m: Map<Seq<u8>, nat>, ps: Seq<Seq<u8>>, qs: Seq<Seq<u8>>)
    requires
        selects(m, ps),
        selects(m, qs),
    ensures
        ps == qs,
{
    lemma_same_choice(m, ps, qs, ps.len() as int);
    lemma_same_choice(m, qs, ps, qs.len() as int);
    assert(ps =~= qs);
}

} // verus!
