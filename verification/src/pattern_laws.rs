//! Which substrings become patterns, and how words are covered with them.

use vstd::prelude::*;

use crate::bytes;
use crate::coder;
use crate::ngrams;
use crate::seg_writer;

verus! {

// ------------------------------------------------------------------ counting

/// Number of the first `n` places of `w` where `k` stands.
pub open spec fn places(w: Seq<u8>, k: Seq<u8>, n: nat) -> nat
    decreases n,
{
    if n == 0 {
        0
    } else {
        let p = n - 1;
        places(w, k, p as nat) + if p + k.len() <= w.len() && w.subrange(p, p + k.len()) == k { 1nat } else { 0nat }
    }
}

/// How often a map counts `k`.
pub open spec fn count_in(m: Map<Seq<u8>, nat>, k: Seq<u8>) -> nat {
    if m.contains_key(k) { m[k] } else { 0 }
}

/// How often `k` is in a list.
spec fn times(gs: Seq<Seq<u8>>, k: Seq<u8>) -> nat
    decreases gs.len(),
{
    if gs.len() == 0 {
        0
    } else {
        times(gs.drop_last(), k) + if gs.last() == k { 1nat } else { 0nat }
    }
}

proof fn lemma_times_add(a: Seq<Seq<u8>>, b: Seq<Seq<u8>>, k: Seq<u8>)
    ensures
        times(a + b, k) == times(a, k) + times(b, k),
    decreases b.len(),
{
    if b.len() == 0 {
        assert(a + b =~= a);
    } else {
        assert((a + b).drop_last() =~= a + b.drop_last());
        assert((a + b).last() == b.last());
        lemma_times_add(a, b.drop_last(), k);
    }
}

proof fn lemma_counted_finite(gs: Seq<Seq<u8>>)
    ensures
        ngrams::counted(gs).dom().finite(),
        gs.len() > 0 ==> ngrams::counted(gs.drop_last()).dom().len() <= ngrams::counted(gs).dom().len(),
    decreases gs.len(),
{
    if gs.len() > 0 {
        lemma_counted_finite(gs.drop_last());
        let m = ngrams::counted(gs.drop_last());
        let g = gs.last();
        if m.contains_key(g) {
            assert(m.insert(g, m[g] + 1).dom() =~= m.dom());
        } else {
            assert(m.insert(g, 1).dom() =~= m.dom().insert(g));
        }
    }
}

/// While there is room every occurrence counts.
proof fn lemma_counted(gs: Seq<Seq<u8>>, k: Seq<u8>)
    requires
        ngrams::counted(gs).dom().len() < 3_000_000,
    ensures
        count_in(ngrams::counted(gs), k) == times(gs, k),
    decreases gs.len(),
{
    if gs.len() > 0 {
        lemma_counted_finite(gs);
        lemma_counted(gs.drop_last(), k);
    }
}

proof fn lemma_times_grams(w: Seq<u8>, l: nat, k: Seq<u8>, n: nat)
    requires
        l > 0,
        n <= ngrams::grams_of(w, l).len(),
    ensures
        times(ngrams::grams_of(w, l).take(n as int), k) == if k.len() == l { places(w, k, n) } else { 0 },
    decreases n,
{
    let gs = ngrams::grams_of(w, l);
    if n > 0 {
        lemma_times_grams(w, l, k, (n - 1) as nat);
        assert(gs.take(n as int).drop_last() =~= gs.take(n - 1));
        let p = n - 1;
        assert(gs.take(n as int).last() == w.subrange(p, p + l));
        assert(w.subrange(p, p + l).len() == l);
    } else {
        assert(gs.take(0).len() == 0);
    }
}

/// Past the end nothing stands.
proof fn lemma_places_end(w: Seq<u8>, k: Seq<u8>, a: nat, b: nat)
    requires
        a <= b,
        a + k.len() > w.len(),
    ensures
        places(w, k, a) == places(w, k, b),
    decreases b,
{
    if a < b {
        lemma_places_end(w, k, a, (b - 1) as nat);
    }
}

proof fn lemma_times_length(w: Seq<u8>, l: nat, k: Seq<u8>)
    requires
        l > 0,
    ensures
        times(ngrams::grams_of(w, l), k) == if k.len() == l { places(w, k, w.len()) } else { 0 },
{
    let gs = ngrams::grams_of(w, l);
    lemma_times_grams(w, l, k, gs.len());
    assert(gs.take(gs.len() as int) =~= gs);
    if k.len() == l {
        lemma_places_end(w, k, gs.len(), w.len());
    }
}

/// How often each substring is counted. Every word among the first hundred thousand adds
/// to a substring of 8, 16, 32 or 64 bytes the number of places where it stands in the
/// word, and to no other, as long as fewer than three million substrings are counted; later
/// words add nothing.
pub proof fn law_substrings_are_counted(ws: Seq<Seq<u8>>, w: Seq<u8>, k: Seq<u8>)
    ensures
        count_in(ngrams::sampled(Seq::empty()), k) == 0,
        ws.len() >= 100_000 ==> ngrams::sampled(ws.push(w)) == ngrams::sampled(ws),
        ws.len() < 100_000 && ngrams::sampled(ws.push(w)).dom().len() < 3_000_000 ==> count_in(
            ngrams::sampled(ws.push(w)),
            k,
        ) == count_in(ngrams::sampled(ws), k) + if k.len() == 8 || k.len() == 16 || k.len() == 32 || k.len() == 64 {
            places(w, k, w.len())
        } else {
            0
        },
{
    let more = ws.push(w);
    let n = ws.len();
    assert(ngrams::sample(Seq::empty(), 0) =~= Seq::empty());
    if n >= 100_000 {
        lemma_sample_prefix(ws, more, 100_000);
    } else {
        lemma_sample_prefix(ws, more, n);
        let a = ngrams::sample(ws, n);
        let b = ngrams::sample(more, n + 1);
        assert(more[n as int] == w);
        assert(b == a + ngrams::grams(w));
        if ngrams::counted(b).dom().len() < 3_000_000 {
            lemma_room_before(a, ngrams::grams(w));
            lemma_counted(b, k);
            lemma_counted(a, k);
            lemma_times_add(a, ngrams::grams(w), k);
            let (g64, g32, g16, g8) = (
                ngrams::grams_of(w, 64),
                ngrams::grams_of(w, 32),
                ngrams::grams_of(w, 16),
                ngrams::grams_of(w, 8),
            );
            lemma_times_add(g64 + g32 + g16, g8, k);
            lemma_times_add(g64 + g32, g16, k);
            lemma_times_add(g64, g32, k);
            lemma_times_length(w, 64, k);
            lemma_times_length(w, 32, k);
            lemma_times_length(w, 16, k);
            lemma_times_length(w, 8, k);
        }
    }
}

proof fn lemma_room_before(a: Seq<Seq<u8>>, b: Seq<Seq<u8>>)
    ensures
        ngrams::counted(a).dom().len() <= ngrams::counted(a + b).dom().len(),
    decreases b.len(),
{
    if b.len() == 0 {
        assert(a + b =~= a);
    } else {
        assert((a + b).drop_last() =~= a + b.drop_last());
        lemma_counted_finite(a + b);
        lemma_room_before(a, b.drop_last());
    }
}

proof fn lemma_sample_prefix(a: Seq<Seq<u8>>, b: Seq<Seq<u8>>, n: nat)
    requires
        n <= a.len(),
        n <= b.len(),
        forall|i: int| 0 <= i < n ==> #[trigger] a[i] == b[i],
    ensures
        ngrams::sample(a, n) == ngrams::sample(b, n),
    decreases n,
{
    if n > 0 {
        lemma_sample_prefix(a, b, (n - 1) as nat);
        assert(a[n - 1] == b[n - 1]);
    }
}

// ------------------------------------------------------------------ choosing

/// Bytes that a substring saves as a pattern: its length without the four bytes that a use
/// costs, for every use but the first.
pub open spec fn saves(m: Map<Seq<u8>, nat>, k: Seq<u8>) -> int {
    (k.len() - 4) * (count_in(m, k) - 1)
}

/// `a` saves more bytes than `b`, or as many and comes before it in byte order.
pub open spec fn saves_more(m: Map<Seq<u8>, nat>, a: Seq<u8>, b: Seq<u8>) -> bool {
    saves(m, a) > saves(m, b) || (saves(m, a) == saves(m, b) && bytes::lex_lt(a, b))
}

/// The patterns of a compressed file are the repeated substrings that save most, best first.
/// Each is counted at least twice, none is there twice, and there are at most 8192. A
/// repeated substring is left out only if there are 8192 others that are all better.
pub proof fn law_best_substrings_become_patterns(ws: Seq<Seq<u8>>, ps: Seq<Seq<u8>>)
    requires
        seg_writer::pattern_choice(ws, true, ps),
    ensures
        ({
            let m = ngrams::sampled(ws);
            &&& ps.len() <= 8192
            &&& ps.no_duplicates()
            &&& forall|i: int| 0 <= i < ps.len() ==> count_in(m, #[trigger] ps[i]) >= 2
            &&& forall|i: int, j: int| 0 <= i < j < ps.len() ==> saves_more(m, #[trigger] ps[i], #[trigger] ps[j])
            &&& forall|k: Seq<u8>|
                #[trigger] count_in(m, k) >= 2 && !ps.contains(k) ==> ps.len() == 8192 && forall|i: int|
                    0 <= i < ps.len() ==> saves_more(m, #[trigger] ps[i], k)
        }),
{
    let m = ngrams::sampled(ws);
    assert forall|i: int| 0 <= i < ps.len() implies count_in(m, #[trigger] ps[i]) >= 2 && count_in(m, ps[i]) == m[ps[i]] by {
        assert(ngrams::repeats(m, ps[i]));
    }
    assert forall|i: int, j: int| 0 <= i < ps.len() && 0 <= j < ps.len() && i != j implies ps[i] != ps[j] by {
        bytes::lemma_lex_irreflexive(ps[i]);
        if i < j {
            assert(ngrams::better(m, ps[i], ps[j]));
        } else {
            assert(ngrams::better(m, ps[j], ps[i]));
        }
    }
    assert forall|i: int, j: int| 0 <= i < j < ps.len() implies saves_more(m, #[trigger] ps[i], #[trigger] ps[j]) by {
        assert(ngrams::better(m, ps[i], ps[j]));
        assert(count_in(m, ps[i]) == m[ps[i]] && count_in(m, ps[j]) == m[ps[j]]);
    }
    assert forall|k: Seq<u8>| #[trigger] count_in(m, k) >= 2 && !ps.contains(k) implies ps.len() == 8192 && forall|i: int|
        0 <= i < ps.len() ==> saves_more(m, #[trigger] ps[i], k) by {
        assert(ngrams::repeats(m, k));
        assert forall|i: int| 0 <= i < ps.len() implies saves_more(m, #[trigger] ps[i], k) by {
            assert(ngrams::better(m, ps[i], k));
            assert(count_in(m, ps[i]) == m[ps[i]]);
        }
    }
}

/// A file that is not compressed has no patterns.
pub proof fn law_plain_files_have_no_patterns(ws: Seq<Seq<u8>>, ps: Seq<Seq<u8>>)
    requires
        seg_writer::pattern_choice(ws, false, ps),
    ensures
        ps.len() == 0,
{
}

// ------------------------------------------------------------------ covering

/// `p` is not empty and stands in `w` at `i`.
pub open spec fn stands_at(p: Seq<u8>, w: Seq<u8>, i: int) -> bool {
    0 < p.len() && i + p.len() <= w.len() && w.subrange(i, i + p.len()) == p
}

proof fn lemma_longest(patterns: Seq<Seq<u8>>, n: nat, w: Seq<u8>, i: int)
    requires
        n <= patterns.len(),
        0 <= i,
    ensures
        match coder::longest_match(patterns, n, w, i) {
            Some(k) => k < n && stands_at(patterns[k as int], w, i) && forall|x: int|
                0 <= x < n && stands_at(#[trigger] patterns[x], w, i) ==> patterns[x].len() <= patterns[k as int].len(),
            None => forall|x: int| 0 <= x < n ==> !stands_at(#[trigger] patterns[x], w, i),
        },
    decreases n,
{
    if n > 0 {
        lemma_longest(patterns, (n - 1) as nat, w, i);
    }
}

/// How a word is covered with patterns, from `i` on: where a pattern stands, the longest
/// one is used, and the cover goes on behind it; where none stands, it goes on at the next
/// byte.
pub proof fn law_cover_takes_the_longest(patterns: Seq<Seq<u8>>, w: Seq<u8>, i: int)
    requires
        0 <= i,
    ensures
        i >= w.len() ==> coder::cover_from(patterns, w, i).len() == 0,
        i < w.len() && (forall|x: int| 0 <= x < patterns.len() ==> !stands_at(#[trigger] patterns[x], w, i)) ==> coder::cover_from(
            patterns,
            w,
            i,
        ) == coder::cover_from(patterns, w, i + 1),
        i < w.len() && (exists|x: int| 0 <= x < patterns.len() && stands_at(#[trigger] patterns[x], w, i)) ==> {
            let c = coder::cover_from(patterns, w, i);
            &&& c.len() > 0
            &&& c[0].0 == i
            &&& c[0].1 < patterns.len()
            &&& stands_at(patterns[c[0].1 as int], w, i)
            &&& forall|x: int|
                0 <= x < patterns.len() && stands_at(#[trigger] patterns[x], w, i) ==> patterns[x].len()
                    <= patterns[c[0].1 as int].len()
            &&& c.drop_first() == coder::cover_from(patterns, w, i + patterns[c[0].1 as int].len())
        },
        coder::cover(patterns, w) == coder::cover_from(patterns, w, 0),
{
    if i < w.len() {
        lemma_longest(patterns, patterns.len(), w, i);
        if let Some(k) = coder::longest_match(patterns, patterns.len(), w, i) {
            assert(stands_at(patterns[k as int], w, i));
            let c = coder::cover_from(patterns, w, i);
            assert(c.drop_first() =~= coder::cover_from(patterns, w, i + patterns[k as int].len()));
        }
    }
}

// ------------------------------------------------------------------ counting positions

/// The uses of position `p` in a list of positions with their uses.
pub open spec fn uses_of(pairs: Seq<(u64, u64)>, p: u64) -> nat
    decreases pairs.len(),
{
    if pairs.len() == 0 {
        0
    } else {
        uses_of(pairs.drop_first(), p) + if pairs[0].0 == p { pairs[0].1 as nat } else { 0 }
    }
}

/// How often `p` is in a list.
pub open spec fn occurrences(positions: Seq<u64>, p: u64) -> nat
    decreases positions.len(),
{
    if positions.len() == 0 {
        0
    } else {
        occurrences(positions.drop_last(), p) + if positions.last() == p { 1nat } else { 0nat }
    }
}

/// The positions of a list increase, and none has more than `most` uses or none.
spec fn ascending(pairs: Seq<(u64, u64)>, most: nat) -> bool {
    &&& forall|i: int, j: int| 0 <= i < j < pairs.len() ==> (#[trigger] pairs[i]).0 < (#[trigger] pairs[j]).0
    &&& forall|i: int| 0 <= i < pairs.len() ==> 0 < (#[trigger] pairs[i]).1 <= most
}

proof fn lemma_bump(pairs: Seq<(u64, u64)>, p: u64, q: u64, most: nat)
    requires
        ascending(pairs, most),
        most < u64::MAX,
    ensures
        ascending(coder::bump(pairs, p), most + 1),
        forall|i: int|
            0 <= i < coder::bump(pairs, p).len() ==> (#[trigger] coder::bump(pairs, p)[i]).0 == p || exists|j: int|
                0 <= j < pairs.len() && (#[trigger] pairs[j]).0 == coder::bump(pairs, p)[i].0,
        uses_of(coder::bump(pairs, p), q) == uses_of(pairs, q) + if p == q { 1nat } else { 0nat },
    decreases pairs.len(),
{
    let b = coder::bump(pairs, p);
    if pairs.len() == 0 || p < pairs[0].0 {
        assert(b.drop_first() =~= pairs);
        assert forall|i: int| 0 <= i < b.len() implies (#[trigger] b[i]).0 == p || exists|j: int|
            0 <= j < pairs.len() && (#[trigger] pairs[j]).0 == b[i].0 by {
            if i > 0 {
                assert(pairs[i - 1].0 == b[i].0);
            }
        }
        assert forall|i: int, j: int| 0 <= i < j < b.len() implies (#[trigger] b[i]).0 < (#[trigger] b[j]).0 by {
            assert(b[j] == pairs[j - 1]);
            if i > 0 {
                assert(b[i] == pairs[i - 1]);
            } else if j > 1 {
                assert(pairs[0].0 < pairs[j - 1].0);
            }
        }
        assert forall|i: int| 0 <= i < b.len() implies 0 < (#[trigger] b[i]).1 <= most + 1 by {
            if i > 0 {
                assert(b[i] == pairs[i - 1]);
            }
        }
    } else {
        let d = pairs.drop_first();
        assert forall|i: int, j: int| 0 <= i < j < d.len() implies (#[trigger] d[i]).0 < (#[trigger] d[j]).0 by {
            assert(d[i] == pairs[i + 1] && d[j] == pairs[j + 1]);
        }
        assert forall|i: int| 0 <= i < d.len() implies 0 < (#[trigger] d[i]).1 <= most by {
            assert(d[i] == pairs[i + 1]);
        }
        let rest = if p == pairs[0].0 { d } else { coder::bump(d, p) };
        if p != pairs[0].0 {
            lemma_bump(d, p, q, most);
        }
        assert(b.drop_first() =~= rest);
        assert(b[0].0 == pairs[0].0);
        assert forall|i: int| 0 <= i < rest.len() implies (#[trigger] rest[i]).0 > pairs[0].0 && 0 < rest[i].1 <= most + 1 && (
        rest[i].0 == p || exists|j: int| 0 <= j < pairs.len() && (#[trigger] pairs[j]).0 == rest[i].0) by {
            if p == pairs[0].0 {
                assert(rest[i] == pairs[i + 1]);
            } else if rest[i].0 != p {
                let j = choose|j: int| 0 <= j < d.len() && (#[trigger] d[j]).0 == rest[i].0;
                assert(pairs[j + 1].0 == rest[i].0);
            }
        }
        assert forall|i: int| 0 <= i < b.len() implies 0 < (#[trigger] b[i]).1 <= most + 1 && (b[i].0 == p || exists|j: int|
            0 <= j < pairs.len() && (#[trigger] pairs[j]).0 == b[i].0) by {
            if i > 0 {
                assert(b[i] == rest[i - 1]);
            } else {
                assert(0 < pairs[0].1 <= most);
            }
        }
        assert forall|i: int, j: int| 0 <= i < j < b.len() implies (#[trigger] b[i]).0 < (#[trigger] b[j]).0 by {
            assert(b[j] == rest[j - 1]);
            if i > 0 {
                assert(b[i] == rest[i - 1]);
            }
        }
    }
}

/// Positions are counted: each one that is used is listed once, with the number of its uses,
/// in increasing order.
pub proof fn law_positions_are_counted(positions: Seq<u64>, p: u64)
    requires
        positions.len() <= u64::MAX,
    ensures
        ({
            let pairs = coder::tally(positions);
            &&& uses_of(pairs, p) == occurrences(positions, p)
            &&& forall|i: int, j: int| 0 <= i < j < pairs.len() ==> (#[trigger] pairs[i]).0 < (#[trigger] pairs[j]).0
            &&& forall|i: int| 0 <= i < pairs.len() ==> (#[trigger] pairs[i]).1 > 0
        }),
    decreases positions.len(),
{
    lemma_tally(positions, p);
}

proof fn lemma_tally(positions: Seq<u64>, p: u64)
    requires
        positions.len() <= u64::MAX,
    ensures
        uses_of(coder::tally(positions), p) == occurrences(positions, p),
        ascending(coder::tally(positions), positions.len()),
    decreases positions.len(),
{
    if positions.len() > 0 {
        let d = positions.drop_last();
        lemma_tally(d, p);
        lemma_bump(coder::tally(d), positions.last(), p, d.len());
    }
}

/// What a word needs codes for: its length plus one, the end of its patterns, and, for each
/// pattern, how far it starts behind the start of the one before, plus one.
pub proof fn law_positions_of_a_word(w: Seq<u8>, c: Seq<(int, nat)>, i: int)
    requires
        0 <= i < c.len(),
        w.len() < u64::MAX,
    ensures
        ({
            let ps = coder::word_positions(w, c);
            &&& ps.len() == c.len() + 2
            &&& ps[0] == w.len() + 1
            &&& ps[1] == 0
            &&& ps[2 + i] == if i == 0 { c[0].0 + 1 } else { c[i].0 - c[i - 1].0 + 1 } as u64
        }),
{
    lemma_distances(c, 0, i);
}

proof fn lemma_distances(c: Seq<(int, nat)>, at: int, i: int)
    requires
        0 <= i < c.len(),
    ensures
        coder::distances(c, at).len() == c.len(),
        coder::distances(c, at)[i] == if i == 0 { c[0].0 - at + 1 } else { c[i].0 - c[i - 1].0 + 1 } as u64,
    decreases c.len(),
{
    let d = c.drop_first();
    if c.len() > 1 {
        lemma_distances(d, c[0].0, if i > 0 { i - 1 } else { 0 });
    } else {
        assert(coder::distances(d, c[0].0).len() == 0);
    }
}

} // verus!
