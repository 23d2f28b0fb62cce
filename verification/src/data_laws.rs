//! How words stand in a written data file.

use vstd::prelude::*;

use crate::bitwriter;
use crate::coder;
use crate::pattern_laws;
use crate::pattern_laws::stands_at;
use crate::roundtrip;

verus! {

/// The bytes of a word that no pattern of its cover from `i` on stands for.
pub open spec fn left_over(patterns: Seq<Seq<u8>>, w: Seq<u8>, i: int) -> Seq<u8> {
    coder::literals(patterns, w, coder::cover_from(patterns, w, i), i)
}

/// What is left over of a word: each byte at which no pattern stands and that no pattern
/// before it covers. A pattern that stands at a byte covers it, and as many as the longest of
/// those that stand there has.
pub proof fn law_left_over_bytes(patterns: Seq<Seq<u8>>, w: Seq<u8>, i: int)
    requires
        0 <= i,
    ensures
        i >= w.len() ==> left_over(patterns, w, i).len() == 0,
        i < w.len() && (forall|x: int| 0 <= x < patterns.len() ==> !stands_at(#[trigger] patterns[x], w, i)) ==> left_over(
            patterns,
            w,
            i,
        ) == seq![w[i]] + left_over(patterns, w, i + 1),
        i < w.len() && (exists|x: int| 0 <= x < patterns.len() && stands_at(#[trigger] patterns[x], w, i)) ==> exists|x: int|
            0 <= x < patterns.len() && stands_at(#[trigger] patterns[x], w, i) && (forall|y: int|
                0 <= y < patterns.len() && stands_at(#[trigger] patterns[y], w, i) ==> patterns[y].len() <= patterns[x].len())
                && left_over(patterns, w, i) == left_over(patterns, w, i + patterns[x].len()),
{
    pattern_laws::law_cover_takes_the_longest(patterns, w, i);
    if i < w.len() {
        let c = coder::cover_from(patterns, w, i);
        if exists|x: int| 0 <= x < patterns.len() && stands_at(#[trigger] patterns[x], w, i) {
            let k = c[0].1 as int;
            assert(stands_at(patterns[k], w, i));
            assert(left_over(patterns, w, i) =~= left_over(patterns, w, i + patterns[k].len()));
        } else {
            coder::lemma_cover_from(patterns, w, i + 1, i + 1);
            if c.len() == 0 {
                assert(w.skip(i) =~= seq![w[i]] + if i + 1 < w.len() { w.skip(i + 1) } else { Seq::empty() });
            } else {
                let start = c[0].0;
                assert(i + 1 <= start <= w.len());
                let rest = coder::literals(patterns, w, c.drop_first(), start + patterns[c[0].1 as int].len());
                assert(w.subrange(i, start) =~= seq![w[i]] + if start > i + 1 { w.subrange(i + 1, start) } else { Seq::empty() });
                assert(left_over(patterns, w, i) =~= w.subrange(i, start) + rest);
                assert(left_over(patterns, w, i) =~= seq![w[i]] + left_over(patterns, w, i + 1));
            }
        }
    }
}

/// A word stands in a written file as its codes, filled up to whole bytes, and then what its
/// patterns leave over of it.
pub proof fn law_words_are_stored(ws: Seq<Seq<u8>>, patterns: Seq<Seq<u8>>, i: nat)
    requires
        i < ws.len(),
    ensures
        coder::word_offset(ws, patterns, 0) == 0,
        exists|b: Seq<bool>| #[trigger]
            stored(
                roundtrip::written_model(ws, patterns).words,
                coder::word_offset(ws, patterns, i),
                coder::word_offset(ws, patterns, i + 1),
                b,
                left_over(patterns, ws[i as int], 0),
            ),
{
    let cs = coder::codes_for(ws, patterns);
    let w = ws[i as int];
    let m = roundtrip::written_model(ws, patterns);
    let c = coder::cover(patterns, w);
    roundtrip::lemma_stream_prefix(cs, ws, i, ws.len());
    let b = coder::word_bits(cs, w, c);
    let a = coder::stream(cs, ws, i);
    let word = coder::word_bytes(cs, w, c);
    assert(coder::stream(cs, ws, i + 1) =~= a + word);
    let (packed, rest) = (bitwriter::pack(b), left_over(patterns, w, 0));
    let at = a.len() as int;
    let n = packed.len() as int;
    assert(word == packed + rest);
    assert(n == (b.len() + 7) / 8);
    assert(m.words.subrange(at, at + n) =~= packed);
    assert(m.words.subrange(at + n, at + n + rest.len()) =~= rest);
    assert(stored(
        m.words,
        coder::word_offset(ws, patterns, i),
        coder::word_offset(ws, patterns, i + 1),
        b,
        left_over(patterns, w, 0),
    ));
}

/// From `at` to `next` there are these bits, in as few bytes as hold them, and these bytes.
pub open spec fn stored(words: Seq<u8>, at: int, next: int, b: Seq<bool>, rest: Seq<u8>) -> bool {
    let n = (b.len() + 7) / 8;
    &&& 0 <= at
    &&& next == at + n + rest.len()
    &&& next <= words.len()
    &&& words.subrange(at, at + n) == bitwriter::pack(b)
    &&& words.subrange(at + n, next) == rest
}

/// Number of empty words.
pub proof fn law_empty_words_are_counted(ws: Seq<Seq<u8>>, w: Seq<u8>)
    ensures
        coder::empty_words(Seq::empty(), 0) == 0,
        coder::empty_words(ws.push(w), ws.len() + 1) == coder::empty_words(ws, ws.len()) + if w.len() == 0 { 1nat } else { 0nat },
{
    lemma_empty_same(ws, ws.push(w), ws.len());
}

proof fn lemma_empty_same(a: Seq<Seq<u8>>, b: Seq<Seq<u8>>, n: nat)
    requires
        forall|i: int| 0 <= i < n ==> #[trigger] a[i] == b[i],
    ensures
        coder::empty_words(a, n) == coder::empty_words(b, n),
    decreases n,
{
    if n > 0 {
        lemma_empty_same(a, b, (n - 1) as nat);
        assert(a[n - 1] == b[n - 1]);
    }
}

/// Some word is covered with pattern `k`.
pub open spec fn in_use(ws: Seq<Seq<u8>>, patterns: Seq<Seq<u8>>, k: nat) -> bool {
    exists|i: int, j: int|
        0 <= i < ws.len() && 0 <= j < coder::cover(patterns, ws[i]).len() && #[trigger] coder::cover(patterns, ws[i])[j].1 == k
}

/// A file has exactly those patterns that cover part of a word.
pub proof fn law_used_patterns_are_written(ws: Seq<Seq<u8>>, patterns: Seq<Seq<u8>>, k: nat)
    requires
        k < patterns.len(),
    ensures
        coder::codes_for(ws, patterns).used.contains(k) == in_use(ws, patterns, k),
{
    let n = patterns.len();
    let used = coder::used_patterns(ws, patterns, n);
    if in_use(ws, patterns, k) {
        let (i, j) = choose|i: int, j: int|
            0 <= i < ws.len() && 0 <= j < coder::cover(patterns, ws[i]).len() && #[trigger] coder::cover(patterns, ws[i])[j].1
                == k;
        roundtrip::lemma_cover_uses(coder::cover(patterns, ws[i]), j);
        roundtrip::lemma_pattern_uses(ws, patterns, ws.len(), i, k);
        roundtrip::lemma_used(ws, patterns, n, k);
    }
    if used.contains(k) {
        lemma_used_is_used(ws, patterns, n, k);
        lemma_uses_are_there(ws, patterns, ws.len(), k);
    }
}

proof fn lemma_used_is_used(ws: Seq<Seq<u8>>, patterns: Seq<Seq<u8>>, n: nat, k: nat)
    requires
        coder::used_patterns(ws, patterns, n).contains(k),
    ensures
        coder::pattern_uses(ws, patterns, ws.len(), k) > 0,
    decreases n,
{
    let u = coder::used_patterns(ws, patterns, n);
    let i = choose|i: int| 0 <= i < u.len() && u[i] == k;
    if n > 0 {
        let s = coder::used_patterns(ws, patterns, (n - 1) as nat);
        if i < s.len() {
            assert(s[i] == k);
            lemma_used_is_used(ws, patterns, (n - 1) as nat, k);
        }
    }
}

proof fn lemma_uses_are_there(ws: Seq<Seq<u8>>, patterns: Seq<Seq<u8>>, n: nat, k: nat)
    requires
        n <= ws.len(),
        coder::pattern_uses(ws, patterns, n, k) > 0,
    ensures
        in_use(ws, patterns, k),
    decreases n,
{
    let c = coder::cover(patterns, ws[n - 1]);
    if coder::cover_uses(c, k) > 0 {
        let j = lemma_use_in(c, k);
        assert(coder::cover(patterns, ws[n - 1])[j].1 == k);
    } else {
        lemma_uses_are_there(ws, patterns, (n - 1) as nat, k);
    }
}

proof fn lemma_use_in(c: Seq<(int, nat)>, k: nat) -> (j: int)
    requires
        coder::cover_uses(c, k) > 0,
    ensures
        0 <= j < c.len(),
        c[j].1 == k,
    decreases c.len(),
{
    if c.last().1 == k {
        c.len() - 1
    } else {
        lemma_use_in(c.drop_last(), k)
    }
}

} // verus!
