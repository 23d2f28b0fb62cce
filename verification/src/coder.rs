//! How words are written into a seg file.
//!
//! A file is determined by its words and by the patterns that may cover parts of them.
//! [`seg_bytes`] is that file.

use vstd::prelude::*;

use crate::bitwriter;
use crate::bytes;
use crate::code;
use crate::code::Tree;
use crate::huffman;
use crate::varint;
use crate::words;

verus! {

// ------------------------------------------------------------------ covering a word

/// Pattern `p` occurs in `w` at `i`.
pub open spec fn matches_at(p: Seq<u8>, w: Seq<u8>, i: int) -> bool {
    0 <= i && i + p.len() <= w.len() && w.subrange(i, i + p.len()) == p
}

/// The longest non-empty one of the first `n` patterns that occurs in `w` at `i`; the
/// last of several equal ones.
pub open spec fn longest_match(patterns: Seq<Seq<u8>>, n: nat, w: Seq<u8>, i: int) -> Option<nat>
    decreases n,
{
    if n == 0 {
        None
    } else {
        let k = (n - 1) as nat;
        let p = patterns[k as int];
        let b = longest_match(patterns, k, w, i);
        if p.len() > 0 && matches_at(p, w, i) && (b matches Some(x) ==> p.len() >= patterns[x as int].len()) {
            Some(k)
        } else {
            b
        }
    }
}

/// The patterns that cover `w` from `i` on, each with its start: at every place the
/// longest match, and the next place after it.
pub open spec fn cover_from(patterns: Seq<Seq<u8>>, w: Seq<u8>, i: int) -> Seq<(int, nat)>
    decreases words::left(w.len() - i),
{
    if i < 0 || i >= w.len() {
        Seq::empty()
    } else {
        match longest_match(patterns, patterns.len(), w, i) {
            Some(k) => if patterns[k as int].len() == 0 {
                Seq::empty()
            } else {
                seq![(i, k)] + cover_from(patterns, w, i + patterns[k as int].len())
            },
            None => cover_from(patterns, w, i + 1),
        }
    }
}

pub open spec fn cover(patterns: Seq<Seq<u8>>, w: Seq<u8>) -> Seq<(int, nat)> {
    cover_from(patterns, w, 0)
}

/// The places of a cover lie in the word one after the other, from `last` on, and the
/// word holds the pattern at each.
pub open spec fn covers(patterns: Seq<Seq<u8>>, w: Seq<u8>, c: Seq<(int, nat)>, last: int) -> bool
    decreases c.len(),
{
    if c.len() == 0 {
        true
    } else {
        let (start, k) = c[0];
        let p = patterns[k as int];
        &&& 0 <= last <= start
        &&& k < patterns.len()
        &&& matches_at(p, w, start)
        &&& covers(patterns, w, c.drop_first(), start + p.len())
    }
}

pub proof fn lemma_longest_match(patterns: Seq<Seq<u8>>, n: nat, w: Seq<u8>, i: int)
    requires
        n <= patterns.len(),
    ensures
        longest_match(patterns, n, w, i) matches Some(k) ==> {
            &&& k < n
            &&& patterns[k as int].len() > 0
            &&& matches_at(patterns[k as int], w, i)
        },
    decreases n,
{
    if n > 0 {
        lemma_longest_match(patterns, (n - 1) as nat, w, i);
    }
}

pub proof fn lemma_cover_from(patterns: Seq<Seq<u8>>, w: Seq<u8>, i: int, last: int)
    requires
        0 <= last <= i,
    ensures
        covers(patterns, w, cover_from(patterns, w, i), last),
        cover_from(patterns, w, i).len() <= words::left(w.len() - i),
    decreases words::left(w.len() - i),
{
    if i < w.len() {
        lemma_longest_match(patterns, patterns.len(), w, i);
        match longest_match(patterns, patterns.len(), w, i) {
            Some(k) => {
                let next = i + patterns[k as int].len();
                lemma_cover_from(patterns, w, next, next);
                let c = cover_from(patterns, w, i);
                assert(c.drop_first() =~= cover_from(patterns, w, next));
            },
            None => {
                lemma_cover_from(patterns, w, i + 1, last);
            },
        }
    }
}

// ------------------------------------------------------------------ counting symbols

/// One more use of position `p` in a list of pairs of position and uses, sorted by
/// position.
pub open spec fn bump(pairs: Seq<(u64, u64)>, p: u64) -> Seq<(u64, u64)>
    decreases pairs.len(),
{
    if pairs.len() == 0 || p < pairs[0].0 {
        seq![(p, 1u64)] + pairs
    } else if p == pairs[0].0 {
        seq![(p, (pairs[0].1 + 1) as u64)] + pairs.drop_first()
    } else {
        seq![pairs[0]] + bump(pairs.drop_first(), p)
    }
}

/// How often each position occurs in a list.
pub open spec fn tally(positions: Seq<u64>) -> Seq<(u64, u64)>
    decreases positions.len(),
{
    if positions.len() == 0 {
        Seq::empty()
    } else {
        bump(tally(positions.drop_last()), positions.last())
    }
}

/// The distances of a cover, each plus one: from the start before, which is `at` for the
/// first.
pub open spec fn distances(c: Seq<(int, nat)>, at: int) -> Seq<u64>
    decreases c.len(),
{
    if c.len() == 0 {
        Seq::empty()
    } else {
        seq![(c[0].0 - at + 1) as u64] + distances(c.drop_first(), c[0].0)
    }
}

/// The positions that a word needs codes for.
pub open spec fn word_positions(w: Seq<u8>, c: Seq<(int, nat)>) -> Seq<u64> {
    seq![(w.len() + 1) as u64, 0u64] + distances(c, 0)
}

/// The positions that the first `n` words need codes for.
pub open spec fn all_positions(ws: Seq<Seq<u8>>, patterns: Seq<Seq<u8>>, n: nat) -> Seq<u64>
    decreases n,
{
    if n == 0 {
        Seq::empty()
    } else {
        let w = ws[n - 1];
        all_positions(ws, patterns, (n - 1) as nat) + word_positions(w, cover(patterns, w))
    }
}

/// How often a cover uses pattern `k`.
pub open spec fn cover_uses(c: Seq<(int, nat)>, k: nat) -> nat
    decreases c.len(),
{
    if c.len() == 0 {
        0
    } else {
        cover_uses(c.drop_last(), k) + if c.last().1 == k { 1nat } else { 0nat }
    }
}

/// How often the covers of the first `n` words use pattern `k`.
pub open spec fn pattern_uses(ws: Seq<Seq<u8>>, patterns: Seq<Seq<u8>>, n: nat, k: nat) -> nat
    decreases n,
{
    if n == 0 {
        0
    } else {
        pattern_uses(ws, patterns, (n - 1) as nat, k) + cover_uses(cover(patterns, ws[n - 1]), k)
    }
}

/// Those of the first `n` patterns that some word uses.
pub open spec fn used_patterns(ws: Seq<Seq<u8>>, patterns: Seq<Seq<u8>>, n: nat) -> Seq<nat>
    decreases n,
{
    if n == 0 {
        Seq::empty()
    } else {
        let k = (n - 1) as nat;
        let s = used_patterns(ws, patterns, k);
        if pattern_uses(ws, patterns, ws.len(), k) > 0 { s.push(k) } else { s }
    }
}

// ------------------------------------------------------------------ codes

/// The codes that the words of a file are written with.
pub struct Codes {
    /// The positions with their uses.
    pub pairs: Seq<(u64, u64)>,
    /// All patterns.
    pub patterns: Seq<Seq<u8>>,
    /// The numbers of the patterns in use, and their uses.
    pub used: Seq<nat>,
    pub used_uses: Seq<u64>,
}

pub open spec fn codes_for(ws: Seq<Seq<u8>>, patterns: Seq<Seq<u8>>) -> Codes {
    let used = used_patterns(ws, patterns, patterns.len());
    Codes {
        pairs: tally(all_positions(ws, patterns, ws.len())),
        patterns,
        used,
        used_uses: Seq::new(used.len(), |i: int| pattern_uses(ws, patterns, ws.len(), used[i]) as u64),
    }
}

/// The bits that lead to the leftmost leaf with symbol `s`.
pub open spec fn symbol_path(t: Tree, s: nat) -> Seq<bool>
    decreases t,
{
    match t {
        Tree::Node(l, r) => if huffman::has(*l, s) {
            seq![false] + symbol_path(*l, s)
        } else {
            seq![true] + symbol_path(*r, s)
        },
        _ => Seq::empty(),
    }
}

/// The place of position `p` among the pairs.
pub open spec fn slot(pairs: Seq<(u64, u64)>, p: u64) -> nat
    decreases pairs.len(),
{
    if pairs.len() == 0 || pairs[0].0 == p {
        0
    } else {
        1 + slot(pairs.drop_first(), p)
    }
}

/// The place of pattern `k` among the used ones.
pub open spec fn place(used: Seq<nat>, k: nat) -> nat
    decreases used.len(),
{
    if used.len() == 0 || used[0] == k {
        0
    } else {
        1 + place(used.drop_first(), k)
    }
}

pub open spec fn pos_code(c: Codes, p: u64) -> Seq<bool> {
    symbol_path(huffman::position_tree(c.pairs), slot(c.pairs, p))
}

pub open spec fn pat_code(c: Codes, k: nat) -> Seq<bool> {
    symbol_path(huffman::pattern_tree(c.used_uses), place(c.used, k))
}

/// The codes of a cover: for each pattern its distance and the pattern itself.
pub open spec fn cover_bits(cs: Codes, c: Seq<(int, nat)>, at: int) -> Seq<bool>
    decreases c.len(),
{
    if c.len() == 0 {
        Seq::empty()
    } else {
        pos_code(cs, (c[0].0 - at + 1) as u64) + pat_code(cs, c[0].1) + cover_bits(cs, c.drop_first(), c[0].0)
    }
}

/// The codes of a word.
pub open spec fn word_bits(cs: Codes, w: Seq<u8>, c: Seq<(int, nat)>) -> Seq<bool> {
    pos_code(cs, (w.len() + 1) as u64) + if w.len() == 0 {
        Seq::empty()
    } else {
        cover_bits(cs, c, 0) + pos_code(cs, 0)
    }
}

/// The bytes of `w` from `last` on that a cover leaves out.
pub open spec fn literals(patterns: Seq<Seq<u8>>, w: Seq<u8>, c: Seq<(int, nat)>, last: int) -> Seq<u8>
    decreases c.len(),
{
    if c.len() == 0 {
        if last < w.len() { w.skip(last) } else { Seq::empty() }
    } else {
        let (start, k) = c[0];
        (if start > last { w.subrange(last, start) } else { Seq::empty() }) + literals(
            patterns,
            w,
            c.drop_first(),
            start + patterns[k as int].len(),
        )
    }
}

/// A word as it stands in the file.
pub open spec fn word_bytes(cs: Codes, w: Seq<u8>, c: Seq<(int, nat)>) -> Seq<u8> {
    bitwriter::pack(word_bits(cs, w, c)) + literals(cs.patterns, w, c, 0)
}

/// The first `n` words as they stand in the file.
pub open spec fn stream(cs: Codes, ws: Seq<Seq<u8>>, n: nat) -> Seq<u8>
    decreases n,
{
    if n == 0 {
        Seq::empty()
    } else {
        let w = ws[n - 1];
        stream(cs, ws, (n - 1) as nat) + word_bytes(cs, w, cover(cs.patterns, w))
    }
}

// ------------------------------------------------------------------ dictionaries

/// The position dictionary: depth and position of each leaf.
pub open spec fn pos_dict(leaves: Seq<(nat, nat)>, pairs: Seq<(u64, u64)>) -> Seq<u8>
    decreases leaves.len(),
{
    if leaves.len() == 0 {
        Seq::empty()
    } else {
        pos_dict(leaves.drop_last(), pairs) + varint::varint_bytes(leaves.last().1) + varint::varint_bytes(
            pairs[leaves.last().0 as int].0 as nat,
        )
    }
}

/// The pattern dictionary: depth, length and bytes of each leaf.
pub open spec fn pat_dict(leaves: Seq<(nat, nat)>, texts: Seq<Seq<u8>>) -> Seq<u8>
    decreases leaves.len(),
{
    if leaves.len() == 0 {
        Seq::empty()
    } else {
        let t = texts[leaves.last().0 as int];
        pat_dict(leaves.drop_last(), texts) + varint::varint_bytes(leaves.last().1) + varint::varint_bytes(t.len())
            + t
    }
}

/// The texts of the used patterns.
pub open spec fn used_texts(cs: Codes) -> Seq<Seq<u8>> {
    Seq::new(cs.used.len(), |i: int| cs.patterns[cs.used[i] as int])
}

pub open spec fn pos_dict_of(cs: Codes) -> Seq<u8> {
    pos_dict(code::leaves(huffman::position_tree(cs.pairs), 0), cs.pairs)
}

pub open spec fn pat_dict_of(cs: Codes) -> Seq<u8> {
    pat_dict(code::leaves(huffman::pattern_tree(cs.used_uses), 0), used_texts(cs))
}

// ------------------------------------------------------------------ the file

/// Number of empty ones among the first `n` words.
pub open spec fn empty_words(ws: Seq<Seq<u8>>, n: nat) -> nat
    decreases n,
{
    if n == 0 {
        0
    } else {
        empty_words(ws, (n - 1) as nat) + if ws[n - 1].len() == 0 { 1nat } else { 0nat }
    }
}

pub open spec fn header(ws: Seq<Seq<u8>>, pat: Seq<u8>, pos: Seq<u8>) -> Seq<u8> {
    bytes::be_bytes(ws.len(), 8) + bytes::be_bytes(empty_words(ws, ws.len()), 8) + bytes::be_bytes(pat.len(), 8) + pat
        + bytes::be_bytes(pos.len(), 8) + pos
}

/// The file that holds `ws`, with parts of them covered by `patterns`.
pub open spec fn seg_bytes(ws: Seq<Seq<u8>>, patterns: Seq<Seq<u8>>) -> Seq<u8> {
    let cs = codes_for(ws, patterns);
    header(ws, pat_dict_of(cs), pos_dict_of(cs)) + stream(cs, ws, ws.len())
}

/// Where word `i` starts in the words region.
pub open spec fn word_offset(ws: Seq<Seq<u8>>, patterns: Seq<Seq<u8>>, i: nat) -> int {
    stream(codes_for(ws, patterns), ws, i).len() as int
}

} // verus!
