//! Writing the words of a seg file with a pattern dictionary.
//!
//! Because the seg format is self-describing (it stores its own pattern and position
//! dictionaries), any set of patterns yields a file that reads back as the same words. A
//! dictionary without patterns gives the fast path, in which all word bytes are literals.
//!
//! Each word becomes a position code for its length plus one, then for each covering
//! pattern a code for the distance plus one and the pattern's own code, a terminator, and
//! finally the uncovered literal bytes from the next byte boundary on.

use vstd::prelude::*;
use vstd::slice::*;

use crate::bitwriter::BitWriter;
use crate::bytes;
use crate::bytes::{push_be, push_bytes, texts};
use crate::code;
use crate::code::Tree;
use crate::coder;
use crate::coder::Codes;
use crate::dictionary::{cover_view, Dictionary};
use crate::huffman;
use crate::huffman::{build_pattern_dict, build_position_dict, Coded};
use crate::roundtrip;
use crate::varint::put_uvarint;

verus! {

// ------------------------------------------------------------------ counting

/// Bytes of the first `n` words, plus two for each: a bound on the symbols they need.
pub open spec fn weight(ws: Seq<Seq<u8>>, n: nat) -> nat
    decreases n,
{
    if n == 0 {
        0
    } else {
        weight(ws, (n - 1) as nat) + ws[n - 1].len() + 2
    }
}

/// There are no more words than their weight says.
pub proof fn lemma_weight_counts(ws: Seq<Seq<u8>>, n: nat)
    ensures
        2 * n <= weight(ws, n),
    decreases n,
{
    if n > 0 {
        lemma_weight_counts(ws, (n - 1) as nat);
    }
}

/// The pairs are sorted by position, without duplicates.
pub open spec fn sorted_pairs(pairs: Seq<(u64, u64)>) -> bool {
    forall|a: int, b: int| 0 <= a < b < pairs.len() ==> (#[trigger] pairs[a]).0 < (#[trigger] pairs[b]).0
}

/// No position has more than `n` uses.
pub open spec fn uses_within(pairs: Seq<(u64, u64)>, n: nat) -> bool {
    forall|a: int| 0 <= a < pairs.len() ==> (#[trigger] pairs[a]).1 <= n
}

/// The place of a position in sorted pairs, or where it belongs.
fn find_pos(pairs: &Vec<(u64, u64)>, p: u64) -> (i: usize)
    requires
        sorted_pairs(pairs@),
    ensures
        i <= pairs@.len(),
        forall|k: int| 0 <= k < i ==> (#[trigger] pairs@[k]).0 < p,
        forall|k: int| i <= k < pairs@.len() ==> (#[trigger] pairs@[k]).0 >= p,
{
    let mut lo: usize = 0;
    let mut hi: usize = pairs.len();
    while lo < hi
        invariant
            lo <= hi <= pairs.len(),
            sorted_pairs(pairs@),
            forall|k: int| 0 <= k < lo ==> (#[trigger] pairs@[k]).0 < p,
            forall|k: int| hi <= k < pairs@.len() ==> (#[trigger] pairs@[k]).0 >= p,
        decreases hi - lo,
    {
        let mid: usize = lo + (hi - lo) / 2;
        if pairs[mid].0 < p {
            lo = mid + 1;
        } else {
            hi = mid;
        }
    }
    lo
}

proof fn lemma_bump_at(pairs: Seq<(u64, u64)>, p: u64, i: int)
    requires
        0 <= i <= pairs.len(),
        forall|k: int| 0 <= k < i ==> (#[trigger] pairs[k]).0 < p,
        i < pairs.len() ==> pairs[i].0 >= p,
    ensures
        coder::bump(pairs, p) == if i < pairs.len() && pairs[i].0 == p {
            pairs.update(i, (p, (pairs[i].1 + 1) as u64))
        } else {
            pairs.insert(i, (p, 1u64))
        },
    decreases pairs.len(),
{
    let r = coder::bump(pairs, p);
    if i == 0 {
        if pairs.len() > 0 && pairs[0].0 == p {
            assert(r =~= pairs.update(0, (p, (pairs[0].1 + 1) as u64)));
        } else {
            assert(r =~= pairs.insert(0, (p, 1u64)));
        }
    } else {
        let t = pairs.drop_first();
        assert(pairs[0].0 < p);
        assert forall|k: int| 0 <= k < i - 1 implies (#[trigger] t[k]).0 < p by {
            assert(t[k] == pairs[k + 1]);
        }
        lemma_bump_at(t, p, i - 1);
        if i < pairs.len() && pairs[i].0 == p {
            assert(r =~= pairs.update(i, (p, (pairs[i].1 + 1) as u64)));
        } else {
            assert(r =~= pairs.insert(i, (p, 1u64)));
        }
    }
}

/// Count one more use of `p`.
fn bump(pairs: &mut Vec<(u64, u64)>, p: u64, Ghost(n): Ghost<nat>)
    requires
        sorted_pairs(old(pairs)@),
        uses_within(old(pairs)@, n),
        n < u64::MAX,
    ensures
        final(pairs)@ == coder::bump(old(pairs)@, p),
        sorted_pairs(final(pairs)@),
        uses_within(final(pairs)@, n + 1),
{
    let ghost before = pairs@;
    let i: usize = find_pos(pairs, p);
    proof {
        lemma_bump_at(before, p, i as int);
    }
    if i < pairs.len() && pairs[i].0 == p {
        let c: u64 = pairs[i].1;
        proof {
            assert(before[i as int].1 <= n);
        }
        pairs.set(i, (p, c + 1));
        proof {
            assert(pairs@ =~= before.update(i as int, (p, (c + 1) as u64)));
            assert forall|a: int| 0 <= a < pairs@.len() implies (#[trigger] pairs@[a]).1 <= n + 1 by {
                assert(before[a].1 <= n);
            }
            assert forall|a: int, b: int| 0 <= a < b < pairs@.len() implies (#[trigger] pairs@[a]).0 < (#[trigger] pairs@[b]).0 by {
                assert(before[a].0 < before[b].0);
            }
        }
    } else {
        pairs.insert(i, (p, 1));
        proof {
            assert(pairs@ =~= before.insert(i as int, (p, 1u64)));
            assert forall|a: int| 0 <= a < pairs@.len() implies (#[trigger] pairs@[a]).1 <= n + 1 by {
                if a < i {
                    assert(pairs@[a] == before[a]);
                } else if a > i {
                    assert(pairs@[a] == before[a - 1]);
                }
            }
            assert forall|a: int, b: int| 0 <= a < b < pairs@.len() implies (#[trigger] pairs@[a]).0 < (#[trigger] pairs@[b]).0 by {
                if a < i {
                    assert(pairs@[a] == before[a]);
                } else if a > i {
                    assert(pairs@[a] == before[a - 1]);
                }
                if b < i {
                    assert(pairs@[b] == before[b]);
                } else if b > i {
                    assert(pairs@[b] == before[b - 1]);
                }
            }
        }
    }
}

proof fn lemma_tally_push(ps: Seq<u64>, p: u64)
    ensures
        coder::tally(ps.push(p)) == coder::bump(coder::tally(ps), p),
{
    assert(ps.push(p).drop_last() =~= ps);
}

pub proof fn lemma_cover_uses_bound(c: Seq<(int, nat)>, k: nat)
    ensures
        coder::cover_uses(c, k) <= c.len(),
    decreases c.len(),
{
    if c.len() > 0 {
        lemma_cover_uses_bound(c.drop_last(), k);
    }
}

/// The symbols that the first `n` words need are no more than their weight.
pub proof fn lemma_symbols_bound(ws: Seq<Seq<u8>>, patterns: Seq<Seq<u8>>, n: nat, k: nat)
    requires
        n <= ws.len(),
    ensures
        coder::all_positions(ws, patterns, n).len() <= weight(ws, n),
        coder::pattern_uses(ws, patterns, n, k) <= weight(ws, n),
    decreases n,
{
    if n > 0 {
        lemma_symbols_bound(ws, patterns, (n - 1) as nat, k);
        let w = ws[n - 1];
        let c = coder::cover(patterns, w);
        coder::lemma_cover_from(patterns, w, 0, 0);
        roundtrip::lemma_distances_len(c, 0);
        lemma_cover_uses_bound(c, k);
    }
}

proof fn lemma_weight_mono(ws: Seq<Seq<u8>>, i: nat, n: nat)
    requires
        i <= n,
    ensures
        weight(ws, i) <= weight(ws, n),
    decreases n,
{
    if i < n {
        lemma_weight_mono(ws, i, (n - 1) as nat);
    }
}

/// Count the symbols of one word.
fn count_word(pairs: &mut Vec<(u64, u64)>, uses: &mut Vec<u64>, dict: &Dictionary, word: &Vec<u8>, Ghost(before): Ghost<Seq<u64>>, Ghost(n): Ghost<nat>)
    requires
        old(pairs)@ == coder::tally(before),
        sorted_pairs(old(pairs)@),
        before.len() <= n,
        uses_within(old(pairs)@, before.len()),
        n + word@.len() + 2 <= u64::MAX,
        old(uses)@.len() == dict.patterns().len(),
        forall|k: int| 0 <= k < old(uses)@.len() ==> #[trigger] old(uses)@[k] <= n,
    ensures
        final(pairs)@ == coder::tally(
            before + coder::word_positions(word@, coder::cover(dict.patterns(), word@)),
        ),
        sorted_pairs(final(pairs)@),
        uses_within(
            final(pairs)@,
            (before + coder::word_positions(word@, coder::cover(dict.patterns(), word@))).len(),
        ),
        final(uses)@.len() == old(uses)@.len(),
        forall|k: int|
            0 <= k < old(uses)@.len() ==> #[trigger] final(uses)@[k] == old(uses)@[k] + coder::cover_uses(
                coder::cover(dict.patterns(), word@),
                k as nat,
            ),
{
    let ghost c = coder::cover(dict.patterns(), word@);
    let ghost uses0 = uses@;
    let len: u64 = word.len() as u64;
    let ghost b1 = before.push((word@.len() + 1) as u64);
    let ghost b2 = b1.push(0u64);
    proof {
        lemma_tally_push(before, (word@.len() + 1) as u64);
        lemma_tally_push(b1, 0);
        coder::lemma_cover_from(dict.patterns(), word@, 0, 0);
        roundtrip::lemma_distances_len(c, 0);
    }
    bump(pairs, len + 1, Ghost(before.len()));
    bump(pairs, 0, Ghost((before.len() + 1) as nat));
    let cover = dict.cover(word.as_slice());
    let mut i: usize = 0;
    let mut last: usize = 0;
    let ghost mut seen = b2;
    proof {
        assert(c.skip(0) =~= c);
        assert(coder::covers(dict.patterns(), word@, c.skip(0), 0));
        assert(b2 + coder::distances(c.skip(0), 0) =~= before + coder::word_positions(word@, c));
        assert(c.take(0) =~= Seq::empty());
    }
    while i < cover.len()
        invariant
            i <= cover.len(),
            cover_view(cover@) == c,
            c.len() <= word@.len(),
            coder::covers(dict.patterns(), word@, c.skip(i as int), last as int),
            pairs@ == coder::tally(seen),
            sorted_pairs(pairs@),
            uses_within(pairs@, seen.len()),
            seen.len() == before.len() + 2 + i,
            seen + coder::distances(c.skip(i as int), last as int) == before + coder::word_positions(word@, c),
            before.len() <= n,
            n + word@.len() + 2 <= u64::MAX,
            uses@.len() == uses0.len(),
            uses0.len() == dict.patterns().len(),
            forall|k: int| 0 <= k < uses0.len() ==> #[trigger] uses0[k] <= n,
            forall|k: int|
                0 <= k < uses0.len() ==> #[trigger] uses@[k] == uses0[k] + coder::cover_uses(c.take(i as int), k as nat),
        decreases cover.len() - i,
    {
        let (start, pid) = cover[i];
        let ghost s = c.skip(i as int);
        let ghost before_uses = uses@;
        proof {
            assert(s[0] == c[i as int]);
            assert(c[i as int] == (start as int, pid as nat));
            assert(s.drop_first() =~= c.skip(i + 1));
            lemma_covers_weaken(dict.patterns(), word@, s.drop_first(), start + dict.patterns()[pid as int].len(), start as int);
        }
        let d: u64 = (start - last) as u64 + 1;
        proof {
            lemma_tally_push(seen, d);
            assert(seen.push(d) + coder::distances(c.skip(i + 1), start as int) =~= seen + coder::distances(s, last as int));
            lemma_cover_uses_bound(c.take(i as int), pid as nat);
            assert(c.take(i + 1).drop_last() =~= c.take(i as int));
        }
        bump(pairs, d, Ghost(seen.len()));
        proof {
            seen = seen.push(d);
        }
        let u: u64 = uses[pid];
        uses.set(pid, u + 1);
        last = start;
        i = i + 1;
    }
    proof {
        assert(c.skip(i as int).len() == 0);
        assert(seen + coder::distances(c.skip(i as int), last as int) =~= seen);
        assert(c.take(i as int) =~= c);
    }
}

proof fn lemma_covers_weaken(patterns: Seq<Seq<u8>>, w: Seq<u8>, c: Seq<(int, nat)>, a: int, b: int)
    requires
        coder::covers(patterns, w, c, a),
        0 <= b <= a,
    ensures
        coder::covers(patterns, w, c, b),
{
}

/// Count the symbols of all words: the uses of every position and of every pattern.
fn count_symbols(words: &Vec<Vec<u8>>, dict: &Dictionary) -> (r: (Vec<(u64, u64)>, Vec<u64>))
    requires
        weight(texts(words@), words@.len()) <= u64::MAX,
    ensures
        r.0@ == coder::codes_for(texts(words@), dict.patterns()).pairs,
        sorted_pairs(r.0@),
        r.1@.len() == dict.patterns().len(),
        forall|k: int|
            0 <= k < r.1@.len() ==> #[trigger] r.1@[k] == coder::pattern_uses(
                texts(words@),
                dict.patterns(),
                words@.len(),
                k as nat,
            ),
{
    let ghost ws = texts(words@);
    let ghost ps = dict.patterns();
    let np: usize = dict.len();
    let mut pairs: Vec<(u64, u64)> = Vec::new();
    let mut uses: Vec<u64> = vec![0u64; np];
    let mut i: usize = 0;
    while i < words.len()
        invariant
            i <= words.len(),
            ws == texts(words@),
            ps == dict.patterns(),
            weight(ws, ws.len()) <= u64::MAX,
            pairs@ == coder::tally(coder::all_positions(ws, ps, i as nat)),
            sorted_pairs(pairs@),
            uses_within(pairs@, coder::all_positions(ws, ps, i as nat).len()),
            uses@.len() == ps.len(),
            forall|k: int|
                0 <= k < uses@.len() ==> #[trigger] uses@[k] == coder::pattern_uses(ws, ps, i as nat, k as nat),
        decreases words.len() - i,
    {
        let ghost before = coder::all_positions(ws, ps, i as nat);
        proof {
            assert(ws[i as int] == words@[i as int]@);
            lemma_weight_mono(ws, (i + 1) as nat, ws.len());
            assert forall|k: int| 0 <= k < uses@.len() implies #[trigger] uses@[k] <= weight(ws, i as nat) by {
                lemma_symbols_bound(ws, ps, i as nat, k as nat);
            }
            lemma_symbols_bound(ws, ps, i as nat, 0);
        }
        count_word(&mut pairs, &mut uses, dict, &words[i], Ghost(before), Ghost(weight(ws, i as nat)));
        i = i + 1;
    }
    (pairs, uses)
}

// ------------------------------------------------------------------ code tables

/// The code of every symbol, by symbol.
fn code_table(entries: Vec<Coded>, n: usize, Ghost(t): Ghost<Tree>) -> (table: Vec<Vec<bool>>)
    requires
        huffman::codes_of(t, entries@),
        huffman::symbols_below(t, n as nat),
        forall|s: nat| s < n ==> #[trigger] huffman::has(t, s),
    ensures
        table@.len() == n,
        forall|s: int| 0 <= s < n ==> (#[trigger] table@[s])@ == coder::symbol_path(t, s as nat),
{
    let mut entries = entries;
    let ghost all = entries@;
    let mut table: Vec<Vec<bool>> = Vec::with_capacity(n);
    let mut i: usize = 0;
    while i < n
        invariant
            i <= n,
            table@.len() == i,
        decreases n - i,
    {
        table.push(Vec::new());
        i = i + 1;
    }
    proof {
        code::lemma_leaves(t, 0);
        assert(all.take(all.len() as int) =~= all);
    }
    while entries.len() > 0
        invariant
            table@.len() == n,
            entries@.len() <= all.len(),
            entries@ == all.take(entries@.len() as int),
            huffman::codes_of(t, all),
            huffman::symbols_below(t, n as nat),
            code::leaves(t, 0).len() == code::size(t),
            forall|j: int|
                entries@.len() <= j < all.len() && (forall|i: int|
                    entries@.len() <= i < j ==> (#[trigger] all[i]).symbol != all[j].symbol) ==> table@[(
                #[trigger] all[j]).symbol as int]@ == all[j].code@,
        decreases entries.len(),
    {
        let ghost k = entries@.len() - 1;
        let ghost before = table@;
        proof {
            assert(entries@[k] == all[k]);
        }
        let e = entries.pop().unwrap();
        proof {
            assert(entries@ =~= all.take(k));
            huffman::lemma_leaf_symbol(t, 0, n as nat, k);
        }
        table.set(e.symbol, e.code);
        proof {
            assert forall|j: int|
                k <= j < all.len() && (forall|i: int| k <= i < j ==> (#[trigger] all[i]).symbol != all[j].symbol) implies table@[(
            #[trigger] all[j]).symbol as int]@ == all[j].code@ by {
                if j > k {
                    assert(all[k].symbol != all[j].symbol);
                    assert(forall|i: int| k + 1 <= i < j ==> (#[trigger] all[i]).symbol != all[j].symbol);
                    huffman::lemma_leaf_symbol(t, 0, n as nat, j);
                    assert(before[all[j].symbol as int]@ == all[j].code@);
                }
            }
        }
    }
    proof {
        assert forall|s: int| 0 <= s < n implies (#[trigger] table@[s])@ == coder::symbol_path(t, s as nat) by {
            assert(huffman::has(t, s as nat));
            roundtrip::lemma_symbol_path(t, 0, s as nat);
            let j = choose|j: int|
                0 <= j < code::size(t) && (#[trigger] code::leaves(t, 0)[j]).0 == s as nat && code::path_of(t, j)
                    == coder::symbol_path(t, s as nat) && forall|i: int|
                    0 <= i < j ==> (#[trigger] code::leaves(t, 0)[i]).0 != s as nat;
            assert(all[j].symbol == s);
            assert forall|i: int| 0 <= i < j implies (#[trigger] all[i]).symbol != all[j].symbol by {
                assert(code::leaves(t, 0)[i].0 != s as nat);
            }
        }
    }
    table
}

/// Serialize the position dictionary.
fn position_dict_bytes(entries: &Vec<Coded>, pairs: &Vec<(u64, u64)>) -> (out: Vec<u8>)
    requires
        huffman::codes_of(huffman::position_tree(pairs@), entries@),
    ensures
        out@ == coder::pos_dict(code::leaves(huffman::position_tree(pairs@), 0), pairs@),
{
    let ghost t = huffman::position_tree(pairs@);
    let ghost ls = code::leaves(t, 0);
    let mut out: Vec<u8> = Vec::new();
    let mut j: usize = 0;
    proof {
        code::lemma_leaves(t, 0);
        huffman::lemma_dict_tree(huffman::firsts(pairs@), huffman::seconds(pairs@));
        assert(ls.take(0) =~= Seq::empty());
    }
    while j < entries.len()
        invariant
            j <= entries.len(),
            t == huffman::position_tree(pairs@),
            ls == code::leaves(t, 0),
            ls.len() == entries@.len(),
            huffman::codes_of(t, entries@),
            huffman::symbols_below(t, pairs@.len()),
            forall|j: int| 0 <= j < ls.len() ==> (#[trigger] ls[j]).1 == code::path_of(t, j).len(),
            out@ == coder::pos_dict(ls.take(j as int), pairs@),
        decreases entries.len() - j,
    {
        proof {
            huffman::lemma_leaf_symbol(t, 0, pairs@.len(), j as int);
            assert(ls.take(j + 1).drop_last() =~= ls.take(j as int));
            assert(ls.take(j + 1).last() == ls[j as int]);
        }
        put_uvarint(&mut out, entries[j].code.len() as u64);
        put_uvarint(&mut out, pairs[entries[j].symbol].0);
        j = j + 1;
    }
    proof {
        assert(ls.take(j as int) =~= ls);
    }
    out
}

/// Serialize the pattern dictionary.
fn pattern_dict_bytes(entries: &Vec<Coded>, used: &Vec<usize>, used_uses: &Vec<u64>, dict: &Dictionary, Ghost(cs): Ghost<Codes>) -> (out: Vec<u8>)
    requires
        huffman::codes_of(huffman::pattern_tree(used_uses@), entries@),
        cs.patterns == dict.patterns(),
        cs.used_uses == used_uses@,
        cs.used.len() == used@.len(),
        used@.len() == used_uses@.len(),
        forall|i: int| 0 <= i < used@.len() ==> cs.used[i] == #[trigger] used@[i] && used@[i] < dict.patterns().len(),
    ensures
        out@ == coder::pat_dict_of(cs),
{
    let ghost t = huffman::pattern_tree(used_uses@);
    let ghost ls = code::leaves(t, 0);
    let ghost tx = coder::used_texts(cs);
    let mut out: Vec<u8> = Vec::new();
    let mut j: usize = 0;
    proof {
        code::lemma_leaves(t, 0);
        huffman::lemma_dict_tree(Seq::new(used_uses@.len(), |i: int| i as u64), used_uses@);
        assert(ls.take(0) =~= Seq::empty());
    }
    while j < entries.len()
        invariant
            j <= entries.len(),
            t == huffman::pattern_tree(used_uses@),
            ls == code::leaves(t, 0),
            ls.len() == entries@.len(),
            tx == coder::used_texts(cs),
            cs.patterns == dict.patterns(),
            cs.used.len() == used@.len(),
            used@.len() == used_uses@.len(),
            forall|i: int| 0 <= i < used@.len() ==> cs.used[i] == #[trigger] used@[i] && used@[i] < dict.patterns().len(),
            huffman::codes_of(t, entries@),
            huffman::symbols_below(t, used_uses@.len()),
            forall|j: int| 0 <= j < ls.len() ==> (#[trigger] ls[j]).1 == code::path_of(t, j).len(),
            out@ == coder::pat_dict(ls.take(j as int), tx),
        decreases entries.len() - j,
    {
        proof {
            huffman::lemma_leaf_symbol(t, 0, used_uses@.len(), j as int);
            assert(ls.take(j + 1).drop_last() =~= ls.take(j as int));
            assert(ls.take(j + 1).last() == ls[j as int]);
        }
        let pid: usize = used[entries[j].symbol];
        put_uvarint(&mut out, entries[j].code.len() as u64);
        let p: &Vec<u8> = dict.pattern(pid);
        put_uvarint(&mut out, p.len() as u64);
        push_bytes(&mut out, p.as_slice());
        j = j + 1;
    }
    proof {
        assert(ls.take(j as int) =~= ls);
    }
    out
}

// ------------------------------------------------------------------ encoding

/// Everything needed to encode words.
struct Encoder<'a> {
    dict: &'a Dictionary,
    pairs: Vec<(u64, u64)>,
    pos_codes: Vec<Vec<bool>>,
    /// For each pattern its place among the used ones.
    places: Vec<usize>,
    pat_codes: Vec<Vec<bool>>,
    codes: Ghost<Codes>,
}

impl<'a> Encoder<'a> {
    spec fn inv(&self) -> bool {
        let cs = self.codes@;
        &&& cs.patterns == self.dict.patterns()
        &&& cs.pairs == self.pairs@
        &&& sorted_pairs(self.pairs@)
        &&& self.pos_codes@.len() == self.pairs@.len()
        &&& forall|i: int|
            0 <= i < self.pairs@.len() ==> (#[trigger] self.pos_codes@[i])@ == coder::symbol_path(
                huffman::position_tree(cs.pairs),
                i as nat,
            )
        &&& self.places@.len() == cs.patterns.len()
        &&& forall|k: nat| #[trigger] cs.used.contains(k) ==> k < cs.patterns.len() && self.places@[k as int] == coder::place(cs.used, k)
        &&& self.pat_codes@.len() == cs.used.len()
        &&& forall|i: int|
            0 <= i < self.pat_codes@.len() ==> (#[trigger] self.pat_codes@[i])@ == coder::symbol_path(
                huffman::pattern_tree(cs.used_uses),
                i as nat,
            )
    }

    fn encode_pos(&self, bw: &mut BitWriter, p: u64)
        requires
            self.inv(),
            old(bw).inv(),
            roundtrip::has_pos(self.pairs@, p),
        ensures
            final(bw).inv(),
            final(bw).bits() == old(bw).bits() + coder::pos_code(self.codes@, p),
    {
        let i: usize = find_pos(&self.pairs, p);
        proof {
            roundtrip::lemma_slot(self.pairs@, p);
            let s = coder::slot(self.pairs@, p) as int;
            if i > s {
                assert(self.pairs@[s].0 < p);
            }
            if i < s {
                assert(self.pairs@[i as int].0 >= p);
                assert(self.pairs@[i as int].0 < self.pairs@[s].0);
            }
        }
        bw.encode(&self.pos_codes[i]);
    }

    /// One word as it stands in the file.
    fn encode_word(&self, word: &Vec<u8>) -> (out: Vec<u8>)
        requires
            self.inv(),
            word@.len() + 2 <= u64::MAX,
            forall|k: int|
                0 <= k < coder::word_positions(word@, coder::cover(self.codes@.patterns, word@)).len()
                    ==> roundtrip::has_pos(
                    self.pairs@,
                    #[trigger] coder::word_positions(word@, coder::cover(self.codes@.patterns, word@))[k],
                ),
            forall|k: int|
                0 <= k < coder::cover(self.codes@.patterns, word@).len() ==> self.codes@.used.contains(
                    (#[trigger] coder::cover(self.codes@.patterns, word@)[k]).1,
                ),
        ensures
            out@ == coder::word_bytes(self.codes@, word@, coder::cover(self.codes@.patterns, word@)),
    {
        let ghost cs = self.codes@;
        let ghost c = coder::cover(cs.patterns, word@);
        let ghost wp = coder::word_positions(word@, c);
        let len: usize = word.len();
        let mut bw = BitWriter::new();
        let mut literals: Vec<u8> = Vec::new();
        proof {
            assert(roundtrip::has_pos(self.pairs@, wp[0]));
            assert(wp[0] == (word@.len() + 1) as u64);
            roundtrip::lemma_distances_len(c, 0);
            coder::lemma_cover_from(cs.patterns, word@, 0, 0);
        }
        self.encode_pos(&mut bw, len as u64 + 1);
        proof {
            assert(bw.bits() =~= coder::pos_code(cs, wp[0]));
        }
        if len > 0 {
            let cover = self.dict.cover(word.as_slice());
            let mut i: usize = 0;
            let mut last_start: usize = 0;
            let mut last_uncovered: usize = 0;
            let ghost total = coder::cover_bits(cs, c, 0);
            proof {
                assert(c.skip(0) =~= c);
                assert(bw.bits() + coder::cover_bits(cs, c.skip(0), 0) =~= coder::pos_code(cs, wp[0]) + total);
                assert(literals@ + coder::literals(cs.patterns, word@, c.skip(0), 0) =~= coder::literals(cs.patterns, word@, c, 0));
            }
            while i < cover.len()
                invariant
                    self.inv(),
                    cs == self.codes@,
                    bw.inv(),
                    len == word.len(),
                    len + 2 <= u64::MAX,
                    i <= cover.len(),
                    cover_view(cover@) == c,
                    wp == coder::word_positions(word@, c),
                    last_start <= last_uncovered <= len,
                    coder::covers(cs.patterns, word@, c.skip(i as int), last_uncovered as int),
                    forall|k: int| 0 <= k < wp.len() ==> roundtrip::has_pos(self.pairs@, #[trigger] wp[k]),
                    forall|k: int| 0 <= k < c.len() ==> cs.used.contains((#[trigger] c[k]).1),
                    forall|k: int| i <= k < c.len() ==> coder::distances(c.skip(i as int), last_start as int)[k - i] == #[trigger] wp[k + 2],
                    wp.len() == c.len() + 2,
                    bw.bits() + coder::cover_bits(cs, c.skip(i as int), last_start as int) == coder::pos_code(cs, wp[0]) + total,
                    literals@ + coder::literals(cs.patterns, word@, c.skip(i as int), last_uncovered as int)
                        == coder::literals(cs.patterns, word@, c, 0),
                decreases cover.len() - i,
            {
                let (start, pid) = cover[i];
                let ghost s = c.skip(i as int);
                proof {
                    assert(s[0] == c[i as int]);
                    assert(c[i as int] == (start as int, pid as nat));
                    assert(s.drop_first() =~= c.skip(i + 1));
                    assert(wp[i + 2] == coder::distances(s, last_start as int)[0]);
                    assert(roundtrip::has_pos(self.pairs@, wp[i + 2]));
                    assert(cs.used.contains(c[i as int].1));
                    roundtrip::lemma_place(cs.used, pid as nat);
                    roundtrip::lemma_distances_len(s, last_start as int);
                    roundtrip::lemma_distances_len(s.drop_first(), start as int);
                }
                let ghost bits0 = bw.bits();
                let ghost lit0 = literals@;
                self.encode_pos(&mut bw, (start - last_start) as u64 + 1);
                bw.encode(&self.pat_codes[self.places[pid]]);
                if start > last_uncovered {
                    push_bytes(&mut literals, slice_subrange(word.as_slice(), last_uncovered, start));
                }
                proof {
                    let rest = coder::cover_bits(cs, c.skip(i + 1), start as int);
                    assert(bw.bits() + rest =~= bits0 + coder::cover_bits(cs, s, last_start as int));
                    let more = coder::literals(cs.patterns, word@, c.skip(i + 1), start + cs.patterns[pid as int].len());
                    assert(literals@ + more =~= lit0 + coder::literals(cs.patterns, word@, s, last_uncovered as int));
                    assert forall|k: int| i + 1 <= k < c.len() implies coder::distances(c.skip(i + 1), start as int)[k - i - 1]
                        == #[trigger] wp[k + 2] by {
                        assert(coder::distances(s, last_start as int)[k - i] == coder::distances(s.drop_first(), start as int)[k - i - 1]);
                    }
                }
                last_start = start;
                last_uncovered = start + self.dict.pattern(pid).len();
                i = i + 1;
            }
            proof {
                assert(c.skip(i as int).len() == 0);
                assert(bw.bits() + coder::cover_bits(cs, c.skip(i as int), last_start as int) =~= bw.bits());
                assert(wp[1] == 0);
            }
            let ghost bits0 = bw.bits();
            let ghost lit0 = literals@;
            self.encode_pos(&mut bw, 0);
            if len > last_uncovered {
                push_bytes(&mut literals, slice_subrange(word.as_slice(), last_uncovered, len));
            }
            proof {
                assert(bw.bits() =~= coder::word_bits(cs, word@, c));
                assert(literals@ =~= coder::literals(cs.patterns, word@, c, 0)) by {
                    if last_uncovered < len {
                        assert(word@.subrange(last_uncovered as int, len as int) =~= word@.skip(last_uncovered as int));
                    }
                }
            }
        } else {
            proof {
                assert(bw.bits() =~= coder::word_bits(cs, word@, c));
                assert(literals@ =~= coder::literals(cs.patterns, word@, c, 0));
            }
        }
        let mut out = bw.finish();
        push_bytes(&mut out, literals.as_slice());
        out
    }
}

/// The patterns in use, and their uses.
fn used_patterns(uses: &Vec<u64>, Ghost(ws): Ghost<Seq<Seq<u8>>>, Ghost(ps): Ghost<Seq<Seq<u8>>>) -> (r: (Vec<usize>, Vec<u64>, Vec<usize>))
    requires
        uses@.len() == ps.len(),
        forall|k: int| 0 <= k < uses@.len() ==> #[trigger] uses@[k] == coder::pattern_uses(ws, ps, ws.len(), k as nat),
    ensures
        r.0@.len() == coder::codes_for(ws, ps).used.len(),
        forall|i: int| 0 <= i < r.0@.len() ==> coder::codes_for(ws, ps).used[i] == #[trigger] r.0@[i] && r.0@[i] < ps.len(),
        r.1@ == coder::codes_for(ws, ps).used_uses,
        r.2@.len() == ps.len(),
        forall|k: nat|
            #[trigger] coder::codes_for(ws, ps).used.contains(k) ==> k < ps.len() && r.2@[k as int] == coder::place(
                coder::codes_for(ws, ps).used,
                k,
            ),
{
    let n: usize = uses.len();
    let mut used: Vec<usize> = Vec::new();
    let mut used_uses: Vec<u64> = Vec::new();
    let mut places: Vec<usize> = vec![0usize; n];
    let mut k: usize = 0;
    while k < n
        invariant
            k <= n,
            n == uses.len(),
            n == ps.len(),
            forall|k: int| 0 <= k < uses@.len() ==> #[trigger] uses@[k] == coder::pattern_uses(ws, ps, ws.len(), k as nat),
            used@.len() == coder::used_patterns(ws, ps, k as nat).len(),
            used_uses@.len() == used@.len(),
            places@.len() == n,
            forall|i: int|
                0 <= i < used@.len() ==> coder::used_patterns(ws, ps, k as nat)[i] == #[trigger] used@[i] && used@[i] < k
                    && used_uses@[i] == uses@[used@[i] as int] && places@[used@[i] as int] == i,
            forall|i: int, j: int| 0 <= i < j < used@.len() ==> (#[trigger] used@[i]) < (#[trigger] used@[j]),
        decreases n - k,
    {
        if uses[k] > 0 {
            places.set(k, used.len());
            used.push(k);
            used_uses.push(uses[k]);
        }
        k = k + 1;
    }
    proof {
        let cs = coder::codes_for(ws, ps);
        assert forall|i: int| 0 <= i < used_uses@.len() implies #[trigger] used_uses@[i] == cs.used_uses[i] by {
            assert(used@[i] == cs.used[i]);
        }
        assert(used_uses@ =~= cs.used_uses);
        assert forall|k: nat| #[trigger] cs.used.contains(k) implies k < ps.len() && places@[k as int] == coder::place(
            cs.used,
            k,
        ) by {
            roundtrip::lemma_place(cs.used, k);
            let i = coder::place(cs.used, k) as int;
            assert(used@[i] == cs.used[i]);
        }
    }
    (used, used_uses, places)
}

/// Write the words with the patterns of a dictionary.
pub fn write_words(words: &Vec<Vec<u8>>, dict: &Dictionary) -> (out: Vec<u8>)
    requires
        weight(texts(words@), words@.len()) <= u64::MAX,
    ensures
        out@ == coder::seg_bytes(texts(words@), dict.patterns()),
{
    let ghost ws = texts(words@);
    let ghost ps = dict.patterns();
    let ghost cs = coder::codes_for(ws, ps);
    let (pairs, uses) = count_symbols(words, dict);
    let (used, used_uses, places) = used_patterns(&uses, Ghost(ws), Ghost(ps));
    let pat_entries = build_pattern_dict(&used_uses);
    let pat_dict = pattern_dict_bytes(&pat_entries, &used, &used_uses, dict, Ghost(cs));
    let pos_entries = build_position_dict(&pairs);
    let pos_dict = position_dict_bytes(&pos_entries, &pairs);
    proof {
        huffman::lemma_dict_tree(huffman::firsts(pairs@), huffman::seconds(pairs@));
        huffman::lemma_dict_tree(Seq::new(used_uses@.len(), |i: int| i as u64), used_uses@);
    }
    let pos_codes = code_table(pos_entries, pairs.len(), Ghost(huffman::position_tree(pairs@)));
    let pat_codes = code_table(pat_entries, used.len(), Ghost(huffman::pattern_tree(used_uses@)));
    let encoder = Encoder { dict, pairs, pos_codes, places, pat_codes, codes: Ghost(cs) };
    let mut out: Vec<u8> = Vec::new();
    push_be(&mut out, words.len() as u64, 8);
    push_be(&mut out, count_empty(words), 8);
    push_be(&mut out, pat_dict.len() as u64, 8);
    push_bytes(&mut out, pat_dict.as_slice());
    push_be(&mut out, pos_dict.len() as u64, 8);
    push_bytes(&mut out, pos_dict.as_slice());
    let ghost head = coder::header(ws, coder::pat_dict_of(cs), coder::pos_dict_of(cs));
    proof {
        assert(out@ =~= head);
        assert(out@ =~= head + coder::stream(cs, ws, 0));
    }
    let mut i: usize = 0;
    while i < words.len()
        invariant
            i <= words.len(),
            ws == texts(words@),
            ps == dict.patterns(),
            cs == coder::codes_for(ws, ps),
            weight(ws, ws.len()) <= u64::MAX,
            encoder.inv(),
            encoder.codes@ == cs,
            out@ == head + coder::stream(cs, ws, i as nat),
        decreases words.len() - i,
    {
        proof {
            assert(ws[i as int] == words@[i as int]@);
            lemma_weight_mono(ws, (i + 1) as nat, ws.len());
            roundtrip::lemma_word_has_codes(ws, ps, i as int);
        }
        let ghost before = out@;
        let e = encoder.encode_word(&words[i]);
        push_bytes(&mut out, e.as_slice());
        proof {
            assert(out@ =~= head + coder::stream(cs, ws, (i + 1) as nat));
        }
        i = i + 1;
    }
    out
}

fn count_empty(words: &Vec<Vec<u8>>) -> (n: u64)
    ensures
        n == coder::empty_words(texts(words@), words@.len()),
{
    let mut n: u64 = 0;
    let mut i: usize = 0;
    while i < words.len()
        invariant
            i <= words.len(),
            n <= i,
            n == coder::empty_words(texts(words@), i as nat),
        decreases words.len() - i,
    {
        if words[i].len() == 0 {
            n = n + 1;
        }
        i = i + 1;
    }
    n
}

} // verus!
