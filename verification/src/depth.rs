//! How deep codes can get: a code tree as high as `h` takes at least as many uses as the
//! `h`-th Fibonacci number, so that the codes of every file of less than some fifty
//! billion symbols are within what a reader accepts.

use vstd::prelude::*;
use vstd::seq_lib::*;

use crate::code;
use crate::code::Tree;
use crate::coder;
use crate::compress;
use crate::compress::weight;
use crate::huffman;
use crate::huffman::Queue;
use crate::roundtrip;
use crate::words;

verus! {

/// Fibonacci numbers: 1, 2, 3, 5, 8, …
pub open spec fn fib(h: nat) -> nat
    decreases h,
{
    if h == 0 {
        1
    } else if h == 1 {
        2
    } else {
        fib((h - 1) as nat) + fib((h - 2) as nat)
    }
}

/// More symbols than this a file needs for a code that is too deep.
pub open spec fn symbol_limit() -> nat {
    53_316_291_173
}

proof fn lemma_fib_grows(a: nat, b: nat)
    requires
        a <= b,
    ensures
        0 < fib(a) <= fib(b),
    decreases b,
{
    if b > 1 {
        lemma_fib_grows(0, (b - 1) as nat);
        lemma_fib_grows(0, (b - 2) as nat);
        if a < b {
            lemma_fib_grows(a, (b - 1) as nat);
        }
    }
}

proof fn lemma_fib_limit()
    ensures
        fib(51) == symbol_limit(),
{
    assert(fib(5) == 13) by {
        reveal_with_fuel(fib, 6);
    }
    assert(fib(6) == 21 && fib(7) == 34) by {
        reveal_with_fuel(fib, 8);
    }
    assert(fib(8) == 55);
    assert(fib(9) == 89);
    assert(fib(10) == 144);
    assert(fib(11) == 233);
    assert(fib(12) == 377);
    assert(fib(13) == 610);
    assert(fib(14) == 987);
    assert(fib(15) == 1597);
    assert(fib(16) == 2584);
    assert(fib(17) == 4181);
    assert(fib(18) == 6765);
    assert(fib(19) == 10946);
    assert(fib(20) == 17711);
    assert(fib(21) == 28657);
    assert(fib(22) == 46368);
    assert(fib(23) == 75025);
    assert(fib(24) == 121393);
    assert(fib(25) == 196418);
    assert(fib(26) == 317811);
    assert(fib(27) == 514229);
    assert(fib(28) == 832040);
    assert(fib(29) == 1346269);
    assert(fib(30) == 2178309);
    assert(fib(31) == 3524578);
    assert(fib(32) == 5702887);
    assert(fib(33) == 9227465);
    assert(fib(34) == 14930352);
    assert(fib(35) == 24157817);
    assert(fib(36) == 39088169);
    assert(fib(37) == 63245986);
    assert(fib(38) == 102334155);
    assert(fib(39) == 165580141);
    assert(fib(40) == 267914296);
    assert(fib(41) == 433494437);
    assert(fib(42) == 701408733);
    assert(fib(43) == 1134903170);
    assert(fib(44) == 1836311903);
    assert(fib(45) == 2971215073);
    assert(fib(46) == 4807526976);
    assert(fib(47) == 7778742049);
    assert(fib(48) == 12586269025);
    assert(fib(49) == 20365011074);
    assert(fib(50) == 32951280099);
}

// ------------------------------------------------------------------ one tree

/// Every item has as many uses as its height asks for, and what was taken last has as
/// many as any subtree's children ask for.
spec fn thrifty(q: Queue, m: nat) -> bool {
    &&& huffman::settled(q, m)
    &&& forall|k: int| 0 <= k < q.leaves.len() ==> (#[trigger] q.leaves[k]).0 is Leaf && q.leaves[k].1 >= 1
    &&& forall|k: int| 0 <= k < q.nodes.len() ==> stout(#[trigger] q.nodes[k], m)
}

/// A subtree with its uses.
spec fn stout(x: (Tree, nat), m: nat) -> bool {
    &&& code::height(x.0) >= 1
    &&& fib(code::height(x.0)) <= x.1
    &&& fib((code::height(x.0) - 1) as nat) <= m
}

/// What is picked is a symbol or a stout subtree, and so is what stays.
proof fn lemma_pick_thrifty(q: Queue, m: nat)
    requires
        huffman::items(q) >= 1,
        thrifty(q, m),
    ensures
        thrifty(huffman::pick(q).1, m),
        stout(huffman::pick(q).0, m) || (huffman::pick(q).0.0 is Leaf && huffman::pick(q).0.1 >= 1),
        huffman::pick(q).0.1 >= m,
{
    huffman::lemma_pick_settled(q, m);
    let (a, r) = huffman::pick(q);
    if q.nodes.len() > 0 && (q.leaves.len() == 0 || q.nodes[0].1 < q.leaves[0].1) {
        assert(stout(q.nodes[0], m));
        assert forall|k: int| 0 <= k < r.nodes.len() implies stout(#[trigger] r.nodes[k], m) by {
            assert(r.nodes[k] == q.nodes[k + 1]);
        }
    } else {
        assert(q.leaves[0].0 is Leaf);
        assert forall|k: int| 0 <= k < r.leaves.len() implies (#[trigger] r.leaves[k]).0 is Leaf && r.leaves[k].1 >= 1 by {
            assert(r.leaves[k] == q.leaves[k + 1]);
        }
    }
}

/// The join of two items is stout.
proof fn lemma_join_stout(a: (Tree, nat), b: (Tree, nat), m: nat)
    requires
        stout(a, m) || (a.0 is Leaf && a.1 >= 1),
        stout(b, m) || (b.0 is Leaf && b.1 >= 1),
        m <= a.1 <= b.1,
    ensures
        stout((Tree::Node(Box::new(a.0), Box::new(b.0)), a.1 + b.1), b.1),
{
    let ha = code::height(a.0);
    let hb = code::height(b.0);
    assert(fib(0) == 1 && fib(1) == 2);
    assert(fib(ha) <= a.1);
    assert(fib(hb) <= b.1);
    let t = Tree::Node(Box::new(a.0), Box::new(b.0));
    let h = if ha > hb { ha } else { hb };
    assert(code::height(t) == h + 1);
    if h >= 1 {
        assert(fib(h + 1) == fib(h) + fib((h - 1) as nat));
    }
}

proof fn lemma_join_thrifty(q: Queue, m: nat)
    requires
        huffman::items(q) >= 2,
        thrifty(q, m),
    ensures
        thrifty(huffman::join(q), huffman::pick(huffman::pick(q).1).0.1),
{
    let (a, q1) = huffman::pick(q);
    huffman::lemma_pick(q);
    lemma_pick_thrifty(q, m);
    huffman::lemma_pick_settled(q, m);
    let (b, q2) = huffman::pick(q1);
    lemma_pick_thrifty(q1, m);
    huffman::lemma_pick_settled(q1, m);
    huffman::lemma_join_settled(q, m);
    assert(a.1 <= b.1);
    lemma_join_stout(a, b, m);
    let j = huffman::join(q);
    assert forall|k: int| 0 <= k < j.nodes.len() implies stout(#[trigger] j.nodes[k], b.1) by {
        if k < q2.nodes.len() {
            assert(j.nodes[k] == q2.nodes[k]);
            assert(stout(q2.nodes[k], m));
        }
    }
}

proof fn lemma_joined_height(q: Queue, m: nat)
    requires
        thrifty(q, m),
        huffman::items(q) >= 1,
    ensures
        fib(code::height(huffman::joined(q))) <= huffman::sum(q.leaves) + huffman::sum(q.nodes),
    decreases huffman::items(q),
{
    if huffman::items(q) == 1 {
        reveal_with_fuel(huffman::sum, 2);
        if q.nodes.len() == 1 {
            assert(stout(q.nodes[0], m));
        } else {
            assert(q.leaves[0].0 is Leaf);
        }
    } else {
        huffman::lemma_pick(q);
        huffman::lemma_pick(huffman::pick(q).1);
        lemma_join_thrifty(q, m);
        huffman::lemma_join_settled(q, m);
        lemma_joined_height(huffman::join(q), huffman::pick(huffman::pick(q).1).0.1);
    }
}

/// The uses of the first `n` symbols together.
pub open spec fn total_uses(uses: Seq<u64>, n: nat) -> nat
    decreases n,
{
    if n == 0 {
        0
    } else {
        total_uses(uses, (n - 1) as nat) + uses[n - 1] as nat
    }
}

spec fn adder(uses: Seq<u64>) -> spec_fn(int, nat) -> nat {
    |i: int, acc: nat| uses[i] as nat + acc
}

proof fn lemma_fold_uses(order: Seq<int>, uses: Seq<u64>, v: nat)
    ensures
        order.fold_right(adder(uses), v) == v + huffman::sum(huffman::leaf_queue(order, uses).leaves),
    decreases order.len(),
{
    let l = huffman::leaf_queue(order, uses).leaves;
    if order.len() == 0 {
        assert(l.len() == 0);
    } else {
        let d = order.drop_last();
        let ld = huffman::leaf_queue(d, uses).leaves;
        lemma_fold_uses(d, uses, adder(uses)(order.last(), v));
        let x = (Tree::Leaf(order.last() as nat), uses[order.last()] as nat);
        assert(l =~= ld.push(x));
        huffman::lemma_sum_push(ld, x);
    }
}

proof fn lemma_total_is_sum(uses: Seq<u64>, n: nat)
    requires
        n <= uses.len(),
    ensures
        huffman::sum(huffman::leaf_queue(Seq::new(n, |i: int| i), uses).leaves) == total_uses(uses, n),
    decreases n,
{
    let o = Seq::new(n, |i: int| i);
    let l = huffman::leaf_queue(o, uses).leaves;
    if n == 0 {
        assert(l.len() == 0);
    } else {
        lemma_total_is_sum(uses, (n - 1) as nat);
        let d = Seq::new((n - 1) as nat, |i: int| i);
        let ld = huffman::leaf_queue(d, uses).leaves;
        let x = (Tree::Leaf((n - 1) as nat), uses[n - 1] as nat);
        assert(l =~= ld.push(x));
        huffman::lemma_sum_push(ld, x);
    }
}

/// A code tree takes at least as many uses as the Fibonacci number of its height.
pub proof fn law_tree_height(keys: Seq<u64>, uses: Seq<u64>)
    requires
        uses.len() > 0,
        forall|i: int| 0 <= i < uses.len() ==> #[trigger] uses[i] >= 1,
    ensures
        fib(code::height(huffman::dict_tree(keys, uses))) <= total_uses(uses, uses.len()),
{
    let o = huffman::leaf_order(keys, uses);
    let s = Seq::new(uses.len(), |i: int| i);
    huffman::lemma_leaf_order(keys, uses);
    let q = huffman::leaf_queue(o, uses);
    let le = |i: int, j: int| huffman::leaf_le(keys, uses, i, j);
    assert forall|a: int, b: int| 0 <= a <= b < q.leaves.len() implies (#[trigger] q.leaves[a]).1 <= (
    #[trigger] q.leaves[b]).1 by {
        if a < b {
            assert(le(o[a], o[b]));
        }
    }
    assert forall|k: int| 0 <= k < q.leaves.len() implies (#[trigger] q.leaves[k]).0 is Leaf && q.leaves[k].1 >= 1 by {
        assert(uses[o[k]] >= 1);
    }
    assert(thrifty(q, 0));
    lemma_joined_height(q, 0);
    assert(commutative_foldr(adder(uses)));
    lemma_fold_right_permutation(o, s, adder(uses), 0);
    lemma_fold_uses(o, uses, 0);
    lemma_fold_uses(s, uses, 0);
    lemma_total_is_sum(uses, uses.len());
}

proof fn lemma_shallow(keys: Seq<u64>, uses: Seq<u64>)
    requires
        forall|i: int| 0 <= i < uses.len() ==> #[trigger] uses[i] >= 1,
        total_uses(uses, uses.len()) < symbol_limit(),
    ensures
        roundtrip::shallow(huffman::dict_tree(keys, uses)),
{
    let t = huffman::dict_tree(keys, uses);
    huffman::lemma_dict_tree(keys, uses);
    if uses.len() > 0 {
        law_tree_height(keys, uses);
        if code::height(t) > 50 {
            lemma_fib_limit();
            lemma_fib_grows(51, code::height(t));
        }
    }
}

// ------------------------------------------------------------------ positions

proof fn lemma_total_prepend(x: u64, s: Seq<u64>, n: nat)
    requires
        n <= s.len(),
    ensures
        total_uses(seq![x] + s, n + 1) == x + total_uses(s, n),
    decreases n,
{
    let t = seq![x] + s;
    if n == 0 {
        reveal_with_fuel(total_uses, 2);
    } else {
        lemma_total_prepend(x, s, (n - 1) as nat);
        assert(t[n as int] == s[n - 1]);
    }
}

/// The uses of all pairs together.
spec fn pair_total(pairs: Seq<(u64, u64)>) -> nat {
    total_uses(huffman::seconds(pairs), pairs.len())
}

proof fn lemma_pair_total(p: (u64, u64), pairs: Seq<(u64, u64)>)
    ensures
        pair_total(seq![p] + pairs) == p.1 + pair_total(pairs),
{
    assert(huffman::seconds(seq![p] + pairs) =~= seq![p.1] + huffman::seconds(pairs));
    lemma_total_prepend(p.1, huffman::seconds(pairs), pairs.len());
}

/// Every pair has a use.
spec fn all_used(pairs: Seq<(u64, u64)>) -> bool {
    forall|i: int| 0 <= i < pairs.len() ==> (#[trigger] pairs[i]).1 >= 1
}

proof fn lemma_bump_total(pairs: Seq<(u64, u64)>, p: u64)
    requires
        all_used(pairs),
        pair_total(pairs) < u64::MAX,
    ensures
        all_used(coder::bump(pairs, p)),
        pair_total(coder::bump(pairs, p)) == pair_total(pairs) + 1,
    decreases pairs.len(),
{
    let b = coder::bump(pairs, p);
    if pairs.len() == 0 || p < pairs[0].0 {
        lemma_pair_total((p, 1u64), pairs);
        assert forall|i: int| 0 <= i < b.len() implies (#[trigger] b[i]).1 >= 1 by {
            if i > 0 {
                assert(b[i] == pairs[i - 1]);
            }
        }
    } else {
        let r = pairs.drop_first();
        assert(pairs =~= seq![pairs[0]] + r);
        lemma_pair_total(pairs[0], r);
        assert forall|i: int| 0 <= i < r.len() implies (#[trigger] r[i]).1 >= 1 by {
            assert(r[i] == pairs[i + 1]);
        }
        if p == pairs[0].0 {
            lemma_pair_total((p, (pairs[0].1 + 1) as u64), r);
            assert forall|i: int| 0 <= i < b.len() implies (#[trigger] b[i]).1 >= 1 by {
                if i > 0 {
                    assert(b[i] == r[i - 1]);
                }
            }
        } else {
            lemma_bump_total(r, p);
            let c = coder::bump(r, p);
            lemma_pair_total(pairs[0], c);
            assert forall|i: int| 0 <= i < b.len() implies (#[trigger] b[i]).1 >= 1 by {
                if i > 0 {
                    assert(b[i] == c[i - 1]);
                } else {
                    assert(b[0] == pairs[0]);
                }
            }
        }
    }
}

proof fn lemma_tally_total(ps: Seq<u64>)
    requires
        ps.len() <= u64::MAX,
    ensures
        all_used(coder::tally(ps)),
        pair_total(coder::tally(ps)) == ps.len(),
    decreases ps.len(),
{
    if ps.len() > 0 {
        lemma_tally_total(ps.drop_last());
        lemma_bump_total(coder::tally(ps.drop_last()), ps.last());
    } else {
        assert(coder::tally(ps).len() == 0);
    }
}

// ------------------------------------------------------------------ patterns

/// How often a cover uses the first `n` of `used` together.
spec fn uses_in_cover(c: Seq<(int, nat)>, used: Seq<nat>, n: nat) -> nat
    decreases n,
{
    if n == 0 {
        0
    } else {
        uses_in_cover(c, used, (n - 1) as nat) + coder::cover_uses(c, used[n - 1])
    }
}

/// How often `k` is among the first `n` of `used`.
spec fn times(used: Seq<nat>, k: nat, n: nat) -> nat
    decreases n,
{
    if n == 0 {
        0
    } else {
        times(used, k, (n - 1) as nat) + if used[n - 1] == k { 1nat } else { 0nat }
    }
}

spec fn distinct(used: Seq<nat>) -> bool {
    forall|a: int, b: int| 0 <= a < b < used.len() ==> #[trigger] used[a] < #[trigger] used[b]
}

proof fn lemma_times_once(used: Seq<nat>, k: nat, n: nat)
    requires
        distinct(used),
        n <= used.len(),
    ensures
        times(used, k, n) <= 1,
        (forall|i: int| 0 <= i < n ==> #[trigger] used[i] != k) ==> times(used, k, n) == 0,
    decreases n,
{
    if n > 0 {
        lemma_times_once(used, k, (n - 1) as nat);
        if used[n - 1] == k {
            assert forall|i: int| 0 <= i < n - 1 implies #[trigger] used[i] != k by {
                assert(used[i] < used[n - 1]);
            }
            assert(times(used, k, (n - 1) as nat) == 0);
        }
    }
}

proof fn lemma_cover_step(c: Seq<(int, nat)>, used: Seq<nat>, n: nat)
    requires
        c.len() > 0,
        n <= used.len(),
    ensures
        uses_in_cover(c, used, n) == uses_in_cover(c.drop_last(), used, n) + times(used, c.last().1, n),
    decreases n,
{
    if n > 0 {
        lemma_cover_step(c, used, (n - 1) as nat);
    }
}

proof fn lemma_cover_total(c: Seq<(int, nat)>, used: Seq<nat>)
    requires
        distinct(used),
    ensures
        uses_in_cover(c, used, used.len()) <= c.len(),
    decreases c.len(),
{
    if c.len() == 0 {
        lemma_cover_empty(c, used, used.len());
    } else {
        lemma_cover_total(c.drop_last(), used);
        lemma_cover_step(c, used, used.len());
        lemma_times_once(used, c.last().1, used.len());
    }
}

proof fn lemma_cover_empty(c: Seq<(int, nat)>, used: Seq<nat>, n: nat)
    requires
        c.len() == 0,
    ensures
        uses_in_cover(c, used, n) == 0,
    decreases n,
{
    if n > 0 {
        lemma_cover_empty(c, used, (n - 1) as nat);
    }
}

/// How often the first `w` words use the first `n` of `used` together.
spec fn uses_in_words(ws: Seq<Seq<u8>>, patterns: Seq<Seq<u8>>, w: nat, used: Seq<nat>, n: nat) -> nat
    decreases n,
{
    if n == 0 {
        0
    } else {
        uses_in_words(ws, patterns, w, used, (n - 1) as nat) + coder::pattern_uses(ws, patterns, w, used[n - 1])
    }
}

proof fn lemma_words_step(ws: Seq<Seq<u8>>, patterns: Seq<Seq<u8>>, w: nat, used: Seq<nat>, n: nat)
    requires
        w > 0,
    ensures
        uses_in_words(ws, patterns, w, used, n) == uses_in_words(ws, patterns, (w - 1) as nat, used, n) + uses_in_cover(
            coder::cover(patterns, ws[w - 1]),
            used,
            n,
        ),
    decreases n,
{
    if n > 0 {
        lemma_words_step(ws, patterns, w, used, (n - 1) as nat);
    }
}

proof fn lemma_words_none(ws: Seq<Seq<u8>>, patterns: Seq<Seq<u8>>, used: Seq<nat>, n: nat)
    ensures
        uses_in_words(ws, patterns, 0, used, n) == 0,
    decreases n,
{
    if n > 0 {
        lemma_words_none(ws, patterns, used, (n - 1) as nat);
    }
}

proof fn lemma_words_total(ws: Seq<Seq<u8>>, patterns: Seq<Seq<u8>>, w: nat, used: Seq<nat>)
    requires
        w <= ws.len(),
        distinct(used),
    ensures
        uses_in_words(ws, patterns, w, used, used.len()) <= weight(ws, w),
    decreases w,
{
    if w == 0 {
        lemma_words_none(ws, patterns, used, used.len());
    } else {
        lemma_words_total(ws, patterns, (w - 1) as nat, used);
        lemma_words_step(ws, patterns, w, used, used.len());
        lemma_cover_total(coder::cover(patterns, ws[w - 1]), used);
        coder::lemma_cover_from(patterns, ws[w - 1], 0, 0);
    }
}

proof fn lemma_used_distinct(ws: Seq<Seq<u8>>, patterns: Seq<Seq<u8>>, n: nat)
    ensures
        distinct(coder::used_patterns(ws, patterns, n)),
        forall|i: int| 0 <= i < coder::used_patterns(ws, patterns, n).len() ==> #[trigger] coder::used_patterns(
            ws,
            patterns,
            n,
        )[i] < n,
        forall|i: int| 0 <= i < coder::used_patterns(ws, patterns, n).len() ==> coder::pattern_uses(
            ws,
            patterns,
            ws.len(),
            #[trigger] coder::used_patterns(ws, patterns, n)[i],
        ) > 0,
    decreases n,
{
    if n > 0 {
        lemma_used_distinct(ws, patterns, (n - 1) as nat);
    }
}

proof fn lemma_used_total(ws: Seq<Seq<u8>>, patterns: Seq<Seq<u8>>, n: nat)
    requires
        weight(ws, ws.len()) <= u64::MAX,
        n <= coder::codes_for(ws, patterns).used.len(),
    ensures
        total_uses(coder::codes_for(ws, patterns).used_uses, n) == uses_in_words(
            ws,
            patterns,
            ws.len(),
            coder::codes_for(ws, patterns).used,
            n,
        ),
    decreases n,
{
    if n > 0 {
        lemma_used_total(ws, patterns, (n - 1) as nat);
        compress::lemma_symbols_bound(ws, patterns, ws.len(), coder::codes_for(ws, patterns).used[n - 1]);
    }
}

// ------------------------------------------------------------------ the file

/// A file of less than some fifty billion bytes and words opens and reads back: its codes
/// are never too deep.
pub proof fn law_small_files_are_readable(ws: Seq<Seq<u8>>, patterns: Seq<Seq<u8>>)
    requires
        weight(ws, ws.len()) < symbol_limit(),
        forall|i: int| 0 <= i < ws.len() ==> (#[trigger] ws[i]).len() <= isize::MAX,
        coder::seg_bytes(ws, patterns).len() <= u64::MAX,
    ensures
        roundtrip::readable(ws, patterns),
        words::parse_seg(coder::seg_bytes(ws, patterns), false) is Some,
{
    let cs = coder::codes_for(ws, patterns);
    let ps = coder::all_positions(ws, patterns, ws.len());
    compress::lemma_symbols_bound(ws, patterns, ws.len(), 0);
    lemma_tally_total(ps);
    let pu = huffman::seconds(cs.pairs);
    assert forall|i: int| 0 <= i < pu.len() implies #[trigger] pu[i] >= 1 by {
        assert(cs.pairs[i].1 >= 1);
    }
    lemma_shallow(huffman::firsts(cs.pairs), pu);
    lemma_used_distinct(ws, patterns, patterns.len());
    lemma_words_total(ws, patterns, ws.len(), cs.used);
    lemma_used_total(ws, patterns, cs.used.len());
    let uu = cs.used_uses;
    assert forall|i: int| 0 <= i < uu.len() implies #[trigger] uu[i] >= 1 by {
        assert(coder::pattern_uses(ws, patterns, ws.len(), cs.used[i]) > 0);
        compress::lemma_symbols_bound(ws, patterns, ws.len(), cs.used[i]);
    }
    lemma_shallow(Seq::new(uu.len(), |i: int| i as u64), uu);
    compress::lemma_weight_counts(ws, ws.len());
    roundtrip::law_written_file_opens(ws, patterns);
}

} // verus!
