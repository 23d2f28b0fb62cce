//! Huffman construction for the two dictionaries of a seg file.
//!
//! Symbols are numbered `0..n`; each has a number of uses and a key that breaks ties. The
//! two least used items, drawn from the sorted symbols or from the subtrees built so far,
//! are joined until one tree is left. A dictionary lists the symbols in the walk order of
//! that tree with the depth of each; the codes themselves are not stored.

use std::collections::VecDeque;

use vstd::prelude::*;
use vstd::relations::*;
use vstd::seq_lib::*;

use crate::code;
use crate::code::Tree;
use crate::sort;
use crate::sort::Ranking;

verus! {

// ------------------------------------------------------------------ the code tree

/// The low `n` bits of `x` in reverse order.
pub open spec fn reversed(x: nat, n: nat) -> nat
    decreases n,
{
    if n == 0 {
        0
    } else {
        (x % 2) * vstd::arithmetic::power2::pow2((n - 1) as nat) + reversed(x / 2, (n - 1) as nat)
    }
}

/// Symbol `i` is considered before symbol `j`: fewer uses first, then the smaller
/// bit-reversed key, then the smaller number.
pub open spec fn leaf_le(keys: Seq<u64>, uses: Seq<u64>, i: int, j: int) -> bool {
    let a = reversed(keys[i] as nat, 64);
    let b = reversed(keys[j] as nat, 64);
    uses[i] < uses[j] || (uses[i] == uses[j] && (a < b || (a == b && i <= j)))
}

/// The symbols in the order in which they are considered.
pub open spec fn leaf_order(keys: Seq<u64>, uses: Seq<u64>) -> Seq<int> {
    Seq::new(uses.len(), |i: int| i).sort_by(|i: int, j: int| leaf_le(keys, uses, i, j))
}

/// What is still to be joined: the remaining symbols and the subtrees built so far, the
/// latter in the order in which they were built, each with its number of uses.
pub struct Queue {
    pub leaves: Seq<(Tree, nat)>,
    pub nodes: Seq<(Tree, nat)>,
}

/// The place of the least used item; the first of several.
pub open spec fn least(nodes: Seq<(Tree, nat)>) -> int
    decreases nodes.len(),
{
    if nodes.len() <= 1 {
        0
    } else {
        let i = least(nodes.drop_last());
        if nodes.last().1 < nodes[i].1 { nodes.len() - 1 } else { i }
    }
}

/// Take out the least used item; a symbol rather than a subtree with as many uses.
pub open spec fn pick(q: Queue) -> ((Tree, nat), Queue) {
    let i = least(q.nodes);
    if q.nodes.len() > 0 && (q.leaves.len() == 0 || q.nodes[i].1 < q.leaves[0].1) {
        (q.nodes[i], Queue { leaves: q.leaves, nodes: q.nodes.remove(i) })
    } else {
        (q.leaves[0], Queue { leaves: q.leaves.drop_first(), nodes: q.nodes })
    }
}

/// Join the two least used items.
pub open spec fn join(q: Queue) -> Queue {
    let (a, q1) = pick(q);
    let (b, q2) = pick(q1);
    Queue { leaves: q2.leaves, nodes: q2.nodes.push((Tree::Node(Box::new(a.0), Box::new(b.0)), a.1 + b.1)) }
}

pub open spec fn items(q: Queue) -> nat {
    q.leaves.len() + q.nodes.len()
}

/// Join until one tree is left.
pub open spec fn joined(q: Queue) -> Tree
    decreases items(q),
{
    if items(q) <= 1 {
        if q.nodes.len() == 1 {
            q.nodes[0].0
        } else if q.leaves.len() == 1 {
            q.leaves[0].0
        } else {
            Tree::Empty
        }
    } else {
        proof {
            lemma_pick(q);
            lemma_pick(pick(q).1);
        }
        joined(join(q))
    }
}

/// The queue that a list of symbols starts with.
pub open spec fn leaf_queue(order: Seq<int>, uses: Seq<u64>) -> Queue {
    Queue {
        leaves: Seq::new(order.len(), |k: int| (Tree::Leaf(order[k] as nat), uses[order[k]] as nat)),
        nodes: Seq::empty(),
    }
}

/// The code tree of symbols with these keys and uses.
pub open spec fn dict_tree(keys: Seq<u64>, uses: Seq<u64>) -> Tree {
    joined(leaf_queue(leaf_order(keys, uses), uses))
}

// ------------------------------------------------------------------ facts

pub proof fn lemma_least(nodes: Seq<(Tree, nat)>)
    ensures
        nodes.len() > 0 ==> 0 <= least(nodes) < nodes.len(),
        nodes.len() > 0 ==> forall|k: int| 0 <= k < nodes.len() ==> nodes[least(nodes)].1 <= (#[trigger] nodes[k]).1,
    decreases nodes.len(),
{
    if nodes.len() > 1 {
        lemma_least(nodes.drop_last());
        assert forall|k: int| 0 <= k < nodes.len() implies nodes[least(nodes)].1 <= (#[trigger] nodes[k]).1 by {
            if k < nodes.len() - 1 {
                assert(nodes.drop_last()[k] == nodes[k]);
            }
        }
    }
}

/// In a list sorted by uses the first item is the least.
proof fn lemma_least_sorted(nodes: Seq<(Tree, nat)>)
    requires
        forall|a: int, b: int| 0 <= a <= b < nodes.len() ==> (#[trigger] nodes[a]).1 <= (#[trigger] nodes[b]).1,
    ensures
        least(nodes) == 0,
    decreases nodes.len(),
{
    if nodes.len() > 1 {
        lemma_least_sorted(nodes.drop_last());
    }
}

pub proof fn lemma_pick(q: Queue)
    ensures
        items(q) >= 1 ==> items(pick(q).1) == items(q) - 1,
{
    lemma_least(q.nodes);
}

/// `t` has a leaf with symbol `s`.
pub open spec fn has(t: Tree, s: nat) -> bool
    decreases t,
{
    match t {
        Tree::Empty => false,
        Tree::Leaf(x) => x == s,
        Tree::Node(l, r) => has(*l, s) || has(*r, s),
    }
}

/// Every symbol of `t` is below `n`.
pub open spec fn symbols_below(t: Tree, n: nat) -> bool
    decreases t,
{
    match t {
        Tree::Empty => true,
        Tree::Leaf(x) => x < n,
        Tree::Node(l, r) => symbols_below(*l, n) && symbols_below(*r, n),
    }
}

spec fn fine(s: Seq<(Tree, nat)>, n: nat) -> bool {
    forall|k: int| 0 <= k < s.len() ==> code::full((#[trigger] s[k]).0) && symbols_below(s[k].0, n)
}

spec fn held(s: Seq<(Tree, nat)>, x: nat) -> bool {
    exists|k: int| 0 <= k < s.len() && has((#[trigger] s[k]).0, x)
}

proof fn lemma_pick_keeps(q: Queue, n: nat, x: nat)
    requires
        items(q) >= 1,
        fine(q.leaves, n),
        fine(q.nodes, n),
    ensures
        code::full(pick(q).0.0),
        symbols_below(pick(q).0.0, n),
        fine(pick(q).1.leaves, n),
        fine(pick(q).1.nodes, n),
        held(q.leaves, x) || held(q.nodes, x) ==> has(pick(q).0.0, x) || held(pick(q).1.leaves, x) || held(
            pick(q).1.nodes,
            x,
        ),
{
    lemma_least(q.nodes);
    let i = least(q.nodes);
    let (a, r) = pick(q);
    if q.nodes.len() > 0 && (q.leaves.len() == 0 || q.nodes[i].1 < q.leaves[0].1) {
        assert forall|k: int| 0 <= k < r.nodes.len() implies code::full((#[trigger] r.nodes[k]).0) && symbols_below(
            r.nodes[k].0,
            n,
        ) by {
            assert(r.nodes[k] == if k < i { q.nodes[k] } else { q.nodes[k + 1] });
        }
        if held(q.nodes, x) {
            let k = choose|k: int| 0 <= k < q.nodes.len() && has((#[trigger] q.nodes[k]).0, x);
            if k < i {
                assert(r.nodes[k] == q.nodes[k]);
            } else if k > i {
                assert(r.nodes[k - 1] == q.nodes[k]);
            }
        }
    } else {
        assert forall|k: int| 0 <= k < r.leaves.len() implies code::full((#[trigger] r.leaves[k]).0)
            && symbols_below(r.leaves[k].0, n) by {
            assert(r.leaves[k] == q.leaves[k + 1]);
        }
        if held(q.leaves, x) {
            let k = choose|k: int| 0 <= k < q.leaves.len() && has((#[trigger] q.leaves[k]).0, x);
            if k > 0 {
                assert(r.leaves[k - 1] == q.leaves[k]);
            }
        }
    }
}

/// Joining keeps every symbol and yields a full tree.
proof fn lemma_joined(q: Queue, n: nat, x: nat)
    requires
        fine(q.leaves, n),
        fine(q.nodes, n),
    ensures
        items(q) > 0 ==> code::full(joined(q)),
        symbols_below(joined(q), n),
        held(q.leaves, x) || held(q.nodes, x) ==> has(joined(q), x),
    decreases items(q),
{
    if items(q) > 1 {
        let (a, q1) = pick(q);
        lemma_pick(q);
        lemma_pick_keeps(q, n, x);
        let (b, q2) = pick(q1);
        lemma_pick(q1);
        lemma_pick_keeps(q1, n, x);
        let j = join(q);
        let t = Tree::Node(Box::new(a.0), Box::new(b.0));
        assert forall|k: int| 0 <= k < j.nodes.len() implies code::full((#[trigger] j.nodes[k]).0) && symbols_below(
            j.nodes[k].0,
            n,
        ) by {
            if k < q2.nodes.len() {
                assert(j.nodes[k] == q2.nodes[k]);
            } else {
                assert(j.nodes[k].0 == t);
            }
        }
        if held(q.leaves, x) || held(q.nodes, x) {
            if has(t, x) {
                assert(has(j.nodes[j.nodes.len() - 1].0, x));
            } else if held(q2.nodes, x) {
                let k = choose|k: int| 0 <= k < q2.nodes.len() && has((#[trigger] q2.nodes[k]).0, x);
                assert(j.nodes[k] == q2.nodes[k]);
            }
            assert(held(j.leaves, x) || held(j.nodes, x));
        }
        lemma_joined(j, n, x);
    }
}

proof fn lemma_leaf_le(keys: Seq<u64>, uses: Seq<u64>)
    ensures
        total_ordering(|i: int, j: int| leaf_le(keys, uses, i, j)),
{
}

/// The order lists every symbol once.
pub proof fn lemma_leaf_order(keys: Seq<u64>, uses: Seq<u64>)
    ensures
        leaf_order(keys, uses).len() == uses.len(),
        forall|k: int| 0 <= k < uses.len() ==> 0 <= #[trigger] leaf_order(keys, uses)[k] < uses.len(),
        forall|i: int| 0 <= i < uses.len() ==> #[trigger] leaf_order(keys, uses).contains(i),
        sorted_by(leaf_order(keys, uses), |i: int, j: int| leaf_le(keys, uses, i, j)),
        leaf_order(keys, uses).to_multiset() == Seq::new(uses.len(), |i: int| i).to_multiset(),
{
    broadcast use group_to_multiset_ensures;

    let s = Seq::new(uses.len(), |i: int| i);
    let le = |i: int, j: int| leaf_le(keys, uses, i, j);
    let o = leaf_order(keys, uses);
    lemma_leaf_le(keys, uses);
    s.lemma_sort_by_ensures(le);
    assert(o.to_multiset() == s.to_multiset());
    assert(o.to_multiset().len() == o.len());
    assert(s.to_multiset().len() == s.len());
    assert forall|k: int| 0 <= k < uses.len() implies 0 <= #[trigger] o[k] < uses.len() by {
        assert(o.contains(o[k]));
        assert(s.contains(o[k]));
    }
    assert forall|i: int| 0 <= i < uses.len() implies #[trigger] o.contains(i) by {
        assert(s[i] == i);
        assert(s.contains(i));
        assert(s.to_multiset().count(i) > 0);
        assert(o.to_multiset().count(i) > 0);
    }
}

/// The code tree is full, its symbols are the given ones, and it has every one of them.
pub proof fn lemma_dict_tree(keys: Seq<u64>, uses: Seq<u64>)
    ensures
        uses.len() > 0 ==> code::full(dict_tree(keys, uses)),
        uses.len() == 0 ==> dict_tree(keys, uses) is Empty,
        symbols_below(dict_tree(keys, uses), uses.len()),
        forall|i: nat| i < uses.len() ==> #[trigger] has(dict_tree(keys, uses), i),
{
    lemma_leaf_order(keys, uses);
    let o = leaf_order(keys, uses);
    let q = leaf_queue(o, uses);
    assert forall|k: int| 0 <= k < q.leaves.len() implies code::full((#[trigger] q.leaves[k]).0) && symbols_below(
        q.leaves[k].0,
        uses.len(),
    ) by {}
    lemma_joined(q, uses.len(), 0);
    assert forall|i: nat| i < uses.len() implies #[trigger] has(dict_tree(keys, uses), i) by {
        assert(o.contains(i as int));
        let k = choose|k: int| 0 <= k < o.len() && o[k] == i;
        assert(has(q.leaves[k].0, i));
        lemma_joined(q, uses.len(), i);
    }
}

pub proof fn lemma_leaf_symbol(t: Tree, d: nat, n: nat, j: int)
    requires
        symbols_below(t, n),
        0 <= j < code::size(t),
    ensures
        code::leaves(t, d)[j].0 < n,
    decreases t,
{
    code::lemma_leaves(t, d);
    match t {
        Tree::Node(l, r) => {
            code::lemma_leaves(*l, d + 1);
            code::lemma_leaves(*r, d + 1);
            if j < code::size(*l) {
                lemma_leaf_symbol(*l, d + 1, n, j);
            } else {
                lemma_leaf_symbol(*r, d + 1, n, j - code::size(*l));
            }
        },
        _ => {},
    }
}

// ------------------------------------------------------------------ construction

/// A symbol with its code: the bits from the root of the tree down, in the order in which
/// they are written. The depth of the symbol is the length of its code.
pub struct Coded {
    pub symbol: usize,
    pub code: Vec<bool>,
}

/// `entries` are the leaves of `t` in walk order with their codes.
pub open spec fn codes_of(t: Tree, entries: Seq<Coded>) -> bool {
    &&& entries.len() == code::size(t)
    &&& forall|j: int|
        0 <= j < entries.len() ==> (#[trigger] entries[j]).symbol == code::leaves(t, 0)[j].0 && entries[j].code@
            == code::path_of(t, j)
}

/// Reverse the 64 bits of `x`.
pub fn reverse_bits(x: u64) -> (r: u64)
    ensures
        r == reversed(x as nat, 64),
{
    let mut y: u64 = x;
    let mut r: u64 = 0;
    let mut k: u64 = 0;
    proof {
        vstd::arithmetic::power2::lemma2_to64();
    }
    while k < 64
        invariant
            k <= 64,
            r < vstd::arithmetic::power2::pow2(k as nat),
            r * vstd::arithmetic::power2::pow2((64 - k) as nat) + reversed(y as nat, (64 - k) as nat) == reversed(x as nat, 64),
        decreases 64 - k,
    {
        proof {
            let m = (64 - k) as nat;
            let h = vstd::arithmetic::power2::pow2((m - 1) as nat) as int;
            vstd::arithmetic::power2::lemma_pow2_unfold(m);
            vstd::arithmetic::power2::lemma_pow2_unfold((k + 1) as nat);
            crate::bits::lemma_pow2_64();
            if k < 63 {
                vstd::arithmetic::power2::lemma_pow2_strictly_increases((k + 1) as nat, 64);
            }
            let b = (y % 2) as int;
            let ri = r as int;
            assert((2 * ri + b) * h == ri * (2 * h) + b * h) by (nonlinear_arith);
        }
        r = 2 * r + y % 2;
        y = y / 2;
        k = k + 1;
    }
    proof {
        vstd::arithmetic::power2::lemma2_to64();
        assert(r * vstd::arithmetic::power2::pow2(0) == r) by (nonlinear_arith)
            requires
                vstd::arithmetic::power2::pow2(0) == 1,
        ;
    }
    r
}

/// Ranks symbols by uses, then by reversed key, then by number.
struct ByUses<'a> {
    keys: &'a Vec<u64>,
    reversed_keys: Vec<u64>,
    uses: &'a Vec<u64>,
}

impl<'a> ByUses<'a> {
    #[verifier::type_invariant]
    spec fn inv(self) -> bool {
        &&& self.keys@.len() == self.uses@.len()
        &&& self.reversed_keys@.len() == self.uses@.len()
        &&& forall|i: int|
            0 <= i < self.keys@.len() ==> #[trigger] self.reversed_keys@[i] == reversed(self.keys@[i] as nat, 64)
    }
}

impl<'a> Ranking for ByUses<'a> {
    closed spec fn count(&self) -> nat {
        self.uses@.len()
    }

    closed spec fn precedes(&self, i: int, j: int) -> bool {
        i != j && leaf_le(self.keys@, self.uses@, i, j)
    }

    proof fn ranking_is_total(&self, i: int, j: int) {
    }

    proof fn ranking_is_transitive(&self, i: int, j: int, k: int) {
    }

    fn before(&self, i: usize, j: usize) -> (r: bool) {
        proof {
            use_type_invariant(self);
        }
        if self.uses[i] != self.uses[j] {
            self.uses[i] < self.uses[j]
        } else if self.reversed_keys[i] != self.reversed_keys[j] {
            self.reversed_keys[i] < self.reversed_keys[j]
        } else {
            i < j
        }
    }
}

fn sorted_leaves(keys: &Vec<u64>, uses: &Vec<u64>) -> (order: Vec<usize>)
    requires
        keys@.len() == uses@.len(),
    ensures
        order@.len() == uses@.len(),
        forall|k: int| 0 <= k < order@.len() ==> #[trigger] order@[k] == leaf_order(keys@, uses@)[k],
        forall|k: int| 0 <= k < order@.len() ==> #[trigger] order@[k] < uses@.len(),
{
    let n: usize = uses.len();
    let mut reversed_keys: Vec<u64> = Vec::with_capacity(n);
    let mut i: usize = 0;
    while i < n
        invariant
            i <= n,
            n == keys.len(),
            reversed_keys@.len() == i,
            forall|k: int| 0 <= k < i ==> #[trigger] reversed_keys@[k] == reversed(keys@[k] as nat, 64),
        decreases n - i,
    {
        reversed_keys.push(reverse_bits(keys[i]));
        i = i + 1;
    }
    let ranking = ByUses { keys, reversed_keys, uses };
    let order = sort::sort_indices(&ranking, n);
    proof {
        let le = |i: int, j: int| leaf_le(keys@, uses@, i, j);
        let s = order@.map_values(|x: usize| x as int);
        let all = Seq::new(uses@.len(), |i: int| i);
        let o = leaf_order(keys@, uses@);
        lemma_leaf_order(keys@, uses@);
        lemma_leaf_le(keys@, uses@);
        assert forall|a: int, b: int| 0 <= a < b < s.len() implies #[trigger] le(s[a], s[b]) by {
            assert(ranking.precedes(order@[a] as int, order@[b] as int));
        }
        assert forall|a: int, b: int| 0 <= a < s.len() && 0 <= b < s.len() && a != b implies s[a] != s[b] by {
            if a < b {
                assert(ranking.precedes(order@[a] as int, order@[b] as int));
            } else {
                assert(ranking.precedes(order@[b] as int, order@[a] as int));
            }
        }
        assert forall|x: int| s.contains(x) == all.contains(x) by {
            if s.contains(x) {
                let k = choose|k: int| 0 <= k < s.len() && s[k] == x;
                assert(all[x] == x);
            }
            if all.contains(x) {
                assert(order@.contains(x as usize));
                let k = choose|k: int| 0 <= k < order@.len() && order@[k] == x as usize;
                assert(s[k] == x);
            }
        }
        lemma_same_multiset(s, all);
        lemma_sorted_unique(s, o, le);
        assert forall|k: int| 0 <= k < order@.len() implies #[trigger] order@[k] == o[k] by {
            assert(s[k] == o[k]);
        }
    }
    order
}

/// Two lists without duplicates and with the same members are the same bag.
proof fn lemma_same_multiset(s: Seq<int>, t: Seq<int>)
    requires
        s.no_duplicates(),
        t.no_duplicates(),
        forall|x: int| s.contains(x) == t.contains(x),
    ensures
        s.to_multiset() == t.to_multiset(),
{
    broadcast use group_to_multiset_ensures;

    s.lemma_multiset_has_no_duplicates();
    t.lemma_multiset_has_no_duplicates();
    let a = s.to_multiset();
    let b = t.to_multiset();
    assert forall|x: int| a.count(x) == b.count(x) by {
        assert(s.contains(x) <==> a.count(x) > 0);
        assert(t.contains(x) <==> b.count(x) > 0);
        if a.contains(x) {
            assert(a.count(x) == 1);
        }
        if b.contains(x) {
            assert(b.count(x) == 1);
        }
    }
    assert(a =~= b);
}

/// A subtree under construction.
enum Shape {
    Leaf(usize),
    Node(Box<Shape>, Box<Shape>),
}

impl Shape {
    spec fn tree(self) -> Tree
        decreases self,
    {
        match self {
            Shape::Leaf(s) => Tree::Leaf(s as nat),
            Shape::Node(l, r) => Tree::Node(Box::new(l.tree()), Box::new(r.tree())),
        }
    }

    /// Append the leaves below a node that `prefix` leads to, with their codes.
    fn list(&self, prefix: &mut Vec<bool>, out: &mut Vec<Coded>)
        ensures
            final(prefix)@ == old(prefix)@,
            final(out)@.len() == old(out)@.len() + code::size(self.tree()),
            forall|k: int| 0 <= k < old(out)@.len() ==> #[trigger] final(out)@[k] == old(out)@[k],
            forall|j: int|
                0 <= j < code::size(self.tree()) ==> (#[trigger] final(out)@[old(out)@.len() + j]).symbol
                    == code::leaves(self.tree(), 0)[j].0 && final(out)@[old(out)@.len() + j].code@ == old(prefix)@
                    + code::path_of(self.tree(), j),
        decreases self,
    {
        let ghost p0 = prefix@;
        let ghost o0 = out@;
        match self {
            Shape::Leaf(s) => {
                let code = copy_bits(prefix);
                out.push(Coded { symbol: *s, code });
                proof {
                    assert(p0 + Seq::<bool>::empty() =~= p0);
                }
            },
            Shape::Node(l, r) => {
                let ghost tl = l.tree();
                let ghost tr = r.tree();
                prefix.push(false);
                l.list(prefix, out);
                let ghost o1 = out@;
                proof {
                    assert(prefix@ =~= p0.push(false));
                }
                prefix.pop();
                prefix.push(true);
                r.list(prefix, out);
                prefix.pop();
                proof {
                    assert(prefix@ =~= p0);
                    code::lemma_leaves(tl, 0);
                    code::lemma_leaves(tr, 0);
                    code::lemma_leaves(tl, 1);
                    code::lemma_leaves(tr, 1);
                    code::lemma_leaves(self.tree(), 0);
                    assert forall|j: int| 0 <= j < code::size(self.tree()) implies (#[trigger] out@[o0.len()
                        + j]).symbol == code::leaves(self.tree(), 0)[j].0 && out@[o0.len() + j].code@ == p0
                        + code::path_of(self.tree(), j) by {
                        if j < code::size(tl) {
                            assert(out@[o0.len() + j] == o1[o0.len() + j]);
                            lemma_leaves_shift(tl, 0, 1, j);
                            assert(p0.push(false) + code::path_of(tl, j) =~= p0 + (seq![false] + code::path_of(tl, j)));
                        } else {
                            let i = j - code::size(tl);
                            assert(out@[o0.len() + j] == out@[o1.len() + i]);
                            lemma_leaves_shift(tr, 0, 1, i);
                            assert(p0.push(true) + code::path_of(tr, i) =~= p0 + (seq![true] + code::path_of(tr, i)));
                        }
                    }
                    assert forall|k: int| 0 <= k < o0.len() implies #[trigger] out@[k] == o0[k] by {
                        assert(out@[k] == o1[k]);
                    }
                }
            },
        }
    }
}

/// The symbols of a tree do not depend on the depth of its root.
proof fn lemma_leaves_shift(t: Tree, d: nat, e: nat, j: int)
    requires
        0 <= j < code::size(t),
    ensures
        code::leaves(t, d)[j].0 == code::leaves(t, e)[j].0,
    decreases t,
{
    code::lemma_leaves(t, d);
    code::lemma_leaves(t, e);
    match t {
        Tree::Node(l, r) => {
            code::lemma_leaves(*l, d + 1);
            code::lemma_leaves(*l, e + 1);
            if j < code::size(*l) {
                lemma_leaves_shift(*l, d + 1, e + 1, j);
            } else {
                lemma_leaves_shift(*r, d + 1, e + 1, j - code::size(*l));
            }
        },
        _ => {},
    }
}

fn copy_bits(b: &Vec<bool>) -> (c: Vec<bool>)
    ensures
        c@ == b@,
{
    let mut c: Vec<bool> = Vec::with_capacity(b.len());
    let mut i: usize = 0;
    while i < b.len()
        invariant
            i <= b.len(),
            c@ =~= b@.take(i as int),
        decreases b.len() - i,
    {
        c.push(b[i]);
        i = i + 1;
    }
    proof {
        assert(c@ =~= b@);
    }
    c
}

spec fn leaves_left(order: Seq<usize>, i: int, uses: Seq<u64>) -> Seq<(Tree, nat)> {
    Seq::new((order.len() - i) as nat, |k: int| (Tree::Leaf(order[i + k] as nat), uses[order[i + k] as int] as nat))
}

spec fn nodes_left(nodes: Seq<(Shape, u128)>) -> Seq<(Tree, nat)> {
    Seq::new(nodes.len(), |k: int| (nodes[k].0.tree(), nodes[k].1 as nat))
}

pub open spec fn by_uses(s: Seq<(Tree, nat)>) -> bool {
    forall|a: int, b: int| 0 <= a <= b < s.len() ==> (#[trigger] s[a]).1 <= (#[trigger] s[b]).1
}

/// All items have at least `m` uses and all subtrees at most `2 * m`, so that the next
/// subtree built is at least as large as every one there is.
pub open spec fn settled(q: Queue, m: nat) -> bool {
    &&& by_uses(q.leaves)
    &&& by_uses(q.nodes)
    &&& forall|k: int| 0 <= k < q.leaves.len() ==> m <= (#[trigger] q.leaves[k]).1
    &&& forall|k: int| 0 <= k < q.nodes.len() ==> m <= (#[trigger] q.nodes[k]).1 <= 2 * m
}

pub open spec fn sum(s: Seq<(Tree, nat)>) -> nat
    decreases s.len(),
{
    if s.len() == 0 {
        0
    } else {
        s[0].1 + sum(s.drop_first())
    }
}

pub proof fn lemma_sum_push(s: Seq<(Tree, nat)>, x: (Tree, nat))
    ensures
        sum(s.push(x)) == sum(s) + x.1,
    decreases s.len(),
{
    if s.len() == 0 {
        assert(s.push(x).drop_first() =~= Seq::empty());
        assert(sum(s.push(x).drop_first()) == 0);
    } else {
        lemma_sum_push(s.drop_first(), x);
        assert(s.push(x).drop_first() =~= s.drop_first().push(x));
    }
}

proof fn lemma_sum_bound(s: Seq<(Tree, nat)>)
    requires
        forall|k: int| 0 <= k < s.len() ==> (#[trigger] s[k]).1 <= u64::MAX,
    ensures
        sum(s) <= s.len() * u64::MAX,
    decreases s.len(),
{
    if s.len() > 0 {
        let t = s.drop_first();
        assert forall|k: int| 0 <= k < t.len() implies (#[trigger] t[k]).1 <= u64::MAX by {
            assert(t[k] == s[k + 1]);
        }
        lemma_sum_bound(t);
        assert(s[0].1 <= u64::MAX);
        assert(s.len() * u64::MAX == t.len() * u64::MAX + u64::MAX) by (nonlinear_arith)
            requires
                s.len() == t.len() + 1,
        ;
    }
}

/// What a pick leaves behind.
pub proof fn lemma_pick_settled(q: Queue, m: nat)
    requires
        items(q) >= 1,
        settled(q, m),
    ensures
        q.nodes.len() > 0 ==> least(q.nodes) == 0,
        settled(pick(q).1, m),
        pick(q).0.1 >= m,
        forall|k: int| 0 <= k < pick(q).1.leaves.len() ==> pick(q).0.1 <= (#[trigger] pick(q).1.leaves[k]).1,
        forall|k: int| 0 <= k < pick(q).1.nodes.len() ==> pick(q).0.1 <= (#[trigger] pick(q).1.nodes[k]).1,
        sum(q.leaves) + sum(q.nodes) == pick(q).0.1 + sum(pick(q).1.leaves) + sum(pick(q).1.nodes),
{
    lemma_least_sorted(q.nodes);
    let (a, r) = pick(q);
    if q.nodes.len() > 0 && (q.leaves.len() == 0 || q.nodes[0].1 < q.leaves[0].1) {
        assert(r.nodes =~= q.nodes.drop_first());
        assert(forall|k: int| 0 <= k < r.nodes.len() ==> #[trigger] r.nodes[k] == q.nodes[k + 1]);
    } else {
        assert(forall|k: int| 0 <= k < r.leaves.len() ==> #[trigger] r.leaves[k] == q.leaves[k + 1]);
    }
}

/// Joining keeps the queue settled.
pub proof fn lemma_join_settled(q: Queue, m: nat)
    requires
        items(q) >= 2,
        settled(q, m),
    ensures
        settled(join(q), pick(pick(q).1).0.1),
        sum(join(q).leaves) + sum(join(q).nodes) == sum(q.leaves) + sum(q.nodes),
{
    let (a, q1) = pick(q);
    lemma_pick(q);
    lemma_pick_settled(q, m);
    let (b, q2) = pick(q1);
    lemma_pick_settled(q1, m);
    assert(a.1 <= b.1) by {
        lemma_least_sorted(q1.nodes);
    }
    let j = join(q);
    let x = j.nodes.last();
    lemma_sum_push(q2.nodes, x);
    assert(x.1 == a.1 + b.1);
    assert forall|c: int, d: int| 0 <= c <= d < j.nodes.len() implies (#[trigger] j.nodes[c]).1 <= (#[trigger] j.nodes[d]).1 by {
        if d < q2.nodes.len() {
            assert(j.nodes[c] == q2.nodes[c]);
            assert(j.nodes[d] == q2.nodes[d]);
        } else if c < q2.nodes.len() {
            assert(j.nodes[c] == q2.nodes[c]);
        }
    }
    assert forall|k: int| 0 <= k < j.nodes.len() implies b.1 <= (#[trigger] j.nodes[k]).1 <= 2 * b.1 by {
        if k < q2.nodes.len() {
            assert(j.nodes[k] == q2.nodes[k]);
        }
    }
}

/// Take out the least used item.
fn take(order: &Vec<usize>, i: &mut usize, uses: &Vec<u64>, nodes: &mut VecDeque<(Shape, u128)>, Ghost(m): Ghost<nat>) -> (item: (Shape, u128))
    requires
        *old(i) <= order@.len(),
        forall|k: int| 0 <= k < order@.len() ==> #[trigger] order@[k] < uses@.len(),
        settled(Queue { leaves: leaves_left(order@, *old(i) as int, uses@), nodes: nodes_left(old(nodes)@) }, m),
        order@.len() - *old(i) + old(nodes)@.len() >= 1,
    ensures
        *final(i) <= order@.len(),
        pick(Queue { leaves: leaves_left(order@, *old(i) as int, uses@), nodes: nodes_left(old(nodes)@) }) == (
            (item.0.tree(), item.1 as nat),
            Queue { leaves: leaves_left(order@, *final(i) as int, uses@), nodes: nodes_left(final(nodes)@) },
        ),
{
    let ghost q = Queue { leaves: leaves_left(order@, *i as int, uses@), nodes: nodes_left(nodes@) };
    let ghost before = nodes@;
    proof {
        lemma_pick_settled(q, m);
    }
    let from_nodes: bool = nodes.len() > 0 && (*i >= order.len() || nodes[0].1 < uses[order[*i]] as u128);
    if from_nodes {
        let item = nodes.pop_front().unwrap();
        proof {
            assert(nodes_left(nodes@) =~= q.nodes.remove(0));
        }
        item
    } else {
        proof {
            assert(order@.len() == order.len());
        }
        let s: usize = order[*i];
        let u: u128 = uses[s] as u128;
        *i = *i + 1;
        proof {
            assert(leaves_left(order@, *i as int, uses@) =~= q.leaves.drop_first());
        }
        (Shape::Leaf(s), u)
    }
}

/// The code of every symbol, in the order in which a dictionary lists them.
fn build_dict(keys: &Vec<u64>, uses: &Vec<u64>) -> (entries: Vec<Coded>)
    requires
        keys@.len() == uses@.len(),
    ensures
        codes_of(dict_tree(keys@, uses@), entries@),
{
    let ghost goal = dict_tree(keys@, uses@);
    let n: usize = uses.len();
    let order = sorted_leaves(keys, uses);
    let mut nodes: VecDeque<(Shape, u128)> = VecDeque::new();
    let mut i: usize = 0;
    let ghost mut m: nat = 0;
    let mut out: Vec<Coded> = Vec::new();
    if n == 0 {
        proof {
            lemma_dict_tree(keys@, uses@);
        }
        return out;
    }
    proof {
        let o = leaf_order(keys@, uses@);
        let q = Queue { leaves: leaves_left(order@, 0, uses@), nodes: nodes_left(nodes@) };
        lemma_leaf_order(keys@, uses@);
        assert forall|k: int| 0 <= k < q.leaves.len() implies #[trigger] q.leaves[k] == leaf_queue(o, uses@).leaves[k] by {
            assert(order@[0 + k] == o[k]);
        }
        assert(q.leaves =~= leaf_queue(o, uses@).leaves);
        assert(q.nodes =~= leaf_queue(o, uses@).nodes);
        let le = |i: int, j: int| leaf_le(keys@, uses@, i, j);
        assert forall|a: int, b: int| 0 <= a <= b < q.leaves.len() implies (#[trigger] q.leaves[a]).1 <= (
        #[trigger] q.leaves[b]).1 by {
            if a < b {
                assert(le(o[a], o[b]));
            }
        }
        lemma_sum_bound(q.leaves);
    }
    while nodes.len() as u128 + (order.len() - i) as u128 > 1
        invariant
            n == order@.len(),
            n == uses@.len(),
            n > 0,
            i <= n,
            i < n || nodes@.len() > 0,
            forall|k: int| 0 <= k < order@.len() ==> #[trigger] order@[k] < uses@.len(),
            settled(Queue { leaves: leaves_left(order@, i as int, uses@), nodes: nodes_left(nodes@) }, m),
            joined(Queue { leaves: leaves_left(order@, i as int, uses@), nodes: nodes_left(nodes@) }) == goal,
            sum(leaves_left(order@, i as int, uses@)) + sum(nodes_left(nodes@)) <= n * u64::MAX,
        decreases nodes@.len() + n - i,
    {
        let ghost q = Queue { leaves: leaves_left(order@, i as int, uses@), nodes: nodes_left(nodes@) };
        proof {
            lemma_pick(q);
            lemma_pick_settled(q, m);
            lemma_pick(pick(q).1);
            lemma_pick_settled(pick(q).1, m);
            lemma_join_settled(q, m);
            assert(n * u64::MAX <= u128::MAX) by (nonlinear_arith)
                requires
                    n <= u64::MAX,
            ;
        }
        let a = take(&order, &mut i, uses, &mut nodes, Ghost(m));
        let b = take(&order, &mut i, uses, &mut nodes, Ghost(m));
        let ghost before = nodes@;
        let u: u128 = a.1 + b.1;
        nodes.push_back((Shape::Node(Box::new(a.0), Box::new(b.0)), u));
        proof {
            m = b.1 as nat;
            assert(nodes_left(nodes@) =~= join(q).nodes);
        }
    }
    let root: Shape = match nodes.pop_front() {
        Some(x) => x.0,
        None => Shape::Leaf(order[i]),
    };
    let mut prefix: Vec<bool> = Vec::new();
    proof {
        assert(root.tree() == goal);
    }
    root.list(&mut prefix, &mut out);
    proof {
        assert forall|j: int| 0 <= j < out@.len() implies (#[trigger] out@[j]).symbol == code::leaves(goal, 0)[j].0
            && out@[j].code@ == code::path_of(goal, j) by {
            assert(out@[0 + j] == out@[j]);
            assert(Seq::<bool>::empty() + code::path_of(goal, j) =~= code::path_of(goal, j));
        }
    }
    out
}

/// The positions of a list of pairs of position and uses.
pub open spec fn firsts(pairs: Seq<(u64, u64)>) -> Seq<u64> {
    Seq::new(pairs.len(), |i: int| pairs[i].0)
}

/// The uses of a list of pairs of position and uses.
pub open spec fn seconds(pairs: Seq<(u64, u64)>) -> Seq<u64> {
    Seq::new(pairs.len(), |i: int| pairs[i].1)
}

/// The code tree of positions with these uses; symbol `i` is the position of pair `i`.
pub open spec fn position_tree(pairs: Seq<(u64, u64)>) -> Tree {
    dict_tree(firsts(pairs), seconds(pairs))
}

/// The code tree of patterns with these uses; symbol `i` is pattern `i`.
pub open spec fn pattern_tree(uses: Seq<u64>) -> Tree {
    dict_tree(Seq::new(uses.len(), |i: int| i as u64), uses)
}

/// Build the position dictionary from pairs of position and uses: the entries in the
/// order in which they must be written to the file.
pub fn build_position_dict(pairs: &Vec<(u64, u64)>) -> (entries: Vec<Coded>)
    ensures
        codes_of(position_tree(pairs@), entries@),
{
    let mut keys: Vec<u64> = Vec::with_capacity(pairs.len());
    let mut uses: Vec<u64> = Vec::with_capacity(pairs.len());
    let mut i: usize = 0;
    while i < pairs.len()
        invariant
            i <= pairs.len(),
            keys@ =~= firsts(pairs@).take(i as int),
            uses@ =~= seconds(pairs@).take(i as int),
        decreases pairs.len() - i,
    {
        keys.push(pairs[i].0);
        uses.push(pairs[i].1);
        i = i + 1;
    }
    proof {
        assert(keys@ =~= firsts(pairs@));
        assert(uses@ =~= seconds(pairs@));
    }
    build_dict(&keys, &uses)
}

/// Build the pattern dictionary from the uses of each pattern: the entries in the order
/// in which they must be written to the file.
pub fn build_pattern_dict(uses: &Vec<u64>) -> (entries: Vec<Coded>)
    ensures
        codes_of(pattern_tree(uses@), entries@),
{
    let mut keys: Vec<u64> = Vec::with_capacity(uses.len());
    let mut i: usize = 0;
    while i < uses.len()
        invariant
            i <= uses.len(),
            keys@ =~= Seq::new(i as nat, |k: int| k as u64),
        decreases uses.len() - i,
    {
        keys.push(i as u64);
        i = i + 1;
    }
    build_dict(&keys, uses)
}

} // verus!
