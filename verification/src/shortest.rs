//! The codes are as short as they can be in all: no other codes, each symbol having one and
//! none starting another, take fewer bits.

use vstd::multiset::*;
use vstd::prelude::*;
use vstd::seq_lib::*;

use crate::code;
use crate::code::Tree;
use crate::huffman;
use crate::huffman::Queue;
use crate::huffman_laws;

verus! {

// ------------------------------------------------------------------ bits taken

/// Sum of the products of two lists of numbers.
pub open spec fn product_sum(ds: Seq<nat>, ws: Seq<nat>) -> nat
    decreases ds.len(),
{
    if ds.len() == 0 || ws.len() == 0 {
        0
    } else {
        ds[0] * ws[0] + product_sum(ds.drop_first(), ws.drop_first())
    }
}

/// The lengths of the codes of a tree.
pub open spec fn lengths(t: Tree, d: nat) -> Seq<nat> {
    Seq::new(code::leaves(t, d).len(), |j: int| code::leaves(t, d)[j].1)
}

/// The symbols of a tree.
pub open spec fn symbols(t: Tree) -> Seq<nat> {
    Seq::new(code::leaves(t, 0).len(), |j: int| code::leaves(t, 0)[j].0)
}

/// The uses of the symbols of a tree.
pub open spec fn uses_in(t: Tree, uses: Seq<u64>) -> Seq<nat> {
    Seq::new(symbols(t).len(), |j: int| uses[symbols(t)[j] as int] as nat)
}

/// How many bits the codes of a tree take, if each symbol is used so often.
pub open spec fn bits_taken(t: Tree, uses: Seq<u64>) -> nat {
    product_sum(lengths(t, 0), uses_in(t, uses))
}

proof fn lemma_split(a: Seq<nat>, b: Seq<nat>, v: Seq<nat>, w: Seq<nat>)
    requires
        a.len() == v.len(),
        b.len() == w.len(),
    ensures
        product_sum(a + b, v + w) == product_sum(a, v) + product_sum(b, w),
    decreases a.len(),
{
    if a.len() == 0 {
        assert(a + b =~= b);
        assert(v + w =~= w);
    } else {
        assert((a + b).drop_first() =~= a.drop_first() + b);
        assert((v + w).drop_first() =~= v.drop_first() + w);
        lemma_split(a.drop_first(), b, v.drop_first(), w);
    }
}

/// What changes with one of the factors.
proof fn lemma_update(ds: Seq<nat>, ws: Seq<nat>, i: int, w: nat)
    requires
        0 <= i < ds.len(),
        ds.len() == ws.len(),
    ensures
        product_sum(ds, ws.update(i, w)) + ds[i] * ws[i] == product_sum(ds, ws) + ds[i] * w,
    decreases ds.len(),
{
    let u = ws.update(i, w);
    if i == 0 {
        assert(u.drop_first() =~= ws.drop_first());
    } else {
        assert(u.drop_first() =~= ws.drop_first().update(i - 1, w));
        lemma_update(ds.drop_first(), ws.drop_first(), i - 1, w);
    }
}

/// `ws` with two of its numbers exchanged.
spec fn swapped(ws: Seq<nat>, i: int, j: int) -> Seq<nat> {
    ws.update(i, ws[j]).update(j, ws[i])
}

/// Exchanging a larger number at a larger factor for a smaller one makes no sum larger.
proof fn lemma_swap(ds: Seq<nat>, ws: Seq<nat>, i: int, j: int)
    requires
        0 <= i < ds.len(),
        0 <= j < ds.len(),
        ds.len() == ws.len(),
        ds[i] <= ds[j],
        ws[i] <= ws[j],
    ensures
        product_sum(ds, swapped(ws, i, j)) <= product_sum(ds, ws),
        swapped(ws, i, j).to_multiset() == ws.to_multiset(),
        swapped(ws, i, j).len() == ws.len(),
        swapped(ws, i, j)[j] == ws[i],
        swapped(ws, i, j)[i] == ws[j],
        forall|k: int| 0 <= k < ws.len() && k != i && k != j ==> #[trigger] swapped(ws, i, j)[k] == ws[k],
{
    broadcast use group_multiset_axioms;

    let (x, y) = (ws[i], ws[j]);
    let u = ws.update(i, y);
    if i == j {
        assert(swapped(ws, i, j) =~= ws);
    } else {
        lemma_update(ds, ws, i, y);
        lemma_update(ds, u, j, x);
        let (p, q) = (ds[i], ds[j]);
        assert(p * y + q * x <= p * x + q * y) by (nonlinear_arith)
            requires
                p <= q,
                x <= y,
        ;
        to_multiset_update(ws, i, y);
        to_multiset_update(u, j, x);
        assert(ws.contains(x)) by {
            assert(ws[i] == x);
        }
        to_multiset_contains(ws, x);
        to_multiset_contains(ws, y);
        assert(ws.contains(y)) by {
            assert(ws[j] == y);
        }
        assert(swapped(ws, i, j).to_multiset() =~= ws.to_multiset());
    }
}

// ------------------------------------------------------------------ the deepest two

/// Two neighbouring codes of the greatest length can be made one that is a bit shorter.
proof fn lemma_fold(t: Tree, d: nat) -> (r: (Tree, int))
    requires
        code::full(t),
        t is Node,
    ensures
        code::full(r.0),
        0 <= r.1,
        r.1 + 1 < lengths(t, d).len(),
        lengths(t, d)[r.1] == d + code::height(t),
        lengths(t, d)[r.1 + 1] == d + code::height(t),
        lengths(r.0, d) == lengths(t, d).take(r.1).push((d + code::height(t) - 1) as nat) + lengths(t, d).skip(r.1 + 2),
    decreases t,
{
    let (l, r) = match t {
        Tree::Node(l, r) => (*l, *r),
        _ => (t, t),
    };
    let (a, b) = (lengths(l, d + 1), lengths(r, d + 1));
    let all = lengths(t, d);
    assert(all =~= a + b);
    if code::height(l) == 0 && code::height(r) == 0 {
        let u = Tree::Leaf(0);
        reveal_with_fuel(code::height, 2);
        reveal_with_fuel(code::full, 2);
        match l {
            Tree::Node(x, y) => {
                assert(code::height(l) >= 1);
            },
            _ => {},
        }
        match r {
            Tree::Node(x, y) => {
                assert(code::height(r) >= 1);
            },
            _ => {},
        }
        assert(l is Leaf && r is Leaf);
        assert(a =~= seq![d + 1]);
        assert(b =~= seq![d + 1]);
        assert(lengths(u, d) =~= seq![d]);
        assert(all.take(0).push(d) + all.skip(2) =~= seq![d]);
        (u, 0)
    } else if code::height(l) >= code::height(r) {
        let (u, j) = lemma_fold(l, d + 1);
        let v = Tree::Node(Box::new(u), Box::new(r));
        assert(lengths(v, d) =~= lengths(u, d + 1) + b);
        assert(lengths(v, d) =~= all.take(j).push((d + code::height(t) - 1) as nat) + all.skip(j + 2));
        (v, j)
    } else {
        let (u, j) = lemma_fold(r, d + 1);
        let v = Tree::Node(Box::new(l), Box::new(u));
        assert(lengths(v, d) =~= a + lengths(u, d + 1));
        let n = a.len() as int;
        assert(lengths(v, d) =~= all.take(n + j).push((d + code::height(t) - 1) as nat) + all.skip(n + j + 2));
        (v, n + j)
    }
}

/// Of any codes for numbers of uses, the two least of which are `a` and `b`, there are codes
/// for the same numbers but with `a + b` in place of the two that take fewer bits, by `a + b`
/// at least.
proof fn lemma_exchange(t: Tree, ws: Seq<nat>, a: nat, b: nat) -> (r: (Tree, Seq<nat>))
    requires
        code::full(t),
        t is Node,
        ws.len() == lengths(t, 0).len(),
        ws.to_multiset().count(a) > 0,
        ws.to_multiset().remove(a).count(b) > 0,
        forall|w: nat| #[trigger] ws.to_multiset().count(w) > 0 ==> a <= w,
        forall|w: nat| #[trigger] ws.to_multiset().remove(a).count(w) > 0 ==> b <= w,
    ensures
        code::full(r.0),
        r.1.len() == lengths(r.0, 0).len(),
        r.1.len() == ws.len() - 1,
        r.1.to_multiset() == ws.to_multiset().remove(a).remove(b).insert(a + b),
        product_sum(lengths(r.0, 0), r.1) + a + b <= product_sum(lengths(t, 0), ws),
{
    broadcast use group_multiset_axioms;

    let ds = lengths(t, 0);
    let h = code::height(t);
    code::lemma_leaves(t, 0);
    let (u, j) = lemma_fold(t, 0);
    assert forall|k: int| 0 <= k < ds.len() implies #[trigger] ds[k] <= h by {
        assert(code::leaves(t, 0)[k].1 <= h);
    }
    // The least goes to the first of the two deepest places.
    to_multiset_contains(ws, a);
    let i = choose|i: int| 0 <= i < ws.len() && ws[i] == a;
    assert(ws.contains(ws[j]));
    to_multiset_contains(ws, ws[j]);
    assert(a <= ws[j]);
    lemma_swap(ds, ws, i, j);
    let v = swapped(ws, i, j);
    // The least of the others goes to the second.
    let others = v.remove(j);
    to_multiset_remove(v, j);
    assert(others.to_multiset() == ws.to_multiset().remove(a));
    to_multiset_contains(others, b);
    let k0 = choose|k: int| 0 <= k < others.len() && others[k] == b;
    let k = if k0 < j { k0 } else { k0 + 1 };
    assert(v[k] == b);
    assert(others[j] == v[j + 1]);
    assert(others.contains(v[j + 1]));
    to_multiset_contains(others, v[j + 1]);
    assert(b <= v[j + 1]);
    lemma_swap(ds, v, k, j + 1);
    let x = swapped(v, k, j + 1);
    assert(x[j] == a);
    assert(x[j + 1] == b);
    // The two become one.
    let (front, back) = (x.take(j), x.skip(j + 2));
    let (df, db) = (ds.take(j), ds.skip(j + 2));
    let y = front.push(a + b) + back;
    assert(x =~= front + seq![a, b] + back);
    assert(ds =~= df + seq![h, h] + db);
    lemma_split(df + seq![h, h], db, front + seq![a, b], back);
    lemma_split(df, seq![h, h], front, seq![a, b]);
    let e = (h - 1) as nat;
    assert(y =~= front + seq![a + b] + back);
    assert(lengths(u, 0) =~= df + seq![e] + db);
    lemma_split(df + seq![e], db, front + seq![a + b], back);
    lemma_split(df, seq![e], front, seq![a + b]);
    lemma_short_sums(h, a, b);
    lemma_multiset_commutative(front + seq![a, b], back);
    lemma_multiset_commutative(front, seq![a, b]);
    lemma_multiset_commutative(front + seq![a + b], back);
    lemma_multiset_commutative(front, seq![a + b]);
    lemma_short_multisets(a, b);
    assert(y.to_multiset() =~= x.to_multiset().remove(a).remove(b).insert(a + b));
    (u, y)
}

proof fn lemma_short_sums(h: nat, a: nat, b: nat)
    requires
        h > 0,
    ensures
        product_sum(seq![h, h], seq![a, b]) == product_sum(seq![(h - 1) as nat], seq![a + b]) + a + b,
{
    reveal_with_fuel(product_sum, 3);
    let e = (h - 1) as nat;
    assert(seq![h, h].drop_first() =~= seq![h]);
    assert(seq![a, b].drop_first() =~= seq![b]);
    assert(seq![h].drop_first() =~= Seq::<nat>::empty());
    assert(seq![e].drop_first() =~= Seq::<nat>::empty());
    assert(product_sum(seq![h], seq![b]) == h * b);
    assert(product_sum(seq![h, h], seq![a, b]) == h * a + h * b);
    assert(product_sum(seq![e], seq![a + b]) == e * (a + b));
    assert(h * a + h * b == (h - 1) * (a + b) + a + b) by (nonlinear_arith);
}

proof fn lemma_short_multisets(a: nat, b: nat)
    ensures
        seq![a, b].to_multiset() == Multiset::<nat>::empty().insert(a).insert(b),
        seq![a + b].to_multiset() == Multiset::<nat>::empty().insert(a + b),
{
    broadcast use group_multiset_axioms;

    let e = Seq::<nat>::empty();
    to_multiset_build(e, a);
    to_multiset_build(e.push(a), b);
    to_multiset_build(e, a + b);
    assert(seq![a, b] =~= e.push(a).push(b));
    assert(seq![a + b] =~= e.push(a + b));
    to_multiset_len(e);
    assert(e.to_multiset() =~= Multiset::<nat>::empty());
}

// ------------------------------------------------------------------ joining

/// The uses of the items of a queue.
spec fn weights(q: Queue) -> Seq<nat> {
    Seq::new(q.leaves.len(), |k: int| q.leaves[k].1) + Seq::new(q.nodes.len(), |k: int| q.nodes[k].1)
}

/// How many bits all joins of a queue add.
spec fn joins(q: Queue) -> nat
    decreases huffman::items(q),
    via joins_decreases
{
    if huffman::items(q) <= 1 {
        0
    } else {
        huffman::pick(q).0.1 + huffman::pick(huffman::pick(q).1).0.1 + joins(huffman::join(q))
    }
}

#[via_fn]
proof fn joins_decreases(q: Queue) {
    huffman::lemma_pick(q);
    huffman::lemma_pick(huffman::pick(q).1);
}

proof fn lemma_pick_weights(q: Queue)
    requires
        huffman::items(q) >= 1,
        huffman::by_uses(q.leaves),
    ensures
        ({
            let (a, r) = huffman::pick(q);
            let m = weights(q).to_multiset();
            &&& huffman::by_uses(r.leaves)
            &&& huffman::items(r) == huffman::items(q) - 1
            &&& weights(r).to_multiset() == m.remove(a.1)
            &&& m.count(a.1) > 0
            &&& forall|w: nat| #[trigger] m.count(w) > 0 ==> a.1 <= w
        }),
{
    huffman_laws::law_least_used_is_taken(q);
    huffman::lemma_pick(q);
    let (a, r) = huffman::pick(q);
    let ws = weights(q);
    let n = q.leaves.len() as int;
    let at: int = if n > 0 && q.leaves[0].1 == a.1 {
        0
    } else {
        n + choose|i: int|
            0 <= i < q.nodes.len() && #[trigger] q.nodes[i] == a && r.nodes == q.nodes.remove(i) && forall|k: int|
                0 <= k < i ==> a.1 < (#[trigger] q.nodes[k]).1
    };
    assert(ws[at] == a.1);
    assert(weights(r) =~= ws.remove(at));
    to_multiset_remove(ws, at);
    assert(ws.contains(a.1));
    to_multiset_contains(ws, a.1);
    assert forall|w: nat| #[trigger] ws.to_multiset().count(w) > 0 implies a.1 <= w by {
        to_multiset_contains(ws, w);
        let k = choose|k: int| 0 <= k < ws.len() && ws[k] == w;
        if k < n {
            assert(q.leaves[k].1 == w);
        } else {
            assert(q.nodes[k - n].1 == w);
        }
    }
    assert forall|x: int, y: int| 0 <= x <= y < r.leaves.len() implies (#[trigger] r.leaves[x]).1 <= (
    #[trigger] r.leaves[y]).1 by {
        if at == 0 && n > 0 && q.leaves[0].1 == a.1 {
            assert(r.leaves[x] == q.leaves[x + 1]);
            assert(r.leaves[y] == q.leaves[y + 1]);
        }
    }
}

/// No codes for the items of a queue take fewer bits than its joins add.
proof fn lemma_joins_are_least(q: Queue, t: Tree, ws: Seq<nat>)
    requires
        huffman::items(q) >= 1,
        huffman::by_uses(q.leaves),
        code::full(t),
        ws.len() == huffman::items(q),
        lengths(t, 0).len() == ws.len(),
        ws.to_multiset() == weights(q).to_multiset(),
    ensures
        joins(q) <= product_sum(lengths(t, 0), ws),
    decreases huffman::items(q),
{
    broadcast use group_multiset_axioms;

    if huffman::items(q) >= 2 {
        let (a, q1) = huffman::pick(q);
        let (b, q2) = huffman::pick(q1);
        lemma_pick_weights(q);
        lemma_pick_weights(q1);
        code::lemma_leaves(t, 0);
        assert(t is Node);
        let (u, v) = lemma_exchange(t, ws, a.1, b.1);
        let j = huffman::join(q);
        assert(weights(j) =~= weights(q2).push(a.1 + b.1));
        to_multiset_build(weights(q2), a.1 + b.1);
        assert(v.to_multiset() =~= weights(j).to_multiset());
        lemma_joins_are_least(j, u, v);
    }
}

// ------------------------------------------------------------------ the tree

/// Uses of all symbols of a tree.
spec fn weight(t: Tree, uses: Seq<u64>) -> nat
    decreases t,
{
    match t {
        Tree::Empty => 0,
        Tree::Leaf(s) => uses[s as int] as nat,
        Tree::Node(l, r) => weight(*l, uses) + weight(*r, uses),
    }
}

/// Uses of all symbols, once for each node above them.
spec fn cost(t: Tree, uses: Seq<u64>) -> nat
    decreases t,
{
    match t {
        Tree::Node(l, r) => cost(*l, uses) + cost(*r, uses) + weight(*l, uses) + weight(*r, uses),
        _ => 0,
    }
}

spec fn uses_at(t: Tree, d: nat, uses: Seq<u64>) -> Seq<nat> {
    Seq::new(code::leaves(t, d).len(), |j: int| uses[code::leaves(t, d)[j].0 as int] as nat)
}

proof fn lemma_cost(t: Tree, d: nat, uses: Seq<u64>)
    ensures
        product_sum(lengths(t, d), uses_at(t, d, uses)) == cost(t, uses) + d * weight(t, uses),
    decreases t,
{
    match t {
        Tree::Node(l, r) => {
            lemma_cost(*l, d + 1, uses);
            lemma_cost(*r, d + 1, uses);
            lemma_split(
                lengths(*l, d + 1),
                lengths(*r, d + 1),
                uses_at(*l, d + 1, uses),
                uses_at(*r, d + 1, uses),
            );
            assert(lengths(t, d) =~= lengths(*l, d + 1) + lengths(*r, d + 1));
            assert(uses_at(t, d, uses) =~= uses_at(*l, d + 1, uses) + uses_at(*r, d + 1, uses));
            let (x, y) = (weight(*l, uses), weight(*r, uses));
            assert((d + 1) * x + (d + 1) * y == d * (x + y) + x + y) by (nonlinear_arith);
        },
        Tree::Leaf(s) => {
            reveal_with_fuel(product_sum, 2);
            let (ds, ws) = (lengths(t, d), uses_at(t, d, uses));
            assert(ds =~= seq![d]);
            assert(ws =~= seq![uses[s as int] as nat]);
            assert(ds.drop_first() =~= Seq::empty());
            assert(product_sum(ds, ws) == d * uses[s as int] as nat);
        },
        Tree::Empty => {
            assert(d * 0 == 0) by (nonlinear_arith);
        },
    }
}

/// Cost of the trees of a list.
spec fn costs(s: Seq<(Tree, nat)>, uses: Seq<u64>) -> nat
    decreases s.len(),
{
    if s.len() == 0 {
        0
    } else {
        cost(s[0].0, uses) + costs(s.drop_first(), uses)
    }
}

proof fn lemma_costs_push(s: Seq<(Tree, nat)>, x: (Tree, nat), uses: Seq<u64>)
    ensures
        costs(s.push(x), uses) == costs(s, uses) + cost(x.0, uses),
    decreases s.len(),
{
    if s.len() == 0 {
        assert(s.push(x).drop_first() =~= Seq::empty());
        assert(costs(s.push(x).drop_first(), uses) == 0);
    } else {
        assert(s.push(x).drop_first() =~= s.drop_first().push(x));
        lemma_costs_push(s.drop_first(), x, uses);
    }
}

proof fn lemma_costs_remove(s: Seq<(Tree, nat)>, i: int, uses: Seq<u64>)
    requires
        0 <= i < s.len(),
    ensures
        costs(s, uses) == costs(s.remove(i), uses) + cost(s[i].0, uses),
    decreases s.len(),
{
    if i == 0 {
        assert(s.remove(0) =~= s.drop_first());
    } else {
        lemma_costs_remove(s.drop_first(), i - 1, uses);
        assert(s.remove(i).drop_first() =~= s.drop_first().remove(i - 1));
        assert(s.remove(i)[0] == s[0]);
    }
}

/// Each item of a list has the uses of its symbols.
spec fn weighed(s: Seq<(Tree, nat)>, uses: Seq<u64>) -> bool {
    forall|k: int| 0 <= k < s.len() ==> (#[trigger] s[k]).1 == weight(s[k].0, uses)
}

proof fn lemma_pick_costs(q: Queue, uses: Seq<u64>)
    requires
        huffman::items(q) >= 1,
        weighed(q.leaves, uses),
        weighed(q.nodes, uses),
    ensures
        ({
            let (a, r) = huffman::pick(q);
            &&& weighed(r.leaves, uses)
            &&& weighed(r.nodes, uses)
            &&& a.1 == weight(a.0, uses)
            &&& costs(q.leaves, uses) + costs(q.nodes, uses) == cost(a.0, uses) + costs(r.leaves, uses) + costs(r.nodes, uses)
        }),
{
    huffman::lemma_least(q.nodes);
    let (a, r) = huffman::pick(q);
    let i = huffman::least(q.nodes);
    if q.nodes.len() > 0 && (q.leaves.len() == 0 || q.nodes[i].1 < q.leaves[0].1) {
        lemma_costs_remove(q.nodes, i, uses);
        assert forall|k: int| 0 <= k < r.nodes.len() implies (#[trigger] r.nodes[k]).1 == weight(r.nodes[k].0, uses) by {
            assert(r.nodes[k] == if k < i { q.nodes[k] } else { q.nodes[k + 1] });
        }
    } else {
        assert forall|k: int| 0 <= k < r.leaves.len() implies (#[trigger] r.leaves[k]).1 == weight(r.leaves[k].0, uses) by {
            assert(r.leaves[k] == q.leaves[k + 1]);
        }
    }
}

proof fn lemma_joined_cost(q: Queue, uses: Seq<u64>)
    requires
        huffman::items(q) >= 1,
        weighed(q.leaves, uses),
        weighed(q.nodes, uses),
    ensures
        cost(huffman::joined(q), uses) == costs(q.leaves, uses) + costs(q.nodes, uses) + joins(q),
    decreases huffman::items(q),
{
    if huffman::items(q) == 1 {
        if q.nodes.len() == 1 {
            assert(q.nodes.drop_first() =~= Seq::empty());
            assert(costs(q.nodes.drop_first(), uses) == 0);
        } else {
            assert(q.leaves.drop_first() =~= Seq::empty());
            assert(costs(q.leaves.drop_first(), uses) == 0);
        }
    } else {
        let (a, q1) = huffman::pick(q);
        let (b, q2) = huffman::pick(q1);
        huffman::lemma_pick(q);
        huffman::lemma_pick(q1);
        lemma_pick_costs(q, uses);
        lemma_pick_costs(q1, uses);
        let j = huffman::join(q);
        let x = j.nodes.last();
        lemma_costs_push(q2.nodes, x, uses);
        assert(x.0 == Tree::Node(Box::new(a.0), Box::new(b.0)));
        assert(cost(x.0, uses) == cost(a.0, uses) + cost(b.0, uses) + a.1 + b.1);
        assert forall|k: int| 0 <= k < j.nodes.len() implies (#[trigger] j.nodes[k]).1 == weight(j.nodes[k].0, uses) by {
            if k < q2.nodes.len() {
                assert(j.nodes[k] == q2.nodes[k]);
            } else {
                assert(j.nodes[k] == x);
            }
        }
        lemma_joined_cost(j, uses);
    }
}

proof fn lemma_mapped(p: Seq<int>, q: Seq<int>, uses: Seq<u64>)
    requires
        p.to_multiset() == q.to_multiset(),
    ensures
        Seq::new(p.len(), |k: int| uses[p[k]] as nat).to_multiset() == Seq::new(q.len(), |k: int| uses[q[k]] as nat).to_multiset(),
    decreases p.len(),
{
    broadcast use group_multiset_axioms;

    to_multiset_len(p);
    to_multiset_len(q);
    let (a, b) = (Seq::new(p.len(), |k: int| uses[p[k]] as nat), Seq::new(q.len(), |k: int| uses[q[k]] as nat));
    if p.len() == 0 {
        assert(a =~= b);
    } else {
        let n = p.len() - 1;
        let x = p[n];
        assert(p.contains(x));
        to_multiset_contains(p, x);
        to_multiset_contains(q, x);
        let i = choose|i: int| 0 <= i < q.len() && q[i] == x;
        let (r, s) = (p.remove(n), q.remove(i));
        to_multiset_remove(p, n);
        to_multiset_remove(q, i);
        lemma_mapped(r, s, uses);
        let (c, d) = (Seq::new(r.len(), |k: int| uses[r[k]] as nat), Seq::new(s.len(), |k: int| uses[s[k]] as nat));
        assert(c =~= a.remove(n));
        assert(d =~= b.remove(i));
        to_multiset_remove(a, n);
        to_multiset_remove(b, i);
        let w = uses[x] as nat;
        assert(a[n] == w && b[i] == w);
        assert(a.contains(w) && b.contains(w));
        to_multiset_contains(a, w);
        to_multiset_contains(b, w);
        let (e, f) = (a.to_multiset(), b.to_multiset());
        assert(c.to_multiset() == e.remove(w));
        assert(d.to_multiset() == f.remove(w));
        assert(e =~= e.remove(w).insert(w));
        assert(f =~= f.remove(w).insert(w));
    }
}

/// The codes of a dictionary are as short as they can be: whatever other codes the symbols
/// are given, each of them one, and none that starts another, all the uses of all symbols
/// take at least as many bits.
pub proof fn law_codes_are_shortest(keys: Seq<u64>, uses: Seq<u64>, t: Tree)
    requires
        keys.len() == uses.len(),
        uses.len() > 0,
        code::full(t),
        symbols(t).map_values(|s: nat| s as int).to_multiset() == Seq::new(uses.len(), |i: int| i).to_multiset(),
    ensures
        bits_taken(huffman::dict_tree(keys, uses), uses) <= bits_taken(t, uses),
{
    huffman::lemma_leaf_order(keys, uses);
    let order = huffman::leaf_order(keys, uses);
    let q = huffman::leaf_queue(order, uses);
    let tree = huffman::dict_tree(keys, uses);
    let all = Seq::new(uses.len(), |i: int| i);
    let named = symbols(t).map_values(|s: nat| s as int);
    let ws = uses_in(t, uses);
    to_multiset_len(named);
    to_multiset_len(all);
    lemma_mapped(named, order, uses);
    assert(Seq::new(named.len(), |k: int| uses[named[k]] as nat) =~= ws);
    assert(Seq::new(order.len(), |k: int| uses[order[k]] as nat) =~= weights(q));
    assert(huffman::by_uses(q.leaves)) by {
        assert forall|a: int, b: int| 0 <= a <= b < q.leaves.len() implies (#[trigger] q.leaves[a]).1 <= (
        #[trigger] q.leaves[b]).1 by {
            if a < b {
                huffman_laws::law_symbols_are_ordered(keys, uses, a, b);
            }
        }
    }
    lemma_joins_are_least(q, t, ws);
    lemma_joined_cost(q, uses);
    lemma_no_costs(q.leaves, uses);
    assert(costs(q.nodes, uses) == 0);
    lemma_cost(tree, 0, uses);
    assert(uses_at(tree, 0, uses) =~= uses_in(tree, uses));
    assert(0 * weight(tree, uses) == 0) by (nonlinear_arith);
}

proof fn lemma_no_costs(s: Seq<(Tree, nat)>, uses: Seq<u64>)
    requires
        forall|k: int| 0 <= k < s.len() ==> (#[trigger] s[k]).0 is Leaf,
    ensures
        costs(s, uses) == 0,
    decreases s.len(),
{
    if s.len() > 0 {
        let d = s.drop_first();
        assert forall|k: int| 0 <= k < d.len() implies (#[trigger] d[k]).0 is Leaf by {
            assert(d[k] == s[k + 1]);
        }
        lemma_no_costs(d, uses);
        assert(s[0].0 is Leaf);
    }
}

} // verus!
