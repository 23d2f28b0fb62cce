//! Which codes symbols get: the shorter ones for those used more often, as short as they can
//! be in all.

use vstd::arithmetic::power2::*;
use vstd::multiset::*;
use vstd::prelude::*;

use crate::code::Tree;
use crate::huffman;
use crate::huffman::Queue;

verus! {

// ------------------------------------------------------------------ the order of symbols

/// Reversing the 64 bits of a number puts bit `k` in place of bit `63 - k`.
pub proof fn law_bits_are_reversed(x: u64, k: nat)
    requires
        k < 64,
    ensures
        (huffman::reversed(x as nat, 64) / pow2(k)) % 2 == (x as nat / pow2((63 - k) as nat)) % 2,
        huffman::reversed(x as nat, 64) <= u64::MAX,
{
    lemma_reversed(x as nat, 64, k);
    lemma2_to64_rest();
}

proof fn lemma_reversed(x: nat, n: nat, k: nat)
    requires
        k < n,
    ensures
        (huffman::reversed(x, n) / pow2(k)) % 2 == (x / pow2((n - 1 - k) as nat)) % 2,
        huffman::reversed(x, n) < pow2(n),
    decreases n,
{
    let m = (n - 1) as nat;
    let r = huffman::reversed(x / 2, m);
    let b = x % 2;
    lemma_pow2_unfold(n);
    lemma_pow2_pos(k);
    lemma_pow2_pos(m);
    assert(b * pow2(m) == if b == 1 { pow2(m) } else { 0 }) by (nonlinear_arith)
        requires
            b == 0 || b == 1,
    ;
    lemma2_to64();
    if m == 0 {
        assert(huffman::reversed(x / 2, 0) == 0);
        assert(huffman::reversed(x, n) == b);
    } else if k == m {
        lemma_reversed(x / 2, m, 0);
        let p = pow2(m);
        assert((b * p + r) / p == b) by (nonlinear_arith)
            requires
                r < p,
                p > 0,
                b >= 0,
        ;
    } else {
        lemma_reversed(x / 2, m, k);
        lemma_pow2_adds(k, (m - k) as nat);
        lemma_pow2_unfold((m - k) as nat);
        let (p, q, h) = (pow2(k), pow2((m - k) as nat), pow2((m - k - 1) as nat));
        assert((b * pow2(m) + r) / p == b * q + r / p) by (nonlinear_arith)
            requires
                pow2(m) == p * q,
                p > 0,
        ;
        let z = b * h;
        assert(b * q == 2 * z) by (nonlinear_arith)
            requires
                q == 2 * h,
                z == b * h,
        ;
        assert((2 * z + r / p) % 2 == (r / p) % 2);
        lemma_pow2_unfold((n - 1 - k) as nat);
        let s = pow2((m - 1 - k) as nat);
        lemma_pow2_pos((m - 1 - k) as nat);
        assert(x / (2 * s) == (x / 2) / s) by (nonlinear_arith)
            requires
                s > 0,
        ;
    }
}

/// Symbols are taken up by their uses, the least used first; of those with as many, by the
/// reversed bits of what they stand for, and then by their number. None is left out.
pub proof fn law_symbols_are_ordered(keys: Seq<u64>, uses: Seq<u64>, a: int, b: int)
    requires
        keys.len() == uses.len(),
        0 <= a < b < uses.len(),
    ensures
        ({
            let order = huffman::leaf_order(keys, uses);
            let (i, j) = (order[a], order[b]);
            let (x, y) = (huffman::reversed(keys[i] as nat, 64), huffman::reversed(keys[j] as nat, 64));
            &&& order.len() == uses.len()
            &&& 0 <= i < uses.len()
            &&& 0 <= j < uses.len()
            &&& i != j
            &&& uses[i] < uses[j] || (uses[i] == uses[j] && (x < y || (x == y && i < j)))
        }),
{
    huffman::lemma_leaf_order(keys, uses);
    let order = huffman::leaf_order(keys, uses);
    let all = Seq::new(uses.len(), |i: int| i);
    all.lemma_multiset_has_no_duplicates();
    order.lemma_multiset_has_no_duplicates_conv();
    let le = |i: int, j: int| huffman::leaf_le(keys, uses, i, j);
    assert(le(order[a], order[b]));
}

// ------------------------------------------------------------------ joining

/// What is taken out of a queue is used no more than anything else in it. A symbol goes before
/// a subtree that is used as much, and of such subtrees the one that was made first.
pub proof fn law_least_used_is_taken(q: Queue)
    requires
        huffman::items(q) >= 1,
        huffman::by_uses(q.leaves),
    ensures
        ({
            let (a, rest) = huffman::pick(q);
            &&& forall|k: int| 0 <= k < q.leaves.len() ==> a.1 <= (#[trigger] q.leaves[k]).1
            &&& forall|k: int| 0 <= k < q.nodes.len() ==> a.1 <= (#[trigger] q.nodes[k]).1
            &&& if q.leaves.len() > 0 && q.leaves[0].1 == a.1 {
                a == q.leaves[0] && rest.leaves == q.leaves.skip(1) && rest.nodes == q.nodes
            } else {
                rest.leaves == q.leaves && exists|i: int|
                    0 <= i < q.nodes.len() && #[trigger] q.nodes[i] == a && rest.nodes == q.nodes.remove(i) && forall|k: int|
                        0 <= k < i ==> a.1 < (#[trigger] q.nodes[k]).1
            }
        }),
{
    huffman::lemma_least(q.nodes);
    lemma_first_least(q.nodes);
    if q.leaves.len() > 0 {
        assert(q.leaves.drop_first() =~= q.leaves.skip(1));
    }
    let i = huffman::least(q.nodes);
    let (a, rest) = huffman::pick(q);
    if q.nodes.len() > 0 && (q.leaves.len() == 0 || q.nodes[i].1 < q.leaves[0].1) {
        assert(q.nodes[i] == a);
    }
}

proof fn lemma_first_least(nodes: Seq<(Tree, nat)>)
    ensures
        forall|k: int| 0 <= k < huffman::least(nodes) ==> nodes[huffman::least(nodes)].1 < (#[trigger] nodes[k]).1,
    decreases nodes.len(),
{
    if nodes.len() > 1 {
        let d = nodes.drop_last();
        lemma_first_least(d);
        huffman::lemma_least(d);
        assert forall|k: int| 0 <= k < huffman::least(nodes) implies nodes[huffman::least(nodes)].1 < (
        #[trigger] nodes[k]).1 by {
            assert(d[k] == nodes[k]);
        }
    }
}

/// The two least used items become one, the first of them on the side of the zeros, with the
/// uses of both; and so on until one is left.
pub proof fn law_two_least_used_are_joined(q: Queue)
    ensures
        huffman::items(q) >= 2 ==> {
            let (a, q1) = huffman::pick(q);
            let (b, q2) = huffman::pick(q1);
            huffman::joined(q) == huffman::joined(
                Queue {
                    leaves: q2.leaves,
                    nodes: q2.nodes.push((Tree::Node(Box::new(a.0), Box::new(b.0)), a.1 + b.1)),
                },
            )
        },
        q.leaves.len() == 1 && q.nodes.len() == 0 ==> huffman::joined(q) == q.leaves[0].0,
        q.leaves.len() == 0 && q.nodes.len() == 1 ==> huffman::joined(q) == q.nodes[0].0,
{
}

} // verus!
