//! Prefix codes of a seg dictionary.
//!
//! A dictionary stores the symbols of a code with the *depth* (code length) of each, and
//! leaves the codes themselves out: the symbols are listed in the order in which a walk
//! of the code tree, zero branch first, meets them. [`code_tree`] is the tree that a
//! list of depths stands for, and [`read_symbol`] is what reading one symbol from a bit
//! stream means.

use vstd::prelude::*;

use crate::bits;

verus! {

/// A binary code tree. A bit stream goes to the second child on a one.
pub enum Tree {
    /// No code starts this way.
    Empty,
    /// The code of the symbol with this index ends here.
    Leaf(nat),
    /// An inner node: the zero branch and the one branch.
    Node(Box<Tree>, Box<Tree>),
}

pub open spec fn height(t: Tree) -> nat
    decreases t,
{
    match t {
        Tree::Node(l, r) => 1 + if height(*l) > height(*r) { height(*l) } else { height(*r) },
        _ => 0,
    }
}

/// Number of leaves.
pub open spec fn size(t: Tree) -> nat
    decreases t,
{
    match t {
        Tree::Empty => 0,
        Tree::Leaf(_) => 1,
        Tree::Node(l, r) => size(*l) + size(*r),
    }
}

/// Every inner node has two inhabited branches.
pub open spec fn full(t: Tree) -> bool
    decreases t,
{
    match t {
        Tree::Empty => false,
        Tree::Leaf(_) => true,
        Tree::Node(l, r) => full(*l) && full(*r),
    }
}

/// The largest of a list of depths, zero for an empty list.
pub open spec fn max_depth(depths: Seq<u64>) -> nat
    decreases depths.len(),
{
    if depths.len() == 0 {
        0
    } else {
        let m = max_depth(depths.drop_last());
        if depths.last() > m { depths.last() as nat } else { m }
    }
}

/// The subtree rooted at `depth` that takes its leaves from `depths` at index `i` on and
/// may reach `room` levels further down, with the index of the first leaf not taken.
pub open spec fn tree_from(depths: Seq<u64>, i: nat, depth: nat, room: nat) -> (Tree, nat)
    decreases room,
{
    if i >= depths.len() {
        (Tree::Empty, i)
    } else if depths[i as int] == depth {
        (Tree::Leaf(i), i + 1)
    } else if room == 0 {
        (Tree::Empty, i)
    } else {
        let (l, j) = tree_from(depths, i, depth + 1, (room - 1) as nat);
        let (r, k) = tree_from(depths, j, depth + 1, (room - 1) as nat);
        (Tree::Node(Box::new(l), Box::new(r)), k)
    }
}

/// The code tree that a dictionary's list of depths stands for.
pub open spec fn code_tree(depths: Seq<u64>) -> Tree {
    tree_from(depths, 0, 0, max_depth(depths)).0
}

/// Follow the bits of `data` from bit `p` down `t` to a leaf: its symbol and the
/// position after its code. A code is read in steps of nine bits; each step needs its
/// first bit to lie in the data, and `d` is the number of bits since the last step began.
pub open spec fn walk(t: Tree, data: Seq<u8>, p: int, d: int) -> Option<(nat, int)>
    decreases t,
{
    match t {
        Tree::Empty => None,
        Tree::Leaf(s) => Some((s, p)),
        Tree::Node(l, r) => if d == 0 && p / 8 >= data.len() {
            None
        } else {
            walk(if bits::dbit(data, p) { *r } else { *l }, data, p + 1, (d + 1) % 9)
        },
    }
}

/// Read one symbol of the code `depths` at bit `p`: its index and the position after it.
/// A code of a single symbol of depth zero takes no bits; in a longer list a symbol of
/// depth zero cannot be read.
pub open spec fn read_symbol(depths: Seq<u64>, data: Seq<u8>, p: int) -> Option<(nat, int)> {
    if depths.len() == 0 {
        None
    } else if max_depth(depths) == 0 {
        Some((0, p))
    } else if code_tree(depths) is Leaf {
        None
    } else {
        walk(code_tree(depths), data, p, 0)
    }
}

pub proof fn lemma_max_depth(depths: Seq<u64>)
    ensures
        forall|i: int| 0 <= i < depths.len() ==> #[trigger] depths[i] <= max_depth(depths),
        max_depth(depths) > 0 ==> exists|i: int| 0 <= i < depths.len() && #[trigger] depths[i] == max_depth(depths),
    decreases depths.len(),
{
    if depths.len() > 0 {
        lemma_max_depth(depths.drop_last());
        let m = max_depth(depths.drop_last());
        assert forall|i: int| 0 <= i < depths.len() implies #[trigger] depths[i] <= max_depth(depths) by {
            if i < depths.len() - 1 {
                assert(depths.drop_last()[i] == depths[i]);
            }
        }
        if max_depth(depths) > 0 {
            if depths.last() > m {
                assert(depths[depths.len() - 1] == max_depth(depths));
            } else {
                let i = choose|i: int| 0 <= i < depths.len() - 1 && #[trigger] depths.drop_last()[i] == m;
                assert(depths[i] == max_depth(depths));
            }
        }
    }
}

pub proof fn lemma_tree_from(depths: Seq<u64>, i: nat, depth: nat, room: nat)
    ensures
        height(tree_from(depths, i, depth, room).0) <= room,
        tree_from(depths, i, depth, room).1 >= i,
        i <= depths.len() ==> tree_from(depths, i, depth, room).1 <= depths.len(),
    decreases room,
{
    if i < depths.len() && depths[i as int] != depth && room > 0 {
        let j = tree_from(depths, i, depth + 1, (room - 1) as nat).1;
        lemma_tree_from(depths, i, depth + 1, (room - 1) as nat);
        lemma_tree_from(depths, j, depth + 1, (room - 1) as nat);
    }
}

/// Symbols read are indices into the dictionary.
pub proof fn lemma_walk_symbol(depths: Seq<u64>, i: nat, depth: nat, room: nat, data: Seq<u8>, p: int, d: int)
    requires
        0 <= d < 9,
    ensures
        walk(tree_from(depths, i, depth, room).0, data, p, d) matches Some((s, q)) ==> s < depths.len()
            && p <= q,
    decreases room,
{
    if i < depths.len() && depths[i as int] != depth && room > 0 {
        let j = tree_from(depths, i, depth + 1, (room - 1) as nat).1;
        lemma_walk_symbol(depths, i, depth + 1, (room - 1) as nat, data, p + 1, (d + 1) % 9);
        lemma_walk_symbol(depths, j, depth + 1, (room - 1) as nat, data, p + 1, (d + 1) % 9);
    }
}

pub proof fn lemma_read_symbol(depths: Seq<u64>, data: Seq<u8>, p: int)
    ensures
        read_symbol(depths, data, p) matches Some((s, q)) ==> {
            &&& s < depths.len()
            &&& p <= q
            &&& max_depth(depths) > 0 ==> p < q && p / 8 < data.len()
        },
{
    if depths.len() > 0 && max_depth(depths) > 0 && !(code_tree(depths) is Leaf) {
        let t = code_tree(depths);
        lemma_walk_symbol(depths, 0, 0, max_depth(depths), data, p, 0);
        match t {
            Tree::Node(l, r) => {
                let m = (max_depth(depths) - 1) as nat;
                let j = tree_from(depths, 0, 1, m).1;
                lemma_walk_symbol(depths, 0, 1, m, data, p + 1, 1);
                lemma_walk_symbol(depths, j, 1, m, data, p + 1, 1);
            },
            _ => {},
        }
    }
}

// ------------------------------------------------------------------ listing a code

/// The leaves of `t` in walk order, as pairs of symbol and depth below `d`.
pub open spec fn leaves(t: Tree, d: nat) -> Seq<(nat, nat)>
    decreases t,
{
    match t {
        Tree::Empty => Seq::empty(),
        Tree::Leaf(s) => seq![(s, d)],
        Tree::Node(l, r) => leaves(*l, d + 1) + leaves(*r, d + 1),
    }
}

/// The bits that lead from the root of `t` to its `j`-th leaf.
pub open spec fn path_of(t: Tree, j: int) -> Seq<bool>
    decreases t,
{
    match t {
        Tree::Node(l, r) => if j < size(*l) {
            seq![false] + path_of(*l, j)
        } else {
            seq![true] + path_of(*r, j - size(*l))
        },
        _ => Seq::empty(),
    }
}

/// `t` with its leaves renumbered in walk order, starting at `i`.
pub open spec fn numbered(t: Tree, i: nat) -> Tree
    decreases t,
{
    match t {
        Tree::Empty => Tree::Empty,
        Tree::Leaf(_) => Tree::Leaf(i),
        Tree::Node(l, r) => Tree::Node(Box::new(numbered(*l, i)), Box::new(numbered(*r, i + size(*l)))),
    }
}

/// The bits of `data` from bit `p` on start with `bits`.
pub open spec fn bits_at(data: Seq<u8>, p: int, b: Seq<bool>) -> bool {
    &&& 0 <= p
    &&& p + b.len() <= 8 * data.len()
    &&& forall|i: int| 0 <= i < b.len() ==> #[trigger] bits::dbit(data, p + i) == b[i]
}

pub proof fn lemma_leaves(t: Tree, d: nat)
    ensures
        leaves(t, d).len() == size(t),
        full(t) ==> size(t) > 0,
        forall|j: int| 0 <= j < size(t) ==> {
            &&& #[trigger] leaves(t, d)[j].1 == d + path_of(t, j).len()
            &&& d <= leaves(t, d)[j].1 <= d + height(t)
        },
        t is Node ==> forall|j: int| 0 <= j < size(t) ==> #[trigger] leaves(t, d)[j].1 > d,
    decreases t,
{
    match t {
        Tree::Node(l, r) => {
            lemma_leaves(*l, d + 1);
            lemma_leaves(*r, d + 1);
            assert forall|j: int| 0 <= j < size(t) implies {
                &&& #[trigger] leaves(t, d)[j].1 == d + path_of(t, j).len()
                &&& d < leaves(t, d)[j].1 <= d + height(t)
            } by {
                if j < size(*l) {
                    assert(leaves(t, d)[j] == leaves(*l, d + 1)[j]);
                } else {
                    assert(leaves(t, d)[j] == leaves(*r, d + 1)[j - size(*l)]);
                }
            }
        },
        _ => {},
    }
}

/// Listing a full tree and rebuilding it from the depths alone gives the tree back, with
/// its leaves numbered in walk order.
pub proof fn lemma_rebuild(t: Tree, depths: Seq<u64>, i: nat, d: nat, room: nat)
    requires
        full(t),
        height(t) <= room,
        i + size(t) <= depths.len(),
        forall|j: int| 0 <= j < size(t) ==> depths[i + j] == #[trigger] leaves(t, d)[j].1,
    ensures
        tree_from(depths, i, d, room) == (numbered(t, i), i + size(t)),
    decreases t,
{
    lemma_leaves(t, d);
    match t {
        Tree::Node(l, r) => {
            lemma_leaves(*l, d + 1);
            lemma_leaves(*r, d + 1);
            assert(leaves(t, d)[0].1 > d);
            assert(depths[i as int] == leaves(t, d)[0].1);
            assert forall|j: int| 0 <= j < size(*l) implies depths[i + j] == #[trigger] leaves(*l, d + 1)[j].1 by {
                assert(leaves(t, d)[j] == leaves(*l, d + 1)[j]);
            }
            lemma_rebuild(*l, depths, i, d + 1, (room - 1) as nat);
            let k = i + size(*l);
            assert forall|j: int| 0 <= j < size(*r) implies depths[k + j] == #[trigger] leaves(*r, d + 1)[j].1 by {
                assert(leaves(t, d)[size(*l) + j] == leaves(*r, d + 1)[j]);
                assert(depths[i + (size(*l) + j)] == leaves(t, d)[size(*l) + j].1);
            }
            lemma_rebuild(*r, depths, k, d + 1, (room - 1) as nat);
        },
        Tree::Leaf(_) => {
            assert(depths[i + 0int] == leaves(t, d)[0].1);
        },
        Tree::Empty => {},
    }
}

/// Following the bits of a leaf's path reaches that leaf.
pub proof fn lemma_walk_path(t: Tree, i: nat, j: int, data: Seq<u8>, p: int, d: int)
    requires
        0 <= j < size(t),
        0 <= d < 9,
        bits_at(data, p, path_of(t, j)),
    ensures
        walk(numbered(t, i), data, p, d) == Some(((i + j) as nat, p + path_of(t, j).len())),
    decreases t,
{
    match t {
        Tree::Node(l, r) => {
            let b = path_of(t, j);
            assert(bits::dbit(data, p + 0) == b[0]);
            if j < size(*l) {
                let c = path_of(*l, j);
                assert forall|k: int| 0 <= k < c.len() implies #[trigger] bits::dbit(data, p + 1 + k) == c[k] by {
                    assert(bits::dbit(data, p + (k + 1)) == b[k + 1]);
                }
                lemma_walk_path(*l, i, j, data, p + 1, (d + 1) % 9);
            } else {
                let c = path_of(*r, j - size(*l));
                assert forall|k: int| 0 <= k < c.len() implies #[trigger] bits::dbit(data, p + 1 + k) == c[k] by {
                    assert(bits::dbit(data, p + (k + 1)) == b[k + 1]);
                }
                lemma_walk_path(*r, i + size(*l), j - size(*l), data, p + 1, (d + 1) % 9);
            }
        },
        _ => {},
    }
}

/// The depths of a code listed in walk order.
pub open spec fn lists(t: Tree, depths: Seq<u64>) -> bool {
    &&& full(t)
    &&& depths.len() == size(t)
    &&& forall|j: int| 0 <= j < size(t) ==> depths[j] == #[trigger] leaves(t, 0)[j].1
}

pub proof fn lemma_deepest(t: Tree, d: nat)
    requires
        full(t),
    ensures
        exists|j: int| 0 <= j < size(t) && #[trigger] leaves(t, d)[j].1 == d + height(t),
    decreases t,
{
    lemma_leaves(t, d);
    match t {
        Tree::Node(l, r) => {
            lemma_leaves(*l, d + 1);
            lemma_leaves(*r, d + 1);
            if height(*l) > height(*r) {
                lemma_deepest(*l, d + 1);
                let j = choose|j: int| 0 <= j < size(*l) && #[trigger] leaves(*l, d + 1)[j].1 == d + 1 + height(*l);
                assert(leaves(t, d)[j] == leaves(*l, d + 1)[j]);
            } else {
                lemma_deepest(*r, d + 1);
                let j = choose|j: int| 0 <= j < size(*r) && #[trigger] leaves(*r, d + 1)[j].1 == d + 1 + height(*r);
                assert(leaves(t, d)[size(*l) + j] == leaves(*r, d + 1)[j]);
            }
        },
        _ => {
            assert(leaves(t, d)[0].1 == d);
        },
    }
}

/// Reading a symbol of a listed code, where the stream holds its path, gives the symbol's
/// index and consumes exactly the path.
pub proof fn law_read_symbol(t: Tree, depths: Seq<u64>, j: int, data: Seq<u8>, p: int)
    requires
        lists(t, depths),
        0 <= j < size(t),
        bits_at(data, p, path_of(t, j)),
    ensures
        read_symbol(depths, data, p) == Some((j as nat, p + path_of(t, j).len())),
{
    lemma_leaves(t, 0);
    lemma_max_depth(depths);
    lemma_deepest(t, 0);
    let k = choose|k: int| 0 <= k < size(t) && #[trigger] leaves(t, 0)[k].1 == height(t);
    assert(depths[k] == height(t));
    let m = max_depth(depths);
    if m > height(t) {
        let i = choose|i: int| 0 <= i < depths.len() && #[trigger] depths[i] == m;
        assert(leaves(t, 0)[i].1 <= height(t));
    }
    assert(m == height(t));
    assert forall|j: int| 0 <= j < size(t) implies depths[0 + j] == #[trigger] leaves(t, 0)[j].1 by {}
    lemma_rebuild(t, depths, 0, 0, m);
    match t {
        Tree::Node(l, r) => {
            lemma_walk_path(t, 0, j, data, p, 0);
        },
        _ => {},
    }
}

} // verus!
