//! The pattern dictionary of a compressing writer: greedy longest-match covering of words
//! with a trie.

use vstd::prelude::*;

use crate::bytes;
use crate::coder;

verus! {

/// A node of the trie: the nodes that one more byte leads to, and the last pattern that
/// ends here.
struct TrieNode {
    children: Vec<(u8, usize)>,
    pattern: Option<usize>,
    /// The bytes that lead here from the root.
    label: Ghost<Seq<u8>>,
}

/// Patterns, with a trie for longest-match queries.
pub struct Dictionary {
    patterns: Vec<Vec<u8>>,
    nodes: Vec<TrieNode>,
}

/// The last of the first `n` patterns that equals `s`.
spec fn last_equal(patterns: Seq<Vec<u8>>, n: nat, s: Seq<u8>) -> Option<usize>
    decreases n,
{
    if n == 0 {
        None
    } else if patterns[n - 1]@ == s {
        Some((n - 1) as usize)
    } else {
        last_equal(patterns, (n - 1) as nat, s)
    }
}

/// Some node has this label.
spec fn labelled(nodes: Seq<TrieNode>, s: Seq<u8>) -> bool {
    exists|k: int| 0 <= k < nodes.len() && (#[trigger] nodes[k]).label@ == s
}

/// Labels are unique, and a node is a child exactly where its label says.
spec fn linked(nodes: Seq<TrieNode>) -> bool {
    &&& nodes.len() > 0
    &&& nodes[0].label@ == Seq::<u8>::empty()
    &&& forall|a: int, b: int|
        0 <= a < nodes.len() && 0 <= b < nodes.len() && (#[trigger] nodes[a]).label@ == (#[trigger] nodes[b]).label@ ==> a == b
    &&& forall|a: int, x: int|
        0 <= a < nodes.len() && 0 <= x < nodes[a].children@.len() ==> {
            let e = #[trigger] nodes[a].children@[x];
            e.1 < nodes.len() && nodes[e.1 as int].label@ == nodes[a].label@.push(e.0)
        }
    &&& forall|a: int, b: int|
        0 <= a < nodes.len() && 0 <= b < nodes.len() && (#[trigger] nodes[b]).label@.len() > 0 && (#[trigger] nodes[a]).label@
            == nodes[b].label@.drop_last() ==> exists|x: int|
            0 <= x < nodes[a].children@.len() && #[trigger] nodes[a].children@[x] == (
                nodes[b].label@.last(),
                b as usize,
            )
    &&& forall|b: int|
        0 <= b < nodes.len() && (#[trigger] nodes[b]).label@.len() > 0 ==> labelled(nodes, nodes[b].label@.drop_last())
}

/// The nodes know the first `n` patterns.
spec fn knows(nodes: Seq<TrieNode>, patterns: Seq<Vec<u8>>, n: nat) -> bool {
    &&& forall|k: int| 0 <= k < nodes.len() ==> (#[trigger] nodes[k]).pattern == last_equal(patterns, n, nodes[k].label@)
    &&& forall|p: int, l: int|
        0 <= p < n && 0 <= l <= patterns[p]@.len() ==> labelled(nodes, #[trigger] patterns[p]@.take(l))
}

proof fn lemma_last_equal(patterns: Seq<Vec<u8>>, n: nat, s: Seq<u8>)
    requires
        n <= patterns.len(),
        patterns.len() <= usize::MAX,
    ensures
        last_equal(patterns, n, s) matches Some(k) ==> {
            &&& k < n
            &&& patterns[k as int]@ == s
            &&& forall|j: int| k < j < n ==> (#[trigger] patterns[j])@ != s
        },
        last_equal(patterns, n, s) is None ==> forall|j: int| 0 <= j < n ==> (#[trigger] patterns[j])@ != s,
    decreases n,
{
    if n > 0 {
        lemma_last_equal(patterns, (n - 1) as nat, s);
    }
}

/// What the longest match is.
proof fn lemma_longest_is(patterns: Seq<Seq<u8>>, n: nat, w: Seq<u8>, i: int)
    requires
        n <= patterns.len(),
    ensures
        match coder::longest_match(patterns, n, w, i) {
            Some(k) => {
                &&& k < n
                &&& patterns[k as int].len() > 0
                &&& coder::matches_at(patterns[k as int], w, i)
                &&& forall|j: int|
                    0 <= j < n && (#[trigger] patterns[j]).len() > 0 && coder::matches_at(patterns[j], w, i) ==> {
                        patterns[j].len() < patterns[k as int].len() || (patterns[j].len() == patterns[k as int].len()
                            && j <= k)
                    }
            },
            None => forall|j: int|
                0 <= j < n && (#[trigger] patterns[j]).len() > 0 ==> !coder::matches_at(patterns[j], w, i),
        },
    decreases n,
{
    if n > 0 {
        lemma_longest_is(patterns, (n - 1) as nat, w, i);
    }
}

impl TrieNode {
    /// The node that byte `b` leads to.
    fn child(&self, b: u8) -> (r: Option<usize>)
        ensures
            match r {
                Some(c) => exists|x: int| 0 <= x < self.children@.len() && #[trigger] self.children@[x] == (b, c),
                None => forall|x: int| 0 <= x < self.children@.len() ==> (#[trigger] self.children@[x]).0 != b,
            },
    {
        let mut i: usize = 0;
        while i < self.children.len()
            invariant
                i <= self.children.len(),
                forall|x: int| 0 <= x < i ==> (#[trigger] self.children@[x]).0 != b,
            decreases self.children.len() - i,
        {
            let e: (u8, usize) = self.children[i];
            if e.0 == b {
                assert(self.children@[i as int] == (b, e.1));
                return Some(e.1);
            }
            i = i + 1;
        }
        None
    }
}

/// The child that a byte leads to has the longer label, and without a child no node has it.
proof fn lemma_child(nodes: Seq<TrieNode>, a: int, b: u8, r: Option<usize>)
    requires
        linked(nodes),
        nodes.len() <= usize::MAX,
        0 <= a < nodes.len(),
        match r {
            Some(c) => exists|x: int| 0 <= x < nodes[a].children@.len() && #[trigger] nodes[a].children@[x] == (b, c),
            None => forall|x: int| 0 <= x < nodes[a].children@.len() ==> (#[trigger] nodes[a].children@[x]).0 != b,
        },
    ensures
        match r {
            Some(c) => c < nodes.len() && nodes[c as int].label@ == nodes[a].label@.push(b),
            None => !labelled(nodes, nodes[a].label@.push(b)),
        },
{
    if r is None && labelled(nodes, nodes[a].label@.push(b)) {
        let k = choose|k: int| 0 <= k < nodes.len() && (#[trigger] nodes[k]).label@ == nodes[a].label@.push(b);
        assert(nodes[k].label@.drop_last() =~= nodes[a].label@);
        assert(nodes[k].label@.last() == b);
        let x = choose|x: int| 0 <= x < nodes[a].children@.len() && #[trigger] nodes[a].children@[x] == (b, k as usize);
        assert(nodes[a].children@[x].0 == b);
    }
}

/// Adding a leaf below node `a`.
proof fn lemma_grow(before: Seq<TrieNode>, after: Seq<TrieNode>, a: int, b: u8)
    requires
        linked(before),
        0 <= a < before.len(),
        before.len() < usize::MAX,
        !labelled(before, before[a].label@.push(b)),
        after.len() == before.len() + 1,
        forall|k: int| 0 <= k < before.len() && k != a ==> #[trigger] after[k] == before[k],
        after[a].label == before[a].label,
        after[a].pattern == before[a].pattern,
        after[a].children@ == before[a].children@.push((b, before.len() as usize)),
        after[before.len() as int].label@ == before[a].label@.push(b),
        after[before.len() as int].children@.len() == 0,
    ensures
        linked(after),
        forall|s: Seq<u8>| labelled(before, s) ==> #[trigger] labelled(after, s),
{
    let n = before.len() as int;
    let fresh = before[a].label@.push(b);
    assert forall|k: int| 0 <= k < n implies (#[trigger] after[k]).label@ == before[k].label@ by {}
    assert forall|k: int| 0 <= k < n implies (#[trigger] before[k]).label@ != fresh by {}
    assert forall|s: Seq<u8>| labelled(before, s) implies #[trigger] labelled(after, s) by {
        let k = choose|k: int| 0 <= k < before.len() && (#[trigger] before[k]).label@ == s;
        assert(after[k].label@ == s);
    }
    assert forall|c: int, d: int|
        0 <= c < after.len() && 0 <= d < after.len() && (#[trigger] after[c]).label@ == (#[trigger] after[d]).label@ implies c
        == d by {
        if c < n && d < n {
            assert(before[c].label@ == before[d].label@);
        } else if c < n {
            assert(before[c].label@ != fresh);
        } else if d < n {
            assert(before[d].label@ != fresh);
        }
    }
    assert forall|c: int, x: int| 0 <= c < after.len() && 0 <= x < after[c].children@.len() implies {
        let e = #[trigger] after[c].children@[x];
        e.1 < after.len() && after[e.1 as int].label@ == after[c].label@.push(e.0)
    } by {
        if c == a && x == before[a].children@.len() {
        } else {
            assert(after[c].children@[x] == before[c].children@[x]);
        }
    }
    assert forall|c: int, d: int|
        0 <= c < after.len() && 0 <= d < after.len() && (#[trigger] after[d]).label@.len() > 0 && (
        #[trigger] after[c]).label@ == after[d].label@.drop_last() implies exists|x: int|
        0 <= x < after[c].children@.len() && #[trigger] after[c].children@[x] == (after[d].label@.last(), d as usize) by {
        if d == n {
            assert(fresh.drop_last() =~= before[a].label@);
            assert(after[a].label@ == after[c].label@);
            assert(c == a);
            assert(after[c].children@[before[a].children@.len() as int] == (after[d].label@.last(), d as usize));
        } else if c == n {
            // A node below the new one would make the new label a prefix of an old one.
            assert(labelled(before, before[d].label@.drop_last()));
            assert(false);
        } else {
            assert(before[c].label@ == before[d].label@.drop_last());
            let x = choose|x: int|
                0 <= x < before[c].children@.len() && #[trigger] before[c].children@[x] == (
                    before[d].label@.last(),
                    d as usize,
                );
            assert(after[c].children@[x] == before[c].children@[x]);
        }
    }
    assert forall|d: int| 0 <= d < after.len() && (#[trigger] after[d]).label@.len() > 0 implies labelled(
        after,
        after[d].label@.drop_last(),
    ) by {
        if d == n {
            assert(fresh.drop_last() =~= before[a].label@);
            assert(after[a].label@ == before[a].label@);
        } else {
            assert(labelled(before, before[d].label@.drop_last()));
        }
    }
}

impl Dictionary {
    #[verifier::type_invariant]
    spec fn inv(self) -> bool {
        &&& linked(self.nodes@)
        &&& knows(self.nodes@, self.patterns@, self.patterns@.len())
    }

    /// The patterns.
    pub closed spec fn patterns(&self) -> Seq<Seq<u8>> {
        bytes::texts(self.patterns@)
    }

    pub fn new(patterns: Vec<Vec<u8>>) -> (d: Dictionary)
        ensures
            d.patterns() == bytes::texts(patterns@),
    {
        let mut nodes: Vec<TrieNode> = Vec::new();
        nodes.push(TrieNode { children: Vec::new(), pattern: None, label: Ghost(Seq::empty()) });
        let mut pid: usize = 0;
        while pid < patterns.len()
            invariant
                pid <= patterns.len(),
                linked(nodes@),
                knows(nodes@, patterns@, pid as nat),
            decreases patterns.len() - pid,
        {
            enter(&mut nodes, &patterns, pid);
            pid = pid + 1;
        }
        Dictionary { patterns, nodes }
    }
}

/// Enter pattern `pid`, with all before it there.
fn enter(nodes: &mut Vec<TrieNode>, patterns: &Vec<Vec<u8>>, pid: usize)
    requires
        pid < patterns@.len(),
        linked(old(nodes)@),
        knows(old(nodes)@, patterns@, pid as nat),
    ensures
        linked(final(nodes)@),
        knows(final(nodes)@, patterns@, (pid + 1) as nat),
{
    let ghost text = patterns@[pid as int]@;
    let plen: usize = patterns[pid].len();
    let mut node: usize = 0;
    let mut bi: usize = 0;
    proof {
        assert(text.take(0) =~= Seq::empty());
    }
    while bi < plen
        invariant
            pid < patterns.len(),
            text == patterns@[pid as int]@,
            plen == text.len(),
            bi <= plen,
            node < nodes.len(),
            linked(nodes@),
            knows(nodes@, patterns@, pid as nat),
            nodes@[node as int].label@ == text.take(bi as int),
            forall|l: int| 0 <= l <= bi ==> labelled(nodes@, #[trigger] text.take(l)),
        decreases plen - bi,
    {
        let b: u8 = patterns[pid][bi];
        let found: Option<usize> = nodes[node].child(b);
        let ghost before = nodes@;
        proof {
            lemma_child(before, node as int, b, found);
            assert(text.take(bi as int).push(b) =~= text.take(bi + 1));
        }
        match found {
            Some(c) => {
                node = c;
                proof {
                    assert(labelled(nodes@, text.take(bi + 1)));
                }
            },
            None => {
                let c: usize = nodes.len();
                nodes.push(TrieNode { children: Vec::new(), pattern: None, label: Ghost(text.take(bi + 1)) });
                proof {
                    assert(nodes.len() == before.len() + 1);
                }
                nodes[node].children.push((b, c));
                proof {
                    lemma_grow(before, nodes@, node as int, b);
                    lemma_last_equal(patterns@, pid as nat, text.take(bi + 1));
                    assert(last_equal(patterns@, pid as nat, text.take(bi + 1)) is None) by {
                        if let Some(k) = last_equal(patterns@, pid as nat, text.take(bi + 1)) {
                            assert(patterns@[k as int]@.take(patterns@[k as int]@.len() as int) =~= patterns@[k as int]@);
                            assert(labelled(before, patterns@[k as int]@.take(patterns@[k as int]@.len() as int)));
                        }
                    }
                    assert(nodes@[c as int].label@ == text.take(bi + 1));
                    assert(labelled(nodes@, text.take(bi + 1)));
                }
                node = c;
            },
        }
        bi = bi + 1;
    }
    let ghost before = nodes@;
    proof {
        assert(text.take(plen as int) =~= text);
    }
    nodes[node].pattern = Some(pid);
    proof {
        assert forall|k: int| 0 <= k < nodes@.len() implies (#[trigger] nodes@[k]).label == before[k].label && nodes@[k].children
            == before[k].children by {}
        assert forall|s: Seq<u8>| labelled(before, s) implies #[trigger] labelled(nodes@, s) by {
            let k = choose|k: int| 0 <= k < before.len() && (#[trigger] before[k]).label@ == s;
            assert(nodes@[k].label@ == s);
        }
        assert(linked(nodes@)) by {
            lemma_linked_same(before, nodes@);
        }
        assert forall|k: int| 0 <= k < nodes@.len() implies (#[trigger] nodes@[k]).pattern == last_equal(
            patterns@,
            (pid + 1) as nat,
            nodes@[k].label@,
        ) by {
            if k != node {
                assert(before[k].label@ != before[node as int].label@);
            }
        }
        assert forall|p: int, l: int| 0 <= p < pid + 1 && 0 <= l <= patterns@[p]@.len() implies labelled(
            nodes@,
            #[trigger] patterns@[p]@.take(l),
        ) by {
            assert(labelled(before, patterns@[p]@.take(l)));
        }
    }
}

/// Only labels and children matter to how nodes are linked.
proof fn lemma_linked_same(a: Seq<TrieNode>, b: Seq<TrieNode>)
    requires
        linked(a),
        a.len() == b.len(),
        forall|k: int| 0 <= k < a.len() ==> (#[trigger] b[k]).label == a[k].label && b[k].children == a[k].children,
        forall|s: Seq<u8>| labelled(a, s) ==> #[trigger] labelled(b, s),
    ensures
        linked(b),
{
    assert forall|c: int, d: int|
        0 <= c < b.len() && 0 <= d < b.len() && (#[trigger] b[d]).label@.len() > 0 && (#[trigger] b[c]).label@
            == b[d].label@.drop_last() implies exists|x: int|
        0 <= x < b[c].children@.len() && #[trigger] b[c].children@[x] == (b[d].label@.last(), d as usize) by {
        assert(a[c].label@ == a[d].label@.drop_last());
        let x = choose|x: int|
            0 <= x < a[c].children@.len() && #[trigger] a[c].children@[x] == (a[d].label@.last(), d as usize);
        assert(b[c].children@[x] == (b[d].label@.last(), d as usize));
    }
    assert forall|d: int| 0 <= d < b.len() && (#[trigger] b[d]).label@.len() > 0 implies labelled(
        b,
        b[d].label@.drop_last(),
    ) by {
        assert(labelled(a, a[d].label@.drop_last()));
    }
}

/// The places and patterns that a cover stands for.
pub open spec fn cover_view(c: Seq<(usize, usize)>) -> Seq<(int, nat)> {
    Seq::new(c.len(), |i: int| (c[i].0 as int, c[i].1 as nat))
}

impl Dictionary {
    /// Number of patterns.
    pub fn len(&self) -> (n: usize)
        ensures
            n == self.patterns().len(),
    {
        self.patterns.len()
    }

    /// Pattern `pid`.
    pub fn pattern(&self, pid: usize) -> (p: &Vec<u8>)
        requires
            pid < self.patterns().len(),
        ensures
            p@ == self.patterns()[pid as int],
    {
        &self.patterns[pid]
    }

    /// The longest pattern that `word` holds at `i`, with its length.
    #[verifier::rlimit(60)]
    #[verifier::spinoff_prover]
    pub fn longest_match_at(&self, word: &[u8], i: usize) -> (r: Option<(usize, usize)>)
        requires
            i <= word@.len(),
        ensures
            match coder::longest_match(self.patterns(), self.patterns().len(), word@, i as int) {
                Some(k) => r == Some((k as usize, self.patterns()[k as int].len() as usize)) && k <= usize::MAX
                    && self.patterns()[k as int].len() <= usize::MAX,
                None => r is None,
            },
            r matches Some((pid, len)) ==> pid < self.patterns().len() && 0 < len <= word@.len() - i,
    {
        proof {
            use_type_invariant(self);
        }
        let ghost ps = self.patterns();
        let mut node: usize = 0;
        let mut best: Option<(usize, usize)> = None;
        let mut j: usize = i;
        let mut open: bool = true;
        proof {
            assert(word@.subrange(i as int, i as int) =~= Seq::empty());
            assert(self.patterns@.len() == self.patterns.len());
        }
        while open && j < word.len()
            invariant
                linked(self.nodes@),
                knows(self.nodes@, self.patterns@, self.patterns@.len()),
                ps == bytes::texts(self.patterns@),
                i <= j <= word.len(),
                node < self.nodes.len(),
                self.patterns@.len() <= usize::MAX,
                open ==> self.nodes@[node as int].label@ == word@.subrange(i as int, j as int),
                !open ==> j < word.len() && !labelled(self.nodes@, word@.subrange(i as int, j + 1)),
                best matches Some((pid, len)) ==> {
                    &&& pid < ps.len()
                    &&& 0 < len <= j - i
                    &&& ps[pid as int].len() == len
                    &&& coder::matches_at(ps[pid as int], word@, i as int)
                    &&& forall|k: int|
                        0 <= k < ps.len() && 0 < (#[trigger] ps[k]).len() <= j - i && coder::matches_at(ps[k], word@, i as int)
                            ==> ps[k].len() < len || (ps[k].len() == len && k <= pid)
                },
                best is None ==> forall|k: int|
                    0 <= k < ps.len() && 0 < (#[trigger] ps[k]).len() <= j - i ==> !coder::matches_at(ps[k], word@, i as int),
            decreases word.len() - j + if open { 1int } else { 0int },
        {
            let b: u8 = word[j];
            let found: Option<usize> = self.nodes[node].child(b);
            let ghost s = word@.subrange(i as int, j + 1);
            proof {
                assert(self.nodes.len() == self.nodes@.len());
                lemma_child(self.nodes@, node as int, b, found);
                assert(word@.subrange(i as int, j as int).push(b) =~= s);
            }
            match found {
                None => {
                    open = false;
                },
                Some(c) => {
                    node = c;
                    j = j + 1;
                    proof {
                        lemma_last_equal(self.patterns@, self.patterns@.len(), s);
                        assert forall|k: int| 0 <= k < ps.len() && (#[trigger] ps[k]).len() == j - i && coder::matches_at(
                            ps[k],
                            word@,
                            i as int,
                        ) implies self.patterns@[k]@ == s by {}
                    }
                    match self.nodes[node].pattern {
                        Some(pid) => {
                            best = Some((pid, j - i));
                            proof {
                                assert(self.patterns@[pid as int]@ == s);
                                assert(ps[pid as int] == s);
                            }
                        },
                        None => {},
                    }
                },
            }
        }
        proof {
            lemma_longest_is(ps, ps.len(), word@, i as int);
            assert forall|k: int| 0 <= k < ps.len() && j - i < (#[trigger] ps[k]).len() implies !coder::matches_at(
                ps[k],
                word@,
                i as int,
            ) by {
                if coder::matches_at(ps[k], word@, i as int) {
                    let l = j + 1 - i;
                    assert(self.patterns@[k]@.take(l) =~= word@.subrange(i as int, j + 1));
                    assert(labelled(self.nodes@, self.patterns@[k]@.take(l)));
                }
            }
        }
        best
    }

    /// Greedy non-overlapping cover of `word`: start and pattern, in increasing start
    /// order.
    pub fn cover(&self, word: &[u8]) -> (out: Vec<(usize, usize)>)
        ensures
            cover_view(out@) == coder::cover(self.patterns(), word@),
    {
        let ghost ps = self.patterns();
        let mut out: Vec<(usize, usize)> = Vec::new();
        let mut i: usize = 0;
        proof {
            assert(cover_view(out@) + coder::cover_from(ps, word@, 0) =~= coder::cover(ps, word@));
        }
        while i < word.len()
            invariant
                ps == self.patterns(),
                i <= word.len(),
                cover_view(out@) + coder::cover_from(ps, word@, i as int) == coder::cover(ps, word@),
            decreases word.len() - i,
        {
            let found = self.longest_match_at(word, i);
            let ghost before = cover_view(out@);
            match found {
                Some((pid, plen)) => {
                    out.push((i, pid));
                    proof {
                        assert(cover_view(out@) =~= before.push((i as int, pid as nat)));
                        let rest = coder::cover_from(ps, word@, i + plen);
                        assert(before + (seq![(i as int, pid as nat)] + rest) =~= cover_view(out@) + rest);
                    }
                    i = i + plen;
                },
                None => {
                    i = i + 1;
                },
            }
        }
        proof {
            assert(cover_view(out@) + coder::cover_from(ps, word@, i as int) =~= cover_view(out@));
        }
        out
    }
}

} // verus!
