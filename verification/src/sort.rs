//! Sorting: the order in which a strict total ranking puts the numbers `0..n`.

use vstd::prelude::*;

verus! {

/// A strict total ranking of the indices `0..count()`.
pub trait Ranking {
    /// Number of ranked indices.
    spec fn count(&self) -> nat;

    /// `i` ranks strictly before `j`.
    spec fn precedes(&self, i: int, j: int) -> bool;

    proof fn ranking_is_total(&self, i: int, j: int)
        requires
            0 <= i < self.count(),
            0 <= j < self.count(),
        ensures
            i != j ==> self.precedes(i, j) || self.precedes(j, i),
            !(self.precedes(i, j) && self.precedes(j, i)),
    ;

    proof fn ranking_is_transitive(&self, i: int, j: int, k: int)
        requires
            0 <= i < self.count(),
            0 <= j < self.count(),
            0 <= k < self.count(),
            self.precedes(i, j),
            self.precedes(j, k),
        ensures
            self.precedes(i, k),
    ;

    fn before(&self, i: usize, j: usize) -> (r: bool)
        requires
            i < self.count(),
            j < self.count(),
        ensures
            r == self.precedes(i as int, j as int),
    ;
}

/// `s` is strictly increasing in the ranking.
pub open spec fn ranked<R: Ranking>(r: &R, s: Seq<usize>) -> bool {
    forall|a: int, b: int| 0 <= a < b < s.len() ==> r.precedes((#[trigger] s[a]) as int, (#[trigger] s[b]) as int)
}

/// `s` lists every index from `lo` to `hi` in rank order.
pub open spec fn ranks<R: Ranking>(r: &R, s: Seq<usize>, lo: int, hi: int) -> bool {
    &&& s.len() == hi - lo
    &&& forall|a: int| 0 <= a < s.len() ==> lo <= #[trigger] s[a] < hi
    &&& ranked(r, s)
    &&& forall|i: usize| lo <= i < hi ==> #[trigger] s.contains(i)
}

proof fn lemma_contains_push(s: Seq<usize>, x: usize)
    ensures
        s.push(x).contains(x),
        forall|i: usize| #[trigger] s.contains(i) ==> s.push(x).contains(i),
{
    assert(s.push(x)[s.len() as int] == x);
    assert forall|i: usize| #[trigger] s.contains(i) implies s.push(x).contains(i) by {
        let k = choose|k: int| 0 <= k < s.len() && s[k] == i;
        assert(s.push(x)[k] == i);
    }
}

fn merge_ranked<R: Ranking>(r: &R, a: &Vec<usize>, b: &Vec<usize>, Ghost(lo): Ghost<int>, Ghost(mid): Ghost<int>, Ghost(hi): Ghost<int>) -> (out: Vec<usize>)
    requires
        0 <= lo <= mid <= hi <= r.count(),
        ranks(r, a@, lo, mid),
        ranks(r, b@, mid, hi),
    ensures
        ranks(r, out@, lo, hi),
{
    let mut out: Vec<usize> = Vec::new();
    let mut i: usize = 0;
    let mut j: usize = 0;
    while i < a.len() || j < b.len()
        invariant
            0 <= lo <= mid <= hi <= r.count(),
            ranks(r, a@, lo, mid),
            ranks(r, b@, mid, hi),
            i <= a.len(),
            j <= b.len(),
            out@.len() == i + j,
            ranked(r, out@),
            forall|k: int| 0 <= k < out@.len() ==> lo <= #[trigger] out@[k] < hi,
            forall|k: int, x: int|
                0 <= k < out@.len() && i <= x < a.len() ==> r.precedes((#[trigger] out@[k]) as int, (#[trigger] a@[x]) as int),
            forall|k: int, x: int|
                0 <= k < out@.len() && j <= x < b.len() ==> r.precedes((#[trigger] out@[k]) as int, (#[trigger] b@[x]) as int),
            forall|x: int| 0 <= x < i ==> out@.contains(#[trigger] a@[x]),
            forall|x: int| 0 <= x < j ==> out@.contains(#[trigger] b@[x]),
        decreases a.len() + b.len() - i - j,
    {
        let ghost before = out@;
        let take_a: bool = i < a.len() && (j >= b.len() || r.before(a[i], b[j]));
        proof {
            if i < a.len() && j < b.len() {
                r.ranking_is_total(a@[i as int] as int, b@[j as int] as int);
                if take_a {
                    assert forall|x: int| j < x < b.len() implies r.precedes(a@[i as int] as int, (#[trigger] b@[x]) as int) by {
                        assert(r.precedes(b@[j as int] as int, b@[x] as int));
                        r.ranking_is_transitive(a@[i as int] as int, b@[j as int] as int, b@[x] as int);
                    }
                } else {
                    assert forall|x: int| i < x < a.len() implies r.precedes(b@[j as int] as int, (#[trigger] a@[x]) as int) by {
                        assert(r.precedes(a@[i as int] as int, a@[x] as int));
                        r.ranking_is_transitive(b@[j as int] as int, a@[i as int] as int, a@[x] as int);
                    }
                }
            }
            lemma_contains_push(before, if take_a { a@[i as int] } else { b@[j as int] });
        }
        if take_a {
            out.push(a[i]);
            i = i + 1;
        } else {
            out.push(b[j]);
            j = j + 1;
        }
    }
    proof {
        assert forall|x: usize| lo <= x < hi implies #[trigger] out@.contains(x) by {
            if x < mid {
                assert(a@.contains(x));
                let k = choose|k: int| 0 <= k < a@.len() && a@[k] == x;
                assert(out@.contains(a@[k]));
            } else {
                assert(b@.contains(x));
                let k = choose|k: int| 0 <= k < b@.len() && b@[k] == x;
                assert(out@.contains(b@[k]));
            }
        }
    }
    out
}

fn sort_range<R: Ranking>(r: &R, lo: usize, hi: usize) -> (out: Vec<usize>)
    requires
        lo <= hi <= r.count(),
    ensures
        ranks(r, out@, lo as int, hi as int),
    decreases hi - lo,
{
    if lo == hi {
        let out: Vec<usize> = Vec::new();
        return out;
    }
    if hi - lo == 1 {
        let mut out: Vec<usize> = Vec::new();
        out.push(lo);
        proof {
            assert(out@[0] == lo);
        }
        return out;
    }
    let mid: usize = lo + (hi - lo) / 2;
    let a = sort_range(r, lo, mid);
    let b = sort_range(r, mid, hi);
    merge_ranked(r, &a, &b, Ghost(lo as int), Ghost(mid as int), Ghost(hi as int))
}

/// All `n` indices in rank order.
pub fn sort_indices<R: Ranking>(r: &R, n: usize) -> (out: Vec<usize>)
    requires
        n == r.count(),
    ensures
        ranks(r, out@, 0, n as int),
{
    sort_range(r, 0, n)
}

} // verus!
