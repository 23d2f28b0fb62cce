//! Fixed-width integers in byte strings, and the lexicographic order of byte strings.

use vstd::arithmetic::div_mod::*;
use vstd::arithmetic::mul::*;
use vstd::arithmetic::power2::*;
use vstd::bits::*;
use vstd::prelude::*;
use vstd::slice::*;

use crate::bits;

verus! {

// ------------------------------------------------------------------ integers

/// The number that `s` spells, most significant byte first.
pub open spec fn be_value(s: Seq<u8>) -> nat
    decreases s.len(),
{
    if s.len() == 0 {
        0
    } else {
        be_value(s.drop_last()) * 256 + s.last() as nat
    }
}

/// The number that `s` spells, least significant byte first.
pub open spec fn le_value(s: Seq<u8>) -> nat
    decreases s.len(),
{
    if s.len() == 0 {
        0
    } else {
        s[0] as nat + 256 * le_value(s.drop_first())
    }
}

/// Base-256 digit `i` of `v`.
pub open spec fn byte_of(v: nat, i: int) -> u8 {
    ((v / pow2((8 * i) as nat)) % 256) as u8
}

/// The low `n` base-256 digits of `v`, most significant first.
pub open spec fn be_bytes(v: nat, n: nat) -> Seq<u8> {
    Seq::new(n, |i: int| byte_of(v, n - 1 - i))
}

/// The low `n` base-256 digits of `v`, least significant first.
pub open spec fn le_bytes(v: nat, n: nat) -> Seq<u8> {
    Seq::new(n, |i: int| byte_of(v, i))
}

proof fn lemma_byte_of_div(v: nat, i: int)
    requires
        0 <= i,
    ensures
        byte_of(v / 256, i) == byte_of(v, i + 1),
{
    bits::lemma_pow2_64();
    lemma_pow2_adds(8, (8 * i) as nat);
    lemma_pow2_pos((8 * i) as nat);
    lemma_div_denominator(v as int, 256, pow2((8 * i) as nat) as int);
    assert(8 + (8 * i) as nat == (8 * (i + 1)) as nat);
}

pub proof fn lemma_be_bound(s: Seq<u8>)
    ensures
        be_value(s) < pow2(8 * s.len()),
    decreases s.len(),
{
    lemma2_to64();
    if s.len() > 0 {
        lemma_be_bound(s.drop_last());
        lemma_pow2_adds(8, 8 * (s.len() - 1) as nat);
        assert(8 + 8 * (s.len() - 1) as nat == 8 * s.len());
    }
}

pub proof fn lemma_le_bound(s: Seq<u8>)
    ensures
        le_value(s) < pow2(8 * s.len()),
    decreases s.len(),
{
    lemma2_to64();
    if s.len() > 0 {
        lemma_le_bound(s.drop_first());
        lemma_pow2_adds(8, 8 * (s.len() - 1) as nat);
        assert(8 + 8 * (s.len() - 1) as nat == 8 * s.len());
    }
}

/// Reading back a big-endian integer.
pub proof fn lemma_be_roundtrip(v: nat, n: nat)
    requires
        v < pow2(8 * n),
    ensures
        be_value(be_bytes(v, n)) == v,
    decreases n,
{
    lemma2_to64();
    if n > 0 {
        let s = be_bytes(v, n);
        let m = (n - 1) as nat;
        assert(s.drop_last() =~= be_bytes(v / 256, m)) by {
            assert forall|i: int| 0 <= i < m implies s[i] == be_bytes(v / 256, m)[i] by {
                lemma_byte_of_div(v, m - 1 - i);
            }
        }
        lemma_pow2_adds(8, 8 * m);
        assert(8 + 8 * m == 8 * n);
        assert(v / 256 < pow2(8 * m)) by (nonlinear_arith)
            requires
                v < 256 * pow2(8 * m),
        ;
        lemma_be_roundtrip(v / 256, m);
        assert(v / pow2(0) == v);
    }
}

/// Reading back a little-endian integer.
pub proof fn lemma_le_roundtrip(v: nat, n: nat)
    requires
        v < pow2(8 * n),
    ensures
        le_value(le_bytes(v, n)) == v,
    decreases n,
{
    lemma2_to64();
    if n > 0 {
        let s = le_bytes(v, n);
        let m = (n - 1) as nat;
        assert(s.drop_first() =~= le_bytes(v / 256, m)) by {
            assert forall|i: int| 0 <= i < m implies s.drop_first()[i] == le_bytes(v / 256, m)[i] by {
                lemma_byte_of_div(v, i);
            }
        }
        lemma_pow2_adds(8, 8 * m);
        assert(8 + 8 * m == 8 * n);
        assert(v / 256 < pow2(8 * m)) by (nonlinear_arith)
            requires
                v < 256 * pow2(8 * m),
        ;
        lemma_le_roundtrip(v / 256, m);
        assert(v / pow2(0) == v);
    }
}

/// Read `n` bytes at `off` as a big-endian integer.
pub fn read_be(data: &[u8], off: usize, n: usize) -> (v: u64)
    requires
        n <= 8,
        off + n <= data@.len(),
    ensures
        v == be_value(data@.subrange(off as int, off + n)),
{
    let mut v: u64 = 0;
    let mut i: usize = 0;
    proof {
        lemma2_to64();
        lemma2_to64_rest();
        assert(data@.subrange(off as int, off as int) =~= Seq::empty());
    }
    while i < n
        invariant
            i <= n <= 8,
            off + n <= data.len(),
            v == be_value(data@.subrange(off as int, off + i)),
        decreases n - i,
    {
        proof {
            let s = data@.subrange(off as int, off + i + 1);
            assert(s.drop_last() =~= data@.subrange(off as int, off + i));
            lemma_be_bound(s);
            bits::lemma_pow2_64();
            if i < 7 {
                lemma_pow2_strictly_increases(8 * s.len(), 64);
            }
            assert(s.last() == data@[off + i]);
        }
        v = v * 256 + data[off + i] as u64;
        i = i + 1;
    }
    v
}

/// Read `n` bytes at `off` as a little-endian integer.
pub fn read_le(data: &[u8], off: usize, n: usize) -> (v: u64)
    requires
        n <= 8,
        off + n <= data@.len(),
    ensures
        v == le_value(data@.subrange(off as int, off + n)),
{
    let mut v: u64 = 0;
    let mut i: usize = n;
    proof {
        assert(data@.subrange(off + n, off + n) =~= Seq::empty());
    }
    while i > 0
        invariant
            i <= n <= 8,
            off + n <= data.len(),
            v == le_value(data@.subrange(off + i, off + n)),
        decreases i,
    {
        i = i - 1;
        proof {
            let s = data@.subrange(off + i, off + n);
            assert(s.drop_first() =~= data@.subrange(off + i + 1, off + n));
            lemma_le_bound(s);
            bits::lemma_pow2_64();
            if s.len() < 8 {
                lemma_pow2_strictly_increases(8 * s.len(), 64);
            }
        }
        v = v * 256 + data[off + i] as u64;
    }
    v
}

fn digit_at(v: u64, i: usize) -> (b: u8)
    requires
        i < 8,
    ensures
        b == byte_of(v as nat, i as int),
{
    let s: u64 = 8 * (i as u64);
    proof {
        lemma_u64_shr_is_div(v, s);
    }
    ((v >> s) % 256) as u8
}

/// Append the low `n` bytes of `v`, most significant first.
pub fn push_be(out: &mut Vec<u8>, v: u64, n: usize)
    requires
        n <= 8,
    ensures
        final(out)@ == old(out)@ + be_bytes(v as nat, n as nat),
{
    let ghost before = out@;
    let mut i: usize = 0;
    while i < n
        invariant
            i <= n <= 8,
            out@ =~= before + be_bytes(v as nat, n as nat).subrange(0, i as int),
        decreases n - i,
    {
        let b = digit_at(v, n - 1 - i);
        out.push(b);
        i = i + 1;
    }
}

/// Append the low `n` bytes of `v`, least significant first.
pub fn push_le(out: &mut Vec<u8>, v: u64, n: usize)
    requires
        n <= 8,
    ensures
        final(out)@ == old(out)@ + le_bytes(v as nat, n as nat),
{
    let ghost before = out@;
    let mut i: usize = 0;
    while i < n
        invariant
            i <= n <= 8,
            out@ =~= before + le_bytes(v as nat, n as nat).subrange(0, i as int),
        decreases n - i,
    {
        let b = digit_at(v, i);
        out.push(b);
        i = i + 1;
    }
}

/// Append a byte string.
pub fn push_bytes(out: &mut Vec<u8>, s: &[u8])
    ensures
        final(out)@ == old(out)@ + s@,
{
    let ghost before = out@;
    out.extend_from_slice(s);
    proof {
        assert(out@ =~= before + s@);
    }
}

/// The byte strings that a list stands for.
pub open spec fn texts(v: Seq<Vec<u8>>) -> Seq<Seq<u8>> {
    Seq::new(v.len(), |i: int| v[i]@)
}

/// A copy of a byte string.
pub fn copy_bytes(s: &[u8]) -> (v: Vec<u8>)
    ensures
        v@ == s@,
{
    let mut v: Vec<u8> = Vec::with_capacity(s.len());
    push_bytes(&mut v, s);
    proof {
        assert(v@ =~= s@);
    }
    v
}

// ------------------------------------------------------------------ order

/// `a` sorts strictly before `b`, byte by byte, a proper prefix first.
pub open spec fn lex_lt(a: Seq<u8>, b: Seq<u8>) -> bool
    decreases a.len(),
{
    if b.len() == 0 {
        false
    } else if a.len() == 0 {
        true
    } else {
        a[0] < b[0] || (a[0] == b[0] && lex_lt(a.drop_first(), b.drop_first()))
    }
}

/// `a` sorts before `b` or equals it.
pub open spec fn lex_le(a: Seq<u8>, b: Seq<u8>) -> bool {
    a == b || lex_lt(a, b)
}

/// Outcome of comparing two byte strings.
#[derive(Debug, Clone, Copy, PartialEq, Eq, Structural)]
pub enum Order {
    /// The first sorts strictly before the second.
    Less,
    /// Both are the same string.
    Equal,
    /// The first sorts strictly after the second.
    Greater,
}

pub open spec fn lex_order_spec(a: Seq<u8>, b: Seq<u8>) -> Order {
    if a == b {
        Order::Equal
    } else if lex_lt(a, b) {
        Order::Less
    } else {
        Order::Greater
    }
}

pub proof fn lemma_lex_irreflexive(a: Seq<u8>)
    ensures
        !lex_lt(a, a),
    decreases a.len(),
{
    if a.len() > 0 {
        lemma_lex_irreflexive(a.drop_first());
    }
}

pub proof fn lemma_lex_transitive(a: Seq<u8>, b: Seq<u8>, c: Seq<u8>)
    requires
        lex_lt(a, b),
        lex_lt(b, c),
    ensures
        lex_lt(a, c),
    decreases a.len(),
{
    if a.len() > 0 && a[0] == b[0] && b[0] == c[0] {
        lemma_lex_transitive(a.drop_first(), b.drop_first(), c.drop_first());
    }
}

pub proof fn lemma_lex_total(a: Seq<u8>, b: Seq<u8>)
    ensures
        a == b || lex_lt(a, b) || lex_lt(b, a),
        !(lex_lt(a, b) && lex_lt(b, a)),
    decreases a.len(),
{
    if a.len() > 0 && b.len() > 0 {
        lemma_lex_total(a.drop_first(), b.drop_first());
        if a[0] == b[0] && a.drop_first() == b.drop_first() {
            assert(a =~= seq![a[0]] + a.drop_first());
            assert(b =~= seq![b[0]] + b.drop_first());
        }
    } else if a.len() == 0 && b.len() == 0 {
        assert(a =~= b);
    }
}

/// The order of two strings is decided at the first position where they differ.
proof fn lemma_lex_at(a: Seq<u8>, b: Seq<u8>, i: int)
    requires
        0 <= i <= a.len(),
        i <= b.len(),
        forall|j: int| 0 <= j < i ==> a[j] == b[j],
    ensures
        lex_lt(a, b) == lex_lt(a.subrange(i, a.len() as int), b.subrange(i, b.len() as int)),
        a == b <==> a.subrange(i, a.len() as int) == b.subrange(i, b.len() as int),
    decreases i,
{
    if i == 0 {
        assert(a.subrange(0, a.len() as int) =~= a);
        assert(b.subrange(0, b.len() as int) =~= b);
    } else {
        lemma_lex_at(a.drop_first(), b.drop_first(), i - 1);
        assert(a.drop_first().subrange(i - 1, a.len() - 1) =~= a.subrange(i, a.len() as int));
        assert(b.drop_first().subrange(i - 1, b.len() - 1) =~= b.subrange(i, b.len() as int));
        assert(a[0] == b[0]);
        assert(a =~= seq![a[0]] + a.drop_first());
        assert(b =~= seq![b[0]] + b.drop_first());
    }
}

/// Compare two byte strings lexicographically.
pub fn lex_order(a: &[u8], b: &[u8]) -> (o: Order)
    ensures
        o == lex_order_spec(a@, b@),
        (o is Less) == lex_lt(a@, b@),
        (o is Equal) == (a@ == b@),
        (o is Greater) == lex_lt(b@, a@),
{
    let n: usize = if a.len() < b.len() { a.len() } else { b.len() };
    let mut i: usize = 0;
    while i < n && a[i] == b[i]
        invariant
            i <= n,
            n <= a@.len(),
            n <= b@.len(),
            forall|j: int| 0 <= j < i ==> a@[j] == b@[j],
        decreases n - i,
    {
        i = i + 1;
    }
    proof {
        lemma_lex_at(a@, b@, i as int);
        lemma_lex_at(b@, a@, i as int);
        lemma_lex_total(a@, b@);
        lemma_lex_irreflexive(a@);
        let ta = a@.subrange(i as int, a@.len() as int);
        let tb = b@.subrange(i as int, b@.len() as int);
        if i == a@.len() && i == b@.len() {
            assert(ta =~= tb);
        }
    }
    if i < a.len() {
        if i < b.len() {
            if a[i] < b[i] {
                Order::Less
            } else {
                Order::Greater
            }
        } else {
            Order::Greater
        }
    } else if i < b.len() {
        Order::Less
    } else {
        Order::Equal
    }
}

/// Whether two byte strings are the same.
pub fn bytes_equal(a: &[u8], b: &[u8]) -> (r: bool)
    ensures
        r == (a@ == b@),
{
    matches!(lex_order(a, b), Order::Equal)
}

} // verus!
