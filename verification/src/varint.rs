//! Go-compatible `binary.Uvarint` coding (unsigned LEB128), used by the pattern and
//! position dictionaries of a seg file.

use vstd::arithmetic::power2::*;
use vstd::bits::*;
use vstd::prelude::*;

use crate::bits;

verus! {

/// Length of the varint that `b` starts with: up to its first byte below `0x80`.
pub open spec fn varint_len(b: Seq<u8>) -> Option<nat>
    decreases b.len(),
{
    if b.len() == 0 {
        None
    } else if b[0] < 0x80 {
        Some(1)
    } else {
        match varint_len(b.drop_first()) {
            Some(n) => Some(n + 1),
            None => None,
        }
    }
}

/// The number whose base-128 digits, least significant first, are the low seven bits of
/// the bytes of `b`.
pub open spec fn varint_value(b: Seq<u8>) -> nat
    decreases b.len(),
{
    if b.len() == 0 {
        0
    } else {
        (b[0] % 128) as nat + 128 * varint_value(b.drop_first())
    }
}

/// What decoding the varint at the start of `b` gives: its value and its length, or
/// `(0, 0)` if it is cut short or does not fit in 64 bits.
pub open spec fn uvarint_spec(b: Seq<u8>) -> (nat, nat) {
    match varint_len(b) {
        Some(n) => if n > 10 || (n == 10 && b[9] > 1) {
            (0, 0)
        } else {
            (varint_value(b.take(n as int)), n)
        },
        None => (0, 0),
    }
}

/// The encoding of `x`: seven bits a byte, least significant first, every byte but the
/// last with its high bit set.
pub open spec fn varint_bytes(x: nat) -> Seq<u8>
    decreases x,
{
    if x < 128 {
        seq![x as u8]
    } else {
        seq![(x % 128 + 128) as u8] + varint_bytes(x / 128)
    }
}

pub proof fn lemma_varint_len_bound(b: Seq<u8>)
    ensures
        varint_len(b) matches Some(n) ==> {
            &&& 1 <= n <= b.len()
            &&& b[n - 1] < 0x80
            &&& forall|j: int| 0 <= j < n - 1 ==> #[trigger] b[j] >= 0x80
        },
        varint_len(b) is None ==> forall|j: int| 0 <= j < b.len() ==> #[trigger] b[j] >= 0x80,
    decreases b.len(),
{
    if b.len() > 0 && b[0] >= 0x80 {
        let t = b.drop_first();
        lemma_varint_len_bound(t);
        match varint_len(t) {
            Some(n) => {
                assert(b[n as int] == t[n - 1]);
                assert forall|j: int| 0 <= j < n implies #[trigger] b[j] >= 0x80 by {
                    if j > 0 {
                        assert(b[j] == t[j - 1]);
                    }
                }
            },
            None => {
                assert forall|j: int| 0 <= j < b.len() implies #[trigger] b[j] >= 0x80 by {
                    if j > 0 {
                        assert(b[j] == t[j - 1]);
                    }
                }
            },
        }
    }
}

/// The length found is the position of the first byte below `0x80`.
proof fn lemma_varint_len_is(b: Seq<u8>, k: int)
    requires
        0 <= k < b.len(),
        b[k] < 0x80,
        forall|j: int| 0 <= j < k ==> #[trigger] b[j] >= 0x80,
    ensures
        varint_len(b) == Some((k + 1) as nat),
{
    lemma_varint_len_bound(b);
    match varint_len(b) {
        Some(n) => {
            if n - 1 < k {
                assert(b[n - 1] >= 0x80);
            }
            if n - 1 > k {
                assert(b[k] >= 0x80);
            }
        },
        None => {
            assert(b[k] >= 0x80);
        },
    }
}

proof fn lemma_varint_value_bound(b: Seq<u8>)
    ensures
        varint_value(b) < pow2(7 * b.len()),
    decreases b.len(),
{
    lemma2_to64();
    if b.len() > 0 {
        lemma_varint_value_bound(b.drop_first());
        lemma_pow2_adds(7, 7 * (b.len() - 1) as nat);
        assert(7 + 7 * (b.len() - 1) as nat == 7 * b.len());
    }
}

/// Appending a byte adds it as the most significant digit.
proof fn lemma_varint_value_last(b: Seq<u8>)
    requires
        b.len() > 0,
    ensures
        varint_value(b) == varint_value(b.drop_last()) + (b.last() % 128) * pow2(7 * (b.len() - 1) as nat),
    decreases b.len(),
{
    lemma2_to64();
    if b.len() == 1 {
        assert(b.drop_first() =~= Seq::empty());
        assert(b.drop_last() =~= Seq::empty());
        assert(varint_value(b.drop_first()) == 0);
        assert(7 * (b.len() - 1) as nat == 0);
        assert((b.last() % 128) * pow2(0) == (b.last() % 128)) by (nonlinear_arith)
            requires
                pow2(0) == 1,
        ;
    } else {
        let t = b.drop_first();
        lemma_varint_value_last(t);
        assert(t.drop_last() =~= b.drop_last().drop_first());
        lemma_pow2_adds(7, 7 * (t.len() - 1) as nat);
        assert(7 + 7 * (t.len() - 1) as nat == 7 * (b.len() - 1) as nat);
        let d = (b.last() % 128) as int;
        let p = pow2(7 * (t.len() - 1) as nat) as int;
        assert(128 * (d * p) == d * (128 * p)) by (nonlinear_arith);
    }
}

/// Decode a Go `binary.Uvarint`. Returns `(value, bytes_read)`, or `(0, 0)` on overflow
/// or truncation.
pub fn uvarint(b: &[u8]) -> (r: (u64, usize))
    ensures
        r.0 == uvarint_spec(b@).0,
        r.1 == uvarint_spec(b@).1,
        r.1 <= b@.len(),
        r.1 <= 10,
{
    let mut x: u64 = 0;
    let mut i: usize = 0;
    proof {
        assert(b@.take(0) =~= Seq::empty());
        lemma_varint_len_bound(b@);
        lemma2_to64();
        lemma2_to64_rest();
    }
    while i < b.len()
        invariant
            i <= 9,
            i <= b.len(),
            forall|j: int| 0 <= j < i ==> #[trigger] b@[j] >= 0x80,
            x == varint_value(b@.take(i as int)),
        ensures
            i == b.len(),
            forall|j: int| 0 <= j < i ==> #[trigger] b@[j] >= 0x80,
        decreases b.len() - i,
    {
        let c: u8 = b[i];
        let s: u64 = 7 * (i as u64);
        let low: u64 = (c % 128) as u64;
        if i == 9 && c > 1 {
            proof {
                if c < 0x80 {
                    lemma_varint_len_is(b@, 9);
                } else {
                    lemma_varint_len_bound(b@);
                    assert forall|j: int| 0 <= j < 10 implies #[trigger] b@[j] >= 0x80 by {}
                    if let Some(n) = varint_len(b@) {
                        if n <= 10 {
                            assert(b@[n - 1] >= 0x80);
                        }
                    }
                }
            }
            return (0, 0);
        }
        proof {
            let t = b@.take(i + 1);
            lemma_varint_value_last(t);
            assert(t.drop_last() =~= b@.take(i as int));
            lemma_varint_value_bound(b@.take(i as int));
            assert(7 * (t.len() - 1) as nat == s as nat);
            lemma_u64_pow2_no_overflow(s as nat);
            lemma2_to64();
            lemma2_to64_rest();
            let p = pow2(s as nat) as int;
            if i < 9 {
                assert(p <= 0x1_0000_0000_0000_00) by {
                    if i < 8 {
                        lemma_pow2_strictly_increases(s as nat, 56);
                    }
                }
                assert(low * p <= 127 * p) by (nonlinear_arith)
                    requires
                        low <= 127,
                        p >= 0,
                ;
            } else {
                assert(low * p <= p) by (nonlinear_arith)
                    requires
                        low <= 1,
                        p >= 0,
                ;
            }
            lemma_u64_shl_is_mul(low, s);
        }
        if c < 0x80 {
            proof {
                lemma_varint_len_is(b@, i as int);
            }
            return (x + (low << s), i + 1);
        }
        x = x + (low << s);
        i = i + 1;
    }
    proof {
        if let Some(n) = varint_len(b@) {
            assert(b@[n - 1] >= 0x80);
        }
    }
    (0, 0)
}

/// Append the varint encoding of `x`.
pub fn put_uvarint(out: &mut Vec<u8>, x: u64)
    ensures
        final(out)@ == old(out)@ + varint_bytes(x as nat),
{
    let ghost before = out@;
    let mut y: u64 = x;
    proof {
        assert(before + varint_bytes(x as nat) =~= out@ + varint_bytes(y as nat));
    }
    while y >= 0x80
        invariant
            before + varint_bytes(x as nat) == out@ + varint_bytes(y as nat),
        decreases y,
    {
        let ghost o = out@;
        out.push((y % 128 + 128) as u8);
        proof {
            assert(o + varint_bytes(y as nat) =~= out@ + varint_bytes((y / 128) as nat));
        }
        y = y / 128;
    }
    let ghost o = out@;
    out.push(y as u8);
    proof {
        assert(out@ =~= o + varint_bytes(y as nat));
    }
}

/// An encoding ends at its first byte below `0x80`, and its digits spell the number.
proof fn lemma_varint_bytes(x: nat, n: nat, rest: Seq<u8>)
    requires
        x < pow2(7 * n),
        n > 0,
    ensures
        varint_len(varint_bytes(x) + rest) == Some(varint_bytes(x).len()),
        varint_value(varint_bytes(x)) == x,
        1 <= varint_bytes(x).len() <= n,
        varint_bytes(x).len() == n ==> varint_bytes(x)[n - 1] == x / pow2(7 * (n - 1) as nat),
    decreases x,
{
    lemma2_to64();
    let e = varint_bytes(x);
    let b = e + rest;
    lemma_pow2_pos(7 * (n - 1) as nat);
    if x < 128 {
        assert(e.drop_first() =~= Seq::empty());
        assert(varint_value(e.drop_first()) == 0);
        if n == 1 {
            assert(7 * (n - 1) as nat == 0);
            assert(x / 1 == x);
        }
    } else {
        if n == 1 {
            assert(pow2(7 * n) == 128);
        }
        let m = (n - 1) as nat;
        lemma_pow2_adds(7, 7 * m);
        assert(7 + 7 * m == 7 * n);
        assert(x / 128 < pow2(7 * m)) by (nonlinear_arith)
            requires
                x < 128 * pow2(7 * m),
        ;
        lemma_varint_bytes(x / 128, m, rest);
        assert(b.drop_first() =~= varint_bytes(x / 128) + rest);
        assert(e.drop_first() =~= varint_bytes(x / 128));
        if e.len() == n {
            lemma_pow2_adds(7, 7 * (m - 1) as nat);
            assert(7 + 7 * (m - 1) as nat == 7 * m);
            vstd::arithmetic::div_mod::lemma_div_denominator(x as int, 128, pow2(7 * (m - 1) as nat) as int);
            assert(e[n - 1] == varint_bytes(x / 128)[m - 1]);
        }
    }
}

/// Decoding what was encoded gives the number back, and consumes exactly its encoding,
/// whatever follows it.
pub proof fn law_uvarint_roundtrip(x: u64, rest: Seq<u8>)
    ensures
        uvarint_spec(varint_bytes(x as nat) + rest) == (x as nat, varint_bytes(x as nat).len()),
        1 <= varint_bytes(x as nat).len() <= 10,
{
    lemma2_to64_rest();
    lemma_pow2_strictly_increases(64, 70);
    bits::lemma_pow2_64();
    lemma_varint_bytes(x as nat, 10, rest);
    let e = varint_bytes(x as nat);
    let b = e + rest;
    assert(b.take(e.len() as int) =~= e);
    if e.len() == 10 {
        assert(7 * (10 - 1) as nat == 63);
        assert(x as nat / pow2(63) <= 1) by (nonlinear_arith)
            requires
                x < 0x1_0000_0000_0000_0000,
                pow2(63) == 0x8000_0000_0000_0000,
        ;
        assert(b[9] == e[9]);
    }
}

/// Every encoding takes a byte.
pub proof fn lemma_varint_not_empty(x: nat)
    ensures
        varint_bytes(x).len() > 0,
{
}

} // verus!
