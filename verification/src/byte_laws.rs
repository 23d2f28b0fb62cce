//! What byte strings spell, and how they are ordered.

use vstd::arithmetic::power2::*;
use vstd::prelude::*;

use crate::bits;
use crate::bytes;
use crate::varint;

verus! {

/// Big-endian numbers grow at the end, little-endian ones at the start.
pub proof fn law_bytes_spell_numbers(s: Seq<u8>, b: u8)
    ensures
        bytes::be_value(Seq::empty()) == 0,
        bytes::le_value(Seq::empty()) == 0,
        bytes::be_value(s.push(b)) == 256 * bytes::be_value(s) + b,
        bytes::le_value(seq![b] + s) == b + 256 * bytes::le_value(s),
{
    assert(s.push(b).drop_last() =~= s);
    assert((seq![b] + s).drop_first() =~= s);
}

/// A number of up to `n` bytes is written so that it is read back, in `n` bytes.
pub proof fn law_numbers_are_written(v: nat, n: nat)
    requires
        v < pow2(8 * n),
    ensures
        bytes::be_bytes(v, n).len() == n,
        bytes::le_bytes(v, n).len() == n,
        bytes::be_value(bytes::be_bytes(v, n)) == v,
        bytes::le_value(bytes::le_bytes(v, n)) == v,
{
    bytes::lemma_be_roundtrip(v, n);
    bytes::lemma_le_roundtrip(v, n);
}

/// Byte strings are ordered by the first byte that differs; a proper prefix comes first.
pub proof fn law_byte_order(a: Seq<u8>, b: Seq<u8>, i: int)
    requires
        0 <= i <= a.len(),
        i <= b.len(),
        forall|j: int| 0 <= j < i ==> #[trigger] a[j] == b[j],
    ensures
        i == a.len() ==> bytes::lex_lt(a, b) == (i < b.len()),
        i == b.len() ==> !bytes::lex_lt(a, b),
        i < a.len() && i < b.len() && a[i] != b[i] ==> bytes::lex_lt(a, b) == (a[i] < b[i]),
    decreases i,
{
    if i > 0 {
        let (x, y) = (a.drop_first(), b.drop_first());
        assert(a[0] == b[0]);
        assert forall|j: int| 0 <= j < i - 1 implies #[trigger] x[j] == y[j] by {
            assert(a[j + 1] == b[j + 1]);
        }
        law_byte_order(x, y, i - 1);
    }
}

/// Bits are counted from the lowest of a byte, or of a 64-bit word, upwards.
pub proof fn law_bits_are_counted(d: Seq<u8>, w: Seq<u64>, p: int)
    requires
        0 <= p < 8 * d.len(),
        0 <= p < 64 * w.len(),
    ensures
        bits::dbit(d, p) == ((d[p / 8] as int / pow2((p % 8) as nat) as int) % 2 == 1),
        bits::wbit(w, p) == ((w[p / 64] as int / pow2((p % 64) as nat) as int) % 2 == 1),
{
}

/// A variable-length number: a byte below 128 ends it and stands for itself; a byte from
/// 128 on stands for itself without the 128, and what follows counts 128-fold. A tenth byte
/// can only be a 0 or a 1, and there is no eleventh.
pub proof fn law_varints(b: u8, rest: Seq<u8>)
    ensures
        varint::uvarint_spec(Seq::empty()) == (0nat, 0nat),
        b < 128 ==> varint::uvarint_spec(seq![b] + rest) == (b as nat, 1nat),
        b >= 128 ==> {
            let (v, n) = varint::uvarint_spec(rest);
            varint::uvarint_spec(seq![b] + rest) == if n == 0 || n == 10 || (n == 9 && rest[8] > 1) {
                (0nat, 0nat)
            } else {
                ((b - 128 + 128 * v) as nat, n + 1)
            }
        },
{
    let s = seq![b] + rest;
    assert(s.drop_first() =~= rest);
    varint::lemma_varint_len_bound(rest);
    if b < 128 {
        assert(s.take(1) =~= seq![b]);
        assert(s.take(1).drop_first() =~= Seq::empty());
        assert(varint::varint_value(s.take(1).drop_first()) == 0);
    } else if let Some(n) = varint::varint_len(rest) {
        let t = s.take(n as int + 1);
        assert(t.drop_first() =~= rest.take(n as int));
        assert(t[0] == b);
    }
}

/// A number is written in as few bytes as can be: one below 128 in one, and each byte more
/// takes seven bits.
pub proof fn law_varints_are_written(x: nat)
    ensures
        x < 128 ==> varint::varint_bytes(x) == seq![x as u8],
        x >= 128 ==> varint::varint_bytes(x) == seq![(128 + x % 128) as u8] + varint::varint_bytes(x / 128),
        x >= 128 ==> varint::varint_bytes(x).len() == varint::varint_bytes(x / 128).len() + 1,
{
}

} // verus!
