//! Bit packing, low bit first: the inverse of the reader's bit reads.
//!
//! The bits of each code go into the current byte, low bit first; a full byte joins the
//! output. [`BitWriter::finish`] pads the partial byte with zero bits, which is how the
//! words of a seg file come to start at byte boundaries.

use vstd::arithmetic::power2::*;
use vstd::prelude::*;

use crate::bits;

verus! {

/// The number whose binary digits, least significant first, are `b`.
pub open spec fn bits_value(b: Seq<bool>) -> nat
    decreases b.len(),
{
    if b.len() == 0 {
        0
    } else {
        (if b[0] { 1nat } else { 0nat }) + 2 * bits_value(b.drop_first())
    }
}

/// The part of `b` that byte `k` of its packing holds.
pub open spec fn octet(b: Seq<bool>, k: int) -> Seq<bool> {
    b.subrange(8 * k, if 8 * k + 8 <= b.len() { 8 * k + 8 } else { b.len() as int })
}

/// `b` packed into bytes, eight bits a byte, the last byte filled up with zeros.
pub open spec fn pack(b: Seq<bool>) -> Seq<u8> {
    Seq::new(((b.len() + 7) / 8) as nat, |k: int| bits_value(octet(b, k)) as u8)
}

pub proof fn lemma_bits_value_bound(b: Seq<bool>)
    ensures
        bits_value(b) < pow2(b.len()),
    decreases b.len(),
{
    lemma2_to64();
    if b.len() > 0 {
        lemma_bits_value_bound(b.drop_first());
        lemma_pow2_unfold(b.len());
    }
}

/// The digits of the number are the bits.
pub proof fn lemma_bits_value(b: Seq<bool>, i: int)
    requires
        0 <= i,
    ensures
        bits::nbit(bits_value(b) as int, i) == (i < b.len() && b[i]),
    decreases b.len(),
{
    lemma2_to64();
    if b.len() == 0 {
        bits::lemma_nbit_zero(i);
    } else {
        let t = b.drop_first();
        let d: int = if b[0] { 1 } else { 0 };
        assert(pow2(1) == 2);
        bits::lemma_nbit_append(d, bits_value(t) as int, 1, i);
        assert(bits_value(b) == d + bits_value(t) * pow2(1));
        if i == 0 {
            if b[0] {
                bits::lemma_nbit_one(0);
            } else {
                bits::lemma_nbit_zero(0);
            }
        } else {
            lemma_bits_value(t, i - 1);
        }
    }
}

/// One more bit is one more digit at the top.
proof fn lemma_bits_value_push(b: Seq<bool>, x: bool)
    ensures
        bits_value(b.push(x)) == bits_value(b) + if x { pow2(b.len()) } else { 0 },
    decreases b.len(),
{
    lemma2_to64();
    let c = b.push(x);
    if b.len() == 0 {
        assert(c.drop_first() =~= Seq::empty());
        assert(bits_value(c.drop_first()) == 0);
    } else {
        lemma_bits_value_push(b.drop_first(), x);
        assert(c.drop_first() =~= b.drop_first().push(x));
        lemma_pow2_unfold(b.len());
    }
}

/// The bits of a packed string are the bits that were packed, then zeros.
pub proof fn law_pack(b: Seq<bool>)
    ensures
        pack(b).len() == (b.len() + 7) / 8,
        forall|p: int| 0 <= p < 8 * pack(b).len() ==> #[trigger] bits::dbit(pack(b), p) == (p < b.len() && b[p]),
{
    bits::lemma_pow2_64();
    assert forall|p: int| 0 <= p < 8 * pack(b).len() implies #[trigger] bits::dbit(pack(b), p) == (p < b.len()
        && b[p]) by {
        let k = p / 8;
        let o = octet(b, k);
        lemma_bits_value_bound(o);
        if o.len() < 8 {
            lemma_pow2_strictly_increases(o.len(), 8);
        }
        lemma_bits_value(o, p % 8);
        assert(pack(b)[k] == bits_value(o));
        if p < b.len() {
            assert(o[p % 8] == b[p]);
        }
    }
}

/// Accumulates code bits into bytes.
pub struct BitWriter {
    out: Vec<u8>,
    output_bits: u32,
    output_byte: u8,
    emitted: Ghost<Seq<bool>>,
}

impl BitWriter {
    pub closed spec fn inv(&self) -> bool {
        let b = self.emitted@;
        &&& self.output_bits < 8
        &&& b.len() == 8 * self.out@.len() + self.output_bits
        &&& self.output_byte == bits_value(b.skip((8 * self.out@.len()) as int))
        &&& forall|k: int| 0 <= k < self.out@.len() ==> #[trigger] self.out@[k] == bits_value(octet(b, k))
    }

    /// The bits emitted so far.
    pub closed spec fn bits(&self) -> Seq<bool> {
        self.emitted@
    }

    pub fn new() -> (w: BitWriter)
        ensures
            w.inv(),
            w.bits() == Seq::<bool>::empty(),
    {
        BitWriter { out: Vec::new(), output_bits: 0, output_byte: 0, emitted: Ghost(Seq::empty()) }
    }

    fn push(&mut self, bit: bool)
        requires
            old(self).inv(),
        ensures
            final(self).inv(),
            final(self).bits() == old(self).bits().push(bit),
    {
        let ghost b = self.emitted@;
        let ghost tail = b.skip((8 * self.out@.len()) as int);
        let k: u32 = self.output_bits;
        let ghost c = b.push(bit);
        proof {
            lemma2_to64();
            lemma_bits_value_push(tail, bit);
            lemma_bits_value_bound(tail);
            bits::lemma_pow2_64();
            assert(tail.push(bit) =~= c.skip((8 * self.out@.len()) as int));
            lemma_pow2_unfold((k + 1) as nat);
            if k < 7 {
                lemma_pow2_strictly_increases((k + 1) as nat, 8);
            }
            vstd::bits::lemma_u8_pow2_no_overflow(k as nat);
            vstd::bits::lemma_u8_shl_is_mul(1, k as u8);
            assert forall|j: int| 0 <= j < self.out@.len() implies octet(c, j) == #[trigger] octet(b, j) by {
                assert(octet(c, j) =~= octet(b, j));
            }
        }
        if bit {
            self.output_byte = self.output_byte + (1u8 << (k as u8));
        }
        self.output_bits = k + 1;
        self.emitted = Ghost(c);
        if self.output_bits == 8 {
            let ghost n = self.out@.len() as int;
            self.out.push(self.output_byte);
            self.output_bits = 0;
            self.output_byte = 0;
            proof {
                assert(octet(c, n) =~= tail.push(bit));
                assert(c.skip(8 * (n + 1)) =~= Seq::empty());
                assert forall|j: int| 0 <= j < self.out@.len() implies #[trigger] self.out@[j] == bits_value(
                    octet(c, j),
                ) by {
                    if j < n {
                        assert(octet(c, j) == octet(b, j));
                    }
                }
            }
        }
    }

    /// Emit the bits of `code`, first bit first.
    pub fn encode(&mut self, code: &Vec<bool>)
        requires
            old(self).inv(),
        ensures
            final(self).inv(),
            final(self).bits() == old(self).bits() + code@,
    {
        let ghost before = self.bits();
        let mut i: usize = 0;
        while i < code.len()
            invariant
                self.inv(),
                i <= code.len(),
                self.bits() =~= before + code@.take(i as int),
            decreases code.len() - i,
        {
            self.push(code[i]);
            i = i + 1;
        }
        proof {
            assert(code@.take(i as int) =~= code@);
        }
    }

    /// The bytes written, a partial byte filled up with zeros.
    pub fn finish(self) -> (out: Vec<u8>)
        requires
            self.inv(),
        ensures
            out@ == pack(self.bits()),
    {
        let mut out = self.out;
        let ghost n = out@.len() as int;
        let ghost b = self.emitted@;
        proof {
            bits::lemma_pow2_64();
            if self.output_bits > 0 {
                assert(octet(b, n) =~= b.skip(8 * n));
            }
        }
        if self.output_bits > 0 {
            out.push(self.output_byte);
        }
        proof {
            assert(out@ =~= pack(b));
        }
        out
    }
}

} // verus!
