//! Decoding tables for the prefix codes of a seg dictionary.
//!
//! A table resolves up to nine bits of a code at once: it is indexed directly by the next
//! bits of the stream, and every index that starts with the code of a symbol holds that
//! symbol. A code longer than nine bits continues in a nested table.

use vstd::arithmetic::div_mod::*;
use vstd::arithmetic::power2::*;
use vstd::bits::*;
use vstd::prelude::*;

use crate::bits;
use crate::code;
use crate::code::Tree;

verus! {

/// Bits that one table resolves at most.
pub const STEP: u32 = 9;

/// What a table holds at one index.
pub enum Entry {
    /// No code starts with these bits.
    Missing,
    /// The first `len` bits are the code of `symbol`.
    Leaf { len: u32, symbol: usize },
    /// All nine bits belong to the code, which goes on in this table.
    Inner(Box<Table>),
}

/// A table indexed by the next `bit_len` bits of the stream.
pub struct Table {
    entries: Vec<Entry>,
    bit_len: u32,
}

/// Where following at most `n - k` bits of `c`, from bit `k` on, down `t` ends.
pub enum Stop {
    Hole,
    Symbol(nat, int),
    Deeper(Tree),
}

pub open spec fn descend(t: Tree, c: int, k: int, n: int) -> Stop
    decreases t,
{
    match t {
        Tree::Empty => Stop::Hole,
        Tree::Leaf(s) => Stop::Symbol(s, k),
        Tree::Node(l, r) => if k >= n {
            Stop::Deeper(t)
        } else {
            descend(if bits::nbit(c, k) { *r } else { *l }, c, k + 1, n)
        },
    }
}

impl Table {
    pub closed spec fn shape(&self) -> bool {
        &&& self.bit_len <= 9
        &&& self.entries@.len() == pow2(self.bit_len as nat)
    }

    /// The table resolves the codes of `t`, with at most `levels` tables nested below it.
    pub closed spec fn resolves(&self, t: Tree, levels: nat) -> bool
        decreases levels,
    {
        &&& self.shape()
        &&& forall|c: int|
            0 <= c < self.entries@.len() ==> match (#[trigger] self.entries@[c], descend(
                t,
                c,
                0,
                self.bit_len as int,
            )) {
                (Entry::Missing, Stop::Hole) => true,
                (Entry::Leaf { len, symbol }, Stop::Symbol(s, k)) => len == k && symbol == s,
                (Entry::Inner(inner), Stop::Deeper(sub)) => {
                    &&& levels > 0
                    &&& self.bit_len == 9
                    &&& inner.resolves(sub, (levels - 1) as nat)
                },
                _ => false,
            }
    }
}

/// What an entry at index `c` must be for a subtree that starts at bit `k`.
closed spec fn entry_ok(e: Entry, t: Tree, c: int, k: int, n: int, levels: nat) -> bool {
    match (e, descend(t, c, k, n)) {
        (Entry::Missing, Stop::Hole) => true,
        (Entry::Leaf { len, symbol }, Stop::Symbol(s, j)) => len == j && symbol == s,
        (Entry::Inner(inner), Stop::Deeper(sub)) => {
            &&& levels > 0
            &&& n == 9
            &&& inner.resolves(sub, (levels - 1) as nat)
        },
        _ => false,
    }
}

/// Fixing bit `k` splits the numbers with given low `k` bits in two.
proof fn lemma_branch(c: int, code: int, k: int)
    requires
        0 <= c,
        0 <= k,
        0 <= code < pow2(k as nat),
    ensures
        (c % (pow2((k + 1) as nat) as int) == code) == (c % (pow2(k as nat) as int) == code && !bits::nbit(c, k)),
        (c % (pow2((k + 1) as nat) as int) == code + pow2(k as nat)) == (c % (pow2(k as nat) as int) == code
            && bits::nbit(c, k)),
{
    bits::lemma_nbit_split(c, k);
    lemma_pow2_pos(k as nat);
    lemma_mod_bound(c, pow2(k as nat) as int);
    let m = pow2(k as nat) as int;
    let d = bits::digit(bits::nbit(c, k));
    assert(d * m == if bits::nbit(c, k) { m } else { 0 }) by (nonlinear_arith)
        requires
            d == if bits::nbit(c, k) { 1int } else { 0int },
    ;
}

impl Table {
    fn new(bit_len: u32) -> (t: Table)
        requires
            bit_len <= 9,
        ensures
            t.shape(),
            t.bit_len == bit_len,
            forall|c: int| 0 <= c < t.entries@.len() ==> #[trigger] t.entries@[c] is Missing,
    {
        let n: usize = 1usize << bit_len;
        proof {
            lemma_usize_pow2_no_overflow(bit_len as nat);
            lemma_usize_shl_is_mul(1, bit_len as usize);
        }
        let mut entries: Vec<Entry> = Vec::with_capacity(n);
        let mut i: usize = 0;
        while i < n
            invariant
                i <= n,
                entries@.len() == i,
                forall|c: int| 0 <= c < i ==> #[trigger] entries@[c] is Missing,
            decreases n - i,
        {
            entries.push(Entry::Missing);
            i = i + 1;
        }
        Table { entries, bit_len }
    }

    /// Enter `symbol` at every index that starts with the `bits` bits of `code`.
    fn insert(&mut self, code: usize, bits: u32, symbol: usize)
        requires
            old(self).shape(),
            bits <= old(self).bit_len,
            code < pow2(bits as nat),
        ensures
            final(self).shape(),
            final(self).bit_len == old(self).bit_len,
            forall|c: int|
                0 <= c < final(self).entries@.len() ==> #[trigger] final(self).entries@[c] == if c % (pow2(
                    bits as nat,
                ) as int) == code {
                    (Entry::Leaf { len: bits, symbol })
                } else {
                    old(self).entries@[c]
                },
    {
        let ghost before = self.entries@;
        let ghost m = pow2(bits as nat) as int;
        let n: usize = self.entries.len();
        let step: usize = 1usize << bits;
        proof {
            lemma_usize_pow2_no_overflow(bits as nat);
            lemma_usize_shl_is_mul(1, bits as usize);
            bits::lemma_pow2_64();
            if self.bit_len < 9 {
                lemma_pow2_strictly_increases(self.bit_len as nat, 9);
            }
            if bits < 9 {
                lemma_pow2_strictly_increases(bits as nat, 9);
            }
            lemma_small_mod(code as nat, m as nat);
            assert forall|x: int| 0 <= x < n && x < code implies (#[trigger] before[x] == before[x] && x % m != code) by {
                lemma_small_mod(x as nat, m as nat);
            }
        }
        let mut c: usize = code;
        while c < n
            invariant
                n == self.entries@.len(),
                n == before.len(),
                n <= 512,
                0 < step <= 512,
                step == m,
                c <= 1024,
                c % step == code,
                c >= code,
                code < step,
                m == pow2(bits as nat),
                forall|x: int|
                    0 <= x < n ==> #[trigger] self.entries@[x] == if x < c && x % m == code {
                        (Entry::Leaf { len: bits, symbol })
                    } else {
                        before[x]
                    },
                self.bit_len == old(self).bit_len,
            decreases n + step - c,
        {
            let ghost prev = self.entries@;
            self.entries[c] = Entry::Leaf { len: bits, symbol };
            proof {
                assert forall|x: int| 0 <= x < n implies #[trigger] self.entries@[x] == if x < c + step && x % m
                    == code {
                    (Entry::Leaf { len: bits, symbol })
                } else {
                    before[x]
                } by {
                    assert(self.entries@[x] == if x == c { Entry::Leaf { len: bits, symbol } } else { prev[x] });
                    if c < x < c + step {
                        lemma_mod_gap(c as int, x, m);
                    }
                }
                lemma_mod_add_multiples_vanish(c as int, m);
            }
            c = c + step;
        }
    }
}

impl Table {
    /// Enter the codes of the leaves that start at index `i` of `depths`, below the node
    /// that the `bits` bits of `code` lead to in this table. Returns the index of the
    /// first leaf that was not entered.
    fn build(
        &mut self,
        depths: &Vec<u64>,
        i: usize,
        code: usize,
        bits: u32,
        depth: u64,
        room: u64,
        Ghost(levels): Ghost<nat>,
    ) -> (next: usize)
        requires
            old(self).shape(),
            i <= depths@.len(),
            bits <= old(self).bit_len,
            code < pow2(bits as nat),
            bits + room <= 9 * (levels + 1),
            old(self).bit_len == 9 || bits + room <= old(self).bit_len,
            depth + room <= 1000,
            forall|c: int|
                0 <= c < old(self).entries@.len() && c % (pow2(bits as nat) as int) == code ==> #[trigger] old(
                    self,
                ).entries@[c] is Missing,
        ensures
            final(self).shape(),
            final(self).bit_len == old(self).bit_len,
            next == code::tree_from(depths@, i as nat, depth as nat, room as nat).1,
            next <= depths@.len(),
            forall|c: int|
                0 <= c < final(self).entries@.len() && c % (pow2(bits as nat) as int) != code
                    ==> #[trigger] final(self).entries@[c] == old(self).entries@[c],
            forall|c: int|
                0 <= c < final(self).entries@.len() && c % (pow2(bits as nat) as int) == code ==> entry_ok(
                    #[trigger] final(self).entries@[c],
                    code::tree_from(depths@, i as nat, depth as nat, room as nat).0,
                    c,
                    bits as int,
                    old(self).bit_len as int,
                    levels,
                ),
        decreases room, bits,
    {
        let ghost tree = code::tree_from(depths@, i as nat, depth as nat, room as nat).0;
        let ghost n = self.bit_len as int;
        let ghost m = pow2(bits as nat) as int;
        proof {
            code::lemma_tree_from(depths@, i as nat, depth as nat, room as nat);
        }
        if i >= depths.len() {
            return i;
        }
        if depths[i] == depth {
            self.insert(code, bits, i);
            return i + 1;
        }
        if room == 0 {
            return i;
        }
        if bits == STEP {
            let bit_len: u32 = if room > 9 { 9 } else { room as u32 };
            let mut nested = Table::new(bit_len);
            proof {
                bits::lemma_pow2_64();
                lemma2_to64();
                assert(pow2(0) == 1);
            }
            let next = nested.build(depths, i, 0, 0, depth, room, Ghost((levels - 1) as nat));
            proof {
                assert forall|c: int| 0 <= c < nested.entries@.len() implies entry_ok(
                    #[trigger] nested.entries@[c],
                    tree,
                    c,
                    0,
                    bit_len as int,
                    (levels - 1) as nat,
                ) by {
                    assert(c % (pow2(0) as int) == 0);
                }
                assert(nested.resolves(tree, (levels - 1) as nat));
                lemma_small_mod(code as nat, 512);
                assert forall|c: int| 0 <= c < self.entries@.len() implies (#[trigger] (c % (pow2(bits as nat) as int))
                    == code) == (c == code) by {
                    lemma_small_mod(c as nat, 512);
                }
            }
            self.entries[code] = Entry::Inner(Box::new(nested));
            return next;
        }
        let ghost before = self.entries@;
        proof {
            lemma_pow2_unfold((bits + 1) as nat);
            bits::lemma_pow2_64();
            lemma_pow2_strictly_increases(bits as nat, 9);
            lemma_usize_pow2_no_overflow(bits as nat);
            lemma_usize_shl_is_mul(1, bits as usize);
            assert forall|c: int| 0 <= c < before.len() && c % (pow2((bits + 1) as nat) as int)
                == code implies #[trigger] before[c] is Missing by {
                lemma_branch(c, code as int, bits as int);
            }
        }
        let j = self.build(depths, i, code, bits + 1, depth + 1, room - 1, Ghost(levels));
        let ghost mid = self.entries@;
        proof {
            assert forall|c: int| 0 <= c < mid.len() && c % (pow2((bits + 1) as nat) as int) == code + m implies
                #[trigger] mid[c] is Missing by {
                lemma_branch(c, code as int, bits as int);
                assert(mid[c] == before[c]);
                assert(before[c] is Missing);
            }
        }
        let next = self.build(depths, j, code + (1usize << bits), bits + 1, depth + 1, room - 1, Ghost(levels));
        proof {
            assert forall|c: int| 0 <= c < self.entries@.len() && c % m != code implies #[trigger] self.entries@[c]
                == before[c] by {
                lemma_branch(c, code as int, bits as int);
                assert(mid[c] == before[c]);
            }
            assert forall|c: int| 0 <= c < self.entries@.len() && c % m == code implies entry_ok(
                #[trigger] self.entries@[c],
                tree,
                c,
                bits as int,
                n,
                levels,
            ) by {
                lemma_branch(c, code as int, bits as int);
                if !bits::nbit(c, bits as int) {
                    assert(self.entries@[c] == mid[c]);
                }
            }
        }
        next
    }

    /// The table for a code given by the depths of its symbols, none above 50.
    pub fn from_depths(depths: &Vec<u64>, max: u64) -> (t: Table)
        requires
            max == code::max_depth(depths@),
            max <= 50,
        ensures
            t.resolves(code::code_tree(depths@), 5),
    {
        let bit_len: u32 = if max > 9 { 9 } else { max as u32 };
        let mut t = Table::new(bit_len);
        proof {
            lemma2_to64();
        }
        let _next = t.build(depths, 0, 0, 0, 0, max, Ghost(5));
        proof {
            let tree = code::code_tree(depths@);
            assert forall|c: int| 0 <= c < t.entries@.len() implies entry_ok(
                #[trigger] t.entries@[c],
                tree,
                c,
                0,
                bit_len as int,
                5,
            ) by {
                assert(c % (pow2(0) as int) == 0);
            }
        }
        t
    }
}

/// Following the bits of the stream agrees with following the bits of the index they form.
proof fn lemma_walk_descend(t: Tree, data: Seq<u8>, p: int, c: int, k: int, n: int)
    requires
        0 <= k <= n <= 9,
        0 <= p,
        k > 0 || p / 8 < data.len(),
        forall|j: int| 0 <= j < n ==> #[trigger] bits::nbit(c, j) == bits::dbit(data, p + j),
    ensures
        match descend(t, c, k, n) {
            Stop::Hole => code::walk(t, data, p + k, k % 9) is None,
            Stop::Symbol(s, j) => k <= j <= n && code::walk(t, data, p + k, k % 9) == Some((s, p + j)),
            Stop::Deeper(sub) => sub is Node && code::walk(t, data, p + k, k % 9) == code::walk(
                sub,
                data,
                p + n,
                n % 9,
            ),
        },
    decreases t,
{
    match t {
        Tree::Node(l, r) => {
            if k < n {
                assert(bits::nbit(c, k) == bits::dbit(data, p + k));
                lemma_walk_descend(if bits::nbit(c, k) { *r } else { *l }, data, p, c, k + 1, n);
            }
        },
        _ => {},
    }
}

/// The next `n` bits of the stream as a number.
fn peek(data: &[u8], p: u128, n: u32) -> (c: usize)
    requires
        p / 8 < data@.len(),
        n <= 9,
    ensures
        c < pow2(n as nat),
        forall|j: int| 0 <= j < n ==> #[trigger] bits::nbit(c as int, j) == bits::dbit(data@, p + j),
{
    let byte: usize = (p / 8) as usize;
    let bit: u16 = (p % 8) as u16;
    let b0: u16 = data[byte] as u16;
    let b1: u16 = if byte < data.len() - 1 { data[byte + 1] as u16 } else { 0 };
    let v: u16 = b0 + b1 * 256;
    let w: u16 = v >> bit;
    let m: u16 = 1u16 << (n as u16);
    proof {
        lemma_u16_shr_is_div(v, bit);
        lemma_u16_pow2_no_overflow(n as nat);
        lemma_u16_shl_is_mul(1, n as u16);
        lemma_mod_bound(w as int, m as int);
        bits::lemma_pow2_64();
        assert forall|j: int| 0 <= j < n implies #[trigger] bits::nbit((w % m) as int, j) == bits::dbit(
            data@,
            p + j,
        ) by {
            bits::lemma_nbit_mod(w as int, n as int, j);
            bits::lemma_nbit_div(v as int, bit as int, j);
            bits::lemma_nbit_append(b0 as int, b1 as int, 8, bit + j);
            if bit + j < 8 {
                assert((p + j) / 8 == byte && (p + j) % 8 == bit + j);
            } else {
                assert((p + j) / 8 == byte + 1 && (p + j) % 8 == bit + j - 8);
                if byte + 1 >= data@.len() {
                    bits::lemma_nbit_zero(bit + j - 8);
                }
            }
        }
    }
    (w % m) as usize
}

impl Table {
    /// Read the symbol whose code starts at bit `p`: the symbol and the position after
    /// its code, or `None` if the bits are no code or start past the data.
    fn lookup(&self, data: &[u8], p: u128, Ghost(t): Ghost<Tree>, Ghost(levels): Ghost<nat>) -> (r: Option<
        (usize, u128),
    >)
        requires
            self.resolves(t, levels),
            t is Node,
            p <= 8 * data@.len() + 1000,
        ensures
            r is Some == code::walk(t, data@, p as int, 0) is Some,
            r matches Some((s, q)) ==> code::walk(t, data@, p as int, 0) == Some((s as nat, q as int)) && q <= p + 9 * (
            levels + 1),
        decreases levels,
    {
        let len: u128 = data.len() as u128;
        if p / 8 >= len {
            return None;
        }
        let c = peek(data, p, self.bit_len);
        proof {
            lemma_walk_descend(t, data@, p as int, c as int, 0, self.bit_len as int);
        }
        match &self.entries[c] {
            Entry::Missing => None,
            Entry::Leaf { len, symbol } => Some((*symbol, p + *len as u128)),
            Entry::Inner(inner) => {
                let ghost sub = descend(t, c as int, 0, self.bit_len as int)->Deeper_0;
                inner.lookup(data, p + 9, Ghost(sub), Ghost((levels - 1) as nat))
            },
        }
    }
}

/// A code ready for decoding: the depths of its symbols, turned into a table.
pub struct Code {
    table: Table,
    deepest: u64,
    first: u64,
    listed: Ghost<Seq<u64>>,
}

impl Code {
    #[verifier::type_invariant]
    closed spec fn inv(self) -> bool {
        &&& self.listed@.len() > 0
        &&& self.deepest == code::max_depth(self.listed@)
        &&& self.first == self.listed@[0]
        &&& self.table.resolves(code::code_tree(self.listed@), 5)
    }

    /// The depths of the symbols, in dictionary order.
    pub closed spec fn depths(&self) -> Seq<u64> {
        self.listed@
    }

    /// The code of a non-empty list of depths, none above 50, whose largest is `deepest`.
    pub fn new(depths: &Vec<u64>, deepest: u64) -> (c: Code)
        requires
            depths@.len() > 0,
            deepest == code::max_depth(depths@),
            deepest <= 50,
        ensures
            c.depths() == depths@,
    {
        let table = Table::from_depths(depths, deepest);
        Code { table, deepest, first: depths[0], listed: Ghost(depths@) }
    }

    /// Read one symbol at bit `p`: its index and the position after its code.
    pub fn read(&self, data: &[u8], p: u128) -> (r: Option<(usize, u128)>)
        requires
            p <= 8 * (u64::MAX as u128 + 1000),
        ensures
            r is Some == code::read_symbol(self.depths(), data@, p as int) is Some,
            r matches Some((s, q)) ==> {
                &&& code::read_symbol(self.depths(), data@, p as int) == Some((s as nat, q as int))
                &&& s < self.depths().len()
                &&& q <= p + 54
                &&& q > p ==> p / 8 < data@.len()
            },
    {
        proof {
            use_type_invariant(self);
            code::lemma_read_symbol(self.depths(), data@, p as int);
        }
        if self.deepest == 0 {
            return Some((0, p));
        }
        let len: u128 = data.len() as u128;
        if self.first == 0 || p / 8 >= len {
            return None;
        }
        self.table.lookup(data, p, Ghost(code::code_tree(self.depths())), Ghost(5))
    }
}

/// Two numbers less than `m` apart have different remainders.
proof fn lemma_mod_gap(a: int, b: int, m: int)
    requires
        0 < m,
        0 <= a < b < a + m,
    ensures
        a % m != b % m,
{
    if a % m == b % m {
        lemma_fundamental_div_mod(a, m);
        lemma_fundamental_div_mod(b, m);
        let x = a / m;
        let y = b / m;
        assert(m * y - m * x == b - a);
        assert(false) by (nonlinear_arith)
            requires
                m * y - m * x == b - a,
                0 < b - a < m,
                m > 0,
        ;
    }
}

} // verus!
