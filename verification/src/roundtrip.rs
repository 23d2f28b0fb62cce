//! Reading a seg file gives back the words it was written from.

use vstd::arithmetic::power2::*;
use vstd::prelude::*;

use crate::bits;
use crate::bitwriter;
use crate::bytes;
use crate::code;
use crate::code::Tree;
use crate::coder;
use crate::coder::Codes;
use crate::huffman;
use crate::varint;
use crate::words;
use crate::words::SegModel;

verus! {

// ------------------------------------------------------------------ single symbols

/// Wherever the bits of `b` stand, a position code of `p` is read.
spec fn reads_pos(m: SegModel, b: Seq<bool>, p: u64) -> bool {
    forall|at: int| #[trigger] code::bits_at(m.words, at, b) ==> words::read_pos(m, at) == Some((p, at + b.len()))
}

/// Wherever the bits of `b` stand, a code of the pattern `t` is read.
spec fn reads_pattern(m: SegModel, b: Seq<bool>, t: Seq<u8>) -> bool {
    forall|at: int| #[trigger] code::bits_at(m.words, at, b) ==> words::read_pattern(m, at) == Some((t, at + b.len()))
}

/// The path of a symbol is that of a leaf with the symbol.
pub proof fn lemma_symbol_path(t: Tree, d: nat, s: nat)
    requires
        huffman::has(t, s),
    ensures
        exists|j: int| 0 <= j < code::size(t) && (#[trigger] code::leaves(t, d)[j]).0 == s && code::path_of(t, j)
            == coder::symbol_path(t, s) && forall|i: int| 0 <= i < j ==> (#[trigger] code::leaves(t, d)[i]).0 != s,
    decreases t,
{
    code::lemma_leaves(t, d);
    match t {
        Tree::Node(l, r) => {
            code::lemma_leaves(*l, d + 1);
            code::lemma_leaves(*r, d + 1);
            if huffman::has(*l, s) {
                lemma_symbol_path(*l, d + 1, s);
                let j = choose|j: int|
                    0 <= j < code::size(*l) && (#[trigger] code::leaves(*l, d + 1)[j]).0 == s && code::path_of(*l, j)
                        == coder::symbol_path(*l, s) && forall|i: int| 0 <= i < j ==> (#[trigger] code::leaves(*l, d + 1)[i]).0 != s;
                assert(code::leaves(t, d)[j] == code::leaves(*l, d + 1)[j]);
                assert forall|i: int| 0 <= i < j implies (#[trigger] code::leaves(t, d)[i]).0 != s by {
                    assert(code::leaves(t, d)[i] == code::leaves(*l, d + 1)[i]);
                }
            } else {
                lemma_symbol_path(*r, d + 1, s);
                let j = choose|j: int|
                    0 <= j < code::size(*r) && (#[trigger] code::leaves(*r, d + 1)[j]).0 == s && code::path_of(*r, j)
                        == coder::symbol_path(*r, s) && forall|i: int| 0 <= i < j ==> (#[trigger] code::leaves(*r, d + 1)[i]).0 != s;
                let k = code::size(*l) + j;
                assert(code::leaves(t, d)[k] == code::leaves(*r, d + 1)[j]);
                assert forall|i: int| 0 <= i < k implies (#[trigger] code::leaves(t, d)[i]).0 != s by {
                    if i < code::size(*l) {
                        assert(code::leaves(t, d)[i] == code::leaves(*l, d + 1)[i]);
                        lemma_leaf_has(*l, d + 1, i);
                    } else {
                        assert(code::leaves(t, d)[i] == code::leaves(*r, d + 1)[i - code::size(*l)]);
                    }
                }
            }
        },
        _ => {
            assert(code::leaves(t, d)[0].0 == s);
        },
    }
}

proof fn lemma_leaf_has(t: Tree, d: nat, j: int)
    requires
        0 <= j < code::size(t),
    ensures
        huffman::has(t, code::leaves(t, d)[j].0),
    decreases t,
{
    match t {
        Tree::Node(l, r) => {
            code::lemma_leaves(*l, d + 1);
            code::lemma_leaves(*r, d + 1);
            if j < code::size(*l) {
                lemma_leaf_has(*l, d + 1, j);
            } else {
                lemma_leaf_has(*r, d + 1, j - code::size(*l));
            }
        },
        _ => {},
    }
}

/// Reading the path of symbol `s` gives a leaf with that symbol.
proof fn lemma_read_path(t: Tree, depths: Seq<u64>, s: nat, data: Seq<u8>, p: int)
    requires
        code::lists(t, depths),
        huffman::has(t, s),
        code::bits_at(data, p, coder::symbol_path(t, s)),
    ensures
        code::read_symbol(depths, data, p) matches Some((j, q)) && j < code::size(t) && code::leaves(t, 0)[j as int].0 == s
            && q == p + coder::symbol_path(t, s).len(),
{
    lemma_symbol_path(t, 0, s);
    let j = choose|j: int|
        0 <= j < code::size(t) && (#[trigger] code::leaves(t, 0)[j]).0 == s && code::path_of(t, j)
            == coder::symbol_path(t, s) && forall|i: int| 0 <= i < j ==> (#[trigger] code::leaves(t, 0)[i]).0 != s;
    code::law_read_symbol(t, depths, j, data, p);
}

// ------------------------------------------------------------------ bits in context

/// Bits at a place stay there when bytes are put around them.
proof fn lemma_bits_in(pre: Seq<u8>, mid: Seq<u8>, post: Seq<u8>, p: int, b: Seq<bool>)
    requires
        code::bits_at(mid, p, b),
    ensures
        code::bits_at(pre + mid + post, 8 * pre.len() + p, b),
{
    let d = pre + mid + post;
    assert forall|i: int| 0 <= i < b.len() implies #[trigger] bits::dbit(d, 8 * pre.len() + p + i) == b[i] by {
        assert(bits::dbit(mid, p + i) == b[i]);
        let q = 8 * pre.len() + p + i;
        assert(q / 8 == pre.len() + (p + i) / 8);
        assert(q % 8 == (p + i) % 8);
        assert(d[q / 8] == mid[(p + i) / 8]);
    }
}

/// A packed string starts with the bits that were packed.
proof fn lemma_packed_bits(b: Seq<bool>)
    ensures
        code::bits_at(bitwriter::pack(b), 0, b),
{
    bitwriter::law_pack(b);
    assert forall|i: int| 0 <= i < b.len() implies #[trigger] bits::dbit(bitwriter::pack(b), 0 + i) == b[i] by {
        assert(bits::dbit(bitwriter::pack(b), i) == (i < b.len() && b[i]));
    }
}

/// Where `a + b` stands, `a` stands, and `b` after it.
proof fn lemma_bits_split(data: Seq<u8>, p: int, a: Seq<bool>, b: Seq<bool>)
    requires
        code::bits_at(data, p, a + b),
    ensures
        code::bits_at(data, p, a),
        code::bits_at(data, p + a.len(), b),
{
    assert forall|i: int| 0 <= i < a.len() implies #[trigger] bits::dbit(data, p + i) == a[i] by {
        assert((a + b)[i] == a[i]);
    }
    assert forall|i: int| 0 <= i < b.len() implies #[trigger] bits::dbit(data, p + a.len() + i) == b[i] by {
        assert(bits::dbit(data, p + (a.len() + i)) == (a + b)[a.len() + i]);
    }
}

// ------------------------------------------------------------------ one word

/// The texts of a cover.
spec fn texts(patterns: Seq<Seq<u8>>, c: Seq<(int, nat)>) -> Seq<(int, Seq<u8>)> {
    Seq::new(c.len(), |i: int| (c[i].0, patterns[c[i].1 as int]))
}

/// The model reads every code that a cover needs; position codes take at least a bit.
spec fn speaks(m: SegModel, cs: Codes, c: Seq<(int, nat)>, at: int) -> bool
    decreases c.len(),
{
    if c.len() == 0 {
        true
    } else {
        let d = (c[0].0 - at + 1) as u64;
        &&& reads_pos(m, coder::pos_code(cs, d), d)
        &&& coder::pos_code(cs, d).len() > 0
        &&& reads_pattern(m, coder::pat_code(cs, c[0].1), cs.patterns[c[0].1 as int])
        &&& speaks(m, cs, c.drop_first(), c[0].0)
    }
}

proof fn lemma_read_cover(m: SegModel, cs: Codes, w: Seq<u8>, c: Seq<(int, nat)>, last: int, at: int, p: int)
    requires
        coder::covers(cs.patterns, w, c, last),
        0 <= at <= last,
        w.len() < u64::MAX,
        speaks(m, cs, c, at),
        reads_pos(m, coder::pos_code(cs, 0), 0),
        code::bits_at(m.words, p, coder::cover_bits(cs, c, at) + coder::pos_code(cs, 0)),
    ensures
        words::read_cover(m, p, at) == Some(
            (texts(cs.patterns, c), p + (coder::cover_bits(cs, c, at) + coder::pos_code(cs, 0)).len()),
        ),
    decreases c.len(),
{
    let z = coder::pos_code(cs, 0);
    if c.len() == 0 {
        assert(coder::cover_bits(cs, c, at) + z =~= z);
        assert(texts(cs.patterns, c) =~= Seq::empty());
    } else {
        let (start, k) = c[0];
        let t = cs.patterns[k as int];
        let d = (start - at + 1) as u64;
        let a = coder::pos_code(cs, d);
        let b = coder::pat_code(cs, k);
        let rest = coder::cover_bits(cs, c.drop_first(), start);
        assert(coder::cover_bits(cs, c, at) + z =~= a + (b + (rest + z)));
        lemma_bits_split(m.words, p, a, b + (rest + z));
        lemma_bits_split(m.words, p + a.len(), b, rest + z);
        lemma_read_cover(m, cs, w, c.drop_first(), start + t.len(), start, p + a.len() + b.len());
        assert(texts(cs.patterns, c) =~= seq![(start, t)] + texts(cs.patterns, c.drop_first()));
    }
}

/// `i` lies in a pattern of the cover.
spec fn covered(c: Seq<(int, Seq<u8>)>, i: int) -> bool {
    exists|k: int| 0 <= k < c.len() && (#[trigger] c[k]).0 <= i < c[k].0 + c[k].1.len()
}

/// Every text of the cover is what `w` holds there.
spec fn quotes(w: Seq<u8>, c: Seq<(int, Seq<u8>)>) -> bool {
    forall|k: int, i: int|
        0 <= k < c.len() && (#[trigger] c[k]).0 <= i < c[k].0 + c[k].1.len() && 0 <= i < w.len()
            ==> c[k].1[i - c[k].0] == #[trigger] w[i]
}

proof fn lemma_lay(buf: Seq<u8>, w: Seq<u8>, c: Seq<(int, Seq<u8>)>, i: int)
    requires
        buf.len() == w.len(),
        quotes(w, c),
        0 <= i < w.len(),
        covered(c, i) || buf[i] == w[i],
    ensures
        words::lay(buf, c)[i] == w[i],
    decreases c.len(),
{
    if c.len() > 0 {
        let b = words::put(buf, c[0].0, c[0].1);
        let r = c.drop_first();
        assert(quotes(w, r)) by {
            assert forall|k: int, i: int|
                0 <= k < r.len() && (#[trigger] r[k]).0 <= i < r[k].0 + r[k].1.len() && 0 <= i < w.len() implies r[k].1[i
                - r[k].0] == #[trigger] w[i] by {
                assert(r[k] == c[k + 1]);
            }
        }
        if covered(c, i) {
            let k = choose|k: int| 0 <= k < c.len() && (#[trigger] c[k]).0 <= i < c[k].0 + c[k].1.len();
            if k > 0 {
                assert(r[k - 1] == c[k]);
            } else {
                assert(b[i] == w[i]);
            }
        } else if c[0].0 <= i < c[0].0 + c[0].1.len() {
            assert(covered(c, i));
        }
        assert(covered(r, i) || b[i] == w[i]);
        lemma_lay(b, w, r, i);
    }
}

/// Filling the gaps with the bytes that were left out restores the word.
proof fn lemma_fill(patterns: Seq<Seq<u8>>, buf: Seq<u8>, w: Seq<u8>, c: Seq<(int, nat)>, last: int, data: Seq<u8>, lit: int)
    requires
        buf.len() == w.len(),
        coder::covers(patterns, w, c, last),
        0 <= last <= w.len(),
        0 <= lit,
        forall|i: int| 0 <= i < last ==> #[trigger] buf[i] == w[i],
        forall|i: int| 0 <= i < w.len() && covered(texts(patterns, c), i) ==> #[trigger] buf[i] == w[i],
        lit + coder::literals(patterns, w, c, last).len() <= data.len(),
        data.subrange(lit, lit + coder::literals(patterns, w, c, last).len()) == coder::literals(patterns, w, c, last),
    ensures
        words::fill(buf, texts(patterns, c), last, data, lit) == Some(
            (w, lit + coder::literals(patterns, w, c, last).len()),
        ),
    decreases c.len(),
{
    let tx = texts(patterns, c);
    let ls = coder::literals(patterns, w, c, last);
    if c.len() == 0 {
        if last < w.len() {
            let b = words::put(buf, last, data.subrange(lit, lit + (w.len() - last)));
            assert(b =~= w);
        } else {
            assert(buf =~= w);
        }
    } else {
        let (start, k) = c[0];
        let p = patterns[k as int];
        let rest = c.drop_first();
        let after = coder::literals(patterns, w, rest, start + p.len());
        let gap = start - last;
        assert(tx[0] == (start, p));
        assert(tx.drop_first() =~= texts(patterns, rest));
        let b = if gap > 0 {
            words::put(buf, last, data.subrange(lit, lit + gap))
        } else {
            buf
        };
        let l = if gap > 0 { lit + gap } else { lit };
        if gap > 0 {
            assert(data.subrange(lit, lit + gap) =~= w.subrange(last, start)) by {
                assert forall|i: int| 0 <= i < gap implies data.subrange(lit, lit + gap)[i] == w.subrange(last, start)[i] by {
                    assert(data.subrange(lit, lit + ls.len())[i] == ls[i]);
                }
            }
        }
        assert(ls.len() == (if gap > 0 { gap } else { 0 }) + after.len());
        assert(data.subrange(l, l + after.len()) =~= after) by {
            assert forall|i: int| 0 <= i < after.len() implies data.subrange(l, l + after.len())[i] == after[i] by {
                let j = i + (if gap > 0 { gap } else { 0 });
                assert(data.subrange(lit, lit + ls.len())[j] == ls[j]);
            }
        }
        assert forall|i: int| 0 <= i < start + p.len() implies #[trigger] b[i] == w[i] by {
            if i >= start {
                assert(covered(tx, i)) by {
                    assert(tx[0].0 <= i < tx[0].0 + tx[0].1.len());
                }
                assert(buf[i] == w[i]);
            } else if i < last {
                assert(buf[i] == w[i]);
            }
        }
        assert forall|i: int| 0 <= i < w.len() && covered(texts(patterns, rest), i) implies #[trigger] b[i] == w[i] by {
            let q = texts(patterns, rest);
            let x = choose|x: int| 0 <= x < q.len() && (#[trigger] q[x]).0 <= i < q[x].0 + q[x].1.len();
            assert(tx[x + 1] == q[x]);
            assert(covered(tx, i));
            assert(buf[i] == w[i]);
        }
        lemma_fill(patterns, b, w, rest, start + p.len(), data, l);
    }
}

proof fn lemma_quotes(patterns: Seq<Seq<u8>>, w: Seq<u8>, c: Seq<(int, nat)>, last: int)
    requires
        coder::covers(patterns, w, c, last),
    ensures
        quotes(w, texts(patterns, c)),
    decreases c.len(),
{
    if c.len() > 0 {
        let (start, k0) = c[0];
        let p = patterns[k0 as int];
        let tx = texts(patterns, c);
        lemma_quotes(patterns, w, c.drop_first(), start + p.len());
        assert forall|k: int, i: int|
            0 <= k < tx.len() && (#[trigger] tx[k]).0 <= i < tx[k].0 + tx[k].1.len() && 0 <= i < w.len() implies tx[k].1[i
            - tx[k].0] == #[trigger] w[i] by {
            if k > 0 {
                assert(texts(patterns, c.drop_first())[k - 1] == tx[k]);
            } else {
                assert(w.subrange(start, start + p.len())[i - start] == w[i]);
            }
        }
    }
}

/// Reading a word where it stands gives it back and ends right after it.
proof fn lemma_decode(m: SegModel, cs: Codes, w: Seq<u8>, c: Seq<(int, nat)>, pre: Seq<u8>, post: Seq<u8>)
    requires
        coder::covers(cs.patterns, w, c, 0),
        w.len() == 0 ==> c.len() == 0,
        w.len() <= isize::MAX,
        m.words == pre + coder::word_bytes(cs, w, c) + post,
        m.words.len() <= u64::MAX,
        reads_pos(m, coder::pos_code(cs, (w.len() + 1) as u64), (w.len() + 1) as u64),
        w.len() > 0 ==> reads_pos(m, coder::pos_code(cs, 0), 0),
        speaks(m, cs, c, 0),
    ensures
        words::decode_word(m, pre.len() as int) == Some((w, (pre.len() + coder::word_bytes(cs, w, c).len()) as int)),
{
    let b = coder::word_bits(cs, w, c);
    let packed = bitwriter::pack(b);
    let ls = coder::literals(cs.patterns, w, c, 0);
    let first = coder::pos_code(cs, (w.len() + 1) as u64);
    let off = pre.len() as int;
    lemma_packed_bits(b);
    bitwriter::law_pack(b);
    assert(m.words =~= pre + packed + (ls + post));
    lemma_bits_in(pre, packed, ls + post, 0, b);
    assert(code::bits_at(m.words, 8 * off, b));
    if w.len() == 0 {
        assert(b =~= first);
        assert(ls =~= Seq::empty());
        assert(w =~= Seq::empty());
    } else {
        let z = coder::pos_code(cs, 0);
        let cb = coder::cover_bits(cs, c, 0) + z;
        assert(b =~= first + cb);
        lemma_bits_split(m.words, 8 * off, first, cb);
        lemma_read_cover(m, cs, w, c, 0, 0, 8 * off + first.len());
        let end = 8 * off + b.len();
        assert(words::align(end) == off + packed.len());
        let tx = texts(cs.patterns, c);
        let z0 = words::zeros(w.len());
        let laid = words::lay(z0, tx);
        words::lemma_lay_len(z0, tx);
        lemma_quotes(cs.patterns, w, c, 0);
        assert forall|i: int| 0 <= i < w.len() && covered(tx, i) implies #[trigger] laid[i] == w[i] by {
            lemma_lay(z0, w, tx, i);
        }
        let lit = off + packed.len();
        assert(m.words.subrange(lit, lit + ls.len()) =~= ls);
        lemma_fill(cs.patterns, laid, w, c, 0, m.words, lit);
    }
}

// ------------------------------------------------------------------ dictionaries

/// The depths of a list of leaves.
pub open spec fn depths_of(leaves: Seq<(nat, nat)>) -> Seq<u64> {
    Seq::new(leaves.len(), |j: int| leaves[j].1 as u64)
}

/// The positions of a list of leaves.
pub open spec fn positions_of(leaves: Seq<(nat, nat)>, pairs: Seq<(u64, u64)>) -> Seq<u64> {
    Seq::new(leaves.len(), |j: int| pairs[leaves[j].0 as int].0)
}

/// The texts of a list of leaves.
pub open spec fn texts_of(leaves: Seq<(nat, nat)>, t: Seq<Seq<u8>>) -> Seq<Seq<u8>> {
    Seq::new(leaves.len(), |j: int| t[leaves[j].0 as int])
}

proof fn lemma_parse_positions(leaves: Seq<(nat, nat)>, pairs: Seq<(u64, u64)>, k: int)
    requires
        0 <= k <= leaves.len(),
        forall|j: int| 0 <= j < leaves.len() ==> (#[trigger] leaves[j]).1 <= words::MAX_CODE_DEPTH,
    ensures
        coder::pos_dict(leaves.take(k), pairs).len() <= coder::pos_dict(leaves, pairs).len(),
        coder::pos_dict(leaves, pairs).take(coder::pos_dict(leaves.take(k), pairs).len() as int) == coder::pos_dict(
            leaves.take(k),
            pairs,
        ),
        words::parse_positions(
            coder::pos_dict(leaves, pairs),
            coder::pos_dict(leaves.take(k), pairs).len() as int,
        ) == Some((depths_of(leaves.skip(k)), positions_of(leaves.skip(k), pairs))),
    decreases leaves.len() - k,
{
    let d = coder::pos_dict(leaves, pairs);
    let a = coder::pos_dict(leaves.take(k), pairs);
    if k == leaves.len() {
        assert(leaves.take(k) =~= leaves);
        assert(d.take(d.len() as int) =~= d);
        assert(depths_of(leaves.skip(k)) =~= Seq::empty());
        assert(positions_of(leaves.skip(k), pairs) =~= Seq::empty());
    } else {
        lemma_parse_positions(leaves, pairs, k + 1);
        let b = coder::pos_dict(leaves.take(k + 1), pairs);
        let depth = leaves[k].1 as u64;
        let pos = pairs[leaves[k].0 as int].0;
        let e1 = varint::varint_bytes(depth as nat);
        let e2 = varint::varint_bytes(pos as nat);
        assert(leaves.take(k + 1).drop_last() =~= leaves.take(k));
        assert(leaves.take(k + 1).last() == leaves[k]);
        assert(b == a + e1 + e2);
        let rest = d.skip(b.len() as int);
        assert(d =~= b + rest);
        assert(d.take(a.len() as int) =~= a);
        let dp = a.len() as int;
        assert(d.skip(dp) =~= e1 + (e2 + rest));
        varint::law_uvarint_roundtrip(depth, e2 + rest);
        assert(d.skip(dp + e1.len()) =~= e2 + rest);
        varint::law_uvarint_roundtrip(pos, rest);
        assert(depths_of(leaves.skip(k)) =~= seq![depth] + depths_of(leaves.skip(k + 1)));
        assert(positions_of(leaves.skip(k), pairs) =~= seq![pos] + positions_of(leaves.skip(k + 1), pairs));
    }
}

proof fn lemma_regroup(a: Seq<u8>, b: Seq<u8>, c: Seq<u8>, d: Seq<u8>, e: Seq<u8>)
    ensures
        (a + b + c + d + e).skip(a.len() as int) == b + (c + (d + e)),
        (a + b + c + d + e).take(a.len() as int) == a,
{
    assert((a + b + c + d + e).skip(a.len() as int) =~= b + (c + (d + e)));
    assert((a + b + c + d + e).take(a.len() as int) =~= a);
}

proof fn lemma_pattern_entry(d: Seq<u8>, dp: int, depth: u64, text: Seq<u8>, rest: Seq<u8>, ds: Seq<u64>, ts: Seq<Seq<u8>>)
    requires
        0 <= dp <= d.len(),
        depth <= words::MAX_CODE_DEPTH,
        text.len() <= u64::MAX,
        d.skip(dp) == varint::varint_bytes(depth as nat) + (varint::varint_bytes(text.len()) + (text + rest)),
        words::parse_patterns(d, d.len() - rest.len()) == Some((ds, ts)),
    ensures
        words::parse_patterns(d, dp) == Some((seq![depth] + ds, seq![text] + ts)),
{
    let e1 = varint::varint_bytes(depth as nat);
    let e2 = varint::varint_bytes(text.len());
    varint::law_uvarint_roundtrip(depth, e2 + (text + rest));
    varint::law_uvarint_roundtrip(text.len() as u64, text + rest);
    assert(d.skip(dp).skip(e1.len() as int) =~= e2 + (text + rest));
    assert(d.skip(dp).skip(e1.len() as int) =~= d.skip(dp + e1.len()));
    let s = dp + e1.len() + e2.len();
    assert(d.skip(dp).subrange((e1.len() + e2.len()) as int, (e1.len() + e2.len() + text.len()) as int) =~= text);
    assert(d.subrange(s, s + text.len()) =~= d.skip(dp).subrange((e1.len() + e2.len()) as int, (e1.len() + e2.len() + text.len()) as int));
}

#[verifier::rlimit(60)]
#[verifier::spinoff_prover]
proof fn lemma_parse_patterns(leaves: Seq<(nat, nat)>, t: Seq<Seq<u8>>, k: int)
    requires
        0 <= k <= leaves.len(),
        forall|j: int| 0 <= j < leaves.len() ==> (#[trigger] leaves[j]).1 <= words::MAX_CODE_DEPTH,
        coder::pat_dict(leaves, t).len() <= u64::MAX,
    ensures
        coder::pat_dict(leaves.take(k), t).len() <= coder::pat_dict(leaves, t).len(),
        coder::pat_dict(leaves, t).take(coder::pat_dict(leaves.take(k), t).len() as int) == coder::pat_dict(
            leaves.take(k),
            t,
        ),
        words::parse_patterns(
            coder::pat_dict(leaves, t),
            coder::pat_dict(leaves.take(k), t).len() as int,
        ) == Some((depths_of(leaves.skip(k)), texts_of(leaves.skip(k), t))),
    decreases leaves.len() - k,
{
    let d = coder::pat_dict(leaves, t);
    let a = coder::pat_dict(leaves.take(k), t);
    if k == leaves.len() {
        assert(leaves.take(k) =~= leaves);
        assert(d.take(d.len() as int) =~= d);
        assert(depths_of(leaves.skip(k)) =~= Seq::empty());
        assert(texts_of(leaves.skip(k), t) =~= Seq::empty());
    } else {
        lemma_parse_patterns(leaves, t, k + 1);
        let b = coder::pat_dict(leaves.take(k + 1), t);
        let depth = leaves[k].1 as u64;
        let text = t[leaves[k].0 as int];
        let e1 = varint::varint_bytes(depth as nat);
        let e2 = varint::varint_bytes(text.len());
        assert(leaves.take(k + 1).drop_last() =~= leaves.take(k));
        assert(leaves.take(k + 1).last() == leaves[k]);
        assert(b == a + e1 + e2 + text);
        let rest = d.skip(b.len() as int);
        assert(d =~= b + rest);
        let dp = a.len() as int;
        lemma_regroup(a, e1, e2, text, rest);
        lemma_pattern_entry(d, dp, depth, text, rest, depths_of(leaves.skip(k + 1)), texts_of(leaves.skip(k + 1), t));
        assert(depths_of(leaves.skip(k)) =~= seq![depth] + depths_of(leaves.skip(k + 1)));
        assert(texts_of(leaves.skip(k), t) =~= seq![text] + texts_of(leaves.skip(k + 1), t));
    }
}

// ------------------------------------------------------------------ symbols that have codes

pub open spec fn has_pos(pairs: Seq<(u64, u64)>, p: u64) -> bool {
    exists|i: int| 0 <= i < pairs.len() && (#[trigger] pairs[i]).0 == p
}

pub proof fn lemma_slot(pairs: Seq<(u64, u64)>, p: u64)
    requires
        has_pos(pairs, p),
    ensures
        coder::slot(pairs, p) < pairs.len(),
        pairs[coder::slot(pairs, p) as int].0 == p,
    decreases pairs.len(),
{
    let i = choose|i: int| 0 <= i < pairs.len() && (#[trigger] pairs[i]).0 == p;
    if pairs[0].0 != p {
        assert(pairs.drop_first()[i - 1].0 == p);
        lemma_slot(pairs.drop_first(), p);
        assert(pairs[coder::slot(pairs, p) as int] == pairs.drop_first()[coder::slot(pairs, p) - 1]);
    }
}

pub proof fn lemma_place(used: Seq<nat>, k: nat)
    requires
        used.contains(k),
    ensures
        coder::place(used, k) < used.len(),
        used[coder::place(used, k) as int] == k,
    decreases used.len(),
{
    let i = choose|i: int| 0 <= i < used.len() && used[i] == k;
    if used[0] != k {
        assert(used.drop_first()[i - 1] == k);
        lemma_place(used.drop_first(), k);
        assert(used[coder::place(used, k) as int] == used.drop_first()[coder::place(used, k) - 1]);
    }
}

proof fn lemma_bump_has(pairs: Seq<(u64, u64)>, p: u64, x: u64)
    requires
        x == p || has_pos(pairs, x),
    ensures
        has_pos(coder::bump(pairs, p), x),
    decreases pairs.len(),
{
    let b = coder::bump(pairs, p);
    if pairs.len() == 0 || p <= pairs[0].0 {
        if x == p {
            assert(b[0].0 == x);
        } else {
            let i = choose|i: int| 0 <= i < pairs.len() && (#[trigger] pairs[i]).0 == x;
            if p == pairs[0].0 {
                assert(b[i] == pairs[i]);
            } else {
                assert(b[i + 1] == pairs[i]);
            }
        }
    } else {
        let r = pairs.drop_first();
        let c = coder::bump(r, p);
        assert(b == seq![pairs[0]] + c);
        if x == pairs[0].0 {
            assert(b[0].0 == x);
        } else {
            if x != p {
                let i = choose|i: int| 0 <= i < pairs.len() && (#[trigger] pairs[i]).0 == x;
                assert(r[i - 1].0 == x);
            }
            lemma_bump_has(r, p, x);
            let i = choose|i: int| 0 <= i < c.len() && (#[trigger] c[i]).0 == x;
            assert(b[i + 1] == c[i]);
        }
    }
}

/// Every position that occurs has been counted.
proof fn lemma_tally(ps: Seq<u64>, k: int)
    requires
        0 <= k < ps.len(),
    ensures
        has_pos(coder::tally(ps), ps[k]),
    decreases ps.len(),
{
    if k < ps.len() - 1 {
        lemma_tally(ps.drop_last(), k);
    }
    lemma_bump_has(coder::tally(ps.drop_last()), ps.last(), ps[k]);
}

proof fn lemma_all_positions(ws: Seq<Seq<u8>>, patterns: Seq<Seq<u8>>, n: nat, i: int, k: int)
    requires
        0 <= i < n <= ws.len(),
        0 <= k < coder::word_positions(ws[i], coder::cover(patterns, ws[i])).len(),
    ensures
        exists|x: int|
            0 <= x < coder::all_positions(ws, patterns, n).len() && #[trigger] coder::all_positions(ws, patterns, n)[x]
                == coder::word_positions(ws[i], coder::cover(patterns, ws[i]))[k],
    decreases n,
{
    let p = coder::word_positions(ws[i], coder::cover(patterns, ws[i]))[k];
    let before = coder::all_positions(ws, patterns, (n - 1) as nat);
    if i == n - 1 {
        assert(coder::all_positions(ws, patterns, n)[before.len() + k] == p);
    } else {
        lemma_all_positions(ws, patterns, (n - 1) as nat, i, k);
        let x = choose|x: int| 0 <= x < before.len() && #[trigger] before[x] == p;
        assert(coder::all_positions(ws, patterns, n)[x] == p);
    }
}

proof fn lemma_word_pos(ws: Seq<Seq<u8>>, patterns: Seq<Seq<u8>>, i: int, k: int)
    requires
        0 <= i < ws.len(),
        0 <= k < coder::word_positions(ws[i], coder::cover(patterns, ws[i])).len(),
    ensures
        has_pos(coder::codes_for(ws, patterns).pairs, coder::word_positions(ws[i], coder::cover(patterns, ws[i]))[k]),
{
    let ps = coder::all_positions(ws, patterns, ws.len());
    lemma_all_positions(ws, patterns, ws.len(), i, k);
    let x = choose|x: int|
        0 <= x < ps.len() && #[trigger] ps[x] == coder::word_positions(ws[i], coder::cover(patterns, ws[i]))[k];
    lemma_tally(ps, x);
}

pub proof fn lemma_cover_uses(c: Seq<(int, nat)>, j: int)
    requires
        0 <= j < c.len(),
    ensures
        coder::cover_uses(c, c[j].1) > 0,
    decreases c.len(),
{
    if j < c.len() - 1 {
        lemma_cover_uses(c.drop_last(), j);
    }
}

pub proof fn lemma_pattern_uses(ws: Seq<Seq<u8>>, patterns: Seq<Seq<u8>>, n: nat, i: int, k: nat)
    requires
        0 <= i < n <= ws.len(),
    ensures
        coder::pattern_uses(ws, patterns, n, k) >= coder::cover_uses(coder::cover(patterns, ws[i]), k),
    decreases n,
{
    if i < n - 1 {
        lemma_pattern_uses(ws, patterns, (n - 1) as nat, i, k);
    }
}

pub proof fn lemma_used(ws: Seq<Seq<u8>>, patterns: Seq<Seq<u8>>, n: nat, k: nat)
    requires
        k < n,
        coder::pattern_uses(ws, patterns, ws.len(), k) > 0,
    ensures
        coder::used_patterns(ws, patterns, n).contains(k),
    decreases n,
{
    let s = coder::used_patterns(ws, patterns, (n - 1) as nat);
    let u = coder::used_patterns(ws, patterns, n);
    if k == n - 1 {
        assert(u[s.len() as int] == k);
    } else {
        lemma_used(ws, patterns, (n - 1) as nat, k);
        let i = choose|i: int| 0 <= i < s.len() && s[i] == k;
        assert(u[i] == k);
    }
}

// ------------------------------------------------------------------ reading with the dictionaries

/// The model reads every position and pattern that has a code.
spec fn fluent(m: SegModel, cs: Codes) -> bool {
    &&& forall|p: u64|
        #[trigger] has_pos(cs.pairs, p) ==> reads_pos(m, coder::pos_code(cs, p), p) && coder::pos_code(cs, p).len() > 0
    &&& forall|k: nat|
        #[trigger] cs.used.contains(k) ==> reads_pattern(m, coder::pat_code(cs, k), cs.patterns[k as int])
}

/// The model's dictionaries are those of the codes.
spec fn equipped(m: SegModel, cs: Codes) -> bool {
    let pl = code::leaves(huffman::position_tree(cs.pairs), 0);
    let tl = code::leaves(huffman::pattern_tree(cs.used_uses), 0);
    &&& m.pos_depths == depths_of(pl)
    &&& m.positions == positions_of(pl, cs.pairs)
    &&& m.pattern_depths == depths_of(tl)
    &&& m.patterns == texts_of(tl, coder::used_texts(cs))
}

pub open spec fn shallow(t: Tree) -> bool {
    code::height(t) <= words::MAX_CODE_DEPTH
}

proof fn lemma_lists(t: Tree)
    requires
        code::full(t),
        shallow(t),
    ensures
        code::lists(t, depths_of(code::leaves(t, 0))),
{
    code::lemma_leaves(t, 0);
}

/// A tree with two symbols branches, so that its paths are not empty.
proof fn lemma_path_not_empty(t: Tree, a: nat, b: nat, s: nat)
    requires
        huffman::has(t, a),
        huffman::has(t, b),
        a != b,
    ensures
        coder::symbol_path(t, s).len() > 0,
{
}

proof fn lemma_fluent(m: SegModel, cs: Codes)
    requires
        equipped(m, cs),
        cs.pairs.len() != 1,
        cs.used.len() == cs.used_uses.len(),
        shallow(huffman::position_tree(cs.pairs)),
        shallow(huffman::pattern_tree(cs.used_uses)),
    ensures
        fluent(m, cs),
{
    let pt = huffman::position_tree(cs.pairs);
    let tt = huffman::pattern_tree(cs.used_uses);
    huffman::lemma_dict_tree(huffman::firsts(cs.pairs), huffman::seconds(cs.pairs));
    huffman::lemma_dict_tree(Seq::new(cs.used_uses.len(), |i: int| i as u64), cs.used_uses);
    assert forall|p: u64| #[trigger] has_pos(cs.pairs, p) implies reads_pos(m, coder::pos_code(cs, p), p)
        && coder::pos_code(cs, p).len() > 0 by {
        lemma_slot(cs.pairs, p);
        let s = coder::slot(cs.pairs, p);
        assert(huffman::has(pt, s));
        lemma_lists(pt);
        assert(huffman::has(pt, 0));
        assert(huffman::has(pt, 1));
        lemma_path_not_empty(pt, 0, 1, s);
        let b = coder::pos_code(cs, p);
        assert forall|at: int| #[trigger] code::bits_at(m.words, at, b) implies words::read_pos(m, at) == Some(
            (p, at + b.len()),
        ) by {
            lemma_read_path(pt, m.pos_depths, s, m.words, at);
            code::lemma_leaves(pt, 0);
        }
    }
    assert forall|k: nat| #[trigger] cs.used.contains(k) implies reads_pattern(
        m,
        coder::pat_code(cs, k),
        cs.patterns[k as int],
    ) by {
        lemma_place(cs.used, k);
        let s = coder::place(cs.used, k);
        assert(huffman::has(tt, s));
        lemma_lists(tt);
        let b = coder::pat_code(cs, k);
        assert forall|at: int| #[trigger] code::bits_at(m.words, at, b) implies words::read_pattern(m, at) == Some(
            (cs.patterns[k as int], at + b.len()),
        ) by {
            lemma_read_path(tt, m.pattern_depths, s, m.words, at);
            code::lemma_leaves(tt, 0);
        }
    }
}

proof fn lemma_speaks(m: SegModel, cs: Codes, c: Seq<(int, nat)>, at: int)
    requires
        fluent(m, cs),
        forall|k: int| 0 <= k < c.len() ==> has_pos(cs.pairs, #[trigger] coder::distances(c, at)[k]),
        forall|k: int| 0 <= k < c.len() ==> cs.used.contains((#[trigger] c[k]).1),
    ensures
        speaks(m, cs, c, at),
    decreases c.len(),
{
    if c.len() > 0 {
        let r = c.drop_first();
        lemma_distances_len(c, at);
        lemma_distances_len(r, c[0].0);
        assert(has_pos(cs.pairs, coder::distances(c, at)[0]));
        assert forall|k: int| 0 <= k < r.len() implies has_pos(cs.pairs, #[trigger] coder::distances(r, c[0].0)[k]) by {
            assert(coder::distances(c, at)[k + 1] == coder::distances(r, c[0].0)[k]);
        }
        assert forall|k: int| 0 <= k < r.len() implies cs.used.contains((#[trigger] r[k]).1) by {
            assert(r[k] == c[k + 1]);
        }
        assert(cs.used.contains(c[0].1));
        lemma_speaks(m, cs, r, c[0].0);
    }
}

pub proof fn lemma_distances_len(c: Seq<(int, nat)>, at: int)
    ensures
        coder::distances(c, at).len() == c.len(),
    decreases c.len(),
{
    if c.len() > 0 {
        lemma_distances_len(c.drop_first(), c[0].0);
    }
}

// ------------------------------------------------------------------ the file

/// The file can be read: its counts and sizes fit, and no code is deeper than a reader
/// accepts.
pub open spec fn readable(ws: Seq<Seq<u8>>, patterns: Seq<Seq<u8>>) -> bool {
    let cs = coder::codes_for(ws, patterns);
    &&& ws.len() < 0x100_0000_0000_0000
    &&& forall|i: int| 0 <= i < ws.len() ==> (#[trigger] ws[i]).len() <= isize::MAX
    &&& coder::seg_bytes(ws, patterns).len() <= u64::MAX
    &&& shallow(huffman::position_tree(cs.pairs))
    &&& shallow(huffman::pattern_tree(cs.used_uses))
}

/// What opening the file finds.
pub open spec fn written_model(ws: Seq<Seq<u8>>, patterns: Seq<Seq<u8>>) -> SegModel {
    let cs = coder::codes_for(ws, patterns);
    let pl = code::leaves(huffman::position_tree(cs.pairs), 0);
    let tl = code::leaves(huffman::pattern_tree(cs.used_uses), 0);
    SegModel {
        version: 0,
        page_values_count: 0,
        words_count: ws.len() as u64,
        empty_words_count: coder::empty_words(ws, ws.len()) as u64,
        pattern_depths: depths_of(tl),
        patterns: texts_of(tl, coder::used_texts(cs)),
        pos_depths: depths_of(pl),
        positions: positions_of(pl, cs.pairs),
        words_start: coder::header(ws, coder::pat_dict_of(cs), coder::pos_dict_of(cs)).len() as int,
        words: coder::stream(cs, ws, ws.len()),
    }
}

pub proof fn lemma_empty_words(ws: Seq<Seq<u8>>, n: nat)
    ensures
        coder::empty_words(ws, n) <= n,
    decreases n,
{
    if n > 0 {
        lemma_empty_words(ws, (n - 1) as nat);
    }
}

/// Every leaf of a shallow tree lies at most as deep as a reader accepts.
proof fn lemma_shallow_leaves(t: Tree)
    requires
        shallow(t),
    ensures
        forall|j: int| 0 <= j < code::leaves(t, 0).len() ==> (#[trigger] code::leaves(t, 0)[j]).1 <= words::MAX_CODE_DEPTH,
{
    code::lemma_leaves(t, 0);
}

/// A written file opens if its two dictionaries can be parsed.
proof fn lemma_layout(ws: Seq<Seq<u8>>, patterns: Seq<Seq<u8>>)
    requires
        ws.len() < 0x100_0000_0000_0000,
        coder::seg_bytes(ws, patterns).len() <= u64::MAX,
    ensures
        ({
            let cs = coder::codes_for(ws, patterns);
            words::parse_seg(coder::seg_bytes(ws, patterns), false) == match (
                words::parse_patterns(coder::pat_dict_of(cs), 0),
                words::parse_positions(coder::pos_dict_of(cs), 0),
            ) {
                (Some((pattern_depths, texts)), Some((pos_depths, positions))) => Some(
                    SegModel {
                        version: 0,
                        page_values_count: 0,
                        words_count: ws.len() as u64,
                        empty_words_count: coder::empty_words(ws, ws.len()) as u64,
                        pattern_depths,
                        patterns: texts,
                        pos_depths,
                        positions,
                        words_start: coder::header(ws, coder::pat_dict_of(cs), coder::pos_dict_of(cs)).len() as int,
                        words: coder::stream(cs, ws, ws.len()),
                    },
                ),
                _ => None,
            }
        }),
{
    let cs = coder::codes_for(ws, patterns);
    let f = coder::seg_bytes(ws, patterns);
    let pat = coder::pat_dict_of(cs);
    let pos = coder::pos_dict_of(cs);
    let st = coder::stream(cs, ws, ws.len());
    bits::lemma_pow2_64();
    lemma2_to64_rest();
    lemma_empty_words(ws, ws.len());
    bytes::lemma_be_roundtrip(ws.len(), 8);
    bytes::lemma_be_roundtrip(coder::empty_words(ws, ws.len()), 8);
    bytes::lemma_be_roundtrip(pat.len(), 8);
    bytes::lemma_be_roundtrip(pos.len(), 8);
    assert(f[0] == bytes::byte_of(ws.len(), 7));
    assert(ws.len() / pow2(56) == 0) by {
        vstd::arithmetic::div_mod::lemma_basic_div(ws.len() as int, pow2(56) as int);
    }
    assert(f[0] == 0);
    assert(f.skip(0) =~= f);
    assert(f.subrange(0, 8) =~= bytes::be_bytes(ws.len(), 8));
    assert(f.subrange(8, 16) =~= bytes::be_bytes(coder::empty_words(ws, ws.len()), 8));
    assert(f.subrange(16, 24) =~= bytes::be_bytes(pat.len(), 8));
    let p: int = 24 + pat.len() as int;
    assert(f.subrange(24, p) =~= pat);
    assert(f.subrange(p, p + 8) =~= bytes::be_bytes(pos.len(), 8));
    let start: int = p + 8 + pos.len();
    assert(f.subrange(p + 8, start) =~= pos);
    assert(f.skip(start) =~= st);
}

/// The written file opens, and its counts and dictionaries are those it was written with.
pub proof fn law_written_file_opens(ws: Seq<Seq<u8>>, patterns: Seq<Seq<u8>>)
    requires
        readable(ws, patterns),
    ensures
        words::parse_seg(coder::seg_bytes(ws, patterns), false) == Some(written_model(ws, patterns)),
{
    let cs = coder::codes_for(ws, patterns);
    let pl = code::leaves(huffman::position_tree(cs.pairs), 0);
    let tl = code::leaves(huffman::pattern_tree(cs.used_uses), 0);
    lemma_layout(ws, patterns);
    lemma_shallow_leaves(huffman::position_tree(cs.pairs));
    lemma_shallow_leaves(huffman::pattern_tree(cs.used_uses));
    lemma_parse_positions(pl, cs.pairs, 0);
    lemma_parse_patterns(tl, coder::used_texts(cs), 0);
    assert(pl.take(0) =~= Seq::empty());
    assert(tl.take(0) =~= Seq::empty());
    assert(coder::pos_dict(pl.take(0), cs.pairs).len() == 0);
    assert(coder::pat_dict(tl.take(0), coder::used_texts(cs)).len() == 0);
    assert(pl.skip(0) =~= pl);
    assert(tl.skip(0) =~= tl);
}

// ------------------------------------------------------------------ files that do not open

/// Some leaf lies as deep as the tree is high, and there are more leaves than that.
proof fn lemma_deepest(t: Tree, d: nat) -> (j: int)
    requires
        code::full(t),
    ensures
        0 <= j < code::leaves(t, d).len(),
        code::leaves(t, d)[j].1 == d + code::height(t),
        code::height(t) < code::leaves(t, d).len(),
    decreases t,
{
    match t {
        Tree::Node(l, r) => {
            let a = lemma_deepest(*l, d + 1);
            let b = lemma_deepest(*r, d + 1);
            let ll = code::leaves(*l, d + 1);
            if code::height(*l) > code::height(*r) {
                assert(code::leaves(t, d)[a] == ll[a]);
                a
            } else {
                assert(code::leaves(t, d)[ll.len() + b] == code::leaves(*r, d + 1)[b]);
                ll.len() + b
            }
        },
        _ => 0,
    }
}

/// The first leaf that lies too deep, if one does.
proof fn lemma_first_deep(leaves: Seq<(nat, nat)>, j: int) -> (k: int)
    requires
        0 <= j < leaves.len(),
        leaves[j].1 > words::MAX_CODE_DEPTH,
    ensures
        0 <= k <= j,
        leaves[k].1 > words::MAX_CODE_DEPTH,
        forall|i: int| 0 <= i < k ==> (#[trigger] leaves[i]).1 <= words::MAX_CODE_DEPTH,
    decreases j,
{
    if exists|i: int| 0 <= i < j && (#[trigger] leaves[i]).1 > words::MAX_CODE_DEPTH {
        let i = choose|i: int| 0 <= i < j && (#[trigger] leaves[i]).1 > words::MAX_CODE_DEPTH;
        lemma_first_deep(leaves, i)
    } else {
        j
    }
}

proof fn lemma_pos_dict_prefix(leaves: Seq<(nat, nat)>, pairs: Seq<(u64, u64)>, k: int)
    requires
        0 <= k <= leaves.len(),
    ensures
        coder::pos_dict(leaves.take(k), pairs).len() <= coder::pos_dict(leaves, pairs).len(),
        coder::pos_dict(leaves, pairs).take(coder::pos_dict(leaves.take(k), pairs).len() as int) == coder::pos_dict(
            leaves.take(k),
            pairs,
        ),
        leaves.len() <= coder::pos_dict(leaves, pairs).len(),
    decreases leaves.len(),
{
    let d = coder::pos_dict(leaves, pairs);
    if k == leaves.len() {
        assert(leaves.take(k) =~= leaves);
        assert(d.take(d.len() as int) =~= d);
        if k > 0 {
            lemma_pos_dict_prefix(leaves.drop_last(), pairs, k - 1);
            varint::lemma_varint_not_empty(leaves.last().1);
        }
    } else {
        lemma_pos_dict_prefix(leaves.drop_last(), pairs, k);
        varint::lemma_varint_not_empty(leaves.last().1);
        assert(leaves.drop_last().take(k) =~= leaves.take(k));
        let a = coder::pos_dict(leaves.take(k), pairs);
        let e = coder::pos_dict(leaves.drop_last(), pairs);
        assert(d.take(a.len() as int) =~= e.take(a.len() as int));
    }
}

/// One entry of a position dictionary before one that does not parse, or that lies too
/// deep itself.
proof fn lemma_bad_position_entry(d: Seq<u8>, dp: int, depth: u64, pos: u64, rest: Seq<u8>)
    requires
        0 <= dp <= d.len(),
        d.skip(dp) == varint::varint_bytes(depth as nat) + (varint::varint_bytes(pos as nat) + rest),
        depth > words::MAX_CODE_DEPTH || words::parse_positions(d, d.len() - rest.len()) is None,
    ensures
        words::parse_positions(d, dp) is None,
{
    let e1 = varint::varint_bytes(depth as nat);
    let e2 = varint::varint_bytes(pos as nat);
    varint::law_uvarint_roundtrip(depth, e2 + rest);
    varint::law_uvarint_roundtrip(pos, rest);
    assert(d.skip(dp).skip(e1.len() as int) =~= e2 + rest);
    assert(d.skip(dp).skip(e1.len() as int) =~= d.skip(dp + e1.len()));
}

/// A position dictionary with a code that is too deep does not parse.
proof fn lemma_deep_positions(leaves: Seq<(nat, nat)>, pairs: Seq<(u64, u64)>, k: int, bad: int)
    requires
        0 <= k <= bad < leaves.len(),
        words::MAX_CODE_DEPTH < leaves[bad].1 <= u64::MAX,
        forall|i: int| 0 <= i < bad ==> (#[trigger] leaves[i]).1 <= words::MAX_CODE_DEPTH,
    ensures
        words::parse_positions(
            coder::pos_dict(leaves, pairs),
            coder::pos_dict(leaves.take(k), pairs).len() as int,
        ) is None,
    decreases bad - k,
{
    let d = coder::pos_dict(leaves, pairs);
    let a = coder::pos_dict(leaves.take(k), pairs);
    let b = coder::pos_dict(leaves.take(k + 1), pairs);
    lemma_pos_dict_prefix(leaves, pairs, k + 1);
    let depth = leaves[k].1 as u64;
    let pos = pairs[leaves[k].0 as int].0;
    let e1 = varint::varint_bytes(depth as nat);
    let e2 = varint::varint_bytes(pos as nat);
    assert(leaves.take(k + 1).drop_last() =~= leaves.take(k));
    assert(leaves.take(k + 1).last() == leaves[k]);
    assert(b == a + e1 + e2);
    let rest = d.skip(b.len() as int);
    assert(d =~= b + rest);
    if k < bad {
        lemma_deep_positions(leaves, pairs, k + 1, bad);
    }
    assert(d.skip(a.len() as int) =~= e1 + (e2 + rest));
    lemma_bad_position_entry(d, a.len() as int, depth, pos, rest);
}

proof fn lemma_pat_dict_prefix(leaves: Seq<(nat, nat)>, t: Seq<Seq<u8>>, k: int)
    requires
        0 <= k <= leaves.len(),
    ensures
        coder::pat_dict(leaves.take(k), t).len() <= coder::pat_dict(leaves, t).len(),
        coder::pat_dict(leaves, t).take(coder::pat_dict(leaves.take(k), t).len() as int) == coder::pat_dict(
            leaves.take(k),
            t,
        ),
        leaves.len() <= coder::pat_dict(leaves, t).len(),
    decreases leaves.len(),
{
    let d = coder::pat_dict(leaves, t);
    if k == leaves.len() {
        assert(leaves.take(k) =~= leaves);
        assert(d.take(d.len() as int) =~= d);
        if k > 0 {
            lemma_pat_dict_prefix(leaves.drop_last(), t, k - 1);
            varint::lemma_varint_not_empty(leaves.last().1);
        }
    } else {
        lemma_pat_dict_prefix(leaves.drop_last(), t, k);
        varint::lemma_varint_not_empty(leaves.last().1);
        assert(leaves.drop_last().take(k) =~= leaves.take(k));
        let a = coder::pat_dict(leaves.take(k), t);
        let e = coder::pat_dict(leaves.drop_last(), t);
        assert(d.take(a.len() as int) =~= e.take(a.len() as int));
    }
}

/// One entry of a pattern dictionary before one that does not parse, or that lies too
/// deep itself.
proof fn lemma_bad_pattern_entry(d: Seq<u8>, dp: int, depth: u64, text: Seq<u8>, rest: Seq<u8>)
    requires
        0 <= dp <= d.len(),
        text.len() <= u64::MAX,
        d.skip(dp) == varint::varint_bytes(depth as nat) + (varint::varint_bytes(text.len()) + (text + rest)),
        depth > words::MAX_CODE_DEPTH || words::parse_patterns(d, d.len() - rest.len()) is None,
    ensures
        words::parse_patterns(d, dp) is None,
{
    let e1 = varint::varint_bytes(depth as nat);
    let e2 = varint::varint_bytes(text.len());
    varint::law_uvarint_roundtrip(depth, e2 + (text + rest));
    varint::law_uvarint_roundtrip(text.len() as u64, text + rest);
    assert(d.skip(dp).skip(e1.len() as int) =~= e2 + (text + rest));
    assert(d.skip(dp).skip(e1.len() as int) =~= d.skip(dp + e1.len()));
}

/// A pattern dictionary with a code that is too deep does not parse.
proof fn lemma_deep_patterns(leaves: Seq<(nat, nat)>, t: Seq<Seq<u8>>, k: int, bad: int)
    requires
        0 <= k <= bad < leaves.len(),
        words::MAX_CODE_DEPTH < leaves[bad].1 <= u64::MAX,
        forall|i: int| 0 <= i < bad ==> (#[trigger] leaves[i]).1 <= words::MAX_CODE_DEPTH,
        coder::pat_dict(leaves, t).len() <= u64::MAX,
    ensures
        words::parse_patterns(coder::pat_dict(leaves, t), coder::pat_dict(leaves.take(k), t).len() as int) is None,
    decreases bad - k,
{
    let d = coder::pat_dict(leaves, t);
    let a = coder::pat_dict(leaves.take(k), t);
    let b = coder::pat_dict(leaves.take(k + 1), t);
    lemma_pat_dict_prefix(leaves, t, k + 1);
    let depth = leaves[k].1 as u64;
    let text = t[leaves[k].0 as int];
    let e1 = varint::varint_bytes(depth as nat);
    let e2 = varint::varint_bytes(text.len());
    assert(leaves.take(k + 1).drop_last() =~= leaves.take(k));
    assert(leaves.take(k + 1).last() == leaves[k]);
    assert(b == a + e1 + e2 + text);
    let rest = d.skip(b.len() as int);
    assert(d =~= b + rest);
    if k < bad {
        lemma_deep_patterns(leaves, t, k + 1, bad);
    }
    lemma_regroup(a, e1, e2, text, rest);
    lemma_bad_pattern_entry(d, a.len() as int, depth, text, rest);
}

/// A written file that opens can be read back: the only thing that can stand in the way,
/// apart from sizes that do not fit, is a code that is too deep, and such a file does not
/// open.
pub proof fn law_opened_is_readable(ws: Seq<Seq<u8>>, patterns: Seq<Seq<u8>>)
    requires
        ws.len() < 0x100_0000_0000_0000,
        forall|i: int| 0 <= i < ws.len() ==> (#[trigger] ws[i]).len() <= isize::MAX,
        coder::seg_bytes(ws, patterns).len() <= u64::MAX,
        words::parse_seg(coder::seg_bytes(ws, patterns), false) is Some,
    ensures
        readable(ws, patterns),
{
    let cs = coder::codes_for(ws, patterns);
    let pt = huffman::position_tree(cs.pairs);
    let tt = huffman::pattern_tree(cs.used_uses);
    let pl = code::leaves(pt, 0);
    let tl = code::leaves(tt, 0);
    let texts = coder::used_texts(cs);
    lemma_layout(ws, patterns);
    huffman::lemma_dict_tree(huffman::firsts(cs.pairs), huffman::seconds(cs.pairs));
    huffman::lemma_dict_tree(Seq::new(cs.used_uses.len(), |i: int| i as u64), cs.used_uses);
    if !shallow(pt) {
        let j = lemma_deepest(pt, 0);
        let bad = lemma_first_deep(pl, j);
        lemma_pos_dict_prefix(pl, cs.pairs, 0);
        code::lemma_leaves(pt, 0);
        lemma_deep_positions(pl, cs.pairs, 0, bad);
        assert(pl.take(0) =~= Seq::empty());
        assert(coder::pos_dict(pl.take(0), cs.pairs).len() == 0);
    }
    if !shallow(tt) {
        let j = lemma_deepest(tt, 0);
        let bad = lemma_first_deep(tl, j);
        lemma_pat_dict_prefix(tl, texts, 0);
        code::lemma_leaves(tt, 0);
        lemma_deep_patterns(tl, texts, 0, bad);
        assert(tl.take(0) =~= Seq::empty());
        assert(coder::pat_dict(tl.take(0), texts).len() == 0);
    }
}

pub proof fn lemma_stream_prefix(cs: Codes, ws: Seq<Seq<u8>>, i: nat, n: nat)
    requires
        i < n <= ws.len(),
    ensures
        coder::stream(cs, ws, (i + 1) as nat).len() <= coder::stream(cs, ws, n).len(),
        coder::stream(cs, ws, n) == coder::stream(cs, ws, i) + coder::word_bytes(
            cs,
            ws[i as int],
            coder::cover(cs.patterns, ws[i as int]),
        ) + coder::stream(cs, ws, n).skip(coder::stream(cs, ws, (i + 1) as nat).len() as int),
    decreases n,
{
    let s = coder::stream(cs, ws, n);
    let a = coder::stream(cs, ws, i);
    let b = coder::word_bytes(cs, ws[i as int], coder::cover(cs.patterns, ws[i as int]));
    let c = coder::stream(cs, ws, (i + 1) as nat);
    assert(c =~= a + b);
    if n == i + 1 {
        assert(s =~= a + b + s.skip(c.len() as int));
    } else {
        let t = coder::stream(cs, ws, (n - 1) as nat);
        lemma_stream_prefix(cs, ws, i, (n - 1) as nat);
        let e = coder::word_bytes(cs, ws[n - 1], coder::cover(cs.patterns, ws[n - 1]));
        assert(s == t + e);
        assert(s =~= a + b + (t.skip(c.len() as int) + e));
        assert(s.skip(c.len() as int) =~= t.skip(c.len() as int) + e);
    }
}

/// Every symbol that a word needs has a code.
pub proof fn lemma_word_has_codes(ws: Seq<Seq<u8>>, patterns: Seq<Seq<u8>>, i: int)
    requires
        0 <= i < ws.len(),
    ensures
        forall|k: int|
            0 <= k < coder::word_positions(ws[i], coder::cover(patterns, ws[i])).len() ==> has_pos(
                coder::codes_for(ws, patterns).pairs,
                #[trigger] coder::word_positions(ws[i], coder::cover(patterns, ws[i]))[k],
            ),
        forall|k: int|
            0 <= k < coder::cover(patterns, ws[i]).len() ==> coder::codes_for(ws, patterns).used.contains(
                (#[trigger] coder::cover(patterns, ws[i])[k]).1,
            ),
{
    let cs = coder::codes_for(ws, patterns);
    let c = coder::cover(patterns, ws[i]);
    let wp = coder::word_positions(ws[i], c);
    coder::lemma_cover_from(patterns, ws[i], 0, 0);
    assert forall|k: int| 0 <= k < wp.len() implies has_pos(cs.pairs, #[trigger] wp[k]) by {
        lemma_word_pos(ws, patterns, i, k);
    }
    assert forall|k: int| 0 <= k < c.len() implies cs.used.contains((#[trigger] c[k]).1) by {
        lemma_cover_uses(c, k);
        lemma_pattern_uses(ws, patterns, ws.len(), i, c[k].1);
        lemma_cover_symbols(patterns, ws[i], c, 0, k);
        lemma_used(ws, patterns, patterns.len(), c[k].1);
    }
}

/// Reading word `i` of the written file gives word `i` and ends where word `i + 1` starts.
pub proof fn law_words_roundtrip(ws: Seq<Seq<u8>>, patterns: Seq<Seq<u8>>, i: nat)
    requires
        readable(ws, patterns),
        i < ws.len(),
    ensures
        words::decode_word(written_model(ws, patterns), coder::word_offset(ws, patterns, i)) == Some(
            (ws[i as int], coder::word_offset(ws, patterns, i + 1)),
        ),
        coder::word_offset(ws, patterns, i) < coder::word_offset(ws, patterns, i + 1) <= written_model(
            ws,
            patterns,
        ).words.len(),
{
    let cs = coder::codes_for(ws, patterns);
    let m = written_model(ws, patterns);
    let w = ws[i as int];
    let c = coder::cover(patterns, w);
    let ps = coder::word_positions(w, c);
    lemma_distances_len(c, 0);
    coder::lemma_cover_from(patterns, w, 0, 0);
    lemma_word_has_codes(ws, patterns, i as int);
    assert(has_pos(cs.pairs, ps[0]));
    assert(has_pos(cs.pairs, ps[1]));
    assert(ps[0] == (w.len() + 1) as u64);
    assert(ps[1] == 0);
    if cs.pairs.len() == 1 {
        lemma_slot(cs.pairs, ps[0]);
        lemma_slot(cs.pairs, ps[1]);
    }
    lemma_fluent(m, cs);
    assert forall|k: int| 0 <= k < c.len() implies has_pos(cs.pairs, #[trigger] coder::distances(c, 0)[k]) by {
        assert(has_pos(cs.pairs, ps[k + 2]));
        assert(ps[k + 2] == coder::distances(c, 0)[k]);
    }
    lemma_speaks(m, cs, c, 0);
    lemma_stream_prefix(cs, ws, i, ws.len());
    let pre = coder::stream(cs, ws, i);
    let post = m.words.skip(coder::stream(cs, ws, (i + 1) as nat).len() as int);
    lemma_decode(m, cs, w, c, pre, post);
    assert(coder::stream(cs, ws, i + 1).len() == pre.len() + coder::word_bytes(cs, w, c).len());
    bitwriter::law_pack(coder::word_bits(cs, w, c));
}

proof fn lemma_cover_symbols(patterns: Seq<Seq<u8>>, w: Seq<u8>, c: Seq<(int, nat)>, last: int, k: int)
    requires
        coder::covers(patterns, w, c, last),
        0 <= k < c.len(),
    ensures
        c[k].1 < patterns.len(),
    decreases c.len(),
{
    if k > 0 {
        let p = patterns[c[0].1 as int];
        lemma_cover_symbols(patterns, w, c.drop_first(), c[0].0 + p.len(), k - 1);
    }
}

} // verus!
