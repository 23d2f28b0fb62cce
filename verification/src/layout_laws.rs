//! Where things stand in the files, byte by byte.
//!
//! These laws say how files are read. Together with those that say that what is written is
//! read back, they say how files are written.

use vstd::arithmetic::power2::*;
use vstd::prelude::*;

use crate::bits;
use crate::bloom;
use crate::bloom::{FilterKind, FilterModel};
use crate::btree;
use crate::bytes;
use crate::code;
use crate::ef_builder;
use crate::eliasfano;
use crate::error::FormatError;
use crate::hash_laws::word8;
use crate::seg_laws::{lemma_number8, number8};
use crate::varint;
use crate::words;
use crate::words::SegModel;

verus! {

// ------------------------------------------------------------------ the dictionaries of a `.kv`

/// The dictionary of patterns lists for each the length of its code, its own length, and
/// its bytes. No code is longer than 50 bits.
pub proof fn law_pattern_dictionary(d: Seq<u8>, at: int)
    requires
        0 <= at < d.len(),
    ensures
        ({
            let (depth, a) = varint::uvarint_spec(d.skip(at));
            let (len, b) = varint::uvarint_spec(d.skip(at + a));
            let start = at + a + b;
            words::parse_patterns(d, at) == if a == 0 || b == 0 || depth > 50 || start + len > d.len() {
                None
            } else {
                match words::parse_patterns(d, start + len) {
                    Some((depths, patterns)) => Some(
                        (seq![depth as u64] + depths, seq![d.subrange(start, start + len)] + patterns),
                    ),
                    None => None,
                }
            }
        }),
        words::parse_patterns(d, d.len() as int) == Some((Seq::<u64>::empty(), Seq::<Seq<u8>>::empty())),
{
}

/// The dictionary of positions lists for each the length of its code and the position. No
/// code is longer than 50 bits.
pub proof fn law_position_dictionary(d: Seq<u8>, at: int)
    requires
        0 <= at < d.len(),
    ensures
        ({
            let (depth, a) = varint::uvarint_spec(d.skip(at));
            let (pos, b) = varint::uvarint_spec(d.skip(at + a));
            words::parse_positions(d, at) == if a == 0 || b == 0 || depth > 50 {
                None
            } else {
                match words::parse_positions(d, at + a + b) {
                    Some((depths, positions)) => Some((seq![depth as u64] + depths, seq![pos as u64] + positions)),
                    None => None,
                }
            }
        }),
        words::parse_positions(d, d.len() as int) == Some((Seq::<u64>::empty(), Seq::<u64>::empty())),
{
}

/// A file that opens has the patterns of its dictionary of patterns, which starts at byte
/// 24, and the positions of its dictionary of positions, which ends where the words start.
pub proof fn law_dictionaries_of_a_body(body: Seq<u8>)
    requires
        body.len() > 0,
        body[0] != 1,
        words::parse_seg(body, false) is Some,
    ensures
        words::parse_seg(body, false) matches Some(m) && {
            let pos = 24 + number8(body, 16);
            &&& words::parse_patterns(body.subrange(24, pos), 0) == Some((m.pattern_depths, m.patterns))
            &&& words::parse_positions(body.subrange(pos + 8, m.words_start), 0) == Some((m.pos_depths, m.positions))
        },
{
    assert(body.skip(0) =~= body);
    lemma_number8(body, 16);
    lemma_number8(body, 24 + number8(body, 16));
}

/// A file opens exactly if it has at least 32 bytes, its two dictionaries lie in it, and each
/// can be read to its end.
pub proof fn law_valid_files_open(body: Seq<u8>)
    requires
        body.len() > 0,
        body[0] != 1,
    ensures
        words::parse_seg(body, false) is Some == (body.len() >= 32 && {
            let pos = 24 + number8(body, 16);
            let start = pos + 8 + number8(body, pos);
            &&& pos + 8 <= body.len()
            &&& start <= body.len()
            &&& words::parse_patterns(body.subrange(24, pos), 0) is Some
            &&& words::parse_positions(body.subrange(pos + 8, start), 0) is Some
        }),
{
    assert(body.skip(0) =~= body);
    if body.len() >= 32 {
        lemma_number8(body, 16);
        let pos = 24 + number8(body, 16);
        if pos + 8 <= body.len() {
            lemma_number8(body, pos);
        }
    }
}

// ------------------------------------------------------------------ words

/// A word without patterns: the code of its length plus one, the code of zero, and, from
/// the next byte on, its bytes. The code of one alone is the empty word.
pub proof fn law_plain_words(m: SegModel, off: int, len: int, p: int, q: int)
    requires
        0 <= off,
        words::read_pos(m, 8 * off) == Some(((len + 1) as u64, p)),
        0 <= len < isize::MAX,
        len > 0 ==> words::read_pos(m, p) == Some((0u64, q)),
        len == 0 ==> q == p,
        (q + 7) / 8 + len <= m.words.len() <= u64::MAX,
        0 <= q,
    ensures
        words::decode_word(m, off) == Some(
            (m.words.subrange((q + 7) / 8, (q + 7) / 8 + len), (q + 7) / 8 + len),
        ),
{
    let at = (q + 7) / 8;
    let w = m.words.subrange(at, at + len);
    if len == 0 {
        assert(w =~= Seq::empty());
    } else {
        let z = words::zeros(len as nat);
        assert(words::read_cover(m, p, 0) == Some((Seq::<(int, Seq<u8>)>::empty(), q)));
        let c = Seq::<(int, Seq<u8>)>::empty();
        assert(words::lay(z, c) == z);
        assert(words::put(z, 0, w) =~= w);
        assert(words::fill(z, c, 0, m.words, at) == Some((w, at + len)));
    }
}

/// The patterns of a word: the code of the distance from where the one before starts, plus
/// one, and the code of the pattern, for each; the code of zero ends them.
pub proof fn law_covers_are_read(m: SegModel, p: int, at: int, d: u64, q: int, pattern: Seq<u8>, r: int)
    requires
        0 <= p < 8 * m.words.len(),
        0 <= at,
        words::read_pos(m, p) == Some((d, q)),
        d > 0 ==> words::read_pattern(m, q) == Some((pattern, r)),
        d > 0 ==> r > p && at + d - 1 + pattern.len() <= u64::MAX,
    ensures
        d == 0 ==> words::read_cover(m, p, at) == Some((Seq::<(int, Seq<u8>)>::empty(), q)),
        d > 0 ==> words::read_cover(m, p, at) == match words::read_cover(m, r, at + d - 1) {
            Some((rest, end)) => Some((seq![(at + d - 1, pattern)] + rest, end)),
            None => None,
        },
{
}

/// A word with one pattern: its bytes before the pattern and behind it stand in the file
/// one after the other, from the byte behind the codes on.
pub proof fn law_word_with_a_pattern(m: SegModel, off: int, len: int, p: int, start: int, pattern: Seq<u8>, q: int)
    requires
        0 <= off,
        words::read_pos(m, 8 * off) == Some(((len + 1) as u64, p)),
        0 < len < isize::MAX,
        words::read_cover(m, p, 0) == Some((seq![(start, pattern)], q)),
        0 <= start,
        start + pattern.len() <= len,
        0 <= q,
        (q + 7) / 8 + len - pattern.len() <= m.words.len() <= u64::MAX,
    ensures
        ({
            let at = (q + 7) / 8;
            words::decode_word(m, off) == Some(
                (
                    m.words.subrange(at, at + start) + pattern + m.words.subrange(at + start, at + len - pattern.len()),
                    at + len - pattern.len(),
                ),
            )
        }),
{
    let at = (q + 7) / 8;
    let n = pattern.len() as int;
    let c = seq![(start, pattern)];
    let w = m.words.subrange(at, at + start) + pattern + m.words.subrange(at + start, at + len - n);
    let z = words::zeros(len as nat);
    let laid = words::put(z, start, pattern);
    assert(c.drop_first() =~= Seq::empty());
    assert(words::lay(laid, c.drop_first()) == laid);
    assert(words::lay(z, c) == laid);
    let first = if start > 0 { words::put(laid, 0, m.words.subrange(at, at + start)) } else { laid };
    let last = start + n;
    let e = c.drop_first();
    let lit = at + start;
    if last < len {
        let done = words::put(first, last, m.words.subrange(lit, lit + len - last));
        assert(done =~= w);
        assert(words::fill(first, e, last, m.words, lit) == Some((done, lit + len - last)));
    } else {
        assert(first =~= w);
        assert(words::fill(first, e, last, m.words, lit) == Some((first, lit)));
    }
    assert(words::fill(laid, c, 0, m.words, at) == words::fill(first, e, last, m.words, lit));
}

// ------------------------------------------------------------------ codes

/// The number that a code spells, the first bit the most significant, as if it were filled
/// up with zeros to `h` bits.
pub open spec fn code_value(path: Seq<bool>, h: int) -> nat
    decreases path.len(),
{
    if path.len() == 0 {
        0
    } else {
        (if path[0] { pow2((h - 1) as nat) } else { 0 }) + code_value(path.drop_first(), h - 1)
    }
}

/// How many numbers of `h` bits start with one of the first `n` codes.
pub open spec fn room(depths: Seq<u64>, n: nat, h: int) -> nat
    decreases n,
{
    if n == 0 {
        0
    } else {
        room(depths, (n - 1) as nat, h) + pow2((h - depths[n - 1]) as nat)
    }
}

spec fn space(s: Seq<(nat, nat)>, n: nat, h: int) -> nat
    decreases n,
{
    if n == 0 {
        0
    } else {
        space(s, (n - 1) as nat, h) + pow2((h - s[n - 1].1) as nat)
    }
}

proof fn lemma_space(a: Seq<(nat, nat)>, b: Seq<(nat, nat)>, n: nat, h: int)
    requires
        n <= a.len() + b.len(),
    ensures
        n <= a.len() ==> space(a + b, n, h) == space(a, n, h),
        n >= a.len() ==> space(a + b, n, h) == space(a, a.len(), h) + space(b, (n - a.len()) as nat, h),
    decreases n,
{
    if n > 0 {
        lemma_space(a, b, (n - 1) as nat, h);
    }
}

proof fn lemma_code_value(t: code::Tree, d: nat, h: int, j: int)
    requires
        code::full(t),
        d + code::height(t) <= h,
        0 <= j < code::size(t),
    ensures
        space(code::leaves(t, d), code::size(t), h) == pow2((h - d) as nat),
        code_value(code::path_of(t, j), h - d) == space(code::leaves(t, d), j as nat, h),
    decreases t,
{
    code::lemma_leaves(t, d);
    match t {
        code::Tree::Node(l, r) => {
            code::lemma_leaves(*l, d + 1);
            code::lemma_leaves(*r, d + 1);
            let (a, b) = (code::leaves(*l, d + 1), code::leaves(*r, d + 1));
            let n = code::size(*l) as int;
            lemma_space(a, b, code::size(t), h);
            lemma_space(a, b, j as nat, h);
            lemma_pow2_unfold((h - d) as nat);
            lemma_code_value(*l, d + 1, h, if j < n { j } else { 0 });
            lemma_code_value(*r, d + 1, h, if j < n { 0 } else { j - n });
            let path = code::path_of(t, j);
            if j < n {
                assert(path.drop_first() =~= code::path_of(*l, j));
            } else {
                assert(path.drop_first() =~= code::path_of(*r, j - n));
            }
        },
        _ => {
            reveal_with_fuel(space, 2);
        },
    }
}

proof fn lemma_room(t: code::Tree, depths: Seq<u64>, n: nat, h: int)
    requires
        code::lists(t, depths),
        n <= depths.len(),
    ensures
        room(depths, n, h) == space(code::leaves(t, 0), n, h),
    decreases n,
{
    code::lemma_leaves(t, 0);
    if n > 0 {
        lemma_room(t, depths, (n - 1) as nat, h);
        assert(depths[n - 1] == code::leaves(t, 0)[n - 1].1);
    }
}

/// Codes are given out in the order of the dictionary, counting up from zeros: the code of a
/// symbol is the first of its length that no code before it starts; and they use up all.
pub proof fn law_codes_count_up(t: code::Tree, depths: Seq<u64>, j: int, h: int)
    requires
        code::lists(t, depths),
        0 <= j < depths.len(),
        forall|i: int| 0 <= i < depths.len() ==> #[trigger] depths[i] <= h,
    ensures
        code::path_of(t, j).len() == depths[j],
        code_value(code::path_of(t, j), h) == room(depths, j as nat, h),
        room(depths, depths.len(), h) == pow2(h as nat),
{
    code::lemma_leaves(t, 0);
    code::lemma_deepest(t, 0);
    let k = choose|k: int| 0 <= k < code::size(t) && #[trigger] code::leaves(t, 0)[k].1 == code::height(t);
    assert(depths[k] == code::height(t));
    assert(depths[j] == code::leaves(t, 0)[j].1);
    lemma_code_value(t, 0, h, j);
    lemma_room(t, depths, j as nat, h);
    lemma_room(t, depths, depths.len(), h);
}

// ------------------------------------------------------------------ the `.kvei`

/// A filter file: twelve bytes of magic, then the number of hash functions, which is 3, the
/// number of keys, the number of bits and three keys, eight bytes each, little-endian, and
/// the bits. What is not like this, or too short for its bits, is taken to have every key.
pub proof fn law_filter_layout(d: Seq<u8>, h: u64)
    ensures
        d.len() == 0 <==> bloom::parse_filter(d) is Empty,
        bloom::filter_kind(bloom::parse_filter(d)) == if d.len() == 0 {
            FilterKind::Empty
        } else if bloom::parse_filter(d) is Bloom {
            FilterKind::Bloom
        } else {
            FilterKind::Unsupported
        },
        bloom::parse_filter(d) is Bloom == (d.len() >= 60 && d.subrange(0, 12) == seq![
            0u8,
            0u8,
            0u8,
            0u8,
            0u8,
            0u8,
            0u8,
            0u8,
            118u8,
            48u8,
            50u8,
            10u8,
        ] && word8(d, 12) == 3 && word8(d, 28) >= 2 && 60 + 8 * ((word8(d, 28) + 63) / 64) <= d.len()),
        bloom::parse_filter(d) matches FilterModel::Bloom { keys, m, bits } ==> {
            &&& m == word8(d, 28)
            &&& keys == seq![word8(d, 36), word8(d, 44), word8(d, 52)]
            &&& forall|k: int| 0 <= k && 60 + 8 * k + 8 <= d.len() ==> k < bits.len() && #[trigger] bits[k] == word8(d, 60 + 8 * k)
        },
        !(bloom::parse_filter(d) is Bloom) ==> bloom::filter_contains(bloom::parse_filter(d), h),
{
    if d.len() >= 60 {
        lemma_word_at(d, 12);
        lemma_word_at(d, 28);
        lemma_word_at(d, 36);
        lemma_word_at(d, 44);
        lemma_word_at(d, 52);
        let w = eliasfano::words_from(d, 60);
        assert forall|k: int| 0 <= k && 60 + 8 * k + 8 <= d.len() implies k < w.len() && #[trigger] w[k] == word8(d, 60 + 8 * k) by {
            lemma_word_at(d, 60 + 8 * k);
        }
    }
}

proof fn lemma_word_at(d: Seq<u8>, at: int)
    requires
        0 <= at,
        at + 8 <= d.len(),
    ensures
        bytes::le_value(d.subrange(at, at + 8)) as u64 == word8(d, at),
        bytes::le_value(d.subrange(at, at + 8)) <= u64::MAX,
{
    let s = d.subrange(at, at + 8);
    crate::hash_laws::lemma_word8(s);
    assert(word8(s, 0) == word8(d, at));
    bytes::lemma_le_bound(s);
    bits::lemma_pow2_64();
}

/// What a filter is asked: the hash is rotated by 17 bits and combined with the first key,
/// that again with the second, and that again with the third; each of the three numbers,
/// taken modulo the number of bits, tells a bit, and all three must be set.
pub proof fn law_filter_bits(k0: u64, k1: u64, k2: u64, m: u64, w: Seq<u64>, h: u64)
    requires
        m > 0,
        m <= 64 * w.len(),
    ensures
        ({
            let h0 = ((h << 17u64) | (h >> 47u64)) ^ k0;
            let h1 = ((h0 << 17u64) | (h0 >> 47u64)) ^ k1;
            let h2 = ((h1 << 17u64) | (h1 >> 47u64)) ^ k2;
            let set = |x: u64|
                (w[(x % m) as int / 64] as int / pow2(((x % m) as int % 64) as nat) as int) % 2 == 1;
            bloom::filter_contains(FilterModel::Bloom { keys: seq![k0, k1, k2], m, bits: w }, h) == (set(h0) && set(h1)
                && set(h2))
        }),
{
    let keys = seq![k0, k1, k2];
    reveal_with_fuel(bloom::probe, 4);
    let h0 = ((h << 17u64) | (h >> 47u64)) ^ k0;
    let h1 = ((h0 << 17u64) | (h0 >> 47u64)) ^ k1;
    let h2 = ((h1 << 17u64) | (h1 >> 47u64)) ^ k2;
    assert(bloom::probe(keys, h, 0) == h0);
    assert(bloom::probe(keys, h, 1) == h1);
    assert(bloom::probe(keys, h, 2) == h2);
    let f = FilterModel::Bloom { keys, m, bits: w };
    if bloom::filter_contains(f, h) {
        assert(bits::wbit(w, (bloom::probe(keys, h, 0) % m) as int));
        assert(bits::wbit(w, (bloom::probe(keys, h, 1) % m) as int));
        assert(bits::wbit(w, (bloom::probe(keys, h, 2) % m) as int));
    }
    assert(h0 % m < m && h1 % m < m && h2 % m < m);
}

// ------------------------------------------------------------------ the `.bt`

/// An index in the footer layout ends with the magic `erigon` and two zeros. Sixteen bytes
/// before its end stands the length of the footer, in four bytes; the footer ends there and
/// starts with the number of keys, the fanout and where the section of offsets starts. The
/// index opens if the footer fits, the section stands before it and has as many offsets.
pub proof fn law_footer_layout(d: Seq<u8>)
    requires
        d.len() >= 40,
        d.subrange(d.len() - 8, d.len() as int) == seq![101u8, 114u8, 105u8, 103u8, 111u8, 110u8, 0u8, 0u8],
    ensures
        ({
            let n = d.len() as int;
            let len = d[n - 13] + 0x100 * d[n - 14] + 0x1_0000 * d[n - 15] + 0x100_0000 * d[n - 16];
            let start = n - 16 - len;
            let (keys, m, at) = (number8(d, start), number8(d, start + 8), number8(d, start + 16));
            if !(24 <= len <= n - 16) {
                btree::parse_bt(d) == Err::<btree::BtModel, FormatError>(
                    FormatError::FooterLength { footer_len: len as u64, file: n as u64 },
                )
            } else if at >= start {
                btree::parse_bt(d) == Err::<btree::BtModel, FormatError>(
                    FormatError::FooterOffset { ef_offset: at as u64, body: start as u64 },
                )
            } else {
                match eliasfano::parse_ef(d, at) {
                    Ok(ef) => if ef.n == keys {
                        btree::parse_bt(d) matches Ok(b) && b.ef == Some(ef) && b.m == Some(m as u64) && b.nodes
                            == btree::parse_nodes_spec(d, keys as u64, m as u64, at)
                    } else {
                        btree::parse_bt(d) == Err::<btree::BtModel, FormatError>(
                            FormatError::FooterKeys { found: ef.n as u64, footer: keys as u64 },
                        )
                    },
                    Err(e) => btree::parse_bt(d) == Err::<btree::BtModel, FormatError>(e),
                }
            }
        }),
{
    let n = d.len() as int;
    let w = d.subrange(n - 16, n - 12);
    let len = d[n - 13] + 0x100 * d[n - 14] + 0x1_0000 * d[n - 15] + 0x100_0000 * d[n - 16];
    assert(bytes::be_value(w) == len) by {
        reveal_with_fuel(bytes::be_value, 5);
        let t1 = w.drop_last();
        let t2 = t1.drop_last();
        let t3 = t2.drop_last();
        assert(t3.drop_last().len() == 0);
        assert(w.last() == d[n - 13] && t1.last() == d[n - 14] && t2.last() == d[n - 15] && t3.last() == d[n - 16]);
    }
    let start = n - 16 - len;
    if 24 <= len <= n - 16 {
        lemma_number8(d, start);
        lemma_number8(d, start + 8);
        lemma_number8(d, start + 16);
    }
}

/// The nodes of an index stand from byte 1 on, each behind its length in two bytes, most
/// significant first.
pub proof fn law_nodes_layout(d: Seq<u8>, p: int, count: nat, end: int, total: int)
    requires
        0 <= p,
        0 < count,
        p + 2 <= end <= d.len(),
        0 <= total,
    ensures
        ({
            let len = 0x100 * d[p] + d[p + 1];
            btree::parse_keys(d, p, count, end, total) == if p + 2 + len > end || total + len > 0xffff_ffff {
                None
            } else {
                match btree::parse_keys(d, p + 2 + len, (count - 1) as nat, end, total + len) {
                    Some(rest) => Some(seq![d.subrange(p + 2, p + 2 + len)] + rest),
                    None => None,
                }
            }
        }),
        btree::parse_keys(d, p, 0, end, total) == Some(Seq::<Seq<u8>>::empty()),
{
    let w = d.subrange(p, p + 2);
    reveal_with_fuel(bytes::be_value, 3);
    let t = w.drop_last();
    assert(t.drop_last().len() == 0);
    assert(w.last() == d[p + 1] && t.last() == d[p]);
}

/// How many nodes there are: one for every `m` keys, the last for what is left.
pub proof fn law_nodes_are_counted(d: Seq<u8>, key_count: u64, m: u64, end: int)
    ensures
        btree::parse_nodes_spec(d, key_count, m, end) matches Some(n) ==> {
            &&& m > 0
            &&& n.m == m
            &&& n.key_count == key_count
            &&& n.keys.len() == (key_count + m - 1) / m as int
            &&& btree::parse_keys(d, 1, n.keys.len(), end, 0) == Some(n.keys)
        },
{
    if key_count > 0 && m > 0 && 1 < end <= d.len() {
        lemma_keys_len(d, 1, eliasfano::ceil_div(key_count as nat, m as nat), end, 0);
    }
}

proof fn lemma_keys_len(d: Seq<u8>, p: int, count: nat, end: int, total: int)
    ensures
        btree::parse_keys(d, p, count, end, total) matches Some(keys) ==> keys.len() == count,
    decreases count,
{
    if count > 0 && p + 2 <= d.len() {
        let len = bytes::be_value(d.subrange(p, p + 2)) as int;
        lemma_keys_len(d, p + 2 + len, (count - 1) as nat, end, total + len);
    }
}

/// Without that magic a file starts with the section of offsets; one that starts with a 1
/// is refused, and one without bytes has no keys.
pub proof fn law_legacy_layout(d: Seq<u8>)
    requires
        d.len() < 16 || d.subrange(d.len() - 8, d.len() as int) != seq![101u8, 114u8, 105u8, 103u8, 111u8, 110u8, 0u8, 0u8],
    ensures
        d.len() == 0 ==> (btree::parse_bt(d) matches Ok(b) && b.ef is None && b.m is None && b.nodes is None),
        d.len() > 0 && d[0] == 1 ==> btree::parse_bt(d) == Err::<btree::BtModel, FormatError>(FormatError::FooterMissing),
        d.len() > 0 && d[0] != 1 ==> match eliasfano::parse_ef(d, 0) {
            Ok(ef) => btree::parse_bt(d) matches Ok(b) && b.ef == Some(ef) && b.m is None && b.nodes is None,
            Err(e) => btree::parse_bt(d) == Err::<btree::BtModel, FormatError>(e),
        },
{
}

// ------------------------------------------------------------------ the section of offsets

/// The section of offsets starts with the number of offsets less one and the universe,
/// eight bytes each, most significant first; little-endian words of eight bytes follow, at
/// least as many as the low and the upper parts take.
pub proof fn law_section_layout(d: Seq<u8>, at: int)
    requires
        0 <= at,
    ensures
        at + 16 > d.len() ==> eliasfano::parse_ef(d, at) == Err::<eliasfano::EfModel, FormatError>(
            FormatError::EliasFanoHeader,
        ),
        at + 16 <= d.len() ==> {
            let (n, u) = ((number8(d, at) + 1) as nat, number8(d, at + 8) as nat);
            if n <= 0xffff_ffff_ffff_ffff && at + 16 + 8 * (eliasfano::lower_words(n, u) + eliasfano::upper_words(n, u))
                <= d.len() {
                eliasfano::parse_ef(d, at) is Ok
            } else {
                eliasfano::parse_ef(d, at) == Err::<eliasfano::EfModel, FormatError>(FormatError::EliasFanoData)
            }
        },
        eliasfano::parse_ef(d, at) matches Ok(ef) ==> {
            &&& at + 16 <= d.len()
            &&& ef.n == number8(d, at) + 1
            &&& ef.u == number8(d, at + 8)
            &&& ef.words.len() == (d.len() - at - 16) / 8
            &&& forall|k: int| 0 <= k < ef.words.len() ==> #[trigger] ef.words[k] == word8(d, at + 16 + 8 * k)
        },
{
    if at + 16 <= d.len() {
        lemma_number8(d, at);
        lemma_number8(d, at + 8);
        let w = eliasfano::words_from(d, at + 16);
        assert forall|k: int| 0 <= k < w.len() implies #[trigger] w[k] == word8(d, at + 16 + 8 * k) by {
            lemma_word_at(d, at + 16 + 8 * k);
        }
    }
}

/// How a section is divided. The low part of an offset has as many bits as the universe has
/// room for on average: the greatest `l` with `n * 2^l <= u`, or none. The low parts take
/// 64 bits a word, and one word more; the upper parts take one bit for each offset and one
/// for each step of `2^l`; the jump table has for every 16384 offsets a position and 64
/// distances of 32 bits.
pub proof fn law_section_division(n: nat, u: nat)
    requires
        n > 0,
    ensures
        ({
            let l = eliasfano::low_width(n, u);
            &&& u >= n ==> n * pow2(l) <= u < n * pow2(l + 1)
            &&& u < n ==> l == 0
            &&& eliasfano::lower_words(n, u) == (n * l + 63) / 64 + 1
            &&& eliasfano::upper_words(n, u) == (n + u / pow2(l) + 63) / 64
            &&& n % 16384 == 0 ==> ef_builder::jump_words(n) == 33 * (n / 16384)
            &&& n % 16384 > 0 ==> ef_builder::jump_words(n) == 33 * (n / 16384) + 1 + ((n % 16384 + 255) / 256 + 3) / 2
        }),
{
    let l = eliasfano::low_width(n, u);
    let q = u / n;
    eliasfano::lemma_floor_log2(q);
    lemma_pow2_unfold(l + 1);
    if u >= n {
        assert(q >= 1 && q * n <= u < (q + 1) * n) by (nonlinear_arith)
            requires
                q == u / n,
                u >= n,
                n > 0,
        ;
        let p = pow2(l);
        assert(n * p <= q * n) by (nonlinear_arith)
            requires
                p <= q,
        ;
        assert((q + 1) * n <= n * (2 * p)) by (nonlinear_arith)
            requires
                q + 1 <= 2 * p,
        ;
    } else {
        assert(q == 0) by (nonlinear_arith)
            requires
                q == u / n,
                u < n,
        ;
    }
}

/// Where the search for the one of offset `i` starts: at the position of the first one of
/// its 16384, plus the distance of the last 256th one before it, of which two are in a word,
/// the earlier one in its lower half.
pub proof fn law_jump_table(m: eliasfano::EfModel, i: int)
    requires
        0 <= i < m.n,
    ensures
        ({
            let block = eliasfano::lower_words(m.n, m.u) + eliasfano::upper_words(m.n, m.u) + 33 * (i / 16384);
            let k = (i % 16384) / 256;
            let at = block + 1 + k / 2;
            eliasfano::jump_start(m, i) == if at >= m.words.len() {
                None
            } else {
                Some(
                    m.words[block] + if k % 2 == 0 {
                        m.words[at] as int % 0x1_0000_0000
                    } else {
                        m.words[at] as int / 0x1_0000_0000
                    },
                )
            }
        }),
{
}

/// Set bits of `x` below bit `b`.
pub open spec fn ones_below(x: u64, b: nat) -> nat
    decreases b,
{
    if b == 0 {
        0
    } else {
        ones_below(x, (b - 1) as nat) + if (x as nat / pow2((b - 1) as nat)) % 2 == 1 { 1nat } else { 0nat }
    }
}

proof fn lemma_nth_bit(x: u64, b: int, k: int)
    requires
        0 <= b <= 64,
        0 <= k < eliasfano::ones(x, b),
    ensures
        ({
            let p = eliasfano::nth_bit(x, b, k);
            &&& b <= p < 64
            &&& (x as nat / pow2(p as nat)) % 2 == 1
            &&& ones_below(x, p as nat) == ones_below(x, b as nat) + k
        }),
    decreases 64 - b,
{
    if b < 64 {
        let set = bits::nbit(x as int, b);
        assert(set == ((x as nat / pow2(b as nat)) % 2 == 1));
        if !(set && k == 0) {
            lemma_nth_bit(x, b + 1, if set { k - 1 } else { k });
        }
    }
}

/// Selecting set bit `k` of a number gives a set bit with exactly `k` set bits below it.
pub proof fn law_select(x: u64, k: int)
    requires
        0 <= k < eliasfano::ones(x, 0),
    ensures
        ({
            let p = eliasfano::nth_bit(x, 0, k);
            &&& 0 <= p < 64
            &&& (x as nat / pow2(p as nat)) % 2 == 1
            &&& ones_below(x, p as nat) == k
        }),
{
    lemma_nth_bit(x, 0, k);
}

/// Set bits are counted.
pub proof fn law_ones_are_counted(x: u64)
    ensures
        eliasfano::ones(x, 0) == ones_below(x, 64),
{
    lemma_ones(x, 0);
}

proof fn lemma_ones(x: u64, b: nat)
    requires
        b <= 64,
    ensures
        ones_below(x, b) + eliasfano::ones(x, b as int) == ones_below(x, 64),
    decreases 64 - b,
{
    if b < 64 {
        lemma_ones(x, b + 1);
        assert(bits::nbit(x as int, b as int) == ((x as nat / pow2(b)) % 2 == 1));
    }
}

/// The memory that nodes take: all their bytes, and four more for each unless all of them are
/// equally long.
pub proof fn law_node_memory(keys: Seq<Seq<u8>>, key: Seq<u8>)
    ensures
        btree::footprint(Seq::empty()) == 0,
        btree::total_len(keys.push(key), keys.len() + 1) == btree::total_len(keys, keys.len()) + key.len(),
        (forall|i: int, j: int| 0 <= i < keys.len() && 0 <= j < keys.len() ==> (#[trigger] keys[i]).len() == (
        #[trigger] keys[j]).len()) ==> btree::footprint(keys) == btree::total_len(keys, keys.len()),
        (exists|i: int, j: int| 0 <= i < keys.len() && 0 <= j < keys.len() && (#[trigger] keys[i]).len() != (
        #[trigger] keys[j]).len()) ==> btree::footprint(keys) == btree::total_len(keys, keys.len()) + 4 * keys.len(),
{
    lemma_total_same(keys, keys.push(key), keys.len());
    if keys.len() > 0 && (forall|i: int, j: int|
        0 <= i < keys.len() && 0 <= j < keys.len() ==> (#[trigger] keys[i]).len() == (#[trigger] keys[j]).len()) {
        assert(btree::uniform(keys)) by {
            assert forall|j: int| 0 <= j < keys.len() implies (#[trigger] keys[j]).len() == keys[0].len() by {}
        }
    }
}

proof fn lemma_total_same(a: Seq<Seq<u8>>, b: Seq<Seq<u8>>, n: nat)
    requires
        forall|i: int| 0 <= i < n ==> #[trigger] a[i] == b[i],
    ensures
        btree::total_len(a, n) == btree::total_len(b, n),
    decreases n,
{
    if n > 0 {
        lemma_total_same(a, b, (n - 1) as nat);
        assert(a[n - 1] == b[n - 1]);
    }
}

} // verus!
