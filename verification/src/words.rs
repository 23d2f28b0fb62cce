//! The words of a seg file: what its bytes mean.
//!
//! A word is stored as a position code for its length plus one, then one position code
//! and one pattern code for each pattern that covers a part of it, a position code for
//! zero, and, from the next byte boundary on, the literal bytes that no pattern covers.
//! [`decode_word`] is the word at a byte offset; [`skip_word`] is how far a reader moves
//! that only wants to pass it.

use vstd::prelude::*;

use crate::bytes;
use crate::code;
use crate::varint;

verus! {

/// Smallest size of the part of a file that follows its header.
pub const BODY_MIN: usize = 32;

/// Deepest code that a dictionary may hold.
pub const MAX_CODE_DEPTH: u64 = 50;

/// The contents of a seg file.
pub struct SegModel {
    pub version: u8,
    pub page_values_count: u8,
    pub words_count: u64,
    pub empty_words_count: u64,
    pub pattern_depths: Seq<u64>,
    pub patterns: Seq<Seq<u8>>,
    pub pos_depths: Seq<u64>,
    pub positions: Seq<u64>,
    /// Where the words start in the file.
    pub words_start: int,
    /// The bytes of the words, to the end of the file.
    pub words: Seq<u8>,
}

/// `n`, or zero if it is negative: what is left of something that may be overrun.
pub open spec fn left(n: int) -> nat {
    if n > 0 { n as nat } else { 0 }
}

// ------------------------------------------------------------------ the file

/// Version, values per page, and offset of the body.
pub open spec fn parse_header(data: Seq<u8>, has_metadata: bool) -> Option<(u8, u8, int)> {
    if data.len() == 0 {
        None
    } else {
        let version = data[0];
        let fixed: Option<(u8, int)> = if version != 1 {
            Some((0u8, 0int))
        } else if data.len() < 2 {
            None
        } else if data[1] % 2 == 0 {
            Some((0u8, 2int))
        } else if data.len() < 3 {
            None
        } else {
            Some((data[2], 3int))
        };
        match fixed {
            None => None,
            Some((page, off)) => if !has_metadata {
                Some((version, page, off))
            } else if off + 4 > data.len() {
                None
            } else {
                Some((version, page, off + 4 + bytes::be_value(data.subrange(off, off + 4))))
            },
        }
    }
}

/// The pattern dictionary from byte `dp` on: depths and patterns.
pub open spec fn parse_patterns(dd: Seq<u8>, dp: int) -> Option<(Seq<u64>, Seq<Seq<u8>>)>
    decreases left(dd.len() - dp),
{
    if dp < 0 || dp >= dd.len() {
        Some((Seq::empty(), Seq::empty()))
    } else {
        let (depth, ns) = varint::uvarint_spec(dd.skip(dp));
        let (l, n) = varint::uvarint_spec(dd.skip(dp + ns));
        let s = dp + ns + n;
        if ns == 0 || depth > MAX_CODE_DEPTH || n == 0 || s + l > dd.len() {
            None
        } else {
            match parse_patterns(dd, s + l) {
                None => None,
                Some((ds, ps)) => Some((seq![depth as u64] + ds, seq![dd.subrange(s, s + l)] + ps)),
            }
        }
    }
}

/// The position dictionary from byte `dp` on: depths and positions.
pub open spec fn parse_positions(pd: Seq<u8>, dp: int) -> Option<(Seq<u64>, Seq<u64>)>
    decreases left(pd.len() - dp),
{
    if dp < 0 || dp >= pd.len() {
        Some((Seq::empty(), Seq::empty()))
    } else {
        let (depth, ns) = varint::uvarint_spec(pd.skip(dp));
        let (p, n) = varint::uvarint_spec(pd.skip(dp + ns));
        if ns == 0 || depth > MAX_CODE_DEPTH || n == 0 {
            None
        } else {
            match parse_positions(pd, dp + ns + n) {
                None => None,
                Some((ds, ps)) => Some((seq![depth as u64] + ds, seq![p as u64] + ps)),
            }
        }
    }
}

/// The body of a file: counts, the two dictionaries, and where the words start in it.
pub open spec fn parse_body(body: Seq<u8>) -> Option<SegModel> {
    if body.len() < BODY_MIN {
        None
    } else {
        let dict_size = bytes::be_value(body.subrange(16, 24)) as int;
        let pos = 24 + dict_size;
        if pos + 8 > body.len() {
            None
        } else {
            let pos_dict_size = bytes::be_value(body.subrange(pos, pos + 8)) as int;
            let start = pos + 8 + pos_dict_size;
            if start > body.len() {
                None
            } else {
                match (
                    parse_patterns(body.subrange(24, pos), 0),
                    parse_positions(body.subrange(pos + 8, start), 0),
                ) {
                    (Some((pattern_depths, patterns)), Some((pos_depths, positions))) => Some(
                        SegModel {
                            version: 0,
                            page_values_count: 0,
                            words_count: bytes::be_value(body.subrange(0, 8)) as u64,
                            empty_words_count: bytes::be_value(body.subrange(8, 16)) as u64,
                            pattern_depths,
                            patterns,
                            pos_depths,
                            positions,
                            words_start: start,
                            words: body.skip(start),
                        },
                    ),
                    _ => None,
                }
            }
        }
    }
}

/// The contents of a file, if it is valid.
pub open spec fn parse_seg(data: Seq<u8>, has_metadata: bool) -> Option<SegModel> {
    match parse_header(data, has_metadata) {
        None => None,
        Some((version, page, off)) => if off > data.len() {
            None
        } else {
            match parse_body(data.skip(off)) {
                None => None,
                Some(m) => Some(
                    SegModel { version, page_values_count: page, words_start: off + m.words_start, ..m },
                ),
            }
        },
    }
}

/// The words of a file are part of it.
pub proof fn lemma_words_in_file(data: Seq<u8>, has_metadata: bool)
    ensures
        parse_seg(data, has_metadata) matches Some(m) ==> m.words.len() <= data.len(),
{
    if let Some((version, page, off)) = parse_header(data, has_metadata) {
        assert(off >= 0);
    }
}

pub proof fn lemma_parse_patterns(dd: Seq<u8>, dp: int)
    ensures
        parse_patterns(dd, dp) matches Some((ds, ps)) ==> {
            &&& ds.len() == ps.len()
            &&& forall|i: int| 0 <= i < ds.len() ==> #[trigger] ds[i] <= MAX_CODE_DEPTH
            &&& forall|i: int| 0 <= i < ps.len() ==> (#[trigger] ps[i]).len() <= dd.len()
            &&& 0 <= dp < dd.len() ==> ds.len() > 0
            &&& dp >= dd.len() ==> ds.len() == 0
        },
    decreases left(dd.len() - dp),
{
    if 0 <= dp < dd.len() {
        let (depth, ns) = varint::uvarint_spec(dd.skip(dp));
        let (l, n) = varint::uvarint_spec(dd.skip(dp + ns));
        let s = dp + ns + n;
        if ns == 0 || depth > MAX_CODE_DEPTH || n == 0 || s + l > dd.len() {
        } else {
            lemma_parse_patterns(dd, s + l);
        }
    }
}

pub proof fn lemma_parse_positions(pd: Seq<u8>, dp: int)
    ensures
        parse_positions(pd, dp) matches Some((ds, ps)) ==> {
            &&& ds.len() == ps.len()
            &&& forall|i: int| 0 <= i < ds.len() ==> #[trigger] ds[i] <= MAX_CODE_DEPTH
            &&& 0 <= dp < pd.len() ==> ds.len() > 0
            &&& dp >= pd.len() ==> ds.len() == 0
        },
    decreases left(pd.len() - dp),
{
    if 0 <= dp < pd.len() {
        let (depth, ns) = varint::uvarint_spec(pd.skip(dp));
        let (p, n) = varint::uvarint_spec(pd.skip(dp + ns));
        if ns == 0 || depth > MAX_CODE_DEPTH || n == 0 {
        } else {
            lemma_parse_positions(pd, dp + ns + n);
        }
    }
}

// ------------------------------------------------------------------ one word

/// Read a position code at bit `p`: the position and the bit after its code.
pub open spec fn read_pos(m: SegModel, p: int) -> Option<(u64, int)> {
    match code::read_symbol(m.pos_depths, m.words, p) {
        None => None,
        Some((s, q)) => Some((m.positions[s as int], q)),
    }
}

/// Read a pattern code at bit `p`: the pattern and the bit after its code.
pub open spec fn read_pattern(m: SegModel, p: int) -> Option<(Seq<u8>, int)> {
    match code::read_symbol(m.pattern_depths, m.words, p) {
        None => None,
        Some((s, q)) => Some((m.patterns[s as int], q)),
    }
}

/// The patterns that cover a word, each with the place it starts at, read from bit `p`
/// on up to the terminator, and the bit after that. Each place is stored as the distance,
/// plus one, from the place before it, which is `at` for the first.
pub open spec fn read_cover(m: SegModel, p: int, at: int) -> Option<(Seq<(int, Seq<u8>)>, int)>
    decreases left(8 * m.words.len() - p),
{
    match read_pos(m, p) {
        None => None,
        Some((pos, q)) => if pos == 0 {
            Some((Seq::empty(), q))
        } else {
            let start = at + pos - 1;
            match read_pattern(m, q) {
                None => None,
                // Two codes of no bits would be read again for ever.
                Some((pat, q2)) => if start + pat.len() > u64::MAX || q2 <= p || p >= 8 * m.words.len() {
                    None
                } else {
                    match read_cover(m, q2, start) {
                        None => None,
                        Some((rest, end)) => Some((seq![(start, pat)] + rest, end)),
                    }
                },
            }
        },
    }
}

/// The byte boundary at or after bit `p`.
pub open spec fn align(p: int) -> int {
    (p + 7) / 8
}

/// `buf` with `s` written over it at `at`; what does not fit is cut off.
pub open spec fn put(buf: Seq<u8>, at: int, s: Seq<u8>) -> Seq<u8> {
    Seq::new(buf.len(), |i: int| if at <= i < at + s.len() { s[i - at] } else { buf[i] })
}

/// `buf` with the patterns laid over it, one after the other.
pub open spec fn lay(buf: Seq<u8>, cover: Seq<(int, Seq<u8>)>) -> Seq<u8>
    decreases cover.len(),
{
    if cover.len() == 0 {
        buf
    } else {
        lay(put(buf, cover[0].0, cover[0].1), cover.drop_first())
    }
}

/// `buf` with literal bytes of `data`, from `lit` on, written into every gap before a
/// pattern of `cover` and after the last, where `last` is the end of the pattern before;
/// and the offset of the first byte not used. `None` if a gap reaches past the buffer or
/// the literals past the data.
pub open spec fn fill(buf: Seq<u8>, cover: Seq<(int, Seq<u8>)>, last: int, data: Seq<u8>, lit: int) -> Option<
    (Seq<u8>, int),
>
    decreases cover.len(),
{
    let stop = if cover.len() == 0 { buf.len() as int } else { cover[0].0 };
    let gap = stop - last;
    let filled: Option<(Seq<u8>, int)> = if gap <= 0 {
        Some((buf, lit))
    } else if stop > buf.len() || lit + gap > data.len() {
        None
    } else {
        Some((put(buf, last, data.subrange(lit, lit + gap)), lit + gap))
    };
    if cover.len() == 0 {
        filled
    } else {
        match filled {
            None => None,
            Some((b, l)) => fill(b, cover.drop_first(), stop + cover[0].1.len(), data, l),
        }
    }
}

/// Number of literal bytes that the gaps of a cover take in a word of `n` bytes.
pub open spec fn gaps(cover: Seq<(int, Seq<u8>)>, last: int, n: int) -> int
    decreases cover.len(),
{
    let stop = if cover.len() == 0 { n } else { cover[0].0 };
    let gap = if stop > last { stop - last } else { 0 };
    if cover.len() == 0 {
        gap
    } else {
        gap + gaps(cover.drop_first(), stop + cover[0].1.len(), n)
    }
}

pub open spec fn zeros(n: nat) -> Seq<u8> {
    Seq::new(n, |i: int| 0u8)
}

/// The word at byte `off` and the offset after it, if it can be read.
pub open spec fn decode_word(m: SegModel, off: int) -> Option<(Seq<u8>, int)> {
    let r: Option<(Seq<u8>, int)> = match read_pos(m, 8 * off) {
        None => None,
        Some((pos, p)) => if pos == 1 {
            Some((Seq::empty(), align(p)))
        } else if pos == 0 || pos - 1 > isize::MAX {
            None
        } else {
            match read_cover(m, p, 0) {
                None => None,
                Some((cover, end)) => fill(lay(zeros((pos - 1) as nat), cover), cover, 0, m.words, align(end)),
            }
        },
    };
    match r {
        Some((w, next)) => if next > u64::MAX { None } else { r },
        None => None,
    }
}

/// The length of the word at byte `off` and the offset after it, as found without looking
/// at its bytes. A length code of zero counts as a length of `u64::MAX`.
pub open spec fn skip_word(m: SegModel, off: int) -> Option<(u64, int)> {
    let r: Option<(u64, int)> = match read_pos(m, 8 * off) {
        None => None,
        Some((pos, p)) => if pos == 1 {
            Some((0, align(p)))
        } else {
            let n = if pos == 0 { u64::MAX } else { (pos - 1) as u64 };
            match read_cover(m, p, 0) {
                None => None,
                Some((cover, end)) => Some((n, align(end) + gaps(cover, 0, n as int))),
            }
        },
    };
    match r {
        Some((n, next)) => if next > u64::MAX { None } else { r },
        None => None,
    }
}

proof fn lemma_fill_gaps(buf: Seq<u8>, cover: Seq<(int, Seq<u8>)>, last: int, data: Seq<u8>, lit: int)
    ensures
        fill(buf, cover, last, data, lit) matches Some((b, l)) ==> {
            &&& b.len() == buf.len()
            &&& l == lit + gaps(cover, last, buf.len() as int)
        },
    decreases cover.len(),
{
    let stop = if cover.len() == 0 { buf.len() as int } else { cover[0].0 };
    let gap = stop - last;
    if cover.len() > 0 {
        if gap <= 0 {
            lemma_fill_gaps(buf, cover.drop_first(), stop + cover[0].1.len(), data, lit);
        } else if !(stop > buf.len() || lit + gap > data.len()) {
            let b = put(buf, last, data.subrange(lit, lit + gap));
            lemma_fill_gaps(b, cover.drop_first(), stop + cover[0].1.len(), data, lit + gap);
        }
    }
}

pub proof fn lemma_lay_len(buf: Seq<u8>, cover: Seq<(int, Seq<u8>)>)
    ensures
        lay(buf, cover).len() == buf.len(),
    decreases cover.len(),
{
    if cover.len() > 0 {
        lemma_lay_len(put(buf, cover[0].0, cover[0].1), cover.drop_first());
    }
}

/// Skipping a word that can be read reports its length and moves exactly as far as
/// reading it.
pub proof fn law_skip_agrees_with_next(m: SegModel, off: int)
    ensures
        decode_word(m, off) matches Some((w, next)) ==> skip_word(m, off) == Some((w.len() as u64, next)),
{
    if let Some((pos, p)) = read_pos(m, 8 * off) {
        if pos > 1 {
            if let Some((cover, end)) = read_cover(m, p, 0) {
                let z = zeros((pos - 1) as nat);
                lemma_lay_len(z, cover);
                lemma_fill_gaps(lay(z, cover), cover, 0, m.words, align(end));
            }
        }
    }
}

proof fn lemma_cover_advances(m: SegModel, p: int, at: int)
    ensures
        read_cover(m, p, at) matches Some((c, end)) ==> p <= end,
    decreases left(8 * m.words.len() - p),
{
    code::lemma_read_symbol(m.pos_depths, m.words, p);
    if let Some((pos, q)) = read_pos(m, p) {
        if pos != 0 {
            let start = at + pos - 1;
            code::lemma_read_symbol(m.pattern_depths, m.words, q);
            if let Some((pat, q2)) = read_pattern(m, q) {
                if start + pat.len() > u64::MAX || q2 <= p || p >= 8 * m.words.len() {
                } else {
                    lemma_cover_advances(m, q2, start);
                }
            }
        }
    }
}

proof fn lemma_gaps_not_negative(cover: Seq<(int, Seq<u8>)>, last: int, n: int)
    ensures
        gaps(cover, last, n) >= 0,
    decreases cover.len(),
{
    if cover.len() > 0 {
        lemma_gaps_not_negative(cover.drop_first(), cover[0].0 + cover[0].1.len(), n);
    }
}

/// A reader never moves backwards.
pub proof fn lemma_skip_advances(m: SegModel, off: int)
    ensures
        skip_word(m, off) matches Some((n, next)) ==> off <= next,
{
    code::lemma_read_symbol(m.pos_depths, m.words, 8 * off);
    if let Some((pos, p)) = read_pos(m, 8 * off) {
        if pos != 1 {
            let n = if pos == 0 { u64::MAX } else { (pos - 1) as u64 };
            lemma_cover_advances(m, p, 0);
            if let Some((cover, end)) = read_cover(m, p, 0) {
                lemma_gaps_not_negative(cover, 0, n as int);
            }
        }
    }
}

} // verus!
