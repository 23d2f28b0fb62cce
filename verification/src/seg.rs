//! Reader for a `seg`-compressed `.kv` file: a stream of *words* encoded with a
//! Huffman-coded pattern dictionary plus literal runs.
//!
//! [`Seg`] holds the bytes of the file and its two dictionaries; a [`Getter`] is a cheap
//! cursor that decompresses words on demand.
//!
//! ## Header
//!
//! The file may begin with a small header before the seg body:
//! * **v0**: no header; the body (the big-endian `words_count`) starts at offset 0.
//! * **v1**: a `[version=1, feature_flags]` pair; if the lowest flag, page compression,
//!   is set, one more byte (values per page) follows.
//!
//! An optional, out-of-band *metadata* blob (length-prefixed `u32`) may follow the header
//! for some file kinds; see [`OpenOptions`]. Domain `.kv` files do not use it.

use vstd::prelude::*;
use vstd::slice::*;

use crate::bytes;
use crate::bytes::read_be;
use crate::code;
use crate::error::{Error, FormatError, Result};
use crate::table::Code;
use crate::varint::uvarint;
use crate::words;
use crate::words::{SegModel, BODY_MIN, MAX_CODE_DEPTH};

verus! {

const FORMAT_V1: u8 = 1;

/// Options controlling how a `.kv` is opened.
#[derive(Debug, Clone, Copy)]
pub struct OpenOptions {
    /// Whether the file carries an out-of-band metadata blob after the header. This is
    /// not auto-detectable from the file; it is a property of the file kind.
    pub has_metadata: bool,
}

impl Default for OpenOptions {
    fn default() -> (o: OpenOptions)
        ensures
            !o.has_metadata,
    {
        OpenOptions { has_metadata: false }
    }
}

/// The byte strings that a list of slices stands for.
pub open spec fn slice_views(v: Seq<&[u8]>) -> Seq<Seq<u8>> {
    Seq::new(v.len(), |i: int| v[i]@)
}

/// A `seg`-compressed file (`.kv`). Create a [`Getter`] to read words.
pub struct Seg<'a> {
    data: &'a [u8],
    dict: Option<Code>,
    patterns: Vec<&'a [u8]>,
    pos_dict: Option<Code>,
    positions: Vec<u64>,
    words_start: usize,
    words_count: u64,
    empty_words_count: u64,
    version: u8,
    page_values_count: u8,
}

closed spec fn listed(c: Option<Code>) -> Seq<u64> {
    match c {
        Some(c) => c.depths(),
        None => Seq::empty(),
    }
}

impl<'a> Seg<'a> {
    #[verifier::type_invariant]
    closed spec fn inv(self) -> bool {
        &&& self.words_start <= self.data@.len()
        &&& listed(self.dict).len() == self.patterns@.len()
        &&& listed(self.pos_dict).len() == self.positions@.len()
        &&& self.dict is Some == (self.patterns@.len() > 0)
        &&& self.pos_dict is Some == (self.positions@.len() > 0)
    }

    /// The contents of the file.
    pub closed spec fn model(&self) -> SegModel {
        SegModel {
            version: self.version,
            page_values_count: self.page_values_count,
            words_count: self.words_count,
            empty_words_count: self.empty_words_count,
            pattern_depths: listed(self.dict),
            patterns: slice_views(self.patterns@),
            pos_depths: listed(self.pos_dict),
            positions: self.positions@,
            words_start: self.words_start as int,
            words: self.data@.skip(self.words_start as int),
        }
    }

    /// The bytes of the file.
    pub closed spec fn bytes(&self) -> Seq<u8> {
        self.data@
    }

    /// Open a `.kv` with default options (no out-of-band metadata).
    pub fn open(data: &'a [u8]) -> (r: Result<Seg<'a>>)
        ensures
            match words::parse_seg(data@, false) {
                Some(m) => r matches Ok(seg) && seg.model() == m && seg.bytes() == data@,
                None => r matches Err(e) && e == Error::Format(FormatError::InvalidKv),
            },
    {
        Seg::open_with(data, OpenOptions { has_metadata: false })
    }

    /// Open a `.kv` with explicit [`OpenOptions`].
    pub fn open_with(data: &'a [u8], opts: OpenOptions) -> (r: Result<Seg<'a>>)
        ensures
            match words::parse_seg(data@, opts.has_metadata) {
                Some(m) => r matches Ok(seg) && seg.model() == m && seg.bytes() == data@,
                None => r matches Err(e) && e == Error::Format(FormatError::InvalidKv),
            },
    {
        match Seg::parse(data, opts) {
            Some(seg) => Ok(seg),
            None => Err(Error::Format(FormatError::InvalidKv)),
        }
    }

    fn parse(data: &'a [u8], opts: OpenOptions) -> (r: Option<Seg<'a>>)
        ensures
            r is Some == words::parse_seg(data@, opts.has_metadata) is Some,
            r matches Some(seg) ==> {
                &&& words::parse_seg(data@, opts.has_metadata) == Some(seg.model())
                &&& seg.bytes() == data@
            },
    {
        let (version, page_values_count, off) = match parse_header(data, opts.has_metadata) {
            Some(h) => h,
            None => return None,
        };
        let len: usize = data.len();
        if len - off < BODY_MIN {
            return None;
        }
        let body: &'a [u8] = slice_subrange(data, off, len);
        let n: usize = len - off;
        proof {
            assert(body@ =~= data@.skip(off as int));
            bytes::lemma_be_bound(body@.subrange(0, 8));
            bytes::lemma_be_bound(body@.subrange(8, 16));
        }
        let words_count = read_be(body, 0, 8);
        let empty_words_count = read_be(body, 8, 8);
        let dict_size = read_be(body, 16, 8);
        if dict_size > (n - 32) as u64 {
            return None;
        }
        let pos: usize = 24 + dict_size as usize;
        let pos_dict_size = read_be(body, pos, 8);
        if pos_dict_size > (n - pos - 8) as u64 {
            return None;
        }
        let start: usize = pos + 8 + pos_dict_size as usize;
        let (dict, patterns) = match parse_pattern_dict(slice_subrange(body, 24, pos)) {
            Some(d) => d,
            None => return None,
        };
        let (pos_dict, positions) = match parse_position_dict(slice_subrange(body, pos + 8, start)) {
            Some(d) => d,
            None => return None,
        };
        let seg = Seg {
            data,
            dict,
            patterns,
            pos_dict,
            positions,
            words_start: off + start,
            words_count,
            empty_words_count,
            version,
            page_values_count,
        };
        proof {
            assert(data@.skip(off as int).skip(start as int) =~= data@.skip(off + start));
        }
        Some(seg)
    }
}

fn parse_header(data: &[u8], has_metadata: bool) -> (r: Option<(u8, u8, usize)>)
    ensures
        match words::parse_header(data@, has_metadata) {
            Some((version, page, off)) => if off > data@.len() {
                r is None
            } else {
                r == Some((version, page, off as usize)) && (off as usize) == off
            },
            None => r is None,
        },
{
    let len: usize = data.len();
    if len == 0 {
        return None;
    }
    let version: u8 = data[0];
    let mut page: u8 = 0;
    let mut off: usize = 0;
    if version == FORMAT_V1 {
        if len < 2 {
            return None;
        }
        off = 2;
        if data[1] % 2 != 0 {
            if len < 3 {
                return None;
            }
            page = data[2];
            off = 3;
        }
    }
    if has_metadata {
        if len - off < 4 {
            return None;
        }
        let metadata_len = read_be(data, off, 4);
        if metadata_len > (len - off - 4) as u64 {
            return None;
        }
        off = off + 4 + metadata_len as usize;
    }
    Some((version, page, off))
}

/// The pattern dictionary: its code, absent if it is empty, and its patterns.
fn parse_pattern_dict<'a>(dd: &'a [u8]) -> (r: Option<(Option<Code>, Vec<&'a [u8]>)>)
    ensures
        r is Some == words::parse_patterns(dd@, 0) is Some,
        r matches Some((c, v)) ==> {
            &&& words::parse_patterns(dd@, 0) == Some((listed(c), slice_views(v@)))
            &&& listed(c).len() == v@.len()
            &&& c is Some == (v@.len() > 0)
        },
{
    let size: usize = dd.len();
    let mut depths: Vec<u64> = Vec::new();
    let mut patterns: Vec<&'a [u8]> = Vec::new();
    let mut deepest: u64 = 0;
    let mut dp: usize = 0;
    proof {
        if let Some((ds, ps)) = words::parse_patterns(dd@, 0) {
            assert(depths@ + ds =~= ds);
            assert(slice_views(patterns@) + ps =~= ps);
        }
    }
    while dp < size
        invariant
            size == dd@.len(),
            dp <= size,
            patterns@.len() == depths@.len(),
            deepest == code::max_depth(depths@),
            deepest <= 50,
            match words::parse_patterns(dd@, dp as int) {
                Some((ds, ps)) => words::parse_patterns(dd@, 0) == Some(
                    (depths@ + ds, slice_views(patterns@) + ps),
                ),
                None => words::parse_patterns(dd@, 0) is None,
            },
        decreases size - dp,
    {
        let rest = slice_subrange(dd, dp, size);
        proof {
            assert(rest@ =~= dd@.skip(dp as int));
        }
        let (depth, ns) = uvarint(rest);
        if ns == 0 || depth > MAX_CODE_DEPTH {
            return None;
        }
        let rest2 = slice_subrange(dd, dp + ns, size);
        proof {
            assert(rest2@ =~= dd@.skip(dp + ns));
        }
        let (l, n) = uvarint(rest2);
        if n == 0 {
            return None;
        }
        let s: usize = dp + ns + n;
        if l > (size - s) as u64 {
            return None;
        }
        let end: usize = s + l as usize;
        let ghost old_depths = depths@;
        let ghost old_views = slice_views(patterns@);
        depths.push(depth);
        patterns.push(slice_subrange(dd, s, end));
        proof {
            assert(depths@.drop_last() =~= old_depths);
            assert(slice_views(patterns@) =~= old_views.push(dd@.subrange(s as int, end as int)));
            if let Some((ds, ps)) = words::parse_patterns(dd@, end as int) {
                assert(old_depths + (seq![depth] + ds) =~= depths@ + ds);
                assert(old_views + (seq![dd@.subrange(s as int, end as int)] + ps) =~= slice_views(patterns@) + ps);
            }
        }
        if depth > deepest {
            deepest = depth;
        }
        dp = end;
    }
    proof {
        assert(depths@ + Seq::<u64>::empty() =~= depths@);
        assert(slice_views(patterns@) + Seq::<Seq<u8>>::empty() =~= slice_views(patterns@));
    }
    if depths.len() == 0 {
        proof {
            assert(depths@ =~= Seq::empty());
        }
        Some((None, patterns))
    } else {
        Some((Some(Code::new(&depths, deepest)), patterns))
    }
}

/// The position dictionary: its code, absent if it is empty, and its positions.
fn parse_position_dict(pd: &[u8]) -> (r: Option<(Option<Code>, Vec<u64>)>)
    ensures
        r is Some == words::parse_positions(pd@, 0) is Some,
        r matches Some((c, v)) ==> {
            &&& words::parse_positions(pd@, 0) == Some((listed(c), v@))
            &&& listed(c).len() == v@.len()
            &&& c is Some == (v@.len() > 0)
        },
{
    let size: usize = pd.len();
    let mut depths: Vec<u64> = Vec::new();
    let mut positions: Vec<u64> = Vec::new();
    let mut deepest: u64 = 0;
    let mut dp: usize = 0;
    proof {
        if let Some((ds, ps)) = words::parse_positions(pd@, 0) {
            assert(depths@ + ds =~= ds);
            assert(positions@ + ps =~= ps);
        }
    }
    while dp < size
        invariant
            size == pd@.len(),
            dp <= size,
            positions@.len() == depths@.len(),
            deepest == code::max_depth(depths@),
            deepest <= 50,
            match words::parse_positions(pd@, dp as int) {
                Some((ds, ps)) => words::parse_positions(pd@, 0) == Some((depths@ + ds, positions@ + ps)),
                None => words::parse_positions(pd@, 0) is None,
            },
        decreases size - dp,
    {
        let rest = slice_subrange(pd, dp, size);
        proof {
            assert(rest@ =~= pd@.skip(dp as int));
        }
        let (depth, ns) = uvarint(rest);
        if ns == 0 || depth > MAX_CODE_DEPTH {
            return None;
        }
        let rest2 = slice_subrange(pd, dp + ns, size);
        proof {
            assert(rest2@ =~= pd@.skip(dp + ns));
        }
        let (p, n) = uvarint(rest2);
        if n == 0 {
            return None;
        }
        let ghost old_depths = depths@;
        let ghost old_positions = positions@;
        depths.push(depth);
        positions.push(p);
        proof {
            assert(depths@.drop_last() =~= old_depths);
            if let Some((ds, ps)) = words::parse_positions(pd@, dp + ns + n) {
                assert(old_depths + (seq![depth] + ds) =~= depths@ + ds);
                assert(old_positions + (seq![p] + ps) =~= positions@ + ps);
            }
        }
        if depth > deepest {
            deepest = depth;
        }
        dp = dp + ns + n;
    }
    proof {
        assert(depths@ + Seq::<u64>::empty() =~= depths@);
        assert(positions@ + Seq::<u64>::empty() =~= positions@);
    }
    if depths.len() == 0 {
        proof {
            assert(depths@ =~= Seq::empty());
        }
        Some((None, positions))
    } else {
        Some((Some(Code::new(&depths, deepest)), positions))
    }
}

impl<'a> Seg<'a> {
    /// Number of words in the file (for a domain `.kv`, twice the number of keys).
    pub fn words_count(&self) -> (n: u64)
        ensures
            n == self.model().words_count,
    {
        self.words_count
    }

    /// Number of empty (zero-length) words.
    pub fn empty_words_count(&self) -> (n: u64)
        ensures
            n == self.model().empty_words_count,
    {
        self.empty_words_count
    }

    /// On-disk header version (`0` = legacy, `1` = versioned header).
    pub fn version(&self) -> (v: u8)
        ensures
            v == self.model().version,
    {
        self.version
    }

    /// Values per page if page-level compression is enabled, else `0`. Page reassembly is
    /// not performed by this low-level reader; words are returned as encoded.
    pub fn page_values_count(&self) -> (n: u8)
        ensures
            n == self.model().page_values_count,
    {
        self.page_values_count
    }

    /// Length of the file in bytes: a safe over-estimate of the largest word offset,
    /// suitable as the `max_offset` bound when building a `.bt` index.
    pub fn len(&self) -> (n: usize)
        ensures
            n == self.bytes().len(),
    {
        self.data.len()
    }

    /// Bytes that this `.kv` occupies.
    pub fn mapped_bytes(&self) -> (n: u64)
        ensures
            n == self.bytes().len(),
    {
        self.data.len() as u64
    }

    /// Whether the file has no bytes.
    pub fn is_empty(&self) -> (r: bool)
        ensures
            r == (self.bytes().len() == 0),
    {
        self.data.len() == 0
    }

    /// Create a cursor positioned at the start of the words region.
    pub fn getter(&self) -> (g: Getter<'_>)
        ensures
            g.model() == self.model(),
            g.at() == 0,
    {
        proof {
            use_type_invariant(self);
        }
        let data: &[u8] = slice_subrange(self.data, self.words_start, self.data.len());
        proof {
            assert(data@ =~= self.data@.skip(self.words_start as int));
        }
        Getter { seg: self, data, data_p: 0 }
    }
}

/// The places and patterns that a decoded cover stands for.
closed spec fn cover_view(c: Seq<(u64, &[u8])>) -> Seq<(int, Seq<u8>)> {
    Seq::new(c.len(), |i: int| (c[i].0 as int, c[i].1@))
}

/// A cursor over a [`Seg`]'s words. Cheap to create.
pub struct Getter<'a> {
    seg: &'a Seg<'a>,
    data: &'a [u8],
    data_p: u64,
}

impl<'a> Getter<'a> {
    #[verifier::type_invariant]
    closed spec fn inv(self) -> bool {
        self.data@ == self.seg.model().words
    }

    /// The contents of the file that the cursor reads.
    pub closed spec fn model(&self) -> SegModel {
        self.seg.model()
    }

    /// Where the cursor stands.
    pub closed spec fn at(&self) -> u64 {
        self.data_p
    }

    /// Position the cursor at `offset` (a value from the `.bt` index, or 0 for the first
    /// word).
    pub fn reset(&mut self, offset: u64)
        ensures
            final(self).model() == old(self).model(),
            final(self).at() == offset,
    {
        proof {
            use_type_invariant(&*self);
        }
        self.data_p = offset;
    }

    /// Whether another word is available at the current position.
    pub fn has_next(&self) -> (r: bool)
        ensures
            r == (self.at() < self.model().words.len()),
    {
        proof {
            use_type_invariant(self);
        }
        self.data_p < self.data.len() as u64
    }

    /// Byte offset of the cursor within the words region. This is the value that the
    /// `.bt` index stores for each key.
    pub fn offset(&self) -> (o: u64)
        ensures
            o == self.at(),
    {
        self.data_p
    }

    fn next_pos(&self, p: u128) -> (r: Option<(u64, u128)>)
        requires
            p <= 8 * (u64::MAX as u128 + 100),
        ensures
            r is Some == words::read_pos(self.model(), p as int) is Some,
            r matches Some((pos, q)) ==> {
                &&& words::read_pos(self.model(), p as int) == Some((pos, q as int))
                &&& q <= p + 54
                &&& p <= q
                &&& q > p ==> p / 8 < self.model().words.len()
            },
    {
        proof {
            use_type_invariant(self);
            use_type_invariant(self.seg);
            code::lemma_read_symbol(self.model().pos_depths, self.data@, p as int);
        }
        match &self.seg.pos_dict {
            None => None,
            Some(c) => match c.read(self.data, p) {
                None => None,
                Some((s, q)) => Some((self.seg.positions[s], q)),
            },
        }
    }

    fn next_pattern(&self, p: u128) -> (r: Option<(&'a [u8], u128)>)
        requires
            p <= 8 * (u64::MAX as u128 + 100),
        ensures
            r is Some == words::read_pattern(self.model(), p as int) is Some,
            r matches Some((pat, q)) ==> {
                &&& words::read_pattern(self.model(), p as int) == Some((pat@, q as int))
                &&& q <= p + 54
                &&& p <= q
                &&& q > p ==> p / 8 < self.model().words.len()
            },
    {
        proof {
            use_type_invariant(self);
            use_type_invariant(self.seg);
            code::lemma_read_symbol(self.model().pattern_depths, self.data@, p as int);
        }
        match &self.seg.dict {
            None => None,
            Some(c) => match c.read(self.data, p) {
                None => None,
                Some((s, q)) => Some((self.seg.patterns[s], q)),
            },
        }
    }

    /// The patterns of the word whose length code ends at bit `p0`, and the bit after
    /// their terminator.
    fn read_cover(&self, p0: u128) -> (r: Option<(Vec<(u64, &'a [u8])>, u128)>)
        requires
            p0 <= 8 * (u64::MAX as u128) + 54,
        ensures
            r is Some == words::read_cover(self.model(), p0 as int, 0) is Some,
            r matches Some((cover, end)) ==> {
                &&& words::read_cover(self.model(), p0 as int, 0) == Some((cover_view(cover@), end as int))
                &&& end <= 8 * (u64::MAX as u128) + 400
                &&& forall|i: int| 0 <= i < cover@.len() ==> (#[trigger] cover@[i]).0 + cover@[i].1@.len() <= u64::MAX
                &&& forall|i: int, j: int| 0 <= i <= j < cover@.len() ==> (#[trigger] cover@[i]).0 <= (#[trigger] cover@[j]).0
            },
    {
        let ghost m = self.model();
        let len: u128 = self.data.len() as u128;
        let mut cover: Vec<(u64, &'a [u8])> = Vec::new();
        let mut p: u128 = p0;
        let mut at: u64 = 0;
        proof {
            use_type_invariant(self);
            if let Some((rest, end)) = words::read_cover(m, p as int, 0) {
                assert(cover_view(cover@) + rest =~= rest);
            }
        }
        loop
            invariant
                m == self.model(),
                len == m.words.len(),
                len <= u64::MAX,
                p <= 8 * (u64::MAX as u128) + 200,
                match words::read_cover(m, p as int, at as int) {
                    Some((rest, end)) => words::read_cover(m, p0 as int, 0) == Some((cover_view(cover@) + rest, end)),
                    None => words::read_cover(m, p0 as int, 0) is None,
                },
                forall|i: int| 0 <= i < cover@.len() ==> (#[trigger] cover@[i]).0 + cover@[i].1@.len() <= u64::MAX,
                forall|i: int, j: int| 0 <= i <= j < cover@.len() ==> (#[trigger] cover@[i]).0 <= (#[trigger] cover@[j]).0,
                forall|i: int| 0 <= i < cover@.len() ==> (#[trigger] cover@[i]).0 <= at,
            decreases words::left(8 * len - p),
        {
            let (pos, q) = match self.next_pos(p) {
                Some(x) => x,
                None => return None,
            };
            if pos == 0 {
                proof {
                    assert(cover_view(cover@) + Seq::<(int, Seq<u8>)>::empty() =~= cover_view(cover@));
                }
                return Some((cover, q));
            }
            let start: u128 = at as u128 + (pos - 1) as u128;
            let (pat, q2) = match self.next_pattern(q) {
                Some(x) => x,
                None => return None,
            };
            if start + pat.len() as u128 > u64::MAX as u128 || q2 <= p || p >= 8 * len {
                return None;
            }
            let ghost before = cover@;
            cover.push((start as u64, pat));
            proof {
                assert(cover_view(cover@) =~= cover_view(before).push((start as int, pat@)));
                if let Some((rest, end)) = words::read_cover(m, q2 as int, start as int) {
                    assert(cover_view(before) + (seq![(start as int, pat@)] + rest) =~= cover_view(cover@) + rest);
                }
            }
            at = start as u64;
            p = q2;
        }
    }

    /// Decompress the word at the current offset and advance past it; `None`, with the
    /// cursor where it was, if the bytes there are no word.
    pub fn try_next(&mut self) -> (r: Option<Vec<u8>>)
        ensures
            final(self).model() == old(self).model(),
            match words::decode_word(old(self).model(), old(self).at() as int) {
                Some((w, next)) => r matches Some(v) && v@ == w && final(self).at() == next,
                None => r is None && final(self).at() == old(self).at(),
            },
    {
        let ghost m = self.model();
        proof {
            use_type_invariant(&*self);
        }
        let p0: u128 = 8 * self.data_p as u128;
        let (pos, p) = match self.next_pos(p0) {
            Some(x) => x,
            None => return None,
        };
        if pos == 1 {
            let next: u128 = (p + 7) / 8;
            if next > u64::MAX as u128 {
                return None;
            }
            self.data_p = next as u64;
            let w: Vec<u8> = Vec::new();
            proof {
                assert(w@ =~= Seq::empty());
            }
            return Some(w);
        }
        if pos == 0 || pos - 1 > isize::MAX as u64 {
            return None;
        }
        let (cover, end) = match self.read_cover(p) {
            Some(x) => x,
            None => return None,
        };
        let n: usize = (pos - 1) as usize;
        let mut buf: Vec<u8> = vec![0u8; n];
        proof {
            assert(buf@ =~= words::zeros(n as nat));
        }
        lay(&mut buf, &cover);
        match fill(&mut buf, &cover, self.data, (end + 7) / 8) {
            None => None,
            Some(next) => {
                if next > u64::MAX as u128 {
                    return None;
                }
                self.data_p = next as u64;
                Some(buf)
            },
        }
    }

    /// Advance past the word at the current offset without decompressing it, returning
    /// its length; `None`, with the cursor where it was, if the bytes there are no word.
    pub fn try_skip(&mut self) -> (r: Option<u64>)
        ensures
            final(self).model() == old(self).model(),
            match words::skip_word(old(self).model(), old(self).at() as int) {
                Some((n, next)) => r == Some(n) && final(self).at() == next,
                None => r is None && final(self).at() == old(self).at(),
            },
    {
        proof {
            use_type_invariant(&*self);
        }
        let p0: u128 = 8 * self.data_p as u128;
        let (pos, p) = match self.next_pos(p0) {
            Some(x) => x,
            None => return None,
        };
        if pos == 1 {
            let next: u128 = (p + 7) / 8;
            if next > u64::MAX as u128 {
                return None;
            }
            self.data_p = next as u64;
            return Some(0);
        }
        let n: u64 = if pos == 0 { u64::MAX } else { pos - 1 };
        let (cover, end) = match self.read_cover(p) {
            Some(x) => x,
            None => return None,
        };
        let next: u128 = (end + 7) / 8 + gaps(&cover, n);
        if next > u64::MAX as u128 {
            return None;
        }
        self.data_p = next as u64;
        Some(n)
    }

    /// Decompress the word at the current offset, advancing past it.
    ///
    /// The cursor is deliberately not an `Iterator`, since a domain `.kv` interleaves key
    /// and value words that callers consume in pairs.
    pub fn next(&mut self) -> (w: Vec<u8>)
        requires
            words::decode_word(old(self).model(), old(self).at() as int) is Some,
        ensures
            final(self).model() == old(self).model(),
            words::decode_word(old(self).model(), old(self).at() as int) == Some((w@, final(self).at() as int)),
    {
        self.try_next().unwrap()
    }

    /// Advance past the word at the current offset without materializing it, returning
    /// its length. Far cheaper than [`next`](Self::next) when only positions are needed,
    /// as when building an index.
    pub fn skip(&mut self) -> (n: u64)
        requires
            words::skip_word(old(self).model(), old(self).at() as int) is Some,
        ensures
            final(self).model() == old(self).model(),
            words::skip_word(old(self).model(), old(self).at() as int) == Some((n, final(self).at() as int)),
    {
        self.try_skip().unwrap()
    }
}

/// Write `s` over `buf` at `at`, cutting off what does not fit.
fn put(buf: &mut Vec<u8>, at: u64, s: &[u8])
    requires
        at + s@.len() <= u64::MAX,
    ensures
        final(buf)@ == words::put(old(buf)@, at as int, s@),
{
    let ghost before = buf@;
    let n: u64 = buf.len() as u64;
    let mut i: usize = 0;
    while i < s.len() && at + (i as u64) < n
        invariant
            n == buf.len(),
            n == before.len(),
            i <= s.len(),
            at + s.len() <= u64::MAX,
            forall|k: int|
                0 <= k < n ==> #[trigger] buf@[k] == if at <= k < at + i { s@[k - at] } else { before[k] },
        decreases s.len() - i,
    {
        let j: usize = (at + i as u64) as usize;
        let b: u8 = s[i];
        buf.set(j, b);
        i = i + 1;
    }
    proof {
        assert(buf@ =~= words::put(before, at as int, s@));
    }
}

/// Lay the patterns of a cover over `buf`.
fn lay<'b>(buf: &mut Vec<u8>, cover: &Vec<(u64, &'b [u8])>)
    requires
        forall|i: int| 0 <= i < cover@.len() ==> (#[trigger] cover@[i]).0 + cover@[i].1@.len() <= u64::MAX,
    ensures
        final(buf)@ == words::lay(old(buf)@, cover_view(cover@)),
        final(buf)@.len() == old(buf)@.len(),
{
    let ghost all = cover_view(cover@);
    let ghost before = buf@;
    proof {
        words::lemma_lay_len(buf@, all);
        assert(all.skip(0) =~= all);
    }
    let mut i: usize = 0;
    while i < cover.len()
        invariant
            i <= cover.len(),
            all == cover_view(cover@),
            forall|i: int| 0 <= i < cover@.len() ==> (#[trigger] cover@[i]).0 + cover@[i].1@.len() <= u64::MAX,
            words::lay(buf@, all.skip(i as int)) == words::lay(before, all),
        decreases cover.len() - i,
    {
        proof {
            assert(all.skip(i as int).drop_first() =~= all.skip(i + 1));
        }
        put(buf, cover[i].0, cover[i].1);
        i = i + 1;
    }
    proof {
        assert(all.skip(i as int).len() == 0);
    }
}

/// Fill the gaps of a cover with the literal bytes of `data` from `lit0` on; the offset of
/// the first byte not used, or `None` if there are too few.
fn fill<'b>(buf: &mut Vec<u8>, cover: &Vec<(u64, &'b [u8])>, data: &[u8], lit0: u128) -> (r: Option<u128>)
    requires
        lit0 <= u64::MAX as u128 + 1000,
        forall|i: int| 0 <= i < cover@.len() ==> (#[trigger] cover@[i]).0 + cover@[i].1@.len() <= u64::MAX,
    ensures
        match words::fill(old(buf)@, cover_view(cover@), 0, data@, lit0 as int) {
            Some((b, l)) => r == Some(l as u128) && l == (l as u128) && final(buf)@ == b,
            None => r is None,
        },
{
    let ghost all = cover_view(cover@);
    let ghost goal = words::fill(buf@, all, 0, data@, lit0 as int);
    let len: u128 = data.len() as u128;
    let n: u64 = buf.len() as u64;
    let mut i: usize = 0;
    let mut last: u64 = 0;
    let mut lit: u128 = lit0;
    proof {
        assert(all.skip(0) =~= all);
    }
    loop
        invariant
            i <= cover.len(),
            all == cover_view(cover@),
            forall|i: int| 0 <= i < cover@.len() ==> (#[trigger] cover@[i]).0 + cover@[i].1@.len() <= u64::MAX,
            n == buf.len(),
            len == data.len(),
            goal == words::fill(old(buf)@, all, 0, data@, lit0 as int),
            lit <= u64::MAX as u128 + 1000,
            words::fill(buf@, all.skip(i as int), last as int, data@, lit as int) == goal,
        decreases cover.len() - i,
    {
        let done: bool = i == cover.len();
        let stop: u64 = if done { n } else { cover[i].0 };
        proof {
            if !done {
                assert(all.skip(i as int)[0] == all[i as int]);
                assert(all.skip(i as int).drop_first() =~= all.skip(i + 1));
            }
        }
        if stop > last {
            let gap: u64 = stop - last;
            if stop > n || lit + gap as u128 > len {
                return None;
            }
            let literals = slice_subrange(data, lit as usize, lit as usize + gap as usize);
            put(buf, last, literals);
            lit = lit + gap as u128;
        }
        if done {
            return Some(lit);
        }
        last = stop + cover[i].1.len() as u64;
        i = i + 1;
    }
}

/// Number of literal bytes that the gaps of a cover take in a word of `n` bytes.
fn gaps<'b>(cover: &Vec<(u64, &'b [u8])>, n: u64) -> (r: u128)
    requires
        forall|i: int| 0 <= i < cover@.len() ==> (#[trigger] cover@[i]).0 + cover@[i].1@.len() <= u64::MAX,
        forall|i: int, j: int| 0 <= i <= j < cover@.len() ==> (#[trigger] cover@[i]).0 <= (#[trigger] cover@[j]).0,
    ensures
        r == words::gaps(cover_view(cover@), 0, n as int),
        r <= 2 * (u64::MAX as u128),
{
    let ghost all = cover_view(cover@);
    let mut i: usize = 0;
    let mut last: u64 = 0;
    let mut sum: u128 = 0;
    proof {
        assert(all.skip(0) =~= all);
    }
    while i < cover.len()
        invariant
            i <= cover.len(),
            all == cover_view(cover@),
            forall|i: int| 0 <= i < cover@.len() ==> (#[trigger] cover@[i]).0 + cover@[i].1@.len() <= u64::MAX,
            forall|i: int, j: int| 0 <= i <= j < cover@.len() ==> (#[trigger] cover@[i]).0 <= (#[trigger] cover@[j]).0,
            i == 0 ==> last == 0 && sum == 0,
            i > 0 ==> last >= cover@[i - 1].0 && sum <= cover@[i - 1].0,
            sum + words::gaps(all.skip(i as int), last as int, n as int) == words::gaps(all, 0, n as int),
        decreases cover.len() - i,
    {
        proof {
            assert(all.skip(i as int)[0] == all[i as int]);
            assert(all.skip(i as int).drop_first() =~= all.skip(i + 1));
            if i > 0 {
                assert(cover@[i - 1].0 <= cover@[i as int].0);
            }
        }
        let start: u64 = cover[i].0;
        if start > last {
            sum = sum + (start - last) as u128;
        }
        last = start + cover[i].1.len() as u64;
        i = i + 1;
    }
    if n > last {
        sum = sum + (n - last) as u128;
    }
    sum
}

} // verus!
