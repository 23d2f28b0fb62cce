//! What the bytes at the start of a `.kv` mean, whichever header it has.

use vstd::arithmetic::power2::*;
use vstd::prelude::*;

use crate::bytes;
use crate::words;
use crate::words::SegModel;

verus! {

/// A file that is opened with `shift` more bytes before its body, as another version.
pub open spec fn shifted(m: SegModel, version: u8, page_values_count: u8, shift: int) -> SegModel {
    SegModel { version, page_values_count, words_start: m.words_start + shift, ..m }
}

/// What stands before the body of a `v1` file: the version, the flags, the number of
/// values in a page if the lowest flag is set, and the metadata behind its length, if the
/// file has metadata.
pub open spec fn v1_prefix(flags: u8, page: u8, meta: Option<Seq<u8>>) -> Seq<u8> {
    let fixed = if flags as int % 2 == 1 { seq![1u8, flags, page] } else { seq![1u8, flags] };
    match meta {
        Some(s) => fixed + bytes::be_bytes(s.len(), 4) + s,
        None => fixed,
    }
}

/// A file whose header ends where `body` starts holds what `body` holds.
proof fn lemma_same_body(data: Seq<u8>, has_metadata: bool, version: u8, page: u8, pre: Seq<u8>, body: Seq<u8>)
    requires
        data == pre + body,
        words::parse_header(data, has_metadata) == Some((version, page, pre.len() as int)),
        body.len() > 0 ==> body[0] != 1,
    ensures
        words::parse_seg(data, has_metadata) == match words::parse_seg(body, false) {
            Some(m) => Some(shifted(m, version, page, pre.len() as int)),
            None => None,
        },
{
    let whole = data.skip(pre.len() as int);
    let same = body.skip(0);
    assert(whole =~= body);
    assert(same =~= body);
    if body.len() == 0 {
        lemma_empty_body(whole);
    } else {
        assert(words::parse_header(body, false) == Some((body[0], 0u8, 0int)));
        lemma_seg(data, has_metadata, version, page, pre.len() as int);
        lemma_seg(body, false, body[0], 0, 0);
    }
}

proof fn lemma_empty_body(body: Seq<u8>)
    requires
        body.len() == 0,
    ensures
        words::parse_body(body) is None,
{
}

proof fn lemma_seg(data: Seq<u8>, has_metadata: bool, version: u8, page: u8, off: int)
    requires
        words::parse_header(data, has_metadata) == Some((version, page, off)),
        0 <= off <= data.len(),
    ensures
        words::parse_seg(data, has_metadata) == match words::parse_body(data.skip(off)) {
            None => None,
            Some(m) => Some(shifted(m, version, page, off)),
        },
{
}

/// A `v1` header changes nothing but the version and where the body starts: whatever the
/// other flags are, and whatever metadata there is, the file opens exactly if its body
/// opens as a `v0` file, with the same counts, dictionaries and words. The number of values
/// in a page is there only if the lowest flag is set.
pub proof fn law_v1_header(flags: u8, page: u8, meta: Option<Seq<u8>>, body: Seq<u8>)
    requires
        body.len() > 0 ==> body[0] != 1,
        meta matches Some(s) ==> s.len() < 0x1_0000_0000,
    ensures
        ({
            let pre = v1_prefix(flags, page, meta);
            words::parse_seg(pre + body, meta is Some) == match words::parse_seg(body, false) {
                Some(m) => Some(shifted(m, 1, if flags as int % 2 == 1 { page } else { 0 }, pre.len() as int)),
                None => None,
            }
        }),
{
    let pre = v1_prefix(flags, page, meta);
    let data = pre + body;
    let odd = flags as int % 2 == 1;
    let fixed: int = if odd { 3 } else { 2 };
    assert(data[0] == 1 && data[1] == flags);
    assert(odd ==> data[2] == page);
    if let Some(s) = meta {
        lemma2_to64();
        bytes::lemma_be_roundtrip(s.len(), 4);
        assert(data.subrange(fixed, fixed + 4) =~= bytes::be_bytes(s.len(), 4));
    }
    lemma_same_body(data, meta is Some, 1, if odd { page } else { 0 }, pre, body);
}

/// A file that does not start with a 1 starts with its body, or, if it has metadata, with
/// the metadata behind its length.
pub proof fn law_v0_header(meta: Seq<u8>, body: Seq<u8>)
    requires
        meta.len() < 0x100_0000,
        body.len() > 0 ==> body[0] != 1,
    ensures
        ({
            let pre = bytes::be_bytes(meta.len(), 4) + meta;
            words::parse_seg(pre + body, true) == match words::parse_seg(body, false) {
                Some(m) => Some(shifted(m, 0, 0, pre.len() as int)),
                None => None,
            }
        }),
        words::parse_seg(body, false) matches Some(m) ==> m.version == body[0] && m.page_values_count == 0,
{
    let pre = bytes::be_bytes(meta.len(), 4) + meta;
    let data = pre + body;
    lemma2_to64();
    lemma2_to64_rest();
    bytes::lemma_be_roundtrip(meta.len(), 4);
    let v = meta.len();
    assert(data[0] == bytes::byte_of(v, 3));
    assert((v / 0x100_0000) % 256 == 0);
    assert(data.subrange(0, 4) =~= bytes::be_bytes(meta.len(), 4));
    lemma_same_body(data, true, 0, 0, pre, body);
    assert(body.skip(0) =~= body);
}

/// The number that the eight bytes from `at` on spell, most significant first.
pub open spec fn number8(s: Seq<u8>, at: int) -> int {
    s[at + 7] + 0x100 * s[at + 6] + 0x1_0000 * s[at + 5] + 0x100_0000 * s[at + 4] + 0x1_0000_0000 * s[at + 3]
        + 0x100_0000_0000 * s[at + 2] + 0x1_0000_0000_0000 * s[at + 1] + 0x100_0000_0000_0000 * s[at]
}

pub proof fn lemma_number8(s: Seq<u8>, at: int)
    requires
        0 <= at,
        at + 8 <= s.len(),
    ensures
        bytes::be_value(s.subrange(at, at + 8)) == number8(s, at),
        0 <= number8(s, at) <= u64::MAX,
{
    let w = s.subrange(at, at + 8);
    reveal_with_fuel(bytes::be_value, 9);
    let t1 = w.drop_last();
    let t2 = t1.drop_last();
    let t3 = t2.drop_last();
    let t4 = t3.drop_last();
    let t5 = t4.drop_last();
    let t6 = t5.drop_last();
    let t7 = t6.drop_last();
    assert(t7.drop_last().len() == 0);
    assert(w.last() == s[at + 7] && t1.last() == s[at + 6] && t2.last() == s[at + 5] && t3.last() == s[at + 4]);
    assert(t4.last() == s[at + 3] && t5.last() == s[at + 2] && t6.last() == s[at + 1] && t7.last() == s[at]);
}

/// A file without a `v1` header starts with four numbers of eight bytes, the last behind the
/// dictionary whose length the third one is: how many words there are, how many of them are
/// empty, and the lengths of the dictionaries of patterns and of positions. The words take
/// what is left of the file.
pub proof fn law_body_layout(body: Seq<u8>)
    requires
        body.len() > 0,
        body[0] != 1,
        words::parse_seg(body, false) is Some,
    ensures
        words::parse_seg(body, false) matches Some(m) && {
            let pos = 24 + number8(body, 16);
            let start = pos + 8 + number8(body, pos);
            &&& 32 <= start <= body.len()
            &&& m.words_count == number8(body, 0)
            &&& m.empty_words_count == number8(body, 8)
            &&& m.words_start == start
            &&& m.words == body.skip(start)
            &&& m.patterns.len() == m.pattern_depths.len()
            &&& m.positions.len() == m.pos_depths.len()
            &&& (m.patterns.len() == 0) == (number8(body, 16) == 0)
            &&& (m.positions.len() == 0) == (number8(body, pos) == 0)
        },
{
    assert(body.skip(0) =~= body);
    lemma_number8(body, 0);
    lemma_number8(body, 8);
    lemma_number8(body, 16);
    let pos = 24 + number8(body, 16);
    lemma_number8(body, pos);
    let start = pos + 8 + number8(body, pos);
    words::lemma_parse_patterns(body.subrange(24, pos), 0);
    words::lemma_parse_positions(body.subrange(pos + 8, start), 0);
}

} // verus!
