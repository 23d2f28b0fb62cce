//! The building blocks: varints, hashing, Elias-Fano arrays, filters, names, limits.

use erigon_seg::bitwriter::BitWriter;
use erigon_seg::bloom::{ExistenceFilter, FilterKind};
use erigon_seg::btree::{parse_nodes, Nodes};
use erigon_seg::ef_builder::EfBuilder;
use erigon_seg::eliasfano::{select64_fallback, EliasFano};
use erigon_seg::dictionary::Dictionary;
use erigon_seg::huffman::{build_pattern_dict, build_position_dict};
use erigon_seg::kvei_writer::optimal_m;
use erigon_seg::memlock::{
    raise_memlock_limit, soft_raise, start_raise, LimitReply, LimitRequest, RaiseState, RaiseStep, Raised,
};
use erigon_seg::names::{parse_from, selects_file, step_key};
use erigon_seg::varint::{put_uvarint, uvarint};
use erigon_seg::{murmur3_x64_128_h1, salt_from_bytes, Error, FormatError, KveiBuilder};

#[test]
fn uvarint_basics() {
    assert_eq!(uvarint(&[0x00]), (0, 1));
    assert_eq!(uvarint(&[0x01]), (1, 1));
    assert_eq!(uvarint(&[0x7f]), (127, 1));
    assert_eq!(uvarint(&[0x80, 0x01]), (128, 2));
    assert_eq!(uvarint(&[0xff, 0x01]), (255, 2));
    assert_eq!(uvarint(&[0xac, 0x02]), (300, 2));
}

#[test]
fn uvarint_truncation_and_overflow() {
    // truncated (high bit set, no continuation)
    assert_eq!(uvarint(&[0x80]), (0, 0));
    // 11 continuation bytes -> overflow
    assert_eq!(uvarint(&[0x80; 11]), (0, 0));
}

#[test]
fn varints_read_back() {
    for x in [0u64, 1, 127, 128, 300, 16_383, 16_384, u32::MAX as u64, u64::MAX - 1, u64::MAX] {
        let mut b = Vec::new();
        put_uvarint(&mut b, x);
        let n = b.len();
        b.push(0x55);
        assert_eq!(uvarint(&b), (x, n));
    }
    let mut b = Vec::new();
    put_uvarint(&mut b, 300);
    assert_eq!(b, [0xac, 0x02]);
    // Ten bytes whose last does not fit in the 64th bit.
    assert_eq!(uvarint(&[0xff, 0xff, 0xff, 0xff, 0xff, 0xff, 0xff, 0xff, 0xff, 0x02]), (0, 0));
}

#[test]
fn reference_vectors() {
    assert_eq!(murmur3_x64_128_h1(b"hello", 0), 0xcbd8_a7b3_41bd_9b02);
    assert_eq!(murmur3_x64_128_h1(b"hello, world", 0), 0x342f_ac62_3a5e_bc8e);
    assert_eq!(murmur3_x64_128_h1(b"19 Jan 2038 at 3:14:07 AM", 0), 0xb89e_5988_b737_affc);
    assert_eq!(murmur3_x64_128_h1(b"hello", 1), 0xa78d_dff5_adae_8d10);
    assert_eq!(murmur3_x64_128_h1(b"hello", 0x2a), 0xc4b8_b3c9_60af_6f08);
    assert_eq!(murmur3_x64_128_h1(b"The quick brown fox jumps over the lazy dog.", 0), 0xcd99_481f_9ee9_02c9);
}

#[test]
fn empty_is_zero_and_deterministic() {
    assert_eq!(murmur3_x64_128_h1(b"", 0), 0);
    let a = murmur3_x64_128_h1(b"0123456789abcdef0123", 7);
    assert_eq!(a, murmur3_x64_128_h1(b"0123456789abcdef0123", 7));
    assert_ne!(a, murmur3_x64_128_h1(b"0123456789abcdef0123", 8));
}

#[test]
fn select64_matches_definition() {
    assert_eq!(select64_fallback(0b1011, 0), 0);
    assert_eq!(select64_fallback(0b1011, 1), 1);
    assert_eq!(select64_fallback(0b1011, 2), 3);
    assert_eq!(select64_fallback(1u64 << 63, 0), 63);
}

#[test]
fn select64_finds_every_one() {
    let mut st = 0x9E37_79B9_7F4A_7C15u64;
    for _ in 0..2000 {
        st ^= st >> 12;
        st ^= st << 25;
        st ^= st >> 27;
        let x = st.wrapping_mul(0x2545_F491_4F6C_DD1D);
        let mut k = 0;
        for b in 0..64 {
            if (x >> b) & 1 == 1 {
                assert_eq!(select64_fallback(x, k), b);
                k += 1;
            }
        }
    }
    assert_eq!(select64_fallback(u64::MAX, 63), 63);
}

fn ef_roundtrip(offsets: &[u64]) {
    let max = *offsets.last().unwrap();
    let mut b = EfBuilder::new(offsets.len() as u64, max);
    for &o in offsets {
        b.add_offset(o);
    }
    b.build();
    let mut bytes = Vec::new();
    b.write_to(&mut bytes);
    assert_eq!(bytes.len(), b.serialized_len());

    let ef = EliasFano::open(&bytes, 0).unwrap();
    assert_eq!(ef.len(), offsets.len() as u64);
    for (i, &want) in offsets.iter().enumerate() {
        assert_eq!(ef.get(i as u64), want, "EF.get({i})");
    }
}

#[test]
fn ef_builder_roundtrips_through_reader() {
    ef_roundtrip(&[0]);
    ef_roundtrip(&[0, 1, 2, 3, 4]);
    ef_roundtrip(&[5, 5, 5, 9, 100]); // duplicates allowed (non-decreasing)
    ef_roundtrip(&[0, 1_000, 2_000, 3_500, 1_000_000]);
    // A longer, irregular monotone sequence spanning multiple super-Q blocks.
    let mut v = Vec::new();
    let mut acc = 0u64;
    for i in 0..5000u64 {
        acc += 1 + (i * 2654435761) % 37;
        v.push(acc);
    }
    ef_roundtrip(&v);
}

#[test]
fn ef_sections_fit_up_to_the_longest_vector() {
    assert!(EfBuilder::fits(1, 0));
    assert!(EfBuilder::fits(1, u64::MAX - 1));
    assert!(EfBuilder::fits(1 << 27, 1 << 32));
    assert!(!EfBuilder::fits(u64::MAX, u64::MAX - 1));
    assert!(!EfBuilder::fits(1 << 63, 1 << 63));
}

#[test]
fn ef_sections_that_do_not_fit_are_refused() {
    let short = [0u8; 15];
    assert_eq!(EliasFano::open(&short, 0).err(), Some(Error::Format(FormatError::EliasFanoHeader)));
    // A header that promises more than there is.
    let mut claims = vec![0u8; 16];
    claims[6] = 1;
    claims[15] = 200;
    assert_eq!(EliasFano::open(&claims, 0).err(), Some(Error::Format(FormatError::EliasFanoData)));
    // The index behind the last element has no value.
    let mut b = EfBuilder::new(2, 7);
    b.add_offset(3);
    b.add_offset(7);
    b.build();
    let mut bytes = Vec::new();
    b.write_to(&mut bytes);
    let ef = EliasFano::open(&bytes, 0).unwrap();
    assert_eq!(ef.try_get(1), Some(7));
    assert_eq!(ef.try_get(2), None);
    assert!(!ef.is_empty());
}

#[test]
fn bits_are_packed_from_the_lowest() {
    let mut w = BitWriter::new();
    w.encode(&vec![true, false, true]);
    w.encode(&vec![false, false, true, true, false]);
    w.encode(&vec![true]);
    assert_eq!(w.finish(), [0b0110_0101, 1]);
    assert!(BitWriter::new().finish().is_empty());
}

#[test]
fn codes_are_short_for_frequent_symbols() {
    let entries = build_pattern_dict(&vec![100, 1, 1, 50]);
    let len = |s: usize| entries.iter().find(|e| e.symbol == s).unwrap().code.len();
    assert_eq!((len(0), len(3)), (1, 2));
    assert_eq!((len(1), len(2)), (3, 3));
    // No code is the start of another.
    for a in &entries {
        for b in &entries {
            assert!(a.symbol == b.symbol || !b.code.starts_with(&a.code));
        }
    }
    // A single symbol needs no bits.
    assert!(build_position_dict(&vec![(7, 9)])[0].code.is_empty());
    assert!(build_position_dict(&Vec::new()).is_empty());
}

#[test]
fn fibonacci_uses_make_the_deepest_codes() {
    let mut uses = vec![1u64, 1];
    while uses.len() < 30 {
        uses.push(uses[uses.len() - 1] + uses[uses.len() - 2]);
    }
    let entries = build_pattern_dict(&uses);
    assert_eq!(entries.iter().map(|e| e.code.len()).max(), Some(29));
    // With one use less the tree cannot be as high.
    uses[29] -= 1;
    uses[28] -= 1;
    let total: u64 = uses.iter().sum();
    let depth = build_pattern_dict(&uses).iter().map(|e| e.code.len()).max().unwrap();
    let mut fib = (1u64, 2u64);
    for _ in 0..depth {
        fib = (fib.1, fib.0 + fib.1);
    }
    assert!(fib.0 <= total);
}

#[test]
fn covers_take_the_longest_pattern() {
    let d = Dictionary::new(vec![b"ab".to_vec(), b"abc".to_vec(), b"cd".to_vec()]);
    assert_eq!(d.longest_match_at(b"xabcd", 1), Some((1, 3)));
    assert_eq!(d.longest_match_at(b"xabcd", 3), Some((2, 2)));
    assert_eq!(d.longest_match_at(b"xabcd", 0), None);
    assert_eq!(d.cover(b"xabcdabab"), [(1, 1), (5, 0), (7, 0)]);
}

#[test]
fn optimal_m_matches_real_files() {
    // (key_count, m) pairs read from real erigon .kvei headers.
    assert_eq!(optimal_m(1_079_554), 10_347_589);
    assert_eq!(optimal_m(338_868_457), 3_248_073_943);
}

#[test]
fn optimal_m_follows_the_formula() {
    let ln2 = std::f64::consts::LN_2;
    // The last ones are rounded on the way, are past 53 bits, or do not fit.
    let mut counts = vec![0u64, 1, 2, 3, 10, 100, 1_000, 5_000, 123_456, 10_000_000, 200_000_000];
    counts.extend([794_062_363_531, 1_033_364_037_675, (1 << 53) + 1, (1 << 60) - 3, 1 << 61, u64::MAX]);
    counts.extend((0..20_000u64).map(|i| i.wrapping_mul(0x9E37_79B9_7F4A_7C15) >> (i % 61)));
    for n in counts {
        let want = (-(n as f64) * (0.01f64).ln() / (ln2 * ln2)).ceil() as u64;
        assert_eq!(optimal_m(n), want, "n = {n}");
    }
}

const BLOOM_MAGIC: [u8; 12] = [0, 0, 0, 0, 0, 0, 0, 0, b'v', b'0', b'2', b'\n'];

/// Build a tiny `.kvei`, read it back, and confirm membership.
#[test]
fn bloom_roundtrip_via_file() {
    let m: u64 = 4096;
    let keys: [u64; 3] = [0x1111_2222_3333_4444, 0xaaaa_bbbb_cccc_dddd, 0xdead_beef_0bad_f00d];
    let nwords = (m as usize).div_ceil(64);
    let mut bits = vec![0u64; nwords];
    // AddHash(h): h = rotl(h,17) ^ key[n]; set bit (h % m).
    let add = |bits: &mut [u64], mut h: u64| {
        for &k in &keys {
            h = h.rotate_left(17) ^ k;
            let i = h % m;
            bits[(i >> 6) as usize] |= 1 << (i & 63);
        }
    };
    // Use real murmur3 hashes of a few keys so the test exercises the full path.
    let present_keys: [&[u8]; 3] = [b"alpha", b"bravo-key", b"0123456789abcdef0123"];
    let present: Vec<u64> = present_keys.iter().map(|k| murmur3_x64_128_h1(k, 9)).collect();
    for &h in &present {
        add(&mut bits, h);
    }
    // Serialize: magic(12) + k,n,m (LE) + keys (LE) + bits (LE) + sha384(48, ignored).
    let mut buf: Vec<u8> = Vec::new();
    buf.extend_from_slice(&BLOOM_MAGIC);
    buf.extend_from_slice(&3u64.to_le_bytes());
    buf.extend_from_slice(&(present.len() as u64).to_le_bytes());
    buf.extend_from_slice(&m.to_le_bytes());
    for k in keys {
        buf.extend_from_slice(&k.to_le_bytes());
    }
    for w in &bits {
        buf.extend_from_slice(&w.to_le_bytes());
    }
    buf.extend_from_slice(&[0u8; 48]);

    let f = ExistenceFilter::open(&buf);
    assert_eq!(f.kind(), FilterKind::Bloom);
    assert!(f.is_accelerating());
    for (k, &h) in present_keys.iter().zip(&present) {
        assert!(f.contains_hash(h), "added key {k:?} must be present");
        assert!(f.contains_hash(murmur3_x64_128_h1(k, 9)));
    }
    // A key we didn't add should (almost certainly, with this m) be reported absent.
    assert!(!f.contains_hash(murmur3_x64_128_h1(b"definitely-not-added", 9)));
}

#[test]
fn empty_and_unsupported_match_all() {
    let f = ExistenceFilter::open(&[]);
    assert_eq!(f.kind(), FilterKind::Empty);
    assert!(!f.is_accelerating());
    assert!(f.contains_hash(0xdead_beef)); // match-all

    // A non-bloom blob (looks like a fuse filter) -> Unsupported, still match-all.
    let fuse = [1u8, 2, 3, 4, 5, 6, 7, 8, 9, 10, 11, 12, 13, 14, 15, 16];
    let f = ExistenceFilter::open(&fuse);
    assert_eq!(f.kind(), FilterKind::Unsupported);
    assert!(f.contains_hash(123));
}

#[test]
fn a_built_filter_has_no_false_negatives() {
    let keys: Vec<Vec<u8>> = (0..500u32).map(|i| i.to_be_bytes().to_vec()).collect();
    let mut b = KveiBuilder::new(keys.len() as u64);
    for k in &keys {
        b.add_key(k, 42);
    }
    let bytes = b.finish();
    // magic, k, n, m, three keys, the bits, and room for a digest
    let words = optimal_m(500).div_ceil(64) as usize;
    assert_eq!(bytes.len(), 60 + 8 * words + 48);
    assert_eq!(&bytes[..12], &BLOOM_MAGIC);
    assert_eq!(&bytes[12..20], &3u64.to_le_bytes());
    assert_eq!(&bytes[20..28], &500u64.to_le_bytes());
    assert_eq!(&bytes[28..36], &optimal_m(500).to_le_bytes());
    let f = ExistenceFilter::open(&bytes);
    assert!(f.is_accelerating());
    assert_eq!(f.mapped_bytes(), bytes.len() as u64);
    for k in &keys {
        assert!(f.contains_hash(murmur3_x64_128_h1(k, 42)));
    }
    let hits = (500..2500u32).filter(|i| f.contains_hash(murmur3_x64_128_h1(&i.to_be_bytes(), 42))).count();
    assert!(hits < 200, "{hits} of 2000 absent keys hit");
    // With fewer than two keys the filter is empty.
    let mut one = KveiBuilder::new(1);
    one.add_hash(7);
    assert!(one.finish().is_empty());
}

fn nodes_from(keys: &[&[u8]]) -> Nodes {
    let mut data = vec![1u8];
    for k in keys {
        data.extend_from_slice(&(k.len() as u16).to_be_bytes());
        data.extend_from_slice(k);
    }
    let end = data.len();
    parse_nodes(&data, keys.len() as u64 * 256, 256, end).unwrap()
}

#[test]
fn prefetch_variant_matches_plain() {
    // Uniform-length keys, plus a variable-length set, plus a 1-element edge case.
    let uniform: Vec<[u8; 4]> = (0u32..500).map(|i| (i * 3).to_be_bytes()).collect();
    let uniform_refs: Vec<&[u8]> = uniform.iter().map(|k| &k[..]).collect();

    let variable: Vec<Vec<u8>> = (0u32..300)
        .map(|i| {
            let mut v = (i * 7).to_be_bytes().to_vec();
            v.truncate(2 + (i % 3) as usize);
            v.push(0xff);
            v
        })
        .collect();
    let mut variable = variable;
    variable.sort();
    variable.dedup();
    let variable_refs: Vec<&[u8]> = variable.iter().map(|k| &k[..]).collect();

    let single: Vec<&[u8]> = vec![b"mmmm"];

    for set in [&uniform_refs, &variable_refs, &single] {
        let nodes = nodes_from(set);
        // Probe every stored key, plus the gaps either side of it, plus the extremes.
        let mut probes: Vec<Vec<u8>> = Vec::new();
        for k in set.iter() {
            probes.push(k.to_vec());
            let mut lo = k.to_vec();
            let last = lo.len() - 1;
            lo[last] = lo[last].wrapping_sub(1);
            probes.push(lo);
            let mut hi = k.to_vec();
            hi.push(0);
            probes.push(hi);
        }
        probes.push(Vec::new());
        probes.push(vec![0u8]);
        probes.push(vec![0xffu8; 8]);

        for p in &probes {
            let above = set.iter().filter(|k| **k <= p.as_slice()).count();
            assert_eq!(nodes.upper_bound(p), above, "upper_bound disagrees for {p:02x?}");
            let range = if above == 0 { (0, 0) } else { ((above as u64 - 1) * 256, above as u64 * 256) };
            assert_eq!(nodes.narrow(p), range, "narrow disagrees for {p:02x?}");
        }
    }
}

#[test]
fn nodes_take_little_memory() {
    let uniform = nodes_from(&[b"aaaa", b"bbbb", b"cccc"]);
    assert_eq!(uniform.heap_bytes(), 12);
    let mixed = nodes_from(&[b"a", b"bb", b"ccc"]);
    assert_eq!(mixed.heap_bytes(), 6 + 12);
    assert_eq!(mixed.key(2), b"ccc");
    assert_eq!((mixed.len(), mixed.m(), mixed.is_empty()), (3, 256, false));
    // A key that reaches past the section, and an empty index, have no nodes.
    assert!(parse_nodes(&[1, 0, 9, 1, 2], 1, 256, 5).is_none());
    assert!(parse_nodes(&[1, 0, 1, 7], 0, 256, 4).is_none());
}

#[test]
fn step_key_parses_range() {
    assert_eq!(step_key(b"v1.1-accounts.0-1024.kv"), (0, 1024));
    assert_eq!(step_key(b"v1.1-accounts.1024-2048.kv"), (1024, 2048));
    // No range segment -> sorts first.
    assert_eq!(step_key(b"accounts.kv"), (0, 0));
}

#[test]
fn ranges_are_two_numbers() {
    assert_eq!(parse_from(b"x.+7-008.kv"), Some(7));
    assert_eq!(parse_from(b"x.7-.kv"), None);
    assert_eq!(parse_from(b"x.-7.kv"), None);
    assert_eq!(parse_from(b"x.1-2-3.kv"), None);
    assert_eq!(parse_from(b"x.18446744073709551615-18446744073709551615.kv"), Some(u64::MAX));
    assert_eq!(parse_from(b"x.18446744073709551616-1.kv"), None);
    assert_eq!(parse_from(b"5-6"), Some(5));
    assert_eq!(parse_from(b"a.1-2.3-4.kv"), Some(1));
    assert_eq!(parse_from(b""), None);
}

#[test]
fn stacks_take_the_files_of_one_domain() {
    assert!(selects_file(b"v1.1-accounts.0-1024.kv", b"accounts"));
    assert!(!selects_file(b"v1.1-storage.0-1024.kv", b"accounts"));
    assert!(!selects_file(b"v1.1-accounts.0-1024.kvei", b"accounts"));
    assert!(selects_file(b"a.kv", b""));
    assert!(selects_file(b"a.kv", b".kv"));
    assert!(!selects_file(b".kv", b""));
    assert!(!selects_file(b"kv", b""));
}

#[test]
fn salts_are_big_endian() {
    assert_eq!(salt_from_bytes(&[0x12, 0x34, 0x56, 0x78]), Some(0x1234_5678));
    assert_eq!(salt_from_bytes(&[0xff, 0, 0, 1, 9, 9]), Some(0xff00_0001));
    assert_eq!(salt_from_bytes(&[1, 2, 3]), None);
}

#[test]
fn the_soft_limit_is_raised_to_the_hard_one() {
    assert_eq!(soft_raise(Some((10, 20))), Some((20, 20)));
    assert_eq!(soft_raise(Some((20, 20))), None);
    assert_eq!(soft_raise(None), None);
}

/// Run the raising of limits against a system that starts with `limits`.
fn raise(want: u64, limits: (u64, u64), privileged: bool) -> (Raised, (u64, u64)) {
    let (mut soft, mut hard) = limits;
    let mut step = start_raise(want);
    for _ in 0..5 {
        match step {
            RaiseStep::Done { raised } => return (raised, (soft, hard)),
            RaiseStep::Ask { request, state } => {
                let reply = match request {
                    LimitRequest::Read => LimitReply::Limits { soft, hard },
                    LimitRequest::Write { soft: s, hard: h } => {
                        if h > hard && !privileged {
                            LimitReply::Refused
                        } else {
                            soft = s;
                            hard = h;
                            LimitReply::Granted
                        }
                    }
                };
                step = raise_memlock_limit(state, reply);
            }
        }
    }
    panic!("raising did not end")
}

#[test]
fn limits_are_raised_as_far_as_permitted() {
    assert_eq!(raise(u64::MAX, (8, 64), false), (Raised::Limits { soft: 64, hard: 64 }, (64, 64)));
    assert_eq!(raise(128, (8, 64), true), (Raised::Limits { soft: 128, hard: 128 }, (128, 128)));
    assert_eq!(raise(10, (8, 64), true), (Raised::Limits { soft: 64, hard: 64 }, (64, 64)));
}

#[test]
fn unreadable_limits_end_the_raising() {
    let done = |raised| RaiseStep::Done { raised };
    let refused = LimitReply::Refused;
    assert_eq!(raise_memlock_limit(RaiseState::Reading { want: 1 }, refused), done(Raised::Unsupported));
    assert_eq!(raise_memlock_limit(RaiseState::RaisingSoft { want: 1, hard: 2 }, refused), done(Raised::NotSet));
    assert_eq!(raise_memlock_limit(RaiseState::Confirming, refused), done(Raised::Unreadable));
}
