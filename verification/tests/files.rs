//! Whole files: written, opened, looked up, iterated, stacked and merged.

use erigon_seg::{
    build_bt, build_kvei, build_kvei_from_seg, merge, murmur3_x64_128_h1, BtLayout, BtOptions, BtreeIndex,
    DomainFiles, DomainOptions, DomainWriter, Error, ExistenceFilter, FormatError, KvReader, KvStack, KveiBuilder,
    MergeInput, MergeOptions, OpenOptions, Salt, Seg, SegWriter,
};

type Pairs = Vec<(Vec<u8>, Vec<u8>)>;

/// Write `words`, read them back, and assert equality.
fn seg_roundtrip(words: &[Vec<u8>]) {
    for compress in [false, true] {
        let mut w = SegWriter::create_with(compress);
        for word in words {
            w.add_word(word).unwrap();
        }
        assert_eq!(w.words_count(), words.len() as u64);
        let bytes = w.finish();

        let seg = Seg::open(&bytes).unwrap();
        assert_eq!(seg.version(), 0);
        assert_eq!(seg.page_values_count(), 0);
        assert_eq!(seg.words_count(), words.len() as u64);
        assert_eq!(seg.empty_words_count(), words.iter().filter(|w| w.is_empty()).count() as u64);
        assert_eq!(seg.len(), bytes.len());
        let mut g = seg.getter();
        for (i, want) in words.iter().enumerate() {
            assert!(g.has_next(), "ran out of words at {i}");
            let at = g.offset();
            assert_eq!(&g.next(), want, "word {i} mismatch");
            let after = g.offset();
            g.reset(at);
            assert_eq!(g.skip(), want.len() as u64);
            assert_eq!(g.offset(), after);
        }
        assert!(!g.has_next(), "extra words after {}", words.len());
    }
}

#[test]
fn seg_writer_roundtrips_through_reader() {
    // Empty file.
    seg_roundtrip(&[]);
    // Single word.
    seg_roundtrip(&[b"hello".to_vec()]);
    // Mixed: empty words, varied lengths, repeats.
    seg_roundtrip(&[
        b"".to_vec(),
        b"a".to_vec(),
        b"".to_vec(),
        b"the quick brown fox".to_vec(),
        vec![0u8; 300],
        b"the quick brown fox".to_vec(),
        (0..=255u8).collect(),
    ]);
    // Many words exercising a larger position dictionary.
    let many: Vec<Vec<u8>> = (0..2000u32).map(|i| vec![(i % 251) as u8; (i % 64) as usize]).collect();
    seg_roundtrip(&many);
}

#[test]
fn compression_shrinks_repetitive_words() {
    let words: Vec<Vec<u8>> = (0..400u32).map(|i| format!("a rather long common prefix {}", i % 7).into_bytes()).collect();
    let size = |compress: bool| {
        let mut w = SegWriter::create_with(compress);
        for word in &words {
            w.add_word(word).unwrap();
        }
        w.finish().len()
    };
    assert!(2 * size(true) < size(false));
    seg_roundtrip(&words);
}

#[test]
fn a_file_of_two_words_has_these_bytes() {
    let mut w = SegWriter::create();
    w.add_word(b"ab").unwrap();
    w.add_word(b"").unwrap();
    let bytes = w.finish();
    assert_eq!(&bytes[..8], &2u64.to_be_bytes());
    assert_eq!(&bytes[8..16], &1u64.to_be_bytes());
    // No patterns.
    assert_eq!(&bytes[16..24], &0u64.to_be_bytes());
    // Three positions, a depth and a value each.
    assert_eq!(&bytes[24..32], &6u64.to_be_bytes());
    assert_eq!(Seg::open(&bytes).unwrap().getter().next(), b"ab");
}

#[test]
fn headers_come_before_the_words() {
    let mut w = SegWriter::create();
    w.add_word(b"k").unwrap();
    w.add_word(b"v").unwrap();
    let body = w.finish();

    let mut plain = vec![1u8, 0];
    plain.extend_from_slice(&body);
    let seg = Seg::open(&plain).unwrap();
    assert_eq!((seg.version(), seg.page_values_count()), (1, 0));
    assert_eq!(seg.getter().next(), b"k");

    let mut paged = vec![1u8, 1, 9];
    paged.extend_from_slice(&body);
    let seg = Seg::open(&paged).unwrap();
    assert_eq!((seg.version(), seg.page_values_count()), (1, 9));
    assert_eq!(seg.getter().next(), b"k");

    let mut meta = vec![1u8, 0, 0, 0, 0, 3, 7, 7, 7];
    meta.extend_from_slice(&body);
    let seg = Seg::open_with(&meta, OpenOptions { has_metadata: true }).unwrap();
    assert_eq!(seg.getter().next(), b"k");
}

#[test]
fn broken_data_files_are_refused() {
    let invalid = Some(Error::Format(FormatError::InvalidKv));
    assert_eq!(Seg::open(&[]).err(), invalid);
    assert_eq!(Seg::open(&[0u8; 31]).err(), invalid);
    // A dictionary that reaches past the file.
    let mut long = vec![0u8; 40];
    long[23] = 200;
    assert_eq!(Seg::open(&long).err(), invalid);
    // A code deeper than is allowed.
    let mut deep = vec![0u8; 34];
    deep[31] = 2;
    deep[32] = 51;
    deep[33] = 1;
    assert_eq!(Seg::open(&deep).err(), invalid);
    // No dictionary but words: nothing can be read.
    let mut bare = vec![0u8; 33];
    bare[7] = 2;
    let seg = Seg::open(&bare).unwrap();
    let mut g = seg.getter();
    assert_eq!(g.try_next(), None);
    assert_eq!(g.try_skip(), None);
    assert_eq!(g.offset(), 0);
    let r = KvReader::open(b"x".to_vec(), &bare, None, None).unwrap();
    assert_eq!(r.get(b"k").err(), Some(Error::Format(FormatError::BadWord)));
    assert_eq!(r.iter().next().unwrap().err(), Some(Error::Format(FormatError::BadWord)));
}

fn write_kv(pairs: &[(Vec<u8>, Vec<u8>)]) -> Vec<u8> {
    let mut w = SegWriter::create();
    for (k, v) in pairs {
        w.add_word(k).unwrap();
        w.add_word(v).unwrap();
    }
    w.finish()
}

fn bt_check(layout: BtLayout) {
    let pairs: Pairs = (0..1000u32)
        .map(|i| (format!("key{i:08}").into_bytes(), format!("val-{i}").into_bytes()))
        .collect();
    // Keys are already sorted lexicographically by the zero-padded format.
    let kv = write_kv(&pairs);
    let bt = build_bt(&kv, BtOptions { layout, m: 32 }).unwrap();

    // Direct index check: each key_offset(i) decompresses to key[i].
    let seg = Seg::open(&kv).unwrap();
    let idx = BtreeIndex::open(&bt).unwrap();
    assert_eq!(idx.key_count(), pairs.len() as u64);
    let mut g = seg.getter();
    for (i, (k, _)) in pairs.iter().enumerate() {
        g.reset(idx.key_offset(i as u64).unwrap());
        assert_eq!(&g.next(), k, "key_offset({i}) mismatch ({layout:?})");
    }
    if layout == BtLayout::Footer {
        assert_eq!(idx.m(), Some(32));
    }

    // End-to-end through KvReader.get on every key + a few misses.
    let r = KvReader::open(b"bt.kv".to_vec(), &kv, Some(&bt), None).unwrap();
    for (k, v) in &pairs {
        assert_eq!(r.get(k).unwrap().as_deref(), Some(v.as_slice()), "get {k:?} ({layout:?})");
    }
    assert!(r.get(b"key99999999").unwrap().is_none());
    assert!(r.get(b"aaa").unwrap().is_none());
}

#[test]
fn bt_writer_both_layouts() {
    bt_check(BtLayout::Legacy);
    bt_check(BtLayout::Footer);
}

#[test]
fn broken_indexes_are_refused() {
    let kv = write_kv(&[(b"a".to_vec(), b"1".to_vec()), (b"b".to_vec(), b"2".to_vec())]);
    let bt = build_bt(&kv, BtOptions::default()).unwrap();
    let err = |b: &[u8]| match BtreeIndex::open(b) {
        Err(Error::Format(e)) => Some(e),
        _ => None,
    };
    let n = bt.len();
    assert_eq!(err(&bt), None);
    // Cut short, the magic is gone.
    assert_eq!(err(&bt[..n - 1]), Some(FormatError::FooterMissing));
    let change = |at: usize, v: u8| {
        let mut b = bt.clone();
        b[at] = v;
        b
    };
    // The anchor: footer length, then two versions, then the magic.
    assert_eq!(
        err(&change(n - 13, 23)),
        Some(FormatError::FooterLength { footer_len: 23, file: n as u64 })
    );
    // The footer: key count, fanout, offset of the Elias-Fano section.
    assert_eq!(err(&change(n - 33, 3)), Some(FormatError::FooterKeys { found: 2, footer: 3 }));
    let body = (n - 40) as u64;
    assert_eq!(
        err(&change(n - 20, 1)),
        Some(FormatError::FooterOffset { ef_offset: (1 << 24) + 4096, body })
    );
    // An empty index has no keys.
    let empty = BtreeIndex::open(&[]).unwrap();
    assert_eq!(empty.key_count(), 0);
    assert_eq!(empty.key_offset(0), None);
    assert_eq!(empty.narrow(b"k"), (0, 0));
    assert!(empty.elias_fano().is_none());
}

#[test]
fn long_keys_cannot_be_nodes() {
    let kv = write_kv(&[(vec![7u8; 70_000], b"v".to_vec())]);
    assert_eq!(build_bt(&kv, BtOptions::default()).err(), Some(Error::Format(FormatError::KeyTooLong)));
    let bt = build_bt(&kv, BtOptions { layout: BtLayout::Legacy, m: 256 }).unwrap();
    let r = KvReader::open(b"x".to_vec(), &kv, Some(&bt), None).unwrap();
    assert_eq!(r.get(&vec![7u8; 70_000]).unwrap().as_deref(), Some(&b"v"[..]));
}

#[test]
fn kvei_writer_roundtrips_and_accelerates() {
    let salt = 12_345u32; // small so the find_salt brute-force below stays fast
    let pairs: Pairs = (0..5000u32)
        .map(|i| (format!("addr{i:010}").into_bytes(), vec![(i % 255) as u8; 12]))
        .collect();
    let kv = write_kv(&pairs);
    let bt = build_bt(&kv, BtOptions::default()).unwrap();
    let seg = Seg::open(&kv).unwrap();
    let kvei = build_kvei_from_seg(&seg, salt).unwrap();

    // No false negatives: every real key must be reported present.
    let f = ExistenceFilter::open(&kvei);
    assert!(f.is_accelerating());
    for (k, _) in &pairs {
        assert!(f.contains_hash(murmur3_x64_128_h1(k, salt)), "false negative for {k:?}");
    }

    // End-to-end: KvReader enables the bloom (self-validates) and lookups stay correct.
    let mut r = KvReader::open(b"kvei.kv".to_vec(), &kv, Some(&bt), Some(&kvei)).unwrap();
    assert!(r.enable_bloom(Salt::Known(salt)));
    assert_eq!(r.salt(), Some(salt));
    for (k, v) in pairs.iter().step_by(53) {
        assert_eq!(r.get(k).unwrap().as_deref(), Some(v.as_slice()));
    }
    assert!(r.get(b"addr9999999999").unwrap().is_none());

    // find_salt should also recover our salt from the generated filter.
    assert_eq!(r.find_salt(8), Some(salt));
}

fn domain(pairs: &[(Vec<u8>, Vec<u8>)], salt: Option<u32>, compress: bool) -> DomainFiles {
    let mut w = DomainWriter::create(DomainOptions { bt: BtOptions::default(), salt, compress });
    for (k, v) in pairs {
        w.add(k, v).unwrap();
    }
    assert_eq!(w.key_count(), pairs.len() as u64);
    w.finish().unwrap()
}

fn open_named<'a>(name: &str, f: &'a DomainFiles) -> KvReader<'a> {
    KvReader::open(name.as_bytes().to_vec(), &f.kv, Some(&f.bt), f.kvei.as_deref()).unwrap()
}

fn counted(n: u32) -> Pairs {
    (0..n).map(|i| ((2 * i).to_be_bytes().to_vec(), format!("v{i}").into_bytes())).collect()
}

#[test]
fn a_domain_reads_back_in_every_way() {
    let pairs = counted(300);
    for compress in [false, true] {
        let f = domain(&pairs, Some(77), compress);
        let kvei = f.kvei.as_deref();
        for (bt, kvei, enable) in [
            (None, None, false),
            (Some(f.bt.as_slice()), None, false),
            (None, kvei, true),
            (Some(f.bt.as_slice()), kvei, true),
        ] {
            let mut r = KvReader::open(b"d.0-1.kv".to_vec(), &f.kv, bt, kvei).unwrap();
            assert_eq!(r.enable_bloom(Salt::Known(77)), enable);
            assert_eq!(r.bloom_active(), enable);
            assert_eq!(r.key_count(), 300);
            for (k, v) in &pairs {
                assert_eq!(r.get(k).unwrap().as_ref(), Some(v));
            }
            for i in 0..300u32 {
                assert_eq!(r.get(&(2 * i + 1).to_be_bytes()).unwrap(), None);
            }
            let mut it = r.iter();
            for (k, v) in &pairs {
                assert_eq!(it.next().unwrap().unwrap(), (k.clone(), v.clone()));
            }
            assert!(it.next().is_none());
        }
    }
}

#[test]
fn an_empty_domain_is_empty() {
    let f = domain(&[], Some(3), false);
    assert!(f.bt.is_empty());
    assert_eq!(f.kvei.as_deref(), Some(&[][..]));
    let mut r = open_named("d", &f);
    assert_eq!(r.key_count(), 0);
    assert_eq!(r.get(b"k").unwrap(), None);
    assert!(!r.enable_bloom(Salt::Known(3)));
    assert!(r.iter().next().is_none());
}

#[test]
fn keys_must_increase() {
    let mut w = DomainWriter::create(DomainOptions::default());
    w.add(b"b", b"1").unwrap();
    let order = Err(Error::Format(FormatError::KeyOrder));
    assert_eq!(w.add(b"b", b"2"), order);
    assert_eq!(w.add(b"a", b"2"), order);
    assert_eq!(w.add(b"", b"2"), order);
    assert_eq!(w.key_count(), 1);
    w.add(b"ba", b"3").unwrap();
    let f = w.finish().unwrap();
    assert!(f.kvei.is_none());
    let r = open_named("d", &f);
    assert_eq!(r.get(b"b").unwrap().as_deref(), Some(&b"1"[..]));
    assert_eq!(r.get(b"ba").unwrap().as_deref(), Some(&b"3"[..]));
}

#[test]
fn wrong_salts_are_turned_down() {
    let f = domain(&counted(200), Some(5), false);
    let mut r = open_named("d", &f);
    assert!(!r.enable_bloom(Salt::Off));
    assert!(!r.enable_bloom(Salt::Known(6)));
    assert!(!r.bloom_active());
    assert!(r.enable_bloom(Salt::Find(4)));
    assert_eq!(r.salt(), Some(5));
    assert_eq!(r.find_salt(1), Some(5));
    assert_eq!(r.sample_keys(3).unwrap().len(), 3);
    // A filter of an unknown kind finds none.
    let other = [9u8; 100];
    let mut r = KvReader::open(b"d".to_vec(), &f.kv, Some(&f.bt), Some(&other)).unwrap();
    assert!(!r.enable_bloom(Salt::Known(5)));
    assert_eq!(r.find_salt(1), None);
    assert_eq!(r.get(&2u32.to_be_bytes()).unwrap().as_deref(), Some(&b"v1"[..]));
}

/// A filter for `pairs` under salt 5, in which all but the last key hit under salt 6 too.
fn misleading_filter(pairs: &[(Vec<u8>, Vec<u8>)]) -> Vec<u8> {
    let mut b = KveiBuilder::new(2 * pairs.len() as u64);
    for (k, _) in pairs {
        b.add_key(k, 5);
    }
    for (k, _) in &pairs[..pairs.len() - 1] {
        b.add_key(k, 6);
    }
    b.finish()
}

#[test]
fn a_salt_that_would_hide_a_key_is_refused() {
    for n in [2u32, 65, 500] {
        let pairs = counted(n);
        let f = domain(&pairs, None, false);
        let kvei = misleading_filter(&pairs);
        let last = &pairs[pairs.len() - 1];
        let filter = ExistenceFilter::open(&kvei);
        assert!(!filter.contains_hash(murmur3_x64_128_h1(&last.0, 6)));
        for bt in [None, Some(f.bt.as_slice())] {
            let mut r = KvReader::open(b"x.0-1.kv".to_vec(), &f.kv, bt, Some(&kvei)).unwrap();
            assert!(!r.enable_bloom(Salt::Known(6)));
            assert_eq!(r.salt(), None);
            assert_eq!(r.get(&last.0).unwrap().as_ref(), Some(&last.1));
            assert!(r.enable_bloom(Salt::Known(5)));
            // A salt in use stays when another is refused.
            assert!(!r.enable_bloom(Salt::Known(6)));
            assert_eq!(r.salt(), Some(5));
            for (k, v) in &pairs {
                assert_eq!(r.get(k).unwrap().as_ref(), Some(v));
            }
        }
        let r = KvReader::open(b"x.0-1.kv".to_vec(), &f.kv, Some(&f.bt), Some(&kvei)).unwrap();
        let s = KvStack::open(vec![r], Salt::Known(6)).unwrap();
        assert_eq!(s.bloom_count(), 0);
        for (k, v) in &pairs {
            assert_eq!(s.get(k).unwrap().as_ref(), Some(v));
        }
    }
}

#[test]
fn damage_that_no_sample_meets_does_not_refuse_a_salt() {
    let pairs = counted(1000);
    let f = domain(&pairs, Some(5), false);
    // The last word is cut short.
    let kv = &f.kv[..f.kv.len() - 1];
    for bt in [None, Some(f.bt.as_slice())] {
        let mut r = KvReader::open(b"d".to_vec(), kv, bt, f.kvei.as_deref()).unwrap();
        assert!(r.get(&pairs[999].0).is_err());
        assert!(!r.enable_bloom(Salt::Known(6)));
        assert!(r.enable_bloom(Salt::Known(5)));
        assert_eq!(r.get(&pairs[998].0).unwrap().as_ref(), Some(&pairs[998].1));
    }
    // A wrong salt that hides a key before the damage is refused all the same.
    let kvei = misleading_filter(&pairs[..999]);
    let mut r = KvReader::open(b"d".to_vec(), kv, Some(&f.bt), Some(&kvei)).unwrap();
    assert!(!r.enable_bloom(Salt::Known(6)));
    assert_eq!(r.get(&pairs[998].0).unwrap().as_ref(), Some(&pairs[998].1));
}

#[test]
fn an_index_without_keys_validates_no_salt() {
    let f = domain(&counted(100), Some(5), false);
    let mut r = KvReader::open(b"d".to_vec(), &f.kv, Some(&[]), f.kvei.as_deref()).unwrap();
    assert_eq!(r.key_count(), 0);
    assert!(!r.enable_bloom(Salt::Known(5)));
    assert!(!r.enable_bloom(Salt::Find(1)));
}

#[test]
fn samples_are_keys_of_the_file() {
    let pairs = counted(1000);
    let keys: Vec<&Vec<u8>> = pairs.iter().map(|(k, _)| k).collect();
    let f = domain(&pairs, Some(5), false);
    let indexed = open_named("d", &f);
    let samples = indexed.sample_keys(64).unwrap();
    assert_eq!(samples.len(), 64);
    assert_eq!(&samples[1], keys[1000 / 64]);
    assert!(samples.iter().all(|s| keys.contains(&s)));
    let bare = KvReader::open(b"d".to_vec(), &f.kv, None, None).unwrap();
    assert_eq!(bare.sample_keys(3).unwrap(), [keys[0].clone(), keys[1].clone(), keys[2].clone()]);
    assert_eq!(bare.sample_keys(5000).unwrap().len(), 1000);
    assert_eq!(indexed.sample_keys(5000).unwrap().len(), 1000);
}

#[test]
fn a_salt_found_for_few_keys_loses_none() {
    // With so few keys a smaller salt than the right one may validate; no key is lost.
    let pairs = counted(3);
    let f = domain(&pairs, Some(1_000_000), false);
    let mut r = open_named("d", &f);
    assert!(r.enable_bloom(Salt::Find(1)));
    assert!(r.salt().unwrap() <= 1_000_000);
    for (k, v) in &pairs {
        assert_eq!(r.get(k).unwrap().as_ref(), Some(v));
    }
}

#[test]
fn sizes_of_a_stack_add_up() {
    let a = domain(&counted(100), Some(9), false);
    let b = domain(&counted(50), Some(9), false);
    let len = |f: &DomainFiles| (f.kv.len() as u64, f.bt.len() as u64, f.kvei.as_ref().unwrap().len() as u64);
    let (ka, ba, fa) = len(&a);
    let (kb, bb, fb) = len(&b);
    let readers = || vec![open_named("x.0-1.kv", &a), open_named("x.1-2.kv", &b)];
    let off = KvStack::open(readers(), Salt::Off).unwrap();
    assert_eq!((off.index_bytes(), off.total_bytes()), (ba + bb, ka + kb + ba + bb));
    let on = KvStack::open(readers(), Salt::Known(9)).unwrap();
    assert_eq!(on.index_bytes(), ba + bb + fa + fb);
    assert_eq!(on.total_bytes(), ka + kb + ba + bb + fa + fb);
}

#[test]
fn index_bytes_count_the_filter_once_it_is_active() {
    let f = domain(&counted(2000), Some(1234), true);
    let mut r = open_named("d", &f);
    let (kv, bt, kvei) = (f.kv.len() as u64, f.bt.len() as u64, f.kvei.as_ref().unwrap().len() as u64);
    assert!(kvei > 0);
    assert_eq!(r.index_bytes(), bt);
    assert_eq!(r.total_bytes(), kv + bt);
    assert!(r.enable_bloom(Salt::Known(1234)));
    assert_eq!(r.index_bytes(), bt + kvei);
    assert_eq!(r.total_bytes(), kv + bt + kvei);
}

#[test]
fn a_file_without_its_last_value_ends_in_an_empty_one() {
    let mut w = SegWriter::create();
    for word in [&b"a"[..], b"1", b"b"] {
        w.add_word(word).unwrap();
    }
    let kv = w.finish();
    let r = KvReader::open(b"d".to_vec(), &kv, None, None).unwrap();
    assert_eq!(r.get(b"b").unwrap(), Some(Vec::new()));
    assert_eq!(r.get(b"c").unwrap(), None);
    let mut it = r.iter();
    assert_eq!(it.next().unwrap().unwrap(), (b"a".to_vec(), b"1".to_vec()));
    assert_eq!(it.next().unwrap().unwrap(), (b"b".to_vec(), Vec::new()));
    assert!(it.next().is_none());
}

// ------------------------------------------------------------------ stacks

fn pair(k: &str, v: &str) -> (Vec<u8>, Vec<u8>) {
    (k.as_bytes().to_vec(), v.as_bytes().to_vec())
}

#[test]
fn empty_open_errors() {
    let empty: Vec<KvReader> = Vec::new();
    assert!(KvStack::open(empty, Salt::Off).is_err());
}

#[test]
fn an_empty_stack_is_refused_as_such() {
    let none: Vec<KvReader> = Vec::new();
    assert_eq!(KvStack::open(none, Salt::Off).err(), Some(Error::Format(FormatError::NoFiles)));
}

#[test]
fn the_newest_file_wins() {
    let old = domain(&[pair("a", "old-a"), pair("b", "old-b"), pair("c", "old-c")], Some(9), false);
    let mid = domain(&[pair("b", "mid-b"), pair("d", "mid-d")], Some(9), true);
    let new = domain(&[pair("c", ""), pair("e", "new-e")], Some(9), false);
    for salt in [Salt::Off, Salt::Known(9), Salt::Find(2), Salt::Known(1)] {
        let readers = vec![
            open_named("x.1024-2048.kv", &mid),
            open_named("x.2048-2050.kv", &new),
            open_named("x.0-1024.kv", &old),
        ];
        let s = KvStack::open(readers, salt).unwrap();
        assert_eq!((s.len(), s.is_empty()), (3, false));
        let names: Vec<(Vec<u8>, u64)> = s.files();
        assert_eq!(
            names,
            [(b"x.0-1024.kv".to_vec(), 3), (b"x.1024-2048.kv".to_vec(), 2), (b"x.2048-2050.kv".to_vec(), 2)]
        );
        assert_eq!(s.readers()[2].name(), b"x.2048-2050.kv");
        let get = |k: &str| s.get(k.as_bytes()).unwrap().map(|v| String::from_utf8(v).unwrap());
        assert_eq!(get("a").as_deref(), Some("old-a"));
        assert_eq!(get("b").as_deref(), Some("mid-b"));
        assert_eq!(get("c").as_deref(), Some(""));
        assert_eq!(get("d").as_deref(), Some("mid-d"));
        assert_eq!(get("e").as_deref(), Some("new-e"));
        assert_eq!(get("f"), None);
    }
}

#[test]
fn files_may_be_given_in_any_order() {
    let a = domain(&[pair("k", "a"), pair("x", "1")], Some(3), false);
    let b = domain(&[pair("k", "b"), pair("y", "2")], Some(3), false);
    let c = domain(&[pair("k", "c"), pair("z", "3")], Some(3), false);
    // Of two files with the same first step the one with the higher last step is newer.
    let named = [("x.0-64.kv", &a), ("x.64-80.kv", &b), ("x.64-128.kv", &c)];
    for order in [[0, 1, 2], [0, 2, 1], [1, 0, 2], [1, 2, 0], [2, 0, 1], [2, 1, 0]] {
        for salt in [Salt::Off, Salt::Known(3), Salt::Known(4), Salt::Find(1)] {
            let readers = order.iter().map(|&i| open_named(named[i].0, named[i].1)).collect();
            let s = KvStack::open(readers, salt).unwrap();
            let names: Vec<Vec<u8>> = s.files().into_iter().map(|(n, _)| n).collect();
            assert_eq!(names, [b"x.0-64.kv".to_vec(), b"x.64-80.kv".to_vec(), b"x.64-128.kv".to_vec()]);
            assert_eq!(s.get(b"k").unwrap().as_deref(), Some(&b"c"[..]));
            assert_eq!(s.get(b"x").unwrap().as_deref(), Some(&b"1"[..]));
            assert_eq!(s.get(b"y").unwrap().as_deref(), Some(&b"2"[..]));
        }
    }
}

#[test]
fn one_salt_serves_the_stack() {
    let a = domain(&counted(100), Some(9), false);
    let b = domain(&counted(150), Some(9), false);
    let c = domain(&counted(120), Some(8), false);
    let readers = || vec![open_named("x.0-1.kv", &a), open_named("x.1-2.kv", &b), open_named("x.2-3.kv", &c)];
    let s = KvStack::open(readers(), Salt::Known(9)).unwrap();
    assert_eq!(s.salt(), Some(9));
    assert_eq!(s.bloom_count(), 2);
    let s = KvStack::open(readers(), Salt::Find(1)).unwrap();
    assert_eq!(s.salt(), Some(9));
    let s = KvStack::open(readers(), Salt::Off).unwrap();
    assert_eq!((s.salt(), s.bloom_count()), (None, 0));
}

#[test]
fn files_of_one_range_keep_their_order() {
    let a = domain(&[pair("k", "first")], None, false);
    let b = domain(&[pair("k", "second")], None, false);
    let s = KvStack::open(vec![open_named("p.kv", &a), open_named("q.kv", &b)], Salt::Off).unwrap();
    assert_eq!(s.get(b"k").unwrap().as_deref(), Some(&b"second"[..]));
    let s = KvStack::open(vec![open_named("q.kv", &b), open_named("p.kv", &a)], Salt::Off).unwrap();
    assert_eq!(s.get(b"k").unwrap().as_deref(), Some(&b"first"[..]));
}

// ------------------------------------------------------------------ merges

fn pairs_of(f: &DomainFiles) -> Vec<(String, String)> {
    let r = open_named("m", f);
    let mut it = r.iter();
    let mut out = Vec::new();
    while let Some(p) = it.next() {
        let (k, v) = p.unwrap();
        out.push((String::from_utf8(k).unwrap(), String::from_utf8(v).unwrap()));
    }
    out
}

fn strings(pairs: &[(&str, &str)]) -> Vec<(String, String)> {
    pairs.iter().map(|(k, v)| (k.to_string(), v.to_string())).collect()
}

#[test]
fn merging_takes_the_newest_value() {
    let old = domain(&[pair("a", "1"), pair("b", "1"), pair("d", "1")], None, false);
    let new = domain(&[pair("b", "2"), pair("c", "2"), pair("d", "")], None, true);
    let inputs = vec![
        MergeInput { name: b"x.64-128.kv", kv: &new.kv },
        MergeInput { name: b"x.0-64.kv", kv: &old.kv },
    ];
    // From step zero an empty value is a deletion.
    let f = merge(&inputs, b"x.0-128.kv", MergeOptions::default()).unwrap();
    assert_eq!(pairs_of(&f), strings(&[("a", "1"), ("b", "2"), ("c", "2")]));
    // Later it is a value.
    let f = merge(&inputs, b"x.64-128.kv", MergeOptions::default()).unwrap();
    assert_eq!(pairs_of(&f), strings(&[("a", "1"), ("b", "2"), ("c", "2"), ("d", "")]));
    // So it is if the range is unknown, or if it shall be kept.
    let f = merge(&inputs, b"out.kv", MergeOptions::default()).unwrap();
    assert_eq!(pairs_of(&f).len(), 4);
    let keep = MergeOptions { drop_deleted: false, ..MergeOptions::default() };
    assert_eq!(pairs_of(&merge(&inputs, b"x.0-128.kv", keep).unwrap()).len(), 4);
    // The range can be given.
    let given = MergeOptions { range_from: Some(0), ..MergeOptions::default() };
    assert_eq!(pairs_of(&merge(&inputs, b"out.kv", given).unwrap()).len(), 3);
    let later = MergeOptions { range_from: Some(1), ..MergeOptions::default() };
    assert_eq!(pairs_of(&merge(&inputs, b"x.0-128.kv", later).unwrap()).len(), 4);
}

#[test]
fn a_merge_answers_as_the_stack_did() {
    let mut files = Vec::new();
    for i in 0..4u32 {
        let pairs: Pairs = (0..200u32)
            .filter(|k| k % (i + 2) == 0)
            .map(|k| (k.to_be_bytes().to_vec(), format!("{i}:{k}").into_bytes()))
            .collect();
        files.push((format!("x.{i}-{}.kv", i + 1), domain(&pairs, None, i % 2 == 0)));
    }
    let inputs: Vec<MergeInput> =
        files.iter().rev().map(|(n, f)| MergeInput { name: n.as_bytes(), kv: &f.kv }).collect();
    let opts = MergeOptions {
        domain: DomainOptions { salt: Some(11), compress: true, ..DomainOptions::default() },
        ..MergeOptions::default()
    };
    let merged = merge(&inputs, b"x.0-4.kv", opts).unwrap();
    let mut r = open_named("x.0-4.kv", &merged);
    assert!(r.enable_bloom(Salt::Known(11)));
    let stack = KvStack::open(files.iter().map(|(n, f)| open_named(n, f)).collect(), Salt::Off).unwrap();
    for k in 0..220u32 {
        let key = k.to_be_bytes();
        assert_eq!(r.get(&key).unwrap(), stack.get(&key).unwrap(), "key {k}");
    }
}

#[test]
fn inputs_may_be_given_in_any_order() {
    let a = domain(&[pair("k", "a"), pair("x", "1")], None, false);
    let b = domain(&[pair("k", "b"), pair("y", "2")], None, true);
    let c = domain(&[pair("k", ""), pair("z", "3")], None, false);
    let named = [("x.0-64.kv", &a), ("x.64-128.kv", &b), ("x.128-130.kv", &c)];
    let mut merged = Vec::new();
    for order in [[0, 1, 2], [0, 2, 1], [1, 0, 2], [1, 2, 0], [2, 0, 1], [2, 1, 0]] {
        let inputs: Vec<MergeInput> =
            order.iter().map(|&i| MergeInput { name: named[i].0.as_bytes(), kv: &named[i].1.kv }).collect();
        let f = merge(&inputs, b"x.0-130.kv", MergeOptions::default()).unwrap();
        assert_eq!(pairs_of(&f), strings(&[("x", "1"), ("y", "2"), ("z", "3")]));
        merged.push((f.kv, f.bt));
    }
    assert!(merged.iter().all(|m| *m == merged[0]));
}

#[test]
fn many_inputs_merge_in_key_order() {
    let n = 40u32;
    let files: Vec<(String, DomainFiles)> = (0..n)
        .map(|i| {
            let pairs: Pairs = (0..300u32)
                .filter(|k| (k * 7 + i * 13) % 11 < 3)
                .map(|k| (k.to_be_bytes().to_vec(), format!("{i}").into_bytes()))
                .collect();
            (format!("x.{i}-{}.kv", i + 1), domain(&pairs, None, false))
        })
        .collect();
    let inputs: Vec<MergeInput> = files.iter().map(|(n, f)| MergeInput { name: n.as_bytes(), kv: &f.kv }).collect();
    let f = merge(&inputs, b"x.0-40.kv", MergeOptions::default()).unwrap();
    let r = open_named("x.0-40.kv", &f);
    let mut it = r.iter();
    for k in 0..300u32 {
        let newest = (0..n).rev().find(|i| (k * 7 + i * 13) % 11 < 3).unwrap();
        let (key, value) = it.next().unwrap().unwrap();
        assert_eq!((key, value), (k.to_be_bytes().to_vec(), format!("{newest}").into_bytes()));
    }
    assert!(it.next().is_none());
}

#[test]
fn of_inputs_with_one_first_step_the_last_given_wins() {
    let narrow = domain(&[pair("k", "narrow")], None, false);
    let wide = domain(&[pair("k", "wide")], None, false);
    let n = MergeInput { name: b"x.0-64.kv", kv: &narrow.kv };
    let w = MergeInput { name: b"x.0-128.kv", kv: &wide.kv };
    let value = |inputs: Vec<MergeInput>| pairs_of(&merge(&inputs, b"x.0-128.kv", MergeOptions::default()).unwrap());
    assert_eq!(value(vec![n, w]), strings(&[("k", "wide")]));
    assert_eq!(value(vec![w, n]), strings(&[("k", "narrow")]));
}

#[test]
fn merges_refuse_what_they_cannot_read() {
    let err = |inputs: Vec<MergeInput>| match merge(&inputs, b"o.kv", MergeOptions::default()) {
        Err(Error::Format(e)) => Some(e),
        _ => None,
    };
    assert_eq!(err(Vec::new()), Some(FormatError::NoInputs));
    assert_eq!(err(vec![MergeInput { name: b"x", kv: &[1, 2] }]), Some(FormatError::InvalidKv));
    // Words that no dictionary explains.
    let mut bare = vec![0u8; 33];
    bare[7] = 2;
    assert_eq!(err(vec![MergeInput { name: b"x", kv: &bare }]), Some(FormatError::BadWord));
    // Damage behind good pairs.
    let good = domain(&[pair("a", "1"), pair("b", "22"), pair("c", "333")], None, false);
    let cut = &good.kv[..good.kv.len() - 1];
    let whole = MergeInput { name: b"x.0-1.kv", kv: &good.kv };
    assert_eq!(err(vec![whole, MergeInput { name: b"x.1-2.kv", kv: cut }]), Some(FormatError::BadWord));
    // What comes before it is seen first.
    let mut unsorted = write_kv(&[pair("b", "1"), pair("a", "2"), pair("c", "333")]);
    unsorted.truncate(unsorted.len() - 1);
    assert_eq!(err(vec![MergeInput { name: b"x", kv: &unsorted }]), Some(FormatError::KeyOrder));
    // Keys out of order.
    let kv = write_kv(&[pair("b", "1"), pair("a", "2")]);
    assert_eq!(err(vec![MergeInput { name: b"x", kv: &kv }]), Some(FormatError::KeyOrder));
}

// ------------------------------------------------------------------ indexes and filters built later

#[test]
fn an_index_and_a_filter_can_be_built_for_any_kv() {
    let pairs = counted(1000);
    let mut w = SegWriter::create_with(true);
    for (k, v) in &pairs {
        w.add_word(k).unwrap();
        w.add_word(v).unwrap();
    }
    let kv = w.finish();
    let kvei = build_kvei(&kv, 21).unwrap();
    for (layout, m) in [(BtLayout::Legacy, 7), (BtLayout::Footer, 7), (BtLayout::Footer, 0), (BtLayout::Footer, 5000)] {
        let bt = build_bt(&kv, BtOptions { layout, m }).unwrap();
        let mut r = KvReader::open(b"d.0-1.kv".to_vec(), &kv, Some(&bt), Some(&kvei)).unwrap();
        assert!(r.enable_bloom(Salt::Known(21)));
        for (k, v) in &pairs {
            assert_eq!(r.get(k).unwrap().as_ref(), Some(v));
            let mut odd = k.clone();
            odd[3] |= 1;
            assert_eq!(r.get(&odd).unwrap(), None);
        }
        let idx = r.index().unwrap();
        let fanout = if m > 1 { m } else { 1 };
        for (i, (k, _)) in pairs.iter().enumerate() {
            let (lo, hi) = idx.narrow(k);
            assert!(lo <= i as u64 && (i as u64) < hi && hi <= 1000);
            match layout {
                BtLayout::Legacy => assert_eq!((lo, hi), (0, 1000)),
                BtLayout::Footer => assert!(hi - lo <= fanout),
            }
        }
        match idx.nodes() {
            None => assert!(matches!(layout, BtLayout::Legacy)),
            Some(nodes) => {
                assert_eq!((nodes.len() as u64, nodes.m()), (1000u64.div_ceil(fanout), fanout));
                for j in 0..nodes.len() {
                    assert_eq!(nodes.key(j), pairs[j * fanout as usize].0.as_slice());
                }
            }
        }
    }
}

#[test]
fn a_count_that_promises_too_much_is_refused() {
    let f = domain(&counted(10), None, false);
    for count in [22u64, 1 << 20, 1 << 55] {
        let mut kv = f.kv.clone();
        kv[..8].copy_from_slice(&count.to_be_bytes());
        for layout in [BtLayout::Legacy, BtLayout::Footer] {
            let bt = build_bt(&kv, BtOptions { layout, m: 4 });
            assert_eq!(bt.err(), Some(Error::Format(FormatError::BadWord)));
        }
        assert_eq!(build_kvei(&kv, 1).err(), Some(Error::Format(FormatError::BadWord)));
    }
}
