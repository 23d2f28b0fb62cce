//! High-level reader over a `.kv` + sibling `.bt` + `.kvei` triple.
//!
//! [`KvReader`] is the main entry point: it holds the data file and, when present, its
//! B-tree index and existence filter, and answers point lookups ([`KvReader::get`]) and
//! sequential scans ([`KvReader::iter`]).

use vstd::prelude::*;

use crate::bloom;
use crate::bloom::{ExistenceFilter, FilterModel};
use crate::btree;
use crate::btree::{BtModel, BtreeIndex};
use crate::bytes;
use crate::bytes::{lex_lt, lex_order, texts, Order};
use crate::error::{Error, FormatError, Result};
use crate::hash;
use crate::hash::murmur3_x64_128_h1;
use crate::salt::Salt;
use crate::seg::{Getter, OpenOptions, Seg};
use crate::words;
use crate::words::SegModel;

verus! {

/// What a lookup found, or what is wrong with the files.
pub type Found = core::result::Result<Option<Seq<u8>>, FormatError>;

/// The contents of a file set, and the salt in use.
pub struct ReaderModel {
    pub seg: SegModel,
    pub index: Option<BtModel>,
    pub bloom: Option<FilterModel>,
    pub salt: Option<u32>,
    /// Sizes of the files.
    pub kv_size: nat,
    pub bt_size: nat,
    pub kvei_size: nat,
}

/// The value whose word starts at `at`: the empty one at the end of the file.
pub open spec fn value_at(m: SegModel, at: int) -> core::result::Result<(Seq<u8>, int), FormatError> {
    if at >= m.words.len() {
        Ok((Seq::empty(), at))
    } else {
        match words::decode_word(m, at) {
            None => Err(FormatError::BadWord),
            Some((v, next)) => Ok((v, next)),
        }
    }
}

/// Binary search for `key` among the keys `lo..hi` of an index.
pub open spec fn search(m: SegModel, b: BtModel, key: Seq<u8>, lo: int, hi: int) -> Found
    decreases hi - lo,
{
    if lo >= hi {
        Ok(None)
    } else {
        let mid = lo + (hi - lo) / 2;
        match btree::key_offset_of(b, mid) {
            None => Err(FormatError::DamagedIndex),
            Some(off) => if off >= m.words.len() {
                Ok(None)
            } else {
                match words::decode_word(m, off as int) {
                    None => Err(FormatError::BadWord),
                    Some((k, at)) => if k == key {
                        match value_at(m, at) {
                            Err(e) => Err(e),
                            Ok((v, _)) => Ok(Some(v)),
                        }
                    } else if lex_lt(k, key) {
                        search(m, b, key, mid + 1, hi)
                    } else {
                        search(m, b, key, lo, mid)
                    },
                }
            },
        }
    }
}

/// Look for `key` in the pairs from `at` on, which are in key order. A pair that takes no
/// bytes is none: there would be no end of them.
pub open spec fn scan(m: SegModel, key: Seq<u8>, at: int) -> Found
    decreases words::left(m.words.len() - at),
{
    if at >= m.words.len() {
        Ok(None)
    } else {
        match words::decode_word(m, at) {
            None => Err(FormatError::BadWord),
            Some((k, v_at)) => if k == key {
                match value_at(m, v_at) {
                    Err(e) => Err(e),
                    Ok((v, _)) => Ok(Some(v)),
                }
            } else if lex_lt(key, k) {
                Ok(None)
            } else if v_at >= m.words.len() {
                Ok(None)
            } else {
                match words::skip_word(m, v_at) {
                    None => Err(FormatError::BadWord),
                    Some((_, next)) => if next <= at {
                        Err(FormatError::BadWord)
                    } else {
                        scan(m, key, next)
                    },
                }
            },
        }
    }
}

/// The filter in use says that no key has this hash.
pub open spec fn ruled_out(r: ReaderModel, h: u64) -> bool {
    r.salt is Some && r.bloom is Some && !bloom::filter_contains(r.bloom->0, h)
}

/// A lookup without the filter.
pub open spec fn exact_lookup(r: ReaderModel, key: Seq<u8>) -> Found {
    match r.index {
        Some(b) => {
            let (lo, hi) = btree::narrow_in(b, key);
            search(r.seg, b, key, lo, hi)
        },
        None => scan(r.seg, key, 0),
    }
}

/// A lookup, with `h` for the hash of the key under the salt in use.
pub open spec fn lookup_hashed(r: ReaderModel, key: Seq<u8>, h: u64) -> Found {
    if ruled_out(r, h) { Ok(None) } else { exact_lookup(r, key) }
}

pub open spec fn salt_or_zero(r: ReaderModel) -> u32 {
    match r.salt {
        Some(s) => s,
        None => 0,
    }
}

/// A lookup: the filter for a fast answer if it is in use, then the index, or, if there is
/// none, a scan.
pub open spec fn lookup(r: ReaderModel, key: Seq<u8>) -> Found {
    lookup_hashed(r, key, hash::murmur3(key, salt_or_zero(r)))
}

/// Number of keys: from the index if there is one, otherwise half the words.
pub open spec fn reader_key_count(r: ReaderModel) -> nat {
    match r.index {
        Some(b) => btree::key_count_of(b),
        None => (r.seg.words_count / 2) as nat,
    }
}

/// A number of bytes as far as 64 bits can tell.
pub open spec fn capped(n: nat) -> u64 {
    if n <= u64::MAX { n as u64 } else { u64::MAX }
}

/// The sum of two numbers of bytes.
pub fn capped_sum(a: u64, b: u64) -> (r: u64)
    ensures
        r == capped((a + b) as nat),
{
    if a > u64::MAX - b {
        u64::MAX
    } else {
        a + b
    }
}

/// Bytes of the index files that lookups read: the filter counts once it is in use.
pub open spec fn index_size(r: ReaderModel) -> nat {
    r.bt_size + if r.salt is Some { r.kvei_size } else { 0 }
}

// ------------------------------------------------------------------ samples

/// The first `n` of the keys that lie evenly spread over `count` indexed ones, `total` in
/// all.
pub open spec fn spread_keys(m: SegModel, b: BtModel, count: nat, total: nat, n: nat) -> Option<Seq<Seq<u8>>>
    decreases n,
{
    if n == 0 {
        Some(Seq::empty())
    } else {
        match (spread_keys(m, b, count, total, (n - 1) as nat), btree::key_offset_of(b, ((n - 1) * count) / (total as int))) {
            (Some(keys), Some(off)) => match words::decode_word(m, off as int) {
                None => None,
                Some((k, _)) => Some(keys.push(k)),
            },
            _ => None,
        }
    }
}

/// Up to `n` keys from the start of the file.
pub open spec fn leading_keys(m: SegModel, at: int, n: nat) -> Option<Seq<Seq<u8>>>
    decreases n,
{
    if n == 0 || at >= m.words.len() {
        Some(Seq::empty())
    } else {
        match words::decode_word(m, at) {
            None => None,
            Some((k, v_at)) => match value_at(m, v_at) {
                Err(_) => None,
                Ok((_, next)) => match leading_keys(m, next, (n - 1) as nat) {
                    None => None,
                    Some(rest) => Some(seq![k] + rest),
                },
            },
        }
    }
}

/// Up to `n` keys that are in the file; `None` if it is damaged.
pub open spec fn samples(r: ReaderModel, n: nat) -> Option<Seq<Seq<u8>>> {
    match r.index {
        Some(b) => {
            let count = btree::key_count_of(b);
            let total = if n < count { n } else { count };
            spread_keys(r.seg, b, count, total, total)
        },
        None => leading_keys(r.seg, 0, n),
    }
}

/// The filter contains all keys of a list under a salt.
pub open spec fn all_hit(f: FilterModel, keys: Seq<Seq<u8>>, salt: u32) -> bool {
    forall|i: int| 0 <= i < keys.len() ==> bloom::filter_contains(f, hash::murmur3(#[trigger] keys[i], salt))
}

/// A salt can be validated: there is a bloom filter, and there are keys to try it on.
pub open spec fn can_validate(r: ReaderModel, n: nat) -> bool {
    &&& r.bloom matches Some(f) && f is Bloom
    &&& samples(r, n) matches Some(keys) && keys.len() > 0
}

/// `salt` validates against `n` keys of the file.
pub open spec fn validates(r: ReaderModel, salt: u32, n: nat) -> bool {
    can_validate(r, n) && all_hit(r.bloom->0, samples(r, n)->0, salt)
}

/// Under `salt` the filter rules out no key that a lookup without it finds.
pub open spec fn hides_none(r: ReaderModel, f: FilterModel, salt: u32) -> bool {
    forall|key: Seq<u8>|
        (#[trigger] exact_lookup(r, key) matches Ok(Some(_))) ==> bloom::filter_contains(f, hash::murmur3(key, salt))
}

/// `salt` validates against 64 keys of the file, and no key would be missed under it.
pub open spec fn validates_all(r: ReaderModel, salt: u32) -> bool {
    validates(r, salt, 64) && hides_none(r, r.bloom->0, salt)
}

/// The smallest salt that validates, from `from` on.
pub open spec fn least_salt(r: ReaderModel, from: int) -> Option<u32>
    decreases u32::MAX + 1 - from,
{
    if from < 0 || from > u32::MAX {
        None
    } else if validates(r, from as u32, 16) {
        Some(from as u32)
    } else {
        least_salt(r, from + 1)
    }
}

/// The search finds the smallest salt that validates, and none only if none does.
pub proof fn law_least_salt(r: ReaderModel, from: int)
    requires
        0 <= from,
    ensures
        match least_salt(r, from) {
            Some(s) => from <= s && validates(r, s, 16) && forall|t: u32|
                from <= t < s ==> !#[trigger] validates(r, t, 16),
            None => forall|t: u32| from <= t ==> !#[trigger] validates(r, t, 16),
        },
    decreases u32::MAX + 1 - from,
{
    if from <= u32::MAX && !validates(r, from as u32, 16) {
        law_least_salt(r, from + 1);
    }
}

/// The salt that enabling the filter tries.
pub open spec fn salt_to_try(r: ReaderModel, salt: Salt) -> Option<u32> {
    match salt {
        Salt::Off => None,
        Salt::Known(s) => Some(s),
        Salt::Find(_) => least_salt(r, 0),
    }
}

/// The salt that is in use after the filter was enabled with it; `None` if it cannot be.
pub open spec fn enabled_salt(r: ReaderModel, salt: Salt) -> Option<u32> {
    match salt_to_try(r, salt) {
        Some(s) => if validates_all(r, s) { Some(s) } else { None },
        None => None,
    }
}

/// The index has `key` at index `j`.
pub open spec fn is_indexed(m: SegModel, b: BtModel, j: int, key: Seq<u8>) -> bool {
    btree::key_offset_of(b, j) matches Some(off) && off < m.words.len() && (words::decode_word(m, off as int) matches Some(
        (k, _),
    ) && k == key)
}

/// What a search finds is a key of the index.
proof fn lemma_search_found(m: SegModel, b: BtModel, key: Seq<u8>, lo: int, hi: int) -> (j: int)
    requires
        search(m, b, key, lo, hi) matches Ok(Some(_)),
    ensures
        0 <= j < btree::key_count_of(b),
        is_indexed(m, b, j, key),
    decreases hi - lo,
{
    let mid = lo + (hi - lo) / 2;
    let off = btree::key_offset_of(b, mid)->0;
    let (k, _) = words::decode_word(m, off as int)->0;
    if k == key {
        mid
    } else if lex_lt(k, key) {
        lemma_search_found(m, b, key, mid + 1, hi)
    } else {
        lemma_search_found(m, b, key, lo, mid)
    }
}

/// A wrong salt can never cause a missed key: whatever the files hold, damaged or not, and
/// whatever the salt, what a lookup finds without the filter it also finds with the filter
/// enabled.
pub proof fn law_enabling_hides_nothing(r: ReaderModel, salt: Salt, key: Seq<u8>)
    requires
        enabled_salt(r, salt) is Some,
        exact_lookup(r, key) matches Ok(Some(_)),
    ensures
        lookup(ReaderModel { salt: enabled_salt(r, salt), ..r }, key) == exact_lookup(r, key),
{
    let s = enabled_salt(r, salt)->0;
    assert(bloom::filter_contains(r.bloom->0, hash::murmur3(key, s)));
}

proof fn lemma_spread_stuck(m: SegModel, b: BtModel, count: nat, total: nat, k: nat, n: nat)
    requires
        k <= n,
        spread_keys(m, b, count, total, k) is None,
    ensures
        spread_keys(m, b, count, total, n) is None,
    decreases n,
{
    if k < n {
        lemma_spread_stuck(m, b, count, total, k, (n - 1) as nat);
    }
}

/// The filter contains all keys of a list under a salt.
pub fn keys_hit(f: &ExistenceFilter, keys: &Vec<Vec<u8>>, salt: u32) -> (r: bool)
    ensures
        r == all_hit(f.model(), texts(keys@), salt),
{
    let mut i: usize = 0;
    while i < keys.len()
        invariant
            i <= keys.len(),
            forall|j: int| 0 <= j < i ==> bloom::filter_contains(
                f.model(),
                hash::murmur3(#[trigger] texts(keys@)[j], salt),
            ),
        decreases keys.len() - i,
    {
        if !f.contains_hash(murmur3_x64_128_h1(keys[i].as_slice(), salt)) {
            proof {
                assert(texts(keys@)[i as int] == keys@[i as int]@);
            }
            return false;
        }
        i = i + 1;
    }
    true
}

// ------------------------------------------------------------------ the reader

/// A reader over one seg file set (`.kv` data, optional `.bt` index, optional `.kvei`
/// existence filter).
pub struct KvReader<'a> {
    seg: Seg<'a>,
    index: Option<BtreeIndex<'a>>,
    bloom: Option<ExistenceFilter<'a>>,
    /// `Some` only once a salt has been validated via [`KvReader::enable_bloom`].
    salt: Option<u32>,
    /// The base name of the `.kv` file (e.g. `v1.1-accounts.0-1024.kv`).
    name: Vec<u8>,
}

/// What opening the files of a set gives.
pub open spec fn opened(kv: Seq<u8>, bt: Option<Seq<u8>>, kvei: Option<Seq<u8>>, has_metadata: bool) -> core::result::Result<
    ReaderModel,
    FormatError,
> {
    match words::parse_seg(kv, has_metadata) {
        None => Err(FormatError::InvalidKv),
        Some(seg) => {
            let bloom: Option<FilterModel> = match kvei {
                Some(d) => Some(bloom::parse_filter(d)),
                None => None,
            };
            let bt_size: nat = match bt {
                Some(d) => d.len(),
                None => 0,
            };
            let kvei_size: nat = match kvei {
                Some(d) => d.len(),
                None => 0,
            };
            match bt {
                None => Ok(
                    ReaderModel { seg, index: None, bloom, salt: None, kv_size: kv.len(), bt_size, kvei_size },
                ),
                Some(d) => match btree::parse_bt(d) {
                    Err(e) => Err(e),
                    Ok(b) => Ok(
                        ReaderModel { seg, index: Some(b), bloom, salt: None, kv_size: kv.len(), bt_size, kvei_size },
                    ),
                },
            }
        },
    }
}

/// The bytes of a file that may be absent.
pub open spec fn optional(d: Option<&[u8]>) -> Option<Seq<u8>> {
    match d {
        Some(s) => Some(s@),
        None => None,
    }
}

impl<'a> KvReader<'a> {
    /// The contents of the file set, and the salt in use.
    pub closed spec fn model(&self) -> ReaderModel {
        ReaderModel {
            seg: self.seg.model(),
            index: match self.index {
                Some(i) => Some(i.model()),
                None => None,
            },
            bloom: match self.bloom {
                Some(b) => Some(b.model()),
                None => None,
            },
            salt: self.salt,
            kv_size: self.seg.bytes().len(),
            bt_size: match self.index {
                Some(i) => i.file_size(),
                None => 0,
            },
            kvei_size: match self.bloom {
                Some(b) => b.file_size(),
                None => 0,
            },
        }
    }

    /// The base name of the `.kv` file.
    pub closed spec fn file_name(&self) -> Seq<u8> {
        self.name@
    }

    /// Open a `.kv` file and the `.bt` / `.kvei` files found next to it. The existence
    /// filter is loaded but not used for lookups until a salt is supplied via
    /// [`enable_bloom`](KvReader::enable_bloom).
    pub fn open(name: Vec<u8>, kv: &'a [u8], bt: Option<&'a [u8]>, kvei: Option<&'a [u8]>) -> (r: Result<KvReader<'a>>)
        ensures
            match opened(kv@, optional(bt), optional(kvei), false) {
                Ok(m) => r matches Ok(x) && x.model() == m && x.file_name() == name@,
                Err(e) => r == Err::<KvReader<'a>, Error>(Error::Format(e)),
            },
    {
        KvReader::open_with(name, kv, bt, kvei, OpenOptions { has_metadata: false })
    }

    /// Like [`open`](KvReader::open) but with explicit seg [`OpenOptions`] (e.g. for files
    /// carrying out-of-band metadata).
    pub fn open_with(
        name: Vec<u8>,
        kv: &'a [u8],
        bt: Option<&'a [u8]>,
        kvei: Option<&'a [u8]>,
        opts: OpenOptions,
    ) -> (r: Result<KvReader<'a>>)
        ensures
            match opened(kv@, optional(bt), optional(kvei), opts.has_metadata) {
                Ok(m) => r matches Ok(x) && x.model() == m && x.file_name() == name@,
                Err(e) => r == Err::<KvReader<'a>, Error>(Error::Format(e)),
            },
    {
        let seg = match Seg::open_with(kv, opts) {
            Ok(s) => s,
            Err(e) => return Err(e),
        };
        let index = match bt {
            Some(d) => match BtreeIndex::open(d) {
                Ok(i) => Some(i),
                Err(e) => return Err(e),
            },
            None => None,
        };
        let bloom = match kvei {
            Some(d) => Some(ExistenceFilter::open(d)),
            None => None,
        };
        Ok(KvReader { seg, index, bloom, salt: None, name })
    }

    /// The base name of the `.kv` file (e.g. `v1.1-accounts.0-1024.kv`).
    pub fn name(&self) -> (n: &[u8])
        ensures
            n@ == self.file_name(),
    {
        self.name.as_slice()
    }

    /// Whether the bloom filter is in use for lookups: a `.kvei` is present and a salt has
    /// been validated against real keys via [`enable_bloom`](KvReader::enable_bloom).
    pub fn bloom_active(&self) -> (r: bool)
        ensures
            r == self.model().salt is Some,
    {
        self.salt.is_some()
    }

    /// The underlying seg data file.
    pub fn seg(&self) -> (s: &Seg<'a>)
        ensures
            s.model() == self.model().seg,
            s.bytes().len() == self.model().kv_size,
    {
        &self.seg
    }

    /// The B-tree index, if a `.bt` was found.
    pub fn index(&self) -> (r: Option<&BtreeIndex<'a>>)
        ensures
            r is Some == self.model().index is Some,
            r matches Some(i) ==> self.model().index == Some(i.model()),
    {
        match &self.index {
            Some(i) => Some(i),
            None => None,
        }
    }

    /// The existence filter, if a `.kvei` was found.
    pub fn existence_filter(&self) -> (r: Option<&ExistenceFilter<'a>>)
        ensures
            r is Some == self.model().bloom is Some,
            r matches Some(b) ==> self.model().bloom == Some(b.model()),
    {
        match &self.bloom {
            Some(b) => Some(b),
            None => None,
        }
    }

    /// The salt in use, if [`enable_bloom`](KvReader::enable_bloom) has succeeded.
    pub fn salt(&self) -> (s: Option<u32>)
        ensures
            s == self.model().salt,
    {
        self.salt
    }

    /// Number of keys: from the `.bt` index if present, otherwise inferred as half the
    /// words (domain files store alternating key/value words).
    pub fn key_count(&self) -> (n: u64)
        ensures
            n == reader_key_count(self.model()),
    {
        match &self.index {
            Some(i) => i.key_count(),
            None => self.seg.words_count() / 2,
        }
    }

    /// Bytes of the index files that lookups read: the `.bt`, plus the `.kvei` when the
    /// bloom is active; `u64::MAX` if there are more.
    pub fn index_bytes(&self) -> (n: u64)
        ensures
            n == capped(index_size(self.model())),
    {
        let bt: u64 = match &self.index {
            Some(i) => i.mapped_bytes(),
            None => 0,
        };
        let kvei: u64 = match (&self.bloom, self.salt) {
            (Some(b), Some(_)) => b.mapped_bytes(),
            _ => 0,
        };
        capped_sum(bt, kvei)
    }

    /// Bytes of all files that lookups read: the `.kv` and the index files; `u64::MAX` if
    /// there are more.
    pub fn total_bytes(&self) -> (n: u64)
        ensures
            n == capped(self.model().kv_size + index_size(self.model())),
    {
        capped_sum(self.seg.mapped_bytes(), self.index_bytes())
    }

    /// Sample up to `n` real keys spread across the file, for a search for the salt.
    /// Each one is genuinely present, so a correct bloom must contain it. `None` if the
    /// file is damaged.
    pub fn sample_keys(&self, n: usize) -> (r: Option<Vec<Vec<u8>>>)
        ensures
            match samples(self.model(), n as nat) {
                Some(keys) => r matches Some(v) && texts(v@) == keys,
                None => r is None,
            },
    {
        let ghost m = self.model().seg;
        let mut g = self.seg.getter();
        let mut out: Vec<Vec<u8>> = Vec::new();
        match &self.index {
            Some(idx) => {
                let ghost b = idx.model();
                let count: u64 = idx.key_count();
                let total: u64 = if (n as u64) < count { n as u64 } else { count };
                let mut s: u64 = 0;
                proof {
                    assert(texts(out@) =~= Seq::empty());
                }
                while s < total
                    invariant
                        s <= total,
                        total <= count,
                        count == btree::key_count_of(b),
                        b == idx.model(),
                        g.model() == m,
                        spread_keys(m, b, count as nat, total as nat, s as nat) == Some(texts(out@)),
                        spread_keys(m, b, count as nat, total as nat, total as nat) == samples(self.model(), n as nat),
                    decreases total - s,
                {
                    proof {
                        if spread_keys(m, b, count as nat, total as nat, (s + 1) as nat) is None {
                            lemma_spread_stuck(m, b, count as nat, total as nat, (s + 1) as nat, total as nat);
                        }
                        assert(s * count <= u64::MAX * u64::MAX) by (nonlinear_arith)
                            requires
                                0 <= s <= u64::MAX,
                                0 <= count <= u64::MAX,
                        ;
                        assert((s * count) / total as int <= count) by (nonlinear_arith)
                            requires
                                0 <= s < total,
                                0 <= count,
                        ;
                    }
                    let di: u64 = ((s as u128 * count as u128) / total as u128) as u64;
                    match idx.key_offset(di) {
                        None => return None,
                        Some(off) => {
                            g.reset(off);
                            match g.try_next() {
                                None => return None,
                                Some(k) => {
                                    let ghost before = out@;
                                    out.push(k);
                                    proof {
                                        assert(texts(out@) =~= texts(before).push(k@));
                                    }
                                },
                            }
                        },
                    }
                    s = s + 1;
                }
            },
            None => {
                proof {
                    if let Some(rest) = leading_keys(m, 0, n as nat) {
                        assert(texts(out@) + rest =~= rest);
                    }
                }
                while out.len() < n && g.has_next()
                    invariant
                        out.len() <= n,
                        g.model() == m,
                        match leading_keys(m, g.at() as int, (n - out.len()) as nat) {
                            Some(rest) => samples(self.model(), n as nat) == Some(texts(out@) + rest),
                            None => samples(self.model(), n as nat) is None,
                        },
                    decreases n - out.len(),
                {
                    let ghost at = g.at() as int;
                    let ghost k = (n - out.len()) as nat;
                    match g.try_next() {
                        None => return None,
                        Some(key) => {
                            let ghost v_at = g.at() as int;
                            if g.has_next() {
                                match g.try_next() {
                                    None => return None,
                                    Some(_) => {},
                                }
                            }
                            let ghost before = out@;
                            out.push(key);
                            proof {
                                assert(texts(out@) =~= texts(before).push(key@));
                                assert(value_at(m, v_at) matches Ok((_, next)) && next == g.at());
                                if let Some(rest) = leading_keys(m, g.at() as int, (k - 1) as nat) {
                                    assert(texts(before) + (seq![key@] + rest) =~= texts(out@) + rest);
                                }
                            }
                        },
                    }
                }
                proof {
                    assert(texts(out@) + Seq::<Seq<u8>>::empty() =~= texts(out@));
                }
            },
        }
        Some(out)
    }

    /// A lookup without the filter.
    fn get_exact(&self, key: &[u8]) -> (r: Result<Option<Vec<u8>>>)
        ensures
            gives(exact_lookup(self.model(), key@), r),
    {
        match &self.index {
            Some(idx) => self.get_indexed(idx, key),
            None => self.get_scan(key),
        }
    }

    /// Whether `key` is one that a lookup without the filter finds, but not one with it.
    fn would_hide(&self, bloom: &ExistenceFilter, salt: u32, key: &[u8]) -> (r: bool)
        ensures
            r == ((exact_lookup(self.model(), key@) matches Ok(Some(_))) && !bloom::filter_contains(
                bloom.model(),
                hash::murmur3(key@, salt),
            )),
    {
        !bloom.contains_hash(murmur3_x64_128_h1(key, salt)) && matches!(self.get_exact(key), Ok(Some(_)))
    }

    /// Whether the filter rules out none of the indexed keys that a lookup finds.
    fn hides_no_indexed(&self, idx: &BtreeIndex<'a>, bloom: &ExistenceFilter, salt: u32) -> (r: bool)
        requires
            self.model().index == Some(idx.model()),
        ensures
            r == hides_none(self.model(), bloom.model(), salt),
    {
        let ghost m = self.model().seg;
        let ghost b = idx.model();
        let count: u64 = idx.key_count();
        let mut g = self.seg.getter();
        let mut i: u64 = 0;
        while i < count
            invariant
                i <= count,
                count == btree::key_count_of(b),
                b == idx.model(),
                m == self.model().seg,
                g.model() == m,
                forall|key: Seq<u8>, j: int|
                    0 <= j < i && #[trigger] is_indexed(m, b, j, key) && (exact_lookup(self.model(), key) matches Ok(Some(_)))
                        ==> bloom::filter_contains(bloom.model(), hash::murmur3(key, salt)),
            decreases count - i,
        {
            if let Some(off) = idx.key_offset(i) {
                g.reset(off);
                if g.has_next() {
                    if let Some(key) = g.try_next() {
                        if self.would_hide(bloom, salt, key.as_slice()) {
                            return false;
                        }
                    }
                }
            }
            i = i + 1;
        }
        proof {
            assert forall|key: Seq<u8>| (#[trigger] exact_lookup(self.model(), key) matches Ok(Some(_)))
                implies bloom::filter_contains(bloom.model(), hash::murmur3(key, salt)) by {
                let (lo, hi) = btree::narrow_in(b, key);
                let j = lemma_search_found(m, b, key, lo, hi);
                assert(is_indexed(m, b, j, key));
            }
        }
        true
    }

    /// Whether the filter rules out none of the keys that a scan finds.
    fn hides_no_scanned(&self, bloom: &ExistenceFilter, salt: u32) -> (r: bool)
        requires
            self.model().index is None,
        ensures
            r == hides_none(self.model(), bloom.model(), salt),
    {
        let ghost m = self.model().seg;
        let ghost f = bloom.model();
        let mut g = self.seg.getter();
        while g.has_next()
            invariant
                g.model() == m,
                m == self.model().seg,
                f == bloom.model(),
                self.model().index is None,
                forall|key: Seq<u8>|
                    (#[trigger] exact_lookup(self.model(), key) matches Ok(Some(_))) && !bloom::filter_contains(
                        f,
                        hash::murmur3(key, salt),
                    ) ==> (scan(m, key, g.at() as int) matches Ok(Some(_))),
            decreases words::left(m.words.len() - g.at()),
        {
            let at: u64 = g.offset();
            let key: Vec<u8> = match g.try_next() {
                Some(k) => k,
                None => return true,
            };
            if self.would_hide(bloom, salt, key.as_slice()) {
                return false;
            }
            if !g.has_next() {
                return true;
            }
            match g.try_skip() {
                Some(_) => {},
                None => return true,
            }
            if g.offset() <= at {
                return true;
            }
        }
        true
    }

    /// Enable the `.kvei` bloom as a negative-lookup accelerator, resolving the salt per
    /// [`Salt`]. Returns `true` only if a usable bloom is present and the resolved salt
    /// self-validates against real keys: a sample of them, and then every key that lookups
    /// find. So a wrong salt can never cause a missed key: it just leaves lookups
    /// unaccelerated. This reads the keys of the file once.
    pub fn enable_bloom(&mut self, salt: Salt) -> (r: bool)
        ensures
            r == (salt_to_try(old(self).model(), salt) matches Some(s) && validates_all(old(self).model(), s)),
            final(self).file_name() == old(self).file_name(),
            final(self).model() == (ReaderModel {
                salt: if r { salt_to_try(old(self).model(), salt) } else { old(self).model().salt },
                ..old(self).model()
            }),
    {
        let bloom = match &self.bloom {
            Some(b) => b,
            None => return false,
        };
        if !bloom.is_accelerating() {
            return false;
        }
        let resolved: u32 = match salt {
            Salt::Off => return false,
            Salt::Known(s) => s,
            Salt::Find(threads) => match self.find_salt(threads) {
                Some(s) => s,
                None => return false,
            },
        };
        let keys = match self.sample_keys(64) {
            Some(k) => k,
            None => return false,
        };
        if keys.len() == 0 || !keys_hit(bloom, &keys, resolved) {
            return false;
        }
        let ok = match &self.index {
            Some(idx) => self.hides_no_indexed(idx, bloom, resolved),
            None => self.hides_no_scanned(bloom, resolved),
        };
        if ok {
            self.salt = Some(resolved);
        }
        ok
    }

    /// Brute-force the bloom salt by requiring a batch of real keys to all hit the
    /// filter: the smallest one that does, however many `_threads` the caller would spend.
    /// `None` if no `.kvei` bloom is usable or no salt validates (e.g. a fuse filter or a
    /// format mismatch). A caller that has threads can spread the search over them with
    /// [`sample_keys`](KvReader::sample_keys) and [`keys_hit`].
    pub fn find_salt(&self, _threads: usize) -> (r: Option<u32>)
        ensures
            r == least_salt(self.model(), 0),
    {
        proof {
            law_least_salt(self.model(), 0);
        }
        let bloom = match &self.bloom {
            Some(b) => b,
            None => return None,
        };
        if !bloom.is_accelerating() {
            return None;
        }
        let keys = match self.sample_keys(16) {
            Some(k) => k,
            None => return None,
        };
        if keys.len() == 0 {
            return None;
        }
        let mut salt: u32 = 0;
        loop
            invariant
                least_salt(self.model(), 0) == least_salt(self.model(), salt as int),
                self.bloom == Some(*bloom),
                can_validate(self.model(), 16),
                samples(self.model(), 16) == Some(texts(keys@)),
            decreases u32::MAX - salt,
        {
            if keys_hit(bloom, &keys, salt) {
                return Some(salt);
            }
            if salt == u32::MAX {
                proof {
                    assert(least_salt(self.model(), salt + 1) is None);
                }
                return None;
            }
            salt = salt + 1;
        }
    }

    /// Look up `key`, returning its value if present.
    ///
    /// Uses, in order: the bloom filter for a fast definite-absent answer (if enabled),
    /// then the `.bt` index for an `O(log n)` binary search, or, if there is no index, an
    /// ordered linear scan.
    pub fn get(&self, key: &[u8]) -> (r: Result<Option<Vec<u8>>>)
        ensures
            gives(lookup(self.model(), key@), r),
    {
        self.get_hashed(key, None)
    }

    /// [`get`](KvReader::get) with the hash of the key supplied by the caller: it stands
    /// for `murmur3_x64_128_h1(key, salt)` with the salt in use; pass `None` to compute it
    /// here. A [`KvStack`](crate::stack::KvStack) uses this to hash a key once for all its
    /// files, since one salt covers the stack.
    pub fn get_hashed(&self, key: &[u8], key_hash: Option<u64>) -> (r: Result<Option<Vec<u8>>>)
        ensures
            match key_hash {
                Some(h) => gives(lookup_hashed(self.model(), key@, h), r),
                None => gives(lookup(self.model(), key@), r),
            },
    {
        if let (Some(salt), Some(bloom)) = (self.salt, &self.bloom) {
            let h: u64 = match key_hash {
                Some(h) => h,
                None => murmur3_x64_128_h1(key, salt),
            };
            if !bloom.contains_hash(h) {
                return Ok(None);
            }
        }
        self.get_exact(key)
    }

    fn get_indexed(&self, idx: &BtreeIndex<'a>, key: &[u8]) -> (r: Result<Option<Vec<u8>>>)
        ensures
            ({
                let (lo, hi) = btree::narrow_in(idx.model(), key@);
                gives(search(self.model().seg, idx.model(), key@, lo, hi), r)
            }),
    {
        let ghost m = self.model().seg;
        let ghost b = idx.model();
        // The di-nodes cut the search to the one block of keys that can hold `key`;
        // without them this is the full range.
        let (l, h) = idx.narrow(key);
        let mut lo: u64 = l;
        let mut hi: u64 = h;
        let ghost goal = search(m, b, key@, l as int, h as int);
        let mut g = self.seg.getter();
        while lo < hi
            invariant
                goal == search(m, b, key@, lo as int, hi as int),
                m == self.model().seg,
                btree::narrow_in(b, key@) == (l as int, h as int),
                goal == search(m, b, key@, l as int, h as int),
                g.model() == m,
                b == idx.model(),
            decreases hi - lo,
        {
            let mid: u64 = lo + (hi - lo) / 2;
            let off: u64 = match idx.key_offset(mid) {
                Some(o) => o,
                None => return Err(Error::Format(FormatError::DamagedIndex)),
            };
            g.reset(off);
            if !g.has_next() {
                return Ok(None);
            }
            let probe: Vec<u8> = match g.try_next() {
                Some(p) => p,
                None => return Err(Error::Format(FormatError::BadWord)),
            };
            match lex_order(probe.as_slice(), key) {
                Order::Less => lo = mid + 1,
                Order::Greater => hi = mid,
                Order::Equal => return value_here(&mut g),
            }
        }
        Ok(None)
    }

    fn get_scan(&self, key: &[u8]) -> (r: Result<Option<Vec<u8>>>)
        ensures
            gives(scan(self.model().seg, key@, 0), r),
    {
        let ghost m = self.model().seg;
        let ghost goal = scan(m, key@, 0);
        let mut g = self.seg.getter();
        while g.has_next()
            invariant
                g.model() == m,
                m == self.model().seg,
                goal == scan(m, key@, 0),
                goal == scan(m, key@, g.at() as int),
            decreases words::left(m.words.len() - g.at()),
        {
            let at: u64 = g.offset();
            let k: Vec<u8> = match g.try_next() {
                Some(k) => k,
                None => return Err(Error::Format(FormatError::BadWord)),
            };
            match lex_order(k.as_slice(), key) {
                // Skipping the value avoids decompressing a word only to discard it.
                Order::Less => {
                    proof {
                        bytes::lemma_lex_total(k@, key@);
                    }
                    if !g.has_next() {
                        return Ok(None);
                    }
                    match g.try_skip() {
                        Some(_) => {},
                        None => return Err(Error::Format(FormatError::BadWord)),
                    }
                    if g.offset() <= at {
                        return Err(Error::Format(FormatError::BadWord));
                    }
                },
                // Keys are sorted.
                Order::Greater => return Ok(None),
                Order::Equal => return value_here(&mut g),
            }
        }
        Ok(None)
    }

    /// Iterate every `(key, value)` pair sequentially, in stored (key) order.
    pub fn iter(&'a self) -> (it: KvIter<'a>)
        ensures
            it.model() == self.model().seg,
            it.at() == 0,
    {
        KvIter { getter: self.seg.getter() }
    }
}

/// What a lookup returns for what it found.
pub open spec fn gives(f: Found, r: Result<Option<Vec<u8>>>) -> bool {
    match f {
        Ok(Some(v)) => r matches Ok(Some(x)) && x@ == v,
        Ok(None) => r matches Ok(o) && o is None,
        Err(e) => r == Err::<Option<Vec<u8>>, Error>(Error::Format(e)),
    }
}

/// The value at the cursor, behind the key that was looked for.
fn value_here(g: &mut Getter) -> (r: Result<Option<Vec<u8>>>)
    ensures
        final(g).model() == old(g).model(),
        match value_at(old(g).model(), old(g).at() as int) {
            Ok((v, next)) => r matches Ok(Some(x)) && x@ == v && final(g).at() == next,
            Err(e) => r == Err::<Option<Vec<u8>>, Error>(Error::Format(e)),
        },
{
    if !g.has_next() {
        let v: Vec<u8> = Vec::new();
        proof {
            assert(v@ =~= Seq::empty());
        }
        return Ok(Some(v));
    }
    match g.try_next() {
        Some(v) => Ok(Some(v)),
        None => Err(Error::Format(FormatError::BadWord)),
    }
}

/// The pair that starts at `at`, and where the next one starts.
pub open spec fn pair_at(m: SegModel, at: int) -> core::result::Result<(Seq<u8>, Seq<u8>, int), FormatError> {
    match words::decode_word(m, at) {
        None => Err(FormatError::BadWord),
        Some((k, v_at)) => match value_at(m, v_at) {
            Err(e) => Err(e),
            Ok((v, next)) => Ok((k, v, next)),
        },
    }
}

/// What a cursor at `at` gives next: the pair there and where it goes on, or why there is
/// none; `None` at the end of the file.
pub open spec fn next_pair(m: SegModel, at: int) -> Option<core::result::Result<(Seq<u8>, Seq<u8>, int), FormatError>> {
    if at >= m.words.len() { None } else { Some(pair_at(m, at)) }
}

/// Cursor over the `(key, value)` pairs of a [`KvReader`], in stored order.
pub struct KvIter<'a> {
    getter: Getter<'a>,
}

impl<'a> KvIter<'a> {
    /// The contents of the data file.
    pub closed spec fn model(&self) -> SegModel {
        self.getter.model()
    }

    /// Where the next pair starts.
    pub closed spec fn at(&self) -> u64 {
        self.getter.at()
    }

    /// The next pair; `None` at the end of the file. The cursor does not move past a
    /// damaged pair.
    pub fn next(&mut self) -> (r: Option<Result<(Vec<u8>, Vec<u8>)>>)
        ensures
            final(self).model() == old(self).model(),
            match next_pair(old(self).model(), old(self).at() as int) {
                None => r is None && final(self).at() == old(self).at(),
                Some(Ok((k, v, next))) => r matches Some(Ok((a, b))) && a@ == k && b@ == v && final(self).at() == next,
                Some(Err(e)) => r matches Some(x) && x == Err::<(Vec<u8>, Vec<u8>), Error>(Error::Format(e))
                    && final(self).at() == old(self).at(),
            },
    {
        if !self.getter.has_next() {
            return None;
        }
        let at: u64 = self.getter.offset();
        let key: Vec<u8> = match self.getter.try_next() {
            Some(k) => k,
            None => return Some(Err(Error::Format(FormatError::BadWord))),
        };
        match value_here(&mut self.getter) {
            Ok(Some(value)) => Some(Ok((key, value))),
            Ok(None) => None,
            Err(e) => {
                self.getter.reset(at);
                Some(Err(e))
            },
        }
    }
}

} // verus!
