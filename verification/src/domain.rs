//! High-level [`DomainWriter`]: consume sorted `(key, value)` pairs and make the full file
//! set: `.kv` data, `.bt` index, and (optionally) `.kvei` existence filter.
//!
//! Keys must be supplied strictly increasing (sorted and unique), matching a domain
//! `.kv`'s on-disk invariant. The `.kv` is made first; the `.bt` and `.kvei` are then built
//! from the finished file.

use vstd::prelude::*;

use crate::bt_writer;
use crate::bt_writer::{build_bt_from_seg, BtLayout, BtOptions, DEFAULT_BTREE_M};
use crate::bytes;
use crate::bytes::{copy_bytes, lex_lt, lex_order, Order};
use crate::compress;
use crate::compress::weight;
use crate::error::{Error, FormatError, Result};
use crate::kvei_writer;
use crate::kvei_writer::build_kvei_from_seg;
use crate::seg::Seg;
use crate::seg_writer;
use crate::seg_writer::SegWriter;
use crate::words;

verus! {

/// Options for [`DomainWriter`].
#[derive(Debug, Clone, Copy)]
pub struct DomainOptions {
    /// `.bt` index layout and fanout.
    pub bt: BtOptions,
    /// If set, a `.kvei` bloom filter is built using this salt; if `None`, no `.kvei` is
    /// produced.
    pub salt: Option<u32>,
    /// Whether to pattern-compress the `.kv` (smaller output, extra passes).
    pub compress: bool,
}

impl Default for DomainOptions {
    fn default() -> (o: DomainOptions)
        ensures
            o.bt.layout == BtLayout::Footer,
            o.bt.m == DEFAULT_BTREE_M,
            o.salt is None,
            !o.compress,
    {
        DomainOptions { bt: BtOptions::default(), salt: None, compress: false }
    }
}

/// The files made by [`DomainWriter::finish`].
#[derive(Debug)]
pub struct DomainFiles {
    /// The seg data file.
    pub kv: Vec<u8>,
    /// The B-tree index.
    pub bt: Vec<u8>,
    /// The existence filter, if one was built.
    pub kvei: Option<Vec<u8>>,
}

/// A key and its value.
pub type Pair = (Seq<u8>, Seq<u8>);

/// The words of a file that holds these pairs: keys and values in turn.
pub open spec fn words_of(pairs: Seq<Pair>) -> Seq<Seq<u8>> {
    Seq::new(2 * pairs.len(), |i: int| if i % 2 == 0 { pairs[i / 2].0 } else { pairs[i / 2].1 })
}

/// The keys of some pairs.
pub open spec fn keys_of(pairs: Seq<Pair>) -> Seq<Seq<u8>> {
    Seq::new(pairs.len(), |i: int| pairs[i].0)
}

/// What a pair adds to the weight of the words.
pub open spec fn pair_weight(key: Seq<u8>, value: Seq<u8>) -> nat {
    key.len() + value.len() + 4
}

/// Why a pair is refused behind the pairs added so far, if it is.
pub open spec fn refusal(pairs: Seq<Pair>, key: Seq<u8>, value: Seq<u8>) -> Option<FormatError> {
    if pairs.len() > 0 && !lex_lt(pairs.last().0, key) {
        Some(FormatError::KeyOrder)
    } else if weight(words_of(pairs), 2 * pairs.len()) + pair_weight(key, value) > u64::MAX {
        Some(FormatError::TooLarge)
    } else {
        None
    }
}

/// What finishing a file set of these words gives. The errors are those of opening the
/// finished `.kv` and of building its index and filter, in this order.
pub open spec fn domain_result(ws: Seq<Seq<u8>>, opts: DomainOptions, r: Result<DomainFiles>) -> bool {
    match r {
        Ok(f) => {
            &&& seg_writer::written(ws, opts.compress, f.kv@)
            &&& words::parse_seg(f.kv@, false) matches Some(m) && {
                &&& bt_writer::bt_result(m, f.kv@.len(), opts.bt, Ok(f.bt))
                &&& match (opts.salt, f.kvei) {
                    (Some(s), Some(k)) => kvei_writer::kvei_result(m, s, Ok(k)),
                    (None, None) => true,
                    _ => false,
                }
            }
        },
        Err(e) => exists|kv: Seq<u8>| #[trigger]
            seg_writer::written(ws, opts.compress, kv) && match words::parse_seg(kv, false) {
                None => e == Error::Format(FormatError::InvalidKv),
                Some(m) => {
                    ||| bt_writer::bt_result(m, kv.len(), opts.bt, Err(e))
                    ||| opts.salt matches Some(s) && kvei_writer::kvei_result(m, s, Err(e))
                },
            },
    }
}

/// Builds a domain file set from sorted `(key, value)` pairs.
pub struct DomainWriter {
    seg: SegWriter,
    opts: DomainOptions,
    last_key: Option<Vec<u8>>,
    key_count: u64,
    added: Ghost<Seq<Pair>>,
}

impl DomainWriter {
    #[verifier::type_invariant]
    spec fn inv(self) -> bool {
        &&& self.seg.words() == words_of(self.added@)
        &&& self.seg.compressing() == self.opts.compress
        &&& self.key_count == self.added@.len()
        &&& match self.last_key {
            Some(k) => self.added@.len() > 0 && self.added@.last().0 == k@,
            None => self.added@.len() == 0,
        }
        &&& crate::btree::increasing(keys_of(self.added@))
    }

    /// The pairs added so far.
    pub closed spec fn pairs(&self) -> Seq<Pair> {
        self.added@
    }

    /// The options given.
    pub closed spec fn options(&self) -> DomainOptions {
        self.opts
    }

    /// Create a writer that will make a `.kv` plus its `.bt` and `.kvei`.
    pub fn create(opts: DomainOptions) -> (w: DomainWriter)
        ensures
            w.pairs() == Seq::<Pair>::empty(),
            w.options() == opts,
    {
        let seg = SegWriter::create_with(opts.compress);
        proof {
            assert(words_of(Seq::empty()) =~= Seq::<Seq<u8>>::empty());
        }
        DomainWriter { seg, opts, last_key: None, key_count: 0, added: Ghost(Seq::empty()) }
    }

    /// Append one `(key, value)` pair. Keys must be strictly increasing. A pair that is
    /// refused changes nothing.
    pub fn add(&mut self, key: &[u8], value: &[u8]) -> (r: Result<()>)
        ensures
            final(self).options() == old(self).options(),
            match refusal(old(self).pairs(), key@, value@) {
                Some(e) => r == Err::<(), Error>(Error::Format(e)) && final(self).pairs() == old(self).pairs(),
                None => r is Ok && final(self).pairs() == old(self).pairs().push((key@, value@)),
            },
    {
        proof {
            use_type_invariant(&*self);
        }
        if let Some(last) = &self.last_key {
            match lex_order(last.as_slice(), key) {
                Order::Less => {},
                _ => {
                    proof {
                        bytes::lemma_lex_total(last@, key@);
                    }
                    return Err(Error::Format(FormatError::KeyOrder));
                },
            }
        }
        if !self.seg.has_room(key.len() as u128 + value.len() as u128 + 4) {
            return Err(Error::Format(FormatError::TooLarge));
        }
        let ghost before = self.added@;
        let opts = self.opts;
        let n: u64 = self.key_count;
        let mut w = DomainWriter::create(opts);
        std::mem::swap(&mut w, self);
        let mut seg = w.seg;
        let ghost words = seg.words();
        let _ = seg.add_word(key);
        let _ = seg.add_word(value);
        let ghost added = before.push((key@, value@));
        proof {
            seg_writer::lemma_weight_prefix(words, words.push(key@), words.len());
            assert(words_of(added) =~= words.push(key@).push(value@));
            let keys = keys_of(added);
            let old_keys = keys_of(before);
            assert forall|a: int, b: int| 0 <= a < b < keys.len() implies lex_lt(#[trigger] keys[a], #[trigger] keys[b]) by {
                assert(keys[a] == old_keys[a]);
                if b < old_keys.len() {
                    assert(keys[b] == old_keys[b]);
                } else {
                    let l = old_keys.len() - 1;
                    assert(old_keys[l] == before.last().0);
                    if a < l {
                        assert(lex_lt(old_keys[a], old_keys[l]));
                        bytes::lemma_lex_transitive(old_keys[a], old_keys[l], key@);
                    }
                }
            }
            assert(n < u64::MAX) by {
                compress::lemma_weight_counts(words, words.len());
            }
        }
        let last = copy_bytes(key);
        *self = DomainWriter { seg, opts, last_key: Some(last), key_count: n + 1, added: Ghost(added) };
        Ok(())
    }

    /// Number of keys added so far.
    pub fn key_count(&self) -> (n: u64)
        ensures
            n == self.pairs().len(),
    {
        proof {
            use_type_invariant(self);
        }
        self.key_count
    }

    /// Finalize: make the `.kv`, then build the `.bt` and (if a salt was given) `.kvei`.
    pub fn finish(self) -> (r: Result<DomainFiles>)
        ensures
            crate::btree::increasing(keys_of(self.pairs())),
            domain_result(words_of(self.pairs()), self.options(), r),
    {
        proof {
            use_type_invariant(&self);
        }
        let opts = self.opts;
        let kv = self.seg.finish();
        let seg = match Seg::open(kv.as_slice()) {
            Ok(s) => s,
            Err(e) => return Err(e),
        };
        let bt = match build_bt_from_seg(&seg, opts.bt) {
            Ok(b) => b,
            Err(e) => return Err(e),
        };
        let kvei = match opts.salt {
            Some(salt) => match build_kvei_from_seg(&seg, salt) {
                Ok(k) => Some(k),
                Err(e) => return Err(e),
            },
            None => None,
        };
        Ok(DomainFiles { kv, bt, kvei })
    }
}

} // verus!
