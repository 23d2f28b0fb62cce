//! Writer for `seg` `.kv` files.
//!
//! Words are collected as they are added; [`SegWriter::finish`] encodes them. Without
//! compression the pattern dictionary is empty and all word bytes are literals; with it,
//! frequent substrings of the words become patterns. The output is a valid v0 file.

use vstd::prelude::*;

use crate::bytes;
use crate::bytes::{copy_bytes, texts};
use crate::coder;
use crate::compress;
use crate::compress::{weight, write_words};
use crate::dictionary::Dictionary;
use crate::error::{Error, FormatError, Result};
use crate::ngrams;
use crate::ngrams::build_patterns;

verus! {

/// `out` is a file that holds `ws`: with the best patterns if it is compressed, with none
/// otherwise.
pub open spec fn written(ws: Seq<Seq<u8>>, compress: bool, out: Seq<u8>) -> bool {
    exists|ps: Seq<Seq<u8>>| #[trigger] pattern_choice(ws, compress, ps) && out == coder::seg_bytes(ws, ps)
}

/// The patterns that a file of these words is written with.
pub open spec fn pattern_choice(ws: Seq<Seq<u8>>, compress: bool, ps: Seq<Seq<u8>>) -> bool {
    if compress { ngrams::selects(ngrams::sampled(ws), ps) } else { ps.len() == 0 }
}

struct Collected {
    words: Vec<Vec<u8>>,
    weight: u64,
}

/// Builds a `seg` `.kv` file from a sequence of words.
pub struct SegWriter {
    state: Collected,
    compress: bool,
}

impl SegWriter {
    #[verifier::type_invariant]
    spec fn inv(self) -> bool {
        self.state.weight == weight(texts(self.state.words@), self.state.words@.len())
    }

    /// The words added so far.
    pub closed spec fn words(&self) -> Seq<Seq<u8>> {
        texts(self.state.words@)
    }

    /// Whether the file will be pattern-compressed.
    pub closed spec fn compressing(&self) -> bool {
        self.compress
    }

    /// Create a writer without pattern compression.
    pub fn create() -> (w: SegWriter)
        ensures
            w.words() == Seq::<Seq<u8>>::empty(),
            !w.compressing(),
    {
        SegWriter::create_with(false)
    }

    /// Create a writer, with pattern compression if `compress` is set.
    pub fn create_with(compress: bool) -> (w: SegWriter)
        ensures
            w.words() == Seq::<Seq<u8>>::empty(),
            w.compressing() == compress,
    {
        let w = SegWriter { state: Collected { words: Vec::new(), weight: 0 }, compress };
        proof {
            assert(w.words() =~= Seq::empty());
        }
        w
    }

    /// Append one word. Words are emitted in the order added. Fails if the words would
    /// need more symbols than can be counted.
    pub fn add_word(&mut self, word: &[u8]) -> (r: Result<()>)
        ensures
            final(self).compressing() == old(self).compressing(),
            if weight(old(self).words(), old(self).words().len()) + word@.len() + 2 <= u64::MAX {
                r is Ok && final(self).words() == old(self).words().push(word@)
            } else {
                r == Err::<(), Error>(Error::Format(FormatError::TooLarge)) && final(self).words() == old(self).words()
            },
    {
        proof {
            use_type_invariant(&*self);
        }
        if word.len() as u64 > u64::MAX - 2 || self.state.weight > u64::MAX - 2 - word.len() as u64 {
            return Err(Error::Format(FormatError::TooLarge));
        }
        let ghost before = self.words();
        let copy = copy_bytes(word);
        let mut state = Collected { words: Vec::new(), weight: 0 };
        std::mem::swap(&mut state, &mut self.state);
        state.words.push(copy);
        state.weight = state.weight + word.len() as u64 + 2;
        proof {
            let after = texts(state.words@);
            assert(after =~= before.push(word@));
            lemma_weight_prefix(before, after, before.len());
        }
        self.state = state;
        Ok(())
    }

    /// Whether the words added so far and `extra` more symbols can still be counted.
    pub fn has_room(&self, extra: u128) -> (r: bool)
        ensures
            r == (weight(self.words(), self.words().len()) + extra <= u64::MAX),
    {
        proof {
            use_type_invariant(self);
        }
        extra <= (u64::MAX - self.state.weight) as u128
    }

    /// Number of words added so far.
    pub fn words_count(&self) -> (n: u64)
        ensures
            n == self.words().len(),
    {
        self.state.words.len() as u64
    }

    /// Finalize: the bytes of the `.kv` file.
    pub fn finish(self) -> (out: Vec<u8>)
        ensures
            written(self.words(), self.compressing(), out@),
    {
        proof {
            use_type_invariant(&self);
        }
        let ghost ws = self.words();
        let patterns: Vec<Vec<u8>> = if self.compress {
            build_patterns(&self.state.words)
        } else {
            Vec::new()
        };
        let ghost ps = texts(patterns@);
        let dict = Dictionary::new(patterns);
        proof {
            assert(pattern_choice(ws, self.compressing(), ps));
        }
        write_words(&self.state.words, &dict)
    }
}

/// The weight of some words depends on those alone.
pub proof fn lemma_weight_prefix(a: Seq<Seq<u8>>, b: Seq<Seq<u8>>, n: nat)
    requires
        n <= a.len(),
        n <= b.len(),
        forall|i: int| 0 <= i < n ==> #[trigger] a[i] == b[i],
    ensures
        weight(a, n) == weight(b, n),
    decreases n,
{
    if n > 0 {
        lemma_weight_prefix(a, b, (n - 1) as nat);
        assert(a[n - 1] == b[n - 1]);
    }
}

/// The bytes of a file are determined by its words.
pub proof fn law_written_is_unique(ws: Seq<Seq<u8>>, compress: bool, a: Seq<u8>, b: Seq<u8>)
    requires
        written(ws, compress, a),
        written(ws, compress, b),
    ensures
        a == b,
{
    let ps = choose|ps: Seq<Seq<u8>>| #[trigger] pattern_choice(ws, compress, ps) && a == coder::seg_bytes(ws, ps);
    let qs = choose|ps: Seq<Seq<u8>>| #[trigger] pattern_choice(ws, compress, ps) && b == coder::seg_bytes(ws, ps);
    if compress {
        ngrams::law_choice_is_unique(ngrams::sampled(ws), ps, qs);
    } else {
        assert(ps =~= qs);
    }
}

} // verus!
