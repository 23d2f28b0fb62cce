//! What a lookup answers, whatever the files hold.

use vstd::prelude::*;

use crate::bloom;
use crate::btree;
use crate::btree::BtModel;
use crate::bytes::lex_lt;
use crate::domain;
use crate::domain::Pair;
use crate::error::FormatError;
use crate::hash;
use crate::readback;
use crate::reader;
use crate::reader::{Found, ReaderModel};
use crate::stack;
use crate::stack::FileModel;
use crate::words;
use crate::words::SegModel;

verus! {

/// The file has `value` behind `key` at byte `at`. A key at the very end of the file has the
/// empty value.
pub open spec fn stands_behind(m: SegModel, key: Seq<u8>, value: Seq<u8>, at: int) -> bool {
    &&& 0 <= at < m.words.len()
    &&& words::decode_word(m, at) matches Some((k, v_at)) && k == key && if v_at >= m.words.len() {
        value.len() == 0
    } else {
        words::decode_word(m, v_at) matches Some((v, _)) && v == value
    }
}

/// An answer that is right as far as it says something of the file.
spec fn sound(m: SegModel, key: Seq<u8>, f: Found) -> bool {
    ||| f == Ok::<Option<Seq<u8>>, FormatError>(None)
    ||| f == Err::<Option<Seq<u8>>, FormatError>(FormatError::BadWord)
    ||| f == Err::<Option<Seq<u8>>, FormatError>(FormatError::DamagedIndex)
    ||| exists|v: Seq<u8>, at: int| #[trigger]
        stands_behind(m, key, v, at) && f == Ok::<Option<Seq<u8>>, FormatError>(Some(v))
}

/// What is answered where the key stands.
spec fn answer_at(m: SegModel, v_at: int) -> Found {
    match reader::value_at(m, v_at) {
        Err(e) => Err(e),
        Ok((v, _)) => Ok(Some(v)),
    }
}

proof fn lemma_answer(m: SegModel, key: Seq<u8>, at: int, v_at: int)
    requires
        0 <= at < m.words.len(),
        words::decode_word(m, at) == Some((key, v_at)),
    ensures
        sound(m, key, answer_at(m, v_at)),
{
    let r = reader::value_at(m, v_at);
    match r {
        Ok(p) => {
            assert(stands_behind(m, key, p.0, at));
            let f = Ok::<Option<Seq<u8>>, FormatError>(Some(p.0));
            assert(answer_at(m, v_at) == f);
            assert(sound(m, key, f));
        },
        Err(e) => {
            assert(e == FormatError::BadWord);
        },
    }
}

#[verifier::spinoff_prover]
#[verifier::rlimit(30)]
proof fn lemma_search_finds(m: SegModel, b: BtModel, key: Seq<u8>, lo: int, hi: int)
    ensures
        sound(m, key, reader::search(m, b, key, lo, hi)),
    decreases hi - lo,
{
    let f = reader::search(m, b, key, lo, hi);
    if lo < hi {
        let mid = lo + (hi - lo) / 2;
        lemma_search_finds(m, b, key, lo, mid);
        lemma_search_finds(m, b, key, mid + 1, hi);
        match btree::key_offset_of(b, mid) {
            None => {
                assert(f == Err::<Option<Seq<u8>>, FormatError>(FormatError::DamagedIndex));
            },
            Some(off) => {
                if off >= m.words.len() {
                    assert(f == Ok::<Option<Seq<u8>>, FormatError>(None));
                } else {
                    let d = words::decode_word(m, off as int);
                    match d {
                        None => {
                            assert(f == Err::<Option<Seq<u8>>, FormatError>(FormatError::BadWord));
                        },
                        Some((k, at)) => {
                            if k == key {
                                lemma_answer(m, key, off as int, at);
                                assert(f == answer_at(m, at));
                            }
                        },
                    }
                }
            },
        }
    }
}

#[verifier::spinoff_prover]
#[verifier::rlimit(30)]
proof fn lemma_scan_finds(m: SegModel, key: Seq<u8>, at: int)
    requires
        0 <= at,
    ensures
        sound(m, key, reader::scan(m, key, at)),
    decreases words::left(m.words.len() - at),
{
    let f = reader::scan(m, key, at);
    if at < m.words.len() {
        let d = words::decode_word(m, at);
        match d {
            None => {
                assert(f == Err::<Option<Seq<u8>>, FormatError>(FormatError::BadWord));
            },
            Some((k, v_at)) => {
                if k == key {
                    lemma_answer(m, key, at, v_at);
                    assert(f == answer_at(m, v_at));
                } else if lex_lt(key, k) || v_at >= m.words.len() {
                    assert(f == Ok::<Option<Seq<u8>>, FormatError>(None));
                } else {
                    let s = words::skip_word(m, v_at);
                    match s {
                        None => {
                            assert(f == Err::<Option<Seq<u8>>, FormatError>(FormatError::BadWord));
                        },
                        Some((_, next)) => {
                            if next > at {
                                lemma_scan_finds(m, key, next);
                                assert(f == reader::scan(m, key, next));
                            } else {
                                assert(f == Err::<Option<Seq<u8>>, FormatError>(FormatError::BadWord));
                            }
                        },
                    }
                }
            },
        }
    }
}

proof fn lemma_exact_is_sound(r: ReaderModel, key: Seq<u8>)
    ensures
        sound(r.seg, key, reader::exact_lookup(r, key)),
{
    match r.index {
        Some(b) => {
            let p = btree::narrow_in(b, key);
            lemma_search_finds(r.seg, b, key, p.0, p.1);
        },
        None => {
            lemma_scan_finds(r.seg, key, 0);
        },
    }
}

/// A value is only ever found behind its key: whatever the files hold, damaged or not, what a
/// lookup gives stands in the data file behind the key that was asked for. Nothing but damage
/// makes it fail.
pub proof fn law_found_values_stand_behind_the_key(r: ReaderModel, key: Seq<u8>, f: Found)
    requires
        f == reader::lookup(r, key),
    ensures
        f is Ok ==> f == Ok::<Option<Seq<u8>>, FormatError>(None) || exists|v: Seq<u8>, at: int| #[trigger]
            stands_behind(r.seg, key, v, at) && f == Ok::<Option<Seq<u8>>, FormatError>(Some(v)),
        f is Err ==> f == Err::<Option<Seq<u8>>, FormatError>(FormatError::BadWord) || f == Err::<
            Option<Seq<u8>>,
            FormatError,
        >(FormatError::DamagedIndex),
{
    lemma_exact_is_sound(r, key);
    let e = reader::exact_lookup(r, key);
    assert(f == e || f == Ok::<Option<Seq<u8>>, FormatError>(None));
    assert(sound(r.seg, key, f));
}

/// What the filter does: one that is in use and lacks the hash of the key under the salt in
/// use answers at once that there is no such key; otherwise the filter changes nothing.
pub proof fn law_filter_answers_first(r: ReaderModel, key: Seq<u8>, h: u64)
    ensures
        r.salt is None ==> reader::lookup_hashed(r, key, h) == reader::exact_lookup(r, key),
        r.bloom is None ==> reader::lookup_hashed(r, key, h) == reader::exact_lookup(r, key),
        r.salt is Some ==> (r.bloom matches Some(f) ==> reader::lookup_hashed(r, key, h) == if bloom::filter_contains(f, h) {
            reader::exact_lookup(r, key)
        } else {
            Ok::<Option<Seq<u8>>, FormatError>(None)
        }),
        r.salt matches Some(s) ==> reader::lookup(r, key) == reader::lookup_hashed(r, key, hash::murmur3(key, s)),
        r.salt is None ==> reader::lookup(r, key) == reader::exact_lookup(r, key),
{
}

/// Without an index the file is read from its start: the first key that is not below the one
/// asked for decides.
pub proof fn law_scan_stops_at_the_first(m: SegModel, key: Seq<u8>, at: int, k: Seq<u8>, v_at: int)
    requires
        0 <= at < m.words.len(),
        words::decode_word(m, at) == Some((k, v_at)),
    ensures
        lex_lt(key, k) && k != key ==> reader::scan(m, key, at) == Ok::<Option<Seq<u8>>, FormatError>(None),
        k == key && v_at < m.words.len() ==> reader::scan(m, key, at) == match words::decode_word(m, v_at) {
            Some((v, _)) => Ok::<Option<Seq<u8>>, FormatError>(Some(v)),
            None => Err(FormatError::BadWord),
        },
        !lex_lt(key, k) && k != key && v_at < m.words.len() ==> match words::skip_word(m, v_at) {
            Some((_, next)) => next > at ==> reader::scan(m, key, at) == reader::scan(m, key, next),
            None => reader::scan(m, key, at) is Err,
        },
{
}

/// What a cursor that starts at `at` gives in `n` steps, and where it then stands.
pub open spec fn collected(m: SegModel, at: int, n: nat) -> Option<(Seq<Pair>, int)>
    decreases n,
{
    if n == 0 {
        Some((Seq::empty(), at))
    } else {
        match collected(m, at, (n - 1) as nat) {
            None => None,
            Some((pairs, p)) => match reader::next_pair(m, p) {
                Some(Ok((k, v, next))) => Some((pairs.push((k, v)), next)),
                _ => None,
            },
        }
    }
}

proof fn lemma_collected(m: SegModel, pairs: Seq<Pair>, offs: Seq<int>, n: nat)
    requires
        readback::stores(m, domain::words_of(pairs), offs),
        n <= pairs.len(),
    ensures
        collected(m, 0, n) == Some((pairs.take(n as int), offs[2 * n as int])),
    decreases n,
{
    if n > 0 {
        let j = n - 1;
        lemma_collected(m, pairs, offs, j as nat);
        readback::lemma_pair(m, pairs, offs, j);
        assert(offs[2 * j] < offs[offs.len() - 1]);
        assert(pairs.take(j).push((pairs[j].0, pairs[j].1)) =~= pairs.take(n as int));
    } else {
        assert(pairs.take(0) =~= Seq::empty());
    }
}

/// A cursor gives every pair of a file, in order, and then no more.
pub proof fn law_cursor_gives_all_pairs(r: ReaderModel, pairs: Seq<Pair>)
    requires
        readback::holds(r, pairs),
    ensures
        collected(r.seg, 0, pairs.len()) matches Some((all, end)) && all == pairs && reader::next_pair(r.seg, end) is None,
{
    let offs = choose|offs: Seq<int>| #[trigger] readback::holds_at(r, pairs, offs);
    lemma_collected(r.seg, pairs, offs, pairs.len());
    assert(pairs.take(pairs.len() as int) =~= pairs);
}

/// A cursor is only stopped by the end of the file, and by damage: where two words stand one
/// behind the other, it gives them.
pub proof fn law_cursor_gives_what_stands(m: SegModel, at: int, k: Seq<u8>, v_at: int, v: Seq<u8>, next: int)
    requires
        0 <= at < m.words.len(),
        words::decode_word(m, at) == Some((k, v_at)),
    ensures
        v_at < m.words.len() && words::decode_word(m, v_at) == Some((v, next)) ==> reader::next_pair(m, at) == Some(
            Ok::<(Seq<u8>, Seq<u8>, int), FormatError>((k, v, next)),
        ),
        v_at < m.words.len() && words::decode_word(m, v_at) is None ==> reader::next_pair(m, at) == Some(
            Err::<(Seq<u8>, Seq<u8>, int), FormatError>(FormatError::BadWord),
        ),
        v_at >= m.words.len() ==> reader::next_pair(m, at) == Some(
            Ok::<(Seq<u8>, Seq<u8>, int), FormatError>((k, Seq::empty(), v_at)),
        ),
{
}

// ------------------------------------------------------------------ opening

/// A set of files opens exactly if its data file does and its index, if there is one, does;
/// a filter never prevents it. What it holds is what its files hold.
pub proof fn law_opening(kv: Seq<u8>, bt: Option<Seq<u8>>, kvei: Option<Seq<u8>>, has_metadata: bool)
    ensures
        match words::parse_seg(kv, has_metadata) {
            None => reader::opened(kv, bt, kvei, has_metadata) == Err::<ReaderModel, FormatError>(FormatError::InvalidKv),
            Some(seg) => match reader::opened(kv, bt, kvei, has_metadata) {
                Ok(r) => {
                    &&& r.seg == seg
                    &&& match bt {
                        Some(d) => btree::parse_bt(d) matches Ok(b) && r.index == Some(b),
                        None => r.index is None,
                    }
                    &&& match kvei {
                        Some(d) => r.bloom == Some(bloom::parse_filter(d)),
                        None => r.bloom is None,
                    }
                },
                Err(e) => bt matches Some(d) && btree::parse_bt(d) == Err::<BtModel, FormatError>(e),
            },
        },
{
}

// ------------------------------------------------------------------ stacks

/// Damage is not passed over: where the newest file that has something to say about a key is
/// damaged, the lookup fails with it, whatever older files hold.
pub proof fn law_damage_is_reported(files: Seq<FileModel>, key: Seq<u8>, i: int, e: FormatError)
    requires
        0 <= i < files.len(),
        reader::lookup(files[i].data, key) == Err::<Option<Seq<u8>>, FormatError>(e),
        forall|j: int| i < j < files.len() ==> reader::lookup((#[trigger] files[j]).data, key) == Ok::<
            Option<Seq<u8>>,
            FormatError,
        >(None),
    ensures
        stack::stack_lookup(files, key) == Err::<Option<Seq<u8>>, FormatError>(e),
{
    lemma_newest_down(files, key, i, files.len());
}

proof fn lemma_newest_down(files: Seq<FileModel>, key: Seq<u8>, i: int, n: nat)
    requires
        0 <= i < n <= files.len(),
        reader::lookup(files[i].data, key) != Ok::<Option<Seq<u8>>, FormatError>(None),
        forall|j: int| i < j < files.len() ==> reader::lookup((#[trigger] files[j]).data, key) == Ok::<
            Option<Seq<u8>>,
            FormatError,
        >(None),
    ensures
        stack::newest(stack::answers(files, key), n) == reader::lookup(files[i].data, key),
    decreases n,
{
    let a = stack::answers(files, key);
    assert(a[n - 1] == reader::lookup(files[n - 1].data, key));
    if n - 1 > i {
        lemma_newest_down(files, key, i, (n - 1) as nat);
    }
}

} // verus!
