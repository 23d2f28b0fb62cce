//! A newest-wins stack of seg files spanning a step range.
//!
//! Erigon keeps a domain's state across several files covering successive *step* ranges
//! (e.g. `v1.1-accounts.0-1024.kv`, `v1.1-accounts.1024-2048.kv`, …). A newer file may
//! override a key carried by an older one, so a point lookup must consult the files
//! newest-first and return the first hit. [`KvStack`] wraps an ordered set of
//! [`KvReader`]s and implements exactly that semantics, resolving the `.kvei` bloom salt
//! once and enabling each file's filter against it.

use vstd::prelude::*;

use crate::bytes::copy_bytes;
use crate::error::{Error, FormatError, Result};
use crate::hash::murmur3_x64_128_h1;
use crate::names;
use crate::names::step_key;
use crate::reader;
use crate::reader::{capped, capped_sum, Found, KvReader, ReaderModel};
use crate::salt::Salt;

verus! {

/// One file of a stack: its name and its contents.
pub struct FileModel {
    pub name: Seq<u8>,
    pub data: ReaderModel,
}

/// The files that readers stand for.
pub open spec fn files_of(readers: Seq<KvReader>) -> Seq<FileModel> {
    Seq::new(readers.len(), |i: int| FileModel { name: readers[i].file_name(), data: readers[i].model() })
}

/// File `i` comes before file `j`: by step range, and as given where that is the same.
pub open spec fn older(files: Seq<FileModel>, i: int, j: int) -> bool {
    let (a, b) = names::step_key_spec(files[i].name);
    let (c, d) = names::step_key_spec(files[j].name);
    a < c || (a == c && (b < d || (b == d && i < j)))
}

/// `order` lists the files from oldest to newest. No file is listed twice, since none is
/// older than itself, so all are.
pub open spec fn age_order(files: Seq<FileModel>, order: Seq<int>) -> bool {
    &&& order.len() == files.len()
    &&& forall|a: int| 0 <= a < order.len() ==> 0 <= #[trigger] order[a] < files.len()
    &&& forall|a: int, b: int| 0 <= a < b < order.len() ==> older(files, #[trigger] order[a], #[trigger] order[b])
}

/// The salt that a stack of files, oldest first, uses.
pub open spec fn resolved_salt(sorted: Seq<FileModel>, salt: Salt) -> Option<u32> {
    match salt {
        Salt::Off => None,
        Salt::Known(s) => Some(s),
        Salt::Find(_) => if sorted.len() > 0 { reader::least_salt(sorted[0].data, 0) } else { None },
    }
}

/// A file with its filter enabled, if there is a salt and the filter can be used with it.
pub open spec fn with_salt(f: FileModel, salt: Option<u32>) -> FileModel {
    match salt {
        None => f,
        Some(s) => match reader::enabled_salt(f.data, Salt::Known(s)) {
            None => f,
            Some(_) => FileModel { data: ReaderModel { salt: Some(s), ..f.data }, ..f },
        },
    }
}

/// `stacked` is what opening `given` as a stack makes of it: all files, oldest first, each
/// with its filter enabled where that is possible.
pub open spec fn stacks(given: Seq<FileModel>, salt: Salt, stacked: Seq<FileModel>, used: Option<u32>) -> bool {
    exists|order: Seq<int>| #[trigger]
        age_order(given, order) && {
            let sorted = Seq::new(given.len(), |i: int| given[order[i]]);
            &&& used == resolved_salt(sorted, salt)
            &&& stacked == Seq::new(given.len(), |i: int| with_salt(sorted[i], used))
        }
}

/// What each file says about a key.
pub open spec fn answers(files: Seq<FileModel>, key: Seq<u8>) -> Seq<Found> {
    Seq::new(files.len(), |i: int| reader::lookup(files[i].data, key))
}

/// The last of the first `n` answers that is not "absent".
pub open spec fn newest(a: Seq<Found>, n: nat) -> Found
    decreases n,
{
    if n == 0 {
        Ok(None)
    } else {
        match a[n - 1] {
            Ok(None) => newest(a, (n - 1) as nat),
            f => f,
        }
    }
}

/// A lookup in files from oldest to newest: the answer of the newest file that has the
/// key, or that is damaged where it is looked at.
pub open spec fn stack_lookup(files: Seq<FileModel>, key: Seq<u8>) -> Found {
    newest(answers(files, key), files.len())
}

/// Bytes of the index files that lookups in the first `n` files read.
pub open spec fn index_sizes(files: Seq<FileModel>, n: nat) -> nat
    decreases n,
{
    if n == 0 {
        0
    } else {
        index_sizes(files, (n - 1) as nat) + reader::index_size(files[n - 1].data)
    }
}

/// Bytes of the first `n` files, data and index, that lookups read.
pub open spec fn total_sizes(files: Seq<FileModel>, n: nat) -> nat
    decreases n,
{
    if n == 0 {
        0
    } else {
        total_sizes(files, (n - 1) as nat) + files[n - 1].data.kv_size + reader::index_size(files[n - 1].data)
    }
}

/// Number of the first `n` files whose filter is in use.
pub open spec fn active_files(files: Seq<FileModel>, n: nat) -> nat
    decreases n,
{
    if n == 0 {
        0
    } else {
        active_files(files, (n - 1) as nat) + if files[n - 1].data.salt is Some { 1nat } else { 0nat }
    }
}

proof fn lemma_newest(a: Seq<Found>, n: nat)
    requires
        n <= a.len(),
        forall|i: int| 0 <= i < n ==> (#[trigger] a[i]) is Ok,
    ensures
        match newest(a, n) {
            Ok(Some(v)) => exists|i: int| 0 <= i < n && #[trigger] a[i] == Ok::<Option<Seq<u8>>, FormatError>(Some(v)) && absent_in(a, i + 1, n as int),
            Ok(None) => absent_in(a, 0, n as int),
            Err(_) => false,
        },
    decreases n,
{
    if n > 0 && a[n - 1] == Ok::<Option<Seq<u8>>, FormatError>(None) {
        lemma_newest(a, (n - 1) as nat);
    }
}

/// All answers from `lo` to `hi` are "absent".
pub open spec fn absent_in(a: Seq<Found>, lo: int, hi: int) -> bool {
    forall|j: int| lo <= j < hi ==> #[trigger] a[j] == Ok::<Option<Seq<u8>>, FormatError>(None)
}

/// Newest wins: if no file is damaged, a lookup gives the value of the newest file that
/// has the key, and nothing only if no file has it.
pub proof fn law_newest_wins(files: Seq<FileModel>, key: Seq<u8>)
    requires
        forall|i: int| 0 <= i < files.len() ==> (#[trigger] answers(files, key)[i]) is Ok,
    ensures
        match stack_lookup(files, key) {
            Ok(Some(v)) => exists|i: int|
                0 <= i < files.len() && #[trigger] answers(files, key)[i] == Ok::<Option<Seq<u8>>, FormatError>(Some(v))
                    && absent_in(answers(files, key), i + 1, files.len() as int),
            Ok(None) => absent_in(answers(files, key), 0, files.len() as int),
            Err(_) => false,
        },
{
    lemma_newest(answers(files, key), files.len());
}

/// A stack of seg files for one domain, queried newest-first so overrides win.
///
/// The salt is resolved once at [`open`](KvStack::open) time (brute-forced from the oldest
/// file when [`Salt::Find`] is used) and then applied to every file's bloom, so a wrong or
/// absent salt only disables the negative-lookup speedup: it can never cause a missed key.
pub struct KvStack<'a> {
    /// Ordered oldest to newest; queried in reverse so the newest match wins.
    readers: Vec<KvReader<'a>>,
    /// The resolved salt, if one was supplied or found.
    salt: Option<u32>,
}

fn is_older(a: (u64, u64), b: (u64, u64)) -> (r: bool)
    ensures
        r == (a.0 < b.0 || (a.0 == b.0 && a.1 < b.1)),
{
    a.0 < b.0 || (a.0 == b.0 && a.1 < b.1)
}

impl<'a> KvStack<'a> {
    /// The files, oldest to newest.
    pub closed spec fn files_model(&self) -> Seq<FileModel> {
        files_of(self.readers@)
    }

    /// The salt that was resolved.
    pub closed spec fn salt_used(&self) -> Option<u32> {
        self.salt
    }

    /// Take a set of readers as a newest-wins stack. The files are sorted oldest to newest
    /// by their `<from>-<to>` step range (parsed from the file name), so the caller need
    /// not pre-sort them. Fails if there are none.
    ///
    /// `salt` controls the `.kvei` bloom accelerator (see [`Salt`]): the salt is resolved
    /// once (brute-forced from the oldest file for [`Salt::Find`]) and each file's bloom
    /// is enabled only if it self-validates against that file's real keys.
    pub fn open(readers: Vec<KvReader<'a>>, salt: Salt) -> (r: Result<KvStack<'a>>)
        ensures
            if readers@.len() == 0 {
                r == Err::<KvStack<'a>, Error>(Error::Format(FormatError::NoFiles))
            } else {
                r matches Ok(s) && stacks(files_of(readers@), salt, s.files_model(), s.salt_used())
            },
    {
        if readers.len() == 0 {
            return Err(Error::Format(FormatError::NoFiles));
        }
        let ghost given = files_of(readers@);
        let (mut readers, Ghost(order)) = sort_by_age(readers);
        let ghost sorted = Seq::new(given.len(), |i: int| given[order[i]]);
        let resolved: Option<u32> = match salt {
            Salt::Off => None,
            Salt::Known(s) => Some(s),
            Salt::Find(threads) => readers[0].find_salt(threads),
        };
        proof {
            assert(files_of(readers@) =~= sorted);
            assert(sorted[0] == files_of(readers@)[0]);
        }
        if let Some(s) = resolved {
            let n: usize = readers.len();
            let mut i: usize = 0;
            while i < n
                invariant
                    i <= n,
                    n == readers@.len(),
                    n == sorted.len(),
                    forall|j: int| 0 <= j < i ==> #[trigger] files_of(readers@)[j] == with_salt(sorted[j], Some(s)),
                    forall|j: int| i <= j < n ==> #[trigger] files_of(readers@)[j] == sorted[j],
                decreases n - i,
            {
                let ghost before = readers@;
                let mut r = readers.remove(i);
                r.enable_bloom(Salt::Known(s));
                readers.insert(i, r);
                proof {
                    assert forall|j: int| 0 <= j < n && j != i implies #[trigger] readers@[j] == before[j] by {}
                    assert(files_of(before)[i as int] == sorted[i as int]);
                    assert(files_of(readers@)[i as int] == with_salt(sorted[i as int], Some(s)));
                    assert forall|j: int| 0 <= j < n && j != i implies #[trigger] files_of(readers@)[j] == files_of(before)[j] by {
                        assert(readers@[j] == before[j]);
                    }
                }
                i = i + 1;
            }
        }
        let stack = KvStack { readers, salt: resolved };
        proof {
            assert(stack.files_model() =~= Seq::new(given.len(), |i: int| with_salt(sorted[i], resolved)));
            assert(age_order(given, order));
        }
        Ok(stack)
    }

    /// The resolved bloom salt, if one was supplied or found.
    pub fn salt(&self) -> (s: Option<u32>)
        ensures
            s == self.salt_used(),
    {
        self.salt
    }

    /// Number of files with an active (validated) bloom accelerator.
    pub fn bloom_count(&self) -> (n: usize)
        ensures
            n == active_files(self.files_model(), self.files_model().len()),
    {
        let mut n: usize = 0;
        let mut i: usize = 0;
        while i < self.readers.len()
            invariant
                i <= self.readers.len(),
                n <= i,
                n == active_files(self.files_model(), i as nat),
            decreases self.readers.len() - i,
        {
            if self.readers[i].bloom_active() {
                n = n + 1;
            }
            i = i + 1;
        }
        n
    }

    /// Number of files in the stack.
    pub fn len(&self) -> (n: usize)
        ensures
            n == self.files_model().len(),
    {
        self.readers.len()
    }

    /// Whether the stack has no files. (Never true for a stack from
    /// [`open`](KvStack::open), which rejects an empty input.)
    pub fn is_empty(&self) -> (r: bool)
        ensures
            r == (self.files_model().len() == 0),
    {
        self.readers.len() == 0
    }

    /// The readers, oldest to newest.
    pub fn readers(&self) -> (r: &[KvReader<'a>])
        ensures
            files_of(r@) == self.files_model(),
    {
        self.readers.as_slice()
    }

    /// The file name and the number of keys of each file, oldest to newest.
    pub fn files(&self) -> (r: Vec<(Vec<u8>, u64)>)
        ensures
            r@.len() == self.files_model().len(),
            forall|i: int| 0 <= i < r@.len() ==> (#[trigger] r@[i]).0@ == self.files_model()[i].name && r@[i].1
                == reader::reader_key_count(self.files_model()[i].data),
    {
        let mut out: Vec<(Vec<u8>, u64)> = Vec::new();
        let mut i: usize = 0;
        while i < self.readers.len()
            invariant
                i <= self.readers.len(),
                out@.len() == i,
                forall|j: int| 0 <= j < i ==> (#[trigger] out@[j]).0@ == self.files_model()[j].name && out@[j].1
                    == reader::reader_key_count(self.files_model()[j].data),
            decreases self.readers.len() - i,
        {
            let name = copy_bytes(self.readers[i].name());
            out.push((name, self.readers[i].key_count()));
            i = i + 1;
        }
        out
    }

    /// Bytes of the index files that lookups read, in all files (see
    /// [`KvReader::index_bytes`]).
    pub fn index_bytes(&self) -> (n: u64)
        ensures
            n == capped(index_sizes(self.files_model(), self.files_model().len())),
    {
        let mut n: u64 = 0;
        let mut i: usize = 0;
        while i < self.readers.len()
            invariant
                i <= self.readers.len(),
                n == capped(index_sizes(self.files_model(), i as nat)),
            decreases self.readers.len() - i,
        {
            n = capped_sum(n, self.readers[i].index_bytes());
            i = i + 1;
        }
        n
    }

    /// Bytes of all files, data and index, that lookups read (see
    /// [`KvReader::total_bytes`]).
    pub fn total_bytes(&self) -> (n: u64)
        ensures
            n == capped(total_sizes(self.files_model(), self.files_model().len())),
    {
        let mut n: u64 = 0;
        let mut i: usize = 0;
        while i < self.readers.len()
            invariant
                i <= self.readers.len(),
                n == capped(total_sizes(self.files_model(), i as nat)),
            decreases self.readers.len() - i,
        {
            n = capped_sum(n, self.readers[i].total_bytes());
            i = i + 1;
        }
        n
    }

    /// Look up `key` across all files, newest-first; gives the value from the newest file
    /// that contains it (overrides win), or `None` if no file has it. The key is hashed
    /// once for all files that use the salt of the stack.
    pub fn get(&self, key: &[u8]) -> (r: Result<Option<Vec<u8>>>)
        ensures
            reader::gives(stack_lookup(self.files_model(), key@), r),
    {
        let ghost files = self.files_model();
        let hash: Option<u64> = match self.salt {
            Some(s) => Some(murmur3_x64_128_h1(key, s)),
            None => None,
        };
        let mut i: usize = self.readers.len();
        while i > 0
            invariant
                i <= self.readers.len(),
                files == self.files_model(),
                stack_lookup(files, key@) == newest(answers(files, key@), i as nat),
                hash is Some == self.salt is Some,
                hash matches Some(h) ==> h == crate::hash::murmur3(key@, self.salt->0),
            decreases i,
        {
            i = i - 1;
            let r = &self.readers[i];
            let shared: bool = match (r.salt(), self.salt) {
                (Some(a), Some(b)) => a == b,
                _ => false,
            };
            proof {
                assert(files[i as int].data == r.model());
            }
            match r.get_hashed(key, if shared { hash } else { None }) {
                Ok(None) => {},
                Ok(Some(v)) => return Ok(Some(v)),
                Err(e) => return Err(e),
            }
        }
        Ok(None)
    }
}

/// The readers from oldest to newest, and what place each had before.
fn sort_by_age<'a>(readers: Vec<KvReader<'a>>) -> (r: (Vec<KvReader<'a>>, Ghost<Seq<int>>))
    ensures
        age_order(files_of(readers@), r.1@),
        r.0@.len() == readers@.len(),
        forall|i: int| 0 <= i < r.0@.len() ==> #[trigger] r.0@[i] == readers@[r.1@[i]],
{
    let ghost given = readers@;
    let ghost files = files_of(given);
    let n: usize = readers.len();
    let mut readers = readers;
    let ghost mut order: Seq<int> = Seq::empty();
    let mut i: usize = 0;
    // The first `i` readers are sorted.
    while i < n
        invariant
            i <= n,
            n == given.len(),
            readers@.len() == n,
            files == files_of(given),
            order.len() == i,
            forall|a: int| 0 <= a < i ==> 0 <= #[trigger] order[a] < i,
            forall|a: int, b: int| 0 <= a < b < i ==> older(files, #[trigger] order[a], #[trigger] order[b]),
            forall|a: int| 0 <= a < i ==> #[trigger] readers@[a] == given[order[a]],
            forall|a: int| i <= a < n ==> #[trigger] readers@[a] == given[a],
        decreases n - i,
    {
        let ghost before = readers@;
        let r = readers.remove(i);
        let key = step_key(r.name());
        let mut p: usize = i;
        while p > 0 && is_older(key, step_key(readers[p - 1].name()))
            invariant
                p <= i,
                i < n,
                n == given.len(),
                readers@ == before.remove(i as int),
                before.len() == n,
                files == files_of(given),
                order.len() == i,
                r == given[i as int],
                key == names::step_key_spec(r.file_name()),
                forall|a: int| 0 <= a < i ==> 0 <= #[trigger] order[a] < i,
                forall|a: int| 0 <= a < i ==> #[trigger] before[a] == given[order[a]],
                forall|a: int| p <= a < i ==> older(files, i as int, #[trigger] order[a]),
            decreases p,
        {
            p = p - 1;
            proof {
                assert(readers@[p as int] == before[p as int]);
                assert(files[order[p as int]].name == given[order[p as int]].file_name());
            }
        }
        proof {
            // Everything before the place found is older.
            if p > 0 {
                assert(readers@[p - 1] == before[p - 1]);
                assert(before[p - 1] == given[order[p - 1]]);
                assert(older(files, order[p - 1], i as int));
                assert forall|a: int| 0 <= a < p implies older(files, #[trigger] order[a], i as int) by {
                    if a < p - 1 {
                        assert(older(files, order[a], order[p - 1]));
                    }
                }
            }
            let o = order;
            order = o.insert(p as int, i as int);
            assert forall|a: int, b: int| 0 <= a < b < i + 1 implies older(files, #[trigger] order[a], #[trigger] order[b]) by {
                let oa = if a < p { a } else { a - 1 };
                let ob = if b < p { b } else { b - 1 };
                if a == p {
                    assert(order[b] == o[ob]);
                } else if b == p {
                    assert(order[a] == o[oa]);
                } else {
                    assert(order[a] == o[oa] && order[b] == o[ob]);
                }
            }
            assert forall|a: int| 0 <= a < i + 1 implies 0 <= #[trigger] order[a] < i + 1 by {
                if a != p {
                    assert(order[a] == o[if a < p { a } else { a - 1 }]);
                }
            }
        }
        let ghost removed = readers@;
        readers.insert(p, r);
        proof {
            assert forall|a: int| 0 <= a < i + 1 implies #[trigger] readers@[a] == given[order[a]] by {
                if a < p {
                    assert(readers@[a] == removed[a] && removed[a] == before[a]);
                } else if a > p {
                    assert(readers@[a] == removed[a - 1] && removed[a - 1] == before[a - 1]);
                }
            }
            assert forall|a: int| i + 1 <= a < n implies #[trigger] readers@[a] == given[a] by {
                assert(readers@[a] == removed[a - 1] && removed[a - 1] == before[a]);
            }
        }
        i = i + 1;
    }
    (readers, Ghost(order))
}

} // verus!
