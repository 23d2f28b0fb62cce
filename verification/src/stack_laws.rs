//! The order of a stack, the salt it uses, and the sizes it reports.

use vstd::prelude::*;

use crate::ages;
use crate::bloom;
use crate::domain::Pair;
use crate::error::FormatError;
use crate::hash;
use crate::names;
use crate::newest;
use crate::readback;
use crate::reader;
use crate::reader::ReaderModel;
use crate::salt::Salt;
use crate::stack;
use crate::stack::FileModel;

verus! {

/// `order` lists the files by the step ranges that their names spell: by first step, then
/// by last step, and as given where both are the same. A name without a range counts as
/// `0-0`.
pub open spec fn by_range(files: Seq<FileModel>, order: Seq<int>) -> bool {
    let range = |i: int|
        match names::step_range(files[i].name) {
            Some(r) => r,
            None => (0u64, 0u64),
        };
    &&& order.len() == files.len()
    &&& forall|a: int| 0 <= a < order.len() ==> 0 <= #[trigger] order[a] < files.len()
    &&& forall|a: int, b: int|
        0 <= a < b < order.len() ==> {
            let (x, y) = (range(#[trigger] order[a]), range(#[trigger] order[b]));
            ||| x.0 < y.0
            ||| x.0 == y.0 && x.1 < y.1
            ||| x.0 == y.0 && x.1 == y.1 && order[a] < order[b]
        }
}

proof fn lemma_by_range(files: Seq<FileModel>, order: Seq<int>)
    requires
        by_range(files, order),
    ensures
        stack::age_order(files, order),
{
}

/// What opening a stack makes of the files it is given: all of them, by step range. The salt
/// is the one given, or the one that a search in the oldest file finds, or none. Each file
/// stays as it was, except that it uses this salt where enabling its filter with it
/// succeeds.
pub proof fn law_stack_is_ordered_by_range(
    given: Seq<FileModel>,
    salt: Salt,
    stacked: Seq<FileModel>,
    used: Option<u32>,
    order: Seq<int>,
)
    requires
        stack::stacks(given, salt, stacked, used),
        by_range(given, order),
    ensures
        stacked.len() == given.len(),
        used == match salt {
            Salt::Off => None,
            Salt::Known(s) => Some(s),
            Salt::Find(_) => if given.len() > 0 { reader::least_salt(given[order[0]].data, 0) } else { None },
        },
        forall|i: int|
            0 <= i < given.len() ==> {
                let f = given[order[i]];
                (#[trigger] stacked[i]) == FileModel {
                    name: f.name,
                    data: ReaderModel {
                        salt: if used is Some && reader::enabled_salt(f.data, Salt::Known(used->0)) is Some {
                            used
                        } else {
                            f.data.salt
                        },
                        ..f.data
                    },
                }
            },
{
    let a = choose|order: Seq<int>| #[trigger]
        stack::age_order(given, order) && {
            let sorted = Seq::new(given.len(), |i: int| given[order[i]]);
            &&& used == stack::resolved_salt(sorted, salt)
            &&& stacked == Seq::new(given.len(), |i: int| stack::with_salt(sorted[i], used))
        };
    lemma_by_range(given, order);
    ages::law_one_age_order(given, a, order);
}

/// A lookup in a stack gives the value of the newest file that has the key, by step range,
/// under any salt, and nothing only if none has it.
pub proof fn law_stack_lookup_by_range(
    given: Seq<FileModel>,
    lists: Seq<Seq<Pair>>,
    salt: Salt,
    stacked: Seq<FileModel>,
    used: Option<u32>,
    order: Seq<int>,
    key: Seq<u8>,
    i: int,
)
    requires
        newest::files_hold(given, lists),
        stack::stacks(given, salt, stacked, used),
        by_range(given, order),
        -1 <= i < order.len(),
        // No file newer than the `i`-th has the key.
        forall|a: int, j: int|
            i < a < order.len() && 0 <= j < lists[order[a]].len() ==> (#[trigger] lists[order[a]][j]).0 != key,
    ensures
        i < 0 ==> stack::stack_lookup(stacked, key) == Ok::<Option<Seq<u8>>, FormatError>(None),
        i >= 0 ==> forall|j: int|
            0 <= j < lists[order[i]].len() && (#[trigger] lists[order[i]][j]).0 == key ==> stack::stack_lookup(stacked, key)
                == Ok::<Option<Seq<u8>>, FormatError>(Some(lists[order[i]][j].1)),
{
    let n = lists.len();
    lemma_by_range(given, order);
    ages::law_stack_finds_newest_under_any_salt(given, lists, salt, stacked, used, order, key);
    let sorted = Seq::new(n, |a: int| lists[order[a]]);
    assert forall|a: int| i < a < n implies newest::value_in(#[trigger] sorted[a], key) is None by {
        assert forall|j: int| 0 <= j < sorted[a].len() implies (#[trigger] sorted[a][j]).0 != key by {
            assert(lists[order[a]][j].0 != key);
        }
        newest::lemma_value_absent(sorted[a], key);
    }
    if i < 0 {
        lemma_newest_absent(sorted, key, n);
    } else {
        assert forall|j: int| 0 <= j < lists[order[i]].len() && (#[trigger] lists[order[i]][j]).0 == key implies stack::stack_lookup(
            stacked,
            key,
        ) == Ok::<Option<Seq<u8>>, FormatError>(Some(lists[order[i]][j].1)) by {
            assert(0 <= order[i] < given.len());
            assert(readback::holds(given[order[i]].data, lists[order[i]]));
            newest::lemma_value_is(sorted[i], j);
            lemma_newest_at(sorted, key, i, n);
        }
    }
}

proof fn lemma_newest_absent(lists: Seq<Seq<Pair>>, key: Seq<u8>, n: nat)
    requires
        n <= lists.len(),
        forall|a: int| 0 <= a < n ==> newest::value_in(#[trigger] lists[a], key) is None,
    ensures
        newest::newest_value(lists, key, n) is None,
    decreases n,
{
    if n > 0 {
        assert(newest::value_in(lists[n - 1], key) is None);
        lemma_newest_absent(lists, key, (n - 1) as nat);
    }
}

proof fn lemma_newest_at(lists: Seq<Seq<Pair>>, key: Seq<u8>, i: int, n: nat)
    requires
        0 <= i < n <= lists.len(),
        newest::value_in(lists[i], key) is Some,
        forall|a: int| i < a < n ==> newest::value_in(#[trigger] lists[a], key) is None,
    ensures
        newest::newest_value(lists, key, n) == newest::value_in(lists[i], key),
    decreases n,
{
    if n - 1 > i {
        assert(newest::value_in(lists[n - 1], key) is None);
        lemma_newest_at(lists, key, i, (n - 1) as nat);
    }
}

// ------------------------------------------------------------------ salts

/// A salt validates against some keys of the file exactly if there is a filter that can
/// rule out keys, the keys could be read, there is at least one, and the filter has the
/// hash of each under the salt.
pub proof fn law_validation(r: ReaderModel, salt: u32, n: nat)
    ensures
        reader::validates(r, salt, n) == match (r.bloom, reader::samples(r, n)) {
            (Some(f), Some(keys)) => f is Bloom && keys.len() > 0 && forall|i: int|
                0 <= i < keys.len() ==> bloom::filter_contains(f, hash::murmur3(#[trigger] keys[i], salt)),
            _ => false,
        },
{
}

/// Which keys are tried: with an index as many as asked for, or all, evenly spread over the
/// file; without one the first ones.
pub proof fn law_samples_are_spread(r: ReaderModel, pairs: Seq<Pair>, n: nat, k: int)
    requires
        readback::holds(r, pairs),
        0 <= k < n,
        k < pairs.len(),
    ensures
        reader::samples(r, n) matches Some(ks) && k < ks.len() && ks[k] == match r.index {
            Some(_) => pairs[(k * pairs.len()) / if n < pairs.len() { n as int } else { pairs.len() as int }].0,
            None => pairs[k].0,
        },
{
    readback::lemma_sample_at(r, pairs, n, k);
}

/// Which salt is used: none if the filter shall not be used, else the given one or the
/// smallest under which 16 keys of the file hit; but only if also 64 keys of it hit, and no
/// key that lookups find would be missed.
pub proof fn law_salt_in_use(r: ReaderModel, salt: Salt)
    ensures
        reader::enabled_salt(r, Salt::Off) is None,
        reader::salt_to_try(r, salt) == match salt {
            Salt::Off => None,
            Salt::Known(s) => Some(s),
            Salt::Find(_) => reader::least_salt(r, 0),
        },
        reader::enabled_salt(r, salt) == match reader::salt_to_try(r, salt) {
            Some(s) => if reader::validates(r, s, 64) && forall|key: Seq<u8>|
                (#[trigger] reader::exact_lookup(r, key) matches Ok(Some(_))) ==> bloom::filter_contains(
                    r.bloom->0,
                    hash::murmur3(key, s),
                ) {
                Some(s)
            } else {
                None
            },
            None => None,
        },
{
    if let Some(s) = reader::salt_to_try(r, salt) {
        if reader::validates(r, s, 64) {
            let all = forall|key: Seq<u8>|
                (#[trigger] reader::exact_lookup(r, key) matches Ok(Some(_))) ==> bloom::filter_contains(
                    r.bloom->0,
                    hash::murmur3(key, s),
                );
            assert(all == reader::hides_none(r, r.bloom->0, s));
        }
    }
}

// ------------------------------------------------------------------ sizes

/// A file set that was opened has the sizes of its files and uses no filter yet. The bytes
/// that lookups read of its index files are those of the index, and of the filter once it
/// is in use.
pub proof fn law_sizes(kv: Seq<u8>, bt: Option<Seq<u8>>, kvei: Option<Seq<u8>>, has_metadata: bool, salt: u32)
    requires
        reader::opened(kv, bt, kvei, has_metadata) is Ok,
    ensures
        reader::opened(kv, bt, kvei, has_metadata) matches Ok(r) && {
            let b: nat = match bt {
                Some(d) => d.len(),
                None => 0,
            };
            let k: nat = match kvei {
                Some(d) => d.len(),
                None => 0,
            };
            &&& r.salt is None
            &&& r.kv_size == kv.len()
            &&& reader::index_size(r) == b
            &&& reader::index_size(ReaderModel { salt: Some(salt), ..r }) == b + k
            &&& r.index is Some == bt is Some
            &&& r.bloom is Some == kvei is Some
        },
{
}

/// The sizes and counts of a stack are those of its files together.
pub proof fn law_stack_sizes_add_up(files: Seq<FileModel>, f: FileModel)
    ensures
        ({
            let more = files.push(f);
            let n = files.len();
            let used: nat = if f.data.salt is Some { f.data.kvei_size } else { 0 };
            &&& stack::index_sizes(more, n + 1) == stack::index_sizes(files, n) + f.data.bt_size + used
            &&& stack::total_sizes(more, n + 1) == stack::total_sizes(files, n) + f.data.kv_size + f.data.bt_size + used
            &&& stack::active_files(more, n + 1) == stack::active_files(files, n) + if f.data.salt is Some { 1nat } else { 0 }
        }),
        stack::index_sizes(Seq::empty(), 0) == 0,
        stack::total_sizes(Seq::empty(), 0) == 0,
        stack::active_files(Seq::empty(), 0) == 0,
{
    let more = files.push(f);
    lemma_sizes_prefix(files, more, files.len());
    assert(more[files.len() as int] == f);
}

proof fn lemma_sizes_prefix(a: Seq<FileModel>, b: Seq<FileModel>, n: nat)
    requires
        n <= a.len(),
        n <= b.len(),
        forall|i: int| 0 <= i < n ==> #[trigger] a[i] == b[i],
    ensures
        stack::index_sizes(a, n) == stack::index_sizes(b, n),
        stack::total_sizes(a, n) == stack::total_sizes(b, n),
        stack::active_files(a, n) == stack::active_files(b, n),
    decreases n,
{
    if n > 0 {
        lemma_sizes_prefix(a, b, (n - 1) as nat);
        assert(a[n - 1] == b[n - 1]);
    }
}

} // verus!
