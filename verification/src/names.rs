//! What file names say: the step range of a domain file, such as the `1024-2048` of
//! `v1.1-accounts.1024-2048.kv`. A name is taken as bytes.

use vstd::prelude::*;
use vstd::slice::*;

verus! {

const DOT: u8 = 46;

const HYPHEN: u8 = 45;

const PLUS: u8 = 43;

/// The byte is a decimal digit.
pub open spec fn is_digit(b: u8) -> bool {
    48 <= b <= 57
}

/// The number that decimal digits spell.
pub open spec fn decimal(s: Seq<u8>) -> nat
    decreases s.len(),
{
    if s.len() == 0 {
        0
    } else {
        10 * decimal(s.drop_last()) + (s.last() - 48) as nat
    }
}

/// The digits of a number, behind an optional plus sign.
pub open spec fn digits_of(s: Seq<u8>) -> Seq<u8> {
    if s.len() > 0 && s[0] == 43 { s.skip(1) } else { s }
}

/// The number that `s` spells: decimal digits, at least one, behind an optional plus
/// sign; it must fit in 64 bits.
pub open spec fn number(s: Seq<u8>) -> Option<u64> {
    let d = digits_of(s);
    if d.len() > 0 && (forall|i: int| 0 <= i < d.len() ==> is_digit(#[trigger] d[i])) && decimal(d) <= u64::MAX {
        Some(decimal(d) as u64)
    } else {
        None
    }
}

/// The first place from `i` on where `b` stands; the length if there is none.
pub open spec fn place_of(s: Seq<u8>, b: u8, i: int) -> int
    decreases s.len() - i,
{
    if i >= s.len() {
        s.len() as int
    } else if s[i] == b {
        i
    } else {
        place_of(s, b, i + 1)
    }
}

/// The range that a part of a name spells: two numbers around its first hyphen.
pub open spec fn range_of(part: Seq<u8>) -> Option<(u64, u64)> {
    let h = place_of(part, 45, 0);
    if h >= part.len() {
        None
    } else {
        match (number(part.take(h)), number(part.skip(h + 1))) {
            (Some(a), Some(b)) => Some((a, b)),
            _ => None,
        }
    }
}

/// The range that the first part from `i` on that is one spells; parts are what stands
/// between dots.
pub open spec fn range_from(name: Seq<u8>, i: int) -> Option<(u64, u64)>
    decreases name.len() - i,
    via range_from_decreases
{
    if i < 0 || i > name.len() {
        None
    } else {
        let j = place_of(name, 46, i);
        match range_of(name.subrange(i, j)) {
            Some(r) => Some(r),
            None => if j >= name.len() { None } else { range_from(name, j + 1) },
        }
    }
}

#[via_fn]
proof fn range_from_decreases(name: Seq<u8>, i: int) {
    if 0 <= i <= name.len() {
        lemma_place_of(name, 46, i);
    }
}

/// The step range in a file name.
pub open spec fn step_range(name: Seq<u8>) -> Option<(u64, u64)> {
    range_from(name, 0)
}

/// The key that files are ordered by.
pub open spec fn step_key_spec(name: Seq<u8>) -> (u64, u64) {
    match step_range(name) {
        Some(r) => r,
        None => (0, 0),
    }
}

/// The place is that of the first such byte.
pub proof fn lemma_place_of(s: Seq<u8>, b: u8, i: int)
    requires
        0 <= i <= s.len(),
    ensures
        i <= place_of(s, b, i) <= s.len(),
        place_of(s, b, i) < s.len() ==> s[place_of(s, b, i)] == b,
        forall|j: int| i <= j < place_of(s, b, i) ==> #[trigger] s[j] != b,
    decreases s.len() - i,
{
    if i < s.len() && s[i] != b {
        lemma_place_of(s, b, i + 1);
    }
}

fn find_byte(s: &[u8], b: u8, from: usize) -> (r: usize)
    requires
        from <= s.len(),
    ensures
        from <= r <= s.len(),
        r == place_of(s@, b, from as int),
{
    let mut i: usize = from;
    while i < s.len() && s[i] != b
        invariant
            from <= i <= s.len(),
            place_of(s@, b, from as int) == place_of(s@, b, i as int),
        decreases s.len() - i,
    {
        i = i + 1;
    }
    i
}

/// Fewer digits never spell a greater number.
proof fn lemma_decimal_prefix(s: Seq<u8>, k: int)
    requires
        0 <= k <= s.len(),
    ensures
        decimal(s.take(k)) <= decimal(s),
    decreases s.len(),
{
    if k < s.len() {
        lemma_decimal_prefix(s.drop_last(), k);
        assert(s.drop_last().take(k) =~= s.take(k));
    } else {
        assert(s.take(k) =~= s);
    }
}

fn parse_number(s: &[u8]) -> (r: Option<u64>)
    ensures
        r == number(s@),
{
    let n: usize = s.len();
    let start: usize = if n > 0 && s[0] == PLUS { 1 } else { 0 };
    let ghost d = digits_of(s@);
    if start == n {
        return None;
    }
    let mut v: u64 = 0;
    let mut i: usize = start;
    while i < n
        invariant
            start <= i <= n,
            n == s.len(),
            d == s@.skip(start as int),
            d == digits_of(s@),
            v == decimal(d.take(i - start)),
            forall|j: int| 0 <= j < i - start ==> is_digit(#[trigger] d[j]),
        decreases n - i,
    {
        let b: u8 = s[i];
        let ghost k = i - start;
        proof {
            assert(b == d[k]);
            assert(d.take(k + 1).drop_last() =~= d.take(k));
            lemma_decimal_prefix(d, k + 1);
        }
        if b < 48 || b > 57 {
            return None;
        }
        let next: u128 = 10 * v as u128 + (b - 48) as u128;
        if next > u64::MAX as u128 {
            return None;
        }
        v = next as u64;
        i = i + 1;
    }
    proof {
        assert(d.take(d.len() as int) =~= d);
    }
    Some(v)
}

fn part_range(part: &[u8]) -> (r: Option<(u64, u64)>)
    ensures
        r == range_of(part@),
{
    let h: usize = find_byte(part, HYPHEN, 0);
    if h >= part.len() {
        return None;
    }
    proof {
        assert(part@.subrange(0, h as int) =~= part@.take(h as int));
        assert(part@.subrange(h + 1, part@.len() as int) =~= part@.skip(h + 1));
    }
    let a = parse_number(slice_subrange(part, 0, h));
    let b = parse_number(slice_subrange(part, h + 1, part.len()));
    match (a, b) {
        (Some(x), Some(y)) => Some((x, y)),
        _ => None,
    }
}

/// The `<from>-<to>` step range in a file name, if there is one.
pub fn parse_range(name: &[u8]) -> (r: Option<(u64, u64)>)
    ensures
        r == step_range(name@),
{
    let mut i: usize = 0;
    loop
        invariant
            i <= name.len(),
            step_range(name@) == range_from(name@, i as int),
        decreases name.len() - i,
    {
        let j: usize = find_byte(name, DOT, i);
        if let Some(r) = part_range(slice_subrange(name, i, j)) {
            return Some(r);
        }
        if j >= name.len() {
            return None;
        }
        i = j + 1;
    }
}

/// Sort key from a `…<name>.<from>-<to>.kv` file name: the `<from>` step, then `<to>`, so
/// files order oldest to newest (override files have a higher `<from>`). Names without a
/// recognizable range sort first.
pub fn step_key(name: &[u8]) -> (r: (u64, u64))
    ensures
        r == step_key_spec(name@),
{
    match parse_range(name) {
        Some(r) => r,
        None => (0, 0),
    }
}

/// The `<from>` step of a `…<from>-<to>.<ext>` file name.
pub fn parse_from(name: &[u8]) -> (r: Option<u64>)
    ensures
        r == match step_range(name@) {
            Some((a, _)) => Some(a),
            None => None,
        },
{
    match parse_range(name) {
        Some((a, _)) => Some(a),
        None => None,
    }
}

/// `part` stands somewhere in `s`.
pub open spec fn occurs(part: Seq<u8>, s: Seq<u8>) -> bool {
    exists|i: int| 0 <= i && i + part.len() <= s.len() && #[trigger] s.subrange(i, i + part.len()) == part
}

/// The name ends in `.kv`, behind at least one byte.
pub open spec fn has_kv_extension(name: Seq<u8>) -> bool {
    name.len() > 3 && name.skip(name.len() - 3) == seq![46u8, 107u8, 118u8]
}

/// Whether a file in a directory belongs to a stack: its extension is `kv` and its name
/// contains `name_filter`.
pub fn selects_file(name: &[u8], name_filter: &[u8]) -> (r: bool)
    ensures
        r == (has_kv_extension(name@) && occurs(name_filter@, name@)),
{
    let n: usize = name.len();
    let k: usize = name_filter.len();
    if n <= 3 {
        return false;
    }
    let ends: bool = name[n - 3] == DOT && name[n - 2] == 107 && name[n - 1] == 118;
    proof {
        let t = name@.skip(n - 3);
        if ends {
            assert(t =~= seq![46u8, 107u8, 118u8]);
        } else if t == seq![46u8, 107u8, 118u8] {
            assert(t[0] == 46 && t[1] == 107 && t[2] == 118);
        }
    }
    if !ends || k > n {
        return false;
    }
    let mut i: usize = 0;
    while i <= n - k
        invariant
            n == name.len(),
            k == name_filter.len(),
            k <= n,
            i <= n - k + 1,
            has_kv_extension(name@),
            forall|j: int| 0 <= j < i ==> #[trigger] name@.subrange(j, j + k) != name_filter@,
        decreases n - k + 1 - i,
    {
        if crate::bytes::bytes_equal(slice_subrange(name, i, i + k), name_filter) {
            return true;
        }
        if i == n - k {
            return false;
        }
        i = i + 1;
    }
    false
}

} // verus!
