//! What file names spell.

use vstd::prelude::*;

use crate::names;

verus! {

/// A number in decimal notation.
pub open spec fn notation(n: nat) -> Seq<u8>
    decreases n,
{
    if n < 10 { seq![(48 + n) as u8] } else { notation(n / 10).push((48 + n % 10) as u8) }
}

/// Decimal notation is made of digits, and spells the number.
proof fn lemma_notation(n: nat)
    ensures
        notation(n).len() > 0,
        forall|i: int| 0 <= i < notation(n).len() ==> 48 <= #[trigger] notation(n)[i] <= 57,
        names::decimal(notation(n)) == n,
    decreases n,
{
    reveal_with_fuel(names::decimal, 2);
    if n >= 10 {
        lemma_notation(n / 10);
        let s = notation(n);
        assert(s.drop_last() =~= notation(n / 10));
    } else {
        assert(notation(n).drop_last() =~= Seq::empty());
    }
}

/// A number in decimal notation is read as that number, with a plus sign before it too, if
/// it fits in 64 bits; otherwise it is none.
pub proof fn law_numbers_are_read(n: nat)
    ensures
        names::number(notation(n)) == if n <= 0xffff_ffff_ffff_ffff { Some(n as u64) } else { None::<u64> },
        names::number(seq![43u8] + notation(n)) == names::number(notation(n)),
{
    lemma_notation(n);
    let s = notation(n);
    assert(s[0] != 43);
    assert((seq![43u8] + s).skip(1) =~= s);
}

/// What is no digit, but for a plus sign at the start, makes no number; nor does nothing.
pub proof fn law_other_bytes_make_no_number(s: Seq<u8>, i: int)
    requires
        0 <= i < s.len() ==> (s[i] < 48 || s[i] > 57) && (s[i] == 43 ==> i > 0),
    ensures
        0 <= i < s.len() ==> names::number(s) is None,
        s.len() == 0 ==> names::number(s) is None,
        s == seq![43u8] ==> names::number(s) is None,
{
    let d = names::digits_of(s);
    if 0 <= i < s.len() {
        if s[0] == 43 {
            assert(d[i - 1] == s[i]);
            assert(!names::is_digit(d[i - 1]));
        } else {
            assert(d[i] == s[i]);
            assert(!names::is_digit(d[i]));
        }
    }
}

proof fn lemma_place(s: Seq<u8>, b: u8, i: int, j: int)
    requires
        0 <= i <= j <= s.len(),
        forall|k: int| i <= k < j ==> #[trigger] s[k] != b,
        j < s.len() ==> s[j] == b,
    ensures
        names::place_of(s, b, i) == j,
    decreases j - i,
{
    if i < j {
        lemma_place(s, b, i + 1, j);
    }
}

/// Parts that spell no range are passed over.
proof fn lemma_pass(p: Seq<u8>, rest: Seq<u8>, i: int)
    requires
        0 <= i <= p.len(),
        names::range_from(p, i) is None,
    ensures
        names::range_from(p + seq![46u8] + rest, i) == names::range_from(p + seq![46u8] + rest, p.len() as int + 1),
    decreases p.len() - i,
{
    let name = p + seq![46u8] + rest;
    let j = names::place_of(p, 46, i);
    names::lemma_place_of(p, 46, i);
    assert forall|k: int| i <= k < j implies #[trigger] name[k] != 46 by {
        assert(p[k] != 46);
        assert(name[k] == p[k]);
    }
    assert(name[p.len() as int] == 46);
    if j < p.len() {
        assert(name[j] == p[j]);
    }
    lemma_place(name, 46, i, j);
    assert(name.subrange(i, j) =~= p.subrange(i, j));
    if j < p.len() {
        lemma_pass(p, rest, j + 1);
    }
}

proof fn lemma_range_part(a: nat, b: nat)
    requires
        a <= u64::MAX,
        b <= u64::MAX,
    ensures
        names::range_of(notation(a) + seq![45u8] + notation(b)) == Some((a as u64, b as u64)),
        forall|i: int|
            0 <= i < (notation(a) + seq![45u8] + notation(b)).len() ==> #[trigger] (notation(a) + seq![45u8] + notation(
                b,
            ))[i] != 46,
{
    lemma_notation(a);
    lemma_notation(b);
    law_numbers_are_read(a);
    law_numbers_are_read(b);
    let x = notation(a);
    let y = notation(b);
    let part = x + seq![45u8] + y;
    let h = x.len() as int;
    assert forall|i: int| 0 <= i < part.len() implies #[trigger] part[i] != 46 && (i < h ==> part[i] != 45) by {
        if i < h {
            assert(part[i] == x[i]);
        } else if i > h {
            assert(part[i] == y[i - h - 1]);
        }
    }
    assert(part[h] == 45);
    lemma_place(part, 45, 0, h);
    assert(part.take(h) =~= x);
    assert(part.skip(h + 1) =~= y);
}

/// A name spells the step range `from-to` if one of the parts between its dots is `from`,
/// a hyphen and `to` in decimal notation, and no part before it is a range.
pub proof fn law_names_spell_ranges(before: Option<Seq<u8>>, from: nat, to: nat, after: Option<Seq<u8>>)
    requires
        from <= 0xffff_ffff_ffff_ffff,
        to <= 0xffff_ffff_ffff_ffff,
        before matches Some(s) ==> names::step_range(s) is None,
    ensures
        ({
            let a = match before {
                Some(s) => s + seq![46u8],
                None => Seq::empty(),
            };
            let b = match after {
                Some(s) => seq![46u8] + s,
                None => Seq::empty(),
            };
            names::step_range(a + (notation(from) + seq![45u8] + notation(to)) + b) == Some((from as u64, to as u64))
        }),
{
    let a = match before {
        Some(s) => s + seq![46u8],
        None => Seq::empty(),
    };
    let b = match after {
        Some(s) => seq![46u8] + s,
        None => Seq::empty(),
    };
    let part = notation(from) + seq![45u8] + notation(to);
    let name = a + part + b;
    lemma_range_part(from, to);
    let i = a.len() as int;
    let j = i + part.len();
    if let Some(s) = before {
        let rest = part + b;
        assert(name =~= s + seq![46u8] + rest);
        lemma_pass(s, rest, 0);
    }
    assert forall|k: int| i <= k < j implies #[trigger] name[k] != 46 by {
        assert(name[k] == part[k - i]);
    }
    if let Some(s) = after {
        assert(name[j] == 46);
    }
    lemma_place(name, 46, i, j);
    assert(name.subrange(i, j) =~= part);
}

/// A part that spells a range is made of digits, plus signs and one hyphen.
proof fn lemma_range_bytes(part: Seq<u8>, i: int)
    requires
        names::range_of(part) is Some,
        0 <= i < part.len(),
    ensures
        48 <= part[i] <= 57 || part[i] == 43 || part[i] == 45,
        part.contains(45u8),
{
    names::lemma_place_of(part, 45, 0);
    let h = names::place_of(part, 45, 0);
    assert(part[h] == 45);
    let x = part.take(h);
    let y = part.skip(h + 1);
    if i < h {
        assert(x[i] == part[i]);
        let d = names::digits_of(x);
        if x[0] == 43 && i > 0 {
            assert(names::is_digit(d[i - 1]));
        } else if x[0] != 43 {
            assert(names::is_digit(d[i]));
        }
    } else if i > h {
        let k = i - h - 1;
        assert(y[k] == part[i]);
        let d = names::digits_of(y);
        if y[0] == 43 && k > 0 {
            assert(names::is_digit(d[k - 1]));
        } else if y[0] != 43 {
            assert(names::is_digit(d[k]));
        }
    }
}

proof fn lemma_no_range(name: Seq<u8>, i: int)
    requires
        0 <= i <= name.len(),
        forall|h: int|
            0 <= h < name.len() && #[trigger] name[h] == 45 ==> exists|j: int|
                #![trigger name[j]]
                h < j < name.len() && (name[j] < 43 || name[j] == 44 || name[j] == 47 || name[j] > 57) && forall|k: int|
                    h < k < j ==> #[trigger] name[k] != 46,
    ensures
        names::range_from(name, i) is None,
    decreases name.len() - i,
{
    let j = names::place_of(name, 46, i);
    names::lemma_place_of(name, 46, i);
    let part = name.subrange(i, j);
    if names::range_of(part) is Some {
        assert(part.len() > 0) by {
            names::lemma_place_of(part, 45, 0);
        }
        lemma_range_bytes(part, 0);
        let x = choose|x: int| 0 <= x < part.len() && part[x] == 45;
        let h = i + x;
        assert(name[h] == 45);
        let y = choose|y: int|
            #![trigger name[y]]
            h < y < name.len() && (name[y] < 43 || name[y] == 44 || name[y] == 47 || name[y] > 57) && forall|k: int|
                h < k < y ==> #[trigger] name[k] != 46;
        if y < j {
            assert(part[y - i] == name[y]);
            lemma_range_bytes(part, y - i);
        } else if y > j {
            assert(name[j] == 46);
        }
    }
    if j < name.len() {
        lemma_no_range(name, j + 1);
    }
}

/// A name spells no step range if every hyphen in it is followed, before the next dot, by
/// something that no number has, such as a letter. So the `1-accounts` in
/// `v1.1-accounts` is none.
pub proof fn law_words_spell_no_range(name: Seq<u8>)
    requires
        forall|h: int|
            0 <= h < name.len() && #[trigger] name[h] == 45 ==> exists|j: int|
                #![trigger name[j]]
                h < j < name.len() && (name[j] < 43 || name[j] == 44 || name[j] == 47 || name[j] > 57) && forall|k: int|
                    h < k < j ==> #[trigger] name[k] != 46,
    ensures
        names::step_range(name) is None,
{
    lemma_no_range(name, 0);
}

/// A name ends in the extension `kv` exactly if it is `.kv` behind something.
pub proof fn law_kv_extension(name: Seq<u8>)
    ensures
        names::has_kv_extension(name) == (name.len() >= 4 && name[name.len() - 3] == 46 && name[name.len() - 2] == 107
            && name[name.len() - 1] == 118),
{
    if name.len() >= 4 {
        let t = name.skip(name.len() - 3);
        assert(t[0] == name[name.len() - 3] && t[1] == name[name.len() - 2] && t[2] == name[name.len() - 1]);
        if t[0] == 46 && t[1] == 107 && t[2] == 118 {
            assert(t =~= seq![46u8, 107u8, 118u8]);
        }
    }
}

/// A name contains exactly the parts it can be put together around.
pub proof fn law_parts_occur(part: Seq<u8>, name: Seq<u8>)
    ensures
        names::occurs(part, name) == exists|a: Seq<u8>, b: Seq<u8>| name == #[trigger] (a + part + b),
{
    if names::occurs(part, name) {
        let i = choose|i: int| 0 <= i && i + part.len() <= name.len() && #[trigger] name.subrange(i, i + part.len()) == part;
        assert(name =~= name.take(i) + part + name.skip(i + part.len()));
    }
    if exists|a: Seq<u8>, b: Seq<u8>| name == #[trigger] (a + part + b) {
        let (a, b) = choose|a: Seq<u8>, b: Seq<u8>| name == #[trigger] (a + part + b);
        let i = a.len() as int;
        assert(name.subrange(i, i + part.len()) =~= part);
    }
}

} // verus!
