//! The names of table files.

use vstd::prelude::*;

verus! {

/// The decimal digit of `d`, for `d` below ten, as a byte.
pub open spec fn digit_byte(d: nat) -> u8 {
    (48 + d) as u8
}

/// `n` in decimal, with leading zeros up to `width` digits.
pub open spec fn padded(n: nat, width: nat) -> Seq<u8>
    decreases n, width,
{
    if n < 10 && width <= 1 {
        seq![digit_byte(n)]
    } else {
        padded(n / 10, if width > 0 {
            (width - 1) as nat
        } else {
            0
        }).push(digit_byte(n % 10))
    }
}

/// ".sst"
pub open spec fn suffix() -> Seq<u8> {
    seq![46u8, 115, 115, 116]
}

/// The file name of a table: its number in at least six digits, then ".sst".
pub open spec fn name_of(id: u64) -> Seq<u8> {
    padded(id as nat, 6) + suffix()
}

pub open spec fn is_digit(b: u8) -> bool {
    48 <= b <= 57
}

/// The number that decimal digits write.
pub open spec fn digits_value(s: Seq<u8>) -> nat
    decreases s.len(),
{
    if s.len() == 0 {
        0
    } else {
        (10 * digits_value(s.drop_last()) + (s.last() - 48)) as nat
    }
}

/// Decimal digits behind an optional plus sign, at least one of them.
pub open spec fn is_number(s: Seq<u8>) -> bool {
    let digits = unsigned_part(s);
    digits.len() > 0 && forall|i: int| 0 <= i < digits.len() ==> is_digit(#[trigger] digits[i])
}

pub open spec fn unsigned_part(s: Seq<u8>) -> Seq<u8> {
    if s.len() > 0 && s[0] == 43 {
        s.skip(1)
    } else {
        s
    }
}

/// The number of the table that a file name stands for, if it is the name of
/// one: a number that fits, then ".sst".
pub open spec fn id_of(name: Seq<u8>) -> Option<u64> {
    let stem = name.take(name.len() - 4);
    let number = digits_value(unsigned_part(stem));
    if name.len() >= 4 && name.skip(name.len() - 4) == suffix() && is_number(stem) && number
        <= u64::MAX {
        Some(number as u64)
    } else {
        None
    }
}

proof fn padded_digits(n: nat, width: nat)
    ensures
        padded(n, width).len() > 0,
        padded(n, width).len() >= width,
        forall|i: int|
            0 <= i < padded(n, width).len() ==> is_digit(#[trigger] padded(n, width)[i]),
        digits_value(padded(n, width)) == n,
    decreases n, width,
{
    if n < 10 && width <= 1 {
        reveal_with_fuel(digits_value, 2);
        assert(padded(n, width).drop_last() =~= Seq::empty());
    } else {
        let w = if width > 0 {
            (width - 1) as nat
        } else {
            0
        };
        padded_digits(n / 10, w);
        let head = padded(n / 10, w);
        assert(padded(n, width).drop_last() =~= head);
        assert(padded(n, width).last() == digit_byte(n % 10));
        assert forall|i: int| 0 <= i < padded(n, width).len() implies is_digit(
            #[trigger] padded(n, width)[i],
        ) by {
            if i < head.len() {
                assert(head[i] == padded(n, width)[i]);
            }
        }
    }
}

/// A table's file name stands for that table.
pub proof fn names_stand_for_their_tables(id: u64)
    ensures
        id_of(name_of(id)) == Some(id),
{
    let (name, stem) = (name_of(id), padded(id as nat, 6));
    padded_digits(id as nat, 6);
    assert(name.take(name.len() - 4) =~= stem);
    assert(name.skip(name.len() - 4) =~= suffix());
    assert(is_digit(stem[0]));
    assert(unsigned_part(stem) == stem);
}

fn push_padded(out: &mut Vec<u8>, n: u64, width: u64)
    ensures
        final(out)@ == old(out)@ + padded(n as nat, width as nat),
    decreases n, width,
{
    let ghost before = out@;
    let digit: u8 = 48 + (n % 10) as u8;
    if n < 10 && width <= 1 {
        out.push(digit);
    } else {
        push_padded(out, n / 10, if width > 0 { width - 1 } else { 0 });
        out.push(digit);
    }
    assert(out@ =~= before + padded(n as nat, width as nat));
}

/// The file name of a table.
pub fn table_name(id: u64) -> (r: Vec<u8>)
    ensures
        r@ == name_of(id),
{
    let mut out: Vec<u8> = Vec::new();
    push_padded(&mut out, id, 6);
    out.push(46);
    out.push(115);
    out.push(115);
    out.push(116);
    assert(out@ =~= name_of(id));
    out
}

proof fn digits_grow(s: Seq<u8>, k: int)
    requires
        0 <= k <= s.len(),
        forall|i: int| 0 <= i < s.len() ==> is_digit(#[trigger] s[i]),
    ensures
        digits_value(s.take(k)) <= digits_value(s),
    decreases s.len() - k,
{
    if k == s.len() {
        assert(s.take(k) =~= s);
    } else {
        digits_grow(s, k + 1);
        assert(s.take(k + 1).drop_last() =~= s.take(k));
        assert(is_digit(s[k]));
    }
}

/// The table that a file name stands for, if it is the name of one.
pub fn table_id(name: &[u8]) -> (r: Option<u64>)
    ensures
        r == id_of(name@),
{
    let len: usize = name.len();
    if len < 4 {
        return None;
    }
    let end: usize = len - 4;
    let ghost stem = name@.take(end as int);
    let ghost digits = unsigned_part(stem);
    if name[end] != 46 || name[end + 1] != 115 || name[end + 2] != 115 || name[end + 3] != 116 {
        proof {
            let tail = name@.skip(end as int);
            assert(tail[0] == name@[end as int] && tail[1] == name@[end + 1] && tail[2]
                == name@[end + 2] && tail[3] == name@[end + 3]);
        }
        return None;
    }
    assert(name@.skip(end as int) =~= suffix());
    let start: usize = if end > 0 && name[0] == 43 { 1 } else { 0 };
    assert(digits =~= name@.subrange(start as int, end as int));
    if start >= end {
        return None;
    }
    let mut value: u64 = 0;
    let mut at: usize = start;
    assert(digits.take(0) =~= Seq::empty());
    while at < end
        invariant
            start <= at <= end < name@.len(),
            end == name@.len() - 4,
            stem == name@.take(end as int),
            digits == unsigned_part(stem),
            digits == name@.subrange(start as int, end as int),
            name@.skip(end as int) == suffix(),
            value == digits_value(digits.take(at - start)),
            forall|i: int| 0 <= i < at - start ==> is_digit(#[trigger] digits[i]),
        decreases end - at,
    {
        let byte: u8 = name[at];
        let ghost k = at - start;
        assert(digits[k] == byte);
        if byte < 48 || byte > 57 {
            assert(!is_digit(digits[k]));
            return None;
        }
        assert(digits.take(k + 1).drop_last() =~= digits.take(k));
        let wide: u128 = 10 * value as u128 + (byte - 48) as u128;
        if wide > u64::MAX as u128 {
            proof {
                if is_number(stem) {
                    digits_grow(digits, k + 1);
                }
            }
            return None;
        }
        value = wide as u64;
        at = at + 1;
    }
    assert(digits.take(at - start) =~= digits);
    Some(value)
}

/// The tables that a directory holds, by the names of its files: their
/// numbers, the newest first.
pub fn discover(names: &Vec<Vec<u8>>) -> (r: Vec<u64>)
    ensures
        r@.to_multiset() == ids_of(names@.map_values(|n: Vec<u8>| n@)).to_multiset(),
        forall|i: int, j: int| 0 <= i <= j < r@.len() ==> r@[i] >= r@[j],
{
    let ghost all = names@.map_values(|n: Vec<u8>| n@);
    let mut out: Vec<u64> = Vec::new();
    let mut i: usize = 0;
    assert(all.take(0) =~= Seq::empty());
    while i < names.len()
        invariant
            i <= names@.len(),
            all == names@.map_values(|n: Vec<u8>| n@),
            out@.to_multiset() == ids_of(all.take(i as int)).to_multiset(),
            forall|i: int, j: int| 0 <= i <= j < out@.len() ==> out@[i] >= out@[j],
        decreases names@.len() - i,
    {
        proof {
            assert(all.take(i + 1).drop_last() =~= all.take(i as int));
            assert(all.take(i + 1).last() == names@[i as int]@);
        }
        match table_id(names[i].as_slice()) {
            Some(id) => {
                let ghost before = out@;
                let at: usize = rank(&out, id);
                proof {
                    vstd::seq_lib::to_multiset_insert(before, at as int, id);
                    vstd::seq_lib::to_multiset_build(ids_of(all.take(i as int)), id);
                }
                out.insert(at, id);
            },
            None => {},
        }
        i = i + 1;
    }
    assert(all.take(i as int) =~= all);
    out
}

/// The table numbers among file names, in the order of the names.
pub open spec fn ids_of(names: Seq<Seq<u8>>) -> Seq<u64>
    decreases names.len(),
{
    if names.len() == 0 {
        Seq::empty()
    } else {
        match id_of(names.last()) {
            Some(id) => ids_of(names.drop_last()).push(id),
            None => ids_of(names.drop_last()),
        }
    }
}

/// A file name that stands for a table ends in ".sst", and before that stand
/// decimal digits and at most a plus sign in front; its number is theirs, each
/// digit worth ten times the one behind it.
pub proof fn only_numbers_name_tables(name: Seq<u8>)
    ensures
        id_of(name) matches Some(id) ==> {
            let digits = name.len() - 4;
            &&& digits >= 1
            &&& name[digits] == 46 && name[digits + 1] == 115 && name[digits + 2] == 115
            &&& name[digits + 3] == 116
            &&& 48 <= name[digits - 1] <= 57
            &&& id % 10 == name[digits - 1] - 48
            &&& forall|i: int| 0 < i < digits ==> 48 <= #[trigger] name[i] <= 57
            &&& name[0] == 43 || 48 <= name[0] <= 57
        },
{
    if let Some(id) = id_of(name) {
        let n = name.len() - 4;
        let stem = name.take(n);
        let digits = unsigned_part(stem);
        assert(name.skip(n)[0] == suffix()[0]);
        assert(name.skip(n)[1] == suffix()[1]);
        assert(name.skip(n)[2] == suffix()[2]);
        assert(name.skip(n)[3] == suffix()[3]);
        let shift = n - digits.len();
        assert forall|i: int| shift <= i < n implies 48 <= #[trigger] name[i] <= 57 by {
            assert(is_digit(digits[i - shift]));
        }
        assert(digits.last() == name[n - 1]);
    }
}

/// Other tables have other names, each of at least six digits and ".sst".
pub proof fn tables_have_their_own_names(a: u64, b: u64)
    ensures
        a != b ==> name_of(a) != name_of(b),
        name_of(a).len() >= 10,
{
    names_stand_for_their_tables(a);
    names_stand_for_their_tables(b);
    padded_digits(a as nat, 6);
}

/// The tables of a directory are those that its file names stand for.
pub proof fn a_directory_lists_its_tables(names: Seq<Seq<u8>>, id: u64)
    ensures
        ids_of(names).contains(id) <==> exists|i: int|
            0 <= i < names.len() && id_of(#[trigger] names[i]) == Some(id),
    decreases names.len(),
{
    if names.len() > 0 {
        let (before, last) = (names.drop_last(), names.len() - 1);
        a_directory_lists_its_tables(before, id);
        if exists|i: int| 0 <= i < names.len() && id_of(#[trigger] names[i]) == Some(id) {
            let i = choose|i: int| 0 <= i < names.len() && id_of(#[trigger] names[i]) == Some(id);
            if i < last {
                assert(before[i] == names[i]);
                let at = choose|at: int|
                    0 <= at < ids_of(before).len() && ids_of(before)[at] == id;
                assert(ids_of(names)[at] == id);
            } else {
                assert(ids_of(names).last() == id);
            }
        }
        if ids_of(names).contains(id) {
            let at = choose|at: int| 0 <= at < ids_of(names).len() && ids_of(names)[at] == id;
            if at < ids_of(before).len() {
                assert(ids_of(before)[at] == id);
                let i = choose|i: int|
                    0 <= i < before.len() && id_of(#[trigger] before[i]) == Some(id);
                assert(id_of(names[i]) == Some(id));
            } else {
                assert(id_of(names[last]) == Some(id));
            }
        }
    }
}

/// Where `id` belongs in a descending list.
fn rank(ids: &Vec<u64>, id: u64) -> (r: usize)
    requires
        forall|i: int, j: int| 0 <= i <= j < ids@.len() ==> ids@[i] >= ids@[j],
    ensures
        r <= ids@.len(),
        forall|i: int| 0 <= i < r ==> ids@[i] >= id,
        forall|i: int| r <= i < ids@.len() ==> ids@[i] < id,
{
    let mut at: usize = 0;
    while at < ids.len() && ids[at] >= id
        invariant
            at <= ids@.len(),
            forall|i: int| 0 <= i < at ==> ids@[i] >= id,
        decreases ids@.len() - at,
    {
        at = at + 1;
    }
    at
}

} // verus!
