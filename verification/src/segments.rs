//! Names of journal segments: `journal-00000001.wal` and so on.
use crate::journal::contents;
use vstd::prelude::*;
use vstd::slice::slice_to_vec;

verus! {

/// `journal-`.
pub open spec fn name_prefix() -> Seq<u8> {
    seq![106u8, 111u8, 117u8, 114u8, 110u8, 97u8, 108u8, 45u8]
}

/// `.wal`.
pub open spec fn name_suffix() -> Seq<u8> {
    seq![46u8, 119u8, 97u8, 108u8]
}

/// Decimal digits of `n`, at least one and at least `width`, with leading zeros.
pub open spec fn decimal(n: nat, width: nat) -> Seq<u8>
    decreases n + width,
{
    if n < 10 && width <= 1 {
        seq![(48 + n) as u8]
    } else {
        decimal(
            n / 10,
            (if width > 0 {
                width - 1
            } else {
                0
            }) as nat,
        ).push((48 + n % 10) as u8)
    }
}

/// Whether all of `s` are decimal digits.
pub open spec fn all_digits(s: Seq<u8>) -> bool {
    forall|i: int| 0 <= i < s.len() ==> 48 <= #[trigger] s[i] <= 57
}

/// The integer that decimal digits stand for.
pub open spec fn decimal_value(s: Seq<u8>) -> int
    decreases s.len(),
{
    if s.len() == 0 {
        0
    } else {
        10 * decimal_value(s.drop_last()) + (s.last() - 48)
    }
}

/// The `u64` that `s` spell: digits, after a plus sign or not.
pub open spec fn spelled_u64(s: Seq<u8>) -> Option<u64> {
    let digits = if s.len() > 0 && s[0] == 43 {
        s.skip(1)
    } else {
        s
    };
    if digits.len() > 0 && all_digits(digits) && decimal_value(digits) <= u64::MAX {
        Some(decimal_value(digits) as u64)
    } else {
        None
    }
}

/// Whether `name` starts with `journal-` and ends with `.wal`.
pub open spec fn is_segment_name(name: Seq<u8>) -> bool {
    &&& name.len() >= 8
    &&& name.take(8) == name_prefix()
    &&& name.skip(name.len() - 4) == name_suffix()
}

/// The index of the segment with that name, where it is the name of one.
pub open spec fn index_of_name(name: Seq<u8>) -> Option<u64> {
    if is_segment_name(name) {
        spelled_u64(name.subrange(8, name.len() - 4))
    } else {
        None
    }
}

/// The name of segment `index`.
pub open spec fn name_of_index(index: u64) -> Seq<u8> {
    name_prefix() + decimal(index as nat, 8) + name_suffix()
}

/// Prefix and suffix of a segment name do not overlap.
proof fn lemma_name_len(name: Seq<u8>)
    requires
        is_segment_name(name),
    ensures
        name.len() >= 12,
{
    if name.len() < 12 {
        let i = name.len() - 4;
        assert(name.take(8)[7] == name_prefix()[7]);
        assert(name.skip(i)[7 - i] == name_suffix()[7 - i]);
        assert(name.take(8)[7] == name.skip(i)[7 - i]);
    }
}

/// Appends decimal digits.
fn push_decimal(buf: &mut Vec<u8>, n: u64, width: usize)
    requires
        width <= 20,
    ensures
        final(buf)@ == old(buf)@ + decimal(n as nat, width as nat),
    decreases n, width,
{
    if n < 10 && width <= 1 {
        buf.push(48 + n as u8);
        assert(buf@ =~= old(buf)@ + decimal(n as nat, width as nat));
    } else {
        let less: usize = if width > 0 {
            width - 1
        } else {
            0
        };
        push_decimal(buf, n / 10, less);
        let last: u8 = 48 + (n % 10) as u8;
        buf.push(last);
        assert(buf@ =~= old(buf)@ + decimal(n as nat, width as nat));
    }
}

/// The name of segment `index`, in ASCII.
pub fn segment_name(index: u64) -> (name: Vec<u8>)
    ensures
        name@ == name_of_index(index),
{
    let mut name: Vec<u8> = vec![106u8, 111u8, 117u8, 114u8, 110u8, 97u8, 108u8, 45u8];
    assert(name@ =~= name_prefix());
    push_decimal(&mut name, index, 8);
    name.push(46);
    name.push(119);
    name.push(97);
    name.push(108);
    assert(name@ =~= name_of_index(index));
    name
}

/// Whether `name` starts with `journal-` and ends with `.wal`.
pub fn is_segment_file(name: &[u8]) -> (found: bool)
    ensures
        found == is_segment_name(name@),
{
    let n: usize = name.len();
    if n < 8 {
        return false;
    }
    let starts: bool = name[0] == 106 && name[1] == 111 && name[2] == 117 && name[3] == 114 && name[4]
        == 110 && name[5] == 97 && name[6] == 108 && name[7] == 45;
    let ends: bool = name[n - 4] == 46 && name[n - 3] == 119 && name[n - 2] == 97 && name[n - 1] == 108;
    proof {
        let head = name@.take(8);
        let tail = name@.skip(n - 4);
        if starts {
            assert(head =~= name_prefix());
        } else if head == name_prefix() {
            assert(head[0] == name@[0] && head[1] == name@[1] && head[2] == name@[2] && head[3]
                == name@[3] && head[4] == name@[4] && head[5] == name@[5] && head[6] == name@[6]
                && head[7] == name@[7]);
        }
        if ends {
            assert(tail =~= name_suffix());
        } else if tail == name_suffix() {
            assert(tail[0] == name@[n - 4] && tail[1] == name@[n - 3] && tail[2] == name@[n - 2]
                && tail[3] == name@[n - 1]);
        }
    }
    starts && ends
}

/// The index of the segment with that name, where it is the name of one.
pub fn parse_segment_index(name: &[u8]) -> (index: Option<u64>)
    ensures
        index == index_of_name(name@),
{
    if !is_segment_file(name) {
        return None;
    }
    proof {
        lemma_name_len(name@);
    }
    let end: usize = name.len() - 4;
    let start: usize = if end > 8 && name[8] == 43 {
        9
    } else {
        8
    };
    let ghost middle = name@.subrange(8, name@.len() - 4);
    let ghost digits = name@.subrange(start as int, end as int);
    proof {
        if start == 9 {
            assert(middle[0] == 43);
            assert(middle.skip(1) =~= digits);
        } else {
            assert(middle =~= digits);
        }
    }
    if start == end {
        return None;
    }
    let mut value: u64 = 0;
    let mut i: usize = start;
    while i < end
        invariant
            start <= i <= end < name@.len(),
            digits == name@.subrange(start as int, end as int),
            all_digits(digits.take(i - start)),
            value == decimal_value(digits.take(i - start)),
            digits.len() > 0,
            spelled_u64(middle) == (if all_digits(digits) && decimal_value(digits) <= u64::MAX {
                Some(decimal_value(digits) as u64)
            } else {
                None
            }),
            index_of_name(name@) == spelled_u64(middle),
        decreases end - i,
    {
        let digit: u8 = name[i];
        let ghost k = i - start;
        assert(digits[k] == digit);
        if digit < 48 || digit > 57 {
            assert(!all_digits(digits));
            return None;
        }
        let units: u64 = (digit - 48) as u64;
        proof {
            assert(digits.take(k + 1).drop_last() =~= digits.take(k));
            assert(digits.take(k + 1).last() == digit);
        }
        if value > (u64::MAX - units) / 10 {
            proof {
                if all_digits(digits) {
                    lemma_value_grows(digits, k + 1);
                }
            }
            return None;
        }
        value = value * 10 + units;
        i += 1;
    }
    assert(digits.take(end - start) =~= digits);
    Some(value)
}

/// More digits do not make the value less.
proof fn lemma_value_grows(s: Seq<u8>, k: int)
    requires
        0 <= k <= s.len(),
        all_digits(s),
    ensures
        0 <= decimal_value(s.take(k)) <= decimal_value(s),
    decreases s.len(),
{
    if s.len() > 0 {
        assert(48 <= s[s.len() - 1] <= 57);
        assert forall|i: int| 0 <= i < s.drop_last().len() implies 48 <= #[trigger] s.drop_last()[i]
            <= 57 by {
            assert(s.drop_last()[i] == s[i]);
        }
        if k == s.len() {
            assert(s.take(k) =~= s);
            lemma_value_grows(s.drop_last(), k - 1);
            assert(s.drop_last().take(k - 1) =~= s.drop_last());
        } else {
            lemma_value_grows(s.drop_last(), k);
            assert(s.drop_last().take(k) =~= s.take(k));
        }
    } else {
        assert(s.take(k) =~= s);
    }
}

/// Digits of an integer stand for it.
pub proof fn lemma_decimal(n: nat, width: nat)
    ensures
        all_digits(decimal(n, width)),
        decimal_value(decimal(n, width)) == n,
        decimal(n, width).len() >= 1,
        decimal(n, width).len() >= width,
    decreases n + width,
{
    let s = decimal(n, width);
    if n < 10 && width <= 1 {
        assert(s.drop_last() =~= Seq::<u8>::empty());
        assert(decimal_value(Seq::<u8>::empty()) == 0);
    } else {
        let less = (if width > 0 {
            width - 1
        } else {
            0
        }) as nat;
        lemma_decimal(n / 10, less);
        assert(s.drop_last() =~= decimal(n / 10, less));
    }
}

/// The name of a segment gives its index back.
pub proof fn lemma_name_round_trip(index: u64)
    ensures
        is_segment_name(name_of_index(index)),
        index_of_name(name_of_index(index)) == Some(index),
{
    let name = name_of_index(index);
    let digits = decimal(index as nat, 8);
    lemma_decimal(index as nat, 8);
    assert(name.take(8) =~= name_prefix());
    assert(name.skip(name.len() - 4) =~= name_suffix());
    assert(name.subrange(8, name.len() - 4) =~= digits);
    assert(48 <= digits[0] <= 57);
}

/// The number of integers with `width` digits or fewer.
pub open spec fn decimal_range(width: nat) -> nat
    decreases width,
{
    if width == 0 {
        1
    } else {
        10 * decimal_range((width - 1) as nat)
    }
}

/// Whether `a` and `b` agree up to `k`, and there `a` ends or has the lesser byte.
pub open spec fn parts_at(a: Seq<u8>, b: Seq<u8>, k: int) -> bool {
    &&& 0 <= k <= a.len()
    &&& k < b.len()
    &&& k == a.len() || a[k] < b[k]
    &&& forall|i: int| 0 <= i < k ==> #[trigger] a[i] == b[i]
}

/// Whether `a` comes before `b` in dictionary order.
pub open spec fn before(a: Seq<u8>, b: Seq<u8>) -> bool {
    exists|k: int| parts_at(a, b, k)
}

/// Nothing comes before itself, and what comes before is not after.
proof fn lemma_before_asymmetric(a: Seq<u8>, b: Seq<u8>)
    requires
        before(a, b),
    ensures
        !before(b, a),
{
    if before(b, a) {
        let k = choose|k: int| parts_at(a, b, k);
        let m = choose|m: int| parts_at(b, a, m);
        if k < m {
            assert(b[k] == a[k]);
        } else if m < k {
            assert(a[m] == b[m]);
        }
    }
}

/// What comes before something that comes before a third comes before the third.
proof fn lemma_before_transitive(a: Seq<u8>, b: Seq<u8>, c: Seq<u8>)
    requires
        before(a, b),
        before(b, c),
    ensures
        before(a, c),
{
    let k = choose|k: int| parts_at(a, b, k);
    let m = choose|m: int| parts_at(b, c, m);
    let least = if k < m {
        k
    } else {
        m
    };
    assert forall|i: int| 0 <= i < least implies #[trigger] a[i] == c[i] by {
        assert(a[i] == b[i]);
        assert(b[i] == c[i]);
    }
    if k < m {
        assert(b[k] == c[k]);
    } else if m < k {
        assert(a[m] == b[m]);
    }
    assert(parts_at(a, c, least));
}

/// Whether `a` comes before `b` in dictionary order.
fn comes_before(a: &Vec<u8>, b: &Vec<u8>) -> (first: bool)
    ensures
        first == before(a@, b@),
{
    let mut i: usize = 0;
    while i < a.len() && i < b.len() && a[i] == b[i]
        invariant
            i <= a@.len(),
            i <= b@.len(),
            forall|k: int| 0 <= k < i ==> #[trigger] a@[k] == b@[k],
        decreases a@.len() - i,
    {
        i += 1;
    }
    let first: bool = i < b.len() && (i == a.len() || a[i] < b[i]);
    proof {
        if first {
            assert(parts_at(a@, b@, i as int));
        } else if before(a@, b@) {
            let k = choose|k: int| parts_at(a@, b@, k);
            if k < i {
                assert(a@[k] == b@[k]);
            } else if i < k {
                assert(a@[i as int] == b@[i as int]);
            }
        }
    }
    first
}

/// Whether names are in dictionary order.
pub open spec fn in_order(names: Seq<Seq<u8>>) -> bool {
    forall|i: int, j: int|
        0 <= i < j < names.len() ==> !#[trigger] before(names[j], names[i])
}

/// The names among `names` that are those of segment files.
pub open spec fn segments_among(names: Seq<Seq<u8>>) -> Seq<Seq<u8>>
    decreases names.len(),
{
    if names.len() == 0 {
        Seq::empty()
    } else if is_segment_name(names.last()) {
        segments_among(names.drop_last()).push(names.last())
    } else {
        segments_among(names.drop_last())
    }
}

/// Puts a name where it belongs.
fn insert_in_order(list: &mut Vec<Vec<u8>>, name: Vec<u8>)
    requires
        in_order(contents(old(list)@)),
    ensures
        in_order(contents(final(list)@)),
        contents(final(list)@).to_multiset() == contents(old(list)@).to_multiset().insert(name@),
{
    let ghost names = contents(list@);
    let count: usize = list.len();
    let mut at: usize = 0;
    while at < count && !comes_before(&name, &list[at])
        invariant
            at <= count == list@.len(),
            list@ == old(list)@,
            names == contents(list@),
            forall|i: int| 0 <= i < at ==> !#[trigger] before(name@, names[i]),
        ensures
            at <= count == list@.len(),
            list@ == old(list)@,
            names == contents(list@),
            forall|i: int| 0 <= i < at ==> !#[trigger] before(name@, names[i]),
            at < count ==> before(name@, names[at as int]),
        decreases count - at,
    {
        at += 1;
    }
    list.insert(at, name);
    proof {
        let after = contents(list@);
        assert(after =~= names.insert(at as int, name@));
        assert forall|i: int, j: int| 0 <= i < j < after.len() implies !#[trigger] before(
            after[j],
            after[i],
        ) by {
            if i == at {
                let other = names[j - 1];
                if before(other, name@) {
                    if j - 1 == at {
                        lemma_before_asymmetric(name@, other);
                    } else {
                        lemma_before_transitive(other, name@, names[at as int]);
                        assert(!before(names[j - 1], names[at as int]));
                    }
                }
            } else if j == at {
                assert(!before(name@, names[i]));
            } else {
                let from = if i < at {
                    i
                } else {
                    i - 1
                };
                let to = if j < at {
                    j
                } else {
                    j - 1
                };
                assert(!before(names[to], names[from]));
            }
        }
        assert(after.remove(at as int) =~= names);
        after.to_multiset_ensures();
        assert(after.contains(after[at as int]));
        assert(after.to_multiset() =~= names.to_multiset().insert(name@));
    }
}

/// The names of segment files among `names`, in the order in which they are read.
pub fn list_segments(names: Vec<Vec<u8>>) -> (list: Vec<Vec<u8>>)
    ensures
        in_order(contents(list@)),
        contents(list@).to_multiset() == segments_among(contents(names@)).to_multiset(),
{
    let ghost all = contents(names@);
    let mut list: Vec<Vec<u8>> = Vec::new();
    let mut i: usize = 0;
    proof {
        assert(contents(list@) =~= segments_among(all.take(0)));
    }
    while i < names.len()
        invariant
            i <= names@.len(),
            all == contents(names@),
            in_order(contents(list@)),
            contents(list@).to_multiset() == segments_among(all.take(i as int)).to_multiset(),
        decreases names@.len() - i,
    {
        proof {
            assert(all.take(i + 1).drop_last() =~= all.take(i as int));
            assert(all.take(i + 1).last() == names@[i as int]@);
            segments_among(all.take(i as int)).to_multiset_ensures();
        }
        if is_segment_file(names[i].as_slice()) {
            insert_in_order(&mut list, slice_to_vec(names[i].as_slice()));
        }
        i += 1;
    }
    assert(all.take(i as int) =~= all);
    list
}

/// Whether the name at `i` is the last one, in dictionary order, that has an index.
pub open spec fn is_last_segment(names: Seq<Seq<u8>>, i: int) -> bool {
    &&& 0 <= i < names.len()
    &&& index_of_name(names[i]) is Some
    &&& forall|j: int|
        0 <= j < names.len() && index_of_name(#[trigger] names[j]) is Some ==> !before(
            names[i],
            names[j],
        )
}

/// The position of the last name that has an index, and that index.
pub fn last_segment(names: &Vec<Vec<u8>>) -> (last: Option<(usize, u64)>)
    ensures
        match last {
            Some((at, index)) => is_last_segment(contents(names@), at as int) && index_of_name(
                contents(names@)[at as int],
            ) == Some(index),
            None => forall|i: int|
                0 <= i < names@.len() ==> index_of_name(#[trigger] contents(names@)[i]) is None,
        },
{
    let ghost all = contents(names@);
    let mut last: Option<(usize, u64)> = None;
    let mut i: usize = 0;
    while i < names.len()
        invariant
            i <= names@.len(),
            all == contents(names@),
            match last {
                Some((at, index)) => {
                    &&& at < i
                    &&& index_of_name(all[at as int]) == Some(index)
                    &&& forall|j: int|
                        0 <= j < i && index_of_name(#[trigger] all[j]) is Some ==> !before(
                            all[at as int],
                            all[j],
                        )
                },
                None => forall|j: int| 0 <= j < i ==> index_of_name(#[trigger] all[j]) is None,
            },
        decreases names@.len() - i,
    {
        let name: &Vec<u8> = &names[i];
        assert(all[i as int] == name@);
        match parse_segment_index(name.as_slice()) {
            Some(index) => match last {
                Some((at, _)) => {
                    if comes_before(&names[at], name) {
                        proof {
                            assert forall|j: int|
                                0 <= j <= i && index_of_name(#[trigger] all[j]) is Some implies !before(
                                all[i as int],
                                all[j],
                            ) by {
                                if before(all[i as int], all[j]) {
                                    if j == i {
                                        lemma_before_asymmetric(all[j], all[j]);
                                    } else {
                                        lemma_before_transitive(all[at as int], all[i as int], all[j]);
                                    }
                                }
                            }
                        }
                        last = Some((i, index));
                    }
                },
                None => {
                    proof {
                        if before(all[i as int], all[i as int]) {
                            lemma_before_asymmetric(all[i as int], all[i as int]);
                        }
                    }
                    last = Some((i, index));
                },
            },
            None => {},
        }
        i += 1;
    }
    last
}

proof fn lemma_decimal_order(m: nat, n: nat, width: nat) -> (k: int)
    requires
        m < n < decimal_range(width),
        width >= 1,
    ensures
        decimal(m, width).len() == decimal(n, width).len() == width,
        0 <= k < width,
        parts_at(decimal(m, width), decimal(n, width), k),
    decreases width,
{
    reveal_with_fuel(decimal_range, 2);
    let a = decimal(m, width);
    let b = decimal(n, width);
    if width == 1 {
        0
    } else {
        let less = (width - 1) as nat;
        if m / 10 < n / 10 {
            let k = lemma_decimal_order(m / 10, n / 10, less);
            assert(forall|i: int| 0 <= i < less ==> #[trigger] a[i] == decimal(m / 10, less)[i]);
            assert(forall|i: int| 0 <= i < less ==> #[trigger] b[i] == decimal(n / 10, less)[i]);
            k
        } else {
            lemma_decimal_len(m / 10, less);
            assert(m / 10 == n / 10);
            assert(a.last() < b.last());
            width - 1
        }
    }
}

proof fn lemma_decimal_len(n: nat, width: nat)
    requires
        n < decimal_range(width),
        width >= 1,
    ensures
        decimal(n, width).len() == width,
    decreases width,
{
    reveal_with_fuel(decimal_range, 2);
    if width > 1 {
        lemma_decimal_len(n / 10, (width - 1) as nat);
    }
}

/// Names of segments with at most eight digits sort as their indices do.
pub proof fn lemma_names_sort(a: u64, b: u64)
    requires
        a < b < 100_000_000,
    ensures
        before(name_of_index(a), name_of_index(b)),
{
    assert(decimal_range(8) == 100_000_000) by {
        reveal_with_fuel(decimal_range, 9);
    }
    let k = lemma_decimal_order(a as nat, b as nat, 8);
    let x = name_of_index(a);
    let y = name_of_index(b);
    assert forall|i: int| 0 <= i < 8 + k implies #[trigger] x[i] == y[i] by {
        if i >= 8 {
            assert(decimal(a as nat, 8)[i - 8] == decimal(b as nat, 8)[i - 8]);
        }
    }
    assert(parts_at(x, y, 8 + k));
}

/// Where all files are segments with at most eight digits, the last one is that with the
/// highest index.
pub proof fn law_last_segment_has_highest_index(indices: Seq<u64>, i: int, j: int)
    requires
        forall|k: int| 0 <= k < indices.len() ==> #[trigger] indices[k] < 100_000_000,
        is_last_segment(indices.map_values(|index: u64| name_of_index(index)), i),
        0 <= j < indices.len(),
    ensures
        indices[j] <= indices[i],
{
    let names = indices.map_values(|index: u64| name_of_index(index));
    lemma_name_round_trip(indices[j]);
    assert(names[j] == name_of_index(indices[j]));
    if indices[i] < indices[j] {
        lemma_names_sort(indices[i], indices[j]);
    }
}

/// Which names have an index: `journal-`, one or more decimal digits, after a plus sign or
/// not, that stand for a `u64`, and `.wal`. The digits give the index.
pub proof fn law_index_is_spelled_in_digits(middle: Seq<u8>, digits: Seq<u8>)
    requires
        digits == middle && (middle.len() == 0 || middle[0] != 43) || middle == seq![43u8] + digits,
    ensures
        ({
            let name = seq![106u8, 111u8, 117u8, 114u8, 110u8, 97u8, 108u8, 45u8] + middle + seq![
                46u8,
                119u8,
                97u8,
                108u8,
            ];
            let spelled = digits.len() > 0 && (forall|i: int|
                0 <= i < digits.len() ==> 48 <= #[trigger] digits[i] <= 57) && decimal_value(digits)
                <= u64::MAX;
            &&& spelled <==> index_of_name(name) is Some
            &&& spelled ==> index_of_name(name)->Some_0 == decimal_value(digits)
        }),
{
    let name = name_prefix() + middle + name_suffix();
    assert(name.take(8) =~= name_prefix());
    assert(name.skip(name.len() - 4) =~= name_suffix());
    assert(name.subrange(8, name.len() - 4) =~= middle);
    if middle.len() > 0 && middle[0] == 43 {
        assert(middle.skip(1) =~= digits);
    }
    if spelled_u64(middle) is Some {
        lemma_value_grows(digits, 0);
    }
    if digits.len() > 0 && all_digits(digits) {
        lemma_value_grows(digits, 0);
    }
}

} // verus!
