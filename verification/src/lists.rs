//! Lists of integers: counting, membership and sums.

use vstd::prelude::*;

use crate::scalar::{clamp_i64, clamped};

verus! {

/// How often a value occurs in a list.
pub open spec fn occurrences(list: Seq<i32>, value: i32) -> nat
    decreases list.len(),
{
    if list.len() == 0 {
        0
    } else {
        occurrences(list.drop_last(), value) + if list.last() == value {
            1nat
        } else {
            0nat
        }
    }
}

/// How often a value occurs in a list.
pub fn count_in(list: &Vec<i32>, value: i32) -> (result: usize)
    ensures
        result == occurrences(list@, value),
{
    let mut result: usize = 0;
    let mut i: usize = 0;
    while i < list.len()
        invariant
            i <= list@.len(),
            result == occurrences(list@.take(i as int), value),
            result <= i,
        decreases list@.len() - i,
    {
        assert(list@.take(i + 1).drop_last() =~= list@.take(i as int));
        if list[i] == value {
            result += 1;
        }
        i += 1;
    }
    assert(list@.take(i as int) =~= list@);
    result
}

/// How often a value occurs in a list, up to the largest 64-bit integer.
pub fn count_of(list: &Vec<i32>, value: i32) -> (result: i64)
    ensures
        result == clamped(occurrences(list@, value) as int),
        result >= 0,
{
    clamp_i64(count_in(list, value) as i128)
}

/// A value occurs in a list exactly where it is among its elements.
pub(crate) proof fn lemma_occurrences(list: Seq<i32>, value: i32)
    ensures
        occurrences(list, value) > 0 <==> list.contains(value),
        occurrences(list, value) <= list.len(),
    decreases list.len(),
{
    if list.len() > 0 {
        let rest = list.drop_last();
        lemma_occurrences(rest, value);
        if list.contains(value) {
            let i = choose|i: int| 0 <= i < list.len() && list[i] == value;
            if i < rest.len() {
                assert(rest[i] == value);
            }
        }
        if rest.contains(value) {
            let i = choose|i: int| 0 <= i < rest.len() && rest[i] == value;
            assert(list[i] == value);
        }
        if list.last() == value {
            assert(list[list.len() - 1] == value);
        }
    }
}

/// Whether a value is in a list.
pub fn is_in(list: &Vec<i32>, value: i32) -> (result: bool)
    ensures
        result == list@.contains(value),
{
    let mut i: usize = 0;
    while i < list.len()
        invariant
            i <= list@.len(),
            forall|j: int| 0 <= j < i ==> list@[j] != value,
        decreases list@.len() - i,
    {
        if list[i] == value {
            return true;
        }
        i += 1;
    }
    false
}

/// Whether two lists are the same.
pub fn same_list(a: &Vec<i32>, b: &Vec<i32>) -> (result: bool)
    ensures
        result == (a@ == b@),
{
    if a.len() != b.len() {
        return false;
    }
    let mut i: usize = 0;
    while i < a.len()
        invariant
            i <= a@.len() == b@.len(),
            forall|j: int| 0 <= j < i ==> a@[j] == b@[j],
        decreases a@.len() - i,
    {
        if a[i] != b[i] {
            return false;
        }
        i += 1;
    }
    assert(a@ =~= b@);
    true
}

/// The sum of a list.
pub open spec fn total(list: Seq<i32>) -> int
    decreases list.len(),
{
    if list.len() == 0 {
        0
    } else {
        total(list.drop_last()) + list.last()
    }
}

/// The sum of a list.
pub fn sum_of(list: &Vec<i32>) -> (result: i128)
    ensures
        result == total(list@),
{
    let mut result: i128 = 0;
    let mut i: usize = 0;
    while i < list.len()
        invariant
            i <= list@.len(),
            result == total(list@.take(i as int)),
            -0x8000_0000 * i <= result <= 0x8000_0000 * i,
        decreases list@.len() - i,
    {
        assert(list@.take(i + 1).drop_last() =~= list@.take(i as int));
        result += list[i] as i128;
        i += 1;
    }
    assert(list@.take(i as int) =~= list@);
    result
}

/// A copy of a list.
pub fn copy_list(list: &Vec<i32>) -> (result: Vec<i32>)
    ensures
        result@ == list@,
{
    let mut result: Vec<i32> = Vec::new();
    let mut i: usize = 0;
    while i < list.len()
        invariant
            i <= list@.len(),
            result@ == list@.take(i as int),
        decreases list@.len() - i,
    {
        result.push(list[i]);
        assert(list@.take(i + 1) =~= list@.take(i as int).push(list@[i as int]));
        i += 1;
    }
    assert(list@.take(i as int) =~= list@);
    result
}

/// The first numbers, from zero on.
pub open spec fn numbers(count: nat) -> Seq<i32> {
    Seq::new(count, |i: int| i as i32)
}

/// The first numbers, from zero on.
pub fn first_numbers(count: usize) -> (result: Vec<i32>)
    requires
        count <= i32::MAX,
    ensures
        result@ == numbers(count as nat),
{
    let mut result: Vec<i32> = Vec::new();
    let mut i: usize = 0;
    while i < count
        invariant
            i <= count <= i32::MAX,
            result@ == numbers(i as nat),
        decreases count - i,
    {
        result.push(i as i32);
        i += 1;
        assert(result@ =~= numbers(i as nat));
    }
    result
}

/// The values of a list in the order of their first occurrences.
pub open spec fn distinct(list: Seq<i32>) -> Seq<i32>
    decreases list.len(),
{
    if list.len() == 0 {
        Seq::empty()
    } else {
        let rest = list.drop_last();
        if rest.contains(list.last()) {
            distinct(rest)
        } else {
            distinct(rest).push(list.last())
        }
    }
}

/// Dropping repetitions keeps every value, once.
pub(crate) proof fn lemma_distinct(list: Seq<i32>)
    ensures
        distinct(list).no_duplicates(),
        forall|x: i32| distinct(list).contains(x) <==> list.contains(x),
        distinct(list).len() <= list.len(),
    decreases list.len(),
{
    if list.len() > 0 {
        let rest = list.drop_last();
        lemma_distinct(rest);
        assert forall|x: i32| distinct(list).contains(x) <==> list.contains(x) by {
            if list.contains(x) {
                let i = choose|i: int| 0 <= i < list.len() && list[i] == x;
                if i < rest.len() {
                    assert(rest[i] == x);
                    assert(rest.contains(x));
                } else {
                    assert(x == list.last());
                }
                if !rest.contains(list.last()) {
                    if x == list.last() {
                        assert(distinct(list).last() == x);
                    } else {
                        assert(distinct(rest).contains(x));
                        let j = choose|j: int|
                            0 <= j < distinct(rest).len() && distinct(rest)[j] == x;
                        assert(distinct(list)[j] == x);
                    }
                }
            }
            if distinct(list).contains(x) {
                if rest.contains(x) {
                    let i = choose|i: int| 0 <= i < rest.len() && rest[i] == x;
                    assert(list[i] == x);
                } else {
                    assert(!distinct(rest).contains(x));
                    assert(!rest.contains(list.last()));
                    let j = choose|j: int| 0 <= j < distinct(list).len() && distinct(list)[j] == x;
                    if j < distinct(rest).len() {
                        assert(distinct(rest)[j] == x);
                    }
                    assert(list[list.len() - 1] == x);
                }
            }
        }
        if !rest.contains(list.last()) {
            assert(!distinct(rest).contains(list.last()));
        }
    }
}

/// The values of a list in the order of their first occurrences.
pub fn distinct_of(list: &Vec<i32>) -> (result: Vec<i32>)
    ensures
        result@ == distinct(list@),
{
    let mut result: Vec<i32> = Vec::new();
    let mut i: usize = 0;
    while i < list.len()
        invariant
            i <= list@.len(),
            result@ == distinct(list@.take(i as int)),
        decreases list@.len() - i,
    {
        proof {
            assert(list@.take(i + 1).drop_last() =~= list@.take(i as int));
            lemma_distinct(list@.take(i as int));
        }
        if !is_in(&result, list[i]) {
            result.push(list[i]);
        }
        i += 1;
    }
    assert(list@.take(i as int) =~= list@);
    result
}

/// Several lists, one behind the other.
pub open spec fn joined(lists: Seq<Seq<i32>>) -> Seq<i32>
    decreases lists.len(),
{
    if lists.len() == 0 {
        Seq::empty()
    } else {
        joined(lists.drop_last()) + lists.last()
    }
}

/// The lists joined hold what each of them holds.
pub(crate) proof fn lemma_joined(lists: Seq<Seq<i32>>, value: i32)
    ensures
        joined(lists).contains(value) <==> exists|i: int|
            0 <= i < lists.len() && (#[trigger] lists[i]).contains(value),
    decreases lists.len(),
{
    if lists.len() > 0 {
        let rest = lists.drop_last();
        let all = joined(rest) + lists.last();
        lemma_joined(rest, value);
        if all.contains(value) {
            let k = choose|k: int| 0 <= k < all.len() && all[k] == value;
            if k < joined(rest).len() {
                assert(joined(rest)[k] == value);
                let i = choose|i: int| 0 <= i < rest.len() && (#[trigger] rest[i]).contains(value);
                assert(lists[i].contains(value));
            } else {
                assert(lists.last()[k - joined(rest).len()] == value);
                assert(lists[lists.len() - 1].contains(value));
            }
        }
        if exists|i: int| 0 <= i < lists.len() && (#[trigger] lists[i]).contains(value) {
            let i = choose|i: int| 0 <= i < lists.len() && (#[trigger] lists[i]).contains(value);
            if i < rest.len() {
                assert(rest[i].contains(value));
                let k = choose|k: int| 0 <= k < joined(rest).len() && joined(rest)[k] == value;
                assert(all[k] == value);
            } else {
                let k = choose|k: int| 0 <= k < lists[i].len() && lists[i][k] == value;
                assert(all[joined(rest).len() + k] == value);
            }
        }
    }
}

/// The elements of each of several lists.
pub open spec fn lists_view(lists: Seq<Vec<i32>>) -> Seq<Seq<i32>> {
    Seq::new(lists.len(), |i: int| lists[i]@)
}

/// The values of several lists in the order of their first occurrences.
pub fn distinct_of_all(lists: &Vec<Vec<i32>>) -> (result: Vec<i32>)
    ensures
        result@ == distinct(joined(lists_view(lists@))),
{
    let ghost views = lists_view(lists@);
    let mut result: Vec<i32> = Vec::new();
    let mut i: usize = 0;
    assert(views.take(0) =~= Seq::<Seq<i32>>::empty());
    while i < lists.len()
        invariant
            i <= lists@.len(),
            views == lists_view(lists@),
            result@ == distinct(joined(views.take(i as int))),
        decreases lists@.len() - i,
    {
        let ghost before = joined(views.take(i as int));
        let mut k: usize = 0;
        assert(before + lists@[i as int]@.take(0) =~= before);
        while k < lists[i].len()
            invariant
                i < lists@.len(),
                k <= lists@[i as int]@.len(),
                result@ == distinct(before + lists@[i as int]@.take(k as int)),
            decreases lists@[i as int]@.len() - k,
        {
            let ghost next = before + lists@[i as int]@.take(k + 1);
            proof {
                assert(next.drop_last() =~= before + lists@[i as int]@.take(k as int));
                assert(next.last() == lists@[i as int]@[k as int]);
                lemma_distinct(next.drop_last());
            }
            if !is_in(&result, lists[i][k]) {
                result.push(lists[i][k]);
            }
            k += 1;
        }
        proof {
            assert(lists@[i as int]@.take(k as int) =~= lists@[i as int]@);
            assert(views.take(i + 1).drop_last() =~= views.take(i as int));
            assert(views.take(i + 1).last() == lists@[i as int]@);
        }
        i += 1;
    }
    assert(views.take(i as int) =~= views);
    result
}

/// The amounts of some items added up.
pub open spec fn amounts(ids: Seq<i32>, amount: spec_fn(i32) -> int) -> int
    decreases ids.len(),
{
    if ids.len() == 0 {
        0
    } else {
        amounts(ids.drop_last(), amount) + amount(ids.last())
    }
}

pub(crate) proof fn lemma_amounts_same(ids: Seq<i32>, a: spec_fn(i32) -> int, b: spec_fn(i32) -> int)
    requires
        forall|i: int| 0 <= i < ids.len() ==> a(#[trigger] ids[i]) == b(ids[i]),
    ensures
        amounts(ids, a) == amounts(ids, b),
    decreases ids.len(),
{
    if ids.len() > 0 {
        let rest = ids.drop_last();
        assert forall|i: int| 0 <= i < rest.len() implies a(#[trigger] rest[i]) == b(rest[i]) by {
            assert(rest[i] == ids[i]);
        }
        lemma_amounts_same(rest, a, b);
        assert(ids[ids.len() - 1] == ids.last());
    }
}

pub(crate) proof fn lemma_amounts_positive(ids: Seq<i32>, amount: spec_fn(i32) -> int)
    requires
        forall|i: int| 0 <= i < ids.len() ==> amount(#[trigger] ids[i]) >= 0,
    ensures
        amounts(ids, amount) >= 0,
    decreases ids.len(),
{
    if ids.len() > 0 {
        let rest = ids.drop_last();
        assert forall|i: int| 0 <= i < rest.len() implies amount(#[trigger] rest[i]) >= 0 by {
            assert(rest[i] == ids[i]);
        }
        lemma_amounts_positive(rest, amount);
        assert(ids[ids.len() - 1] == ids.last());
    }
}

pub(crate) proof fn lemma_amounts_removed(ids: Seq<i32>, amount: spec_fn(i32) -> int, i: int)
    requires
        0 <= i < ids.len(),
    ensures
        amounts(ids.remove(i), amount) == amounts(ids, amount) - amount(ids[i]),
    decreases ids.len(),
{
    if i == ids.len() - 1 {
        assert(ids.remove(i) =~= ids.drop_last());
    } else {
        let rest = ids.drop_last();
        lemma_amounts_removed(rest, amount, i);
        assert(ids.remove(i).drop_last() =~= rest.remove(i));
        assert(ids.remove(i).last() == ids.last());
    }
}

/// A value that occurs once in a list counts once in the sum.
proof fn lemma_amounts_indicator(ids: Seq<i32>, a: spec_fn(i32) -> int, b: spec_fn(i32) -> int, value: i32)
    requires
        ids.no_duplicates(),
        forall|x: i32| #[trigger] a(x) == b(x) + if x == value {
            1int
        } else {
            0int
        },
    ensures
        amounts(ids, a) == amounts(ids, b) + if ids.contains(value) {
            1int
        } else {
            0int
        },
    decreases ids.len(),
{
    if ids.len() > 0 {
        let rest = ids.drop_last();
        lemma_amounts_indicator(rest, a, b, value);
        if rest.contains(value) {
            let i = choose|i: int| 0 <= i < rest.len() && rest[i] == value;
            assert(ids[i] == value);
            assert(ids[i] != ids[ids.len() - 1]);
        } else if ids.contains(value) {
            let i = choose|i: int| 0 <= i < ids.len() && ids[i] == value;
            if i < rest.len() {
                assert(rest[i] == value);
            }
        } else {
            assert(ids[ids.len() - 1] != value);
        }
        if ids.last() == value {
            assert(ids[ids.len() - 1] == value);
        }
    }
}

/// The occurrences of the distinct values of a list add up to its length.
pub(crate) proof fn lemma_occurrences_add_up(list: Seq<i32>)
    ensures
        amounts(distinct(list), |x: i32| occurrences(list, x) as int) == list.len(),
    decreases list.len(),
{
    if list.len() > 0 {
        let rest = list.drop_last();
        let now = |x: i32| occurrences(list, x) as int;
        let then = |x: i32| occurrences(rest, x) as int;
        lemma_occurrences_add_up(rest);
        lemma_distinct(rest);
        lemma_distinct(list);
        if rest.contains(list.last()) {
            lemma_amounts_indicator(distinct(rest), now, then, list.last());
        } else {
            lemma_amounts_indicator(distinct(rest), now, then, list.last());
            assert(distinct(list).drop_last() =~= distinct(rest));
            lemma_occurrences(rest, list.last());
        }
    } else {
        assert(distinct(list).len() == 0);
    }
}

} // verus!
