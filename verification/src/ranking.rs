//! Sorting of integers by keys.

use vstd::prelude::*;
use vstd::relations::*;

verus! {

/// Whether `a` goes no later than `b`: by the first key, then by the second,
/// then by the item itself.
pub open spec fn no_later(
    first: spec_fn(i32) -> int,
    second: spec_fn(i32) -> int,
    a: i32,
    b: i32,
) -> bool {
    ||| first(a) < first(b)
    ||| first(a) == first(b) && second(a) < second(b)
    ||| first(a) == first(b) && second(a) == second(b) && a <= b
}

/// The order by two keys and the item itself.
pub open spec fn key_order(
    first: spec_fn(i32) -> int,
    second: spec_fn(i32) -> int,
) -> spec_fn(i32, i32) -> bool {
    |a: i32, b: i32| no_later(first, second, a, b)
}

/// The items sorted by the first key, then by the second, then by the item itself.
pub open spec fn ranked(
    items: Seq<i32>,
    first: spec_fn(i32) -> int,
    second: spec_fn(i32) -> int,
) -> Seq<i32> {
    items.sort_by(key_order(first, second))
}

/// The keys of items.
pub trait Ranking {
    /// Whether an item has keys.
    spec fn known(&self, item: i32) -> bool;

    /// The first key of an item.
    spec fn first(&self) -> spec_fn(i32) -> int;

    /// The second key of an item.
    spec fn second(&self) -> spec_fn(i32) -> int;

    /// Whether `a` goes no later than `b`.
    fn at_most(&self, a: i32, b: i32) -> (result: bool)
        requires
            self.known(a),
            self.known(b),
        ensures
            result == no_later(self.first(), self.second(), a, b),
    ;
}

/// The order of the integers themselves.
pub struct ByValue;

impl Ranking for ByValue {
    open spec fn known(&self, item: i32) -> bool {
        true
    }

    open spec fn first(&self) -> spec_fn(i32) -> int {
        |item: i32| item as int
    }

    open spec fn second(&self) -> spec_fn(i32) -> int {
        |item: i32| item as int
    }

    fn at_most(&self, a: i32, b: i32) -> (result: bool) {
        a <= b
    }
}

/// The items in ascending order.
pub open spec fn ascending(items: Seq<i32>) -> Seq<i32> {
    ranked(items, |item: i32| item as int, |item: i32| item as int)
}

proof fn lemma_key_order(first: spec_fn(i32) -> int, second: spec_fn(i32) -> int)
    ensures
        total_ordering(key_order(first, second)),
{
}

/// Sorting keeps every item as often as it occurs and puts each item no later
/// than those behind it.
pub proof fn ranked_is_sorted(
    items: Seq<i32>,
    first: spec_fn(i32) -> int,
    second: spec_fn(i32) -> int,
)
    ensures
        ranked(items, first, second).to_multiset() == items.to_multiset(),
        ranked(items, first, second).len() == items.len(),
        forall|i: int, j: int|
            0 <= i < j < items.len() ==> no_later(
                first,
                second,
                #[trigger] ranked(items, first, second)[i],
                #[trigger] ranked(items, first, second)[j],
            ),
        forall|x: i32| ranked(items, first, second).contains(x) <==> items.contains(x),
        items.no_duplicates() ==> ranked(items, first, second).no_duplicates(),
{
    let order = key_order(first, second);
    let sorted = ranked(items, first, second);
    lemma_key_order(first, second);
    items.lemma_sort_by_ensures(order);
    assert forall|i: int, j: int| 0 <= i < j < sorted.len() implies no_later(
        first,
        second,
        #[trigger] sorted[i],
        #[trigger] sorted[j],
    ) by {
        assert(order(sorted[i], sorted[j]));
    }
    items.to_multiset_ensures();
    sorted.to_multiset_ensures();
    assert forall|x: i32| sorted.contains(x) <==> items.contains(x) by {
        assert(sorted.to_multiset().count(x) == items.to_multiset().count(x));
    }
    if items.no_duplicates() {
        items.lemma_multiset_has_no_duplicates();
        assert forall|x: i32| sorted.to_multiset().contains(x) implies
            sorted.to_multiset().count(x) == 1 by {
            assert(items.to_multiset().contains(x));
        }
        sorted.lemma_multiset_has_no_duplicates_conv();
    }
}

/// Merges two sorted lists.
fn merge<R: Ranking>(left: &Vec<i32>, right: &Vec<i32>, ranking: &R) -> (result: Vec<i32>)
    requires
        sorted_by(left@, key_order(ranking.first(), ranking.second())),
        sorted_by(right@, key_order(ranking.first(), ranking.second())),
        forall|i: int| 0 <= i < left@.len() ==> ranking.known(#[trigger] left@[i]),
        forall|i: int| 0 <= i < right@.len() ==> ranking.known(#[trigger] right@[i]),
    ensures
        sorted_by(result@, key_order(ranking.first(), ranking.second())),
        result@.to_multiset() == left@.to_multiset().add(right@.to_multiset()),
{
    let ghost order = key_order(ranking.first(), ranking.second());
    let mut result: Vec<i32> = Vec::new();
    let mut i: usize = 0;
    let mut j: usize = 0;
    proof {
        assert(left@.take(0) =~= Seq::<i32>::empty());
        assert(right@.take(0) =~= Seq::<i32>::empty());
        result@.to_multiset_ensures();
        assert(result@.to_multiset() =~= left@.take(0).to_multiset().add(
            right@.take(0).to_multiset(),
        ));
    }
    while i < left.len() || j < right.len()
        invariant
            order == key_order(ranking.first(), ranking.second()),
            i <= left@.len(),
            j <= right@.len(),
            sorted_by(left@, order),
            sorted_by(right@, order),
            forall|k: int| 0 <= k < left@.len() ==> ranking.known(#[trigger] left@[k]),
            forall|k: int| 0 <= k < right@.len() ==> ranking.known(#[trigger] right@[k]),
            sorted_by(result@, order),
            forall|k: int, l: int|
                0 <= k < result@.len() && i <= l < left@.len() ==> #[trigger] order(
                    result@[k],
                    left@[l],
                ),
            forall|k: int, l: int|
                0 <= k < result@.len() && j <= l < right@.len() ==> #[trigger] order(
                    result@[k],
                    right@[l],
                ),
            result@.to_multiset() == left@.take(i as int).to_multiset().add(
                right@.take(j as int).to_multiset(),
            ),
        decreases left@.len() - i + right@.len() - j,
    {
        let from_left: bool = if i == left.len() {
            false
        } else if j == right.len() {
            true
        } else {
            ranking.at_most(left[i], right[j])
        };
        let ghost before = result@;
        proof {
            lemma_key_order(ranking.first(), ranking.second());
            before.to_multiset_ensures();
            left@.take(i as int).to_multiset_ensures();
            right@.take(j as int).to_multiset_ensures();
            if from_left {
                if j < right@.len() {
                    assert(order(left@[i as int], right@[j as int]));
                }
                assert forall|l: int| j <= l < right@.len() implies order(
                    left@[i as int],
                    right@[l],
                ) by {
                    if l > j {
                        assert(order(right@[j as int], right@[l]));
                    }
                }
            } else {
                if i < left@.len() {
                    assert(order(right@[j as int], left@[i as int]));
                }
                assert forall|l: int| i <= l < left@.len() implies order(
                    right@[j as int],
                    left@[l],
                ) by {
                    if l > i {
                        assert(order(left@[i as int], left@[l]));
                    }
                }
            }
        }
        if from_left {
            assert(left@.take(i + 1) =~= left@.take(i as int).push(left@[i as int]));
            result.push(left[i]);
            i += 1;
        } else {
            assert(right@.take(j + 1) =~= right@.take(j as int).push(right@[j as int]));
            result.push(right[j]);
            j += 1;
        }
        proof {
            assert(result@.to_multiset() =~= left@.take(i as int).to_multiset().add(
                right@.take(j as int).to_multiset(),
            ));
        }
    }
    assert(left@.take(i as int) =~= left@);
    assert(right@.take(j as int) =~= right@);
    result
}

/// Sorts part of a list.
fn rank_range<R: Ranking>(items: &Vec<i32>, low: usize, high: usize, ranking: &R) -> (result: Vec<
    i32,
>)
    requires
        low <= high <= items@.len(),
        forall|i: int| 0 <= i < items@.len() ==> ranking.known(#[trigger] items@[i]),
    ensures
        sorted_by(result@, key_order(ranking.first(), ranking.second())),
        result@.to_multiset() == items@.subrange(low as int, high as int).to_multiset(),
    decreases high - low,
{
    let ghost part = items@.subrange(low as int, high as int);
    if high - low <= 1 {
        let mut result: Vec<i32> = Vec::new();
        if low < high {
            result.push(items[low]);
        }
        assert(result@ =~= part);
        return result;
    }
    let middle: usize = low + (high - low) / 2;
    let left: Vec<i32> = rank_range(items, low, middle, ranking);
    let right: Vec<i32> = rank_range(items, middle, high, ranking);
    proof {
        let a = items@.subrange(low as int, middle as int);
        let b = items@.subrange(middle as int, high as int);
        assert(part =~= a + b);
        vstd::seq_lib::lemma_multiset_commutative(a, b);
        lemma_known(left@, a, ranking);
        lemma_known(right@, b, ranking);
    }
    merge(&left, &right, ranking)
}

proof fn lemma_known<R: Ranking>(sorted: Seq<i32>, items: Seq<i32>, ranking: &R)
    requires
        sorted.to_multiset() == items.to_multiset(),
        forall|i: int| 0 <= i < items.len() ==> ranking.known(#[trigger] items[i]),
    ensures
        forall|i: int| 0 <= i < sorted.len() ==> ranking.known(#[trigger] sorted[i]),
{
    assert forall|i: int| 0 <= i < sorted.len() implies ranking.known(#[trigger] sorted[i]) by {
        sorted.to_multiset_ensures();
        items.to_multiset_ensures();
        assert(sorted.contains(sorted[i]));
        assert(items.to_multiset().count(sorted[i]) > 0);
        assert(items.contains(sorted[i]));
    }
}

/// Sorts a list by keys.
pub fn rank_items<R: Ranking>(items: &Vec<i32>, ranking: &R) -> (result: Vec<i32>)
    requires
        forall|i: int| 0 <= i < items@.len() ==> ranking.known(#[trigger] items@[i]),
    ensures
        result@ == ranked(items@, ranking.first(), ranking.second()),
{
    let result: Vec<i32> = rank_range(items, 0, items.len(), ranking);
    proof {
        let order = key_order(ranking.first(), ranking.second());
        assert(items@.subrange(0, items@.len() as int) =~= items@);
        lemma_key_order(ranking.first(), ranking.second());
        items@.lemma_sort_by_ensures(order);
        vstd::seq_lib::lemma_sorted_unique(
            result@,
            ranked(items@, ranking.first(), ranking.second()),
            order,
        );
    }
    result
}

/// Sorts a list in ascending order.
pub fn sort_ascending(items: &Vec<i32>) -> (result: Vec<i32>)
    ensures
        result@ == ascending(items@),
{
    rank_items(items, &ByValue)
}

} // verus!
