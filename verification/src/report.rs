//! The figures that sum a simulation up.

use vstd::prelude::*;

use crate::gpu_scheduler::{JobMetrics, SchedulerMetrics};
use crate::lists::{first_numbers, numbers};
use crate::ranking::{rank_items, ranked, ranked_is_sorted, Ranking};
use crate::rounding::{
    lemma_compared, lemma_difference_near, lemma_integer_value, lemma_product_near,
    lemma_quotient_near, lemma_sum_near, near, rounds, stands_for, EXACT_INTEGER,
};
use crate::scalar::{
    clamp_i64, clamped, larger, less, max_of, min_of, smaller, truncating_quotient, zero,
    Scalar, Ticks,
};

verus! {

/// The percentile that the tails are taken at.
pub const TAIL_PERCENT: i64 = 99;

/// Some values in their order.
pub open spec fn sorted_values<N: Scalar>(values: Seq<N>) -> Seq<N> {
    let order = ranked(
        numbers(values.len()),
        |i: i32| values[i as int].rank(),
        |i: i32| i as int,
    );
    Seq::new(values.len(), |k: int| values[order[k] as int])
}

/// The place of a percentile among a number of values, between two of them perhaps.
pub open spec fn percentile_place<N: Scalar>(count: nat, percent: N) -> N {
    percent.quotient(N::integer(100)).product(N::integer(clamped(count - 1)))
}

/// The last index that is not behind a place.
pub open spec fn index_below<N: Scalar>(place: N) -> int {
    if place.truncated() > 0 {
        place.truncated() as int
    } else {
        0
    }
}

/// The first index that is not before a place.
pub open spec fn index_above<N: Scalar>(place: N) -> int {
    if less(N::integer(index_below(place) as i64), place) {
        index_below(place) + 1
    } else {
        index_below(place)
    }
}

/// A percentile of some values: the value at its place, or the mean of the two values
/// around it, weighted by how near they are. There is none where values cannot be
/// ordered, or where the place lies outside. Of no values at all it is zero.
pub open spec fn percentile_of<N: Scalar>(values: Seq<N>, percent: N) -> Option<N> {
    let place = percentile_place(values.len(), percent);
    let below = index_below(place);
    let above = index_above(place);
    let sorted = sorted_values(values);
    if values.len() == 0 {
        Some(zero())
    } else if values.len() > 1 && !all_ordered(values) || above >= values.len() {
        None
    } else if below == above {
        Some(sorted[below])
    } else {
        Some(
            sorted[below].product(N::integer(above as i64).difference(place)).sum(
                sorted[above].product(place.difference(N::integer(below as i64))),
            ),
        )
    }
}

/// Whether all of some values can be ordered.
pub open spec fn all_ordered<N: Scalar>(values: Seq<N>) -> bool {
    forall|i: int| 0 <= i < values.len() ==> (#[trigger] values[i]).ordered()
}

/// The order of values.
struct ByRank<'a, N> {
    values: &'a Vec<N>,
}

impl<'a, N: Scalar> Ranking for ByRank<'a, N> {
    closed spec fn known(&self, item: i32) -> bool {
        &&& 0 <= item < self.values@.len()
        &&& self.values@.len() > 1 ==> self.values@[item as int].ordered()
    }

    closed spec fn first(&self) -> spec_fn(i32) -> int {
        let values = self.values@;
        |i: i32| values[i as int].rank()
    }

    closed spec fn second(&self) -> spec_fn(i32) -> int {
        |i: i32| i as int
    }

    fn at_most(&self, a: i32, b: i32) -> (result: bool) {
        if a == b {
            return true;
        }
        let value_a: N = self.values[a as usize];
        let value_b: N = self.values[b as usize];
        if value_a.is_less(value_b) {
            return true;
        }
        if value_b.is_less(value_a) {
            return false;
        }
        a <= b
    }
}

/// A percentile of some values.
pub fn percentile<N: Scalar>(values: &Vec<N>, percent: N) -> (result: Option<N>)
    requires
        values@.len() <= i32::MAX,
    ensures
        result == percentile_of(values@, percent),
{
    let n: usize = values.len();
    if n == 0 {
        return Some(N::of_int(0));
    }
    if n > 1 {
        let mut i: usize = 0;
        while i < n
            invariant
                i <= n == values@.len(),
                n > 1,
                forall|j: int| 0 <= j < i ==> (#[trigger] values@[j]).ordered(),
            decreases n - i,
        {
            let value: N = values[i];
            if !value.is_equal(value) {
                assert(!values@[i as int].ordered());
                return None;
            }
            i += 1;
        }
    }
    let all: Vec<i32> = first_numbers(n);
    let ranking = ByRank { values };
    let order: Vec<i32> = rank_items(&all, &ranking);
    proof {
        ranked_is_sorted(numbers(n as nat), ranking.first(), ranking.second());
        assert forall|k: int| 0 <= k < n implies 0 <= #[trigger] order@[k] < n by {
            assert(order@.contains(order@[k]));
            assert(numbers(n as nat).contains(order@[k]));
        }
    }
    let place: N = percent.over(N::of_int(100)).times(N::of_int(clamp_i64(n as i128 - 1)));
    let whole: i64 = place.trunc();
    let below: i64 = if whole > 0 {
        whole
    } else {
        0
    };
    let above: i128 = if N::of_int(below).is_less(place) {
        below as i128 + 1
    } else {
        below as i128
    };
    if above >= n as i128 {
        return None;
    }
    assert(0 <= order@[below as int] < n && 0 <= order@[above as int] < n);
    let low: N = values[order[below as usize] as usize];
    if below as i128 == above {
        return Some(low);
    }
    let high: N = values[order[above as usize] as usize];
    let d0: N = low.times(N::of_int(above as i64).minus(place));
    let d1: N = high.times(place.minus(N::of_int(below)));
    Some(d0.plus(d1))
}

/// Some values added up, in their order.
pub open spec fn sum_of_values<N: Scalar>(values: Seq<N>) -> N
    decreases values.len(),
{
    if values.len() == 0 {
        zero()
    } else {
        sum_of_values(values.drop_last()).sum(values.last())
    }
}

/// The mean of some values.
pub open spec fn mean_of<N: Scalar>(values: Seq<N>) -> N {
    sum_of_values(values).quotient(N::integer(clamped(values.len() as int)))
}

/// The mean of some values.
pub fn mean<N: Scalar>(values: &Vec<N>) -> (result: N)
    ensures
        result == mean_of(values@),
{
    let mut sum: N = N::of_int(0);
    let mut i: usize = 0;
    while i < values.len()
        invariant
            i <= values@.len(),
            sum == sum_of_values(values@.take(i as int)),
        decreases values@.len() - i,
    {
        assert(values@.take(i + 1).drop_last() =~= values@.take(i as int));
        sum = sum.plus(values[i]);
        i += 1;
    }
    assert(values@.take(i as int) =~= values@);
    sum.over(N::of_int(clamp_i64(values.len() as i128)))
}

/// The greatest of some values, and zero at least.
pub open spec fn greatest_of<N: Scalar>(values: Seq<N>) -> N
    decreases values.len(),
{
    if values.len() == 0 {
        zero()
    } else {
        larger(greatest_of(values.drop_last()), values.last())
    }
}

/// The least of some values, and the greatest number at most.
pub open spec fn least_of<N: Scalar>(values: Seq<N>) -> N
    decreases values.len(),
{
    if values.len() == 0 {
        N::maximum()
    } else {
        smaller(least_of(values.drop_last()), values.last())
    }
}

/// The part of a whole, or zero where the whole is nothing.
pub open spec fn part_of<N: Scalar>(part: N, whole: N) -> N {
    if less(zero(), whole) {
        part.quotient(whole)
    } else {
        zero()
    }
}

fn ratio<N: Scalar>(part: N, whole: N) -> (result: N)
    ensures
        result == part_of(part, whole),
{
    if N::of_int(0).is_less(whole) {
        part.over(whole)
    } else {
        N::of_int(0)
    }
}

/// The figures that sum a simulation up. A tail is nothing where it cannot be taken.
pub struct Summary<N> {
    pub avg_jct: N,
    pub avg_waiting: N,
    pub avg_training: N,
    pub avg_loading: N,
    pub tail_jct: Option<N>,
    pub tail_waiting: Option<N>,
    pub tail_queueing: Option<N>,
    pub tail_capacity: Option<N>,
    pub tail_placement: Option<N>,
    pub tail_training: Option<N>,
    pub tail_loading: Option<N>,
    pub makespan: N,
    pub idle_ratio: N,
    pub capacity_wait_ratio: N,
    pub placement_wait_ratio: N,
}

/// One figure of every job.
pub open spec fn figures<N>(jobs: Seq<JobMetrics<N>>, figure: spec_fn(JobMetrics<N>) -> N) -> Seq<
    N,
> {
    Seq::new(jobs.len(), |i: int| figure(jobs[i]))
}

/// The time from the first arrival to the last end.
pub open spec fn makespan_of<N: Scalar>(jobs: Seq<JobMetrics<N>>) -> N {
    greatest_of(figures(jobs, |m: JobMetrics<N>| m.end_time)).difference(
        least_of(figures(jobs, |m: JobMetrics<N>| m.arrival_time)),
    )
}

/// The figures that sum a simulation up.
pub open spec fn summary_of<N: Scalar>(
    jobs: Seq<JobMetrics<N>>,
    idle: N,
    capacity_wait: N,
    placement_wait: N,
) -> Summary<N> {
    let percent = N::integer(TAIL_PERCENT);
    Summary {
        avg_jct: mean_of(figures(jobs, |m: JobMetrics<N>| m.jct)),
        avg_waiting: mean_of(figures(jobs, |m: JobMetrics<N>| m.wait_time)),
        avg_training: mean_of(figures(jobs, |m: JobMetrics<N>| m.training_time)),
        avg_loading: mean_of(figures(jobs, |m: JobMetrics<N>| m.loading_time)),
        tail_jct: percentile_of(figures(jobs, |m: JobMetrics<N>| m.jct), percent),
        tail_waiting: percentile_of(figures(jobs, |m: JobMetrics<N>| m.wait_time), percent),
        tail_queueing: percentile_of(
            figures(jobs, |m: JobMetrics<N>| m.queueing_wait_time),
            percent,
        ),
        tail_capacity: percentile_of(
            figures(jobs, |m: JobMetrics<N>| m.capacity_wait_time),
            percent,
        ),
        tail_placement: percentile_of(
            figures(jobs, |m: JobMetrics<N>| m.placement_wait_time),
            percent,
        ),
        tail_training: percentile_of(figures(jobs, |m: JobMetrics<N>| m.training_time), percent),
        tail_loading: percentile_of(figures(jobs, |m: JobMetrics<N>| m.loading_time), percent),
        makespan: makespan_of(jobs),
        idle_ratio: part_of(idle, makespan_of(jobs)),
        capacity_wait_ratio: part_of(capacity_wait, makespan_of(jobs)),
        placement_wait_ratio: part_of(placement_wait, makespan_of(jobs)),
    }
}

/// Sums a simulation up.
pub fn summarize<N: Scalar>(metrics: &SchedulerMetrics<N>) -> (result: Summary<N>)
    requires
        metrics.jobs@.len() <= i32::MAX,
    ensures
        result == summary_of(
            metrics.jobs@,
            metrics.sched_idle_time,
            metrics.sched_capacity_wait_time,
            metrics.sched_placement_wait_time,
        ),
{
    let ghost jobs = metrics.jobs@;
    let mut jcts: Vec<N> = Vec::new();
    let mut waits: Vec<N> = Vec::new();
    let mut queueing: Vec<N> = Vec::new();
    let mut capacity: Vec<N> = Vec::new();
    let mut placement: Vec<N> = Vec::new();
    let mut training: Vec<N> = Vec::new();
    let mut loading: Vec<N> = Vec::new();
    let mut end: N = N::of_int(0);
    let mut arrival: N = N::greatest();
    let mut i: usize = 0;
    let ghost ends = figures(jobs, |m: JobMetrics<N>| m.end_time);
    let ghost arrivals = figures(jobs, |m: JobMetrics<N>| m.arrival_time);
    while i < metrics.jobs.len()
        invariant
            i <= jobs.len(),
            jobs == metrics.jobs@,
            ends == figures(jobs, |m: JobMetrics<N>| m.end_time),
            arrivals == figures(jobs, |m: JobMetrics<N>| m.arrival_time),
            jcts@ =~= figures(jobs, |m: JobMetrics<N>| m.jct).take(i as int),
            waits@ =~= figures(jobs, |m: JobMetrics<N>| m.wait_time).take(i as int),
            queueing@ =~= figures(jobs, |m: JobMetrics<N>| m.queueing_wait_time).take(i as int),
            capacity@ =~= figures(jobs, |m: JobMetrics<N>| m.capacity_wait_time).take(i as int),
            placement@ =~= figures(jobs, |m: JobMetrics<N>| m.placement_wait_time).take(i as int),
            training@ =~= figures(jobs, |m: JobMetrics<N>| m.training_time).take(i as int),
            loading@ =~= figures(jobs, |m: JobMetrics<N>| m.loading_time).take(i as int),
            end == greatest_of(ends.take(i as int)),
            arrival == least_of(arrivals.take(i as int)),
        decreases jobs.len() - i,
    {
        let m = &metrics.jobs[i];
        proof {
            assert(ends.take(i + 1).drop_last() =~= ends.take(i as int));
            assert(arrivals.take(i + 1).drop_last() =~= arrivals.take(i as int));
        }
        jcts.push(m.jct);
        waits.push(m.wait_time);
        queueing.push(m.queueing_wait_time);
        capacity.push(m.capacity_wait_time);
        placement.push(m.placement_wait_time);
        training.push(m.training_time);
        loading.push(m.loading_time);
        end = max_of(end, m.end_time);
        arrival = min_of(arrival, m.arrival_time);
        i += 1;
    }
    proof {
        assert(ends.take(i as int) =~= ends);
        assert(arrivals.take(i as int) =~= arrivals);
        assert(jcts@ =~= figures(jobs, |m: JobMetrics<N>| m.jct));
        assert(waits@ =~= figures(jobs, |m: JobMetrics<N>| m.wait_time));
        assert(queueing@ =~= figures(jobs, |m: JobMetrics<N>| m.queueing_wait_time));
        assert(capacity@ =~= figures(jobs, |m: JobMetrics<N>| m.capacity_wait_time));
        assert(placement@ =~= figures(jobs, |m: JobMetrics<N>| m.placement_wait_time));
        assert(training@ =~= figures(jobs, |m: JobMetrics<N>| m.training_time));
        assert(loading@ =~= figures(jobs, |m: JobMetrics<N>| m.loading_time));
    }
    let percent: N = N::of_int(TAIL_PERCENT);
    let makespan: N = end.minus(arrival);
    Summary {
        avg_jct: mean(&jcts),
        avg_waiting: mean(&waits),
        avg_training: mean(&training),
        avg_loading: mean(&loading),
        tail_jct: percentile(&jcts, percent),
        tail_waiting: percentile(&waits, percent),
        tail_queueing: percentile(&queueing, percent),
        tail_capacity: percentile(&capacity, percent),
        tail_placement: percentile(&placement, percent),
        tail_training: percentile(&training, percent),
        tail_loading: percentile(&loading, percent),
        makespan,
        idle_ratio: ratio(metrics.sched_idle_time, makespan),
        capacity_wait_ratio: ratio(metrics.sched_capacity_wait_time, makespan),
        placement_wait_ratio: ratio(metrics.sched_placement_wait_time, makespan),
    }
}

impl<N: Scalar> JobMetrics<N> {
    /// The part of its completion time that a job computes, in percent.
    pub open spec fn utilization(self) -> N {
        part_of(N::integer(100).product(self.compute_time), self.jct)
    }

    /// The part of its completion time that a job computes, in percent.
    pub fn gpu_util(&self) -> (result: N)
        ensures
            result == self.utilization(),
    {
        ratio(N::of_int(100).times(self.compute_time), self.jct)
    }
}

/// The lines of an output file: those that are there already, or a header, and then the rows.
pub fn output_lines(existing: Option<Vec<String>>, header: String, rows: Vec<String>) -> (result: Vec<
    String,
>)
    ensures
        result@ == match existing {
            Some(lines) => lines@,
            None => seq![header],
        } + rows@,
{
    let mut rows: Vec<String> = rows;
    let mut result: Vec<String> = match existing {
        Some(lines) => lines,
        None => {
            let mut lines: Vec<String> = Vec::new();
            lines.push(header);
            assert(lines@ =~= seq![header]);
            lines
        },
    };
    result.append(&mut rows);
    result
}

/// Sorting values keeps them and puts none before a smaller one.
pub proof fn sorted_values_are_sorted<N: Scalar>(values: Seq<N>)
    requires
        values.len() <= i32::MAX,
    ensures
        sorted_values(values).len() == values.len(),
        forall|i: int, j: int|
            0 <= i < j < values.len() ==> (#[trigger] sorted_values(values)[i]).rank() <= (
            #[trigger] sorted_values(values)[j]).rank(),
        forall|i: int|
            0 <= i < values.len() ==> sorted_values(values).contains(#[trigger] values[i]),
        forall|i: int|
            0 <= i < values.len() ==> values.contains(#[trigger] sorted_values(values)[i]),
{
    let all = numbers(values.len());
    let first = |i: i32| values[i as int].rank();
    let second = |i: i32| i as int;
    let order = ranked(all, first, second);
    let sorted = sorted_values(values);
    ranked_is_sorted(all, first, second);
    assert forall|k: int| 0 <= k < values.len() implies 0 <= #[trigger] order[k]
        < values.len() by {
        assert(order.contains(order[k]));
        assert(all.contains(order[k]));
    }
    assert forall|i: int, j: int| 0 <= i < j < values.len() implies (
    #[trigger] sorted[i]).rank() <= (#[trigger] sorted[j]).rank() by {
        assert(crate::ranking::no_later(first, second, order[i], order[j]));
    }
    assert forall|i: int| 0 <= i < values.len() implies sorted.contains(#[trigger] values[i]) by {
        assert(all[i] == i as i32);
        assert(all.contains(i as i32));
        assert(order.contains(i as i32));
        let k = choose|k: int| 0 <= k < order.len() && order[k] == i as i32;
        assert(sorted[k] == values[i]);
    }
    assert forall|i: int| 0 <= i < values.len() implies values.contains(#[trigger] sorted[i]) by {
        assert(values[order[i] as int] == sorted[i]);
    }
}

/// How many items of a list are of a kind.
pub open spec fn tally<A>(items: Seq<A>, kind: spec_fn(A) -> bool) -> int
    decreases items.len(),
{
    if items.len() == 0 {
        0
    } else {
        tally(items.drop_last(), kind) + if kind(items.last()) {
            1int
        } else {
            0int
        }
    }
}

proof fn lemma_tally_removed<A>(items: Seq<A>, kind: spec_fn(A) -> bool, i: int)
    requires
        0 <= i < items.len(),
    ensures
        tally(items, kind) == tally(items.remove(i), kind) + if kind(items[i]) {
            1int
        } else {
            0int
        },
    decreases items.len(),
{
    if i == items.len() - 1 {
        assert(items.remove(i) =~= items.drop_last());
    } else {
        lemma_tally_removed(items.drop_last(), kind, i);
        assert(items.remove(i).drop_last() =~= items.drop_last().remove(i));
        assert(items.remove(i).last() == items.last());
    }
}

/// The order of a list does not matter to a tally.
proof fn lemma_tally_reordered<A>(a: Seq<A>, b: Seq<A>, kind: spec_fn(A) -> bool)
    requires
        a.to_multiset() == b.to_multiset(),
    ensures
        tally(a, kind) == tally(b, kind),
    decreases a.len(),
{
    a.to_multiset_ensures();
    b.to_multiset_ensures();
    assert(a.len() == b.len());
    if a.len() > 0 {
        let rest = a.drop_last();
        let last = a.last();
        assert(a[a.len() - 1] == last);
        assert(a.contains(last));
        assert(b.to_multiset().count(last) > 0);
        assert(b.contains(last));
        let i = choose|i: int| 0 <= i < b.len() && b[i] == last;
        assert(rest =~= a.remove(a.len() - 1));
        assert(rest.to_multiset() =~= a.to_multiset().remove(last));
        assert(b.remove(i).to_multiset() =~= b.to_multiset().remove(last));
        lemma_tally_reordered(rest, b.remove(i), kind);
        lemma_tally_removed(b, kind, i);
    }
}

/// A tally of values that are picked by their places is one of the places.
proof fn lemma_tally_picked<N>(values: Seq<N>, places: Seq<i32>, kind: spec_fn(N) -> bool)
    ensures
        tally(Seq::new(places.len(), |k: int| values[places[k] as int]), kind) == tally(
            places,
            |i: i32| kind(values[i as int]),
        ),
    decreases places.len(),
{
    let picked = Seq::new(places.len(), |k: int| values[places[k] as int]);
    if places.len() > 0 {
        let rest = places.drop_last();
        lemma_tally_picked(values, rest, kind);
        assert(picked.drop_last() =~= Seq::new(rest.len(), |k: int| values[rest[k] as int]));
    }
}

/// Sorting changes no tally.
proof fn lemma_tally_sorted<N: Scalar>(values: Seq<N>, kind: spec_fn(N) -> bool)
    requires
        values.len() <= i32::MAX,
    ensures
        tally(sorted_values(values), kind) == tally(values, kind),
{
    let all = numbers(values.len());
    let first = |i: i32| values[i as int].rank();
    let second = |i: i32| i as int;
    let order = ranked(all, first, second);
    ranked_is_sorted(all, first, second);
    lemma_tally_picked(values, order, kind);
    lemma_tally_picked(values, all, kind);
    lemma_tally_reordered(order, all, |i: i32| kind(values[i as int]));
    assert(Seq::new(all.len(), |k: int| values[all[k] as int]) =~= values);
    assert(Seq::new(order.len(), |k: int| values[order[k] as int]) =~= sorted_values(values));
}

/// In a sorted list, more than `k` values are no greater than a rank just where the value at
/// `k` is not.
proof fn lemma_tally_at<N: Scalar>(sorted: Seq<N>, k: int, rank: int)
    requires
        0 <= k < sorted.len(),
        forall|i: int, j: int|
            0 <= i < j < sorted.len() ==> (#[trigger] sorted[i]).rank() <= (
            #[trigger] sorted[j]).rank(),
    ensures
        tally(sorted, |value: N| value.rank() <= rank) > k <==> sorted[k].rank() <= rank,
    decreases sorted.len(),
{
    let kind = |value: N| value.rank() <= rank;
    let rest = sorted.drop_last();
    let last = sorted.len() - 1;
    assert forall|i: int, j: int| 0 <= i < j < rest.len() implies (#[trigger] rest[i]).rank() <= (
    #[trigger] rest[j]).rank() by {
        assert(sorted[i].rank() <= sorted[j].rank());
    }
    lemma_tally_bound(rest, kind);
    if k < last {
        lemma_tally_at(rest, k, rank);
        assert(sorted[k].rank() <= sorted[last].rank());
    } else if last > 0 {
        lemma_tally_at(rest, last - 1, rank);
        assert(sorted[last - 1].rank() <= sorted[last].rank());
    }
}

proof fn lemma_tally_bound<A>(items: Seq<A>, kind: spec_fn(A) -> bool)
    ensures
        0 <= tally(items, kind) <= items.len(),
    decreases items.len(),
{
    if items.len() > 0 {
        lemma_tally_bound(items.drop_last(), kind);
    }
}

/// The order in which values are given does not matter to a percentile of them, where
/// values of one rank are the same.
pub proof fn percentiles_ignore_the_order<N: Scalar>(a: Seq<N>, b: Seq<N>, percent: N)
    requires
        a.len() <= i32::MAX,
        a.to_multiset() == b.to_multiset(),
        forall|i: int, j: int|
            0 <= i < a.len() && 0 <= j < a.len() && (#[trigger] a[i]).rank() == (
            #[trigger] a[j]).rank() ==> a[i] == a[j],
    ensures
        percentile_of(a, percent) == percentile_of(b, percent),
{
    let left = sorted_values(a);
    let right = sorted_values(b);
    a.to_multiset_ensures();
    b.to_multiset_ensures();
    assert(a.len() == b.len());
    sorted_values_are_sorted(a);
    sorted_values_are_sorted(b);
    assert forall|v: N| a.contains(v) <==> b.contains(v) by {
        assert(a.contains(v) <==> a.to_multiset().count(v) > 0);
        assert(b.contains(v) <==> b.to_multiset().count(v) > 0);
    }
    assert forall|k: int| 0 <= k < a.len() implies left[k] == right[k] by {
        lemma_same_rank(a, b, k);
        assert(a.contains(left[k]) && b.contains(right[k]));
        assert(a.contains(right[k]));
        let i = choose|i: int| 0 <= i < a.len() && a[i] == left[k];
        let j = choose|j: int| 0 <= j < a.len() && a[j] == right[k];
        assert(a[i].rank() == a[j].rank());
    }
    assert(left =~= right);
    assert(all_ordered(a) == all_ordered(b)) by {
        if all_ordered(a) {
            assert forall|i: int| 0 <= i < b.len() implies (#[trigger] b[i]).ordered() by {
                assert(b.contains(b[i]));
                assert(a.contains(b[i]));
                let j = choose|j: int| 0 <= j < a.len() && a[j] == b[i];
                assert(a[j].ordered());
            }
        }
        if all_ordered(b) {
            assert forall|i: int| 0 <= i < a.len() implies (#[trigger] a[i]).ordered() by {
                assert(a.contains(a[i]));
                assert(b.contains(a[i]));
                let j = choose|j: int| 0 <= j < b.len() && b[j] == a[i];
                assert(b[j].ordered());
            }
        }
    }
}

proof fn lemma_same_rank<N: Scalar>(a: Seq<N>, b: Seq<N>, k: int)
    requires
        a.len() == b.len() <= i32::MAX,
        a.to_multiset() == b.to_multiset(),
        0 <= k < a.len(),
    ensures
        sorted_values(a)[k].rank() == sorted_values(b)[k].rank(),
{
    lemma_same_bound(a, b, k, sorted_values(a)[k].rank());
    lemma_same_bound(a, b, k, sorted_values(b)[k].rank());
}

proof fn lemma_same_bound<N: Scalar>(a: Seq<N>, b: Seq<N>, k: int, rank: int)
    requires
        a.len() == b.len() <= i32::MAX,
        a.to_multiset() == b.to_multiset(),
        0 <= k < a.len(),
    ensures
        sorted_values(a)[k].rank() <= rank <==> sorted_values(b)[k].rank() <= rank,
{
    let kind = |value: N| value.rank() <= rank;
    sorted_values_are_sorted(a);
    sorted_values_are_sorted(b);
    lemma_tally_at(sorted_values(a), k, rank);
    lemma_tally_at(sorted_values(b), k, rank);
    lemma_tally_sorted(a, kind);
    lemma_tally_sorted(b, kind);
    lemma_tally_reordered(a, b, kind);
}

/// The place of a percentile in whole ticks: the first place, but for all of a hundred
/// percent, which is the last.
proof fn lemma_place_in_ticks(count: nat, percent: Ticks)
    requires
        0 < count <= i32::MAX,
        0 <= percent.count <= 100,
    ensures
        percentile_place(count, percent).count == if percent.count == 100 {
            count - 1
        } else {
            0
        },
{
    let part = percent.quotient(Ticks { count: 100 });
    let percents = percent.count as int;
    assert(0 <= percents < 100 ==> percents / 100 == 0);
    assert(truncating_quotient(percents, 100) == percents / 100);
    assert(part.count == if percent.count == 100 {
        1int
    } else {
        0int
    });
    assert(1 * (count - 1) == count - 1 && 0 * (count - 1) == 0);
}

/// In whole ticks, a percentile of nothing percent is the least value, one of a hundred
/// percent is the greatest, and of two percentiles the one of more percent is no less.
pub proof fn percentiles_grow_with_the_percent(
    values: Seq<Ticks>,
    less_percent: Ticks,
    more_percent: Ticks,
)
    requires
        0 < values.len() <= i32::MAX,
        0 <= less_percent.count <= more_percent.count <= 100,
    ensures
        percentile_of(values, less_percent) is Some,
        percentile_of(values, more_percent) is Some,
        percentile_of(values, less_percent)->0.count <= percentile_of(
            values,
            more_percent,
        )->0.count,
        percentile_of(values, Ticks { count: 0 }) matches Some(least) && values.contains(least)
            && forall|i: int| 0 <= i < values.len() ==> least.count <= (#[trigger] values[i]).count,
        percentile_of(values, Ticks { count: 100 }) matches Some(greatest) && values.contains(
            greatest,
        ) && forall|i: int|
            0 <= i < values.len() ==> (#[trigger] values[i]).count <= greatest.count,
{
    let sorted = sorted_values(values);
    let last = values.len() - 1;
    sorted_values_are_sorted(values);
    lemma_place_in_ticks(values.len(), less_percent);
    lemma_place_in_ticks(values.len(), more_percent);
    lemma_place_in_ticks(values.len(), Ticks { count: 0 });
    lemma_place_in_ticks(values.len(), Ticks { count: 100 });
    assert forall|i: int| 0 <= i < values.len() implies sorted[0].count <= (
    #[trigger] values[i]).count && values[i].count <= sorted[last].count by {
        assert(sorted.contains(values[i]));
        let k = choose|k: int| 0 <= k < sorted.len() && sorted[k] == values[i];
        if k > 0 {
            assert(sorted[0].rank() <= sorted[k].rank());
        }
        if k < last {
            assert(sorted[k].rank() <= sorted[last].rank());
        }
    }
    if last > 0 {
        assert(sorted[0].rank() <= sorted[last].rank());
    }
    assert(values.contains(sorted[0]) && values.contains(sorted[last]));
}

/// Percentiles whose places are those of values are in the order of their places: the one at
/// the first place is no greater than any value, the one at the last place no less.
pub proof fn percentiles_at_values_are_in_order<N: Scalar>(
    values: Seq<N>,
    less_percent: N,
    more_percent: N,
)
    requires
        0 < values.len() <= i32::MAX,
        all_ordered(values),
        ({
            let low = percentile_place(values.len(), less_percent);
            let high = percentile_place(values.len(), more_percent);
            &&& index_below(low) == index_above(low)
            &&& index_below(high) == index_above(high)
            &&& index_below(low) <= index_below(high) < values.len()
        }),
    ensures
        percentile_of(values, less_percent) matches Some(low) && percentile_of(
            values,
            more_percent,
        ) matches Some(high) && {
            &&& low.rank() <= high.rank()
            &&& index_below(percentile_place(values.len(), less_percent)) == 0 ==> forall|i: int|
                0 <= i < values.len() ==> low.rank() <= (#[trigger] values[i]).rank()
            &&& index_below(percentile_place(values.len(), more_percent)) == values.len() - 1
                ==> forall|i: int|
                0 <= i < values.len() ==> (#[trigger] values[i]).rank() <= high.rank()
        },
{
    let sorted = sorted_values(values);
    let low = index_below(percentile_place(values.len(), less_percent));
    let high = index_below(percentile_place(values.len(), more_percent));
    let last = values.len() - 1;
    sorted_values_are_sorted(values);
    if low < high {
        assert(sorted[low].rank() <= sorted[high].rank());
    }
    assert forall|i: int| 0 <= i < values.len() implies sorted[0].rank() <= (
    #[trigger] values[i]).rank() && values[i].rank() <= sorted[last].rank() by {
        assert(sorted.contains(values[i]));
        let k = choose|k: int| 0 <= k < sorted.len() && sorted[k] == values[i];
        if k > 0 {
            assert(sorted[0].rank() <= sorted[k].rank());
        }
        if k < last {
            assert(sorted[k].rank() <= sorted[last].rank());
        }
    }
}

/// The value at a place between two of some values: on the line from the one below it to the
/// one above.
pub open spec fn value_between<N: Scalar>(
    sorted: Seq<N>,
    value: spec_fn(N) -> real,
    below: int,
    place: real,
) -> real {
    if place == below as real {
        value(sorted[below])
    } else {
        value(sorted[below]) + (place - below as real) * (value(sorted[below + 1]) - value(
            sorted[below],
        ))
    }
}

/// By how much a percentile may be off the exact value at its place, for values up to a size.
pub open spec fn percentile_error(size: real, error: real) -> real {
    3real * error + 2real * (size * error)
}

/// Whether a number type and some values allow a percentile up to rounding: the values are
/// finite and within a size, and so is all that is computed of them.
pub open spec fn percentiles_round<N: Scalar>(
    values: Seq<N>,
    value: spec_fn(N) -> real,
    size: real,
    bound: real,
    error: real,
) -> bool {
    &&& rounds(value, bound, error)
    &&& 0 < values.len() <= i32::MAX
    &&& 0real <= size
    &&& forall|i: int|
        0 <= i < values.len() ==> (#[trigger] values[i]).finite() && -size <= value(values[i])
            <= size
    &&& 2real * (size * (1real + error) + error) <= bound
}

/// Whether a number is a percentage.
pub open spec fn is_percentage<N: Scalar>(percent: N, value: spec_fn(N) -> real) -> bool {
    percent.finite() && 0real <= value(percent) <= 100real
}

/// The sorted values are finite, within the size, and their values do not fall.
proof fn lemma_sorted_round<N: Scalar>(
    values: Seq<N>,
    value: spec_fn(N) -> real,
    size: real,
    bound: real,
    error: real,
)
    requires
        percentiles_round(values, value, size, bound, error),
    ensures
        sorted_values(values).len() == values.len(),
        all_ordered(values),
        forall|i: int|
            0 <= i < values.len() ==> (#[trigger] sorted_values(values)[i]).finite() && -size
                <= value(sorted_values(values)[i]) <= size,
        forall|i: int, j: int|
            0 <= i <= j < values.len() ==> value(#[trigger] sorted_values(values)[i]) <= value(
                #[trigger] sorted_values(values)[j],
            ),
{
    let sorted = sorted_values(values);
    sorted_values_are_sorted(values);
    assert forall|i: int| 0 <= i < values.len() implies (#[trigger] values[i]).ordered() by {
        assert(values[i].finite());
    }
    assert forall|i: int| 0 <= i < values.len() implies (#[trigger] sorted[i]).finite() && -size
        <= value(sorted[i]) <= size by {
        assert(values.contains(sorted[i]));
        let k = choose|k: int| 0 <= k < values.len() && values[k] == sorted[i];
        assert(values[k].finite());
    }
    assert forall|i: int, j: int| 0 <= i <= j < values.len() implies value(
        #[trigger] sorted[i],
    ) <= value(#[trigger] sorted[j]) by {
        if i < j {
            assert(sorted[i].rank() <= sorted[j].rank());
            assert(sorted[i].finite() && sorted[j].finite());
        }
    }
}

/// The place of a percentage lies among the values. It is the first one for nothing percent,
/// and the last one for a hundred.
proof fn lemma_place_rounded<N: Scalar>(
    count: nat,
    percent: N,
    value: spec_fn(N) -> real,
    bound: real,
    error: real,
)
    requires
        rounds(value, bound, error),
        0 < count <= i32::MAX,
        is_percentage(percent, value),
    ensures
        ({
            let place = percentile_place(count, percent);
            let below = index_below(place);
            let above = index_above(place);
            &&& place.finite()
            &&& 0real <= value(place) <= (count - 1) as real
            &&& value(percent) == 0real ==> value(place) == 0real
            &&& value(percent) == 100real ==> value(place) == (count - 1) as real
            &&& 0 <= below <= above < count
            &&& below as real <= value(place) < (below + 1) as real
            &&& value(place) == below as real ==> above == below
            &&& value(place) != below as real ==> above == below + 1
        }),
{
    let none = N::integer(0);
    let all = N::integer(1);
    let hundred = N::integer(100);
    let last = N::integer((count - 1) as i64);
    let part = percent.quotient(hundred);
    let place = percentile_place(count, percent);
    let p = value(percent);
    let n = (count - 1) as real;
    assert(none.finite() && value(none) == 0real);
    assert(all.finite() && value(all) == 1real);
    assert(hundred.finite() && value(hundred) == 100real);
    assert(last.finite() && value(last) == n);
    // The percentage as a part of one.
    assert(0real <= p / 100real <= 1real && 0real / 100real == 0real && 100real / 100real
        == 1real);
    assert(stands_for(value, part, p / 100real, bound, error));
    assert(stands_for(value, none.quotient(hundred), 0real, bound, error));
    assert(stands_for(value, hundred.quotient(hundred), 1real, bound, error));
    assert(value(none.quotient(hundred)) == 0real) by {
        assert(value(none) == 0real);
    }
    assert(value(hundred.quotient(hundred)) == 1real) by {
        assert(value(all) == 1real);
    }
    assert(value(none.quotient(hundred)) <= value(part));
    assert(value(part) <= value(hundred.quotient(hundred)));
    let h = value(part);
    assert(p == 0real ==> h == 0real) by {
        assert(value(none) == 0real);
    }
    assert(p == 100real ==> h == 1real) by {
        assert(value(all) == 1real);
    }
    // The part of the way from the first value to the last.
    assert(0real <= h * n <= n && 0real * n == 0real && 1real * n == n) by (nonlinear_arith)
        requires
            0real <= h <= 1real,
            n >= 0real,
    ;
    assert(place == part.product(last));
    assert(stands_for(value, place, h * n, bound, error));
    assert(stands_for(value, none.product(last), 0real, bound, error));
    assert(stands_for(value, all.product(last), n, bound, error));
    assert(value(none.product(last)) == 0real) by {
        assert(value(none) == 0real);
    }
    assert(value(all.product(last)) == n) by {
        assert(value(last) == n);
    }
    assert(value(none.product(last)) <= value(place));
    assert(value(place) <= value(all.product(last)));
    assert(h == 0real ==> value(place) == 0real) by {
        if h == 0real {
            assert(h * n == 0real) by (nonlinear_arith)
                requires
                    h == 0real,
            ;
            assert(value(none) == h * n);
        }
    }
    assert(h == 1real ==> value(place) == n) by {
        if h == 1real {
            assert(h * n == n) by (nonlinear_arith)
                requires
                    h == 1real,
            ;
            assert(value(last) == h * n);
        }
    }
    // The values around the place.
    let x = value(place);
    let whole = place.truncated() as int;
    assert(whole as real <= x < (whole + 1) as real);
    assert(whole >= 0);
    let below = index_below(place);
    let at = N::integer(below as i64);
    assert(below == whole);
    assert(at.finite() && value(at) == below as real);
    assert(less(at, place) <==> (below as real) < x) by {
        assert(at.ordered() && place.ordered());
        assert(place.rank() <= at.rank() <==> value(place) <= value(at));
    }
}

/// A percentile is near the exact value at its place.
proof fn lemma_percentile_near<N: Scalar>(
    values: Seq<N>,
    percent: N,
    value: spec_fn(N) -> real,
    size: real,
    bound: real,
    error: real,
)
    requires
        percentiles_round(values, value, size, bound, error),
        is_percentage(percent, value),
    ensures
        ({
            let place = percentile_place(values.len(), percent);
            let below = index_below(place);
            &&& percentile_of(values, percent) is Some
            &&& near(
                value(percentile_of(values, percent)->0),
                value_between(sorted_values(values), value, below, value(place)),
                percentile_error(size, error),
            )
            &&& value(place) == below as real ==> percentile_of(values, percent)
                == Some(sorted_values(values)[below])
        }),
{
    let sorted = sorted_values(values);
    let place = percentile_place(values.len(), percent);
    let below = index_below(place);
    let above = index_above(place);
    let x = value(place);
    let f = below as real;
    lemma_sorted_round(values, value, size, bound, error);
    lemma_place_rounded(values.len(), percent, value, bound, error);
    assert(size * error >= 0real) by (nonlinear_arith)
        requires
            size >= 0real,
            error >= 0real,
    ;
    if x != f {
        let low = sorted[below];
        let high = sorted[above];
        let s = value(low);
        let t = value(high);
        let upper = N::integer(above as i64);
        let lower = N::integer(below as i64);
        assert(upper.finite() && value(upper) == (below + 1) as real);
        assert(lower.finite() && value(lower) == f);
        let left = upper.difference(place);
        let right = place.difference(lower);
        assert(stands_for(value, left, f + 1real - x, bound, error));
        assert(stands_for(value, right, x - f, bound, error));
        let a = value(left);
        let b = value(right);
        assert(near(a, f + 1real - x, error) && near(b, x - f, error));
        let first = low.product(left);
        let second = high.product(right);
        assert(low.finite() && high.finite());
        lemma_weighted(s, a, f + 1real - x, size, error);
        lemma_weighted(t, b, x - f, size, error);
        assert(stands_for(value, first, s * a, bound, error));
        assert(stands_for(value, second, t * b, bound, error));
        let u = value(first);
        let v = value(second);
        assert(near(u, s * a, error) && near(v, t * b, error));
        let result = first.sum(second);
        assert(stands_for(value, result, u + v, bound, error));
        assert(percentile_of(values, percent) == Some(result));
        assert(value_between(sorted, value, below, x) == s * (f + 1real - x) + t * (x - f))
            by (nonlinear_arith)
            requires
                value_between(sorted, value, below, x) == s + (x - f) * (t - s),
        ;
    }
}

/// A value times a weight that is near another is near its product with the other.
proof fn lemma_weighted(s: real, a: real, weight: real, size: real, error: real)
    requires
        -size <= s <= size,
        near(a, weight, error),
        0real <= weight <= 1real,
        error >= 0real,
    ensures
        near(s * a, s * weight, size * error),
        -(size * (1real + error)) <= s * a <= size * (1real + error),
{
    let d = a - weight;
    assert(s * a == s * weight + s * d && -(size * error) <= s * d <= size * error && -size <= s
        * weight <= size && size * (1real + error) == size + size * error) by (nonlinear_arith)
        requires
            -size <= s <= size,
            d == a - weight,
            -error <= d <= error,
            0real <= weight <= 1real,
            error >= 0real,
    ;
}

/// Up to rounding, a percentile of more percent is no less. A percentile of nothing percent
/// is the least value, and one of a hundred percent the greatest, without any rounding.
pub proof fn percentiles_grow_to_rounding<N: Scalar>(
    values: Seq<N>,
    less_percent: N,
    more_percent: N,
    value: spec_fn(N) -> real,
    size: real,
    bound: real,
    error: real,
)
    requires
        percentiles_round(values, value, size, bound, error),
        is_percentage(less_percent, value),
        is_percentage(more_percent, value),
        value(less_percent) <= value(more_percent),
    ensures
        percentile_of(values, less_percent) matches Some(low) && percentile_of(
            values,
            more_percent,
        ) matches Some(high) && {
            &&& value(low) <= value(high) + 2real * percentile_error(size, error)
            &&& value(less_percent) == 0real ==> values.contains(low) && forall|i: int|
                0 <= i < values.len() ==> value(low) <= value(#[trigger] values[i])
            &&& value(more_percent) == 100real ==> values.contains(high) && forall|i: int|
                0 <= i < values.len() ==> value(#[trigger] values[i]) <= value(high)
        },
{
    let sorted = sorted_values(values);
    let count = values.len();
    let last = count - 1;
    let early = percentile_place(count, less_percent);
    let late = percentile_place(count, more_percent);
    let f = index_below(early);
    let g = index_below(late);
    let x = value(early);
    let y = value(late);
    lemma_sorted_round(values, value, size, bound, error);
    lemma_place_rounded(count, less_percent, value, bound, error);
    lemma_place_rounded(count, more_percent, value, bound, error);
    lemma_percentile_near(values, less_percent, value, size, bound, error);
    lemma_percentile_near(values, more_percent, value, size, bound, error);
    lemma_places_in_order(count, less_percent, more_percent, value, bound, error);
    // The exact values at the two places.
    if f == g {
        let s = value(sorted[f]);
        if y != f as real {
            let t = value(sorted[f + 1]);
            assert(s <= t);
            assert(s + (x - f as real) * (t - s) <= s + (y - f as real) * (t - s) && s <= s + (y
                - f as real) * (t - s)) by (nonlinear_arith)
                requires
                    f as real <= x <= y,
                    s <= t,
            ;
        }
    } else {
        assert(f < g);
        lemma_between_bounds(sorted, value, f, x);
        lemma_between_bounds(sorted, value, g, y);
        assert(value(sorted[f + 1]) <= value(sorted[g]));
    }
    // The first and the last value.
    sorted_values_are_sorted(values);
    assert(values.contains(sorted[0]) && values.contains(sorted[last]));
    assert forall|i: int| 0 <= i < count implies value(sorted[0]) <= value(#[trigger] values[i])
        && value(values[i]) <= value(sorted[last]) by {
        assert(sorted.contains(values[i]));
        let k = choose|k: int| 0 <= k < sorted.len() && sorted[k] == values[i];
        assert(value(sorted[0]) <= value(sorted[k]));
        assert(value(sorted[k]) <= value(sorted[last]));
    }
}

/// The exact value at a place is between those of the values around it.
proof fn lemma_between_bounds<N: Scalar>(
    sorted: Seq<N>,
    value: spec_fn(N) -> real,
    below: int,
    place: real,
)
    requires
        0 <= below < sorted.len(),
        below as real <= place < (below + 1) as real,
        place != below as real ==> below + 1 < sorted.len(),
        forall|i: int, j: int|
            0 <= i <= j < sorted.len() ==> value(#[trigger] sorted[i]) <= value(
                #[trigger] sorted[j],
            ),
    ensures
        value(sorted[below]) <= value_between(sorted, value, below, place),
        below + 1 < sorted.len() ==> value_between(sorted, value, below, place) <= value(
            sorted[below + 1],
        ),
{
    if below + 1 < sorted.len() {
        let s = value(sorted[below]);
        let t = value(sorted[below + 1]);
        let d = place - below as real;
        assert(s <= t);
        assert(s <= s + d * (t - s) <= t) by (nonlinear_arith)
            requires
                s <= t,
                0real <= d <= 1real,
        ;
    }
}

/// The place of more percent is no earlier.
proof fn lemma_places_in_order<N: Scalar>(
    count: nat,
    less_percent: N,
    more_percent: N,
    value: spec_fn(N) -> real,
    bound: real,
    error: real,
)
    requires
        rounds(value, bound, error),
        0 < count <= i32::MAX,
        is_percentage(less_percent, value),
        is_percentage(more_percent, value),
        value(less_percent) <= value(more_percent),
    ensures
        value(percentile_place(count, less_percent)) <= value(
            percentile_place(count, more_percent),
        ),
        index_below(percentile_place(count, less_percent)) <= index_below(
            percentile_place(count, more_percent),
        ),
{
    let hundred = N::integer(100);
    let all = N::integer(1);
    let none = N::integer(0);
    let last = N::integer((count - 1) as i64);
    let a = less_percent.quotient(hundred);
    let b = more_percent.quotient(hundred);
    let p = value(less_percent);
    let q = value(more_percent);
    let n = (count - 1) as real;
    assert(hundred.finite() && value(hundred) == 100real);
    assert(all.finite() && value(all) == 1real);
    assert(none.finite() && value(none) == 0real);
    assert(last.finite() && value(last) == n);
    assert(0real <= p / 100real <= q / 100real <= 1real);
    assert(stands_for(value, a, p / 100real, bound, error));
    assert(stands_for(value, b, q / 100real, bound, error));
    assert(value(a) <= value(b));
    assert(0real / 100real == 0real && 100real / 100real == 1real);
    assert(stands_for(value, none.quotient(hundred), 0real, bound, error));
    assert(stands_for(value, hundred.quotient(hundred), 1real, bound, error));
    assert(value(none.quotient(hundred)) == 0real) by {
        assert(value(none) == 0real);
    }
    assert(value(hundred.quotient(hundred)) == 1real) by {
        assert(value(all) == 1real);
    }
    assert(value(none.quotient(hundred)) <= value(a));
    assert(value(b) <= value(hundred.quotient(hundred)));
    let h = value(a);
    let k = value(b);
    assert(0real <= h * n && k * n <= n) by (nonlinear_arith)
        requires
            0real <= h,
            k <= 1real,
            n >= 0real,
    ;
    assert(value(a.product(last)) <= value(b.product(last)));
    lemma_place_rounded(count, less_percent, value, bound, error);
    lemma_place_rounded(count, more_percent, value, bound, error);
}

/// Some values, exactly added up.
pub open spec fn exact_total<N: Scalar>(values: Seq<N>, value: spec_fn(N) -> real) -> real
    decreases values.len(),
{
    if values.len() == 0 {
        0real
    } else {
        exact_total(values.drop_last(), value) + value(values.last())
    }
}

proof fn lemma_total_near<N: Scalar>(
    values: Seq<N>,
    value: spec_fn(N) -> real,
    bound: real,
    error: real,
)
    requires
        rounds(value, bound, error),
        forall|i: int|
            0 <= i < values.len() ==> (#[trigger] values[i]).finite() && value(values[i]) >= 0real,
        exact_total(values, value) + error * (values.len() as real) <= bound,
    ensures
        sum_of_values(values).finite(),
        near(
            value(sum_of_values(values)),
            exact_total(values, value),
            error * (values.len() as real),
        ),
        exact_total(values, value) >= 0real,
        error * (values.len() as real) >= 0real,
    decreases values.len(),
{
    let n = values.len() as real;
    lemma_integer_value(value, 0, bound, error);
    if values.len() == 0 {
        assert(error * n == 0real) by (nonlinear_arith)
            requires
                n == 0real,
        ;
    } else {
        let rest = values.drop_last();
        let m = rest.len() as real;
        assert(values[values.len() - 1] == values.last());
        assert forall|i: int| 0 <= i < rest.len() implies (#[trigger] rest[i]).finite() && value(
            rest[i],
        ) >= 0real by {
            assert(rest[i] == values[i]);
        }
        assert(error * n == error * m + error && error * m >= 0real) by (nonlinear_arith)
            requires
                n == m + 1real,
                m >= 0real,
                error >= 0real,
        ;
        lemma_total_near(rest, value, bound, error);
        lemma_sum_near(value, sum_of_values(rest), values.last(), bound, error);
    }
}

/// The mean of some values, as often as there are values, is all of them added up, up to
/// rounding.
pub proof fn means_times_counts_are_totals<N: Scalar>(
    values: Seq<N>,
    value: spec_fn(N) -> real,
    bound: real,
    error: real,
)
    requires
        rounds(value, bound, error),
        0 < values.len() <= EXACT_INTEGER,
        forall|i: int|
            0 <= i < values.len() ==> (#[trigger] values[i]).finite() && value(values[i]) >= 0real,
        exact_total(values, value) + error * (values.len() as real) <= bound,
    ensures
        mean_of(values).finite(),
        near(
            value(mean_of(values)) * (values.len() as real),
            exact_total(values, value),
            2real * error * (values.len() as real),
        ),
{
    let n = values.len() as real;
    lemma_total_near(values, value, bound, error);
    lemma_integer_value(value, values.len() as i64, bound, error);
    let sum = sum_of_values(values);
    let s = value(sum);
    let exact = s / n;
    let slack = error * n;
    assert(-bound <= exact <= bound && exact * n == s) by (nonlinear_arith)
        requires
            exact == s / n,
            n >= 1real,
            -bound <= s <= bound,
    ;
    lemma_quotient_near(value, sum, N::integer(values.len() as i64), bound, error);
    let mean = value(mean_of(values));
    assert(near(mean * n, s, slack)) by (nonlinear_arith)
        requires
            near(mean, exact, error),
            exact * n == s,
            n >= 1real,
            slack == error * n,
    ;
    assert(2real * error * n == slack + slack) by (nonlinear_arith)
        requires
            slack == error * n,
    ;
}

proof fn lemma_extremes<N: Scalar>(
    values: Seq<N>,
    value: spec_fn(N) -> real,
    bound: real,
    error: real,
)
    requires
        rounds(value, bound, error),
        N::maximum().finite(),
        forall|i: int|
            0 <= i < values.len() ==> (#[trigger] values[i]).finite() && value(values[i]) <= value(
                N::maximum(),
            ),
    ensures
        greatest_of(values).finite(),
        least_of(values).finite(),
        value(greatest_of(values)) >= 0real,
        forall|i: int|
            0 <= i < values.len() ==> value(least_of(values)) <= value(#[trigger] values[i])
                <= value(greatest_of(values)),
        value(greatest_of(values)) == 0real || exists|i: int|
            0 <= i < values.len() && value(greatest_of(values)) == value(#[trigger] values[i]),
        values.len() > 0 ==> exists|i: int|
            0 <= i < values.len() && value(least_of(values)) == value(#[trigger] values[i]),
        values.len() == 0 ==> value(least_of(values)) == value(N::maximum()),
    decreases values.len(),
{
    lemma_integer_value(value, 0, bound, error);
    if values.len() > 0 {
        let rest = values.drop_last();
        let last = values.len() - 1;
        assert(values[last] == values.last());
        assert forall|i: int| 0 <= i < rest.len() implies (#[trigger] rest[i]).finite() && value(
            rest[i],
        ) <= value(N::maximum()) by {
            assert(rest[i] == values[i]);
        }
        lemma_extremes(rest, value, bound, error);
        lemma_compared(value, greatest_of(rest), values.last(), bound, error);
        lemma_compared(value, least_of(rest), values.last(), bound, error);
        assert forall|i: int| 0 <= i < values.len() implies value(least_of(values)) <= value(
            #[trigger] values[i],
        ) <= value(greatest_of(values)) by {
            if i < last {
                assert(rest[i] == values[i]);
            }
        }
        let top = value(greatest_of(values));
        if top != 0real && top != value(values[last]) {
            let i = choose|i: int|
                0 <= i < rest.len() && value(greatest_of(rest)) == value(#[trigger] rest[i]);
            assert(values[i] == rest[i]);
        }
        let low = value(least_of(values));
        if low != value(values[last]) {
            assert(rest.len() > 0);
            let i = choose|i: int|
                0 <= i < rest.len() && value(least_of(rest)) == value(#[trigger] rest[i]);
            assert(values[i] == rest[i]);
        }
    }
}

/// The makespan is the time from the first arrival of a job to the last end of one, up to rounding: no
/// job ends later after any arrival, and some job ends that late after some arrival.
pub proof fn the_makespan_spans_all_jobs<N: Scalar>(
    jobs: Seq<JobMetrics<N>>,
    a: int,
    b: int,
    value: spec_fn(N) -> real,
    bound: real,
    error: real,
)
    requires
        rounds(value, bound, error),
        N::maximum().finite(),
        0 <= a < jobs.len(),
        0 <= b < jobs.len(),
        forall|i: int|
            0 <= i < jobs.len() ==> {
                &&& (#[trigger] jobs[i]).arrival_time.finite()
                &&& jobs[i].end_time.finite()
                &&& 0real <= value(jobs[i].arrival_time) <= value(N::maximum())
                &&& 0real < value(jobs[i].end_time) <= value(N::maximum())
                &&& value(jobs[i].end_time) <= bound
                &&& value(jobs[i].arrival_time) <= bound
            },
    ensures
        makespan_of(jobs).finite(),
        value(makespan_of(jobs)) >= value(jobs[a].end_time) - value(jobs[b].arrival_time) - error,
        exists|i: int, j: int|
            0 <= i < jobs.len() && 0 <= j < jobs.len() && near(
                value(makespan_of(jobs)),
                value((#[trigger] jobs[i]).end_time) - value((#[trigger] jobs[j]).arrival_time),
                error,
            ),
{
    let ends = figures(jobs, |m: JobMetrics<N>| m.end_time);
    let arrivals = figures(jobs, |m: JobMetrics<N>| m.arrival_time);
    assert forall|i: int| 0 <= i < ends.len() implies (#[trigger] ends[i]).finite() && 0real < value(
        ends[i],
    ) <= bound && value(ends[i]) <= value(N::maximum()) by {
        assert(jobs[i].end_time == ends[i]);
    }
    assert forall|i: int| 0 <= i < arrivals.len() implies (#[trigger] arrivals[i]).finite() && 0real
        <= value(arrivals[i]) <= bound && value(arrivals[i]) <= value(N::maximum()) by {
        assert(jobs[i].arrival_time == arrivals[i]);
    }
    lemma_extremes(ends, value, bound, error);
    lemma_extremes(arrivals, value, bound, error);
    assert(ends[a] == jobs[a].end_time && arrivals[b] == jobs[b].arrival_time);
    let i = choose|i: int|
        0 <= i < ends.len() && value(greatest_of(ends)) == value(#[trigger] ends[i]);
    let j = choose|j: int|
        0 <= j < arrivals.len() && value(least_of(arrivals)) == value(#[trigger] arrivals[j]);
    assert(ends[i] == jobs[i].end_time && arrivals[j] == jobs[j].arrival_time);
    lemma_difference_near(value, greatest_of(ends), least_of(arrivals), bound, error);
}

/// A part of a whole that is positive, times the whole, is the part, up to rounding; of a whole that is
/// nothing or less it is nothing.
pub proof fn parts_times_wholes_are_parts<N: Scalar>(
    part: N,
    whole: N,
    value: spec_fn(N) -> real,
    bound: real,
    error: real,
)
    requires
        rounds(value, bound, error),
        part.finite(),
        whole.finite(),
        value(whole) > 0real ==> -bound <= value(part) / value(whole) <= bound,
    ensures
        value(whole) > 0real ==> near(
            value(part_of(part, whole)) * value(whole),
            value(part),
            error * value(whole),
        ),
        value(whole) <= 0real ==> value(part_of(part, whole)) == 0real,
{
    lemma_integer_value(value, 0, bound, error);
    lemma_compared(value, N::integer(0), whole, bound, error);
    if value(whole) > 0real {
        lemma_quotient_near(value, part, whole, bound, error);
        let p = value(part);
        let w = value(whole);
        let q = value(part_of(part, whole));
        let exact = p / w;
        assert(exact * w == p) by (nonlinear_arith)
            requires
                exact == p / w,
                w > 0real,
        ;
        assert(near(q * w, p, error * w)) by (nonlinear_arith)
            requires
                near(q, exact, error),
                exact * w == p,
                w > 0real,
        ;
    }
}

/// A summary has the means and the 99th percentiles of the figures of the jobs, each of the figure that
/// it is named after, and the times of the scheduler as parts of the makespan.
pub proof fn summaries_are_of_the_figures_they_name<N: Scalar>(
    jobs: Seq<JobMetrics<N>>,
    idle: N,
    capacity_wait: N,
    placement_wait: N,
    jcts: Seq<N>,
    waits: Seq<N>,
    trainings: Seq<N>,
    loadings: Seq<N>,
)
    requires
        jcts.len() == jobs.len(),
        waits.len() == jobs.len(),
        trainings.len() == jobs.len(),
        loadings.len() == jobs.len(),
        forall|i: int| 0 <= i < jobs.len() ==> #[trigger] jcts[i] == jobs[i].jct,
        forall|i: int| 0 <= i < jobs.len() ==> #[trigger] waits[i] == jobs[i].wait_time,
        forall|i: int| 0 <= i < jobs.len() ==> #[trigger] trainings[i] == jobs[i].training_time,
        forall|i: int| 0 <= i < jobs.len() ==> #[trigger] loadings[i] == jobs[i].loading_time,
    ensures
        ({
            let summary = summary_of(jobs, idle, capacity_wait, placement_wait);
            let percent = N::integer(99);
            &&& summary.avg_jct == mean_of(jcts)
            &&& summary.avg_waiting == mean_of(waits)
            &&& summary.avg_training == mean_of(trainings)
            &&& summary.avg_loading == mean_of(loadings)
            &&& summary.tail_jct == percentile_of(jcts, percent)
            &&& summary.tail_waiting == percentile_of(waits, percent)
            &&& summary.tail_training == percentile_of(trainings, percent)
            &&& summary.tail_loading == percentile_of(loadings, percent)
            &&& summary.makespan == makespan_of(jobs)
            &&& summary.idle_ratio == part_of(idle, summary.makespan)
            &&& summary.capacity_wait_ratio == part_of(capacity_wait, summary.makespan)
            &&& summary.placement_wait_ratio == part_of(placement_wait, summary.makespan)
        }),
{
    assert(jcts =~= figures(jobs, |m: JobMetrics<N>| m.jct));
    assert(waits =~= figures(jobs, |m: JobMetrics<N>| m.wait_time));
    assert(trainings =~= figures(jobs, |m: JobMetrics<N>| m.training_time));
    assert(loadings =~= figures(jobs, |m: JobMetrics<N>| m.loading_time));
}

/// The tails of the parts of the waiting time are the 99th percentiles of each of them.
pub proof fn tails_of_waits_are_of_the_waits_they_name<N: Scalar>(
    jobs: Seq<JobMetrics<N>>,
    idle: N,
    capacity_wait: N,
    placement_wait: N,
    queueing: Seq<N>,
    capacity: Seq<N>,
    placement: Seq<N>,
)
    requires
        queueing.len() == jobs.len(),
        capacity.len() == jobs.len(),
        placement.len() == jobs.len(),
        forall|i: int| 0 <= i < jobs.len() ==> #[trigger] queueing[i] == jobs[i].queueing_wait_time,
        forall|i: int| 0 <= i < jobs.len() ==> #[trigger] capacity[i] == jobs[i].capacity_wait_time,
        forall|i: int|
            0 <= i < jobs.len() ==> #[trigger] placement[i] == jobs[i].placement_wait_time,
    ensures
        ({
            let summary = summary_of(jobs, idle, capacity_wait, placement_wait);
            let percent = N::integer(99);
            &&& summary.tail_queueing == percentile_of(queueing, percent)
            &&& summary.tail_capacity == percentile_of(capacity, percent)
            &&& summary.tail_placement == percentile_of(placement, percent)
        }),
{
    assert(queueing =~= figures(jobs, |m: JobMetrics<N>| m.queueing_wait_time));
    assert(capacity =~= figures(jobs, |m: JobMetrics<N>| m.capacity_wait_time));
    assert(placement =~= figures(jobs, |m: JobMetrics<N>| m.placement_wait_time));
}

/// What a job computes of its completion time in percent, times that time, is a hundred times what it
/// computes, up to rounding; of a completion time of nothing or less it is nothing.
pub proof fn utilization_is_in_percent<N: Scalar>(
    metrics: JobMetrics<N>,
    value: spec_fn(N) -> real,
    bound: real,
    error: real,
)
    requires
        rounds(value, bound, error),
        metrics.compute_time.finite(),
        metrics.jct.finite(),
        0real <= 100real * value(metrics.compute_time) <= bound,
        value(metrics.jct) > 0real ==> (100real * value(metrics.compute_time) + error) <= bound
            * value(metrics.jct),
        value(metrics.jct) > 0real ==> error <= bound * value(metrics.jct),
    ensures
        value(metrics.jct) > 0real ==> near(
            value(metrics.utilization()) * value(metrics.jct),
            100real * value(metrics.compute_time),
            error * (value(metrics.jct) + 1real),
        ),
        value(metrics.jct) <= 0real ==> value(metrics.utilization()) == 0real,
{
    lemma_integer_value(value, 100, bound, error);
    lemma_product_near(value, N::integer(100), metrics.compute_time, bound, error);
    let part = N::integer(100).product(metrics.compute_time);
    let p = value(part);
    let w = value(metrics.jct);
    if w > 0real {
        assert(-bound <= p / w <= bound) by (nonlinear_arith)
            requires
                w > 0real,
                -(bound * w) <= p <= bound * w,
        ;
    }
    parts_times_wholes_are_parts(part, metrics.jct, value, bound, error);
    if w > 0real {
        let q = value(metrics.utilization());
        assert(error * (w + 1real) == error * w + error) by (nonlinear_arith);
    }
}

/// A percentile lies on the line between two neighbours in the order of the values, as far between them
/// as its place is; and its place is its part of the way from the first to the last of them. Both
/// up to rounding.
pub proof fn percentiles_lie_between_neighbours<N: Scalar>(
    values: Seq<N>,
    percent: N,
    value: spec_fn(N) -> real,
    size: real,
    bound: real,
    error: real,
)
    requires
        percentiles_round(values, value, size, bound, error),
        is_percentage(percent, value),
        (values.len() - 1) as real * (1real + error) <= bound,
    ensures
        ({
            let last = (values.len() - 1) as real;
            let place = value(percentile_place(values.len(), percent));
            let below = index_below(percentile_place(values.len(), percent));
            let sorted = sorted_values(values);
            &&& near(place, value(percent) / 100real * last, error * last + error)
            &&& 0 <= below < values.len()
            &&& below as real <= place < (below + 1) as real
            &&& place > below as real ==> below + 1 < values.len()
            &&& percentile_of(values, percent) matches Some(percentile) && near(
                value(percentile),
                if place > below as real {
                    value(sorted[below]) + (place - below as real) * (value(sorted[below + 1])
                        - value(sorted[below]))
                } else {
                    value(sorted[below])
                },
                3real * error + 2real * (size * error),
            )
        }),
{
    lemma_percentile_near(values, percent, value, size, bound, error);
    lemma_place_rounded(values.len(), percent, value, bound, error);
    let count = values.len() - 1;
    let last = count as real;
    let hundred = N::integer(100);
    let whole = N::integer(clamped(count));
    lemma_integer_value(value, 100, bound, error);
    assert(clamped(count) == count);
    lemma_integer_value(value, clamped(count), bound, error);
    let exact = value(percent) / 100real;
    assert(0real <= exact <= 1real) by (nonlinear_arith)
        requires
            exact == value(percent) / 100real,
            0real <= value(percent) <= 100real,
    ;
    lemma_quotient_near(value, percent, hundred, bound, error);
    let part = percent.quotient(hundred);
    let q = value(part);
    assert(-bound <= q * last <= bound && near(q * last, exact * last, error * last))
        by (nonlinear_arith)
        requires
            near(q, exact, error),
            0real <= exact <= 1real,
            last >= 0real,
            error >= 0real,
            last * (1real + error) <= bound,
    ;
    lemma_product_near(value, part, whole, bound, error);
}

} // verus!
