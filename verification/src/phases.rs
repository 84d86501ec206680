//! What the events of a job do to it and when its next event comes.

use vstd::prelude::*;

use crate::completion::{is_arrival, is_external};
use crate::gpu_cluster::{iteration_time, ClusterModel, System};
use crate::gpu_job::{value_or, JobModel, Phase};
use crate::gpu_scheduler::{
    arrival_order, latest_end, scheduled, Chances, Run, SchedulerModel, SchedulerState, Step,
};
use crate::lists::numbers;
use crate::placement::{planned, Demand};
use crate::progress::{
    bandwidth_given, consumed_time_goes_by_parts, given_rounds, lemma_worst,
    slowdown_is_asked_over_given,
};
use crate::ranking::{no_later, ranked_is_sorted};
use crate::resources::gpu_list;
use crate::rounding::{
    lemma_compared, lemma_difference_near, lemma_integer_value, lemma_product_near,
    lemma_quotient_near, lemma_sum_near, near, real_min, rounds,
};
use crate::scalar::{larger, no_more, one, Scalar};
use crate::timer::{EventType, TimerModel};

verus! {

/// What is said of a job follows from its times: its completion time is that from its arrival to its
/// end, and it trains as long as it loads, computes and communicates. All of it up to rounding;
/// what is counted is said as it is.
pub proof fn metrics_follow_from_the_times<N: Scalar>(
    job: JobModel<N>,
    value: spec_fn(N) -> real,
    bound: real,
    error: real,
)
    requires
        rounds(value, bound, error),
        job.end_time matches Some(end) && end.finite() && job.arrival_time.finite() && -bound
            <= value(end) - value(job.arrival_time) <= bound,
        job.consumed_loading_time matches Some(loading) && job.consumed_compute_time matches Some(
            compute,
        ) && job.consumed_comms_time matches Some(comms) && {
            &&& loading.finite() && compute.finite() && comms.finite()
            &&& 0real <= value(loading) && 0real <= value(compute) && 0real <= value(comms)
            &&& value(loading) + value(compute) + value(comms) + error <= bound
        },
    ensures
        ({
            let said = job.metrics();
            let loading = job.consumed_loading_time->0;
            let compute = job.consumed_compute_time->0;
            let comms = job.consumed_comms_time->0;
            &&& near(value(said.jct), value(job.end_time->0) - value(job.arrival_time), error)
            &&& near(
                value(said.training_time),
                value(loading) + value(compute) + value(comms),
                2real * error,
            )
            &&& said.job_id == job.job_id
            &&& said.model == job.model
            &&& said.arrival_time == job.arrival_time
            &&& said.end_time == job.end_time->0
            &&& said.loading_time == loading
            &&& said.compute_time == compute
            &&& said.comms_time == comms
            &&& job.start_time matches Some(start) ==> said.start_time == start
            &&& job.wait_time matches Some(wait) ==> said.wait_time == wait
            &&& job.queueing_wait_time matches Some(wait) ==> said.queueing_wait_time == wait
            &&& job.capacity_wait_time matches Some(wait) ==> said.capacity_wait_time == wait
            &&& job.placement_wait_time matches Some(wait) ==> said.placement_wait_time == wait
        }),
{
    let loading = job.consumed_loading_time->0;
    let compute = job.consumed_compute_time->0;
    lemma_difference_near(value, job.end_time->0, job.arrival_time, bound, error);
    lemma_sum_near(value, loading, compute, bound, error);
    lemma_sum_near(
        value,
        loading.sum(compute),
        job.consumed_comms_time->0,
        bound,
        error,
    );
}

/// When a job starts to communicate, its contention factor is the largest of one and what it asks of
/// one of its servers, without a cap, over what it is given there, up to rounding.
pub proof fn first_contention_is_the_largest_ratio<N: Scalar>(
    cluster: ClusterModel<N>,
    job: JobModel<N>,
    value: spec_fn(N) -> real,
    bound: real,
    error: real,
)
    requires
        rounds(value, bound, error),
        forall|server: i32| #[trigger]
            job.allocated.contains(server) ==> given_rounds(
                cluster,
                job,
                job.demand(server),
                server,
                value,
                bound,
            ),
    ensures
        ({
            let factor = job.initial_slowdown(cluster.min_guaranteed_bw);
            &&& factor.finite()
            &&& value(factor) >= 1real
            &&& forall|server: i32| #[trigger]
                job.allocated.contains(server) ==> value(factor) >= value(job.demand(server))
                    / bandwidth_given(cluster, job, server, value) - error
            &&& value(factor) == 1real || exists|server: i32| #[trigger]
                job.allocated.contains(server) && near(
                    value(factor),
                    value(job.demand(server)) / bandwidth_given(cluster, job, server, value),
                    error,
                )
        }),
{
    let servers = job.allocated;
    let factor = |server: i32|
        job.slowdown_on(job.demand(server), cluster.min_guaranteed_bw, server);
    assert forall|i: int| 0 <= i < servers.len() implies factor(#[trigger] servers[i]).finite()
        && near(
        value(factor(servers[i])),
        value(job.demand(servers[i])) / bandwidth_given(cluster, job, servers[i], value),
        error,
    ) by {
        assert(servers.contains(servers[i]));
        slowdown_is_asked_over_given(
            cluster,
            job,
            job.demand(servers[i]),
            servers[i],
            value,
            bound,
            error,
        );
    }
    lemma_worst(servers, factor, value, bound, error);
    let top = value(job.initial_slowdown(cluster.min_guaranteed_bw));
    assert forall|server: i32| #[trigger] servers.contains(server) implies top >= value(
        job.demand(server),
    ) / bandwidth_given(cluster, job, server, value) - error by {
        let i = choose|i: int| 0 <= i < servers.len() && servers[i] == server;
        assert(top >= value(factor(servers[i])));
    }
    if top != 1real {
        let i = choose|i: int| 0 <= i < servers.len() && top == value(factor(#[trigger] servers[i]));
        assert(servers.contains(servers[i]));
    }
}

/// At the end of a compute phase, the time since its start counts as computing and training, and the
/// job communicates: its phase ends after its networking time, stretched by its contention
/// factor. All of it up to rounding.
pub proof fn compute_phases_turn_into_communication<N: Scalar>(
    state: System<N>,
    id: i32,
    time: N,
    value: spec_fn(N) -> real,
    bound: real,
    error: real,
)
    requires
        rounds(value, bound, error),
        0 <= id < state.jobs.len(),
        time.finite(),
        0real <= value(time),
        ({
            let job = state.jobs[id as int];
            let factor = job.initial_slowdown(state.cluster.min_guaranteed_bw);
            &&& job.phase_start_time matches Some(start) && start.finite() && 0real <= value(time)
                - value(start) <= bound
            &&& job.consumed_compute_time matches Some(compute) && compute.finite() && 0real
                <= value(compute) && value(compute) + (value(time) - value(
                job.phase_start_time->0,
            )) + error <= bound
            &&& job.training_time matches Some(training) && training.finite() && 0real <= value(
                training,
            ) && value(training) + (value(time) - value(job.phase_start_time->0)) + error <= bound
            &&& job.iteration_networking_time.finite()
            &&& factor.finite()
            &&& 0real <= value(job.iteration_networking_time) * value(factor)
            &&& value(time) + value(job.iteration_networking_time) * value(factor) + error
                <= bound
        }),
    ensures
        ({
            let job = state.jobs[id as int];
            let after = state.computed(id, time);
            let now = after.jobs[id as int];
            let passed = value(time) - value(job.phase_start_time->0);
            let factor = job.initial_slowdown(state.cluster.min_guaranteed_bw);
            &&& now.consumed_compute_time matches Some(compute) && near(
                value(compute),
                value(job.consumed_compute_time->0) + passed,
                2real * error,
            )
            &&& now.training_time matches Some(training) && near(
                value(training),
                value(job.training_time->0) + passed,
                2real * error,
            )
            &&& now.consumed_comms_time == job.consumed_comms_time
            &&& now.is_in_comm_phase
            &&& now.current_phase == Phase::Comm
            &&& now.phase_start_time == Some(time)
            &&& now.comm_phase_current_contention == Some(factor)
            &&& now.current_iteration == job.current_iteration
            &&& after.timer.events.contains_key(id)
            &&& after.timer.events[id].1 == EventType::IterCommEnd
            &&& near(
                value(after.timer.events[id].0),
                value(time) + value(job.iteration_networking_time) * value(factor),
                2real * error,
            )
        }),
{
    let job = state.jobs[id as int];
    let factor = job.initial_slowdown(state.cluster.min_guaranteed_bw);
    let start = job.phase_start_time->0;
    lemma_difference_near(value, time, start, bound, error);
    let elapsed = time.difference(start);
    lemma_sum_near(value, job.consumed_compute_time->0, elapsed, bound, error);
    lemma_sum_near(value, job.training_time->0, elapsed, bound, error);
    lemma_product_near(value, job.iteration_networking_time, factor, bound, error);
    lemma_sum_near(value, time, job.iteration_networking_time.product(factor), bound, error);
}

/// At the end of a communication phase, the job has done one iteration more. If it has not done all of
/// them, as many as are whole, it computes again, and else it completes at once.
pub proof fn iterations_are_counted_to_the_last<N: Scalar>(
    state: System<N>,
    after: System<N>,
    id: i32,
    time: N,
    value: spec_fn(N) -> real,
    bound: real,
    error: real,
)
    requires
        rounds(value, bound, error),
        0 <= id < state.jobs.len(),
        state.communicates_to(after, id, time),
        0 <= state.jobs[id as int].current_iteration < i64::MAX,
        state.jobs[id as int].iteration_number.finite(),
        0real <= value(state.jobs[id as int].iteration_number) <= bound,
    ensures
        ({
            let done = state.jobs[id as int].current_iteration + 1;
            let all = value(state.jobs[id as int].iteration_number);
            let next = state.iterated(id, time);
            &&& (done as real) + 1real > all ==> {
                &&& after.jobs[id as int].current_iteration == done
                &&& after.jobs[id as int].current_phase == Phase::Completed
                &&& after.timer.events.contains_key(id)
                &&& after.timer.events[id] == (time, EventType::Complete)
            }
            &&& (done as real) + 1real <= all ==> {
                &&& next.renews_to(after, time)
                &&& next.jobs[id as int].current_iteration == done
                &&& next.jobs[id as int].current_phase == Phase::Compute
                &&& !next.jobs[id as int].is_in_comm_phase
                &&& next.timer.events.contains_key(id)
                &&& next.timer.events[id].1 == EventType::IterCompEnd
            }
        }),
{
    let job = state.jobs[id as int];
    let done = (job.current_iteration + 1) as int;
    let whole = job.iteration_number.truncated() as int;
    let all = value(job.iteration_number);
    assert((whole as real) <= all && all < ((whole + 1) as real));
    assert(done >= whole <==> (done as real) + 1real > all) by {
        if done >= whole {
            assert((done as real) >= (whole as real));
        } else {
            assert(((done + 1) as real) <= (whole as real));
        }
    }
}

/// The next compute phase starts before the end of the communication by what of it overlaps: up to the
/// given part of the compute time, and up to all of the communication. It ends a compute time
/// later. All of it up to rounding.
pub proof fn compute_starts_during_communication<N: Scalar>(
    state: System<N>,
    id: i32,
    time: N,
    value: spec_fn(N) -> real,
    bound: real,
    error: real,
)
    requires
        rounds(value, bound, error),
        0 <= id < state.jobs.len(),
        time.finite(),
        state.cluster.overlapping_ratio.finite(),
        0real <= value(state.cluster.overlapping_ratio),
        ({
            let job = state.jobs[id as int];
            let part = value(state.cluster.overlapping_ratio) * value(job.iteration_computing_time);
            &&& job.iteration_computing_time.finite()
            &&& 0real <= value(job.iteration_computing_time)
            &&& part <= bound
            &&& job.phase_start_time matches Some(start) && start.finite() && 0real <= value(time)
                - value(start) <= bound
            &&& -bound <= value(time) - part - 2real * error
            &&& value(time) + value(job.iteration_computing_time) + 3real * error <= bound
            &&& 0real <= value(time)
        }),
    ensures
        ({
            let job = state.jobs[id as int];
            let after = state.iterated(id, time);
            let now = after.jobs[id as int];
            let part = value(state.cluster.overlapping_ratio) * value(job.iteration_computing_time);
            let communicated = value(time) - value(job.phase_start_time->0);
            let start = value(time) - real_min(part, communicated);
            &&& now.phase_start_time matches Some(begun) && near(value(begun), start, 2real * error)
            &&& after.timer.events.contains_key(id)
            &&& after.timer.events[id].1 == EventType::IterCompEnd
            &&& near(
                value(after.timer.events[id].0),
                start + value(job.iteration_computing_time),
                3real * error,
            )
        }),
{
    let job = state.jobs[id as int];
    let overlap = state.cluster.overlapping_ratio;
    let compute = job.iteration_computing_time;
    let o = value(overlap);
    let c = value(compute);
    let part = o * c;
    assert(part >= 0real) by (nonlinear_arith)
        requires
            part == o * c,
            o >= 0real,
            c >= 0real,
    ;
    lemma_product_near(value, overlap, compute, bound, error);
    let begun = job.phase_start_time->0;
    lemma_difference_near(value, time, begun, bound, error);
    let early = overlap.product(compute);
    let passed = time.difference(begun);
    lemma_compared(value, early, passed, bound, error);
    let credit = crate::scalar::smaller(early, passed);
    lemma_difference_near(value, time, credit, bound, error);
    let start = time.difference(credit);
    lemma_sum_near(value, start, compute, bound, error);
}

/// The part of its time that a job computes, where iterations are not split, is to one as its compute
/// time is to that and its networking time under contention together, up to rounding.
pub proof fn compute_part_goes_by_times<N: Scalar>(
    job: JobModel<N>,
    factor: N,
    value: spec_fn(N) -> real,
    bound: real,
    error: real,
)
    requires
        rounds(value, bound, error),
        job.iteration_computing_time.finite(),
        job.iteration_networking_time.finite(),
        factor.finite(),
        0real <= value(job.iteration_computing_time),
        0real <= value(job.iteration_networking_time) * value(factor),
        value(job.iteration_computing_time) + value(job.iteration_networking_time) * value(factor)
            + error <= bound,
        value(job.iteration_computing_time) + value(job.iteration_networking_time) * value(factor)
            > 4real * error,
        error <= bound,
        2real <= bound,
    ensures
        ({
            let compute = value(job.iteration_computing_time);
            let iteration = compute + value(job.iteration_networking_time) * value(factor);
            &&& job.compute_part(factor).finite()
            &&& near(
                value(job.compute_part(factor)) * iteration,
                compute,
                error * (iteration + 4real),
            )
        }),
{
    let c = value(job.iteration_computing_time);
    let m = value(job.iteration_networking_time) * value(factor);
    let exact = c + m;
    lemma_product_near(value, job.iteration_networking_time, factor, bound, error);
    let stretched = job.iteration_networking_time.product(factor);
    lemma_sum_near(value, job.iteration_computing_time, stretched, bound, error);
    let iteration = job.iteration_computing_time.sum(stretched);
    let t = value(iteration);
    let q = c / t;
    assert(0real <= q <= 2real && q * t == c) by (nonlinear_arith)
        requires
            q == c / t,
            0real <= c <= exact,
            near(t, exact, 2real * error),
            exact > 4real * error,
            error >= 0real,
            t > 0real,
    ;
    lemma_quotient_near(value, job.iteration_computing_time, iteration, bound, error);
    let p = value(job.compute_part(factor));
    assert(near(p * exact, c, error * (exact + 4real))) by (nonlinear_arith)
        requires
            near(p, q, error),
            q * t == c,
            0real <= q <= 2real,
            near(t, exact, 2real * error),
            exact > 4real * error,
            error >= 0real,
    ;
}

/// The time between two changes of the scheduler's state counts for the state it was in, up to
/// rounding, and for no other.
pub proof fn time_counts_for_the_state_it_was_spent_in<N: Scalar>(
    scheduler: SchedulerModel<N>,
    state: SchedulerState,
    time: N,
    value: spec_fn(N) -> real,
    bound: real,
    error: real,
)
    requires
        rounds(value, bound, error),
        time.finite(),
        scheduler.last_state_change_time.finite(),
        scheduler.sched_idle_time.finite(),
        scheduler.sched_capacity_wait_time.finite(),
        scheduler.sched_placement_wait_time.finite(),
        ({
            let spent = value(time) - value(scheduler.last_state_change_time);
            &&& 0real <= spent
            &&& 0real <= value(scheduler.sched_idle_time)
            &&& 0real <= value(scheduler.sched_capacity_wait_time)
            &&& 0real <= value(scheduler.sched_placement_wait_time)
            &&& value(scheduler.sched_idle_time) + spent + error <= bound
            &&& value(scheduler.sched_capacity_wait_time) + spent + error <= bound
            &&& value(scheduler.sched_placement_wait_time) + spent + error <= bound
        }),
    ensures
        ({
            let after = scheduler.moved_to(state, time);
            let spent = value(time) - value(scheduler.last_state_change_time);
            let was = scheduler.current_state;
            &&& after.current_state == state
            &&& after.last_state_change_time == time
            &&& was == SchedulerState::Idle ==> near(
                value(after.sched_idle_time),
                value(scheduler.sched_idle_time) + spent,
                2real * error,
            )
            &&& was != SchedulerState::Idle ==> after.sched_idle_time == scheduler.sched_idle_time
            &&& was == SchedulerState::CapacityWait ==> near(
                value(after.sched_capacity_wait_time),
                value(scheduler.sched_capacity_wait_time) + spent,
                2real * error,
            )
            &&& was != SchedulerState::CapacityWait ==> after.sched_capacity_wait_time
                == scheduler.sched_capacity_wait_time
            &&& was == SchedulerState::PlacementWait ==> near(
                value(after.sched_placement_wait_time),
                value(scheduler.sched_placement_wait_time) + spent,
                2real * error,
            )
            &&& was != SchedulerState::PlacementWait ==> after.sched_placement_wait_time
                == scheduler.sched_placement_wait_time
        }),
{
    lemma_difference_near(value, time, scheduler.last_state_change_time, bound, error);
    let spent = time.difference(scheduler.last_state_change_time);
    lemma_sum_near(value, scheduler.sched_idle_time, spent, bound, error);
    lemma_sum_near(value, scheduler.sched_capacity_wait_time, spent, bound, error);
    lemma_sum_near(value, scheduler.sched_placement_wait_time, spent, bound, error);
}

/// The jobs arrive in the order of their arrival times, and of their numbers where these are the
/// same; and the first of them arrives at its time.
pub proof fn jobs_arrive_in_the_order_of_their_times<N: Scalar>(
    timer: TimerModel<N>,
    jobs: Seq<JobModel<N>>,
    a: int,
    b: int,
)
    requires
        jobs.len() <= i32::MAX,
        0 <= a < b < jobs.len(),
        timer.arrivals.len() == 0,
    ensures
        ({
            let order = arrival_order(jobs);
            let early = jobs[order[a] as int].arrival_time;
            let late = jobs[order[b] as int].arrival_time;
            &&& order.len() == jobs.len()
            &&& order.no_duplicates()
            &&& 0 <= order[a] < jobs.len()
            &&& early.rank() < late.rank() || early.rank() == late.rank() && order[a] < order[b]
            &&& scheduled(timer, jobs).arrivals == order.drop_first()
            &&& scheduled(timer, jobs).events.contains_key(order[0])
            &&& scheduled(timer, jobs).events[order[0]] == (
                jobs[order[0] as int].arrival_time,
                EventType::Arrive,
            )
        }),
{
    let all = numbers(jobs.len());
    let first = |job: i32| jobs[job as int].arrival_time.rank();
    let second = |job: i32| job as int;
    let order = arrival_order(jobs);
    ranked_is_sorted(all, first, second);
    assert(order.contains(order[a]));
    assert(all.contains(order[a]));
    assert(no_later(first, second, order[a], order[b]));
    assert(order[a] != order[b]);
    assert(timer.arrivals + order =~= order);
}

/// A job that finds no place tries again when something may have changed: at the first of the next
/// completion and the next start of a job, and, where iterations are split, of the next ends of
/// phases; but not before its arrival was put off to. No such event comes earlier.
pub proof fn postponed_jobs_try_again_at_the_next_chance<N: Scalar>(
    run: Run<N>,
    after: Run<N>,
    id: i32,
    time: N,
    other: i32,
)
    requires
        run.arrives_to(after, id, time, Step::Handled),
        run.system.timer.orderly,
        run.system.timer.events.contains_key(other),
        ({
            let waiting = run.noticed(id, time);
            waiting.system.cluster.plan(
                waiting.system.jobs[id as int],
                run.scheduler.placement_method,
            ) is None
        }),
        run.system.timer.events[other].0.ordered(),
        forall|job: i32| #[trigger]
            run.system.timer.events.contains_key(job) ==> run.system.timer.events[job].0.ordered(),
        0 <= id < run.system.jobs.len(),
        run.system.jobs[id as int].temp_arrival_time.ordered(),
        ({
            let kind = run.system.timer.events[other].1;
            let model = run.system.cluster.interference_model;
            let splits = model is CommsIter || model is CommsIterIntra || model is CommsIterLcm
                || model is CommsIterIntraLcm;
            kind == EventType::Complete || kind == EventType::Start || splits && (kind
                == EventType::IterCommEnd || kind == EventType::IterCompEnd)
        }),
    ensures
        ({
            let put_off = run.system.jobs[id as int].temp_arrival_time;
            let again = after.system.timer.events[id].0;
            &&& after.system.timer.events.contains_key(id)
            &&& after.system.timer.events[id].1 == EventType::Arrive
            &&& no_more(put_off, again)
            &&& no_more(again, larger(run.system.timer.events[other].0, put_off))
            &&& after.system.jobs[id as int].temp_arrival_time == again
            &&& again == put_off || exists|job: i32| #[trigger]
                run.system.timer.events.contains_key(job) && run.system.timer.events[job].0 == again
                    && run.system.timer.events[job].1 != EventType::Arrive
        }),
{
    let waiting = run.noticed(id, time);
    let iterates = waiting.system.cluster.interference_model.iterates();
    let timer = run.system.timer;
    assert(waiting.system.timer == timer);
    let chances = choose|chances: Chances<N>|
        {
            &&& #[trigger] chances.of(waiting.system.timer, iterates)
            &&& match chances.first(iterates) {
                Some(next_try) => after == waiting.postponed(id, next_try),
                None => false,
            }
        };
    let kind = timer.events[other].1;
    lemma_chance(timer, |t: EventType| t == EventType::Complete, chances.complete, other);
    lemma_chance(timer, |t: EventType| t == EventType::Start, chances.start, other);
    if iterates {
        lemma_chance(timer, |t: EventType| t == EventType::IterCommEnd, chances.comm_end, other);
        lemma_chance(timer, |t: EventType| t == EventType::IterCompEnd, chances.comp_end, other);
    }
    let next_try = chances.first(iterates)->0;
    assert(no_more(next_try, timer.events[other].0));
    assert(waiting.system.jobs[id as int].temp_arrival_time
        == run.system.jobs[id as int].temp_arrival_time);
}

/// The first event of some type is no later than any event of the type.
proof fn lemma_chance<N: Scalar>(
    timer: TimerModel<N>,
    wanted: spec_fn(EventType) -> bool,
    answer: Option<(N, EventType, i32)>,
    other: i32,
)
    requires
        timer.is_answer(wanted, answer),
        timer.orderly,
        timer.events.contains_key(other),
        forall|job: i32| #[trigger]
            timer.events.contains_key(job) ==> timer.events[job].0.ordered(),
        !wanted(EventType::Arrive),
    ensures
        wanted(timer.events[other].1) ==> answer is Some,
        answer matches Some(found) ==> {
            &&& found.0.ordered()
            &&& timer.events.contains_key(found.2)
            &&& timer.events[found.2].0 == found.0
            &&& timer.events[found.2].1 != EventType::Arrive
            &&& wanted(timer.events[other].1) ==> no_more(found.0, timer.events[other].0)
        },
{
    if let Some(found) = answer {
        if wanted(timer.events[other].1) {
            assert(!timer.event(other).before(timer.event(found.2)));
        }
    }
}

/// A job that is placed loads first, and starts to train when it has loaded, up to rounding. Where
/// iterations are split, it computes then, for its compute time.
pub proof fn jobs_load_and_then_train<N: Scalar>(
    state: System<N>,
    after: System<N>,
    id: i32,
    allocated: Seq<i32>,
    ps_allocated: Seq<i32>,
    time: N,
    value: spec_fn(N) -> real,
    bound: real,
    error: real,
)
    requires
        rounds(value, bound, error),
        0 <= id < state.jobs.len(),
        time.finite(),
        0real <= value(time),
        ({
            let placed = state.placed(id, allocated, ps_allocated, time);
            let loading = placed.jobs[id as int].loading_time;
            &&& loading.finite() && 0real <= value(loading) && value(time) + value(loading) <= bound
            &&& state.jobs[id as int].iteration_computing_time.finite()
            &&& 0real <= value(state.jobs[id as int].iteration_computing_time)
            &&& value(time) + value(state.jobs[id as int].iteration_computing_time) <= bound
        }),
        state.starts_to(after, id, time),
    ensures
        ({
            let placed = state.placed(id, allocated, ps_allocated, time);
            let before = state.jobs[id as int];
            let now = placed.jobs[id as int];
            let model = state.cluster.interference_model;
            let splits = model is CommsIter || model is CommsIterIntra || model is CommsIterLcm
                || model is CommsIterIntraLcm;
            &&& placed.timer.events[id].1 == EventType::Start
            &&& near(value(placed.timer.events[id].0), value(time) + value(now.loading_time), error)
            &&& !(model is CorunProfile) ==> now.loading_time == before.loading_time
            &&& now.allocated == allocated && now.ps_allocated == ps_allocated
            &&& now.start_time == Some(time)
            &&& now.training_time is None
            &&& splits ==> {
                &&& after.timer.events[id].1 == EventType::IterCompEnd
                &&& near(
                    value(after.timer.events[id].0),
                    value(time) + value(before.iteration_computing_time),
                    error,
                )
                &&& after.jobs[id as int].training_time == Some(before.loading_time)
                &&& after.jobs[id as int].consumed_loading_time == Some(before.loading_time)
                &&& after.jobs[id as int].current_iteration == 0
                &&& after.jobs[id as int].current_phase == Phase::Compute
                &&& after.jobs[id as int].phase_start_time == Some(time)
            }
        }),
{
    let placed = state.placed(id, allocated, ps_allocated, time);
    lemma_sum_near(value, time, placed.jobs[id as int].loading_time, bound, error);
    lemma_sum_near(value, time, state.jobs[id as int].iteration_computing_time, bound, error);
}

/// A job is skewed where its skewness is more than five.
pub proof fn jobs_are_skewed_above_five<N: Scalar>(
    job: JobModel<N>,
    value: spec_fn(N) -> real,
    bound: real,
    error: real,
)
    requires
        rounds(value, bound, error),
        job.skewness.finite(),
    ensures
        job.is_skewed() <==> value(job.skewness) > 5real,
{
    lemma_integer_value(value, 5, bound, error);
    lemma_compared(value, N::integer(5), job.skewness, bound, error);
}

/// Renewing the completion times takes the progress of every job that does not just arrive by the model:
/// its phases where iterations are split, the times of the profile where these come from one, and
/// the pace of the whole job else.
pub proof fn renewal_goes_by_the_model<N: Scalar>(
    state: System<N>,
    after: System<N>,
    time: N,
    job: i32,
)
    requires
        state.is_sound(),
        state.renews_to(after, time),
        !(state.cluster.interference_model is CommsIterLcm),
        !(state.cluster.interference_model is CommsIterIntraLcm),
        0 <= job < state.jobs.len(),
        state.timer.events.contains_key(job),
        state.timer.events[job].1 != EventType::Arrive,
    ensures
        ({
            let model = state.cluster.interference_model;
            let paced = if model is CommsIter || model is CommsIterIntra {
                state.changed(state.phase_pace(time))
            } else if model is CorunProfile {
                state.changed(state.corun_pace(time))
            } else {
                state.changed(state.job_pace(time))
            };
            &&& after.jobs[job as int] == paced.jobs[job as int]
            &&& after.timer.events.contains_key(job)
            &&& after.timer.events[job] == paced.timer.events[job]
        }),
{
    let (next, arrival) = choose|
        next: Option<(N, EventType, i32)>,
        arrival: Option<(N, EventType, i32)>,
    |
        {
            &&& state.cluster.interference_model.skips_cycles() ==> state.timer.is_answer(
                is_external(),
                next,
            )
            &&& state.paced(time, next).timer.is_answer(is_arrival(), arrival)
            &&& after == #[trigger] state.paced(time, next).recalled(time, arrival)
        };
    if let Some((at, event_type, other)) = arrival {
        assert(state.paced(time, next).timer.events[other].1 == EventType::Arrive);
        assert(state.timer.events.contains_key(other));
        assert(0 <= other < state.jobs.len());
    }
}

/// Renewing the completion times brings the job that arrives back to try again: now, or when its arrival
/// was put off to if that is later.
pub proof fn renewal_recalls_the_arrival<N: Scalar>(
    state: System<N>,
    after: System<N>,
    time: N,
    job: i32,
)
    requires
        state.is_sound(),
        state.renews_to(after, time),
        !(state.cluster.interference_model is CommsIterLcm),
        !(state.cluster.interference_model is CommsIterIntraLcm),
        0 <= job < state.jobs.len(),
        state.is_arriving(job),
        !state.cluster.active(job as int),
        forall|other: i32| #[trigger] state.is_arriving(other) ==> other == job,
        time.ordered(),
        state.jobs[job as int].temp_arrival_time.ordered(),
    ensures
        ({
            let put_off = state.jobs[job as int].temp_arrival_time;
            let again = after.timer.events[job].0;
            &&& after.is_arriving(job)
            &&& no_more(time, again)
            &&& no_more(put_off, again)
            &&& again == time || again == put_off
            &&& after.jobs[job as int].temp_arrival_time == again
        }),
{
    let (next, arrival) = choose|
        next: Option<(N, EventType, i32)>,
        arrival: Option<(N, EventType, i32)>,
    |
        {
            &&& state.cluster.interference_model.skips_cycles() ==> state.timer.is_answer(
                is_external(),
                next,
            )
            &&& state.paced(time, next).timer.is_answer(is_arrival(), arrival)
            &&& after == #[trigger] state.paced(time, next).recalled(time, arrival)
        };
    let paced = state.paced(time, next);
    assert(paced.timer.events.contains_key(job));
    assert(is_arrival()(paced.timer.events[job].1));
    assert(arrival is Some);
    let (at, event_type, other) = arrival->0;
    assert(state.is_arriving(other));
    assert(paced.jobs[job as int] == state.jobs[job as int]);
}

/// At its end, a job that was followed as a whole has the time since its progress was last taken counted
/// as training, computing by the part that goes by its times, and the rest communicating; and one
/// whose phases were followed has it counted already. All of it up to rounding.
pub proof fn jobs_end_with_all_their_time_counted<N: Scalar>(
    state: System<N>,
    id: i32,
    time: N,
    value: spec_fn(N) -> real,
    bound: real,
    error: real,
)
    requires
        rounds(value, bound, error),
        0 <= id < state.jobs.len(),
        time.finite(),
        ({
            let job = state.jobs[id as int];
            let part = job.compute_part(value_or(job.last_network_factor, one()));
            let passed = value(time) - value(job.last_change_time->0);
            let most = passed + error;
            &&& job.last_change_time matches Some(last) && last.finite()
            &&& error <= passed <= bound
            &&& part.finite() && 0real <= value(part) <= 1real
            &&& job.training_time matches Some(training) && training.finite() && 0real <= value(
                training,
            ) && value(training) + most <= bound
            &&& job.consumed_compute_time matches Some(compute) && compute.finite() && 0real
                <= value(compute) && value(compute) + most + error <= bound
            &&& job.consumed_comms_time matches Some(comms) && comms.finite() && 0real <= value(
                comms,
            ) && value(comms) + most * (1real + error) + error <= bound
            &&& most * (1real + error) <= bound
        }),
    ensures
        ({
            let job = state.jobs[id as int];
            let now = state.ended(id, time).jobs[id as int];
            let model = state.cluster.interference_model;
            let splits = model is CommsIter || model is CommsIterIntra || model is CommsIterLcm
                || model is CommsIterIntraLcm;
            let passed = value(time) - value(job.last_change_time->0);
            let part = value(job.compute_part(value_or(job.last_network_factor, one())));
            &&& now.end_time == Some(time)
            &&& splits ==> {
                &&& now.training_time == job.training_time
                &&& now.consumed_compute_time == job.consumed_compute_time
                &&& now.consumed_comms_time == job.consumed_comms_time
            }
            &&& !splits ==> {
                &&& near(
                    value(now.training_time->0),
                    value(job.training_time->0) + passed,
                    2real * error,
                )
                &&& near(
                    value(now.consumed_compute_time->0),
                    value(job.consumed_compute_time->0) + passed * part,
                    3real * error,
                )
                &&& near(
                    value(now.consumed_comms_time->0),
                    value(job.consumed_comms_time->0) + passed * (1real - part),
                    3real * error + (passed + error) * error,
                )
            }
        }),
{
    let job = state.jobs[id as int];
    let last = job.last_change_time->0;
    let part = job.compute_part(value_or(job.last_network_factor, one()));
    lemma_difference_near(value, time, last, bound, error);
    let elapsed = time.difference(last);
    let e = value(elapsed);
    let passed = value(time) - value(last);
    let most = passed + error;
    let p = value(part);
    assert(e * (1real + error) <= most * (1real + error)) by (nonlinear_arith)
        requires
            e <= most,
            error >= 0real,
    ;
    let ended = JobModel { end_time: Some(time), ..job };
    consumed_time_goes_by_parts(ended, elapsed, part, value, bound, error);
    assert(near(e * p, passed * p, error) && near(
        e * (1real - p),
        passed * (1real - p),
        error,
    ) && e * error <= most * error) by (nonlinear_arith)
        requires
            near(e, passed, error),
            e <= most,
            0real <= p <= 1real,
            error >= 0real,
    ;
}

/// The last end of some jobs is no earlier than that of any of them, and it is that of one of them, or
/// zero.
pub proof fn the_last_end_is_the_latest<N: Scalar>(
    jobs: Seq<JobModel<N>>,
    ids: Seq<i32>,
    value: spec_fn(N) -> real,
    bound: real,
    error: real,
)
    requires
        rounds(value, bound, error),
        forall|k: int|
            0 <= k < ids.len() ==> (jobs[#[trigger] ids[k] as int].end_time matches Some(end)
                && end.finite()),
    ensures
        latest_end(jobs, ids).finite(),
        value(latest_end(jobs, ids)) >= 0real,
        forall|k: int|
            0 <= k < ids.len() ==> value(jobs[#[trigger] ids[k] as int].end_time->0) <= value(
                latest_end(jobs, ids),
            ),
        value(latest_end(jobs, ids)) == 0real || exists|k: int|
            0 <= k < ids.len() && value(latest_end(jobs, ids)) == value(
                jobs[#[trigger] ids[k] as int].end_time->0,
            ),
    decreases ids.len(),
{
    lemma_integer_value(value, 0, bound, error);
    if ids.len() > 0 {
        let rest = ids.drop_last();
        let last = ids.len() - 1;
        assert(ids[last] == ids.last());
        assert forall|k: int| 0 <= k < rest.len() implies (jobs[#[trigger] rest[k]
            as int].end_time matches Some(end) && end.finite()) by {
            assert(rest[k] == ids[k]);
        }
        the_last_end_is_the_latest(jobs, rest, value, bound, error);
        let end = jobs[ids[last] as int].end_time->0;
        lemma_compared(value, latest_end(jobs, rest), end, bound, error);
        assert forall|k: int| 0 <= k < ids.len() implies value(
            jobs[#[trigger] ids[k] as int].end_time->0,
        ) <= value(latest_end(jobs, ids)) by {
            if k < last {
                assert(rest[k] == ids[k]);
            }
        }
        let top = value(latest_end(jobs, ids));
        if top != 0real && top != value(end) {
            let k = choose|k: int|
                0 <= k < rest.len() && value(latest_end(jobs, rest)) == value(
                    jobs[#[trigger] rest[k] as int].end_time->0,
                );
            assert(ids[k] == rest[k]);
        }
    }
}

/// A job that is followed as a whole is entered, when it starts to train, to complete after all its
/// iterations at its own times, up to rounding; contention comes in when the times are renewed
/// right then.
pub proof fn jobs_start_with_all_iterations_ahead<N: Scalar>(
    state: System<N>,
    id: i32,
    time: N,
    value: spec_fn(N) -> real,
    bound: real,
    error: real,
)
    requires
        rounds(value, bound, error),
        0 <= id < state.jobs.len(),
        time.finite(),
        0real <= value(time),
        !(state.cluster.interference_model is CorunProfile),
        ({
            let job = state.jobs[id as int];
            let pace = iteration_time(
                state.cluster.overlapping_ratio,
                job.iteration_computing_time,
                job.iteration_networking_time,
            );
            &&& job.iteration_number.finite()
            &&& pace.finite()
            &&& 0real <= value(job.iteration_number) * value(pace)
            &&& value(time) + value(job.iteration_number) * value(pace) + error <= bound
        }),
    ensures
        ({
            let job = state.jobs[id as int];
            let after = state.entered(id, time);
            let now = after.jobs[id as int];
            let pace = iteration_time(
                state.cluster.overlapping_ratio,
                job.iteration_computing_time,
                job.iteration_networking_time,
            );
            &&& after.timer.events.contains_key(id)
            &&& after.timer.events[id].1 == EventType::Complete
            &&& near(
                value(after.timer.events[id].0),
                value(time) + value(job.iteration_number) * value(pace),
                2real * error,
            )
            &&& now.training_time == Some(job.loading_time)
            &&& now.consumed_loading_time == Some(job.loading_time)
            &&& now.last_change_time == Some(time)
            &&& now.completed_iterations == job.completed_iterations
            &&& now.consumed_compute_time matches Some(compute) && value(compute) == 0real
            &&& now.consumed_comms_time matches Some(comms) && value(comms) == 0real
        }),
{
    let job = state.jobs[id as int];
    let pace = iteration_time(
        state.cluster.overlapping_ratio,
        job.iteration_computing_time,
        job.iteration_networking_time,
    );
    lemma_integer_value(value, 0, bound, error);
    lemma_product_near(value, job.iteration_number, pace, bound, error);
    lemma_sum_near(value, time, job.iteration_number.product(pace), bound, error);
}

/// A job is placed where its plan says, and the plan is that of the method of the scheduler on what is free
/// then. The next job, if any, arrives then at the earliest.
pub proof fn arrivals_are_placed_by_plan<N: Scalar>(
    run: Run<N>,
    after: Run<N>,
    id: i32,
    time: N,
)
    requires
        run.arrives_to(after, id, time, Step::Handled),
        0 <= id < run.system.jobs.len(),
        run.system.timer.arrivals.len() > 0,
        0 <= run.system.timer.arrivals[0] < run.system.jobs.len(),
        run.system.timer.arrivals[0] != id,
        time.ordered(),
        run.system.jobs[run.system.timer.arrivals[0] as int].arrival_time.ordered(),
    ensures
        ({
            let job = run.system.jobs[id as int];
            let demand = Demand {
                gpu_workers: job.gpu_workers,
                ps: job.ps,
                gpu_per_worker: job.gpu_per_worker,
                cpu_per_gpu_worker: job.cpu_per_gpu_worker,
                cpu_per_ps: job.cpu_per_ps,
            };
            let plan = planned(
                run.scheduler.placement_method,
                run.system.cluster.gpus,
                run.system.cluster.cpu_cores,
                demand,
                job.is_skewed(),
            );
            let next = run.system.timer.arrivals[0];
            let again = after.system.timer.events[next].0;
            let arrival = run.system.jobs[next as int].arrival_time;
            plan matches Some((allocated, ps_allocated)) ==> {
                &&& after.system.jobs[id as int].allocated == allocated
                &&& after.system.jobs[id as int].ps_allocated == ps_allocated
                &&& after.system.cluster.allocations.last().job == id
                &&& after.system.cluster.allocations.last().allocated == allocated
                &&& after.system.cluster.allocations.last().ps_allocated == ps_allocated
                &&& after.system.cluster.allocations.last().time == time
                &&& after.system.is_arriving(next)
                &&& after.system.timer.arrivals == run.system.timer.arrivals.drop_first()
                &&& no_more(time, again)
                &&& no_more(arrival, again)
                &&& again == time || again == arrival
            }
        }),
{
    let waiting = run.noticed(id, time);
    assert(waiting.system.jobs[id as int].asks() == run.system.jobs[id as int].asks());
}

/// Placing a job records where it went and when, after all that was recorded before; its wait is the
/// time from its arrival, up to rounding; and no other job changes. Its GPUs are listed just where
/// the model looks inside servers.
pub proof fn placements_are_recorded<N: Scalar>(
    state: System<N>,
    id: i32,
    allocated: Seq<i32>,
    ps_allocated: Seq<i32>,
    time: N,
    other: int,
    value: spec_fn(N) -> real,
    bound: real,
    error: real,
)
    requires
        rounds(value, bound, error),
        0 <= id < state.jobs.len(),
        0 <= other < state.jobs.len(),
        other != id,
        time.finite(),
        state.jobs[id as int].arrival_time.finite(),
        -bound <= value(time) - value(state.jobs[id as int].arrival_time) <= bound,
    ensures
        ({
            let after = state.placed(id, allocated, ps_allocated, time);
            let before = state.jobs[id as int];
            let now = after.jobs[id as int];
            let record = after.cluster.allocations.last();
            let model = state.cluster.interference_model;
            &&& after.cluster.allocations.len() == state.cluster.allocations.len() + 1
            &&& after.cluster.allocations.drop_last() == state.cluster.allocations
            &&& record.job == id
            &&& record.allocated == allocated
            &&& record.ps_allocated == ps_allocated
            &&& record.time == time
            &&& now.wait_time matches Some(wait) && near(
                value(wait),
                value(time) - value(before.arrival_time),
                error,
            )
            &&& now.last_change_time == Some(time)
            &&& model is CommsIterIntra || model is CommsIterIntraLcm ==> now.gpu_allocation
                == gpu_list(allocated, before.gpu_per_worker)
            &&& !(model is CommsIterIntra || model is CommsIterIntraLcm) ==> now.gpu_allocation
                == before.gpu_allocation
            &&& after.jobs.len() == state.jobs.len()
            &&& after.jobs[other] == state.jobs[other]
        }),
{
    let after = state.placed(id, allocated, ps_allocated, time);
    lemma_difference_near(value, time, state.jobs[id as int].arrival_time, bound, error);
    assert(after.cluster.allocations.drop_last() =~= state.cluster.allocations);
}

/// Where times come from the profile of jobs run together, a job loads for the time that it has beside
/// its neighbours when it is placed, and trains at the times that it has beside them when it starts;
/// elsewhere it keeps its own.
pub proof fn profiled_jobs_go_by_their_neighbours<N: Scalar>(
    state: System<N>,
    id: i32,
    allocated: Seq<i32>,
    ps_allocated: Seq<i32>,
    time: N,
)
    requires
        0 <= id < state.jobs.len(),
    ensures
        ({
            let before = state.jobs[id as int];
            let placed = state.placed(id, allocated, ps_allocated, time);
            let loading = placed.jobs[id as int].loading_time;
            let trained = state.trained(id, time);
            let now = trained.jobs[id as int];
            let profiled = state.cluster.interference_model is CorunProfile;
            &&& profiled ==> exists|beside: Seq<JobModel<N>>, cluster: ClusterModel<N>|
                {
                    &&& loading == #[trigger] cluster.corun_loading(beside, id as int)
                    &&& cluster.active_jobs == placed.cluster.active_jobs
                    &&& cluster.corun_profile == state.cluster.corun_profile
                    &&& beside.len() == state.jobs.len()
                    &&& beside[id as int].allocated == allocated
                    &&& forall|j: int|
                        0 <= j < beside.len() && j != id ==> #[trigger] beside[j] == state.jobs[j]
                }
            &&& profiled ==> exists|beside: Seq<JobModel<N>>|
                {
                    &&& (now.iteration_computing_time, now.iteration_networking_time)
                        == #[trigger] state.cluster.corun_times(beside, id as int)
                    &&& beside.len() == state.jobs.len()
                    &&& beside[id as int].allocated == before.allocated
                    &&& forall|j: int|
                        0 <= j < beside.len() && j != id ==> #[trigger] beside[j] == state.jobs[j]
                }
            &&& !profiled ==> loading == before.loading_time
            &&& !profiled ==> now.iteration_computing_time == before.iteration_computing_time
            &&& !profiled ==> now.iteration_networking_time == before.iteration_networking_time
        }),
{
    let model = state.cluster.interference_model;
    let before = state.jobs[id as int];
    let placed = state.placed(id, allocated, ps_allocated, time);
    let cluster = state.cluster.taken(before, id, allocated, ps_allocated);
    let loads = state.jobs.update(
        id as int,
        before.placed(allocated, ps_allocated, time, model.looks_inside()),
    );
    let trains = state.jobs.update(id as int, before.started(time, model.iterates()));
    if model is CorunProfile {
        assert(placed.jobs[id as int].loading_time == cluster.corun_loading(loads, id as int));
        assert(state.trained(id, time).jobs[id as int] == trains[id as int].with_times(
            state.cluster.corun_times(trains, id as int),
        ));
    }
}

/// A job is found to be unplaceable only where there is no plan for it and no other job has anything
/// ahead that could change that: none completes or starts, nor ends a phase where iterations are
/// split. The cluster and the queue stay as they are.
pub proof fn unplaceable_jobs_have_no_chance<N: Scalar>(
    run: Run<N>,
    after: Run<N>,
    id: i32,
    time: N,
    found: i32,
    other: i32,
)
    requires
        run.arrives_to(after, id, time, Step::Unplaceable(found)),
        0 <= id < run.system.jobs.len(),
        run.system.timer.events.contains_key(other),
    ensures
        found == id,
        ({
            let job = run.system.jobs[id as int];
            let demand = Demand {
                gpu_workers: job.gpu_workers,
                ps: job.ps,
                gpu_per_worker: job.gpu_per_worker,
                cpu_per_gpu_worker: job.cpu_per_gpu_worker,
                cpu_per_ps: job.cpu_per_ps,
            };
            let kind = run.system.timer.events[other].1;
            let model = run.system.cluster.interference_model;
            let splits = model is CommsIter || model is CommsIterIntra || model is CommsIterLcm
                || model is CommsIterIntraLcm;
            &&& planned(
                run.scheduler.placement_method,
                run.system.cluster.gpus,
                run.system.cluster.cpu_cores,
                demand,
                job.is_skewed(),
            ) is None
            &&& kind != EventType::Complete
            &&& kind != EventType::Start
            &&& splits ==> kind != EventType::IterCommEnd && kind != EventType::IterCompEnd
            &&& after.system.cluster == run.system.cluster
            &&& after.system.timer == run.system.timer
        }),
{
    let waiting = run.noticed(id, time);
    let iterates = waiting.system.cluster.interference_model.iterates();
    let timer = run.system.timer;
    assert(waiting.system.timer == timer);
    assert(waiting.system.jobs[id as int].asks() == run.system.jobs[id as int].asks());
    let chances = choose|chances: Chances<N>|
        {
            &&& #[trigger] chances.of(waiting.system.timer, iterates)
            &&& chances.first(iterates) is None
        };
    let kind = timer.events[other].1;
    assert(chances.complete is None && chances.start is None);
    assert(timer.is_answer(|t: EventType| t == EventType::Complete, None));
    assert(timer.is_answer(|t: EventType| t == EventType::Start, None));
}

} // verus!
