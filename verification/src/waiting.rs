//! How long the jobs wait: in the queue until the job before them is placed, then for capacity,
//! then for a placement.

use vstd::prelude::*;

use crate::accounting::{
    finished_simulations_have_completed_every_job, jobs_are_placed_in_the_order_of_arrival,
    lemma_event_keeps_line, simulations_start_accounted_for,
    steps_keep_every_job_accounted_for, steps_keep_the_line,
};
use crate::completion::renewal_keeps_places;
use crate::gpu_cluster::{AllocationModel, ClusterModel, System};
use crate::gpu_job::{value_or, JobModel};
use crate::gpu_scheduler::{any_type, arrival_order, Run, SchedulerState, Step};
use crate::lists::{numbers, total};
use crate::liveness::{
    lemma_admitted_live, lemma_communicated_live, lemma_computed_live, lemma_ended_live,
    lemma_freed_live, lemma_noticed_live, lemma_popped_live, lemma_trained_live,
    steps_keep_the_simulation_live,
};
use crate::placement::PlacementMethod;
use crate::ranking::ranked_is_sorted;
use crate::resources::{lemma_event_completes, lemma_shared_out_sound};
use crate::rounding::{
    lemma_compared, lemma_difference_near, lemma_integer_value, near, positive_part, rounds,
};
use crate::scalar::{larger, zero, Scalar};
use crate::simulation::{simulations_start_live, start_flaw, started_run};
use crate::timer::EventType;

verus! {

impl<N: Scalar> JobModel<N> {
    /// Whether two states of a job have the same times up to its start.
    pub open spec fn same_start(self, other: JobModel<N>) -> bool {
        &&& self.arrival_time == other.arrival_time
        &&& self.queue_head_time == other.queue_head_time
        &&& self.capacity_met_time == other.capacity_met_time
        &&& self.start_time == other.start_time
        &&& self.wait_time == other.wait_time
    }

    /// Whether two states of a job have the same parts of its waiting time.
    pub open spec fn same_waits(self, other: JobModel<N>) -> bool {
        &&& self.queueing_wait_time == other.queueing_wait_time
        &&& self.capacity_wait_time == other.capacity_wait_time
        &&& self.placement_wait_time == other.placement_wait_time
    }

    /// Whether the parts of the job's waiting time follow from its times: it waits in the queue
    /// from its arrival until it heads the queue, from then for capacity until that is met, and
    /// from then for a placement until it starts.
    pub open spec fn has_waited(self) -> bool {
        &&& self.queue_head_time matches Some(head) && self.start_time matches Some(start) && {
            let met = value_or(self.capacity_met_time, head);
            &&& self.queueing_wait_time == Some(head.difference(self.arrival_time))
            &&& self.capacity_wait_time == Some(met.difference(head))
            &&& self.placement_wait_time == Some(start.difference(met))
        }
    }
}

/// When the job before a placement was placed, and zero for the first one.
pub open spec fn placed_before<N: Scalar>(log: Seq<AllocationModel<N>>, k: int) -> N {
    if k <= 0 {
        zero()
    } else {
        log[k - 1].time
    }
}

impl<N: Scalar> Run<N> {
    /// Whether the line of the jobs names each of them once.
    pub open spec fn stands_in_line(self) -> bool {
        &&& self.system.arrives_one_by_one()
        &&& self.system.line().no_duplicates()
        &&& forall|id: i32|
            0 <= id < self.system.jobs.len() ==> #[trigger] self.system.line().contains(id)
    }

    /// Whether the jobs came to the head of the queue when the job before them had been placed, or
    /// when they arrived if that was later; and those that are through have waited accordingly.
    pub open spec fn is_timed(self) -> bool {
        let log = self.system.cluster.allocations;
        let jobs = self.system.jobs;
        &&& self.scheduler.past_placement_success_time == placed_before(log, log.len() as int)
        &&& forall|k: int|
            0 <= k < log.len() ==> {
                let job = jobs[(#[trigger] log[k]).job as int];
                &&& 0 <= log[k].job < jobs.len()
                &&& job.queue_head_time == Some(larger(placed_before(log, k), job.arrival_time))
                &&& job.start_time == Some(log[k].time)
                &&& job.wait_time == Some(log[k].time.difference(job.arrival_time))
            }
        &&& forall|id: i32| #[trigger]
            self.system.is_arriving(id) ==> match jobs[id as int].queue_head_time {
                Some(head) => head == larger(
                    placed_before(log, log.len() as int),
                    jobs[id as int].arrival_time,
                ),
                None => true,
            }
        &&& forall|k: int|
            0 <= k < self.system.timer.arrivals.len() ==> jobs[#[trigger] self.system.timer.arrivals[k]
                as int].queue_head_time is None
        &&& forall|k: int|
            0 <= k < self.scheduler.metrics_jobs.len() ==> jobs[#[trigger] self.scheduler.metrics_jobs[k]
                as int].has_waited()
    }
}

/// Renewing the completion times leaves what the jobs waited for as it is.
proof fn lemma_renewed_waits<N: Scalar>(state: System<N>, after: System<N>, time: N)
    requires
        state.is_sound(),
        state.renews_to(after, time),
    ensures
        after.jobs.len() == state.jobs.len(),
        after.cluster.allocations == state.cluster.allocations,
        forall|job: int|
            0 <= job < state.jobs.len() ==> state.jobs[job].same_start(#[trigger] after.jobs[job])
                && state.jobs[job].same_waits(after.jobs[job]),
{
    renewal_keeps_places(state, after, time);
    assert forall|job: int| 0 <= job < state.jobs.len() implies state.jobs[job].same_start(
        #[trigger] after.jobs[job],
    ) && state.jobs[job].same_waits(after.jobs[job]) by {
        assert(state.jobs[job].same_place(after.jobs[job]));
    }
}

proof fn lemma_start_keeps_waits<N: Scalar>(
    state: System<N>,
    after: System<N>,
    id: i32,
    time: N,
    method: PlacementMethod,
)
    requires
        state.is_live_but(id, method),
        state.starts_to(after, id, time),
    ensures
        after.jobs.len() == state.jobs.len(),
        forall|job: int|
            0 <= job < state.jobs.len() ==> state.jobs[job].same_start(#[trigger] after.jobs[job])
                && state.jobs[job].same_waits(after.jobs[job]),
{
    if !state.cluster.interference_model.iterates() {
        let trained = state.trained(id, time);
        let entered = state.entered(id, time);
        let end = entered.timer.events[id].0;
        lemma_trained_live(state, id, time, method);
        lemma_shared_out_sound(trained, id as int);
        lemma_event_completes(trained.shared_out(), id, end, EventType::Complete);
        assert(entered == System {
            timer: trained.timer.with_event(end, EventType::Complete, id),
            ..trained.shared_out()
        });
        lemma_renewed_waits(entered, after, time);
        assert forall|job: int| 0 <= job < state.jobs.len() implies state.jobs[job].same_start(
            #[trigger] after.jobs[job],
        ) && state.jobs[job].same_waits(after.jobs[job]) by {
            assert(entered.jobs[job].same_start(after.jobs[job]));
        }
    }
}

proof fn lemma_completion_keeps_waits<N: Scalar>(
    state: System<N>,
    after: System<N>,
    id: i32,
    time: N,
    method: PlacementMethod,
)
    requires
        state.is_live_but(id, method),
        state.ended(id, time).releases_to(after, id, time),
    ensures
        after.jobs.len() == state.jobs.len(),
        forall|job: int|
            0 <= job < state.jobs.len() ==> state.jobs[job].same_start(#[trigger] after.jobs[job]),
        forall|job: int|
            0 <= job < state.jobs.len() && job != id ==> state.jobs[job].same_waits(
                #[trigger] after.jobs[job],
            ),
        state.jobs[id as int].queue_head_time is Some && state.jobs[id as int].start_time is Some
            ==> after.jobs[id as int].has_waited(),
{
    let ended = state.ended(id, time);
    let freed = ended.freed(id);
    lemma_ended_live(state, id, time, method);
    lemma_freed_live(ended, id, method);
    let renewed = choose|renewed: System<N>| #[trigger]
        freed.renews_to(renewed, time) && after == (System {
            cluster: renewed.cluster.logged(time),
            ..renewed
        });
    lemma_renewed_waits(freed, renewed, time);
    assert forall|job: int| 0 <= job < state.jobs.len() implies freed.jobs[job].same_start(
        #[trigger] after.jobs[job],
    ) && freed.jobs[job].same_waits(after.jobs[job]) by {
        assert(freed.jobs[job].same_start(renewed.jobs[job]));
    }
    assert forall|job: int| 0 <= job < state.jobs.len() implies state.jobs[job].same_start(
        #[trigger] after.jobs[job],
    ) by {
        assert(freed.jobs[job].same_start(after.jobs[job]));
    }
    assert forall|job: int| 0 <= job < state.jobs.len() && job != id implies state.jobs[job].same_waits(
        #[trigger] after.jobs[job],
    ) by {
        assert(freed.jobs[job].same_start(after.jobs[job]));
    }
    assert(freed.jobs[id as int].same_start(after.jobs[id as int]));
}

/// An event other than an arrival leaves the times up to the start of every job as they are, and
/// the parts of its waiting time too unless it is the end of the job.
proof fn lemma_event_keeps_waits<N: Scalar>(
    run: Run<N>,
    after: Run<N>,
    time: N,
    event_type: EventType,
    id: i32,
)
    requires
        run.is_live(),
        run.system.timer.events.contains_key(id),
        run.system.timer.events[id].1 == event_type,
        event_type != EventType::Arrive,
        run.popped(id).handles_to(after, time, event_type, id, Step::Handled),
    ensures
        after.system.jobs.len() == run.system.jobs.len(),
        after.scheduler.past_placement_success_time == run.scheduler.past_placement_success_time,
        forall|job: int|
            0 <= job < run.system.jobs.len() ==> run.system.jobs[job].same_start(
                #[trigger] after.system.jobs[job],
            ),
        forall|job: int|
            0 <= job < run.system.jobs.len() && (job != id || event_type != EventType::Complete)
                ==> run.system.jobs[job].same_waits(#[trigger] after.system.jobs[job]),
        event_type != EventType::Complete ==> after.scheduler.metrics_jobs
            == run.scheduler.metrics_jobs,
        event_type == EventType::Complete ==> {
            &&& after.scheduler.metrics_jobs == run.scheduler.metrics_jobs.push(id)
            &&& run.system.jobs[id as int].queue_head_time is Some
                && run.system.jobs[id as int].start_time is Some
                ==> after.system.jobs[id as int].has_waited()
        },
{
    let method = run.scheduler.placement_method;
    let popped = run.popped(id);
    let state = popped.system;
    lemma_popped_live(run.system, id, method);
    match event_type {
        EventType::Arrive => {},
        EventType::Start => {
            lemma_start_keeps_waits(state, after.system, id, time, method);
        },
        EventType::IterCompEnd => {
            let computed = state.computed(id, time);
            lemma_computed_live(state, id, time, method);
            lemma_renewed_waits(computed, after.system, time);
            assert forall|job: int| 0 <= job < state.jobs.len() implies state.jobs[job].same_start(
                #[trigger] after.system.jobs[job],
            ) && state.jobs[job].same_waits(after.system.jobs[job]) by {
                assert(computed.jobs[job].same_start(after.system.jobs[job]));
            }
        },
        EventType::IterCommEnd => {
            lemma_communicated_live(state, id, time, method);
            if !state.jobs[id as int].communicated(time).is_through() {
                let iterated = state.iterated(id, time);
                lemma_renewed_waits(iterated, after.system, time);
                assert forall|job: int|
                    0 <= job < state.jobs.len() implies state.jobs[job].same_start(
                    #[trigger] after.system.jobs[job],
                ) && state.jobs[job].same_waits(after.system.jobs[job]) by {
                    assert(iterated.jobs[job].same_start(after.system.jobs[job]));
                }
            }
        },
        EventType::Complete => {
            lemma_completion_keeps_waits(state, after.system, id, time, method);
        },
    }
}

/// An event other than an arrival leaves the jobs timed.
proof fn lemma_event_keeps_timed<N: Scalar>(
    run: Run<N>,
    after: Run<N>,
    time: N,
    event_type: EventType,
    id: i32,
)
    requires
        run.is_live(),
        run.stands_in_line(),
        run.is_timed(),
        after.is_live(),
        run.system.timer.events.contains_key(id),
        run.system.timer.events[id] == (time, event_type),
        event_type != EventType::Arrive,
        run.popped(id).handles_to(after, time, event_type, id, Step::Handled),
        run.system.same_line(after.system),
    ensures
        after.is_timed(),
{
    lemma_event_keeps_waits(run, after, time, event_type, id);
    let log = run.system.cluster.allocations;
    let jobs = run.system.jobs;
    assert forall|k: int| 0 <= k < log.len() implies {
        let job = after.system.jobs[(#[trigger] log[k]).job as int];
        &&& 0 <= log[k].job < after.system.jobs.len()
        &&& job.queue_head_time == Some(larger(placed_before(log, k), job.arrival_time))
        &&& job.start_time == Some(log[k].time)
        &&& job.wait_time == Some(log[k].time.difference(job.arrival_time))
    } by {
        let at = log[k].job as int;
        assert(jobs[at].same_start(after.system.jobs[at]));
    }
    assert forall|other: i32| #[trigger] after.system.is_arriving(other) implies match after.system.jobs[other
        as int].queue_head_time {
        Some(head) => head == larger(
            placed_before(log, log.len() as int),
            after.system.jobs[other as int].arrival_time,
        ),
        None => true,
    } by {
        assert(run.system.is_arriving(other));
        assert(0 <= other < jobs.len());
        assert(jobs[other as int].same_start(after.system.jobs[other as int]));
    }
    let arrivals = after.system.timer.arrivals;
    assert forall|k: int| 0 <= k < arrivals.len() implies after.system.jobs[#[trigger] arrivals[k]
        as int].queue_head_time is None by {
        assert(run.system.timer.arrivals[k] == arrivals[k]);
        assert(0 <= run.system.timer.arrivals[k] < jobs.len());
        assert(jobs[arrivals[k] as int].same_start(after.system.jobs[arrivals[k] as int]));
    }
    let through = after.scheduler.metrics_jobs;
    assert forall|k: int| 0 <= k < through.len() implies after.system.jobs[#[trigger] through[k]
        as int].has_waited() by {
        if k < run.scheduler.metrics_jobs.len() && (through[k] != id || event_type
            != EventType::Complete) {
            let at = through[k] as int;
            assert(run.scheduler.metrics_jobs[k] == through[k]);
            assert(0 <= run.scheduler.metrics_jobs[k] < jobs.len());
            assert(jobs[at].has_waited());
            assert(jobs[at].same_start(after.system.jobs[at]));
            assert(jobs[at].same_waits(after.system.jobs[at]));
        } else {
            assert(through[k] == id);
            lemma_event_is_of_placed(run, id);
            let m = choose|m: int| 0 <= m < log.len() && (#[trigger] log[m]).job == id;
            assert(jobs[log[m].job as int].start_time is Some);
        }
    }
}

/// A job that has an event other than its arrival was placed.
proof fn lemma_event_is_of_placed<N: Scalar>(run: Run<N>, id: i32)
    requires
        run.is_live(),
        run.stands_in_line(),
        run.system.timer.events.contains_key(id),
        run.system.timer.events[id].1 != EventType::Arrive,
    ensures
        exists|m: int|
            0 <= m < run.system.cluster.allocations.len() && (
            #[trigger] run.system.cluster.allocations[m]).job == id,
{
    let log = run.system.cluster.allocations;
    let line = run.system.line();
    assert(0 <= id < run.system.jobs.len());
    assert(line.contains(id));
    let at = choose|at: int| 0 <= at < line.len() && line[at] == id;
    let placed = run.system.placed_jobs();
    let arriving = run.system.arriving_job();
    if at < placed.len() {
        assert(log[at].job == id);
    } else if at < placed.len() + arriving.len() {
        assert(arriving[at - placed.len()] == id);
        assert(run.system.is_arriving(id));
    } else {
        let k = at - placed.len() - arriving.len();
        assert(run.system.timer.arrivals[k] == id);
        assert(!run.system.timer.events.contains_key(run.system.timer.arrivals[k]));
    }
}

/// An arrival leaves the jobs timed.
proof fn lemma_arrival_keeps_timed<N: Scalar>(run: Run<N>, after: Run<N>, id: i32, time: N)
    requires
        run.is_live(),
        run.is_accounted(),
        run.stands_in_line(),
        run.is_timed(),
        run.system.is_arriving(id),
        run.popped(id).arrives_to(after, id, time, Step::Handled),
        after.stands_in_line(),
        after.is_live(),
    ensures
        after.is_timed(),
{
    let method = run.scheduler.placement_method;
    let popped = run.popped(id);
    let waiting = popped.noticed(id, time);
    let log = run.system.cluster.allocations;
    let jobs = run.system.jobs;
    let now = after.system.jobs;
    lemma_popped_live(run.system, id, method);
    lemma_noticed_live(popped, id, time);
    let past = placed_before(log, log.len() as int);
    assert(waiting.system.jobs[id as int].queue_head_time == Some(
        larger(past, jobs[id as int].arrival_time),
    ));
    assert(waiting.system.cluster.allocations == log);
    assert(forall|other: int|
        0 <= other < jobs.len() && other != id ==> #[trigger] waiting.system.jobs[other]
            == jobs[other]);
    assert(run.system.line().contains(id));
    // No job but the one that arrives changes in these times.
    assert forall|other: int| 0 <= other < jobs.len() && other != id implies jobs[other].same_start(
        #[trigger] now[other],
    ) && jobs[other].same_waits(now[other]) by {
        match waiting.system.cluster.plan(waiting.system.jobs[id as int], method) {
            Some((allocated, ps_allocated)) => {
                let placed = waiting.system.placed(id, allocated, ps_allocated, time);
                lemma_admitted_live(waiting, id, allocated, ps_allocated, time);
                assert(placed.jobs[other] == waiting.system.jobs[other]);
                if placed.timer.arrivals.len() > 0 {
                    assert(0 <= placed.timer.arrivals[0] < placed.jobs.len());
                }
            },
            None => {},
        }
    }
    assert(now.len() == jobs.len());
    assert(after.scheduler.metrics_jobs == run.scheduler.metrics_jobs);
    let through = after.scheduler.metrics_jobs;
    assert forall|k: int| 0 <= k < through.len() implies now[#[trigger] through[k]
        as int].has_waited() by {
        let at = through[k] as int;
        assert(run.scheduler.metrics_jobs[k] == through[k]);
        assert(0 <= run.scheduler.metrics_jobs[k] < jobs.len());
        assert(jobs[at].has_waited());
        assert(run.is_somewhere(id));
        assert(through.contains(through[k]));
        assert(jobs[at].same_start(now[at]));
    }
    let line = run.system.line();
    let first = choose|other: i32| run.system.is_arriving(other);
    assert(first == id);
    assert(line[log.len() as int] == id);
    let arrivals = run.system.timer.arrivals;
    assert forall|k: int| 0 <= k < arrivals.len() implies #[trigger] arrivals[k] != id
        && now[arrivals[k] as int].queue_head_time is None by {
        assert(line[log.len() + 1 + k] == arrivals[k]);
        assert(0 <= arrivals[k] < jobs.len());
        assert(jobs[arrivals[k] as int].same_start(now[arrivals[k] as int]));
    }
    assert forall|k: int| 0 <= k < log.len() implies {
        let job = now[(#[trigger] log[k]).job as int];
        &&& 0 <= log[k].job < now.len()
        &&& job.queue_head_time == Some(larger(placed_before(log, k), job.arrival_time))
        &&& job.start_time == Some(log[k].time)
        &&& job.wait_time == Some(log[k].time.difference(job.arrival_time))
    } by {
        assert(line[k] == log[k].job);
        let at = log[k].job as int;
        assert(jobs[at].same_start(now[at]));
    }
    match waiting.system.cluster.plan(waiting.system.jobs[id as int], method) {
        Some((allocated, ps_allocated)) => {
            let placed = waiting.system.placed(id, allocated, ps_allocated, time);
            let logged = after.system.cluster.allocations;
            lemma_admitted_live(waiting, id, allocated, ps_allocated, time);
            assert(logged == log.push(
                AllocationModel { job: id, allocated, ps_allocated, time },
            ));
            assert(after.scheduler.past_placement_success_time == time);
            if arrivals.len() > 0 {
                assert(arrivals[0] != id);
                assert(0 <= arrivals[0] < jobs.len());
            }
            assert(now[id as int] == placed.jobs[id as int]);
            assert forall|k: int| 0 <= k < logged.len() implies {
                let job = now[(#[trigger] logged[k]).job as int];
                &&& 0 <= logged[k].job < now.len()
                &&& job.queue_head_time == Some(larger(placed_before(logged, k), job.arrival_time))
                &&& job.start_time == Some(logged[k].time)
                &&& job.wait_time == Some(logged[k].time.difference(job.arrival_time))
            } by {
                if k < log.len() {
                    assert(logged[k] == log[k]);
                    assert(placed_before(logged, k) == placed_before(log, k));
                } else {
                    assert(placed_before(logged, k) == past);
                }
            }
            assert forall|other: i32| #[trigger] after.system.is_arriving(other) implies
                now[other as int].queue_head_time is None by {
                assert(!waiting.system.is_arriving(other)) by {
                    if waiting.system.is_arriving(other) {
                        assert(run.system.is_arriving(other));
                    }
                }
                assert(arrivals.len() > 0 && other == arrivals[0]);
            }
            let rest = after.system.timer.arrivals;
            assert forall|k: int| 0 <= k < rest.len() implies now[#[trigger] rest[k]
                as int].queue_head_time is None by {
                assert(arrivals.len() > 0);
                assert(rest[k] == arrivals[k + 1]);
            }
        },
        None => {
            assert(after.system.cluster.allocations == log);
            assert(after.system.timer.arrivals == arrivals);
            assert(after.scheduler.past_placement_success_time == past);
            assert forall|other: i32| #[trigger] after.system.is_arriving(other) implies match now[other
                as int].queue_head_time {
                Some(head) => head == larger(past, now[other as int].arrival_time),
                None => true,
            } by {
                if other != id {
                    assert(run.system.is_arriving(other));
                }
            }
        },
    }
}

/// At every step, the jobs came to the head of the queue when the job before them had been placed,
/// or when they arrived if that was later; and those that are through waited accordingly.
pub proof fn steps_keep_jobs_timed<N: Scalar>(run: Run<N>, after: Run<N>)
    requires
        run.is_live(),
        run.is_accounted(),
        run.stands_in_line(),
        run.is_timed(),
        run.steps_to(after, Step::Handled),
    ensures
        after.is_live(),
        after.is_accounted(),
        after.stands_in_line(),
        after.is_timed(),
        after.system.line() == run.system.line(),
        after.system.jobs.len() == run.system.jobs.len(),
{
    steps_keep_the_simulation_live(run, after);
    steps_keep_every_job_accounted_for(run, after);
    steps_keep_the_line(run, after);
    reveal(Run::steps_to);
    let event = choose|event: Option<(N, EventType, i32)>|
        {
            &&& #[trigger] run.system.timer.is_answer(any_type(), event)
            &&& match event {
                Some((time, event_type, id)) => run.popped(id).handles_to(
                    after,
                    time,
                    event_type,
                    id,
                    Step::Handled,
                ),
                None => false,
            }
        };
    let (time, event_type, id) = event->0;
    if event_type == EventType::Arrive {
        lemma_arrival_keeps_timed(run, after, id, time);
    } else {
        lemma_event_keeps_line(run, after, time, event_type, id);
        lemma_event_keeps_timed(run, after, time, event_type, id);
    }
}

proof fn lemma_reached_timed<N: Scalar>(begun: Run<N>, after: Run<N>, steps: nat)
    requires
        begun.is_live(),
        begun.is_accounted(),
        begun.stands_in_line(),
        begun.is_timed(),
        begun.reaches(after, steps),
    ensures
        after.is_live(),
        after.is_accounted(),
        after.stands_in_line(),
        after.is_timed(),
        after.system.line() == begun.system.line(),
        after.system.jobs.len() == begun.system.jobs.len(),
    decreases steps,
{
    if steps > 0 {
        let before = choose|before: Run<N>|
            begun.reaches(before, (steps - 1) as nat) && #[trigger] before.steps_to(
                after,
                Step::Handled,
            );
        lemma_reached_timed(begun, before, (steps - 1) as nat);
        steps_keep_jobs_timed(before, after);
    }
}

/// Whether some jobs have not waited for anything yet, on a cluster that is idle, and can be
/// simulated.
pub open spec fn begins<N: Scalar>(
    cluster: ClusterModel<N>,
    jobs: Seq<JobModel<N>>,
    method: PlacementMethod,
) -> bool {
    &&& cluster.is_idle()
    &&& cluster.allocations.len() == 0
    &&& forall|k: int|
        0 <= k < jobs.len() ==> (#[trigger] jobs[k]).is_unplaced() && jobs[k].queue_head_time
            is None
    &&& start_flaw(jobs, cluster, method) is None
}

/// A simulation starts with its jobs timed.
proof fn lemma_starts_timed<N: Scalar>(
    cluster: ClusterModel<N>,
    jobs: Seq<JobModel<N>>,
    method: PlacementMethod,
)
    requires
        begins(cluster, jobs, method),
    ensures
        started_run(cluster, jobs, method).is_live(),
        started_run(cluster, jobs, method).is_accounted(),
        started_run(cluster, jobs, method).stands_in_line(),
        started_run(cluster, jobs, method).is_timed(),
        started_run(cluster, jobs, method).system.line() == arrival_order(jobs),
        arrival_order(jobs).len() == jobs.len(),
        forall|k: int|
            0 <= k < jobs.len() ==> 0 <= #[trigger] arrival_order(jobs)[k] < jobs.len(),
{
    let run = started_run(cluster, jobs, method);
    let all = numbers(jobs.len());
    let order = arrival_order(jobs);
    simulations_start_live(cluster, jobs, method);
    simulations_start_accounted_for(cluster, jobs, method);
    jobs_are_placed_in_the_order_of_arrival(cluster, jobs, method, run, 0);
    ranked_is_sorted(
        all,
        |job: i32| jobs[job as int].arrival_time.rank(),
        |job: i32| job as int,
    );
    assert forall|id: i32| 0 <= id < jobs.len() implies #[trigger] order.contains(id) by {
        assert(all[id as int] == id);
        assert(all.contains(id));
    }
    assert forall|k: int| 0 <= k < jobs.len() implies 0 <= #[trigger] order[k] < jobs.len() by {
        assert(order.contains(order[k]));
        assert(all.contains(order[k]));
    }
    assert forall|a: i32, b: i32| run.system.is_arriving(a) && run.system.is_arriving(b) implies a
        == b by {}
    let arrivals = run.system.timer.arrivals;
    assert forall|k: int| 0 <= k < arrivals.len() implies jobs[#[trigger] arrivals[k]
        as int].queue_head_time is None by {
        assert(0 <= arrivals[k] < jobs.len());
        assert(jobs[arrivals[k] as int].is_unplaced());
    }
    assert forall|id: i32| #[trigger] run.system.is_arriving(id) implies jobs[id
        as int].queue_head_time is None by {
        assert(0 <= id < jobs.len());
        assert(jobs[id as int].is_unplaced());
    }
}

/// What is known of the jobs when a simulation has finished: they were placed in the order of
/// their arrival, and their times are those of the log.
proof fn lemma_finished_timed<N: Scalar>(
    cluster: ClusterModel<N>,
    jobs: Seq<JobModel<N>>,
    method: PlacementMethod,
    last: Run<N>,
    after: Run<N>,
    steps: nat,
    k: int,
)
    requires
        begins(cluster, jobs, method),
        started_run(cluster, jobs, method).reaches(last, steps),
        last.steps_to(after, Step::Finished),
        0 <= k < jobs.len(),
    ensures
        ({
            let log = after.system.cluster.allocations;
            let id = arrival_order(jobs)[k];
            let job = after.system.jobs[id as int];
            &&& 0 <= id < after.system.jobs.len()
            &&& log.len() == jobs.len()
            &&& log[k].job == id
            &&& job.has_waited()
            &&& job.queue_head_time == Some(larger(placed_before(log, k), job.arrival_time))
            &&& job.start_time == Some(log[k].time)
            &&& job.wait_time == Some(log[k].time.difference(job.arrival_time))
        }),
{
    let begun = started_run(cluster, jobs, method);
    let order = arrival_order(jobs);
    lemma_starts_timed(cluster, jobs, method);
    lemma_reached_timed(begun, last, steps);
    finished_simulations_have_completed_every_job(begun, last, after, steps);
    reveal(Run::steps_to);
    let event = choose|event: Option<(N, EventType, i32)>|
        {
            &&& #[trigger] last.system.timer.is_answer(any_type(), event)
            &&& match event {
                Some((time, event_type, id)) => last.popped(id).handles_to(
                    after,
                    time,
                    event_type,
                    id,
                    Step::Finished,
                ),
                None => last.system.timer.arrivals.len() == 0 && after == last.finished(),
            }
        };
    assert(event is None) by {
        if let Some((time, event_type, id)) = event {
            assert(!last.popped(id).handles_to(after, time, event_type, id, Step::Finished)) by {
                if event_type == EventType::Arrive {
                    assert(!last.popped(id).arrives_to(after, id, time, Step::Finished));
                }
            }
        }
    }
    assert forall|id: i32| !last.system.is_arriving(id) by {
        if last.system.is_arriving(id) {
            assert(any_type()(last.system.timer.events[id].1));
        }
    }
    let log = last.system.cluster.allocations;
    assert(last.system.line() =~= last.system.placed_jobs());
    assert(last.system.placed_jobs()[k] == order[k]);
    assert(log[k].job == order[k]);
    let id = order[k];
    assert(after.scheduler.metrics_jobs.contains(id));
    let m = choose|m: int|
        0 <= m < last.scheduler.metrics_jobs.len() && last.scheduler.metrics_jobs[m] == id;
    assert(last.system.jobs[last.scheduler.metrics_jobs[m] as int].has_waited());
}

/// A job comes to the head of the queue no earlier than the job before it in the order of arrival
/// was placed: over a simulation that finishes, it waits in the queue from its arrival until that
/// placement, and not at all where that came first. The first job does not wait in the
/// queue unless it arrives before time zero. All of it up to rounding.
pub proof fn jobs_queue_until_the_one_before_is_placed<N: Scalar>(
    cluster: ClusterModel<N>,
    jobs: Seq<JobModel<N>>,
    method: PlacementMethod,
    last: Run<N>,
    after: Run<N>,
    steps: nat,
    k: int,
    value: spec_fn(N) -> real,
    bound: real,
    error: real,
)
    requires
        begins(cluster, jobs, method),
        started_run(cluster, jobs, method).reaches(last, steps),
        last.steps_to(after, Step::Finished),
        0 <= k < jobs.len(),
        rounds(value, bound, error),
        ({
            let log = after.system.cluster.allocations;
            let arrival = after.system.jobs[arrival_order(jobs)[k] as int].arrival_time;
            &&& arrival.finite()
            &&& -bound <= -value(arrival) <= bound
            &&& k > 0 ==> log[k - 1].time.finite() && -bound <= value(log[k - 1].time) - value(
                arrival,
            ) <= bound
        }),
    ensures
        ({
            let log = after.system.cluster.allocations;
            let id = arrival_order(jobs)[k];
            let job = after.system.jobs[id as int];
            let before = if k > 0 {
                value(log[k - 1].time)
            } else {
                0real
            };
            &&& log.len() == jobs.len()
            &&& log[k].job == id
            &&& k > 0 ==> log[k - 1].job == arrival_order(jobs)[k - 1]
            &&& job.queueing_wait_time matches Some(wait) && {
                &&& near(value(wait), positive_part(before - value(job.arrival_time)), error)
                &&& before <= value(job.arrival_time) ==> value(wait) == 0real
            }
            &&& job.queue_head_time matches Some(head) && {
                &&& value(head) >= before
                &&& value(head) >= value(job.arrival_time)
                &&& value(head) == before || value(head) == value(job.arrival_time)
            }
        }),
{
    lemma_finished_timed(cluster, jobs, method, last, after, steps, k);
    if k > 0 {
        lemma_finished_timed(cluster, jobs, method, last, after, steps, k - 1);
    }
    lemma_integer_value(value, 0, bound, error);
    let log = after.system.cluster.allocations;
    let job = after.system.jobs[arrival_order(jobs)[k] as int];
    let before = placed_before(log, k);
    lemma_compared(value, before, job.arrival_time, bound, error);
    let head = larger(before, job.arrival_time);
    lemma_difference_near(value, head, job.arrival_time, bound, error);
}

/// Over a simulation that finishes, a job starts when it is placed, and the parts of its waiting time
/// add up to the time from its arrival to its start, up to rounding.
pub proof fn waits_add_up_to_the_start<N: Scalar>(
    cluster: ClusterModel<N>,
    jobs: Seq<JobModel<N>>,
    method: PlacementMethod,
    last: Run<N>,
    after: Run<N>,
    steps: nat,
    k: int,
    value: spec_fn(N) -> real,
    bound: real,
    error: real,
)
    requires
        begins(cluster, jobs, method),
        started_run(cluster, jobs, method).reaches(last, steps),
        last.steps_to(after, Step::Finished),
        0 <= k < jobs.len(),
        rounds(value, bound, error),
        ({
            let job = after.system.jobs[arrival_order(jobs)[k] as int];
            let head = value_or(job.queue_head_time, zero());
            let met = value_or(job.capacity_met_time, head);
            let start = value_or(job.start_time, zero());
            &&& job.arrival_time.finite() && head.finite() && met.finite() && start.finite()
            &&& -bound <= value(head) - value(job.arrival_time) <= bound
            &&& -bound <= value(met) - value(head) <= bound
            &&& -bound <= value(start) - value(met) <= bound
            &&& -bound <= value(start) - value(job.arrival_time) <= bound
        }),
    ensures
        ({
            let log = after.system.cluster.allocations;
            let job = after.system.jobs[arrival_order(jobs)[k] as int];
            let times = job.metrics();
            let waited = value(log[k].time) - value(job.arrival_time);
            &&& log[k].job == arrival_order(jobs)[k]
            &&& times.start_time == log[k].time
            &&& times.arrival_time == job.arrival_time
            &&& near(value(times.wait_time), waited, error)
            &&& near(
                value(times.queueing_wait_time) + value(times.capacity_wait_time) + value(
                    times.placement_wait_time,
                ),
                waited,
                3real * error,
            )
            &&& job.capacity_met_time matches Some(met) ==> near(
                value(times.placement_wait_time),
                value(log[k].time) - value(met),
                error,
            )
        }),
{
    lemma_finished_timed(cluster, jobs, method, last, after, steps, k);
    let job = after.system.jobs[arrival_order(jobs)[k] as int];
    let head = value_or(job.queue_head_time, zero());
    let met = value_or(job.capacity_met_time, head);
    let start = value_or(job.start_time, zero());
    lemma_difference_near(value, head, job.arrival_time, bound, error);
    lemma_difference_near(value, met, head, bound, error);
    lemma_difference_near(value, start, met, bound, error);
    lemma_difference_near(value, start, job.arrival_time, bound, error);
}

/// Capacity is met for a job when it tries to be placed for the first time while all servers together
/// have as many free GPUs and cores as its workers and parameter servers take; until then the
/// scheduler waits for capacity, and from then on for a placement.
pub proof fn capacity_is_met_when_there_is_enough<N: Scalar>(
    run: Run<N>,
    after: Run<N>,
    id: i32,
    time: N,
)
    requires
        run.system.is_live_but(id, run.scheduler.placement_method),
        !run.system.cluster.active(id as int),
        run.arrives_to(after, id, time, Step::Handled),
    ensures
        ({
            let before = run.system.jobs[id as int];
            let now = after.system.jobs[id as int];
            let enough = before.gpu_workers * before.gpu_per_worker <= total(
                run.system.cluster.gpus,
            ) && before.gpu_workers * before.cpu_per_gpu_worker + before.ps * before.cpu_per_ps
                <= total(run.system.cluster.cpu_cores);
            &&& before.capacity_met_time is Some ==> now.capacity_met_time
                == before.capacity_met_time
            &&& before.capacity_met_time is None && enough ==> now.capacity_met_time == Some(time)
            &&& before.capacity_met_time is None && !enough ==> now.capacity_met_time is None
            &&& after.scheduler.current_state == SchedulerState::PlacementWait
                ==> now.capacity_met_time is Some
            &&& after.scheduler.current_state == SchedulerState::CapacityWait
                ==> now.capacity_met_time is None
        }),
{
    let waiting = run.noticed(id, time);
    lemma_noticed_live(run, id, time);
    match waiting.system.cluster.plan(
        waiting.system.jobs[id as int],
        run.scheduler.placement_method,
    ) {
        Some((allocated, ps_allocated)) => {
            let placed = waiting.system.placed(id, allocated, ps_allocated, time);
            lemma_admitted_live(waiting, id, allocated, ps_allocated, time);
            if placed.timer.arrivals.len() > 0 {
                assert(0 <= placed.timer.arrivals[0] < placed.jobs.len());
            }
        },
        None => {},
    }
}

} // verus!
