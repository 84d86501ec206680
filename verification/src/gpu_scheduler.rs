//! The scheduler: it takes the events of the simulation in their order and
//! handles each of them.

use vstd::prelude::*;

use crate::completion::is_arrival;
use crate::gpu_cluster::{arena, iteration_time, GPUCluster, System};
use crate::gpu_job::{value_or, GpuJob, JobModel, Phase};
use crate::lists::{first_numbers, numbers, sum_of, total};
use crate::placement::PlacementMethod;
use crate::liveness::{
    lemma_admitted_live, lemma_communicated_live, lemma_computed_live, lemma_ended_live, lemma_freed_live,
    lemma_noticed_live, lemma_popped_live, steps_keep_the_simulation_live,
};
use crate::progress::{or_else, raise, raised, worst};
use crate::ranking::{rank_items, ranked, ranked_is_sorted, Ranking};
use crate::scalar::{larger, max_of, min_of, smaller, zero, Scalar, Ticks};
use crate::timer::{next_of, EventType, Timer, TimerModel};

verus! {

/// What the simulation says of a job that is through.
pub struct JobMetrics<N> {
    pub job_id: i32,
    pub model: String,
    pub arrival_time: N,
    pub start_time: N,
    pub end_time: N,
    pub wait_time: N,
    pub queueing_wait_time: N,
    pub capacity_wait_time: N,
    pub placement_wait_time: N,
    pub training_time: N,
    pub jct: N,
    pub compute_time: N,
    pub comms_time: N,
    pub loading_time: N,
}

/// What the simulation says of the jobs and of the scheduler.
pub struct SchedulerMetrics<N> {
    pub jobs: Vec<JobMetrics<N>>,
    pub sched_idle_time: N,
    pub sched_capacity_wait_time: N,
    pub sched_placement_wait_time: N,
}

/// What the scheduler waits for.
#[derive(Debug, Clone, Copy, PartialEq, Eq, Structural)]
pub enum SchedulerState {
    Idle,
    CapacityWait,
    PlacementWait,
}

/// What came of the next event.
#[derive(Debug, Clone, Copy, PartialEq, Eq, Structural)]
pub enum Step {
    /// It was handled.
    Handled,
    /// There is none, and no job is yet to arrive.
    Finished,
    /// There is none, but jobs are yet to arrive.
    Starved,
    /// The job that arrived finds no place, and nothing will change that.
    Unplaceable(i32),
    /// The free resources cannot be counted any more once the job is placed or released.
    Overflow(i32),
}

/// Handles the events of the simulation.
pub struct GPUScheduler<N> {
    pub placement_method: PlacementMethod,
    /// The jobs that are through.
    pub metrics_jobs: Vec<i32>,
    pub sched_idle_time: N,
    pub sched_capacity_wait_time: N,
    pub sched_placement_wait_time: N,
    pub last_state_change_time: N,
    pub current_state: SchedulerState,
    /// When a job was placed last.
    pub past_placement_success_time: N,
}

/// The state of a scheduler.
#[verifier::ext_equal]
pub struct SchedulerModel<N> {
    pub placement_method: PlacementMethod,
    pub metrics_jobs: Seq<i32>,
    pub sched_idle_time: N,
    pub sched_capacity_wait_time: N,
    pub sched_placement_wait_time: N,
    pub last_state_change_time: N,
    pub current_state: SchedulerState,
    pub past_placement_success_time: N,
}

impl<N> View for GPUScheduler<N> {
    type V = SchedulerModel<N>;

    open spec fn view(&self) -> SchedulerModel<N> {
        SchedulerModel {
            placement_method: self.placement_method,
            metrics_jobs: self.metrics_jobs@,
            sched_idle_time: self.sched_idle_time,
            sched_capacity_wait_time: self.sched_capacity_wait_time,
            sched_placement_wait_time: self.sched_placement_wait_time,
            last_state_change_time: self.last_state_change_time,
            current_state: self.current_state,
            past_placement_success_time: self.past_placement_success_time,
        }
    }
}

impl<N: Scalar> SchedulerModel<N> {
    /// The scheduler in another state, with the time in the present one counted.
    pub open spec fn moved_to(self, state: SchedulerState, time: N) -> SchedulerModel<N> {
        let spent = time.difference(self.last_state_change_time);
        let counted = match self.current_state {
            SchedulerState::Idle => SchedulerModel {
                sched_idle_time: self.sched_idle_time.sum(spent),
                ..self
            },
            SchedulerState::CapacityWait => SchedulerModel {
                sched_capacity_wait_time: self.sched_capacity_wait_time.sum(spent),
                ..self
            },
            SchedulerState::PlacementWait => SchedulerModel {
                sched_placement_wait_time: self.sched_placement_wait_time.sum(spent),
                ..self
            },
        };
        SchedulerModel { current_state: state, last_state_change_time: time, ..counted }
    }
}

/// The latest end of some jobs, and zero at least.
pub open spec fn latest_end<N: Scalar>(jobs: Seq<JobModel<N>>, ids: Seq<i32>) -> N
    decreases ids.len(),
{
    if ids.len() == 0 {
        zero()
    } else {
        larger(
            latest_end(jobs, ids.drop_last()),
            value_or(jobs[ids.last() as int].end_time, zero()),
        )
    }
}

impl<N: Scalar> JobModel<N> {
    /// The job at the head of the queue, at the earliest when it arrives.
    pub open spec fn headed(self, last_placement: N) -> JobModel<N> {
        JobModel {
            queue_head_time: match self.queue_head_time {
                Some(time) => Some(time),
                None => Some(larger(last_placement, self.arrival_time)),
            },
            ..self
        }
    }

    /// The largest slowdown of the job's network on its servers, whatever the cap.
    pub open spec fn initial_slowdown(self, guaranteed: N) -> N {
        worst(
            self.allocated,
            |server: i32| self.slowdown_on(self.demand(server), guaranteed, server),
        )
    }

    /// The job at the end of a compute phase, communicating.
    pub open spec fn computed(self, time: N, slowdown: N) -> JobModel<N> {
        let elapsed = time.difference(value_or(self.phase_start_time, time));
        JobModel {
            consumed_compute_time: raised(self.consumed_compute_time, elapsed),
            training_time: raised(self.training_time, elapsed),
            ..self
        }.comm_started(time, slowdown)
    }

    /// The job at the end of a communication phase, with an iteration more.
    pub open spec fn communicated(self, time: N) -> JobModel<N> {
        let job = self.comm_finished(time);
        JobModel {
            current_iteration: (job.current_iteration + 1) as i64,
            completed_iterations: Some(N::integer((job.current_iteration + 1) as i64)),
            ..job
        }
    }

    /// Whether the job has done all its iterations.
    pub open spec fn is_through(self) -> bool {
        self.current_iteration >= self.iteration_number.truncated()
    }

    /// When the next compute phase starts: communication may overlap with it.
    pub open spec fn compute_start(self, overlap: N, time: N) -> N {
        time.difference(
            smaller(
                overlap.product(self.iteration_computing_time),
                time.difference(value_or(self.phase_start_time, time)),
            ),
        )
    }

    /// The job with its last stretch counted, where iterations are not split.
    pub open spec fn wound_up(self, overlap: N, time: N) -> JobModel<N> {
        let elapsed = time.difference(value_or(self.last_change_time, time));
        let factor = value_or(self.last_network_factor, crate::scalar::one());
        let iteration = iteration_time(
            overlap,
            self.iteration_computing_time,
            self.iteration_networking_time.product(factor),
        );
        JobModel {
            completed_iterations: self.iterations_after(elapsed, iteration),
            ..self.consumed(elapsed, self.compute_part(factor))
        }
    }

    /// The job with the parts of its waiting time: in the queue, for capacity and for
    /// a placement.
    pub open spec fn waited(self) -> JobModel<N> {
        let queue_head = value_or(self.queue_head_time, self.arrival_time);
        let capacity_met = value_or(self.capacity_met_time, queue_head);
        let start = value_or(self.start_time, capacity_met);
        JobModel {
            queueing_wait_time: Some(queue_head.difference(self.arrival_time)),
            capacity_wait_time: Some(capacity_met.difference(queue_head)),
            placement_wait_time: Some(start.difference(capacity_met)),
            ..self
        }
    }

    /// The job at its end.
    pub open spec fn ended(self, overlap: N, iterates: bool, time: N) -> JobModel<N> {
        let job = JobModel { end_time: Some(time), ..self };
        if iterates {
            job.waited()
        } else {
            job.wound_up(overlap, time).waited()
        }
    }
}

/// All types of events.
pub open spec fn any_type() -> spec_fn(EventType) -> bool {
    |t: EventType| true
}

/// The first of two times, where there are any.
pub open spec fn sooner<N: Scalar>(
    time: Option<N>,
    event: Option<(N, EventType, i32)>,
) -> Option<N> {
    match (time, event) {
        (Some(time), Some((other, event_type, job))) => Some(smaller(time, other)),
        (None, Some((other, event_type, job))) => Some(other),
        (_, None) => time,
    }
}

/// The next events of each type after which a job may find a place.
pub struct Chances<N> {
    pub complete: Option<(N, EventType, i32)>,
    pub start: Option<(N, EventType, i32)>,
    pub comm_end: Option<(N, EventType, i32)>,
    pub comp_end: Option<(N, EventType, i32)>,
}

impl<N: Scalar> Chances<N> {
    /// Whether they are next in a queue; the ends of phases count only where iterations
    /// are split.
    pub open spec fn of(self, timer: TimerModel<N>, iterates: bool) -> bool {
        &&& timer.is_answer(|t: EventType| t == EventType::Complete, self.complete)
        &&& timer.is_answer(|t: EventType| t == EventType::Start, self.start)
        &&& iterates ==> timer.is_answer(
            |t: EventType| t == EventType::IterCommEnd,
            self.comm_end,
        )
        &&& iterates ==> timer.is_answer(
            |t: EventType| t == EventType::IterCompEnd,
            self.comp_end,
        )
    }

    /// When the first of them comes; the ends of phases count only where iterations are
    /// split.
    pub open spec fn first(self, iterates: bool) -> Option<N> {
        let external = sooner(sooner(None, self.complete), self.start);
        if iterates {
            sooner(sooner(external, self.comm_end), self.comp_end)
        } else {
            external
        }
    }
}

/// The state of a simulation with its scheduler.
#[verifier::ext_equal]
pub struct Run<N> {
    pub scheduler: SchedulerModel<N>,
    pub system: System<N>,
}

impl<N: Scalar> System<N> {
    /// The state with another state of a job.
    pub open spec fn with_job(self, id: i32, job: JobModel<N>) -> System<N> {
        System { jobs: self.jobs.update(id as int, job), ..self }
    }

    /// The state with an event more.
    pub open spec fn with_event(self, time: N, event_type: EventType, id: i32) -> System<N> {
        System { timer: self.timer.with_event(time, event_type, id), ..self }
    }

    /// Whether the servers together have the GPUs and cores that a job takes.
    pub open spec fn has_capacity(self, job: JobModel<N>) -> bool {
        job.total_gpus() <= total(self.cluster.gpus) && job.asks().cpus() <= total(
            self.cluster.cpu_cores,
        )
    }

    /// The state with the end of a job's compute phase taken note of and its
    /// communication entered.
    pub open spec fn computed(self, id: i32, time: N) -> System<N> {
        let slowdown = self.jobs[id as int].initial_slowdown(self.cluster.min_guaranteed_bw);
        let job = self.jobs[id as int].computed(time, slowdown);
        self.with_job(id, job).shared_out().with_event(
            time.sum(job.iteration_networking_time.product(slowdown)),
            EventType::IterCommEnd,
            id,
        )
    }

    /// The state with a job that has done all its iterations, about to complete.
    pub open spec fn exhausted(self, id: i32, time: N) -> System<N> {
        let job = self.jobs[id as int].communicated(time);
        self.with_job(id, JobModel { current_phase: Phase::Completed, ..job }).with_event(
            time,
            EventType::Complete,
            id,
        )
    }

    /// The state with a job at the start of its next compute phase.
    pub open spec fn iterated(self, id: i32, time: N) -> System<N> {
        let old = self.jobs[id as int];
        let start = old.compute_start(self.cluster.overlapping_ratio, time);
        let job = JobModel {
            current_phase: Phase::Compute,
            phase_start_time: Some(start),
            is_in_comm_phase: false,
            ..old.communicated(time)
        };
        self.with_job(id, job).shared_out().with_event(
            start.sum(old.iteration_computing_time),
            EventType::IterCompEnd,
            id,
        )
    }

    /// Whether a state follows from this one at the end of a job's communication phase.
    pub open spec fn communicates_to(self, after: System<N>, id: i32, time: N) -> bool {
        if self.jobs[id as int].communicated(time).is_through() {
            after == self.exhausted(id, time)
        } else {
            self.iterated(id, time).renews_to(after, time)
        }
    }

    /// The state with a job at its end.
    pub open spec fn ended(self, id: i32, time: N) -> System<N> {
        self.with_job(
            id,
            self.jobs[id as int].ended(
                self.cluster.overlapping_ratio,
                self.cluster.interference_model.iterates(),
                time,
            ),
        )
    }
}

impl<N: Scalar> Run<N> {
    /// The state with the arrival of a job at the head of the queue taken note of.
    pub open spec fn noticed(self, id: i32, time: N) -> Run<N> {
        let job = self.system.jobs[id as int].headed(self.scheduler.past_placement_success_time);
        let met = JobModel { capacity_met_time: Some(time), ..job };
        if job.capacity_met_time is Some {
            Run {
                scheduler: self.scheduler.moved_to(SchedulerState::PlacementWait, time),
                system: self.system.with_job(id, job),
            }
        } else if self.system.has_capacity(job) {
            Run {
                scheduler: self.scheduler.moved_to(SchedulerState::PlacementWait, time),
                system: self.system.with_job(id, met),
            }
        } else {
            Run {
                scheduler: self.scheduler.moved_to(SchedulerState::CapacityWait, time),
                system: self.system.with_job(id, job),
            }
        }
    }

    /// The state with the job that just arrived placed, and the next one, if any,
    /// entered.
    pub open spec fn admitted(
        self,
        id: i32,
        allocated: Seq<i32>,
        ps_allocated: Seq<i32>,
        time: N,
    ) -> Run<N> {
        let placed = self.system.placed(id, allocated, ps_allocated, time);
        let scheduler = SchedulerModel { past_placement_success_time: time, ..self.scheduler };
        if placed.timer.arrivals.len() > 0 {
            let next = placed.timer.arrivals[0];
            let arrival = larger(time, placed.jobs[next as int].arrival_time);
            Run {
                scheduler,
                system: System {
                    timer: placed.timer.without_arrival(),
                    ..placed.with_job(
                        next,
                        JobModel { temp_arrival_time: arrival, ..placed.jobs[next as int] },
                    )
                }.with_event(arrival, EventType::Arrive, next),
            }
        } else if placed.timer.is_answer(is_arrival(), None) {
            Run { scheduler: scheduler.moved_to(SchedulerState::Idle, time), system: placed }
        } else {
            Run { scheduler, system: placed }
        }
    }

    /// The state with the arrival of a job put off.
    pub open spec fn postponed(self, id: i32, time: N) -> Run<N> {
        let job = self.system.jobs[id as int];
        let arrival = larger(time, job.temp_arrival_time);
        Run {
            system: self.system.with_job(
                id,
                JobModel { temp_arrival_time: arrival, ..job },
            ).with_event(arrival, EventType::Arrive, id),
            ..self
        }
    }

    /// Whether a state follows from this one when a job arrives: it is placed, or put
    /// off until something changes.
    pub open spec fn arrives_to(self, after: Run<N>, id: i32, time: N, outcome: Step) -> bool {
        let waiting = self.noticed(id, time);
        let cluster = waiting.system.cluster;
        let job = waiting.system.jobs[id as int];
        match cluster.plan(job, self.scheduler.placement_method) {
            Some((allocated, ps_allocated)) => if cluster.can_take(job, allocated, ps_allocated) {
                &&& outcome == Step::Handled
                &&& after == waiting.admitted(id, allocated, ps_allocated, time)
            } else {
                outcome == Step::Overflow(id) && after == waiting
            },
            None => exists|chances: Chances<N>|
                {
                    &&& #[trigger] chances.of(
                        waiting.system.timer,
                        cluster.interference_model.iterates(),
                    )
                    &&& match chances.first(cluster.interference_model.iterates()) {
                        Some(next_try) => {
                            &&& outcome == Step::Handled
                            &&& after == waiting.postponed(id, next_try)
                        },
                        None => outcome == Step::Unplaceable(id) && after == waiting,
                    }
                },
        }
    }

    /// Whether a state follows from this one when a job completes: it is released.
    pub open spec fn completes_to(self, after: Run<N>, id: i32, time: N, outcome: Step) -> bool {
        if self.system.cluster.can_free(self.system.jobs[id as int], id) {
            &&& outcome == Step::Handled
            &&& after.scheduler == (SchedulerModel {
                metrics_jobs: self.scheduler.metrics_jobs.push(id),
                ..self.scheduler
            })
            &&& self.system.ended(id, time).releases_to(after.system, id, time)
        } else {
            outcome == Step::Overflow(id) && after == self
        }
    }

    /// The state when there is no event and no job is yet to arrive.
    pub open spec fn finished(self) -> Run<N> {
        let jobs = self.scheduler.metrics_jobs;
        Run {
            scheduler: self.scheduler.moved_to(
                SchedulerState::Idle,
                if jobs.len() == 0 {
                    self.scheduler.last_state_change_time
                } else {
                    latest_end(self.system.jobs, jobs)
                },
            ),
            ..self
        }
    }

    /// The state without the event of a job.
    pub open spec fn popped(self, id: i32) -> Run<N> {
        Run { system: System { timer: self.system.timer.without(id), ..self.system }, ..self }
    }

    /// Whether a state follows from this one when an event of a job, already taken out of the
    /// queue, is handled.
    pub open spec fn handles_to(
        self,
        after: Run<N>,
        time: N,
        event_type: EventType,
        id: i32,
        outcome: Step,
    ) -> bool {
        match event_type {
            EventType::Arrive => self.arrives_to(after, id, time, outcome),
            EventType::Start => {
                &&& outcome == Step::Handled
                &&& after.scheduler == self.scheduler
                &&& self.system.starts_to(after.system, id, time)
            },
            EventType::IterCompEnd => {
                &&& outcome == Step::Handled
                &&& after.scheduler == self.scheduler
                &&& self.system.computed(id, time).renews_to(after.system, time)
            },
            EventType::IterCommEnd => {
                &&& outcome == Step::Handled
                &&& after.scheduler == self.scheduler
                &&& self.system.communicates_to(after.system, id, time)
            },
            EventType::Complete => self.completes_to(after, id, time, outcome),
        }
    }

    /// Whether a state follows from this one by a step: the next event is handled, or
    /// the simulation ends for want of one.
    #[verifier::opaque]
    pub open spec fn steps_to(self, after: Run<N>, outcome: Step) -> bool {
        exists|event: Option<(N, EventType, i32)>|
            {
                &&& #[trigger] self.system.timer.is_answer(any_type(), event)
                &&& match event {
                    Some((time, event_type, id)) => self.popped(id).handles_to(
                        after,
                        time,
                        event_type,
                        id,
                        outcome,
                    ),
                    None => if self.system.timer.arrivals.len() > 0 {
                        outcome == Step::Starved && after == self
                    } else {
                        outcome == Step::Finished && after == self.finished()
                    },
                }
            }
    }

    /// Whether a state follows from this one by a number of steps, each of which handles an
    /// event.
    pub open spec fn reaches(self, after: Run<N>, steps: nat) -> bool
        decreases steps,
    {
        if steps == 0 {
            after == self
        } else {
            exists|before: Run<N>|
                self.reaches(before, (steps - 1) as nat) && #[trigger] before.steps_to(
                    after,
                    Step::Handled,
                )
        }
    }
}

/// The jobs in the order of their arrival.
pub open spec fn arrival_order<N: Scalar>(jobs: Seq<JobModel<N>>) -> Seq<i32> {
    ranked(
        numbers(jobs.len()),
        |job: i32| jobs[job as int].arrival_time.rank(),
        |job: i32| job as int,
    )
}

/// A queue with all jobs entered as yet to arrive, and the first one as arriving.
pub open spec fn scheduled<N: Scalar>(timer: TimerModel<N>, jobs: Seq<JobModel<N>>) -> TimerModel<N> {
    let filled = TimerModel { arrivals: timer.arrivals + arrival_order(jobs), ..timer };
    if filled.arrivals.len() == 0 {
        filled
    } else {
        let first = filled.arrivals[0];
        filled.without_arrival().with_event(
            jobs[first as int].arrival_time,
            EventType::Arrive,
            first,
        )
    }
}

/// The order of the jobs by their arrival.
struct ByArrival<'a, N> {
    jobs: &'a Vec<GpuJob<N>>,
}

impl<'a, N: Scalar> Ranking for ByArrival<'a, N> {
    closed spec fn known(&self, item: i32) -> bool {
        &&& 0 <= item < self.jobs@.len()
        &&& self.jobs@.len() > 1 ==> self.jobs@[item as int].arrival_time.ordered()
    }

    closed spec fn first(&self) -> spec_fn(i32) -> int {
        let jobs = arena(self.jobs@);
        |job: i32| jobs[job as int].arrival_time.rank()
    }

    closed spec fn second(&self) -> spec_fn(i32) -> int {
        |job: i32| job as int
    }

    fn at_most(&self, a: i32, b: i32) -> (result: bool) {
        if a == b {
            return true;
        }
        let time_a: N = self.jobs[a as usize].arrival_time;
        let time_b: N = self.jobs[b as usize].arrival_time;
        assert(arena(self.jobs@)[a as int].arrival_time == time_a);
        assert(arena(self.jobs@)[b as int].arrival_time == time_b);
        if time_a.is_less(time_b) {
            return true;
        }
        if time_b.is_less(time_a) {
            return false;
        }
        a <= b
    }
}

impl<N: Scalar> GpuJob<N> {
    /// Notes when the job came to the head of the queue.
    fn head_queue(&mut self, last_placement: N)
        ensures
            final(self)@ == old(self)@.headed(last_placement),
    {
        if self.queue_head_time.is_none() {
            self.queue_head_time = Some(max_of(last_placement, self.arrival_time));
        }
    }

    fn meet_capacity(&mut self, current_time: N)
        ensures
            final(self)@ == (JobModel { capacity_met_time: Some(current_time), ..old(self)@ }),
    {
        self.capacity_met_time = Some(current_time);
    }

    fn await_arrival(&mut self, time: N)
        ensures
            final(self)@ == (JobModel { temp_arrival_time: time, ..old(self)@ }),
    {
        self.temp_arrival_time = time;
    }

    /// The largest slowdown of the job's network on its servers, whatever the cap.
    fn initial_contention(&self, guaranteed: N) -> (result: N)
        ensures
            result == self@.initial_slowdown(guaranteed),
    {
        let ghost job = self@;
        let ghost factor = |server: i32| job.slowdown_on(job.demand(server), guaranteed, server);
        let mut result: N = N::of_int(1);
        let mut i: usize = 0;
        assert(job.allocated.take(0) =~= Seq::<i32>::empty());
        while i < self.allocated.len()
            invariant
                i <= job.allocated.len(),
                job == self@,
                factor == (|server: i32| job.slowdown_on(job.demand(server), guaranteed, server)),
                result == worst(job.allocated.take(i as int), factor),
            decreases job.allocated.len() - i,
        {
            let server: i32 = self.allocated[i];
            assert(job.allocated.take(i + 1).drop_last() =~= job.allocated.take(i as int));
            let asked: N = self.required_bandwidth(server);
            result = max_of(result, self.network_slowdown_on(asked, guaranteed, server));
            i += 1;
        }
        assert(job.allocated.take(i as int) =~= job.allocated);
        result
    }

    /// Ends a compute phase and starts to communicate.
    fn end_compute(&mut self, current_time: N, slowdown: N)
        ensures
            final(self)@ == old(self)@.computed(current_time, slowdown),
    {
        let elapsed: N = current_time.minus(or_else(self.phase_start_time, current_time));
        self.consumed_compute_time = raise(self.consumed_compute_time, elapsed);
        self.training_time = raise(self.training_time, elapsed);
        self.start_comm_phase(current_time, slowdown);
    }

    /// Ends a communication phase and counts the iteration.
    fn end_comm(&mut self, current_time: N)
        requires
            old(self)@.current_iteration < i64::MAX,
        ensures
            final(self)@ == old(self)@.communicated(current_time),
    {
        self.finish_comm_phase(current_time);
        self.current_iteration = self.current_iteration + 1;
        self.completed_iterations = Some(N::of_int(self.current_iteration));
    }

    fn set_phase_completed(&mut self)
        ensures
            final(self)@ == (JobModel { current_phase: Phase::Completed, ..old(self)@ }),
    {
        self.current_phase = Phase::Completed;
    }

    fn start_compute(&mut self, start: N)
        ensures
            final(self)@ == (JobModel {
                current_phase: Phase::Compute,
                phase_start_time: Some(start),
                is_in_comm_phase: false,
                ..old(self)@
            }),
    {
        self.current_phase = Phase::Compute;
        self.phase_start_time = Some(start);
        self.is_in_comm_phase = false;
    }

    /// Ends the job: counts its last stretch and the parts of its waiting time.
    fn end(&mut self, overlap: N, iterates: bool, current_time: N)
        ensures
            final(self)@ == old(self)@.ended(overlap, iterates, current_time),
    {
        self.end_time = Some(current_time);
        if !iterates {
            let elapsed: N = current_time.minus(or_else(self.last_change_time, current_time));
            let factor: N = or_else(self.last_network_factor, N::of_int(1));
            let networking: N = self.iteration_networking_time.times(factor);
            let part: N = self.iteration_computing_time.over(
                self.iteration_computing_time.plus(networking),
            );
            self.consume(elapsed, part);
            let iteration: N = crate::gpu_cluster::iteration_time_of(
                overlap,
                self.iteration_computing_time,
                networking,
            );
            let completed: N = or_else(self.completed_iterations, N::of_int(0)).plus(
                elapsed.over(iteration),
            );
            self.completed_iterations = Some(min_of(completed, self.iteration_number));
        }
        let queue_head: N = or_else(self.queue_head_time, self.arrival_time);
        let capacity_met: N = or_else(self.capacity_met_time, queue_head);
        let start: N = or_else(self.start_time, capacity_met);
        self.queueing_wait_time = Some(queue_head.minus(self.arrival_time));
        self.capacity_wait_time = Some(capacity_met.minus(queue_head));
        self.placement_wait_time = Some(start.minus(capacity_met));
    }
}

/// The first of two times, where there are any.
fn sooner_of<N: Scalar>(time: Option<N>, event: Option<(N, EventType, i32)>) -> (result: Option<N>)
    ensures
        result == sooner(time, event),
{
    match event {
        Some((other, _, _)) => match time {
            Some(time) => Some(min_of(time, other)),
            None => Some(other),
        },
        None => time,
    }
}

impl<N: Scalar> GPUScheduler<N> {
    /// A scheduler for some jobs, which are entered into the queue in the order of their
    /// arrival.
    pub fn new(
        placement_method: PlacementMethod,
        jobs: &Vec<GpuJob<N>>,
        timer: &mut Timer<N>,
    ) -> (scheduler: Self)
        requires
            jobs@.len() <= i32::MAX,
            forall|job: int|
                0 <= job < jobs@.len() ==> (#[trigger] jobs@[job]).job_id == job,
            jobs@.len() > 1 ==> forall|job: int|
                0 <= job < jobs@.len() ==> (#[trigger] jobs@[job]).arrival_time.ordered(),
            old(timer).wf(),
            forall|job: i32| #[trigger]
                old(timer)@.events.contains_key(job) ==> !(0 <= job < jobs@.len()),
            forall|k: int|
                0 <= k < old(timer)@.arrivals.len() ==> 0 <= #[trigger] old(timer)@.arrivals[k]
                    < jobs@.len(),
        ensures
            final(timer).wf(),
            final(timer)@ == scheduled(old(timer)@, arena(jobs@)),
            scheduler@ == (SchedulerModel {
                placement_method,
                metrics_jobs: Seq::empty(),
                sched_idle_time: zero::<N>(),
                sched_capacity_wait_time: zero(),
                sched_placement_wait_time: zero(),
                last_state_change_time: zero(),
                current_state: SchedulerState::Idle,
                past_placement_success_time: zero(),
            }),
    {
        let ghost states = arena(jobs@);
        let ghost before = timer@;
        let all: Vec<i32> = first_numbers(jobs.len());
        let ranking = ByArrival { jobs };
        let order: Vec<i32> = rank_items(&all, &ranking);
        proof {
            assert(order@ == arrival_order(states));
            ranked_is_sorted(numbers(states.len()), ranking.first(), ranking.second());
            assert forall|k: int| 0 <= k < order@.len() implies 0 <= #[trigger] order@[k]
                < jobs@.len() by {
                assert(order@.contains(order@[k]));
                assert(numbers(states.len()).contains(order@[k]));
            }
            assert(before.arrivals + order@.take(0) =~= before.arrivals);
        }
        let mut i: usize = 0;
        while i < order.len()
            invariant
                i <= order@.len(),
                forall|k: int| 0 <= k < order@.len() ==> 0 <= #[trigger] order@[k] < jobs@.len(),
                forall|job: int| 0 <= job < jobs@.len() ==> (#[trigger] jobs@[job]).job_id == job,
                timer.wf(),
                timer@ == (TimerModel {
                    arrivals: before.arrivals + order@.take(i as int),
                    ..before
                }),
            decreases order@.len() - i,
        {
            let idx: i32 = order[i];
            proof {
                assert(0 <= order@[i as int] < jobs@.len());
                assert(jobs@[idx as int].job_id == idx);
            }
            timer.add_arrival(jobs[idx as usize].job_id);
            assert(before.arrivals + order@.take(i + 1) =~= (before.arrivals + order@.take(
                i as int,
            )).push(idx));
            i += 1;
        }
        proof {
            assert(order@.take(i as int) =~= order@);
            let all_arrivals = before.arrivals + order@;
            if all_arrivals.len() > 0 {
                if before.arrivals.len() > 0 {
                    assert(all_arrivals[0] == before.arrivals[0]);
                } else {
                    assert(all_arrivals[0] == order@[0]);
                }
            }
        }
        match timer.get_next_arrival() {
            Some(first_job_id) => {
                assert(states[first_job_id as int] == jobs@[first_job_id as int]@);
                let arrival_time: N = jobs[first_job_id as usize].arrival_time;
                timer.add_event(arrival_time, EventType::Arrive, first_job_id);
            },
            None => {},
        }
        GPUScheduler {
            placement_method,
            metrics_jobs: Vec::new(),
            sched_idle_time: N::of_int(0),
            sched_capacity_wait_time: N::of_int(0),
            sched_placement_wait_time: N::of_int(0),
            last_state_change_time: N::of_int(0),
            current_state: SchedulerState::Idle,
            past_placement_success_time: N::of_int(0),
        }
    }

    fn update_scheduler_state(&mut self, new_state: SchedulerState, current_time: N)
        ensures
            final(self)@ == old(self)@.moved_to(new_state, current_time),
    {
        let time_in_state: N = current_time.minus(self.last_state_change_time);
        match self.current_state {
            SchedulerState::Idle => {
                self.sched_idle_time = self.sched_idle_time.plus(time_in_state);
            },
            SchedulerState::CapacityWait => {
                self.sched_capacity_wait_time = self.sched_capacity_wait_time.plus(time_in_state);
            },
            SchedulerState::PlacementWait => {
                self.sched_placement_wait_time = self.sched_placement_wait_time.plus(
                    time_in_state,
                );
            },
        }
        self.current_state = new_state;
        self.last_state_change_time = current_time;
    }

    /// Whether a job is yet to arrive, or arriving.
    fn check_pending_jobs(&self, timer: &Timer<N>) -> (result: bool)
        requires
            timer.wf(),
        ensures
            result == (timer@.arrivals.len() > 0 || !timer@.is_answer(is_arrival(), None)),
    {
        if timer.has_arrivals() {
            return true;
        }
        match timer.peek_next_arrive_event() {
            Some((_, _, job)) => {
                assert(timer@.events.contains_key(job));
                true
            },
            None => false,
        }
    }
}

/// The state of a simulation, from its parts.
pub open spec fn run_of<N: Scalar>(
    scheduler: &GPUScheduler<N>,
    cluster: &GPUCluster<N>,
    jobs: &Vec<GpuJob<N>>,
    timer: &Timer<N>,
) -> Run<N> {
    Run {
        scheduler: scheduler@,
        system: System { cluster: cluster@, jobs: arena(jobs@), timer: timer@ },
    }
}

impl<N: Scalar> GPUScheduler<N> {
    /// Takes note of the arrival of a job at the head of the queue.
    fn notice(
        &mut self,
        job_id: i32,
        current_time: N,
        jobs: &mut Vec<GpuJob<N>>,
        cluster: &GPUCluster<N>,
        Ghost(timer): Ghost<TimerModel<N>>,
    )
        requires
            0 <= job_id < old(jobs)@.len(),
        ensures
            (Run {
                scheduler: final(self)@,
                system: System { cluster: cluster@, jobs: arena(final(jobs)@), timer },
            }) == (Run {
                scheduler: old(self)@,
                system: System { cluster: cluster@, jobs: arena(old(jobs)@), timer },
            }).noticed(job_id, current_time),
    {
        let ghost before = arena(jobs@);
        let ghost id = job_id as int;
        assert(before[id] == jobs@[id]@);
        jobs[job_id as usize].head_queue(self.past_placement_success_time);
        assert(arena(jobs@) =~= before.update(id, jobs@[id]@));
        let free_gpus: i128 = sum_of(&cluster.gpus);
        let free_cpus: i128 = sum_of(&cluster.cpu_cores);
        let needed_gpus: i128 = crate::placement::wide(
            jobs[job_id as usize].gpu_workers,
            jobs[job_id as usize].gpu_per_worker,
        );
        let needed_cpus: i128 = jobs[job_id as usize].request().needed_cpus();
        if jobs[job_id as usize].capacity_met_time.is_none() {
            if needed_gpus <= free_gpus && needed_cpus <= free_cpus {
                jobs[job_id as usize].meet_capacity(current_time);
                assert(arena(jobs@) =~= before.update(id, jobs@[id]@));
                self.update_scheduler_state(SchedulerState::PlacementWait, current_time);
            } else {
                self.update_scheduler_state(SchedulerState::CapacityWait, current_time);
            }
        } else {
            self.update_scheduler_state(SchedulerState::PlacementWait, current_time);
        }
    }

    /// Enters the next job that is yet to arrive, after a job was placed.
    fn admit_next(
        &mut self,
        current_time: N,
        jobs: &mut Vec<GpuJob<N>>,
        timer: &mut Timer<N>,
        Ghost(waiting): Ghost<Run<N>>,
        Ghost(id): Ghost<i32>,
        Ghost(allocated): Ghost<Seq<i32>>,
        Ghost(ps_allocated): Ghost<Seq<i32>>,
    )
        requires
            old(self)@ == waiting.scheduler,
            arena(old(jobs)@) == waiting.system.placed(
                id,
                allocated,
                ps_allocated,
                current_time,
            ).jobs,
            old(timer)@ == waiting.system.placed(id, allocated, ps_allocated, current_time).timer,
            old(timer).wf(),
            waiting.system.placed(id, allocated, ps_allocated, current_time).has_arrivals_apart(),
        ensures
            final(timer).wf(),
            final(self)@ == waiting.admitted(id, allocated, ps_allocated, current_time).scheduler,
            arena(final(jobs)@) == waiting.admitted(
                id,
                allocated,
                ps_allocated,
                current_time,
            ).system.jobs,
            final(timer)@ == waiting.admitted(
                id,
                allocated,
                ps_allocated,
                current_time,
            ).system.timer,
    {
        let ghost placed = waiting.system.placed(id, allocated, ps_allocated, current_time);
        self.past_placement_success_time = current_time;
        match timer.get_next_arrival() {
            Some(next_job_id) => {
                let ghost next = next_job_id as int;
                proof {
                    assert(0 <= placed.timer.arrivals[0] < placed.jobs.len());
                    assert(arena(jobs@).len() == jobs@.len());
                    assert(arena(jobs@)[next] == jobs@[next]@);
                }
                let next_arrival_time: N = max_of(
                    current_time,
                    jobs[next_job_id as usize].arrival_time,
                );
                jobs[next_job_id as usize].await_arrival(next_arrival_time);
                assert(arena(jobs@) =~= placed.jobs.update(next, jobs@[next]@));
                timer.add_event(next_arrival_time, EventType::Arrive, next_job_id);
            },
            None => {
                if !self.check_pending_jobs(timer) {
                    self.update_scheduler_state(SchedulerState::Idle, current_time);
                }
            },
        }
    }

    /// Handles the arrival of a job: places it, or puts it off until something changes.
    fn handle_arrive(
        &mut self,
        job_id: i32,
        current_time: N,
        jobs: &mut Vec<GpuJob<N>>,
        cluster: &mut GPUCluster<N>,
        timer: &mut Timer<N>,
    ) -> (outcome: Step)
        requires
            run_of(old(self), old(cluster), old(jobs), old(timer)).system.is_live_but(
                job_id,
                old(self).placement_method,
            ),
            !old(cluster)@.active(job_id as int),
            old(timer).wf(),
        ensures
            final(timer).wf(),
            run_of(old(self), old(cluster), old(jobs), old(timer)).arrives_to(
                run_of(final(self), final(cluster), final(jobs), final(timer)),
                job_id,
                current_time,
                outcome,
            ),
    {
        let ghost before = run_of(self, cluster, jobs, timer);
        let ghost id = job_id as int;
        self.notice(job_id, current_time, jobs, cluster, Ghost(timer@));
        let ghost waiting = before.noticed(job_id, current_time);
        proof {
            lemma_noticed_live(before, job_id, current_time);
            assert(arena(jobs@).len() == jobs@.len());
            assert(arena(jobs@)[id] == jobs@[id]@);
            assert(waiting.system.jobs[id].asks().gpu_workers == waiting.system.jobs[id].gpu_workers);
        }
        let method: PlacementMethod = self.placement_method;
        match cluster.try_allocate_resources(job_id, method, current_time, jobs, timer) {
            Some(true) => {
                let ghost plan = waiting.system.cluster.plan(waiting.system.jobs[id], method);
                let ghost (allocated, ps_allocated) = plan->0;
                proof {
                    lemma_admitted_live(waiting, job_id, allocated, ps_allocated, current_time);
                }
                self.admit_next(
                    current_time,
                    jobs,
                    timer,
                    Ghost(waiting),
                    Ghost(job_id),
                    Ghost(allocated),
                    Ghost(ps_allocated),
                );
                Step::Handled
            },
            Some(false) => {
                let complete = timer.peek_next_complete_event();
                let start = timer.peek_next_start_event();
                let iterates: bool = cluster.interference_model.is_iter_model();
                let mut next_try: Option<N> = sooner_of(sooner_of(None, complete), start);
                let ghost mut chances = Chances { complete, start, comm_end: None, comp_end: None };
                if iterates {
                    let comm_end = timer.peek_next_iter_comm_end_event();
                    let comp_end = timer.peek_next_iter_comp_end_event();
                    next_try = sooner_of(sooner_of(next_try, comm_end), comp_end);
                    proof {
                        chances = Chances { complete, start, comm_end, comp_end };
                    }
                }
                assert(chances.of(waiting.system.timer, iterates));
                match next_try {
                    Some(time) => {
                        let arrival: N = max_of(time, jobs[job_id as usize].temp_arrival_time);
                        jobs[job_id as usize].await_arrival(arrival);
                        assert(arena(jobs@) =~= waiting.system.jobs.update(id, jobs@[id]@));
                        timer.add_event(arrival, EventType::Arrive, job_id);
                        assert(run_of(self, cluster, jobs, timer) == waiting.postponed(
                            job_id,
                            time,
                        ));
                        Step::Handled
                    },
                    None => Step::Unplaceable(job_id),
                }
            },
            None => Step::Overflow(job_id),
        }
    }

    /// Handles the end of a compute phase.
    fn handle_iter_comp_end(
        &self,
        job_id: i32,
        current_time: N,
        jobs: &mut Vec<GpuJob<N>>,
        cluster: &mut GPUCluster<N>,
        timer: &mut Timer<N>,
    )
        requires
            run_of(self, old(cluster), old(jobs), old(timer)).system.is_live_but(
                job_id,
                self.placement_method,
            ),
            old(jobs)@[job_id as int]@.training_time is Some,
            old(jobs)@[job_id as int]@.current_iteration < i64::MAX,
            old(timer).wf(),
        ensures
            final(timer).wf(),
            run_of(self, old(cluster), old(jobs), old(timer)).system.computed(
                job_id,
                current_time,
            ).renews_to(run_of(self, final(cluster), final(jobs), final(timer)).system, current_time),
    {
        let ghost before = run_of(self, cluster, jobs, timer).system;
        let ghost id = job_id as int;
        proof {
            assert(arena(jobs@).len() == jobs@.len());
            assert(arena(jobs@)[id] == jobs@[id]@);
            lemma_computed_live(before, job_id, current_time, self.placement_method);
        }
        let slowdown: N = jobs[job_id as usize].initial_contention(cluster.min_guaranteed_bw);
        jobs[job_id as usize].end_compute(current_time, slowdown);
        let ghost job = jobs@[id]@;
        assert(arena(jobs@) =~= before.jobs.update(id, job));
        cluster.allocate_bandwidth(jobs);
        assert(arena(jobs@)[id] == jobs@[id]@);
        let comm_duration: N = jobs[job_id as usize].iteration_networking_time.times(slowdown);
        timer.add_event(current_time.plus(comm_duration), EventType::IterCommEnd, job_id);
        assert(run_of(self, cluster, jobs, timer).system == before.computed(job_id, current_time));
        cluster.update_completion_times(current_time, jobs, timer);
    }

    /// Handles the end of a communication phase.
    fn handle_iter_comm_end(
        &self,
        job_id: i32,
        current_time: N,
        jobs: &mut Vec<GpuJob<N>>,
        cluster: &mut GPUCluster<N>,
        timer: &mut Timer<N>,
    )
        requires
            run_of(self, old(cluster), old(jobs), old(timer)).system.is_live_but(
                job_id,
                self.placement_method,
            ),
            old(jobs)@[job_id as int]@.training_time is Some,
            old(jobs)@[job_id as int]@.current_iteration < i64::MAX,
            old(timer).wf(),
        ensures
            final(timer).wf(),
            run_of(self, old(cluster), old(jobs), old(timer)).system.communicates_to(
                run_of(self, final(cluster), final(jobs), final(timer)).system,
                job_id,
                current_time,
            ),
    {
        let ghost before = run_of(self, cluster, jobs, timer).system;
        let ghost id = job_id as int;
        proof {
            assert(arena(jobs@).len() == jobs@.len());
            assert(arena(jobs@)[id] == jobs@[id]@);
            lemma_communicated_live(before, job_id, current_time, self.placement_method);
        }
        let comm_start: N = or_else(jobs[job_id as usize].phase_start_time, current_time);
        let comm_duration: N = current_time.minus(comm_start);
        let comp_time: N = jobs[job_id as usize].iteration_computing_time;
        jobs[job_id as usize].end_comm(current_time);
        if jobs[job_id as usize].current_iteration
            >= jobs[job_id as usize].iteration_number.trunc() {
            jobs[job_id as usize].set_phase_completed();
            assert(arena(jobs@) =~= before.jobs.update(id, jobs@[id]@));
            timer.add_event(current_time, EventType::Complete, job_id);
        } else {
            // Communication may overlap with the next compute phase.
            let overlap_credit: N = min_of(
                cluster.overlapping_ratio.times(comp_time),
                comm_duration,
            );
            let compute_start: N = current_time.minus(overlap_credit);
            jobs[job_id as usize].start_compute(compute_start);
            assert(arena(jobs@) =~= before.jobs.update(id, jobs@[id]@));
            cluster.allocate_bandwidth(jobs);
            timer.add_event(compute_start.plus(comp_time), EventType::IterCompEnd, job_id);
            assert(run_of(self, cluster, jobs, timer).system == before.iterated(
                job_id,
                current_time,
            ));
            cluster.update_completion_times(current_time, jobs, timer);
        }
    }

    /// Handles the completion of a job: releases it.
    fn handle_complete(
        &mut self,
        job_id: i32,
        current_time: N,
        jobs: &mut Vec<GpuJob<N>>,
        cluster: &mut GPUCluster<N>,
        timer: &mut Timer<N>,
    ) -> (outcome: Step)
        requires
            run_of(old(self), old(cluster), old(jobs), old(timer)).system.is_live_but(
                job_id,
                old(self).placement_method,
            ),
            old(timer).wf(),
        ensures
            final(timer).wf(),
            run_of(old(self), old(cluster), old(jobs), old(timer)).completes_to(
                run_of(final(self), final(cluster), final(jobs), final(timer)),
                job_id,
                current_time,
                outcome,
            ),
    {
        let ghost before = run_of(self, cluster, jobs, timer);
        let ghost id = job_id as int;
        proof {
            assert(arena(jobs@).len() == jobs@.len());
            assert(arena(jobs@)[id] == jobs@[id]@);
            lemma_ended_live(before.system, job_id, current_time, self.placement_method);
            lemma_freed_live(
                before.system.ended(job_id, current_time),
                job_id,
                self.placement_method,
            );
        }
        if !cluster.counts_when_freed(&jobs[job_id as usize], job_id) {
            return Step::Overflow(job_id);
        }
        let ghost old_job = jobs@[id]@;
        let iterates: bool = cluster.interference_model.is_iter_model();
        jobs[job_id as usize].end(cluster.overlapping_ratio, iterates, current_time);
        let ghost ended = before.system.ended(job_id, current_time);
        proof {
            assert(arena(jobs@) =~= ended.jobs);
            assert(cluster@.can_free(jobs@[id]@, job_id)) by {
                assert forall|server: int|
                    0 <= server < cluster@.servers && #[trigger] jobs@[id]@.uses(
                        server,
                    ) implies crate::resources::fits(
                    cluster@.gpus_after(jobs@[id]@, job_id, server),
                ) && crate::resources::fits(cluster@.cpus_after(jobs@[id]@, job_id, server)) by {
                    assert(old_job.uses(server));
                }
            }
        }
        cluster.release_resources(job_id, current_time, jobs, timer);
        self.metrics_jobs.push(job_id);
        Step::Handled
    }
}

impl<N: Scalar> Run<N> {
    /// Whether a state follows from this one by fewer steps than a limit, all of which but the
    /// last handle an event.
    pub open spec fn ends_in(self, after: Run<N>, end: Step, limit: nat) -> bool {
        exists|last: Run<N>, steps: nat|
            steps < limit && #[trigger] self.reaches(last, steps) && last.steps_to(after, end)
    }
}

proof fn lemma_reaches<N: Scalar>(begun: Run<N>, last: Run<N>, after: Run<N>, steps: nat)
    requires
        begun.reaches(last, steps),
        last.steps_to(after, Step::Handled),
    ensures
        begun.reaches(after, steps + 1),
{
    assert(begun.reaches(last, (steps + 1 - 1) as nat));
}

proof fn lemma_ends<N: Scalar>(
    begun: Run<N>,
    last: Run<N>,
    after: Run<N>,
    steps: nat,
    end: Step,
    limit: nat,
)
    requires
        begun.reaches(last, steps),
        last.steps_to(after, end),
        steps < limit,
    ensures
        begun.ends_in(after, end, limit),
{
}

impl<N: Scalar> SchedulerModel<N> {
    /// The scheduler at the start of a run.
    pub open spec fn begun(self) -> SchedulerModel<N> {
        SchedulerModel { past_placement_success_time: zero(), ..self }
    }
}

impl<N: Scalar> GPUScheduler<N> {
    /// The latest end of the jobs that are through, and zero at least.
    fn last_end(&self, jobs: &Vec<GpuJob<N>>) -> (result: N)
        requires
            forall|k: int|
                0 <= k < self.metrics_jobs@.len() ==> 0 <= #[trigger] self.metrics_jobs@[k]
                    < jobs@.len(),
        ensures
            result == latest_end(arena(jobs@), self.metrics_jobs@),
    {
        let ghost states = arena(jobs@);
        let mut result: N = N::of_int(0);
        let mut k: usize = 0;
        assert(self.metrics_jobs@.take(0) =~= Seq::<i32>::empty());
        while k < self.metrics_jobs.len()
            invariant
                k <= self.metrics_jobs@.len(),
                states == arena(jobs@),
                forall|i: int|
                    0 <= i < self.metrics_jobs@.len() ==> 0 <= #[trigger] self.metrics_jobs@[i]
                        < jobs@.len(),
                result == latest_end(states, self.metrics_jobs@.take(k as int)),
            decreases self.metrics_jobs@.len() - k,
        {
            let job_id: i32 = self.metrics_jobs[k];
            proof {
                assert(0 <= self.metrics_jobs@[k as int] < jobs@.len());
                assert(states[job_id as int] == jobs@[job_id as int]@);
                assert(self.metrics_jobs@.take(k + 1).drop_last() =~= self.metrics_jobs@.take(
                    k as int,
                ));
            }
            result = max_of(result, or_else(jobs[job_id as usize].end_time, N::of_int(0)));
            k += 1;
        }
        assert(self.metrics_jobs@.take(k as int) =~= self.metrics_jobs@);
        result
    }

    /// Handles the next event: the one that `Timer::peek_next_event` shows.
    pub fn step(
        &mut self,
        jobs: &mut Vec<GpuJob<N>>,
        cluster: &mut GPUCluster<N>,
        timer: &mut Timer<N>,
    ) -> (outcome: Step)
        requires
            run_of(old(self), old(cluster), old(jobs), old(timer)).is_live(),
            old(timer).wf(),
        ensures
            final(timer).wf(),
            run_of(old(self), old(cluster), old(jobs), old(timer)).steps_to(
                run_of(final(self), final(cluster), final(jobs), final(timer)),
                outcome,
            ),
            next_of(old(timer).queue()) matches Some((time, event_type, id)) ==> run_of(
                old(self),
                old(cluster),
                old(jobs),
                old(timer),
            ).popped(id).handles_to(
                run_of(final(self), final(cluster), final(jobs), final(timer)),
                time,
                event_type,
                id,
                outcome,
            ),
            outcome == Step::Handled ==> run_of(
                final(self),
                final(cluster),
                final(jobs),
                final(timer),
            ).is_live(),
    {
        let ghost before = run_of(self, cluster, jobs, timer);
        proof {
            reveal(Run::steps_to);
        }
        let event = timer.get_next_event();
        assert(before.system.timer.is_answer(any_type(), event));
        match event {
            None => {
                if timer.has_arrivals() {
                    return Step::Starved;
                }
                let final_time: N = if self.metrics_jobs.len() == 0 {
                    self.last_state_change_time
                } else {
                    self.last_end(jobs)
                };
                self.update_scheduler_state(SchedulerState::Idle, final_time);
                assert(run_of(self, cluster, jobs, timer) == before.finished());
                Step::Finished
            },
            Some((current_time, event_type, job_id)) => {
                let ghost popped = before.popped(job_id);
                proof {
                    lemma_popped_live(before.system, job_id, self.placement_method);
                    assert(run_of(self, cluster, jobs, timer) == popped);
                    assert(arena(jobs@).len() == jobs@.len());
                    assert(arena(jobs@)[job_id as int] == jobs@[job_id as int]@);
                }
                let outcome: Step = match event_type {
                    EventType::Arrive => {
                        self.handle_arrive(job_id, current_time, jobs, cluster, timer)
                    },
                    EventType::Start => {
                        cluster.allocate_network(job_id, current_time, jobs, timer);
                        Step::Handled
                    },
                    EventType::IterCompEnd => {
                        self.handle_iter_comp_end(job_id, current_time, jobs, cluster, timer);
                        Step::Handled
                    },
                    EventType::IterCommEnd => {
                        self.handle_iter_comm_end(job_id, current_time, jobs, cluster, timer);
                        Step::Handled
                    },
                    EventType::Complete => {
                        self.handle_complete(job_id, current_time, jobs, cluster, timer)
                    },
                };
                let ghost after = run_of(self, cluster, jobs, timer);
                proof {
                    assert(popped.handles_to(after, current_time, event_type, job_id, outcome));
                    assert(before.steps_to(after, outcome));
                    if outcome == Step::Handled {
                        steps_keep_the_simulation_live(before, after);
                    }
                }
                outcome
            },
        }
    }

    /// Runs the simulation until it ends, or until a number of events have been handled.
    /// Returns how it ended, or nothing where it did not.
    pub fn run(
        &mut self,
        jobs: &mut Vec<GpuJob<N>>,
        cluster: &mut GPUCluster<N>,
        timer: &mut Timer<N>,
        max_events: u64,
    ) -> (outcome: Option<Step>)
        requires
            run_of(old(self), old(cluster), old(jobs), old(timer)).is_live(),
            old(timer).wf(),
        ensures
            final(timer).wf(),
            ({
                let before = run_of(old(self), old(cluster), old(jobs), old(timer));
                let begun = Run { scheduler: before.scheduler.begun(), ..before };
                let after = run_of(final(self), final(cluster), final(jobs), final(timer));
                match outcome {
                    Some(end) => end != Step::Handled && begun.ends_in(
                        after,
                        end,
                        max_events as nat,
                    ),
                    None => begun.reaches(after, max_events as nat) && after.is_live(),
                }
            }),
    {
        let ghost before = run_of(self, cluster, jobs, timer);
        let ghost begun = Run { scheduler: before.scheduler.begun(), ..before };
        self.past_placement_success_time = N::of_int(0);
        assert(run_of(self, cluster, jobs, timer) == begun);
        let mut handled: u64 = 0;
        while handled < max_events
            invariant
                handled <= max_events,
                before == run_of(old(self), old(cluster), old(jobs), old(timer)),
                begun == (Run { scheduler: before.scheduler.begun(), ..before }),
                timer.wf(),
                run_of(self, cluster, jobs, timer).is_live(),
                begun.reaches(run_of(self, cluster, jobs, timer), handled as nat),
            decreases max_events - handled,
        {
            let ghost last = run_of(self, cluster, jobs, timer);
            let outcome: Step = self.step(jobs, cluster, timer);
            let ghost now = run_of(self, cluster, jobs, timer);
            assert(last.steps_to(now, outcome));
            if outcome != Step::Handled {
                proof {
                    lemma_ends(begun, last, now, handled as nat, outcome, max_events as nat);
                }
                return Some(outcome);
            }
            proof {
                lemma_reaches(begun, last, now, handled as nat);
            }
            handled += 1;
        }
        None
    }

    /// The metrics of the jobs that are through, in the order of their completion.
    pub fn metrics(&self, jobs: &Vec<GpuJob<N>>) -> (result: SchedulerMetrics<N>)
        requires
            forall|k: int|
                0 <= k < self.metrics_jobs@.len() ==> 0 <= #[trigger] self.metrics_jobs@[k]
                    < jobs@.len(),
        ensures
            result.jobs@.len() == self.metrics_jobs@.len(),
            forall|k: int|
                0 <= k < result.jobs@.len() ==> (#[trigger] result.jobs@[k])@
                    == arena(jobs@)[self.metrics_jobs@[k] as int].metrics(),
            result.sched_idle_time == self.sched_idle_time,
            result.sched_capacity_wait_time == self.sched_capacity_wait_time,
            result.sched_placement_wait_time == self.sched_placement_wait_time,
    {
        let ghost states = arena(jobs@);
        let mut result: Vec<JobMetrics<N>> = Vec::new();
        let mut k: usize = 0;
        while k < self.metrics_jobs.len()
            invariant
                k <= self.metrics_jobs@.len(),
                states == arena(jobs@),
                forall|i: int|
                    0 <= i < self.metrics_jobs@.len() ==> 0 <= #[trigger] self.metrics_jobs@[i]
                        < jobs@.len(),
                result@.len() == k,
                forall|i: int|
                    0 <= i < k ==> (#[trigger] result@[i])@ == states[self.metrics_jobs@[i] as int].metrics(),
            decreases self.metrics_jobs@.len() - k,
        {
            let job_id: i32 = self.metrics_jobs[k];
            proof {
                assert(0 <= self.metrics_jobs@[k as int] < jobs@.len());
                assert(states[job_id as int] == jobs@[job_id as int]@);
            }
            let entry: JobMetrics<N> = jobs[job_id as usize].job_metrics();
            result.push(entry);
            k += 1;
        }
        SchedulerMetrics {
            jobs: result,
            sched_idle_time: self.sched_idle_time,
            sched_capacity_wait_time: self.sched_capacity_wait_time,
            sched_placement_wait_time: self.sched_placement_wait_time,
        }
    }
}

/// A `JobMetrics`.
#[verifier::ext_equal]
pub struct MetricsModel<N> {
    pub job_id: i32,
    pub model: Seq<char>,
    pub arrival_time: N,
    pub start_time: N,
    pub end_time: N,
    pub wait_time: N,
    pub queueing_wait_time: N,
    pub capacity_wait_time: N,
    pub placement_wait_time: N,
    pub training_time: N,
    pub jct: N,
    pub compute_time: N,
    pub comms_time: N,
    pub loading_time: N,
}

impl<N> View for JobMetrics<N> {
    type V = MetricsModel<N>;

    open spec fn view(&self) -> MetricsModel<N> {
        MetricsModel {
            job_id: self.job_id,
            model: self.model@,
            arrival_time: self.arrival_time,
            start_time: self.start_time,
            end_time: self.end_time,
            wait_time: self.wait_time,
            queueing_wait_time: self.queueing_wait_time,
            capacity_wait_time: self.capacity_wait_time,
            placement_wait_time: self.placement_wait_time,
            training_time: self.training_time,
            jct: self.jct,
            compute_time: self.compute_time,
            comms_time: self.comms_time,
            loading_time: self.loading_time,
        }
    }
}

impl<N: Scalar> JobModel<N> {
    /// What the simulation says of the job.
    pub open spec fn metrics(self) -> MetricsModel<N> {
        let loading = value_or(self.consumed_loading_time, zero());
        let compute = value_or(self.consumed_compute_time, zero());
        let comms = value_or(self.consumed_comms_time, zero());
        let end = value_or(self.end_time, zero());
        MetricsModel {
            job_id: self.job_id,
            model: self.model,
            arrival_time: self.arrival_time,
            start_time: value_or(self.start_time, zero()),
            end_time: end,
            wait_time: value_or(self.wait_time, zero()),
            queueing_wait_time: value_or(self.queueing_wait_time, zero()),
            capacity_wait_time: value_or(self.capacity_wait_time, zero()),
            placement_wait_time: value_or(self.placement_wait_time, zero()),
            training_time: loading.sum(compute).sum(comms),
            jct: end.difference(self.arrival_time),
            compute_time: compute,
            comms_time: comms,
            loading_time: loading,
        }
    }
}

impl<N: Scalar> GpuJob<N> {
    /// What the simulation says of the job.
    fn job_metrics(&self) -> (result: JobMetrics<N>)
        ensures
            result@ == self@.metrics(),
    {
        let none: N = N::of_int(0);
        let loading: N = or_else(self.consumed_loading_time, none);
        let compute: N = or_else(self.consumed_compute_time, none);
        let comms: N = or_else(self.consumed_comms_time, none);
        let end: N = or_else(self.end_time, none);
        JobMetrics {
            job_id: self.job_id,
            model: self.model.clone(),
            arrival_time: self.arrival_time,
            start_time: or_else(self.start_time, none),
            end_time: end,
            wait_time: or_else(self.wait_time, none),
            queueing_wait_time: or_else(self.queueing_wait_time, none),
            capacity_wait_time: or_else(self.capacity_wait_time, none),
            placement_wait_time: or_else(self.placement_wait_time, none),
            training_time: loading.plus(compute).plus(comms),
            jct: end.minus(self.arrival_time),
            compute_time: compute,
            comms_time: comms,
            loading_time: loading,
        }
    }
}

/// The times that the scheduler spends idle, waiting for capacity and waiting for a
/// placement add up to the time that has gone by.
pub proof fn scheduler_times_add_up(
    scheduler: SchedulerModel<Ticks>,
    state: SchedulerState,
    time: Ticks,
)
    requires
        scheduler.sched_idle_time.count >= 0,
        scheduler.sched_capacity_wait_time.count >= 0,
        scheduler.sched_placement_wait_time.count >= 0,
        scheduler.sched_idle_time.count + scheduler.sched_capacity_wait_time.count
            + scheduler.sched_placement_wait_time.count == scheduler.last_state_change_time.count,
        time.count >= scheduler.last_state_change_time.count,
    ensures
        ({
            let after = scheduler.moved_to(state, time);
            &&& after.sched_idle_time.count + after.sched_capacity_wait_time.count
                + after.sched_placement_wait_time.count == after.last_state_change_time.count
            &&& after.last_state_change_time == time
            &&& after.current_state == state
        }),
{
}

/// The parts of a job's waiting time add up to the time from its arrival to its start.
pub proof fn waiting_times_add_up(job: JobModel<Ticks>)
    requires
        job.queue_head_time is Some,
        job.capacity_met_time is Some,
        job.start_time is Some,
        0 <= job.arrival_time.count <= job.queue_head_time->0.count
            <= job.capacity_met_time->0.count <= job.start_time->0.count,
    ensures
        ({
            let after = job.waited();
            after.queueing_wait_time->0.count + after.capacity_wait_time->0.count
                + after.placement_wait_time->0.count == job.start_time->0.count
                - job.arrival_time.count
        }),
{
}

/// The time that a job consumes is split into computing and communicating, and nothing of
/// it is lost.
pub proof fn consumed_time_is_split_in_two(job: JobModel<Ticks>, elapsed: Ticks, part: Ticks)
    requires
        0 <= part.count <= 1,
        0 <= elapsed.count,
        job.training_time is Some,
        job.consumed_compute_time is Some,
        job.consumed_comms_time is Some,
        0 <= job.training_time->0.count <= i64::MAX - elapsed.count,
        0 <= job.consumed_compute_time->0.count <= i64::MAX - elapsed.count,
        0 <= job.consumed_comms_time->0.count <= i64::MAX - elapsed.count,
    ensures
        ({
            let after = job.consumed(elapsed, part);
            after.training_time->0.count - after.consumed_compute_time->0.count
                - after.consumed_comms_time->0.count == job.training_time->0.count
                - job.consumed_compute_time->0.count - job.consumed_comms_time->0.count
        }),
{
    if part.count == 0 {
        assert(elapsed.count * 0 == 0 && elapsed.count * 1 == elapsed.count);
    } else {
        assert(part.count == 1);
        assert(elapsed.count * 0 == 0 && elapsed.count * 1 == elapsed.count);
    }
}

/// The times that a scheduler has counted, added up.
pub open spec fn counted_time(scheduler: SchedulerModel<Ticks>) -> int {
    scheduler.sched_idle_time.count + scheduler.sched_capacity_wait_time.count
        + scheduler.sched_placement_wait_time.count
}

/// Whether a scheduler has counted all time up to its last change of state, none of its
/// counters is beyond a limit, and the last change lies within a bound.
spec fn counts_all(scheduler: SchedulerModel<Ticks>, limit: int, bound: int) -> bool {
    &&& counted_time(scheduler) == scheduler.last_state_change_time.count
    &&& -limit <= scheduler.sched_idle_time.count <= limit
    &&& -limit <= scheduler.sched_capacity_wait_time.count <= limit
    &&& -limit <= scheduler.sched_placement_wait_time.count <= limit
    &&& 0 <= scheduler.last_state_change_time.count <= bound
}

/// Whether all times of a simulation lie within a bound: those of its events, and those of
/// the ends of its jobs.
pub open spec fn times_within(run: Run<Ticks>, bound: int) -> bool {
    &&& forall|id: i32| #[trigger]
        run.system.timer.events.contains_key(id) ==> 0 <= run.system.timer.events[id].0.count
            <= bound
    &&& forall|job: int|
        0 <= job < run.system.jobs.len() ==> match (#[trigger] run.system.jobs[job]).end_time {
            Some(time) => 0 <= time.count <= bound,
            None => true,
        }
}

proof fn lemma_move_counts(
    scheduler: SchedulerModel<Ticks>,
    state: SchedulerState,
    time: Ticks,
    limit: int,
    bound: int,
)
    requires
        counts_all(scheduler, limit, bound),
        0 <= time.count <= bound,
        0 <= limit,
        limit + bound <= i64::MAX,
    ensures
        counts_all(scheduler.moved_to(state, time), limit + bound, bound),
        scheduler.last_state_change_time == time ==> counts_all(
            scheduler.moved_to(state, time),
            limit,
            bound,
        ),
        scheduler.moved_to(state, time).last_state_change_time == time,
{
}

/// Whether two schedulers have counted the same times.
spec fn same_counts<N: Scalar>(a: SchedulerModel<N>, b: SchedulerModel<N>) -> bool {
    &&& a.sched_idle_time == b.sched_idle_time
    &&& a.sched_capacity_wait_time == b.sched_capacity_wait_time
    &&& a.sched_placement_wait_time == b.sched_placement_wait_time
    &&& a.last_state_change_time == b.last_state_change_time
}

/// An event other than an arrival leaves the counted times as they are.
proof fn lemma_event_keeps_counts<N: Scalar>(
    run: Run<N>,
    after: Run<N>,
    time: N,
    event_type: EventType,
    id: i32,
)
    requires
        event_type != EventType::Arrive,
        run.handles_to(after, time, event_type, id, Step::Handled),
    ensures
        same_counts(run.scheduler, after.scheduler),
{
}

/// An arrival moves the scheduler to a state of waiting, and from there perhaps to idling at
/// the same time.
proof fn lemma_arrival_moves<N: Scalar>(run: Run<N>, after: Run<N>, id: i32, time: N) -> (state:
    SchedulerState)
    requires
        run.arrives_to(after, id, time, Step::Handled),
    ensures
        ({
            let waiting = run.scheduler.moved_to(state, time);
            ||| same_counts(waiting, after.scheduler)
            ||| same_counts(waiting.moved_to(SchedulerState::Idle, time), after.scheduler)
        }),
{
    let waiting = run.noticed(id, time);
    let state = waiting.scheduler.current_state;
    assert(waiting.scheduler == run.scheduler.moved_to(state, time));
    match waiting.system.cluster.plan(
        waiting.system.jobs[id as int],
        run.scheduler.placement_method,
    ) {
        Some((allocated, ps_allocated)) => {
            let scheduler = SchedulerModel {
                past_placement_success_time: time,
                ..waiting.scheduler
            };
            assert(same_counts(
                scheduler.moved_to(SchedulerState::Idle, time),
                waiting.scheduler.moved_to(SchedulerState::Idle, time),
            ));
        },
        None => {},
    }
    state
}

/// A step that handles an event counts the time up to it.
proof fn lemma_step_counts(run: Run<Ticks>, after: Run<Ticks>, limit: int, bound: int)
    requires
        run.steps_to(after, Step::Handled),
        times_within(run, bound),
        counts_all(run.scheduler, limit, bound),
        0 <= limit,
        0 <= bound,
        limit + bound <= i64::MAX,
    ensures
        counts_all(after.scheduler, limit + bound, bound),
{
    let (time, event_type, id) = handled_event(run, after);
    let popped = run.popped(id);
    if event_type == EventType::Arrive {
        let state = lemma_arrival_moves(popped, after, id, time);
        let waiting = run.scheduler.moved_to(state, time);
        lemma_move_counts(run.scheduler, state, time, limit, bound);
        lemma_idle_counts(waiting, time, limit + bound, bound);
    } else {
        lemma_event_keeps_counts(popped, after, time, event_type, id);
    }
}

/// A move at the time of the last one counts nothing.
proof fn lemma_idle_counts(scheduler: SchedulerModel<Ticks>, time: Ticks, limit: int, bound: int)
    requires
        counts_all(scheduler, limit, bound),
        scheduler.last_state_change_time == time,
    ensures
        counts_all(scheduler.moved_to(SchedulerState::Idle, time), limit, bound),
{
}

/// The event that a step handles.
proof fn handled_event<N: Scalar>(run: Run<N>, after: Run<N>) -> (event: (N, EventType, i32))
    requires
        run.steps_to(after, Step::Handled),
    ensures
        run.system.timer.events.contains_key(event.2),
        run.system.timer.events[event.2].0 == event.0,
        run.popped(event.2).handles_to(after, event.0, event.1, event.2, Step::Handled),
{
    reveal(Run::steps_to);
    let event = choose|event: Option<(N, EventType, i32)>|
        {
            &&& #[trigger] run.system.timer.is_answer(any_type(), event)
            &&& match event {
                Some((time, event_type, id)) => run.popped(id).handles_to(
                    after,
                    time,
                    event_type,
                    id,
                    Step::Handled,
                ),
                None => false,
            }
        };
    event->0
}

proof fn lemma_reached_counts(begun: Run<Ticks>, after: Run<Ticks>, steps: nat, bound: int)
    requires
        counts_all(begun.scheduler, 0, bound),
        0 <= bound,
        steps * bound <= i64::MAX,
        forall|mid: Run<Ticks>, k: nat|
            k < steps && #[trigger] begun.reaches(mid, k) ==> times_within(mid, bound),
        begun.reaches(after, steps),
    ensures
        counts_all(after.scheduler, steps * bound, bound),
    decreases steps,
{
    if steps > 0 {
        let before = choose|before: Run<Ticks>|
            begun.reaches(before, (steps - 1) as nat) && #[trigger] before.steps_to(
                after,
                Step::Handled,
            );
        assert(0 <= (steps - 1) * bound && (steps - 1) * bound + bound == steps * bound)
            by (nonlinear_arith)
            requires
                steps >= 1,
                bound >= 0,
        ;
        lemma_reached_counts(begun, before, (steps - 1) as nat, bound);
        assert(times_within(before, bound));
        lemma_step_counts(before, after, (steps - 1) * bound, bound);
    } else {
        assert(0 * bound == 0);
    }
}

/// The latest end of some jobs lies within the bound of their times.
proof fn lemma_latest_end(run: Run<Ticks>, ids: Seq<i32>, bound: int)
    requires
        times_within(run, bound),
        0 <= bound,
        forall|k: int| 0 <= k < ids.len() ==> 0 <= #[trigger] ids[k] < run.system.jobs.len(),
    ensures
        0 <= latest_end(run.system.jobs, ids).count <= bound,
    decreases ids.len(),
{
    if ids.len() > 0 {
        let rest = ids.drop_last();
        assert forall|k: int| 0 <= k < rest.len() implies 0 <= #[trigger] rest[k]
            < run.system.jobs.len() by {
            assert(rest[k] == ids[k]);
        }
        lemma_latest_end(run, rest, bound);
        assert(0 <= ids[ids.len() - 1] < run.system.jobs.len());
        let job = run.system.jobs[ids.last() as int];
        assert(match job.end_time {
            Some(time) => 0 <= time.count <= bound,
            None => true,
        });
    }
}

/// Over a whole simulation that finishes, the times that the scheduler spends idle, waiting for
/// capacity and waiting for a placement add up to the latest end of a job. The times lie
/// within a bound that keeps the counters from saturating.
pub proof fn scheduler_times_add_up_to_the_last_end(
    begun: Run<Ticks>,
    last: Run<Ticks>,
    after: Run<Ticks>,
    steps: nat,
    bound: int,
)
    requires
        begun.scheduler.sched_idle_time.count == 0,
        begun.scheduler.sched_capacity_wait_time.count == 0,
        begun.scheduler.sched_placement_wait_time.count == 0,
        begun.scheduler.last_state_change_time.count == 0,
        begun.is_live(),
        0 <= bound,
        (steps + 1) * bound <= i64::MAX,
        forall|mid: Run<Ticks>, k: nat|
            k <= steps && #[trigger] begun.reaches(mid, k) ==> times_within(mid, bound),
        begun.reaches(last, steps),
        last.steps_to(after, Step::Finished),
    ensures
        counted_time(after.scheduler) == after.scheduler.last_state_change_time.count,
        after.scheduler.metrics_jobs.len() > 0 ==> counted_time(after.scheduler) == latest_end(
            after.system.jobs,
            after.scheduler.metrics_jobs,
        ).count,
{
    reveal(Run::steps_to);
    assert(steps * bound + bound == (steps + 1) * bound && 0 <= steps * bound)
        by (nonlinear_arith)
        requires
            bound >= 0,
    ;
    lemma_reached_counts(begun, last, steps, bound);
    lemma_reached_live(begun, last, steps);
    let event = choose|event: Option<(Ticks, EventType, i32)>|
        {
            &&& #[trigger] last.system.timer.is_answer(any_type(), event)
            &&& match event {
                Some((time, event_type, id)) => last.popped(id).handles_to(
                    after,
                    time,
                    event_type,
                    id,
                    Step::Finished,
                ),
                None => last.system.timer.arrivals.len() == 0 && after == last.finished(),
            }
        };
    assert(event is None) by {
        if let Some((time, event_type, id)) = event {
            assert(!last.popped(id).handles_to(after, time, event_type, id, Step::Finished)) by {
                if event_type == EventType::Arrive {
                    assert(!last.popped(id).arrives_to(after, id, time, Step::Finished));
                }
            }
        }
    }
    assert(times_within(last, bound));
    let jobs = last.scheduler.metrics_jobs;
    lemma_latest_end(last, jobs, bound);
    let end = if jobs.len() == 0 {
        last.scheduler.last_state_change_time
    } else {
        latest_end(last.system.jobs, jobs)
    };
    lemma_move_counts(last.scheduler, SchedulerState::Idle, end, steps * bound, bound);
}

proof fn lemma_reached_live<N: Scalar>(begun: Run<N>, after: Run<N>, steps: nat)
    requires
        begun.is_live(),
        begun.reaches(after, steps),
    ensures
        after.is_live(),
    decreases steps,
{
    if steps > 0 {
        let before = choose|before: Run<N>|
            begun.reaches(before, (steps - 1) as nat) && #[trigger] before.steps_to(
                after,
                Step::Handled,
            );
        lemma_reached_live(begun, before, (steps - 1) as nat);
        steps_keep_the_simulation_live(before, after);
    }
}

} // verus!
