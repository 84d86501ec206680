//! The progress of the jobs, and when they will be done under the present
//! contention.

use vstd::prelude::*;

use crate::gpu_cluster::{
    arena, iteration_time, iteration_time_of, ClusterModel, GPUCluster, System,
};
use crate::bandwidth::{
    bandwidth_got, bandwidth_is_shared_in_proportion, exact_demand, shares_round,
};
use crate::gpu_job::{contention_change_slows_what_is_left, value_or, GpuJob, JobModel};
use crate::interference::InterferenceModel;
use crate::lists::{distinct, distinct_of, distinct_of_all, joined, lemma_distinct, lemma_joined};
use crate::rounding::{
    lemma_compared, lemma_difference_near, lemma_integer_value, lemma_product_near,
    lemma_quotient_near, lemma_sum_near, near, real_max, real_min, real_sum, rounds,
};
use crate::scalar::{larger, less, max_of, min_of, no_more, one, smaller, zero, Scalar};
use crate::timer::Timer;

verus! {

broadcast use vstd::std_specs::hash::group_hash_axioms;

/// An amount raised by another, where there is one.
pub open spec fn raised<N: Scalar>(amount: Option<N>, by: N) -> Option<N> {
    match amount {
        Some(amount) => Some(amount.sum(by)),
        None => None,
    }
}

pub(crate) fn raise<N: Scalar>(amount: Option<N>, by: N) -> (result: Option<N>)
    ensures
        result == raised(amount, by),
{
    match amount {
        Some(amount) => Some(amount.plus(by)),
        None => None,
    }
}

pub(crate) fn or_else<N: Scalar>(amount: Option<N>, default: N) -> (result: N)
    ensures
        result == value_or(amount, default),
{
    match amount {
        Some(amount) => amount,
        None => default,
    }
}

/// The largest factor of some servers, and one at least.
pub open spec fn worst<N: Scalar>(servers: Seq<i32>, factor: spec_fn(i32) -> N) -> N
    decreases servers.len(),
{
    if servers.len() == 0 {
        one()
    } else {
        larger(worst(servers.drop_last(), factor), factor(servers.last()))
    }
}

/// The amounts of those jobs that have one added up, in their order.
pub open spec fn added_up<N: Scalar>(ids: Seq<i32>, amount: spec_fn(i32) -> Option<N>) -> N
    decreases ids.len(),
{
    if ids.len() == 0 {
        zero()
    } else {
        match amount(ids.last()) {
            Some(amount_of_last) => added_up(ids.drop_last(), amount).sum(amount_of_last),
            None => added_up(ids.drop_last(), amount),
        }
    }
}

impl<N: Scalar> JobModel<N> {
    /// Whether the job is consistent: a job that trains counts the time that it
    /// consumes, and a job has a contention factor exactly where it has a remaining time.
    pub open spec fn is_consistent(self) -> bool {
        &&& self.training_time is Some ==> self.consumed_compute_time is Some
            && self.consumed_comms_time is Some
        &&& self.remaining_train_time is Some <==> self.last_network_factor is Some
    }

    /// Whether the job runs on existing servers only.
    pub open spec fn is_placed_within(self, servers: int) -> bool {
        &&& forall|server: i32| #[trigger]
            self.allocated.contains(server) ==> 0 <= server < servers
        &&& forall|server: i32| #[trigger]
            self.ps_allocated.contains(server) ==> 0 <= server < servers
    }

    /// The slowdown of the job's network on a server: what it asks for over what it
    /// gets, which is the guaranteed minimum at least.
    pub open spec fn slowdown_on(self, asked: N, guaranteed: N, server: i32) -> N {
        asked.quotient(
            larger(
                if self.using_bandwidths.contains_key(server) {
                    self.using_bandwidths[server]
                } else {
                    zero()
                },
                guaranteed,
            ),
        )
    }

    /// The time since the job's progress was last taken, if it ever was.
    pub open spec fn elapsed(self, time: N) -> N {
        if self.remaining_train_time is None {
            zero()
        } else {
            time.difference(value_or(self.last_change_time, time))
        }
    }

    /// The number of iterations done after some more time at a given time for each.
    pub open spec fn iterations_after(self, elapsed: N, iteration: N) -> Option<N> {
        Some(
            smaller(
                value_or(self.completed_iterations, zero()).sum(elapsed.quotient(iteration)),
                self.iteration_number,
            ),
        )
    }

    /// The job with the iterations counted that it did up to now.
    pub open spec fn counted(self, overlap: N, time: N) -> JobModel<N> {
        if self.remaining_train_time is None {
            self
        } else {
            JobModel {
                completed_iterations: self.iterations_after(
                    self.elapsed(time),
                    iteration_time(
                        overlap,
                        self.iteration_computing_time,
                        self.iteration_networking_time.product(
                            value_or(self.last_network_factor, one()),
                        ),
                    ),
                ),
                ..self
            }
        }
    }

    /// The iterations that the job has yet to do.
    pub open spec fn iterations_left(self) -> N {
        self.iteration_number.difference(value_or(self.completed_iterations, zero()))
    }

    /// The part of the time that goes into computing under a contention factor.
    pub open spec fn compute_part(self, factor: N) -> N {
        self.iteration_computing_time.quotient(
            self.iteration_computing_time.sum(self.iteration_networking_time.product(factor)),
        )
    }

    /// The job with some time consumed, a part of it by computing.
    pub open spec fn consumed(self, elapsed: N, part: N) -> JobModel<N> {
        JobModel {
            training_time: raised(self.training_time, elapsed),
            consumed_compute_time: raised(self.consumed_compute_time, elapsed.product(part)),
            consumed_comms_time: raised(
                self.consumed_comms_time,
                elapsed.product(one::<N>().difference(part)),
            ),
            ..self
        }
    }

    /// The time that the job has left under a contention factor.
    pub open spec fn time_left(self, overlap: N, factor: N) -> N {
        self.iterations_left().product(
            iteration_time(
                overlap,
                self.iteration_computing_time,
                self.iteration_networking_time.product(factor),
            ),
        )
    }

    /// The job with its progress taken, going on under a contention factor.
    pub open spec fn paced(self, overlap: N, factor: N, time: N) -> JobModel<N> {
        let counted = self.counted(overlap, time);
        if !less(zero(), counted.iterations_left()) {
            counted
        } else {
            JobModel {
                remaining_train_time: Some(counted.time_left(overlap, factor)),
                last_change_time: Some(time),
                last_network_factor: Some(factor),
                ..counted.consumed(
                    self.elapsed(time),
                    self.compute_part(value_or(self.last_network_factor, one())),
                )
            }
        }
    }

    /// When the job will be done, going on under a contention factor.
    pub open spec fn paced_end(self, overlap: N, factor: N, time: N) -> Option<N> {
        let counted = self.counted(overlap, time);
        if !less(zero(), counted.iterations_left()) {
            None
        } else {
            Some(time.sum(counted.time_left(overlap, factor)))
        }
    }

    /// When the communication phase will end under a contention factor.
    pub open spec fn comm_end(self, factor: N, time: N) -> N {
        time.sum(self.contention_updated(time, factor).comm_remaining(time).product(factor))
    }
}

impl<N: Scalar> ClusterModel<N> {
    /// Whether one of some servers has several active jobs.
    pub open spec fn shared(self, servers: Seq<i32>) -> bool {
        exists|server: i32| #[trigger]
            servers.contains(server) && self.active_jobs[server as int].len() > 1
    }

    /// Whether a job shares a server with another.
    pub open spec fn has_neighbour(self, job: JobModel<N>) -> bool {
        self.shared(job.allocated) || self.shared(job.ps_allocated)
    }

    /// The largest slowdown of the job's network on its servers.
    pub open spec fn network_slowdown(self, job: JobModel<N>) -> N {
        worst(
            job.allocated,
            |server: i32|
                job.slowdown_on(
                    self.capped_demand(job, server),
                    self.min_guaranteed_bw,
                    server,
                ),
        )
    }

    /// The contention factor of a job where iterations are not split.
    pub open spec fn job_slowdown(self, job: JobModel<N>) -> N {
        match self.interference_model {
            InterferenceModel::Fixed => if self.has_neighbour(job) {
                one::<N>().sum(value_or(self.interference_ratio, zero()))
            } else {
                one()
            },
            InterferenceModel::Comms => self.network_slowdown(job),
            _ => one(),
        }
    }

    /// The bandwidth that the communicating jobs ask of a server's network.
    pub open spec fn comm_demand(self, jobs: Seq<JobModel<N>>, server: i32) -> N {
        added_up(
            self.active_jobs[server as int],
            |job: i32|
                if jobs[job as int].is_in_comm_phase {
                    Some(self.capped_demand(jobs[job as int], server))
                } else {
                    None
                },
        )
    }

    /// The bandwidth that the communicating jobs ask inside a server.
    pub open spec fn comm_demand_inside(self, jobs: Seq<JobModel<N>>, server: i32) -> N {
        added_up(
            self.active_jobs[server as int],
            |job: i32|
                if jobs[job as int].is_in_comm_phase {
                    Some(jobs[job as int].intra_demand(server))
                } else {
                    None
                },
        )
    }

    /// The slowdown of a server's network in the M/M/1 model.
    pub open spec fn queueing_slowdown(self, jobs: Seq<JobModel<N>>, server: i32) -> N {
        let load = smaller(
            self.comm_demand(jobs, server).quotient(self.bandwidth_per_server),
            one::<N>().difference(self.mm1_epsilon),
        );
        one::<N>().quotient(one::<N>().difference(load))
    }

    /// The slowdown inside a server: what the communicating jobs ask for over what there is.
    pub open spec fn inside_slowdown(self, jobs: Seq<JobModel<N>>, server: i32) -> N {
        let asked = self.comm_demand_inside(jobs, server);
        let available = self.intra_bandwidths[server as int];
        if less(available, asked) {
            asked.quotient(available)
        } else {
            one()
        }
    }

    /// The slowdown of a job on a server, between servers or inside it.
    pub open spec fn server_slowdown(self, jobs: Seq<JobModel<N>>, job: int, server: i32) -> N {
        larger(
            if self.contention_model_mm1 {
                self.queueing_slowdown(jobs, server)
            } else {
                jobs[job].slowdown_on(
                    self.capped_demand(jobs[job], server),
                    self.min_guaranteed_bw,
                    server,
                )
            },
            self.inside_slowdown(jobs, server),
        )
    }

    /// The contention factor of a job where iterations are split.
    pub open spec fn phase_slowdown(self, jobs: Seq<JobModel<N>>, job: int) -> N {
        if self.interference_model.looks_inside() {
            self.damped(
                worst(
                    distinct(jobs[job].allocated),
                    |server: i32| self.server_slowdown(jobs, job, server),
                ),
            )
        } else {
            self.network_slowdown(jobs[job])
        }
    }
}

/// What becomes of a job: its new state and, where its event moves, the new time of it.
pub type Change<N> = spec_fn(int) -> Option<(JobModel<N>, Option<N>)>;

impl<N: Scalar> System<N> {
    /// Whether every active job that trains has an event.
    pub open spec fn has_events(self) -> bool {
        forall|job: int|
            0 <= job < self.jobs.len() && #[trigger] self.cluster.active(job)
                && self.jobs[job].training_time is Some ==> self.timer.events.contains_key(
                job as i32,
            )
    }

    /// Whether every active job that trains has an event, but for one.
    pub open spec fn has_events_but(self, exempt: int) -> bool {
        forall|job: int|
            0 <= job < self.jobs.len() && job != exempt && #[trigger] self.cluster.active(job)
                && self.jobs[job].training_time is Some ==> self.timer.events.contains_key(
                job as i32,
            )
    }

    /// Whether the parts of the state fit together: the cluster is sized, it and the
    /// queue name existing jobs, these are consistent and name existing servers, what is
    /// stored of cycles fits together, and where times are looked up in a profile, it
    /// has the solo times of every job.
    pub open spec fn is_shaped(self) -> bool {
        &&& self.cluster.is_sized()
        &&& self.cluster.knows_jobs(self.jobs.len())
        &&& forall|job: int|
            0 <= job < self.jobs.len() ==> (#[trigger] self.jobs[job]).is_consistent()
        &&& forall|job: int|
            0 <= job < self.jobs.len() ==> (#[trigger] self.jobs[job]).is_placed_within(
                self.cluster.servers as int,
            )
        &&& forall|job: i32| #[trigger]
            self.timer.events.contains_key(job) ==> 0 <= job < self.jobs.len()
        &&& self.cluster.cycles_match()
        &&& self.cluster.interference_model is CorunProfile ==> forall|job: int|
            0 <= job < self.jobs.len() ==> self.cluster.corun_profile.solo_times(
                #[trigger] self.jobs[job],
            ) is Some
    }

    /// Whether the state is one whose progress can be taken.
    pub open spec fn is_sound(self) -> bool {
        self.is_shaped() && self.has_events()
    }

    /// Whether the state is one whose progress can be taken once a job has an event.
    pub open spec fn is_sound_but(self, exempt: int) -> bool {
        self.is_shaped() && self.has_events_but(exempt)
    }

    /// The state with every job changed as given.
    pub open spec fn changed(self, change: Change<N>) -> System<N> {
        System {
            cluster: self.cluster,
            jobs: Seq::new(
                self.jobs.len(),
                |job: int|
                    match change(job) {
                        Some((state, time)) => state,
                        None => self.jobs[job],
                    },
            ),
            timer: self.timer.moved_all(
                |job: i32|
                    match change(job as int) {
                        Some((state, time)) => time,
                        None => None,
                    },
            ),
        }
    }

    /// The progress of the active jobs that train, where iterations are not split.
    pub open spec fn job_pace(self, time: N) -> Change<N> {
        |job: int|
            if 0 <= job < self.jobs.len() && self.cluster.active(job)
                && self.jobs[job].training_time is Some {
                let overlap = self.cluster.overlapping_ratio;
                let factor = self.cluster.job_slowdown(self.jobs[job]);
                Some(
                    (
                        self.jobs[job].paced(overlap, factor, time),
                        self.jobs[job].paced_end(overlap, factor, time),
                    ),
                )
            } else {
                None
            }
    }

    /// Whether a job is active and communicates.
    pub open spec fn communicates(self, job: int) -> bool {
        &&& 0 <= job < self.jobs.len()
        &&& self.cluster.active(job)
        &&& self.jobs[job].training_time is Some
        &&& self.jobs[job].is_in_comm_phase
    }

    /// The progress of the active jobs that communicate, where iterations are split.
    pub open spec fn phase_pace(self, time: N) -> Change<N> {
        |job: int|
            if self.communicates(job) {
                let factor = self.cluster.phase_slowdown(self.jobs, job);
                Some(
                    (
                        self.jobs[job].contention_updated(time, factor),
                        Some(self.jobs[job].comm_end(factor, time)),
                    ),
                )
            } else {
                None
            }
    }
}

/// A change for some of the jobs only.
pub open spec fn only<N>(ids: Seq<i32>, change: Change<N>) -> Change<N> {
    |job: int|
        if i32::MIN <= job <= i32::MAX && ids.contains(job as i32) {
            change(job)
        } else {
            None
        }
}

/// What one job more that is changed adds.
pub(crate) proof fn lemma_changed_step<N: Scalar>(
    before: System<N>,
    ids: Seq<i32>,
    k: int,
    change: Change<N>,
)
    requires
        ids.no_duplicates(),
        0 <= k < ids.len(),
        0 <= ids[k] < before.jobs.len(),
        change(ids[k] as int) matches Some((state, Some(time)))
            ==> before.timer.events.contains_key(ids[k]),
    ensures
        ({
            let now = before.changed(only(ids.take(k), change));
            let next = before.changed(only(ids.take(k + 1), change));
            &&& now.jobs[ids[k] as int] == before.jobs[ids[k] as int]
            &&& now.timer.events.dom() == before.timer.events.dom()
            &&& match change(ids[k] as int) {
                Some((state, time)) => {
                    &&& next.jobs == now.jobs.update(ids[k] as int, state)
                    &&& match time {
                        Some(time) => next.timer == now.timer.moved(ids[k], time),
                        None => next.timer == now.timer,
                    }
                },
                None => next == now,
            }
        }),
{
    let id = ids[k];
    let then = ids.take(k);
    let later = ids.take(k + 1);
    let now = before.changed(only(then, change));
    let next = before.changed(only(later, change));
    assert(!then.contains(id)) by {
        if then.contains(id) {
            let m = choose|m: int| 0 <= m < then.len() && then[m] == id;
            assert(ids[m] == ids[k]);
        }
    }
    assert(later[k] == id);
    assert forall|job: i32| job != id implies then.contains(job) == later.contains(job) by {
        if later.contains(job) {
            let m = choose|m: int| 0 <= m < later.len() && later[m] == job;
            assert(then[m] == job);
        }
        if then.contains(job) {
            let m = choose|m: int| 0 <= m < then.len() && then[m] == job;
            assert(later[m] == job);
        }
    }
    assert forall|job: int|
        #![trigger change(job)]
        job != id implies only(then, change)(job) == only(later, change)(job) by {}
    assert(now.timer.events.dom() =~= before.timer.events.dom());
    match change(id as int) {
        Some((state, time)) => {
            assert(next.jobs =~= now.jobs.update(id as int, state));
            match time {
                Some(time) => {
                    let moved = now.timer.moved(id, time);
                    assert(next.timer.events =~= moved.events);
                    if next.timer.orderly {
                        assert(before.timer.events.contains_key(id));
                        assert(time.ordered());
                        assert forall|job: i32| #[trigger]
                            before.timer.events.contains_key(job) implies match (match only(
                            then,
                            change,
                        )(job as int) {
                            Some((state, time)) => time,
                            None => None,
                        }) {
                            Some(time) => time.ordered(),
                            None => true,
                        } by {
                            if job == id {
                                assert(only(then, change)(job as int) is None);
                            }
                        }
                    }
                    assert(next.timer.orderly == moved.orderly);
                },
                None => {
                    assert(next.timer.events =~= now.timer.events);
                    assert(next.timer.orderly == now.timer.orderly);
                },
            }
        },
        None => {
            assert(next.jobs =~= now.jobs);
            assert(next.timer.events =~= now.timer.events);
            assert(next.timer.orderly == now.timer.orderly);
        },
    }
}

/// A change of no job changes nothing.
pub(crate) proof fn lemma_changed_start<N: Scalar>(before: System<N>, change: Change<N>)
    ensures
        before.changed(only(Seq::empty(), change)) == before,
{
    let now = before.changed(only(Seq::empty(), change));
    assert(now.jobs =~= before.jobs);
    assert(now.timer.events =~= before.timer.events);
    assert(now.timer.orderly == before.timer.orderly);
}

/// A change of all jobs that it concerns is the whole change.
pub(crate) proof fn lemma_changed_end<N: Scalar>(before: System<N>, ids: Seq<i32>, change: Change<N>)
    requires
        forall|job: int|
            #![trigger change(job)]
            change(job) is Some ==> i32::MIN <= job <= i32::MAX && ids.contains(job as i32),
    ensures
        before.changed(only(ids, change)) == before.changed(change),
{
    let now = before.changed(only(ids, change));
    let end = before.changed(change);
    assert forall|job: int| only(ids, change)(job) == #[trigger] change(job) by {}
    assert(now.jobs =~= end.jobs);
    assert(now.timer.events =~= end.timer.events);
    assert(now.timer.orderly == end.timer.orderly);
}

impl<N: Scalar> ClusterModel<N> {
    /// The active jobs, in the order in which the servers name them first.
    pub open spec fn active_ids(self) -> Seq<i32> {
        distinct(joined(self.active_jobs))
    }
}

/// The list of the active jobs names each of them once, and no other job.
pub(crate) proof fn lemma_active_ids<N: Scalar>(cluster: ClusterModel<N>, jobs: nat)
    requires
        cluster.knows_jobs(jobs),
    ensures
        cluster.active_ids().no_duplicates(),
        forall|job: int|
            #[trigger] cluster.active(job) ==> 0 <= job < jobs && job <= i32::MAX
                && cluster.active_ids().contains(job as i32),
        forall|k: int|
            0 <= k < cluster.active_ids().len() ==> 0 <= #[trigger] cluster.active_ids()[k] < jobs
                && cluster.active(cluster.active_ids()[k] as int),
{
    let ids = cluster.active_ids();
    let all = joined(cluster.active_jobs);
    lemma_distinct(all);
    assert forall|job: int| #[trigger] cluster.active(job) implies 0 <= job < jobs && job
        <= i32::MAX && ids.contains(job as i32) by {
        let server = choose|server: int| cluster.runs(server, job);
        lemma_joined(cluster.active_jobs, job as i32);
        assert(cluster.active_jobs[server].contains(job as i32));
        let k = choose|k: int|
            0 <= k < cluster.active_jobs[server].len() && cluster.active_jobs[server][k]
                == job as i32;
        assert(0 <= cluster.active_jobs[server][k] < jobs);
    }
    assert forall|k: int| 0 <= k < ids.len() implies 0 <= #[trigger] ids[k] < jobs
        && cluster.active(ids[k] as int) by {
        assert(ids.contains(ids[k]));
        assert(all.contains(ids[k]));
        lemma_joined(cluster.active_jobs, ids[k]);
        let server = choose|server: int|
            0 <= server < cluster.active_jobs.len() && (
            #[trigger] cluster.active_jobs[server]).contains(ids[k]);
        assert(cluster.runs(server, ids[k] as int));
        let m = choose|m: int|
            0 <= m < cluster.active_jobs[server].len() && cluster.active_jobs[server][m] == ids[k];
        assert(0 <= cluster.active_jobs[server][m] < jobs);
    }
}

impl<N: Scalar> GpuJob<N> {
    /// The slowdown of the job's network on a server.
    pub fn network_slowdown_on(&self, asked: N, guaranteed: N, server: i32) -> (result: N)
        ensures
            result == self@.slowdown_on(asked, guaranteed, server),
    {
        let using: N = match self.using_bandwidths.get(&server) {
            Some(used) => *used,
            None => N::of_int(0),
        };
        asked.over(max_of(using, guaranteed))
    }

    /// Takes the job's progress and goes on under a contention factor. Returns
    /// when the job will be done.
    fn pace(&mut self, overlap: N, factor: N, current_time: N) -> (end: Option<N>)
        ensures
            final(self)@ == old(self)@.paced(overlap, factor, current_time),
            end == old(self)@.paced_end(overlap, factor, current_time),
    {
        let ghost before = self@;
        let last_factor: N = or_else(self.last_network_factor, N::of_int(1));
        let elapsed_time: N = if self.remaining_train_time.is_none() {
            N::of_int(0)
        } else {
            current_time.minus(or_else(self.last_change_time, current_time))
        };
        if self.remaining_train_time.is_some() {
            let iteration: N = iteration_time_of(
                overlap,
                self.iteration_computing_time,
                self.iteration_networking_time.times(last_factor),
            );
            let new_completed: N = or_else(self.completed_iterations, N::of_int(0)).plus(
                elapsed_time.over(iteration),
            );
            self.completed_iterations = Some(min_of(new_completed, self.iteration_number));
        }
        assert(self@ == before.counted(overlap, current_time));
        let remaining_iterations: N = self.iteration_number.minus(
            or_else(self.completed_iterations, N::of_int(0)),
        );
        if !N::of_int(0).is_less(remaining_iterations) {
            return None;
        }
        let new_iteration: N = iteration_time_of(
            overlap,
            self.iteration_computing_time,
            self.iteration_networking_time.times(factor),
        );
        let remaining: N = remaining_iterations.times(new_iteration);
        let compute_ratio: N = self.iteration_computing_time.over(
            self.iteration_computing_time.plus(self.iteration_networking_time.times(last_factor)),
        );
        self.consume(elapsed_time, compute_ratio);
        self.remaining_train_time = Some(remaining);
        self.last_change_time = Some(current_time);
        self.last_network_factor = Some(factor);
        Some(current_time.plus(remaining))
    }

    /// Counts some time as consumed, a part of it by computing.
    pub fn consume(&mut self, elapsed: N, part: N)
        ensures
            final(self)@ == old(self)@.consumed(elapsed, part),
    {
        self.training_time = raise(self.training_time, elapsed);
        self.consumed_compute_time = raise(self.consumed_compute_time, elapsed.times(part));
        self.consumed_comms_time = raise(
            self.consumed_comms_time,
            elapsed.times(N::of_int(1).minus(part)),
        );
    }
}

impl<N: Scalar> GPUCluster<N> {
    /// The largest slowdown of the job's network on its servers.
    fn network_contention(&self, job: &GpuJob<N>) -> (result: N)
        ensures
            result == self@.network_slowdown(job@),
    {
        let ghost model = self@;
        let ghost factor = |server: i32|
            job@.slowdown_on(model.capped_demand(job@, server), model.min_guaranteed_bw, server);
        let mut result: N = N::of_int(1);
        let mut i: usize = 0;
        assert(job@.allocated.take(0) =~= Seq::<i32>::empty());
        while i < job.allocated.len()
            invariant
                i <= job@.allocated.len(),
                model == self@,
                factor == (|server: i32|
                    job@.slowdown_on(
                        model.capped_demand(job@, server),
                        model.min_guaranteed_bw,
                        server,
                    )),
                result == worst(job@.allocated.take(i as int), factor),
            decreases job@.allocated.len() - i,
        {
            let server: i32 = job.allocated[i];
            assert(job@.allocated.take(i + 1).drop_last() =~= job@.allocated.take(i as int));
            let asked: N = self.required_bandwidth_capped(job, server);
            result = max_of(
                result,
                job.network_slowdown_on(asked, self.min_guaranteed_bw, server),
            );
            i += 1;
        }
        assert(job@.allocated.take(i as int) =~= job@.allocated);
        result
    }

    /// Whether one of some servers has several active jobs.
    fn is_shared(&self, servers: &Vec<i32>) -> (result: bool)
        requires
            self@.is_sized(),
            forall|server: i32| #[trigger] servers@.contains(server) ==> 0 <= server < self.servers,
        ensures
            result == self@.shared(servers@),
    {
        let mut i: usize = 0;
        while i < servers.len()
            invariant
                i <= servers@.len(),
                self@.is_sized(),
                forall|server: i32| #[trigger]
                    servers@.contains(server) ==> 0 <= server < self.servers,
                forall|j: int|
                    0 <= j < i ==> self@.active_jobs[#[trigger] servers@[j] as int].len() <= 1,
            decreases servers@.len() - i,
        {
            let server: i32 = servers[i];
            assert(servers@.contains(server));
            if self.active_jobs[server as usize].len() > 1 {
                assert(self@.active_jobs[server as int].len() > 1);
                return true;
            }
            assert(self@.active_jobs[server as int].len() <= 1);
            i += 1;
        }
        false
    }

    /// The contention factor of a job where iterations are not split.
    fn job_contention(&self, job: &GpuJob<N>) -> (result: N)
        requires
            self@.is_sized(),
            job@.is_placed_within(self.servers as int),
        ensures
            result == self@.job_slowdown(job@),
    {
        assert(job@.allocated == job.allocated@ && job@.ps_allocated == job.ps_allocated@);
        match self.interference_model {
            InterferenceModel::Fixed => {
                let shares_server: bool = self.is_shared(&job.allocated) || self.is_shared(
                    &job.ps_allocated,
                );
                if shares_server {
                    N::of_int(1).plus(or_else(self.interference_ratio, N::of_int(0)))
                } else {
                    N::of_int(1)
                }
            },
            InterferenceModel::Comms => self.network_contention(job),
            _ => N::of_int(1),
        }
    }

    /// The active jobs.
    pub fn active_job_ids(&self) -> (result: Vec<i32>)
        ensures
            result@ == self@.active_ids(),
    {
        distinct_of_all(&self.active_jobs)
    }

    /// Takes the progress of the active jobs, where iterations are not split.
    pub(crate) fn update_completion_times_job_model(
        &self,
        current_time: N,
        jobs: &mut Vec<GpuJob<N>>,
        timer: &mut Timer<N>,
    )
        requires
            (System { cluster: self@, jobs: arena(old(jobs)@), timer: old(timer)@ }).is_sound(),
            old(timer).wf(),
        ensures
            final(timer).wf(),
            ({
                let before = System {
                    cluster: self@,
                    jobs: arena(old(jobs)@),
                    timer: old(timer)@,
                };
                (System { cluster: self@, jobs: arena(final(jobs)@), timer: final(timer)@ })
                    == before.changed(before.job_pace(current_time))
            }),
    {
        let ghost before = System { cluster: self@, jobs: arena(jobs@), timer: timer@ };
        let ghost change = before.job_pace(current_time);
        let ids: Vec<i32> = self.active_job_ids();
        let mut k: usize = 0;
        proof {
            lemma_active_ids(self@, before.jobs.len());
            lemma_changed_start(before, change);
            assert(ids@.take(0) =~= Seq::<i32>::empty());
        }
        while k < ids.len()
            invariant
                k <= ids@.len(),
                ids@ == before.cluster.active_ids(),
                before.cluster == self@,
                before.is_sound(),
                change == before.job_pace(current_time),
                ids@.no_duplicates(),
                forall|i: int|
                    0 <= i < ids@.len() ==> 0 <= #[trigger] ids@[i] < before.jobs.len()
                        && before.cluster.active(ids@[i] as int),
                timer.wf(),
                arena(jobs@) == before.changed(only(ids@.take(k as int), change)).jobs,
                timer@ == before.changed(only(ids@.take(k as int), change)).timer,
            decreases ids@.len() - k,
        {
            let job_id: i32 = ids[k];
            let ghost now = before.changed(only(ids@.take(k as int), change));
            proof {
                assert(before.cluster.active(ids@[k as int] as int));
                lemma_changed_step(before, ids@, k as int, change);
                assert(arena(jobs@).len() == jobs@.len());
                assert(arena(jobs@)[job_id as int] == jobs@[job_id as int]@);
                assert(before.jobs[job_id as int].is_placed_within(self.servers as int));
            }
            if jobs[job_id as usize].training_time.is_some() {
                let ghost old_jobs = jobs@;
                let factor: N = self.job_contention(&jobs[job_id as usize]);
                let end: Option<N> = jobs[job_id as usize].pace(
                    self.overlapping_ratio,
                    factor,
                    current_time,
                );
                proof {
                    assert(arena(jobs@) =~= arena(old_jobs).update(
                        job_id as int,
                        jobs@[job_id as int]@,
                    ));
                    assert(timer@.events.dom().contains(job_id));
                }
                match end {
                    Some(time) => {
                        timer.update_job_time(job_id, time);
                    },
                    None => {},
                }
            }
            k += 1;
        }
        proof {
            assert(ids@.take(k as int) =~= ids@);
            lemma_changed_end(before, ids@, change);
        }
    }
}

impl<N: Scalar> GPUCluster<N> {
    /// The bandwidth that the communicating jobs ask of a server's network.
    fn total_comm_demand(&self, server: i32, jobs: &Vec<GpuJob<N>>) -> (result: N)
        requires
            self@.is_sized(),
            self@.knows_jobs(jobs@.len()),
            0 <= server < self.servers,
        ensures
            result == self@.comm_demand(arena(jobs@), server),
    {
        let ghost model = self@;
        let ghost states = arena(jobs@);
        let ghost ids = model.active_jobs[server as int];
        let ghost amount = |job: i32|
            if states[job as int].is_in_comm_phase {
                Some(model.capped_demand(states[job as int], server))
            } else {
                None
            };
        let mut result: N = N::of_int(0);
        let mut k: usize = 0;
        assert(ids.take(0) =~= Seq::<i32>::empty());
        while k < self.active_jobs[server as usize].len()
            invariant
                k <= ids.len(),
                0 <= server < self.active_jobs@.len(),
                ids == self.active_jobs@[server as int]@,
                model == self@,
                model.knows_jobs(jobs@.len()),
                states == arena(jobs@),
                ids == model.active_jobs[server as int],
                amount == (|job: i32|
                    if states[job as int].is_in_comm_phase {
                        Some(model.capped_demand(states[job as int], server))
                    } else {
                        None
                    }),
                result == added_up(ids.take(k as int), amount),
            decreases ids.len() - k,
        {
            let job_id: i32 = self.active_jobs[server as usize][k];
            proof {
                assert(model.active_jobs[server as int][k as int] == job_id);
                assert(ids.take(k + 1).drop_last() =~= ids.take(k as int));
                assert(states[job_id as int] == jobs@[job_id as int]@);
            }
            let other = &jobs[job_id as usize];
            if other.is_in_comm_phase {
                result = result.plus(self.required_bandwidth_capped(other, server));
            }
            k += 1;
        }
        assert(ids.take(k as int) =~= ids);
        result
    }

    /// The bandwidth that the communicating jobs ask inside a server.
    fn total_intra_demand(&self, server: i32, jobs: &Vec<GpuJob<N>>) -> (result: N)
        requires
            self@.is_sized(),
            self@.knows_jobs(jobs@.len()),
            0 <= server < self.servers,
        ensures
            result == self@.comm_demand_inside(arena(jobs@), server),
    {
        let ghost model = self@;
        let ghost states = arena(jobs@);
        let ghost ids = model.active_jobs[server as int];
        let ghost amount = |job: i32|
            if states[job as int].is_in_comm_phase {
                Some(states[job as int].intra_demand(server))
            } else {
                None
            };
        let mut result: N = N::of_int(0);
        let mut k: usize = 0;
        assert(ids.take(0) =~= Seq::<i32>::empty());
        while k < self.active_jobs[server as usize].len()
            invariant
                k <= ids.len(),
                0 <= server < self.active_jobs@.len(),
                ids == self.active_jobs@[server as int]@,
                model == self@,
                model.knows_jobs(jobs@.len()),
                states == arena(jobs@),
                ids == model.active_jobs[server as int],
                amount == (|job: i32|
                    if states[job as int].is_in_comm_phase {
                        Some(states[job as int].intra_demand(server))
                    } else {
                        None
                    }),
                result == added_up(ids.take(k as int), amount),
            decreases ids.len() - k,
        {
            let job_id: i32 = self.active_jobs[server as usize][k];
            proof {
                assert(model.active_jobs[server as int][k as int] == job_id);
                assert(ids.take(k + 1).drop_last() =~= ids.take(k as int));
                assert(states[job_id as int] == jobs@[job_id as int]@);
            }
            let other = &jobs[job_id as usize];
            if other.is_in_comm_phase {
                result = result.plus(other.required_intra_bandwidth_per_server(server));
            }
            k += 1;
        }
        assert(ids.take(k as int) =~= ids);
        result
    }

    /// The slowdown of a job on a server, between servers or inside it.
    fn server_contention(&self, job_id: i32, server: i32, jobs: &Vec<GpuJob<N>>) -> (result: N)
        requires
            self@.is_sized(),
            self@.knows_jobs(jobs@.len()),
            0 <= server < self.servers,
            0 <= job_id < jobs@.len(),
        ensures
            result == self@.server_slowdown(arena(jobs@), job_id as int, server),
    {
        let job = &jobs[job_id as usize];
        assert(arena(jobs@)[job_id as int] == job@);
        // Between servers
        let inter_contention: N = if self.contention_model_mm1 {
            let total: N = self.total_comm_demand(server, jobs);
            let rho: N = total.over(self.bandwidth_per_server);
            let rho_clamped: N = min_of(rho, N::of_int(1).minus(self.mm1_epsilon));
            N::of_int(1).over(N::of_int(1).minus(rho_clamped))
        } else {
            let asked: N = self.required_bandwidth_capped(job, server);
            job.network_slowdown_on(asked, self.min_guaranteed_bw, server)
        };
        // Inside the server
        let total_inside: N = self.total_intra_demand(server, jobs);
        let available: N = self.intra_bandwidths[server as usize];
        let intra_contention: N = if available.is_less(total_inside) {
            total_inside.over(available)
        } else {
            N::of_int(1)
        };
        max_of(inter_contention, intra_contention)
    }

    /// The largest slowdown of a job on its servers, between servers or inside one.
    fn intra_contention(&self, job_id: i32, jobs: &Vec<GpuJob<N>>) -> (result: N)
        requires
            self@.is_sized(),
            self@.knows_jobs(jobs@.len()),
            0 <= job_id < jobs@.len(),
            jobs@[job_id as int]@.is_placed_within(self.servers as int),
        ensures
            result == worst(
                distinct(arena(jobs@)[job_id as int].allocated),
                |server: i32| self@.server_slowdown(arena(jobs@), job_id as int, server),
            ),
    {
        let ghost model = self@;
        let ghost states = arena(jobs@);
        let ghost factor = |server: i32| model.server_slowdown(states, job_id as int, server);
        let servers: Vec<i32> = distinct_of(&jobs[job_id as usize].allocated);
        let mut result: N = N::of_int(1);
        let mut i: usize = 0;
        proof {
            assert(states[job_id as int].allocated == jobs@[job_id as int].allocated@);
            lemma_distinct(states[job_id as int].allocated);
            assert(servers@.take(0) =~= Seq::<i32>::empty());
        }
        while i < servers.len()
            invariant
                i <= servers@.len(),
                model == self@,
                states == arena(jobs@),
                self@.is_sized(),
                self@.knows_jobs(jobs@.len()),
                0 <= job_id < jobs@.len(),
                states[job_id as int].is_placed_within(self.servers as int),
                forall|server: i32|
                    servers@.contains(server) <==> states[job_id as int].allocated.contains(server),
                factor == (|server: i32| model.server_slowdown(states, job_id as int, server)),
                result == worst(servers@.take(i as int), factor),
            decreases servers@.len() - i,
        {
            let server: i32 = servers[i];
            proof {
                assert(servers@.contains(server));
                assert(servers@.take(i + 1).drop_last() =~= servers@.take(i as int));
            }
            result = max_of(result, self.server_contention(job_id, server, jobs));
            i += 1;
        }
        assert(servers@.take(i as int) =~= servers@);
        result
    }

    /// The contention factor of a job where iterations are split.
    fn phase_contention(&self, job_id: i32, jobs: &Vec<GpuJob<N>>) -> (result: N)
        requires
            self@.is_sized(),
            self@.knows_jobs(jobs@.len()),
            0 <= job_id < jobs@.len(),
            jobs@[job_id as int]@.is_placed_within(self.servers as int),
        ensures
            result == self@.phase_slowdown(arena(jobs@), job_id as int),
    {
        if self.interference_model.is_intra_model() {
            let raw_factor: N = self.intra_contention(job_id, jobs);
            self.damp_contention_factor(self.apply_hol_blocking(raw_factor))
        } else {
            assert(arena(jobs@)[job_id as int] == jobs@[job_id as int]@);
            let raw_factor: N = self.network_contention(&jobs[job_id as usize]);
            self.apply_hol_blocking(raw_factor)
        }
    }

    /// The active jobs that communicate, and the contention factor of each.
    fn communicating_jobs(&self, jobs: &Vec<GpuJob<N>>, Ghost(before): Ghost<System<N>>) -> (result:
        (Vec<i32>, Vec<N>))
        requires
            before.cluster == self@,
            before.jobs == arena(jobs@),
            before.is_sound(),
        ensures
            result.0@.len() == result.1@.len(),
            result.0@.no_duplicates(),
            forall|job: int| #[trigger]
                before.communicates(job) ==> job <= i32::MAX && result.0@.contains(job as i32),
            forall|k: int|
                0 <= k < result.0@.len() ==> before.communicates(#[trigger] result.0@[k] as int),
            forall|k: int|
                0 <= k < result.0@.len() ==> result.1@[k] == before.cluster.phase_slowdown(
                    before.jobs,
                    #[trigger] result.0@[k] as int,
                ),
    {
        let ids: Vec<i32> = self.active_job_ids();
        let mut found: Vec<i32> = Vec::new();
        let mut factors: Vec<N> = Vec::new();
        let mut k: usize = 0;
        proof {
            lemma_active_ids(self@, before.jobs.len());
        }
        while k < ids.len()
            invariant
                k <= ids@.len(),
                before.cluster == self@,
                before.jobs == arena(jobs@),
                before.is_sound(),
                ids@.no_duplicates(),
                forall|i: int|
                    0 <= i < ids@.len() ==> 0 <= #[trigger] ids@[i] < before.jobs.len()
                        && before.cluster.active(ids@[i] as int),
                found@.len() == factors@.len(),
                found@.no_duplicates(),
                forall|i: int| 0 <= i < found@.len() ==> ids@.take(k as int).contains(#[trigger] found@[i]),
                forall|i: int|
                    0 <= i < k && before.communicates(#[trigger] ids@[i] as int)
                        ==> found@.contains(ids@[i]),
                forall|i: int|
                    0 <= i < found@.len() ==> before.communicates(#[trigger] found@[i] as int),
                forall|i: int|
                    0 <= i < found@.len() ==> factors@[i] == before.cluster.phase_slowdown(
                        before.jobs,
                        #[trigger] found@[i] as int,
                    ),
            decreases ids@.len() - k,
        {
            let job_id: i32 = ids[k];
            let ghost then = found@;
            proof {
                assert(0 <= ids@[k as int] < before.jobs.len());
                assert(before.jobs[job_id as int] == jobs@[job_id as int]@);
                assert(before.jobs[job_id as int].is_placed_within(self.servers as int));
                if then.contains(job_id) {
                    let i = choose|i: int| 0 <= i < then.len() && then[i] == job_id;
                    assert(ids@.take(k as int).contains(then[i]));
                    let m = choose|m: int| 0 <= m < k && ids@.take(k as int)[m] == job_id;
                    assert(ids@[m] == ids@[k as int]);
                }
            }
            let job = &jobs[job_id as usize];
            if job.training_time.is_some() && job.is_in_comm_phase {
                let factor: N = self.phase_contention(job_id, jobs);
                found.push(job_id);
                factors.push(factor);
                assert(found@[then.len() as int] == job_id);
            }
            proof {
                assert forall|i: int| 0 <= i < found@.len() implies ids@.take(k + 1).contains(
                    #[trigger] found@[i],
                ) by {
                    if i < then.len() {
                        assert(ids@.take(k as int).contains(then[i]));
                        let m = choose|m: int| 0 <= m < k && ids@.take(k as int)[m] == then[i];
                        assert(ids@.take(k + 1)[m] == then[i]);
                    } else {
                        assert(ids@.take(k + 1)[k as int] == job_id);
                    }
                }
                assert forall|i: int|
                    0 <= i < k + 1 && before.communicates(#[trigger] ids@[i] as int) implies
                    found@.contains(ids@[i]) by {
                    if i < k {
                        assert(then.contains(ids@[i]));
                        let m = choose|m: int| 0 <= m < then.len() && then[m] == ids@[i];
                        assert(found@[m] == ids@[i]);
                    }
                }
            }
            k += 1;
        }
        proof {
            assert forall|job: int| #[trigger] before.communicates(job) implies job <= i32::MAX
                && found@.contains(job as i32) by {
                assert(before.cluster.active(job));
                assert(ids@.contains(job as i32));
                let i = choose|i: int| 0 <= i < ids@.len() && ids@[i] == job as i32;
                assert(before.communicates(ids@[i] as int));
            }
        }
        (found, factors)
    }

    /// Moves the ends of the communication phases, where iterations are split.
    pub(crate) fn update_completion_times_iter_model(
        &self,
        current_time: N,
        jobs: &mut Vec<GpuJob<N>>,
        timer: &mut Timer<N>,
    )
        requires
            (System { cluster: self@, jobs: arena(old(jobs)@), timer: old(timer)@ }).is_sound(),
            old(timer).wf(),
        ensures
            final(timer).wf(),
            ({
                let before = System {
                    cluster: self@,
                    jobs: arena(old(jobs)@),
                    timer: old(timer)@,
                };
                (System { cluster: self@, jobs: arena(final(jobs)@), timer: final(timer)@ })
                    == before.changed(before.phase_pace(current_time))
            }),
    {
        let ghost before = System { cluster: self@, jobs: arena(jobs@), timer: timer@ };
        let ghost change = before.phase_pace(current_time);
        let (ids, factors) = self.communicating_jobs(jobs, Ghost(before));
        let mut k: usize = 0;
        proof {
            lemma_changed_start(before, change);
            assert(ids@.take(0) =~= Seq::<i32>::empty());
        }
        while k < ids.len()
            invariant
                k <= ids@.len() == factors@.len(),
                before.cluster == self@,
                before.is_sound(),
                change == before.phase_pace(current_time),
                ids@.no_duplicates(),
                forall|i: int|
                    0 <= i < ids@.len() ==> before.communicates(#[trigger] ids@[i] as int),
                forall|i: int|
                    0 <= i < ids@.len() ==> factors@[i] == before.cluster.phase_slowdown(
                        before.jobs,
                        #[trigger] ids@[i] as int,
                    ),
                timer.wf(),
                arena(jobs@) == before.changed(only(ids@.take(k as int), change)).jobs,
                timer@ == before.changed(only(ids@.take(k as int), change)).timer,
            decreases ids@.len() - k,
        {
            let job_id: i32 = ids[k];
            let factor: N = factors[k];
            proof {
                assert(before.communicates(ids@[k as int] as int));
                assert(before.cluster.active(job_id as int));
                lemma_changed_step(before, ids@, k as int, change);
                assert(arena(jobs@).len() == jobs@.len());
                assert(arena(jobs@)[job_id as int] == jobs@[job_id as int]@);
            }
            let ghost old_jobs = jobs@;
            jobs[job_id as usize].update_comm_contention(current_time, factor);
            let remaining: N = jobs[job_id as usize].get_comm_remaining_original(current_time);
            let end: N = current_time.plus(remaining.times(factor));
            proof {
                assert(arena(jobs@) =~= arena(old_jobs).update(
                    job_id as int,
                    jobs@[job_id as int]@,
                ));
                assert(timer@.events.dom().contains(job_id));
            }
            timer.update_job_time(job_id, end);
            k += 1;
        }
        proof {
            assert(ids@.take(k as int) =~= ids@);
            lemma_changed_end(before, ids@, change);
        }
    }
}

/// A contention factor is one at least: contention does not speed a job up.
pub proof fn contention_is_at_least_one<N: Scalar>(servers: Seq<i32>, factor: spec_fn(i32) -> N)
    requires
        one::<N>().ordered(),
    ensures
        no_more(one(), worst(servers, factor)),
    decreases servers.len(),
{
    if servers.len() > 0 {
        contention_is_at_least_one(servers.drop_last(), factor);
    }
}

/// No server of a job slows it down more than its contention factor says.
pub proof fn contention_covers_every_server<N: Scalar>(
    servers: Seq<i32>,
    factor: spec_fn(i32) -> N,
    server: i32,
)
    requires
        one::<N>().ordered(),
        servers.contains(server),
        factor(server).ordered(),
    ensures
        no_more(factor(server), worst(servers, factor)),
    decreases servers.len(),
{
    let rest = servers.drop_last();
    contention_is_at_least_one(rest, factor);
    if servers.last() != server {
        let i = choose|i: int| 0 <= i < servers.len() && servers[i] == server;
        assert(rest[i] == server);
        contention_covers_every_server(rest, factor, server);
    }
}

/// The largest of some finite factors and one, as real numbers: no factor is larger, and it
/// is one of them or one.
pub(crate) proof fn lemma_worst<N: Scalar>(
    servers: Seq<i32>,
    factor: spec_fn(i32) -> N,
    value: spec_fn(N) -> real,
    bound: real,
    error: real,
)
    requires
        rounds(value, bound, error),
        forall|i: int| 0 <= i < servers.len() ==> factor(#[trigger] servers[i]).finite(),
    ensures
        worst(servers, factor).finite(),
        value(worst(servers, factor)) >= 1real,
        forall|i: int|
            0 <= i < servers.len() ==> value(worst(servers, factor)) >= value(
                factor(#[trigger] servers[i]),
            ),
        value(worst(servers, factor)) == 1real || exists|i: int|
            0 <= i < servers.len() && value(worst(servers, factor)) == value(
                factor(#[trigger] servers[i]),
            ),
    decreases servers.len(),
{
    lemma_integer_value(value, 1, bound, error);
    if servers.len() > 0 {
        let rest = servers.drop_last();
        assert forall|i: int| 0 <= i < rest.len() implies factor(#[trigger] rest[i]).finite() by {
            assert(rest[i] == servers[i]);
        }
        lemma_worst(rest, factor, value, bound, error);
        let last = servers.len() - 1;
        assert(servers[last] == servers.last());
        assert(factor(servers[last]).finite());
        lemma_compared(value, worst(rest, factor), factor(servers.last()), bound, error);
        assert forall|i: int| 0 <= i < servers.len() implies value(worst(servers, factor)) >= value(
            factor(#[trigger] servers[i]),
        ) by {
            if i < last {
                assert(rest[i] == servers[i]);
            }
        }
        let top = value(worst(servers, factor));
        if top != 1real && top != value(factor(servers[last])) {
            let i = choose|i: int|
                0 <= i < rest.len() && value(worst(rest, factor)) == value(
                    factor(#[trigger] rest[i]),
                );
            assert(servers[i] == rest[i]);
        }
    }
}

/// What a job is given of a server's network: what it uses of it, and the guaranteed minimum at
/// least.
pub open spec fn bandwidth_given<N: Scalar>(
    cluster: ClusterModel<N>,
    job: JobModel<N>,
    server: i32,
    value: spec_fn(N) -> real,
) -> real {
    real_max(
        if job.using_bandwidths.contains_key(server) {
            value(job.using_bandwidths[server])
        } else {
            0real
        },
        value(cluster.min_guaranteed_bw),
    )
}

/// Whether what a job is given of a server's network, and an amount over it, are within bounds.
pub open spec fn given_rounds<N: Scalar>(
    cluster: ClusterModel<N>,
    job: JobModel<N>,
    asked: N,
    server: i32,
    value: spec_fn(N) -> real,
    bound: real,
) -> bool {
    &&& cluster.min_guaranteed_bw.finite()
    &&& value(cluster.min_guaranteed_bw) > 0real
    &&& job.using_bandwidths.contains_key(server) ==> job.using_bandwidths[server].finite()
    &&& asked.finite()
    &&& 0real <= value(asked) <= bound * bandwidth_given(cluster, job, server, value)
}

/// The slowdown of a job on a server is what it asks for over what it is given, up to
/// rounding.
pub proof fn slowdown_is_asked_over_given<N: Scalar>(
    cluster: ClusterModel<N>,
    job: JobModel<N>,
    asked: N,
    server: i32,
    value: spec_fn(N) -> real,
    bound: real,
    error: real,
)
    requires
        rounds(value, bound, error),
        given_rounds(cluster, job, asked, server, value, bound),
    ensures
        ({
            let slowdown = job.slowdown_on(asked, cluster.min_guaranteed_bw, server);
            let given = bandwidth_given(cluster, job, server, value);
            &&& slowdown.finite()
            &&& given > 0real
            &&& near(value(slowdown), value(asked) / given, error)
        }),
{
    let using = if job.using_bandwidths.contains_key(server) {
        job.using_bandwidths[server]
    } else {
        zero()
    };
    let given = bandwidth_given(cluster, job, server, value);
    lemma_integer_value(value, 0, bound, error);
    lemma_compared(value, using, cluster.min_guaranteed_bw, bound, error);
    let a = value(asked);
    assert(0real <= a / given <= bound) by (nonlinear_arith)
        requires
            given > 0real,
            0real <= a <= bound * given,
    ;
    lemma_quotient_near(
        value,
        asked,
        larger(using, cluster.min_guaranteed_bw),
        bound,
        error,
    );
}

/// Whether the bandwidth that a job asks of its servers, over what it is given there, is
/// within bounds.
pub open spec fn network_rounds<N: Scalar>(
    cluster: ClusterModel<N>,
    job: JobModel<N>,
    value: spec_fn(N) -> real,
    bound: real,
) -> bool {
    forall|server: i32| #[trigger]
        job.allocated.contains(server) ==> given_rounds(
            cluster,
            job,
            cluster.capped_demand(job, server),
            server,
            value,
            bound,
        )
}

/// What a job asks of a server's network over what it is given there.
pub open spec fn network_ratio<N: Scalar>(
    cluster: ClusterModel<N>,
    job: JobModel<N>,
    server: i32,
    value: spec_fn(N) -> real,
) -> real {
    value(cluster.capped_demand(job, server)) / bandwidth_given(cluster, job, server, value)
}

/// Where the model knows of contention between servers only, the contention factor of a job is
/// what it asks of one of its servers over what it is given there, and on no server is that
/// more, up to rounding; it is one at least.
pub proof fn contention_is_the_largest_network_ratio<N: Scalar>(
    cluster: ClusterModel<N>,
    jobs: Seq<JobModel<N>>,
    job: int,
    value: spec_fn(N) -> real,
    bound: real,
    error: real,
)
    requires
        rounds(value, bound, error),
        0 <= job < jobs.len(),
        network_rounds(cluster, jobs[job], value, bound),
    ensures
        ({
            let factor = match cluster.interference_model {
                InterferenceModel::Comms => cluster.job_slowdown(jobs[job]),
                _ => cluster.phase_slowdown(jobs, job),
            };
            cluster.interference_model is Comms || cluster.interference_model is CommsIter
                || cluster.interference_model is CommsIterLcm ==> {
                &&& factor.finite()
                &&& value(factor) >= 1real
                &&& forall|server: i32| #[trigger]
                    jobs[job].allocated.contains(server) ==> value(factor) >= network_ratio(
                        cluster,
                        jobs[job],
                        server,
                        value,
                    ) - error
                &&& value(factor) == 1real || exists|server: i32| #[trigger]
                    jobs[job].allocated.contains(server) && near(
                        value(factor),
                        network_ratio(cluster, jobs[job], server, value),
                        error,
                    )
            }
        }),
{
    let state = jobs[job];
    let servers = state.allocated;
    let factor = |server: i32|
        state.slowdown_on(cluster.capped_demand(state, server), cluster.min_guaranteed_bw, server);
    assert forall|i: int| 0 <= i < servers.len() implies factor(#[trigger] servers[i]).finite()
        && near(value(factor(servers[i])), network_ratio(cluster, state, servers[i], value), error)
        by {
        assert(servers.contains(servers[i]));
        slowdown_is_asked_over_given(
            cluster,
            state,
            cluster.capped_demand(state, servers[i]),
            servers[i],
            value,
            bound,
            error,
        );
    }
    lemma_worst(servers, factor, value, bound, error);
    let top = value(worst(servers, factor));
    assert(worst(servers, factor) == cluster.network_slowdown(state));
    assert forall|server: i32| #[trigger] servers.contains(server) implies top >= network_ratio(
        cluster,
        state,
        server,
        value,
    ) - error by {
        let i = choose|i: int| 0 <= i < servers.len() && servers[i] == server;
        assert(near(value(factor(servers[i])), network_ratio(cluster, state, servers[i], value), error));
    }
    if top != 1real {
        let i = choose|i: int| 0 <= i < servers.len() && top == value(factor(#[trigger] servers[i]));
        assert(servers.contains(servers[i]));
        assert(near(top, network_ratio(cluster, state, servers[i], value), error));
    }
}

/// A sum of amounts that some have, none of them negative, is near the exact one.
proof fn lemma_added_up_near<N: Scalar>(
    ids: Seq<i32>,
    amount: spec_fn(i32) -> Option<N>,
    exact: spec_fn(i32) -> real,
    value: spec_fn(N) -> real,
    bound: real,
    error: real,
)
    requires
        rounds(value, bound, error),
        forall|i: int|
            0 <= i < ids.len() ==> match amount(#[trigger] ids[i]) {
                Some(a) => a.finite() && value(a) >= 0real && exact(ids[i]) == value(a),
                None => exact(ids[i]) == 0real,
            },
        real_sum(ids, exact) + error * (ids.len() as real) <= bound,
    ensures
        added_up(ids, amount).finite(),
        near(value(added_up(ids, amount)), real_sum(ids, exact), error * (ids.len() as real)),
        real_sum(ids, exact) >= 0real,
        error * (ids.len() as real) >= 0real,
    decreases ids.len(),
{
    let n = ids.len() as real;
    lemma_integer_value(value, 0, bound, error);
    if ids.len() == 0 {
        assert(error * n == 0real) by (nonlinear_arith)
            requires
                n == 0real,
        ;
    } else {
        let rest = ids.drop_last();
        let m = rest.len() as real;
        assert(ids[ids.len() - 1] == ids.last());
        assert forall|i: int| 0 <= i < rest.len() implies match amount(#[trigger] rest[i]) {
            Some(a) => a.finite() && value(a) >= 0real && exact(rest[i]) == value(a),
            None => exact(rest[i]) == 0real,
        } by {
            assert(rest[i] == ids[i]);
        }
        assert(error * n == error * m + error && error * m >= 0real) by (nonlinear_arith)
            requires
                n == m + 1real,
                m >= 0real,
                error >= 0real,
        ;
        lemma_added_up_near(rest, amount, exact, value, bound, error);
        if let Some(a) = amount(ids.last()) {
            lemma_sum_near(value, added_up(rest, amount), a, bound, error);
        }
    }
}

/// What the jobs that communicate on a server ask inside it, exactly added up.
pub open spec fn asked_inside<N: Scalar>(
    cluster: ClusterModel<N>,
    jobs: Seq<JobModel<N>>,
    server: i32,
    value: spec_fn(N) -> real,
) -> real {
    real_sum(
        cluster.active_jobs[server as int],
        |id: i32|
            if jobs[id as int].is_in_comm_phase {
                value(jobs[id as int].intra_demand(server))
            } else {
                0real
            },
    )
}

/// Whether what is asked inside a server can be added up, and set against what there is, up
/// to rounding.
pub open spec fn inside_rounds<N: Scalar>(
    cluster: ClusterModel<N>,
    jobs: Seq<JobModel<N>>,
    server: i32,
    value: spec_fn(N) -> real,
    bound: real,
    error: real,
) -> bool {
    let ids = cluster.active_jobs[server as int];
    let available = cluster.intra_bandwidths[server as int];
    let most = asked_inside(cluster, jobs, server, value) + error * (ids.len() as real);
    &&& forall|k: int|
        0 <= k < ids.len() && jobs[#[trigger] ids[k] as int].is_in_comm_phase ==> jobs[ids[k]
            as int].intra_demand(server).finite() && value(jobs[ids[k] as int].intra_demand(server))
            >= 0real
    &&& available.finite()
    &&& value(available) > 0real
    &&& most <= bound
    &&& most <= bound * value(available)
}

/// What the jobs that communicate on a server ask inside it, over what there is.
pub open spec fn inside_ratio<N: Scalar>(
    cluster: ClusterModel<N>,
    jobs: Seq<JobModel<N>>,
    server: i32,
    value: spec_fn(N) -> real,
) -> real {
    asked_inside(cluster, jobs, server, value) / value(cluster.intra_bandwidths[server as int])
}

/// By how much the slowdown inside a server may be off.
pub open spec fn inside_error<N: Scalar>(
    cluster: ClusterModel<N>,
    server: i32,
    value: spec_fn(N) -> real,
    error: real,
) -> real {
    error + (error * (cluster.active_jobs[server as int].len() as real)) / value(
        cluster.intra_bandwidths[server as int],
    )
}

/// The slowdown inside a server is one where there is enough for all, and else what is asked
/// over what there is, up to rounding.
proof fn lemma_inside<N: Scalar>(
    cluster: ClusterModel<N>,
    jobs: Seq<JobModel<N>>,
    server: i32,
    value: spec_fn(N) -> real,
    bound: real,
    error: real,
)
    requires
        rounds(value, bound, error),
        inside_rounds(cluster, jobs, server, value, bound, error),
    ensures
        ({
            let slowdown = cluster.inside_slowdown(jobs, server);
            let ratio = inside_ratio(cluster, jobs, server, value);
            let off = inside_error(cluster, server, value, error);
            &&& slowdown.finite()
            &&& value(slowdown) >= 1real || near(value(slowdown), ratio, off)
            &&& value(slowdown) == 1real || near(value(slowdown), ratio, off)
            &&& real_max(1real, value(slowdown)) >= ratio - off
        }),
{
    let ids = cluster.active_jobs[server as int];
    let available = cluster.intra_bandwidths[server as int];
    let amount = |job: i32|
        if jobs[job as int].is_in_comm_phase {
            Some(jobs[job as int].intra_demand(server))
        } else {
            None
        };
    let exact = |id: i32|
        if jobs[id as int].is_in_comm_phase {
            value(jobs[id as int].intra_demand(server))
        } else {
            0real
        };
    let all = asked_inside(cluster, jobs, server, value);
    assert forall|i: int| 0 <= i < ids.len() implies match amount(#[trigger] ids[i]) {
        Some(a) => a.finite() && value(a) >= 0real && exact(ids[i]) == value(a),
        None => exact(ids[i]) == 0real,
    } by {
        assert(jobs[ids[i] as int].is_in_comm_phase || !jobs[ids[i] as int].is_in_comm_phase);
    }
    lemma_added_up_near(ids, amount, exact, value, bound, error);
    let asked = cluster.comm_demand_inside(jobs, server);
    assert(asked == added_up(ids, amount));
    lemma_compared(value, available, asked, bound, error);
    lemma_integer_value(value, 1, bound, error);
    let slack = error * (ids.len() as real);
    let v = value(asked);
    let a = value(available);
    let ratio = all / a;
    let off = slack / a;
    assert(off >= 0real && near(v / a, ratio, off)) by (nonlinear_arith)
        requires
            near(v, all, slack),
            a > 0real,
            slack >= 0real,
            ratio == all / a,
            off == slack / a,
    ;
    if v > a {
        assert(0real <= v / a <= bound) by (nonlinear_arith)
            requires
                v > a,
                a > 0real,
                v <= bound * a,
        ;
        lemma_quotient_near(value, asked, available, bound, error);
    } else {
        assert(v / a <= 1real) by (nonlinear_arith)
            requires
                v <= a,
                a > 0real,
        ;
    }
}

/// Whether the contention of a job can be reckoned up to rounding where the model looks inside
/// servers.
pub open spec fn contention_rounds<N: Scalar>(
    cluster: ClusterModel<N>,
    jobs: Seq<JobModel<N>>,
    job: int,
    value: spec_fn(N) -> real,
    bound: real,
    error: real,
) -> bool {
    &&& rounds(value, bound, error)
    &&& 0 <= job < jobs.len()
    &&& network_rounds(cluster, jobs[job], value, bound)
    &&& forall|server: i32| #[trigger]
        jobs[job].allocated.contains(server) ==> inside_rounds(
            cluster,
            jobs,
            server,
            value,
            bound,
            error,
        )
}

/// Where the model looks inside servers and contention is linear, the contention factor of a
/// job, as it is without damping, is the largest of these: one; what the job asks of one of its
/// servers over what it is given there; and what the communicating jobs on one of its
/// servers ask inside it over what there is. All of it up to rounding.
pub proof fn contention_is_the_largest_ratio<N: Scalar>(
    cluster: ClusterModel<N>,
    jobs: Seq<JobModel<N>>,
    job: int,
    value: spec_fn(N) -> real,
    bound: real,
    error: real,
)
    requires
        contention_rounds(cluster, jobs, job, value, bound, error),
        cluster.interference_model is CommsIterIntra
            || cluster.interference_model is CommsIterIntraLcm,
        !cluster.contention_model_mm1,
        cluster.comm_contention_fraction is None,
    ensures
        ({
            let factor = cluster.phase_slowdown(jobs, job);
            &&& factor.finite()
            &&& value(factor) >= 1real
            &&& forall|server: i32| #[trigger]
                jobs[job].allocated.contains(server) ==> {
                    &&& value(factor) >= network_ratio(cluster, jobs[job], server, value) - error
                    &&& value(factor) >= inside_ratio(cluster, jobs, server, value) - inside_error(
                        cluster,
                        server,
                        value,
                        error,
                    )
                }
            &&& value(factor) == 1real || exists|server: i32| #[trigger]
                jobs[job].allocated.contains(server) && {
                    ||| near(
                        value(factor),
                        network_ratio(cluster, jobs[job], server, value),
                        error,
                    )
                    ||| near(
                        value(factor),
                        inside_ratio(cluster, jobs, server, value),
                        inside_error(cluster, server, value, error),
                    )
                }
        }),
{
    let state = jobs[job];
    let servers = distinct(state.allocated);
    let factor = |server: i32| cluster.server_slowdown(jobs, job, server);
    lemma_distinct(state.allocated);
    assert forall|i: int| 0 <= i < servers.len() implies {
        let server = #[trigger] servers[i];
        let slowdown = factor(server);
        let network = network_ratio(cluster, state, server, value);
        let inside = inside_ratio(cluster, jobs, server, value);
        let off = inside_error(cluster, server, value, error);
        &&& state.allocated.contains(server)
        &&& slowdown.finite()
        &&& value(slowdown) >= network - error
        &&& real_max(1real, value(slowdown)) >= inside - off
        &&& value(slowdown) == 1real || near(value(slowdown), network, error) || near(
            value(slowdown),
            inside,
            off,
        )
    } by {
        let server = servers[i];
        assert(servers.contains(server));
        assert(state.allocated.contains(server));
        let asked = cluster.capped_demand(state, server);
        slowdown_is_asked_over_given(cluster, state, asked, server, value, bound, error);
        lemma_inside(cluster, jobs, server, value, bound, error);
        lemma_compared(
            value,
            state.slowdown_on(asked, cluster.min_guaranteed_bw, server),
            cluster.inside_slowdown(jobs, server),
            bound,
            error,
        );
    }
    lemma_worst(servers, factor, value, bound, error);
    let top = value(worst(servers, factor));
    assert(cluster.phase_slowdown(jobs, job) == worst(servers, factor));
    assert forall|server: i32| #[trigger] state.allocated.contains(server) implies {
        &&& top >= network_ratio(cluster, state, server, value) - error
        &&& top >= inside_ratio(cluster, jobs, server, value) - inside_error(
            cluster,
            server,
            value,
            error,
        )
    } by {
        assert(servers.contains(server));
        let i = choose|i: int| 0 <= i < servers.len() && servers[i] == server;
        assert(top >= value(factor(servers[i])));
    }
    if top != 1real {
        let i = choose|i: int| 0 <= i < servers.len() && top == value(factor(#[trigger] servers[i]));
        assert(state.allocated.contains(servers[i]));
    }
}

/// Damping comes last: a contention factor is that without damping, damped.
pub proof fn damping_comes_last<N: Scalar>(
    cluster: ClusterModel<N>,
    undamped: ClusterModel<N>,
    jobs: Seq<JobModel<N>>,
    job: int,
)
    requires
        undamped == (ClusterModel { comm_contention_fraction: None, ..cluster }),
        cluster.interference_model is CommsIterIntra
            || cluster.interference_model is CommsIterIntraLcm,
    ensures
        cluster.phase_slowdown(jobs, job) == cluster.damped(undamped.phase_slowdown(jobs, job)),
{
    let a = |server: i32| cluster.server_slowdown(jobs, job, server);
    let b = |server: i32| undamped.server_slowdown(jobs, job, server);
    assert forall|server: i32| #[trigger] a(server) == b(server) by {
        assert((|id: i32|
            if jobs[id as int].is_in_comm_phase {
                Some(cluster.capped_demand(jobs[id as int], server))
            } else {
                None
            }) =~= (|id: i32|
            if jobs[id as int].is_in_comm_phase {
                Some(undamped.capped_demand(jobs[id as int], server))
            } else {
                None
            }));
    }
    assert(a =~= b);
}

/// Where the jobs on a server ask for more than it gives out, each of them that communicates and
/// asks for anything there is slowed down: if they ask for a number of times the capacity, its
/// contention factor is that number at least, up to rounding. That is where its share is above
/// the guaranteed minimum, contention is linear and nothing is damped.
pub proof fn crowding_slows_every_job<N: Scalar>(
    cluster: ClusterModel<N>,
    jobs: Seq<JobModel<N>>,
    server: int,
    k: int,
    value: spec_fn(N) -> real,
    bound: real,
    error: real,
)
    requires
        shares_round(cluster, jobs, server, value, bound, error),
        0 <= k < cluster.active_jobs[server].len(),
        contention_rounds(
            cluster.with_bandwidth(jobs),
            cluster.jobs_with_bandwidth(jobs),
            cluster.active_jobs[server][k] as int,
            value,
            bound,
            error,
        ),
        cluster.interference_model is Comms || cluster.interference_model is CommsIter
            || cluster.interference_model is CommsIterIntra
            || cluster.interference_model is CommsIterLcm
            || cluster.interference_model is CommsIterIntraLcm,
        !cluster.contention_model_mm1,
        cluster.comm_contention_fraction is None,
        ({
            let id = cluster.active_jobs[server][k];
            let job = jobs[id as int];
            let slack = error * (cluster.active_jobs[server].len() as real);
            let all = exact_demand(cluster, jobs, server, value);
            &&& job.training_time is Some
            &&& job.is_in_comm_phase
            &&& job.allocated.contains(server as i32)
            &&& value(cluster.capped_demand(job, server as i32)) > 0real
            &&& bandwidth_got(cluster, jobs, server, id, value) >= value(cluster.min_guaranteed_bw)
            &&& all > slack
            &&& all - slack > value(cluster.network_capacity())
        }),
    ensures
        ({
            let id = cluster.active_jobs[server][k];
            let shared = cluster.with_bandwidth(jobs);
            let served = cluster.jobs_with_bandwidth(jobs);
            let factor = match cluster.interference_model {
                InterferenceModel::Comms => shared.job_slowdown(served[id as int]),
                _ => shared.phase_slowdown(served, id as int),
            };
            let slack = error * (cluster.active_jobs[server].len() as real);
            let all = exact_demand(cluster, jobs, server, value);
            let asked = value(cluster.capped_demand(jobs[id as int], server as i32));
            let off = slack * asked + error * ((asked + 1real) * (all + slack));
            &&& factor.finite()
            &&& (value(factor) + error) * (value(cluster.network_capacity()) + off / asked) >= all
        }),
{
    let id = cluster.active_jobs[server][k];
    let shared = cluster.with_bandwidth(jobs);
    let served = cluster.jobs_with_bandwidth(jobs);
    let job = jobs[id as int];
    let slack = error * (cluster.active_jobs[server].len() as real);
    let all = exact_demand(cluster, jobs, server, value);
    assert(0 <= cluster.active_jobs[server][k] < jobs.len());
    bandwidth_is_shared_in_proportion(cluster, jobs, server, k, value, bound, error);
    assert(cluster.runs(server, id as int)) by {
        assert(cluster.active_jobs[server].contains(id));
    }
    let asked = value(cluster.capped_demand(job, server as i32));
    let got = bandwidth_got(cluster, jobs, server, id, value);
    let after = served[id as int];
    assert(after.allocated == job.allocated);
    assert(after.demand(server as i32) == job.demand(server as i32));
    assert(shared.capped_demand(after, server as i32) == cluster.capped_demand(
        job,
        server as i32,
    ));
    assert(after.using_bandwidths.contains_key(server as i32));
    assert(after.allocated.contains(server as i32));
    assert(bandwidth_given(shared, after, server as i32, value) == got);
    let factor = match cluster.interference_model {
        InterferenceModel::Comms => shared.job_slowdown(after),
        _ => shared.phase_slowdown(served, id as int),
    };
    if cluster.interference_model is CommsIterIntra
        || cluster.interference_model is CommsIterIntraLcm {
        contention_is_the_largest_ratio(shared, served, id as int, value, bound, error);
    } else {
        contention_is_the_largest_network_ratio(shared, served, id as int, value, bound, error);
    }
    assert(value(factor) >= network_ratio(shared, after, server as i32, value) - error);
    let f = value(factor) + error;
    assert(got > 0real);
    assert(f * got >= asked) by (nonlinear_arith)
        requires
            f >= asked / got,
            got > 0real,
    ;
    let capacity = value(cluster.network_capacity());
    assert(slack >= 0real) by (nonlinear_arith)
        requires
            slack == error * (cluster.active_jobs[server].len() as real),
            error >= 0real,
            cluster.active_jobs[server].len() as real >= 0real,
    ;
    let off = slack * asked + error * ((asked + 1real) * (all + slack));
    assert(got * all <= asked * capacity + off);
    let rest = off / asked;
    assert(rest * asked == off) by (nonlinear_arith)
        requires
            rest == off / asked,
            asked > 0real,
    ;
    assert(f * (capacity + rest) >= all) by (nonlinear_arith)
        requires
            f * got >= asked,
            got * all <= asked * capacity + off,
            rest * asked == off,
            asked > 0real,
            all > 0real,
            f >= 1real,
    {
        assert(f * (got * all) >= asked * all) by (nonlinear_arith)
            requires
                f * got >= asked,
                all > 0real,
        ;
        assert(f * (got * all) <= f * (asked * (capacity + rest))) by (nonlinear_arith)
            requires
                got * all <= asked * capacity + off,
                rest * asked == off,
                f >= 1real,
        ;
        assert(asked * (f * (capacity + rest)) >= asked * all) by (nonlinear_arith)
            requires
                f * (got * all) >= asked * all,
                f * (got * all) <= f * (asked * (capacity + rest)),
        ;
    }
}

/// Where interference is fixed, a job that shares one of its servers with another is slowed down
/// by the given ratio, up to rounding, and one that does not is not. Where there is none, no
/// job is.
pub proof fn fixed_interference_needs_a_neighbour<N: Scalar>(
    cluster: ClusterModel<N>,
    job: JobModel<N>,
    value: spec_fn(N) -> real,
    bound: real,
    error: real,
)
    requires
        rounds(value, bound, error),
        cluster.interference_model is Fixed || cluster.interference_model is Absent,
        cluster.interference_ratio matches Some(ratio) ==> ratio.finite() && 0real <= value(ratio)
            && value(ratio) + 1real <= bound,
    ensures
        ({
            let factor = value(cluster.job_slowdown(job));
            let shares = exists|server: i32| #[trigger]
                cluster.active_jobs[server as int].len() > 1 && (job.allocated.contains(server)
                    || job.ps_allocated.contains(server));
            &&& cluster.interference_model is Absent || !shares ==> factor == 1real
            &&& cluster.interference_model is Fixed && shares ==> match cluster.interference_ratio {
                Some(ratio) => near(factor, 1real + value(ratio), error),
                None => factor == 1real,
            }
        }),
{
    lemma_integer_value(value, 0, bound, error);
    lemma_integer_value(value, 1, bound, error);
    lemma_sum_near(value, N::integer(1), N::integer(0), bound, error);
    if let Some(ratio) = cluster.interference_ratio {
        lemma_sum_near(value, N::integer(1), ratio, bound, error);
    }
    if cluster.shared(job.allocated) {
        let server = choose|server: i32| #[trigger]
            job.allocated.contains(server) && cluster.active_jobs[server as int].len() > 1;
        assert(cluster.active_jobs[server as int].len() > 1);
    }
    if cluster.shared(job.ps_allocated) {
        let server = choose|server: i32| #[trigger]
            job.ps_allocated.contains(server) && cluster.active_jobs[server as int].len() > 1;
        assert(cluster.active_jobs[server as int].len() > 1);
    }
}

/// A communication phase ends when what is left of it is done, each part of it stretched by the
/// contention factor, up to rounding. The event of a job that does not communicate stays
/// where it is.
pub proof fn contention_stretches_what_is_left<N: Scalar>(
    state: System<N>,
    job: i32,
    time: N,
    value: spec_fn(N) -> real,
    bound: real,
    error: real,
)
    requires
        rounds(value, bound, error),
        state.timer.events.contains_key(job),
        state.communicates(job as int) ==> {
            let before = state.jobs[job as int];
            let factor = state.cluster.phase_slowdown(state.jobs, job as int);
            let done = before.comm_phase_original_done.sum(before.segment_progress(time));
            &&& time.finite()
            &&& factor.finite()
            &&& value(factor) >= 1real
            &&& before.iteration_networking_time.finite()
            &&& done.finite()
            &&& 0real <= value(before.iteration_networking_time)
            &&& 0real <= value(done)
            &&& 0real <= value(time)
            &&& value(done) + value(before.iteration_networking_time) + 3real * error <= bound
            &&& value(time) + (value(before.comm_remaining(time)) + 5real * error) * value(factor)
                + error <= bound
        },
    ensures
        ({
            let after = state.changed(state.phase_pace(time));
            let before = state.jobs[job as int];
            let factor = state.cluster.phase_slowdown(state.jobs, job as int);
            &&& after.timer.events.contains_key(job)
            &&& after.timer.events[job].1 == state.timer.events[job].1
            &&& !state.communicates(job as int) ==> after.timer.events[job].0
                == state.timer.events[job].0
            &&& state.communicates(job as int) ==> near(
                value(after.timer.events[job].0),
                value(time) + value(before.comm_remaining(time)) * value(factor),
                5real * error * value(factor) + 2real * error,
            )
        }),
{
    if state.communicates(job as int) {
        let before = state.jobs[job as int];
        let factor = state.cluster.phase_slowdown(state.jobs, job as int);
        let f = value(factor);
        let updated = before.contention_updated(time, factor);
        let slack = error / f;
        assert(0real <= slack <= error && (0real + error) / f == slack && 0real / f == 0real)
            by (nonlinear_arith)
            requires
                slack == error / f,
                f >= 1real,
                error >= 0real,
        ;
        contention_change_slows_what_is_left(before, time, factor, time, value, bound, error);
        let left = value(before.comm_remaining(time));
        let rest = updated.comm_remaining(time);
        let r = value(rest);
        assert(near(r, left, 5real * error));
        assert(0real <= r * f <= (left + 5real * error) * f && near(r * f, left * f, 5real * error
            * f)) by (nonlinear_arith)
            requires
                near(r, left, 5real * error),
                0real <= r,
                f >= 1real,
        ;
        lemma_product_near(value, rest, factor, bound, error);
        lemma_sum_near(value, time, rest.product(factor), bound, error);
    }
}

/// The time that a job consumes goes into computing by the given part, and the rest of it into
/// communicating, up to rounding.
pub proof fn consumed_time_goes_by_parts<N: Scalar>(
    job: JobModel<N>,
    elapsed: N,
    part: N,
    value: spec_fn(N) -> real,
    bound: real,
    error: real,
)
    requires
        rounds(value, bound, error),
        elapsed.finite(),
        part.finite(),
        0real <= value(elapsed),
        0real <= value(part) <= 1real,
        job.training_time matches Some(training) && training.finite() && 0real <= value(training),
        job.consumed_compute_time matches Some(compute) && compute.finite() && 0real <= value(
            compute,
        ),
        job.consumed_comms_time matches Some(comms) && comms.finite() && 0real <= value(comms),
        value(job.training_time->0) + value(elapsed) <= bound,
        value(job.consumed_compute_time->0) + value(elapsed) + error <= bound,
        value(job.consumed_comms_time->0) + value(elapsed) * (1real + error) + error <= bound,
        value(elapsed) * (1real + error) <= bound,
    ensures
        ({
            let after = job.consumed(elapsed, part);
            let e = value(elapsed);
            let p = value(part);
            &&& after.training_time matches Some(training) && near(
                value(training),
                value(job.training_time->0) + e,
                error,
            )
            &&& after.consumed_compute_time matches Some(compute) && near(
                value(compute),
                value(job.consumed_compute_time->0) + e * p,
                2real * error,
            )
            &&& after.consumed_comms_time matches Some(comms) && near(
                value(comms),
                value(job.consumed_comms_time->0) + e * (1real - p),
                2real * error + e * error,
            )
        }),
{
    let e = value(elapsed);
    let p = value(part);
    lemma_integer_value(value, 1, bound, error);
    assert(0real <= e * p <= e) by (nonlinear_arith)
        requires
            0real <= p <= 1real,
            e >= 0real,
    ;
    lemma_sum_near(value, job.training_time->0, elapsed, bound, error);
    lemma_product_near(value, elapsed, part, bound, error);
    lemma_sum_near(value, job.consumed_compute_time->0, elapsed.product(part), bound, error);
    let rest = one::<N>().difference(part);
    lemma_difference_near(value, one::<N>(), part, bound, error);
    let r = value(rest);
    assert(-(e * error) <= e * r <= e * (1real + error) && near(
        e * r,
        e * (1real - p),
        e * error,
    )) by (nonlinear_arith)
        requires
            near(r, 1real - p, error),
            0real <= p <= 1real,
            e >= 0real,
            error >= 0real,
    ;
    assert(e * (1real + error) == e + e * error && e * error >= 0real) by (nonlinear_arith)
        requires
            e >= 0real,
            error >= 0real,
    ;
    lemma_product_near(value, elapsed, rest, bound, error);
    lemma_sum_near(value, job.consumed_comms_time->0, elapsed.product(rest), bound, error);
}

/// Where iterations are not split, a job has done as many more iterations since its progress was last
/// taken as the time since then holds at the pace of then, up to all of them and up to rounding. A
/// job that has just started has done none.
pub proof fn progress_goes_by_the_last_pace<N: Scalar>(
    job: JobModel<N>,
    overlap: N,
    factor: N,
    time: N,
    value: spec_fn(N) -> real,
    bound: real,
    error: real,
)
    requires
        rounds(value, bound, error),
        time.finite(),
        job.iteration_number.finite(),
        job.remaining_train_time is Some,
        job.last_change_time matches Some(last) && last.finite() && -bound <= value(time) - value(
            last,
        ) <= bound,
        job.completed_iterations matches Some(done) && done.finite(),
        ({
            let pace = iteration_time(
                overlap,
                job.iteration_computing_time,
                job.iteration_networking_time.product(value_or(job.last_network_factor, one())),
            );
            let passed = value(time) - value(job.last_change_time->0);
            let done = value(job.completed_iterations->0);
            &&& pace.finite()
            &&& value(pace) > 0real
            &&& 0real <= passed
            &&& 0real <= done
            &&& done + (passed + error) / value(pace) + error <= bound
            &&& error / value(pace) + error <= bound
        }),
    ensures
        ({
            let pace = iteration_time(
                overlap,
                job.iteration_computing_time,
                job.iteration_networking_time.product(value_or(job.last_network_factor, one())),
            );
            let passed = value(time) - value(job.last_change_time->0);
            job.paced(overlap, factor, time).completed_iterations matches Some(done) && near(
                value(done),
                real_min(
                    value(job.completed_iterations->0) + passed / value(pace),
                    value(job.iteration_number),
                ),
                2real * error + error / value(pace),
            )
        }),
{
    let pace = iteration_time(
        overlap,
        job.iteration_computing_time,
        job.iteration_networking_time.product(value_or(job.last_network_factor, one())),
    );
    let last = job.last_change_time->0;
    let done = job.completed_iterations->0;
    let p = value(pace);
    let passed = value(time) - value(last);
    lemma_difference_near(value, time, last, bound, error);
    let elapsed = time.difference(last);
    let e = value(elapsed);
    let off = error / p;
    assert(-off <= e / p <= (passed + error) / p && near(e / p, passed / p, off) && off >= 0real)
        by (nonlinear_arith)
        requires
            near(e, passed, error),
            p > 0real,
            passed >= 0real,
            error >= 0real,
            off == error / p,
    ;
    lemma_quotient_near(value, elapsed, pace, bound, error);
    let more = elapsed.quotient(pace);
    lemma_sum_near(value, done, more, bound, error);
    lemma_compared(value, done.sum(more), job.iteration_number, bound, error);
}

/// Where iterations are not split, a job that is not done goes on to its end: what it has left is its
/// iterations left at the pace under the new contention factor, and its end is that time from
/// now. All of it up to rounding. The pace and the instant are kept for the next time.
pub proof fn the_end_follows_from_the_new_pace<N: Scalar>(
    job: JobModel<N>,
    overlap: N,
    factor: N,
    time: N,
    value: spec_fn(N) -> real,
    bound: real,
    error: real,
)
    requires
        rounds(value, bound, error),
        time.finite(),
        0real <= value(time),
        job.iteration_number.finite(),
        ({
            let after = job.paced(overlap, factor, time);
            let pace = iteration_time(
                overlap,
                job.iteration_computing_time,
                job.iteration_networking_time.product(factor),
            );
            let left = value(job.iteration_number) - value(
                value_or(after.completed_iterations, zero()),
            );
            &&& value_or(after.completed_iterations, zero()).finite()
            &&& pace.finite()
            &&& value(pace) >= 0real
            &&& left > error
            &&& left <= bound
            &&& value(time) + (left + error) * value(pace) + error <= bound
        }),
    ensures
        ({
            let after = job.paced(overlap, factor, time);
            let pace = iteration_time(
                overlap,
                job.iteration_computing_time,
                job.iteration_networking_time.product(factor),
            );
            let left = value(job.iteration_number) - value(
                value_or(after.completed_iterations, zero()),
            );
            &&& after.remaining_train_time matches Some(rest) && near(
                value(rest),
                left * value(pace),
                error * value(pace) + error,
            )
            &&& after.last_change_time == Some(time)
            &&& after.last_network_factor == Some(factor)
            &&& job.paced_end(overlap, factor, time) matches Some(end) && near(
                value(end),
                value(time) + left * value(pace),
                error * value(pace) + 2real * error,
            )
        }),
{
    let counted = job.counted(overlap, time);
    let after = job.paced(overlap, factor, time);
    let done = value_or(after.completed_iterations, zero());
    assert(value_or(counted.completed_iterations, zero()) == done);
    let pace = iteration_time(
        overlap,
        job.iteration_computing_time,
        job.iteration_networking_time.product(factor),
    );
    let left = value(job.iteration_number) - value(done);
    let p = value(pace);
    lemma_integer_value(value, 0, bound, error);
    lemma_difference_near(value, job.iteration_number, done, bound, error);
    let rest = job.iteration_number.difference(done);
    lemma_compared(value, N::integer(0), rest, bound, error);
    let r = value(rest);
    assert(0real <= r * p <= (left + error) * p && near(r * p, left * p, error * p))
        by (nonlinear_arith)
        requires
            near(r, left, error),
            r >= 0real,
            p >= 0real,
    ;
    lemma_product_near(value, rest, pace, bound, error);
    lemma_sum_near(value, time, rest.product(pace), bound, error);
}

/// The event of a job that trains, where iterations are not split, is moved to its end; that of
/// one that does not train stays where it is.
pub proof fn ends_move_with_the_pace<N: Scalar>(state: System<N>, job: i32, time: N)
    requires
        state.timer.events.contains_key(job),
        0 <= job < state.jobs.len(),
    ensures
        ({
            let after = state.changed(state.job_pace(time));
            let before = state.jobs[job as int];
            let factor = state.cluster.job_slowdown(before);
            let overlap = state.cluster.overlapping_ratio;
            let goes_on = state.cluster.active(job as int) && before.training_time is Some;
            &&& after.timer.events.contains_key(job)
            &&& after.timer.events[job].1 == state.timer.events[job].1
            &&& goes_on ==> after.jobs[job as int] == before.paced(overlap, factor, time)
            &&& goes_on && before.paced_end(overlap, factor, time) is Some
                ==> after.timer.events[job].0 == before.paced_end(overlap, factor, time)->0
            &&& !goes_on || before.paced_end(overlap, factor, time) is None
                ==> after.timer.events[job].0 == state.timer.events[job].0
            &&& !goes_on ==> after.jobs[job as int] == before
        }),
{
}

/// What the jobs that communicate on a server ask of its network, exactly added up.
pub open spec fn asked_of_network<N: Scalar>(
    cluster: ClusterModel<N>,
    jobs: Seq<JobModel<N>>,
    server: i32,
    value: spec_fn(N) -> real,
) -> real {
    real_sum(
        cluster.active_jobs[server as int],
        |id: i32|
            if jobs[id as int].is_in_comm_phase {
                value(cluster.capped_demand(jobs[id as int], server))
            } else {
                0real
            },
    )
}

/// Under the M/M/1 model the network of a server slows its jobs down by one over the part of it that
/// is free, which is the given least part at least, up to rounding.
pub proof fn queueing_slows_by_what_is_free<N: Scalar>(
    cluster: ClusterModel<N>,
    jobs: Seq<JobModel<N>>,
    server: i32,
    value: spec_fn(N) -> real,
    bound: real,
    error: real,
)
    requires
        rounds(value, bound, error),
        forall|k: int|
            0 <= k < cluster.active_jobs[server as int].len()
                && jobs[#[trigger] cluster.active_jobs[server as int][k] as int].is_in_comm_phase ==> {
                let asked = cluster.capped_demand(
                    jobs[cluster.active_jobs[server as int][k] as int],
                    server,
                );
                asked.finite() && value(asked) >= 0real
            },
        cluster.bandwidth_per_server.finite(),
        value(cluster.bandwidth_per_server) > 0real,
        cluster.mm1_epsilon.finite(),
        value(cluster.mm1_epsilon) <= 1real,
        ({
            let slack = error * (cluster.active_jobs[server as int].len() as real);
            let most = asked_of_network(cluster, jobs, server, value) + slack;
            let off = 3real * error + slack / value(cluster.bandwidth_per_server);
            &&& most <= bound
            &&& most <= bound * value(cluster.bandwidth_per_server)
            &&& slack <= bound * value(cluster.bandwidth_per_server)
            &&& off < value(cluster.mm1_epsilon)
            &&& 1real <= bound * (value(cluster.mm1_epsilon) - off)
        }),
    ensures
        ({
            let slack = error * (cluster.active_jobs[server as int].len() as real);
            let off = 3real * error + slack / value(cluster.bandwidth_per_server);
            let load = asked_of_network(cluster, jobs, server, value) / value(
                cluster.bandwidth_per_server,
            );
            let free = 1real - real_min(load, 1real - value(cluster.mm1_epsilon));
            let slowdown = cluster.queueing_slowdown(jobs, server);
            &&& slowdown.finite()
            &&& (value(slowdown) + error) * (free + off) >= 1real
            &&& (value(slowdown) - error) * (free - off) <= 1real
        }),
{
    let ids = cluster.active_jobs[server as int];
    let amount = |job: i32|
        if jobs[job as int].is_in_comm_phase {
            Some(cluster.capped_demand(jobs[job as int], server))
        } else {
            None
        };
    let exact = |id: i32|
        if jobs[id as int].is_in_comm_phase {
            value(cluster.capped_demand(jobs[id as int], server))
        } else {
            0real
        };
    assert forall|i: int| 0 <= i < ids.len() implies match amount(#[trigger] ids[i]) {
        Some(a) => a.finite() && value(a) >= 0real && exact(ids[i]) == value(a),
        None => exact(ids[i]) == 0real,
    } by {
        assert(cluster.active_jobs[server as int][i] == ids[i]);
    }
    lemma_added_up_near(ids, amount, exact, value, bound, error);
    let asked = cluster.comm_demand(jobs, server);
    assert(asked == added_up(ids, amount));
    let all = asked_of_network(cluster, jobs, server, value);
    let slack = error * (ids.len() as real);
    let v = value(asked);
    let b = value(cluster.bandwidth_per_server);
    let part = slack / b;
    let load = all / b;
    assert(part >= 0real && near(v / b, load, part) && load >= 0real) by (nonlinear_arith)
        requires
            near(v, all, slack),
            b > 0real,
            slack >= 0real,
            all >= 0real,
            part == slack / b,
            load == all / b,
    ;
    assert(-bound <= v / b <= bound) by (nonlinear_arith)
        requires
            v <= bound * b,
            -slack <= v,
            slack <= bound * b,
            b > 0real,
    ;
    lemma_quotient_near(value, asked, cluster.bandwidth_per_server, bound, error);
    let rho = asked.quotient(cluster.bandwidth_per_server);
    lemma_integer_value(value, 1, bound, error);
    let e = value(cluster.mm1_epsilon);
    let highest = one::<N>().difference(cluster.mm1_epsilon);
    lemma_difference_near(value, one::<N>(), cluster.mm1_epsilon, bound, error);
    lemma_compared(value, rho, highest, bound, error);
    let used = smaller(rho, highest);
    let least = real_min(load, 1real - e);
    assert(near(value(used), least, 2real * error + part));
    lemma_difference_near(value, one::<N>(), used, bound, error);
    let left = one::<N>().difference(used);
    let y = value(left);
    let free = 1real - least;
    let off = 3real * error + part;
    assert(near(y, free, off));
    assert(free >= e);
    assert(y > 0real);
    assert(0real <= 1real / y <= bound) by (nonlinear_arith)
        requires
            y >= e - off,
            e - off > 0real,
            1real <= bound * (e - off),
            bound >= 0real,
    {
        assert(bound * (e - off) <= bound * y) by (nonlinear_arith)
            requires
                y >= e - off,
                bound >= 0real,
        ;
    }
    lemma_quotient_near(value, one::<N>(), left, bound, error);
    let q = value(one::<N>().quotient(left));
    let inverse = 1real / y;
    assert(inverse * y == 1real) by (nonlinear_arith)
        requires
            inverse == 1real / y,
            y > 0real,
    ;
    assert((q + error) * (free + off) >= 1real) by (nonlinear_arith)
        requires
            q + error >= inverse,
            inverse * y == 1real,
            y > 0real,
            free + off >= y,
            inverse >= 0real,
    {
        assert((q + error) * (free + off) >= inverse * (free + off)) by (nonlinear_arith)
            requires
                q + error >= inverse,
                free + off >= y,
                y > 0real,
        ;
        assert(inverse * (free + off) >= inverse * y) by (nonlinear_arith)
            requires
                free + off >= y,
                inverse >= 0real,
        ;
    }
    assert((q - error) * (free - off) <= 1real) by (nonlinear_arith)
        requires
            q - error <= inverse,
            inverse * y == 1real,
            y > 0real,
            0real < free - off <= y,
            inverse >= 0real,
    {
        assert((q - error) * (free - off) <= inverse * (free - off)) by (nonlinear_arith)
            requires
                q - error <= inverse,
                0real < free - off,
        ;
        assert(inverse * (free - off) <= inverse * y) by (nonlinear_arith)
            requires
                free - off <= y,
                inverse >= 0real,
        ;
    }
}

/// Under the M/M/1 model, where the model looks inside servers, the contention factor of a job, as it
/// is without damping, is the largest of one and the slowdowns of its servers' networks and
/// insides.
pub proof fn queueing_contention_is_the_largest_slowdown<N: Scalar>(
    cluster: ClusterModel<N>,
    jobs: Seq<JobModel<N>>,
    job: int,
    value: spec_fn(N) -> real,
    bound: real,
    error: real,
)
    requires
        rounds(value, bound, error),
        cluster.interference_model is CommsIterIntra
            || cluster.interference_model is CommsIterIntraLcm,
        cluster.contention_model_mm1,
        cluster.comm_contention_fraction is None,
        forall|server: i32| #[trigger]
            jobs[job].allocated.contains(server) ==> cluster.queueing_slowdown(
                jobs,
                server,
            ).finite() && inside_rounds(cluster, jobs, server, value, bound, error),
    ensures
        ({
            let factor = cluster.phase_slowdown(jobs, job);
            &&& factor.finite()
            &&& value(factor) >= 1real
            &&& forall|server: i32| #[trigger]
                jobs[job].allocated.contains(server) ==> {
                    &&& value(factor) >= value(cluster.queueing_slowdown(jobs, server))
                    &&& value(factor) >= inside_ratio(cluster, jobs, server, value) - inside_error(
                        cluster,
                        server,
                        value,
                        error,
                    )
                }
            &&& value(factor) == 1real || exists|server: i32| #[trigger]
                jobs[job].allocated.contains(server) && {
                    ||| value(factor) == value(cluster.queueing_slowdown(jobs, server))
                    ||| near(
                        value(factor),
                        inside_ratio(cluster, jobs, server, value),
                        inside_error(cluster, server, value, error),
                    )
                }
        }),
{
    let state = jobs[job];
    let servers = distinct(state.allocated);
    let factor = |server: i32| cluster.server_slowdown(jobs, job, server);
    lemma_distinct(state.allocated);
    assert forall|i: int| 0 <= i < servers.len() implies {
        let server = #[trigger] servers[i];
        let slowdown = factor(server);
        let inside = inside_ratio(cluster, jobs, server, value);
        let off = inside_error(cluster, server, value, error);
        &&& state.allocated.contains(server)
        &&& slowdown.finite()
        &&& value(slowdown) >= value(cluster.queueing_slowdown(jobs, server))
        &&& real_max(1real, value(slowdown)) >= inside - off
        &&& value(slowdown) == 1real || value(slowdown) == value(
            cluster.queueing_slowdown(jobs, server),
        ) || near(value(slowdown), inside, off)
    } by {
        let server = servers[i];
        assert(servers.contains(server));
        assert(state.allocated.contains(server));
        lemma_inside(cluster, jobs, server, value, bound, error);
        lemma_compared(
            value,
            cluster.queueing_slowdown(jobs, server),
            cluster.inside_slowdown(jobs, server),
            bound,
            error,
        );
    }
    lemma_worst(servers, factor, value, bound, error);
    let top = value(worst(servers, factor));
    assert(cluster.phase_slowdown(jobs, job) == worst(servers, factor));
    assert forall|server: i32| #[trigger] state.allocated.contains(server) implies {
        &&& top >= value(cluster.queueing_slowdown(jobs, server))
        &&& top >= inside_ratio(cluster, jobs, server, value) - inside_error(
            cluster,
            server,
            value,
            error,
        )
    } by {
        assert(servers.contains(server));
        let i = choose|i: int| 0 <= i < servers.len() && servers[i] == server;
        assert(top >= value(factor(servers[i])));
    }
    if top != 1real {
        let i = choose|i: int| 0 <= i < servers.len() && top == value(factor(#[trigger] servers[i]));
        assert(state.allocated.contains(servers[i]));
    }
}

} // verus!
