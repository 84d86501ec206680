//! The `corun-profile` model: the times of a job follow from the jobs that share its
//! servers.

use vstd::prelude::*;

use crate::corun::CorunModel;
use crate::gpu_cluster::{
    arena, iteration_time, iteration_time_of, ClusterModel, GPUCluster, System,
};
use crate::gpu_job::{value_or, GpuJob, JobModel, Phase};
use crate::lists::{distinct, distinct_of, lemma_distinct};
use crate::progress::{
    consumed_time_goes_by_parts, lemma_active_ids, lemma_changed_end, lemma_changed_start,
    lemma_changed_step, only, or_else, Change,
};
use crate::rounding::{
    lemma_compared, lemma_difference_near, lemma_integer_value, lemma_product_near,
    lemma_quotient_near, lemma_sum_near, near, real_min, rounds, stands_for,
};
use crate::scalar::{
    less, magnitude, magnitude_of, min_of, no_more, one, smaller, zero, Scalar,
};
use crate::timer::Timer;

verus! {

impl<N: Scalar> JobModel<N> {
    /// Whether the job trains and is not through.
    pub open spec fn trains(self) -> bool {
        self.training_time is Some && self.current_phase != Phase::Completed
    }

    /// The job with other iteration times.
    pub open spec fn with_times(self, times: (N, N)) -> JobModel<N> {
        JobModel {
            iteration_computing_time: times.0,
            iteration_networking_time: times.1,
            ..self
        }
    }

    /// The job with its progress under its present iteration times taken.
    pub open spec fn accounted(self, overlap: N, time: N) -> JobModel<N> {
        let iteration = iteration_time(
            overlap,
            self.iteration_computing_time,
            self.iteration_networking_time,
        );
        let part = if less(zero(), iteration) {
            self.iteration_computing_time.quotient(iteration)
        } else {
            zero()
        };
        let counted = if self.remaining_train_time is None || !less(zero(), iteration) {
            self
        } else {
            JobModel {
                completed_iterations: self.iterations_after(self.elapsed(time), iteration),
                ..self
            }
        };
        counted.consumed(self.elapsed(time), part)
    }

    /// The job with its progress taken, going on with other iteration times.
    pub open spec fn repaced(self, overlap: N, times: (N, N), time: N) -> JobModel<N> {
        let job = self.accounted(overlap, time).with_times(times);
        if !less(zero(), job.iterations_left()) {
            job
        } else {
            JobModel {
                remaining_train_time: Some(
                    job.iterations_left().product(iteration_time(overlap, times.0, times.1)),
                ),
                last_change_time: Some(time),
                last_network_factor: Some(one()),
                ..job
            }
        }
    }

    /// When the job will be done, going on with other iteration times.
    pub open spec fn repaced_end(self, overlap: N, times: (N, N), time: N) -> Option<N> {
        let job = self.accounted(overlap, time).with_times(times);
        if !less(zero(), job.iterations_left()) {
            None
        } else {
            Some(
                time.sum(
                    job.iterations_left().product(iteration_time(overlap, times.0, times.1)),
                ),
            )
        }
    }
}

impl<N: Scalar> CorunModel<N> {
    /// The iteration time of a job beside each of several others: the one with the
    /// slowest networking, the first of them where several are.
    pub open spec fn beside_all(self, job: JobModel<N>, others: Seq<i32>, jobs: Seq<JobModel<N>>) -> (
        N,
        N,
    )
        decreases others.len(),
    {
        if others.len() == 0 {
            self.alone(job)
        } else {
            let last = self.beside(job, jobs[others.last() as int]);
            let best = self.beside_all(job, others.drop_last(), jobs);
            if others.len() == 1 || less(best.1, last.1) {
                last
            } else {
                best
            }
        }
    }
}

/// The highest of some values, the first of them where several are; another where there is
/// none.
pub open spec fn highest<N: Scalar>(otherwise: N, items: Seq<i32>, value: spec_fn(i32) -> N) -> N
    decreases items.len(),
{
    if items.len() == 0 {
        otherwise
    } else {
        let best = highest(otherwise, items.drop_last(), value);
        if items.len() == 1 || less(best, value(items.last())) {
            value(items.last())
        } else {
            best
        }
    }
}

/// Whether another job trains.
pub open spec fn other_trains<N: Scalar>(jobs: Seq<JobModel<N>>, job: int) -> spec_fn(i32) -> bool {
    |other: i32| other != job && jobs[other as int].trains()
}

/// Whether another job is not through.
pub open spec fn other_remains<N: Scalar>(jobs: Seq<JobModel<N>>, job: int) -> spec_fn(
    i32,
) -> bool {
    |other: i32| other != job && jobs[other as int].current_phase != Phase::Completed
}

impl<N: Scalar> ClusterModel<N> {
    /// The jobs that train on a server beside a job.
    pub open spec fn training_beside(self, jobs: Seq<JobModel<N>>, job: int, server: i32) -> Seq<
        i32,
    > {
        distinct(self.active_jobs[server as int]).filter(other_trains(jobs, job))
    }

    /// The jobs that are on a server beside a job and not through.
    pub open spec fn loaded_beside(self, jobs: Seq<JobModel<N>>, job: int, server: i32) -> Seq<
        i32,
    > {
        distinct(self.active_jobs[server as int]).filter(other_remains(jobs, job))
    }

    /// The iteration time of a job as one of its servers has it.
    pub open spec fn times_on(self, jobs: Seq<JobModel<N>>, job: int, server: i32) -> (N, N) {
        self.corun_profile.beside_all(jobs[job], self.training_beside(jobs, job, server), jobs)
    }

    /// The longest iteration time of a job on some servers, the first of them where
    /// several are; that of the job alone where there is no server.
    pub open spec fn times_over(self, jobs: Seq<JobModel<N>>, job: int, servers: Seq<i32>) -> (N, N)
        decreases servers.len(),
    {
        if servers.len() == 0 {
            self.corun_profile.alone(jobs[job])
        } else {
            let overlap = self.overlapping_ratio;
            let last = self.times_on(jobs, job, servers.last());
            let best = self.times_over(jobs, job, servers.drop_last());
            if servers.len() == 1 || less(
                iteration_time(overlap, best.0, best.1),
                iteration_time(overlap, last.0, last.1),
            ) {
                last
            } else {
                best
            }
        }
    }

    /// The iteration time of a job under the present placement.
    pub open spec fn corun_times(self, jobs: Seq<JobModel<N>>, job: int) -> (N, N) {
        self.times_over(jobs, job, distinct(jobs[job].allocated))
    }

    /// The loading time of a job on a server: the longest beside any job there, and that of
    /// the job alone where there is none.
    pub open spec fn loading_on(self, jobs: Seq<JobModel<N>>, job: int, server: i32) -> N {
        highest(
            jobs[job].loading_time,
            self.loaded_beside(jobs, job, server),
            |other: i32| self.corun_profile.loading_beside(jobs[job], jobs[other as int]),
        )
    }

    /// The loading time of a job under the present placement: the longest on any of its
    /// servers, and that of the job alone where it has none.
    pub open spec fn corun_loading(self, jobs: Seq<JobModel<N>>, job: int) -> N {
        highest(
            jobs[job].loading_time,
            distinct(jobs[job].allocated),
            |server: i32| self.loading_on(jobs, job, server),
        )
    }
}

impl<N: Scalar> System<N> {
    /// The progress of the active jobs that train, going on with the times of the profile.
    pub open spec fn corun_pace(self, time: N) -> Change<N> {
        |job: int|
            if 0 <= job < self.jobs.len() && self.cluster.active(job) && self.jobs[job].trains() {
                let overlap = self.cluster.overlapping_ratio;
                let times = self.cluster.corun_times(self.jobs, job);
                Some(
                    (
                        self.jobs[job].repaced(overlap, times, time),
                        self.jobs[job].repaced_end(overlap, times, time),
                    ),
                )
            } else {
                None
            }
    }
}

impl<N: Scalar> GpuJob<N> {
    /// Takes the job's progress and goes on with other iteration times. Returns when
    /// the job will be done.
    fn repace(&mut self, overlap: N, times: (N, N), current_time: N) -> (end: Option<N>)
        ensures
            final(self)@ == old(self)@.repaced(overlap, times, current_time),
            end == old(self)@.repaced_end(overlap, times, current_time),
    {
        let ghost before = self@;
        let iteration: N = iteration_time_of(
            overlap,
            self.iteration_computing_time,
            self.iteration_networking_time,
        );
        let moves: bool = N::of_int(0).is_less(iteration);
        let elapsed_time: N = if self.remaining_train_time.is_none() {
            N::of_int(0)
        } else {
            current_time.minus(or_else(self.last_change_time, current_time))
        };
        if self.remaining_train_time.is_some() && moves {
            let new_completed: N = or_else(self.completed_iterations, N::of_int(0)).plus(
                elapsed_time.over(iteration),
            );
            self.completed_iterations = Some(min_of(new_completed, self.iteration_number));
        }
        let compute_share: N = if moves {
            self.iteration_computing_time.over(iteration)
        } else {
            N::of_int(0)
        };
        self.consume(elapsed_time, compute_share);
        assert(self@ == before.accounted(overlap, current_time));
        self.iteration_computing_time = times.0;
        self.iteration_networking_time = times.1;
        let remaining_iterations: N = self.iteration_number.minus(
            or_else(self.completed_iterations, N::of_int(0)),
        );
        if !N::of_int(0).is_less(remaining_iterations) {
            return None;
        }
        let remaining: N = remaining_iterations.times(iteration_time_of(overlap, times.0, times.1));
        self.remaining_train_time = Some(remaining);
        self.last_change_time = Some(current_time);
        self.last_network_factor = Some(N::of_int(1));
        Some(current_time.plus(remaining))
    }

    /// Takes other iteration times on. Returns whether they are other ones.
    fn set_times(&mut self, times: (N, N)) -> (changed: bool)
        ensures
            final(self)@ == old(self)@.with_times(times),
            changed == (less(
                zero(),
                magnitude(old(self)@.iteration_computing_time.difference(times.0)),
            ) || less(
                zero(),
                magnitude(old(self)@.iteration_networking_time.difference(times.1)),
            )),
    {
        let changed: bool = N::of_int(0).is_less(
            magnitude_of(self.iteration_computing_time.minus(times.0)),
        ) || N::of_int(0).is_less(magnitude_of(self.iteration_networking_time.minus(times.1)));
        self.iteration_computing_time = times.0;
        self.iteration_networking_time = times.1;
        changed
    }
}

impl<N: Scalar> GPUCluster<N> {
    /// The iteration time of a job as one of its servers has it.
    fn corun_iter_time_for_server(&self, job_id: i32, server: i32, jobs: &Vec<GpuJob<N>>) -> (result:
        (N, N))
        requires
            self@.is_sized(),
            self@.knows_jobs(jobs@.len()),
            0 <= server < self.servers,
            0 <= job_id < jobs@.len(),
        ensures
            result == self@.times_on(arena(jobs@), job_id as int, server),
    {
        let ghost model = self@;
        let ghost states = arena(jobs@);
        let ghost counts = other_trains(states, job_id as int);
        let others: Vec<i32> = distinct_of(&self.active_jobs[server as usize]);
        let mut best: (N, N) = self.corun_profile.times_alone(&jobs[job_id as usize]);
        let mut any: bool = false;
        let mut k: usize = 0;
        proof {
            reveal(Seq::filter);
            lemma_distinct(model.active_jobs[server as int]);
            assert(others@.take(0) =~= Seq::<i32>::empty());
            assert(states[job_id as int] == jobs@[job_id as int]@);
        }
        while k < others.len()
            invariant
                k <= others@.len(),
                model == self@,
                model.knows_jobs(jobs@.len()),
                states == arena(jobs@),
                0 <= server < model.active_jobs.len(),
                0 <= job_id < jobs@.len(),
                states[job_id as int] == jobs@[job_id as int]@,
                counts == other_trains(states, job_id as int),
                others@ == distinct(model.active_jobs[server as int]),
                forall|x: i32|
                    others@.contains(x) <==> model.active_jobs[server as int].contains(x),
                any == (others@.take(k as int).filter(counts).len() > 0),
                best == model.corun_profile.beside_all(
                    states[job_id as int],
                    others@.take(k as int).filter(counts),
                    states,
                ),
            decreases others@.len() - k,
        {
            let other: i32 = others[k];
            proof {
                assert(others@.contains(other));
                let m = choose|m: int|
                    0 <= m < model.active_jobs[server as int].len()
                        && model.active_jobs[server as int][m] == other;
                assert(0 <= model.active_jobs[server as int][m] < jobs@.len());
                assert(states[other as int] == jobs@[other as int]@);
                reveal(Seq::filter);
                assert(others@.take(k + 1).drop_last() =~= others@.take(k as int));
                assert(others@.take(k + 1).last() == other);
            }
            let other_job = &jobs[other as usize];
            if other != job_id && other_job.training_time.is_some() && other_job.current_phase
                != Phase::Completed {
                let times: (N, N) = self.corun_profile.times_beside(
                    &jobs[job_id as usize],
                    other_job,
                );
                proof {
                    let kept = others@.take(k as int).filter(counts);
                    assert(counts(other));
                    assert(others@.take(k + 1).filter(counts) == kept.push(other));
                    assert(kept.push(other).drop_last() =~= kept);
                }
                if !any || best.1.is_less(times.1) {
                    best = times;
                }
                any = true;
            } else {
                assert(!counts(other));
            }
            k += 1;
        }
        assert(others@.take(k as int) =~= others@);
        best
    }

    /// The iteration time of a job under the present placement: that of its slowest
    /// server.
    fn compute_corun_iteration_times(&self, job_id: i32, jobs: &Vec<GpuJob<N>>) -> (result: (N, N))
        requires
            self@.is_sized(),
            self@.knows_jobs(jobs@.len()),
            0 <= job_id < jobs@.len(),
            jobs@[job_id as int]@.is_placed_within(self.servers as int),
        ensures
            result == self@.corun_times(arena(jobs@), job_id as int),
    {
        let ghost model = self@;
        let ghost states = arena(jobs@);
        let servers: Vec<i32> = distinct_of(&jobs[job_id as usize].allocated);
        let mut best: (N, N) = self.corun_profile.times_alone(&jobs[job_id as usize]);
        let mut i: usize = 0;
        proof {
            assert(states[job_id as int] == jobs@[job_id as int]@);
            assert(states[job_id as int].allocated == jobs@[job_id as int].allocated@);
            lemma_distinct(states[job_id as int].allocated);
            assert(servers@.take(0) =~= Seq::<i32>::empty());
        }
        while i < servers.len()
            invariant
                i <= servers@.len(),
                model == self@,
                states == arena(jobs@),
                self@.is_sized(),
                self@.knows_jobs(jobs@.len()),
                0 <= job_id < jobs@.len(),
                states[job_id as int].is_placed_within(self.servers as int),
                forall|server: i32|
                    servers@.contains(server) <==> states[job_id as int].allocated.contains(server),
                best == model.times_over(states, job_id as int, servers@.take(i as int)),
            decreases servers@.len() - i,
        {
            let server: i32 = servers[i];
            proof {
                assert(servers@.contains(server));
                assert(servers@.take(i + 1).drop_last() =~= servers@.take(i as int));
            }
            let times: (N, N) = self.corun_iter_time_for_server(job_id, server, jobs);
            let slower: bool = i == 0 || iteration_time_of(
                self.overlapping_ratio,
                best.0,
                best.1,
            ).is_less(iteration_time_of(self.overlapping_ratio, times.0, times.1));
            if slower {
                best = times;
            }
            i += 1;
        }
        assert(servers@.take(i as int) =~= servers@);
        best
    }

    /// Takes the iteration times of a job from the profile. Returns whether they changed.
    pub(crate) fn refresh_corun_iter_times(&self, job_id: i32, jobs: &mut Vec<GpuJob<N>>) -> (changed:
        bool)
        requires
            self@.is_sized(),
            self@.knows_jobs(old(jobs)@.len()),
            0 <= job_id < old(jobs)@.len(),
            old(jobs)@[job_id as int]@.is_placed_within(self.servers as int),
            self@.corun_profile.solo_times(old(jobs)@[job_id as int]@) is Some,
        ensures
            ({
                let before = arena(old(jobs)@);
                let job = before[job_id as int];
                let times = self@.corun_times(before, job_id as int);
                &&& arena(final(jobs)@) == before.update(job_id as int, job.with_times(times))
                &&& changed == (less(
                    zero(),
                    magnitude(job.iteration_computing_time.difference(times.0)),
                ) || less(
                    zero(),
                    magnitude(job.iteration_networking_time.difference(times.1)),
                ))
            }),
    {
        let ghost old_jobs = jobs@;
        let times: (N, N) = self.compute_corun_iteration_times(job_id, jobs);
        let changed: bool = jobs[job_id as usize].set_times(times);
        assert(arena(jobs@) =~= arena(old_jobs).update(job_id as int, jobs@[job_id as int]@));
        changed
    }

    /// The loading time of a job on a server: the longest beside any job there, and that of
    /// the job alone where there is none.
    fn loading_time_on(&self, job_id: i32, server: i32, jobs: &Vec<GpuJob<N>>) -> (result: N)
        requires
            self@.is_sized(),
            self@.knows_jobs(jobs@.len()),
            0 <= server < self.servers,
            0 <= job_id < jobs@.len(),
        ensures
            result == self@.loading_on(arena(jobs@), job_id as int, server),
    {
        let ghost model = self@;
        let ghost states = arena(jobs@);
        let ghost counts = other_remains(states, job_id as int);
        let ghost value = |other: i32|
            model.corun_profile.loading_beside(states[job_id as int], states[other as int]);
        let others: Vec<i32> = distinct_of(&self.active_jobs[server as usize]);
        let mut best: N = jobs[job_id as usize].loading_time;
        let mut any: bool = false;
        let mut k: usize = 0;
        proof {
            reveal(Seq::filter);
            lemma_distinct(model.active_jobs[server as int]);
            assert(others@.take(0) =~= Seq::<i32>::empty());
            assert(states[job_id as int] == jobs@[job_id as int]@);
        }
        while k < others.len()
            invariant
                k <= others@.len(),
                model == self@,
                model.knows_jobs(jobs@.len()),
                states == arena(jobs@),
                0 <= server < model.active_jobs.len(),
                0 <= job_id < jobs@.len(),
                states[job_id as int] == jobs@[job_id as int]@,
                counts == other_remains(states, job_id as int),
                value == (|other: i32|
                    model.corun_profile.loading_beside(states[job_id as int], states[other as int])),
                others@ == distinct(model.active_jobs[server as int]),
                forall|x: i32|
                    others@.contains(x) <==> model.active_jobs[server as int].contains(x),
                any == (others@.take(k as int).filter(counts).len() > 0),
                best == highest(
                    states[job_id as int].loading_time,
                    others@.take(k as int).filter(counts),
                    value,
                ),
            decreases others@.len() - k,
        {
            let other: i32 = others[k];
            proof {
                assert(others@.contains(other));
                let m = choose|m: int|
                    0 <= m < model.active_jobs[server as int].len()
                        && model.active_jobs[server as int][m] == other;
                assert(0 <= model.active_jobs[server as int][m] < jobs@.len());
                assert(states[other as int] == jobs@[other as int]@);
                reveal(Seq::filter);
                assert(others@.take(k + 1).drop_last() =~= others@.take(k as int));
                assert(others@.take(k + 1).last() == other);
            }
            let other_job = &jobs[other as usize];
            if other != job_id && other_job.current_phase != Phase::Completed {
                let time: N = self.corun_profile.loading_time_beside(
                    &jobs[job_id as usize],
                    other_job,
                );
                proof {
                    let kept = others@.take(k as int).filter(counts);
                    assert(counts(other));
                    assert(others@.take(k + 1).filter(counts) == kept.push(other));
                    assert(kept.push(other).drop_last() =~= kept);
                }
                if !any || best.is_less(time) {
                    best = time;
                }
                any = true;
            } else {
                assert(!counts(other));
            }
            k += 1;
        }
        assert(others@.take(k as int) =~= others@);
        best
    }

    /// The loading time of a job under the present placement.
    pub(crate) fn corun_loading_time_snapshot(&self, job_id: i32, jobs: &Vec<GpuJob<N>>) -> (result: N)
        requires
            self@.is_sized(),
            self@.knows_jobs(jobs@.len()),
            0 <= job_id < jobs@.len(),
            jobs@[job_id as int]@.is_placed_within(self.servers as int),
        ensures
            result == self@.corun_loading(arena(jobs@), job_id as int),
    {
        let ghost model = self@;
        let ghost states = arena(jobs@);
        let ghost value = |server: i32| model.loading_on(states, job_id as int, server);
        let servers: Vec<i32> = distinct_of(&jobs[job_id as usize].allocated);
        let mut snapshot: N = jobs[job_id as usize].loading_time;
        let mut i: usize = 0;
        proof {
            assert(states[job_id as int] == jobs@[job_id as int]@);
            assert(states[job_id as int].allocated == jobs@[job_id as int].allocated@);
            lemma_distinct(states[job_id as int].allocated);
            assert(servers@.take(0) =~= Seq::<i32>::empty());
        }
        while i < servers.len()
            invariant
                i <= servers@.len(),
                model == self@,
                states == arena(jobs@),
                self@.is_sized(),
                self@.knows_jobs(jobs@.len()),
                0 <= job_id < jobs@.len(),
                states[job_id as int].is_placed_within(self.servers as int),
                forall|server: i32|
                    servers@.contains(server) <==> states[job_id as int].allocated.contains(server),
                value == (|server: i32| model.loading_on(states, job_id as int, server)),
                snapshot == highest(
                    states[job_id as int].loading_time,
                    servers@.take(i as int),
                    value,
                ),
            decreases servers@.len() - i,
        {
            let server: i32 = servers[i];
            proof {
                assert(servers@.contains(server));
                assert(servers@.take(i + 1).drop_last() =~= servers@.take(i as int));
            }
            let server_best: N = self.loading_time_on(job_id, server, jobs);
            if i == 0 || snapshot.is_less(server_best) {
                snapshot = server_best;
            }
            i += 1;
        }
        assert(servers@.take(i as int) =~= servers@);
        snapshot
    }

    /// Takes the progress of the active jobs and goes on with the times of the profile.
    pub(crate) fn update_completion_times_corun_profile(
        &self,
        current_time: N,
        jobs: &mut Vec<GpuJob<N>>,
        timer: &mut Timer<N>,
    )
        requires
            (System { cluster: self@, jobs: arena(old(jobs)@), timer: old(timer)@ }).is_sound(),
            old(timer).wf(),
        ensures
            final(timer).wf(),
            ({
                let before = System {
                    cluster: self@,
                    jobs: arena(old(jobs)@),
                    timer: old(timer)@,
                };
                (System { cluster: self@, jobs: arena(final(jobs)@), timer: final(timer)@ })
                    == before.changed(before.corun_pace(current_time))
            }),
    {
        let ghost before = System { cluster: self@, jobs: arena(jobs@), timer: timer@ };
        let ghost change = before.corun_pace(current_time);
        let ids: Vec<i32> = self.active_job_ids();
        let mut times: Vec<(N, N)> = Vec::new();
        proof {
            lemma_active_ids(self@, before.jobs.len());
        }
        while times.len() < ids.len()
            invariant
                times@.len() <= ids@.len(),
                before.cluster == self@,
                before.jobs == arena(jobs@),
                before.is_sound(),
                forall|i: int|
                    0 <= i < ids@.len() ==> 0 <= #[trigger] ids@[i] < before.jobs.len(),
                forall|i: int|
                    0 <= i < times@.len() ==> #[trigger] times@[i] == before.cluster.corun_times(
                        before.jobs,
                        ids@[i] as int,
                    ),
            decreases ids@.len() - times@.len(),
        {
            let job_id: i32 = ids[times.len()];
            proof {
                assert(0 <= ids@[times@.len() as int] < before.jobs.len());
                assert(before.jobs[job_id as int] == jobs@[job_id as int]@);
                assert(before.jobs[job_id as int].is_placed_within(self.servers as int));
            }
            let new_times: (N, N) = self.compute_corun_iteration_times(job_id, jobs);
            times.push(new_times);
        }
        let mut k: usize = 0;
        proof {
            lemma_changed_start(before, change);
            assert(ids@.take(0) =~= Seq::<i32>::empty());
        }
        while k < ids.len()
            invariant
                k <= ids@.len() == times@.len(),
                before.cluster == self@,
                before.is_sound(),
                change == before.corun_pace(current_time),
                ids@.no_duplicates(),
                forall|i: int|
                    0 <= i < ids@.len() ==> 0 <= #[trigger] ids@[i] < before.jobs.len()
                        && before.cluster.active(ids@[i] as int),
                forall|i: int|
                    0 <= i < times@.len() ==> #[trigger] times@[i] == before.cluster.corun_times(
                        before.jobs,
                        ids@[i] as int,
                    ),
                timer.wf(),
                arena(jobs@) == before.changed(only(ids@.take(k as int), change)).jobs,
                timer@ == before.changed(only(ids@.take(k as int), change)).timer,
            decreases ids@.len() - k,
        {
            let job_id: i32 = ids[k];
            proof {
                assert(before.cluster.active(ids@[k as int] as int));
                lemma_changed_step(before, ids@, k as int, change);
                assert(arena(jobs@).len() == jobs@.len());
                assert(arena(jobs@)[job_id as int] == jobs@[job_id as int]@);
            }
            if jobs[job_id as usize].training_time.is_some() && jobs[job_id as usize].current_phase
                != Phase::Completed {
                let ghost old_jobs = jobs@;
                let end: Option<N> = jobs[job_id as usize].repace(
                    self.overlapping_ratio,
                    times[k],
                    current_time,
                );
                proof {
                    assert(arena(jobs@) =~= arena(old_jobs).update(
                        job_id as int,
                        jobs@[job_id as int]@,
                    ));
                    assert(timer@.events.dom().contains(job_id));
                }
                match end {
                    Some(time) => {
                        timer.update_job_time(job_id, time);
                    },
                    None => {},
                }
            }
            k += 1;
        }
        proof {
            assert(ids@.take(k as int) =~= ids@);
            lemma_changed_end(before, ids@, change);
        }
    }
}

/// The iteration time of a job beside others is that of one row of the profile, taken as a
/// whole, and no row has a slower networking time.
pub proof fn the_slowest_neighbour_decides<N: Scalar>(
    profile: CorunModel<N>,
    job: JobModel<N>,
    others: Seq<i32>,
    jobs: Seq<JobModel<N>>,
)
    requires
        others.len() > 0,
        forall|k: int|
            0 <= k < others.len() ==> profile.beside(
                job,
                jobs[#[trigger] others[k] as int],
            ).1.ordered(),
    ensures
        exists|k: int|
            0 <= k < others.len() && profile.beside_all(job, others, jobs) == profile.beside(
                job,
                jobs[#[trigger] others[k] as int],
            ),
        forall|k: int|
            0 <= k < others.len() ==> !less(
                profile.beside_all(job, others, jobs).1,
                profile.beside(job, jobs[#[trigger] others[k] as int]).1,
            ),
    decreases others.len(),
{
    let rest = others.drop_last();
    let last = others.len() - 1;
    assert(others[last] == others.last());
    assert(profile.beside(job, jobs[others[last] as int]).1.ordered());
    if others.len() > 1 {
        assert forall|k: int| 0 <= k < rest.len() implies profile.beside(
            job,
            jobs[#[trigger] rest[k] as int],
        ).1.ordered() by {
            assert(rest[k] == others[k]);
        }
        the_slowest_neighbour_decides(profile, job, rest, jobs);
        let best = profile.beside_all(job, rest, jobs);
        let k = choose|k: int|
            0 <= k < rest.len() && best == profile.beside(job, jobs[#[trigger] rest[k] as int]);
        assert(others[k] == rest[k]);
        assert(best.1.ordered());
        assert forall|k: int| 0 <= k < others.len() implies !less(
            profile.beside_all(job, others, jobs).1,
            profile.beside(job, jobs[#[trigger] others[k] as int]).1,
        ) by {
            if k < rest.len() {
                assert(rest[k] == others[k]);
                assert(!less(best.1, profile.beside(job, jobs[rest[k] as int]).1));
            }
        }
    }
}

/// The highest of some values is one of them, and none of them is higher.
pub proof fn highest_is_the_highest<N: Scalar>(
    otherwise: N,
    items: Seq<i32>,
    value: spec_fn(i32) -> N,
)
    requires
        items.len() > 0,
        forall|k: int| 0 <= k < items.len() ==> value(#[trigger] items[k]).ordered(),
    ensures
        exists|k: int|
            0 <= k < items.len() && highest(otherwise, items, value) == value(#[trigger] items[k]),
        forall|k: int|
            0 <= k < items.len() ==> no_more(
                value(#[trigger] items[k]),
                highest(otherwise, items, value),
            ),
    decreases items.len(),
{
    let rest = items.drop_last();
    let last = items.len() - 1;
    assert(items[last] == items.last());
    assert(value(items[last]).ordered());
    if items.len() > 1 {
        assert forall|k: int| 0 <= k < rest.len() implies value(#[trigger] rest[k]).ordered() by {
            assert(rest[k] == items[k]);
        }
        highest_is_the_highest(otherwise, rest, value);
        let best = highest(otherwise, rest, value);
        let k = choose|k: int| 0 <= k < rest.len() && best == value(#[trigger] rest[k]);
        assert(items[k] == rest[k]);
        assert forall|k: int| 0 <= k < items.len() implies no_more(
            value(#[trigger] items[k]),
            highest(otherwise, items, value),
        ) by {
            if k < rest.len() {
                assert(rest[k] == items[k]);
                assert(no_more(value(rest[k]), best));
            }
        }
    }
}

/// Whether the loading times of a job beside all jobs on a server, and alone, are
/// ordered.
pub open spec fn loading_is_ordered<N: Scalar>(
    cluster: ClusterModel<N>,
    jobs: Seq<JobModel<N>>,
    job: int,
    server: i32,
) -> bool {
    let others = cluster.loaded_beside(jobs, job, server);
    &&& jobs[job].loading_time.ordered()
    &&& forall|k: int|
        0 <= k < others.len() ==> cluster.corun_profile.loading_beside(
            jobs[job],
            jobs[#[trigger] others[k] as int],
        ).ordered()
}

proof fn lemma_loading_on<N: Scalar>(
    cluster: ClusterModel<N>,
    jobs: Seq<JobModel<N>>,
    job: int,
    server: i32,
)
    requires
        loading_is_ordered(cluster, jobs, job, server),
    ensures
        cluster.loading_on(jobs, job, server).ordered(),
        forall|k: int|
            #![trigger cluster.loaded_beside(jobs, job, server)[k]]
            0 <= k < cluster.loaded_beside(jobs, job, server).len() ==> no_more(
                cluster.corun_profile.loading_beside(
                    jobs[job],
                    jobs[cluster.loaded_beside(jobs, job, server)[k] as int],
                ),
                cluster.loading_on(jobs, job, server),
            ),
{
    let others = cluster.loaded_beside(jobs, job, server);
    let value = |other: i32|
        cluster.corun_profile.loading_beside(jobs[job], jobs[other as int]);
    if others.len() > 0 {
        highest_is_the_highest(jobs[job].loading_time, others, value);
        let k = choose|k: int|
            0 <= k < others.len() && cluster.loading_on(jobs, job, server) == value(
                #[trigger] others[k],
            );
        assert(value(others[k]).ordered());
    }
}

/// The loading time of a job covers its neighbours: on no server is it less than that
/// beside any job there, and it is that of one of its servers.
pub proof fn loading_covers_every_neighbour<N: Scalar>(
    cluster: ClusterModel<N>,
    jobs: Seq<JobModel<N>>,
    job: int,
    server: i32,
    other: i32,
)
    requires
        forall|s: i32| #[trigger]
            jobs[job].allocated.contains(s) ==> loading_is_ordered(cluster, jobs, job, s),
        jobs[job].allocated.contains(server),
        cluster.loaded_beside(jobs, job, server).contains(other),
    ensures
        no_more(
            cluster.corun_profile.loading_beside(jobs[job], jobs[other as int]),
            cluster.corun_loading(jobs, job),
        ),
        exists|s: i32| #[trigger]
            jobs[job].allocated.contains(s) && cluster.corun_loading(jobs, job)
                == cluster.loading_on(jobs, job, s),
{
    let servers = distinct(jobs[job].allocated);
    let value = |s: i32| cluster.loading_on(jobs, job, s);
    let others = cluster.loaded_beside(jobs, job, server);
    lemma_distinct(jobs[job].allocated);
    assert forall|k: int| 0 <= k < servers.len() implies value(#[trigger] servers[k]).ordered() by {
        assert(servers.contains(servers[k]));
        assert(jobs[job].allocated.contains(servers[k]));
        lemma_loading_on(cluster, jobs, job, servers[k]);
    }
    assert(servers.contains(server));
    highest_is_the_highest(jobs[job].loading_time, servers, value);
    let at = choose|k: int|
        0 <= k < servers.len() && cluster.corun_loading(jobs, job) == value(#[trigger] servers[k]);
    assert(servers.contains(servers[at]));
    assert(jobs[job].allocated.contains(servers[at]));
    let i = choose|i: int| 0 <= i < servers.len() && servers[i] == server;
    assert(no_more(value(servers[i]), cluster.corun_loading(jobs, job)));
    lemma_loading_on(cluster, jobs, job, server);
    let k = choose|k: int| 0 <= k < others.len() && others[k] == other;
    assert(others[k] == other);
}

/// A job that has its servers to itself loads as it does alone.
pub proof fn undisturbed_jobs_load_as_alone<N: Scalar>(
    cluster: ClusterModel<N>,
    jobs: Seq<JobModel<N>>,
    job: int,
)
    requires
        forall|s: i32| #[trigger]
            jobs[job].allocated.contains(s) ==> cluster.loaded_beside(jobs, job, s).len() == 0,
    ensures
        cluster.corun_loading(jobs, job) == jobs[job].loading_time,
{
    let servers = distinct(jobs[job].allocated);
    lemma_distinct(jobs[job].allocated);
    assert forall|k: int| 0 <= k < servers.len() implies (|s: i32|
        cluster.loading_on(jobs, job, s))(#[trigger] servers[k]) == jobs[job].loading_time by {
        assert(servers.contains(servers[k]));
        assert(jobs[job].allocated.contains(servers[k]));
    }
    lemma_highest_of_equals(
        jobs[job].loading_time,
        servers,
        |s: i32| cluster.loading_on(jobs, job, s),
    );
}

proof fn lemma_highest_of_equals<N: Scalar>(
    otherwise: N,
    items: Seq<i32>,
    value: spec_fn(i32) -> N,
)
    requires
        forall|k: int| 0 <= k < items.len() ==> value(#[trigger] items[k]) == otherwise,
    ensures
        highest(otherwise, items, value) == otherwise,
    decreases items.len(),
{
    if items.len() > 0 {
        let rest = items.drop_last();
        assert forall|k: int| 0 <= k < rest.len() implies value(#[trigger] rest[k])
            == otherwise by {
            assert(rest[k] == items[k]);
        }
        lemma_highest_of_equals(otherwise, rest, value);
        assert(items[items.len() - 1] == items.last());
    }
}

impl<N: Scalar> ClusterModel<N> {
    /// Which jobs are beside a job on one of its servers without an entry in the profile
    /// that says how it loads, or else how it trains, beside them.
    pub open spec fn lacks_entry(self, jobs: Seq<JobModel<N>>, job: int, loading: bool) -> spec_fn(
        i32,
    ) -> bool {
        |other: i32|
            if loading {
                other_remains(jobs, job)(other) && !self.corun_profile.knows_loading(
                    jobs[job],
                    jobs[other as int],
                )
            } else {
                other_trains(jobs, job)(other) && !self.corun_profile.knows_times(
                    jobs[job],
                    jobs[other as int],
                )
            }
    }

    /// The neighbours of a job on some servers, one server after the other, for which the
    /// profile has no entry.
    pub open spec fn unprofiled_on(
        self,
        jobs: Seq<JobModel<N>>,
        job: int,
        loading: bool,
        servers: Seq<i32>,
    ) -> Seq<i32>
        decreases servers.len(),
    {
        if servers.len() == 0 {
            Seq::empty()
        } else {
            self.unprofiled_on(jobs, job, loading, servers.drop_last()) + distinct(
                self.active_jobs[servers.last() as int],
            ).filter(self.lacks_entry(jobs, job, loading))
        }
    }
}

impl<N: Scalar> GPUCluster<N> {
    /// The neighbours of a job for which the profile has no entry that says how the job
    /// loads, or else how it trains, beside them.
    pub fn unprofiled_neighbours(&self, job_id: i32, loading: bool, jobs: &Vec<GpuJob<N>>) -> (result:
        Vec<i32>)
        requires
            self@.is_sized(),
            self@.knows_jobs(jobs@.len()),
            0 <= job_id < jobs@.len(),
            jobs@[job_id as int]@.is_placed_within(self.servers as int),
        ensures
            result@ == self@.unprofiled_on(
                arena(jobs@),
                job_id as int,
                loading,
                distinct(arena(jobs@)[job_id as int].allocated),
            ),
    {
        let ghost model = self@;
        let ghost states = arena(jobs@);
        let ghost lacks = model.lacks_entry(states, job_id as int, loading);
        let servers: Vec<i32> = distinct_of(&jobs[job_id as usize].allocated);
        let mut result: Vec<i32> = Vec::new();
        let mut i: usize = 0;
        proof {
            assert(states[job_id as int] == jobs@[job_id as int]@);
            assert(states[job_id as int].allocated == jobs@[job_id as int].allocated@);
            lemma_distinct(states[job_id as int].allocated);
            assert(servers@.take(0) =~= Seq::<i32>::empty());
        }
        while i < servers.len()
            invariant
                i <= servers@.len(),
                model == self@,
                states == arena(jobs@),
                model.is_sized(),
                model.knows_jobs(jobs@.len()),
                0 <= job_id < jobs@.len(),
                states[job_id as int] == jobs@[job_id as int]@,
                states[job_id as int].is_placed_within(self.servers as int),
                lacks == model.lacks_entry(states, job_id as int, loading),
                forall|server: i32|
                    servers@.contains(server) <==> states[job_id as int].allocated.contains(server),
                result@ == model.unprofiled_on(
                    states,
                    job_id as int,
                    loading,
                    servers@.take(i as int),
                ),
            decreases servers@.len() - i,
        {
            let server: i32 = servers[i];
            let ghost before = result@;
            proof {
                assert(servers@.contains(server));
                assert(servers@.take(i + 1).drop_last() =~= servers@.take(i as int));
                lemma_distinct(model.active_jobs[server as int]);
            }
            let others: Vec<i32> = distinct_of(&self.active_jobs[server as usize]);
            let mut k: usize = 0;
            proof {
                reveal(Seq::filter);
                assert(others@.take(0) =~= Seq::<i32>::empty());
                assert(before + others@.take(0).filter(lacks) =~= before);
            }
            while k < others.len()
                invariant
                    k <= others@.len(),
                    model == self@,
                    states == arena(jobs@),
                    model.knows_jobs(jobs@.len()),
                    0 <= server < model.active_jobs.len(),
                    0 <= job_id < jobs@.len(),
                    states[job_id as int] == jobs@[job_id as int]@,
                    lacks == model.lacks_entry(states, job_id as int, loading),
                    others@ == distinct(model.active_jobs[server as int]),
                    forall|x: i32|
                        others@.contains(x) <==> model.active_jobs[server as int].contains(x),
                    result@ == before + others@.take(k as int).filter(lacks),
                decreases others@.len() - k,
            {
                let other: i32 = others[k];
                proof {
                    assert(others@.contains(other));
                    let m = choose|m: int|
                        0 <= m < model.active_jobs[server as int].len()
                            && model.active_jobs[server as int][m] == other;
                    assert(0 <= model.active_jobs[server as int][m] < jobs@.len());
                    assert(states[other as int] == jobs@[other as int]@);
                    reveal(Seq::filter);
                    assert(others@.take(k + 1).drop_last() =~= others@.take(k as int));
                    assert(others@.take(k + 1).last() == other);
                }
                let job = &jobs[job_id as usize];
                let other_job = &jobs[other as usize];
                let missing: bool = other != job_id && other_job.current_phase
                    != Phase::Completed && if loading {
                    !self.corun_profile.has_loading(job, other_job)
                } else {
                    other_job.training_time.is_some() && !self.corun_profile.has_times(
                        job,
                        other_job,
                    )
                };
                assert(missing == lacks(other));
                if missing {
                    result.push(other);
                    assert(result@ =~= before + others@.take(k + 1).filter(lacks));
                }
                k += 1;
            }
            assert(others@.take(k as int) =~= others@);
            i += 1;
        }
        assert(servers@.take(i as int) =~= servers@);
        result
    }
}

/// Whether a job trains on a server beside another: it is active there, it is another job, and
/// it trains and is not through.
pub open spec fn trains_beside<N: Scalar>(
    cluster: ClusterModel<N>,
    jobs: Seq<JobModel<N>>,
    job: int,
    server: i32,
    other: i32,
) -> bool {
    &&& cluster.active_jobs[server as int].contains(other)
    &&& other != job
    &&& jobs[other as int].training_time is Some
    &&& jobs[other as int].current_phase != Phase::Completed
}

/// The jobs that train on a server beside a job are those that do.
proof fn lemma_training_beside<N: Scalar>(
    cluster: ClusterModel<N>,
    jobs: Seq<JobModel<N>>,
    job: int,
    server: i32,
)
    ensures
        forall|other: i32|
            #![trigger trains_beside(cluster, jobs, job, server, other)]
            #![trigger cluster.training_beside(jobs, job, server).contains(other)]
            cluster.training_beside(jobs, job, server).contains(other) <==> trains_beside(
                cluster,
                jobs,
                job,
                server,
                other,
            ),
{
    let all = distinct(cluster.active_jobs[server as int]);
    let wanted = other_trains(jobs, job);
    let found = cluster.training_beside(jobs, job, server);
    lemma_distinct(cluster.active_jobs[server as int]);
    assert forall|other: i32|
        #![trigger trains_beside(cluster, jobs, job, server, other)]
        #![trigger found.contains(other)]
        found.contains(other) <==> trains_beside(cluster, jobs, job, server, other) by {
        if found.contains(other) {
            let i = choose|i: int| 0 <= i < found.len() && found[i] == other;
            all.lemma_filter_pred(wanted, i);
            all.lemma_filter_contains_rev(wanted, other);
        }
        if trains_beside(cluster, jobs, job, server, other) {
            assert(all.contains(other));
            let i = choose|i: int| 0 <= i < all.len() && all[i] == other;
            all.lemma_filter_contains(wanted, i);
        }
    }
}

/// The iteration time of a job on a server is what the profile has of it beside one of the jobs that
/// train there, and beside none of them is its networking slower. Where none trains there, it is
/// that of the job alone.
pub proof fn times_on_a_server_come_from_the_profile<N: Scalar>(
    cluster: ClusterModel<N>,
    jobs: Seq<JobModel<N>>,
    job: int,
    server: i32,
)
    requires
        forall|other: i32| #[trigger]
            trains_beside(cluster, jobs, job, server, other) ==> cluster.corun_profile.beside(
                jobs[job],
                jobs[other as int],
            ).1.ordered(),
    ensures
        ({
            let times = cluster.times_on(jobs, job, server);
            let profile = cluster.corun_profile;
            &&& (forall|other: i32| !(#[trigger] trains_beside(cluster, jobs, job, server, other)))
                ==> times == profile.alone(jobs[job])
            &&& (exists|other: i32| #[trigger] trains_beside(cluster, jobs, job, server, other))
                ==> exists|other: i32| #[trigger]
                trains_beside(cluster, jobs, job, server, other) && times == profile.beside(
                    jobs[job],
                    jobs[other as int],
                )
            &&& forall|other: i32| #[trigger]
                trains_beside(cluster, jobs, job, server, other) ==> no_more(
                    profile.beside(jobs[job], jobs[other as int]).1,
                    times.1,
                )
        }),
{
    let others = cluster.training_beside(jobs, job, server);
    let profile = cluster.corun_profile;
    lemma_training_beside(cluster, jobs, job, server);
    if others.len() == 0 {
        assert forall|other: i32| !(#[trigger] trains_beside(
            cluster,
            jobs,
            job,
            server,
            other,
        )) by {
            assert(!others.contains(other));
        }
    } else {
        assert(others.contains(others[0]));
        assert(trains_beside(cluster, jobs, job, server, others[0]));
        assert forall|k: int| 0 <= k < others.len() implies profile.beside(
            jobs[job],
            jobs[#[trigger] others[k] as int],
        ).1.ordered() by {
            assert(others.contains(others[k]));
            assert(trains_beside(cluster, jobs, job, server, others[k]));
        }
        the_slowest_neighbour_decides(profile, jobs[job], others, jobs);
        let times = cluster.times_on(jobs, job, server);
        let at = choose|k: int|
            0 <= k < others.len() && times == profile.beside(
                jobs[job],
                jobs[#[trigger] others[k] as int],
            );
        assert(others.contains(others[at]));
        assert(trains_beside(cluster, jobs, job, server, others[at]));
        assert forall|other: i32| #[trigger] trains_beside(
            cluster,
            jobs,
            job,
            server,
            other,
        ) implies no_more(profile.beside(jobs[job], jobs[other as int]).1, times.1) by {
            assert(others.contains(other));
            let k = choose|k: int| 0 <= k < others.len() && others[k] == other;
            assert(!less(times.1, profile.beside(jobs[job], jobs[others[k] as int]).1));
        }
    }
}

/// Among some servers, the times are those of one of them, and on none of them is the effective
/// iteration time longer.
proof fn lemma_times_over<N: Scalar>(
    cluster: ClusterModel<N>,
    jobs: Seq<JobModel<N>>,
    job: int,
    servers: Seq<i32>,
)
    requires
        servers.len() > 0,
        forall|k: int|
            0 <= k < servers.len() ==> iteration_on(
                cluster,
                jobs,
                job,
                #[trigger] servers[k],
            ).ordered(),
    ensures
        ({
            let times = cluster.times_over(jobs, job, servers);
            let longest = iteration_time(cluster.overlapping_ratio, times.0, times.1);
            &&& exists|k: int|
                0 <= k < servers.len() && times == cluster.times_on(
                    jobs,
                    job,
                    #[trigger] servers[k],
                )
            &&& forall|k: int|
                0 <= k < servers.len() ==> no_more(
                    iteration_on(cluster, jobs, job, #[trigger] servers[k]),
                    longest,
                )
        }),
    decreases servers.len(),
{
    let rest = servers.drop_last();
    let last = servers.len() - 1;
    let overlap = cluster.overlapping_ratio;
    let times = cluster.times_over(jobs, job, servers);
    let longest = iteration_time(overlap, times.0, times.1);
    assert(servers[last] == servers.last());
    assert(iteration_on(cluster, jobs, job, servers[last]).ordered());
    if servers.len() > 1 {
        assert forall|k: int| 0 <= k < rest.len() implies iteration_on(
            cluster,
            jobs,
            job,
            #[trigger] rest[k],
        ).ordered() by {
            assert(rest[k] == servers[k]);
        }
        lemma_times_over(cluster, jobs, job, rest);
        let before = cluster.times_over(jobs, job, rest);
        let k = choose|k: int|
            0 <= k < rest.len() && before == cluster.times_on(jobs, job, #[trigger] rest[k]);
        assert(servers[k] == rest[k]);
        assert(iteration_on(cluster, jobs, job, rest[k]).ordered());
        assert forall|k: int| 0 <= k < servers.len() implies no_more(
            iteration_on(cluster, jobs, job, #[trigger] servers[k]),
            longest,
        ) by {
            if k < rest.len() {
                assert(rest[k] == servers[k]);
                assert(no_more(
                    iteration_on(cluster, jobs, job, rest[k]),
                    iteration_time(overlap, before.0, before.1),
                ));
            }
        }
    }
}

/// The effective iteration time of a job on one of its servers: its compute and its networking time
/// there, less what of them overlaps.
pub open spec fn iteration_on<N: Scalar>(
    cluster: ClusterModel<N>,
    jobs: Seq<JobModel<N>>,
    job: int,
    server: i32,
) -> N {
    let times = cluster.times_on(jobs, job, server);
    iteration_time(cluster.overlapping_ratio, times.0, times.1)
}

/// The slowest server decides: the iteration time that a job takes from the profile is that of one
/// of its servers, and on none of its servers is the effective iteration time longer. That is
/// what the job goes on with.
pub proof fn the_slowest_server_decides<N: Scalar>(state: System<N>, job: int, time: N)
    requires
        0 <= job < state.jobs.len(),
        state.cluster.active(job),
        state.jobs[job].training_time is Some,
        state.jobs[job].current_phase != Phase::Completed,
        state.jobs[job].allocated.len() > 0,
        forall|server: i32| #[trigger]
            state.jobs[job].allocated.contains(server) ==> iteration_on(
                state.cluster,
                state.jobs,
                job,
                server,
            ).ordered(),
    ensures
        ({
            let after = state.changed(state.corun_pace(time)).jobs[job];
            let times = (after.iteration_computing_time, after.iteration_networking_time);
            let longest = iteration_time(state.cluster.overlapping_ratio, times.0, times.1);
            &&& exists|server: i32| #[trigger]
                state.jobs[job].allocated.contains(server) && times == state.cluster.times_on(
                    state.jobs,
                    job,
                    server,
                )
            &&& forall|server: i32| #[trigger]
                state.jobs[job].allocated.contains(server) ==> no_more(
                    iteration_on(state.cluster, state.jobs, job, server),
                    longest,
                )
        }),
{
    let servers = distinct(state.jobs[job].allocated);
    lemma_distinct(state.jobs[job].allocated);
    assert(state.jobs[job].allocated.contains(state.jobs[job].allocated[0]));
    assert(servers.contains(state.jobs[job].allocated[0]));
    assert forall|k: int| 0 <= k < servers.len() implies iteration_on(
        state.cluster,
        state.jobs,
        job,
        #[trigger] servers[k],
    ).ordered() by {
        assert(servers.contains(servers[k]));
        assert(state.jobs[job].allocated.contains(servers[k]));
    }
    lemma_times_over(state.cluster, state.jobs, job, servers);
    let times = state.cluster.times_over(state.jobs, job, servers);
    let at = choose|k: int|
        0 <= k < servers.len() && times == state.cluster.times_on(
            state.jobs,
            job,
            #[trigger] servers[k],
        );
    assert(servers.contains(servers[at]));
    assert(state.jobs[job].allocated.contains(servers[at]));
    assert(state.corun_pace(time)(job) is Some);
    assert forall|server: i32| #[trigger] state.jobs[job].allocated.contains(server) implies no_more(
        iteration_on(state.cluster, state.jobs, job, server),
        iteration_time(state.cluster.overlapping_ratio, times.0, times.1),
    ) by {
        assert(servers.contains(server));
        let k = choose|k: int| 0 <= k < servers.len() && servers[k] == server;
        assert(no_more(
            iteration_on(state.cluster, state.jobs, job, servers[k]),
            iteration_time(state.cluster.overlapping_ratio, times.0, times.1),
        ));
    }
}

/// The jobs that are beside a job on a server when it loads are the other ones that are active there and
/// not through, whether they train or still load.
pub proof fn loading_counts_every_job_beside<N: Scalar>(
    cluster: ClusterModel<N>,
    jobs: Seq<JobModel<N>>,
    job: int,
    server: i32,
    other: i32,
)
    ensures
        cluster.loaded_beside(jobs, job, server).contains(other) <==> {
            &&& cluster.active_jobs[server as int].contains(other)
            &&& other != job
            &&& jobs[other as int].current_phase != Phase::Completed
        },
{
    let all = distinct(cluster.active_jobs[server as int]);
    let wanted = other_remains(jobs, job);
    let found = cluster.loaded_beside(jobs, job, server);
    lemma_distinct(cluster.active_jobs[server as int]);
    if found.contains(other) {
        let i = choose|i: int| 0 <= i < found.len() && found[i] == other;
        all.lemma_filter_pred(wanted, i);
        all.lemma_filter_contains_rev(wanted, other);
    }
    if cluster.active_jobs[server as int].contains(other) && other != job
        && jobs[other as int].current_phase != Phase::Completed {
        assert(all.contains(other));
        let i = choose|i: int| 0 <= i < all.len() && all[i] == other;
        all.lemma_filter_contains(wanted, i);
    }
}

/// A job that goes on with other iteration times has its progress taken under the old ones: it has done
/// as many more iterations since then as the time holds of them, up to all of them. What it has
/// left are the iterations left at the new times, and its end is that time from now. All of it up
/// to rounding.
pub proof fn new_times_hold_from_now_on<N: Scalar>(
    job: JobModel<N>,
    overlap: N,
    times: (N, N),
    time: N,
    value: spec_fn(N) -> real,
    bound: real,
    error: real,
)
    requires
        rounds(value, bound, error),
        time.finite(),
        0real <= value(time),
        job.iteration_number.finite(),
        job.remaining_train_time is Some,
        job.last_change_time matches Some(last) && last.finite() && -bound <= value(time) - value(
            last,
        ) <= bound,
        job.completed_iterations matches Some(done) && done.finite(),
        ({
            let old_pace = iteration_time(
                overlap,
                job.iteration_computing_time,
                job.iteration_networking_time,
            );
            let pace = iteration_time(overlap, times.0, times.1);
            let passed = value(time) - value(job.last_change_time->0);
            let done = value(job.completed_iterations->0);
            let after = job.repaced(overlap, times, time);
            let left = value(job.iteration_number) - value(
                value_or(after.completed_iterations, zero()),
            );
            &&& old_pace.finite()
            &&& value(old_pace) > 0real
            &&& 0real <= passed
            &&& 0real <= done
            &&& done + (passed + error) / value(old_pace) + error <= bound
            &&& error / value(old_pace) + error <= bound
            &&& pace.finite()
            &&& value(pace) >= 0real
            &&& error < left <= bound
            &&& value(time) + (left + error) * value(pace) + error <= bound
        }),
    ensures
        ({
            let old_pace = iteration_time(
                overlap,
                job.iteration_computing_time,
                job.iteration_networking_time,
            );
            let pace = iteration_time(overlap, times.0, times.1);
            let passed = value(time) - value(job.last_change_time->0);
            let after = job.repaced(overlap, times, time);
            let left = value(job.iteration_number) - value(
                value_or(after.completed_iterations, zero()),
            );
            &&& after.completed_iterations matches Some(done) && near(
                value(done),
                real_min(
                    value(job.completed_iterations->0) + passed / value(old_pace),
                    value(job.iteration_number),
                ),
                2real * error + error / value(old_pace),
            )
            &&& (after.iteration_computing_time, after.iteration_networking_time) == times
            &&& after.remaining_train_time matches Some(rest) && near(
                value(rest),
                left * value(pace),
                error * value(pace) + error,
            )
            &&& after.last_change_time == Some(time)
            &&& job.repaced_end(overlap, times, time) matches Some(end) && near(
                value(end),
                value(time) + left * value(pace),
                error * value(pace) + 2real * error,
            )
        }),
{
    let old_pace = iteration_time(
        overlap,
        job.iteration_computing_time,
        job.iteration_networking_time,
    );
    let pace = iteration_time(overlap, times.0, times.1);
    let last = job.last_change_time->0;
    let before = job.completed_iterations->0;
    let o = value(old_pace);
    let passed = value(time) - value(last);
    lemma_integer_value(value, 0, bound, error);
    lemma_compared(value, N::integer(0), old_pace, bound, error);
    lemma_difference_near(value, time, last, bound, error);
    let elapsed = time.difference(last);
    let e = value(elapsed);
    let off = error / o;
    assert(-off <= e / o <= (passed + error) / o && near(e / o, passed / o, off) && off >= 0real)
        by (nonlinear_arith)
        requires
            near(e, passed, error),
            o > 0real,
            passed >= 0real,
            error >= 0real,
            off == error / o,
    ;
    lemma_quotient_near(value, elapsed, old_pace, bound, error);
    let more = elapsed.quotient(old_pace);
    lemma_sum_near(value, before, more, bound, error);
    lemma_compared(value, before.sum(more), job.iteration_number, bound, error);
    let after = job.repaced(overlap, times, time);
    let done = value_or(after.completed_iterations, zero());
    assert(done == smaller(before.sum(more), job.iteration_number));
    let left = value(job.iteration_number) - value(done);
    let p = value(pace);
    lemma_difference_near(value, job.iteration_number, done, bound, error);
    let rest = job.iteration_number.difference(done);
    lemma_compared(value, N::integer(0), rest, bound, error);
    let r = value(rest);
    assert(0real <= r * p <= (left + error) * p && near(r * p, left * p, error * p))
        by (nonlinear_arith)
        requires
            near(r, left, error),
            r >= 0real,
            p >= 0real,
    ;
    lemma_product_near(value, rest, pace, bound, error);
    lemma_sum_near(value, time, rest.product(pace), bound, error);
}

/// The neighbours of a job without an entry are those that train, or else are not through, on one of
/// its servers, and for whose model and GPUs the profile says nothing of the job beside them.
pub proof fn neighbours_without_an_entry_are_listed<N: Scalar>(
    cluster: ClusterModel<N>,
    jobs: Seq<JobModel<N>>,
    job: int,
    loading: bool,
    servers: Seq<i32>,
    other: i32,
)
    ensures
        cluster.unprofiled_on(jobs, job, loading, servers).contains(other) <==> {
            let mine = jobs[job];
            let theirs = jobs[other as int];
            let known = if loading {
                cluster.corun_profile.knows_loading(mine, theirs)
            } else {
                cluster.corun_profile.knows_times(mine, theirs)
            };
            &&& exists|k: int|
                0 <= k < servers.len() && cluster.active_jobs[#[trigger] servers[k] as int].contains(
                    other,
                )
            &&& other != job
            &&& theirs.current_phase != Phase::Completed
            &&& loading || theirs.training_time is Some
            &&& !known
        },
    decreases servers.len(),
{
    let list = cluster.unprofiled_on(jobs, job, loading, servers);
    if servers.len() > 0 {
        let rest = servers.drop_last();
        let before = cluster.unprofiled_on(jobs, job, loading, rest);
        let here = distinct(cluster.active_jobs[servers.last() as int]);
        let lacks = cluster.lacks_entry(jobs, job, loading);
        neighbours_without_an_entry_are_listed(cluster, jobs, job, loading, rest, other);
        lemma_distinct(cluster.active_jobs[servers.last() as int]);
        let kept = here.filter(lacks);
        assert(list == before + kept);
        assert(list.contains(other) <==> before.contains(other) || kept.contains(other)) by {
            if list.contains(other) {
                let i = choose|i: int| 0 <= i < list.len() && list[i] == other;
                if i < before.len() {
                    assert(before[i] == other);
                } else {
                    assert(kept[i - before.len()] == other);
                }
            }
            if before.contains(other) {
                let i = choose|i: int| 0 <= i < before.len() && before[i] == other;
                assert(list[i] == other);
            }
            if kept.contains(other) {
                let i = choose|i: int| 0 <= i < kept.len() && kept[i] == other;
                assert(list[before.len() + i] == other);
            }
        }
        assert(kept.contains(other) <==> here.contains(other) && lacks(other)) by {
            if kept.contains(other) {
                let i = choose|i: int| 0 <= i < kept.len() && kept[i] == other;
                here.lemma_filter_pred(lacks, i);
                here.lemma_filter_contains_rev(lacks, other);
            }
            if here.contains(other) && lacks(other) {
                let i = choose|i: int| 0 <= i < here.len() && here[i] == other;
                here.lemma_filter_contains(lacks, i);
            }
        }
        assert(servers[servers.len() - 1] == servers.last());
        assert forall|k: int| 0 <= k < rest.len() implies rest[k] == #[trigger] servers[k] by {}
        if exists|k: int|
            0 <= k < servers.len() && cluster.active_jobs[#[trigger] servers[k] as int].contains(
                other,
            ) {
            let k = choose|k: int|
                0 <= k < servers.len() && cluster.active_jobs[#[trigger] servers[k] as int].contains(
                    other,
                );
            if k < rest.len() {
                assert(cluster.active_jobs[rest[k] as int].contains(other));
            }
        }
        if exists|k: int|
            0 <= k < rest.len() && cluster.active_jobs[#[trigger] rest[k] as int].contains(other) {
            let k = choose|k: int|
                0 <= k < rest.len() && cluster.active_jobs[#[trigger] rest[k] as int].contains(
                    other,
                );
            assert(cluster.active_jobs[servers[k] as int].contains(other));
        }
    }
}

/// The time since the last change counts as training under the old iteration times: the part of an
/// iteration that computes is consumed by computing, and the rest by communication, up to rounding.
pub proof fn old_times_split_what_was_consumed<N: Scalar>(
    job: JobModel<N>,
    overlap: N,
    time: N,
    value: spec_fn(N) -> real,
    bound: real,
    error: real,
)
    requires
        rounds(value, bound, error),
        time.finite(),
        job.remaining_train_time is Some,
        job.last_change_time matches Some(last) && last.finite() && 0real <= value(time) - value(
            last,
        ) <= bound,
        0real <= value(job.elapsed(time)),
        job.training_time matches Some(training) && training.finite() && 0real <= value(training),
        job.consumed_compute_time matches Some(compute) && compute.finite() && 0real <= value(
            compute,
        ),
        job.consumed_comms_time matches Some(comms) && comms.finite() && 0real <= value(comms),
        value(job.training_time->0) + value(job.elapsed(time)) <= bound,
        value(job.consumed_compute_time->0) + value(job.elapsed(time)) + error <= bound,
        value(job.consumed_comms_time->0) + value(job.elapsed(time)) * (1real + error) + error
            <= bound,
        value(job.elapsed(time)) * (1real + error) <= bound,
        job.iteration_computing_time.finite(),
        0real <= value(job.iteration_computing_time),
        ({
            let pace = iteration_time(
                overlap,
                job.iteration_computing_time,
                job.iteration_networking_time,
            );
            &&& pace.finite()
            &&& 0real < value(pace)
            &&& value(job.iteration_computing_time) <= value(pace)
        }),
    ensures
        ({
            let pace = iteration_time(
                overlap,
                job.iteration_computing_time,
                job.iteration_networking_time,
            );
            let after = job.accounted(overlap, time);
            let passed = value(time) - value(job.last_change_time->0);
            let e = value(job.elapsed(time));
            let part = value(job.iteration_computing_time) / value(pace);
            &&& near(e, passed, error)
            &&& after.training_time matches Some(training) && near(
                value(training),
                value(job.training_time->0) + e,
                error,
            )
            &&& after.consumed_compute_time matches Some(compute) && near(
                value(compute),
                value(job.consumed_compute_time->0) + e * part,
                2real * error + e * error,
            )
            &&& after.consumed_comms_time matches Some(comms) && near(
                value(comms),
                value(job.consumed_comms_time->0) + e * (1real - part),
                2real * error + 2real * (e * error),
            )
        }),
{
    let pace = iteration_time(overlap, job.iteration_computing_time, job.iteration_networking_time);
    let c = value(job.iteration_computing_time);
    let p = value(pace);
    let elapsed = job.elapsed(time);
    let e = value(elapsed);
    let exact = c / p;
    assert(0real <= exact <= 1real) by (nonlinear_arith)
        requires
            exact == c / p,
            0real <= c <= p,
            0real < p,
    ;
    lemma_integer_value(value, 0, bound, error);
    lemma_integer_value(value, 1, bound, error);
    lemma_compared(value, N::integer(0), pace, bound, error);
    lemma_difference_near(value, time, job.last_change_time->0, bound, error);
    lemma_quotient_near(value, job.iteration_computing_time, pace, bound, error);
    let part = job.iteration_computing_time.quotient(pace);
    let q = value(part);
    assert(0real <= q <= 1real) by {
        let none = N::integer(0).quotient(pace);
        let all = pace.quotient(pace);
        assert(0real / p == 0real && p / p == 1real) by (nonlinear_arith)
            requires
                0real < p,
        ;
        lemma_quotient_near(value, N::integer(0), pace, bound, error);
        lemma_quotient_near(value, pace, pace, bound, error);
        assert(value(N::integer(0)) == 0real && value(N::integer(1)) == 1real);
        assert(stands_for(value, none, 0real, bound, error));
        assert(stands_for(value, all, 1real, bound, error));
        assert(value(none) == 0real && value(all) == 1real);
    }
    consumed_time_goes_by_parts(job, elapsed, part, value, bound, error);
    assert(near(e * q, e * exact, e * error)) by (nonlinear_arith)
        requires
            near(q, exact, error),
            0real <= e,
    ;
    assert(e * (1real - q) == e - e * q && e * (1real - exact) == e - e * exact)
        by (nonlinear_arith);
}

} // verus!
