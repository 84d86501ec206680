//! Skipping over whole cycles of jobs that repeat the same pattern.

use vstd::prelude::*;

use crate::cycles::{
    find_cycle, put_cycle, CycleEntry, CycleKey, CycleProfile, CycleSnapshot, CycleStats,
    EntryModel, KeyModel, ProfileModel, Progress, SnapshotModel,
};
use crate::gpu_cluster::{arena, iteration_time, ClusterModel, GPUCluster, System};
use crate::gpu_job::{value_or, GpuJob, JobModel, Phase};
use crate::lcm_utils::{
    checked_lcm_many, divides, lcm_of_all, lcm_of_all_is_least_common_multiple,
};
use crate::lists::{distinct, distinct_of, lemma_distinct};
use crate::progress::{
    lemma_active_ids, lemma_changed_end, lemma_changed_start, lemma_changed_step, only, or_else,
    raise, raised, Change,
};
use crate::ranking::{ascending, ranked_is_sorted, sort_ascending};
use crate::rounding::{
    lemma_integer_value, lemma_product_near, lemma_quotient_near, lemma_sum_near, near, rounds,
    ticks_value, EXACT_INTEGER,
};
use crate::scalar::{clamp_i64, clamped, wide_product, zero, Scalar, Ticks};
use crate::timer::{EventType, Timer};

verus! {

/// The parts of a unit of bandwidth that a cycle is recognised by.
pub const BANDWIDTH_PARTS: i64 = 1_000_000;

/// Where two numbers of ticks differ by.
pub open spec fn ticks_between(early: i64, late: i64) -> i64 {
    clamped(late - early)
}

impl<N: Scalar> ClusterModel<N> {
    /// The tick of a time.
    pub open spec fn tick(self, time: N) -> i64 {
        time.product(self.time_scale).rounded()
    }

    /// The time of a tick.
    pub open spec fn time_of(self, tick: i64) -> N {
        N::integer(tick).quotient(self.time_scale)
    }

    /// The iteration time of a job without contention, in ticks.
    pub open spec fn base_ticks(self, job: JobModel<N>) -> i64 {
        self.tick(
            iteration_time(
                self.overlapping_ratio,
                job.iteration_computing_time,
                job.iteration_networking_time,
            ),
        )
    }

    /// The iteration times in ticks of those jobs where that is positive.
    pub open spec fn positive_ticks(self, jobs: Seq<JobModel<N>>, ids: Seq<i32>) -> Seq<i64>
        decreases ids.len(),
    {
        if ids.len() == 0 {
            Seq::empty()
        } else {
            let rest = self.positive_ticks(jobs, ids.drop_last());
            let ticks = self.base_ticks(jobs[ids.last() as int]);
            if ticks > 0 {
                rest.push(ticks)
            } else {
                rest
            }
        }
    }

    /// The least common multiple of the iteration times in ticks, where it fits;
    /// zero where there is none.
    pub open spec fn base_lcm(self, jobs: Seq<JobModel<N>>, ids: Seq<i32>) -> Option<i64> {
        let ticks = self.positive_ticks(jobs, ids);
        if ticks.len() == 0 {
            Some(0)
        } else if lcm_of_all(ticks) <= i64::MAX {
            Some(lcm_of_all(ticks) as i64)
        } else {
            None
        }
    }

    /// What a cycle is recognised by in one job.
    pub open spec fn entry(self, job: JobModel<N>, id: i32, slowest: int) -> EntryModel {
        let servers = ascending(distinct(job.allocated));
        EntryModel {
            job: id,
            lead: job.current_iteration - slowest,
            allocated: ascending(job.allocated),
            ps_allocated: ascending(job.ps_allocated),
            intra: if self.interference_model.looks_inside() {
                Seq::new(
                    servers.len(),
                    |i: int|
                        (
                            servers[i],
                            job.intra_demand(servers[i]).product(
                                N::integer(BANDWIDTH_PARTS),
                            ).rounded(),
                        ),
                )
            } else {
                Seq::empty()
            },
        }
    }

    /// What the present cycle is recognised by.
    pub open spec fn cycle_key(self, jobs: Seq<JobModel<N>>, ids: Seq<i32>) -> KeyModel {
        KeyModel {
            epoch: self.placement_epoch,
            model: self.interference_model,
            base_lcm: self.base_lcm(jobs, ids),
            entries: Seq::new(
                ids.len(),
                |k: int| self.entry(jobs[ids[k] as int], ids[k], fewest_iterations(jobs, ids)),
            ),
        }
    }

    /// Whether all jobs start to compute at a tick.
    pub open spec fn all_start(self, jobs: Seq<JobModel<N>>, ids: Seq<i32>, tick: i64) -> bool {
        &&& ids.len() > 0
        &&& forall|k: int|
            0 <= k < ids.len() ==> {
                let job = jobs[#[trigger] ids[k] as int];
                &&& job.current_phase == Phase::Compute
                &&& job.phase_start_time is Some
                &&& self.tick(job.phase_start_time->0) == tick
            }
    }

    /// Whether what is stored of a cycle speaks of the jobs that the cycle is
    /// recognised by.
    pub open spec fn cycles_match(self) -> bool {
        &&& forall|key: KeyModel| #[trigger]
            self.cycle_observation_cache.contains_key(key) ==> speaks_of(
                self.cycle_observation_cache[key].progress,
                key,
            )
        &&& forall|key: KeyModel| #[trigger]
            self.cycle_profiles.contains_key(key) ==> speaks_of(
                self.cycle_profiles[key].deltas,
                key,
            )
    }

    /// How many cycles fit before the next event that changes which jobs run.
    pub open spec fn cycles_before_event(
        self,
        period: i64,
        tick: i64,
        next: Option<(N, EventType, i32)>,
    ) -> int {
        match next {
            Some((time, event_type, job)) => {
                let room = self.tick(time) - tick - 1;
                if room < period {
                    0
                } else {
                    room / period as int
                }
            },
            None => i64::MAX as int,
        }
    }

    /// How many cycles to skip: as many as fit before the next event that changes which
    /// jobs run and before any job is through.
    pub open spec fn jump_count(
        self,
        profile: ProfileModel<N>,
        jobs: Seq<JobModel<N>>,
        ids: Seq<i32>,
        tick: i64,
        next: Option<(N, EventType, i32)>,
    ) -> int {
        if profile.period_ticks <= 0 {
            0
        } else {
            let by_event = self.cycles_before_event(profile.period_ticks, tick, next);
            let by_job = cycles_before_end(profile.deltas, jobs, ids);
            if by_event < by_job {
                by_event
            } else {
                by_job
            }
        }
    }
}

/// Whether the progress of jobs is that of the jobs of a key.
pub open spec fn speaks_of<N>(progress: Seq<Progress<N>>, key: KeyModel) -> bool {
    &&& progress.len() == key.entries.len()
    &&& forall|k: int|
        0 <= k < progress.len() ==> (#[trigger] progress[k]).job == key.entries[k].job
}

/// The fewest iterations that any of some jobs has done.
pub open spec fn fewest_iterations<N: Scalar>(jobs: Seq<JobModel<N>>, ids: Seq<i32>) -> int
    decreases ids.len(),
{
    if ids.len() == 0 {
        0
    } else {
        let rest = fewest_iterations(jobs, ids.drop_last());
        let last = jobs[ids.last() as int].current_iteration as int;
        if ids.len() == 1 || last < rest {
            last
        } else {
            rest
        }
    }
}

/// How many cycles fit before a job is through, at some iterations for each cycle.
pub open spec fn cycles_before_job_end<N: Scalar>(job: JobModel<N>, iterations: i64) -> int {
    let left = job.iteration_number.truncated() - 1 - job.current_iteration;
    if iterations <= 0 || left < 0 {
        0
    } else {
        left / iterations as int
    }
}

/// How many cycles fit before any of some jobs is through.
pub open spec fn cycles_before_end<N: Scalar>(
    deltas: Seq<Progress<N>>,
    jobs: Seq<JobModel<N>>,
    ids: Seq<i32>,
) -> int
    decreases ids.len(),
{
    if ids.len() == 0 {
        i64::MAX as int
    } else {
        let rest = cycles_before_end(deltas, jobs, ids.drop_last());
        let last = cycles_before_job_end(
            jobs[ids.last() as int],
            deltas[ids.len() - 1].iterations,
        );
        if last < rest {
            last
        } else {
            rest
        }
    }
}

/// How far some jobs have come.
pub open spec fn snapshot_of<N: Scalar>(
    jobs: Seq<JobModel<N>>,
    ids: Seq<i32>,
    tick: i64,
) -> SnapshotModel<N> {
    SnapshotModel {
        tick,
        progress: Seq::new(
            ids.len(),
            |k: int|
                {
                    let job = jobs[ids[k] as int];
                    Progress {
                        job: ids[k],
                        iterations: job.current_iteration,
                        training: value_or(job.training_time, zero()),
                        compute: value_or(job.consumed_compute_time, zero()),
                        comms: value_or(job.consumed_comms_time, zero()),
                    }
                },
        ),
    }
}

/// How far a job comes from one progress to another.
pub open spec fn gain<N: Scalar>(from: Progress<N>, to: Progress<N>) -> Progress<N> {
    Progress {
        job: to.job,
        iterations: clamped(to.iterations - from.iterations),
        training: to.training.difference(from.training),
        compute: to.compute.difference(from.compute),
        comms: to.comms.difference(from.comms),
    }
}

/// The cycle between two snapshots of the same jobs, if time went by and every job
/// did iterations.
pub open spec fn cycle_between<N: Scalar>(
    from: SnapshotModel<N>,
    to: SnapshotModel<N>,
) -> Option<ProfileModel<N>> {
    if ticks_between(from.tick, to.tick) > 0 && forall|k: int|
        0 <= k < to.progress.len() ==> #[trigger] to.progress[k].iterations
            > from.progress[k].iterations {
        Some(
            ProfileModel {
                period_ticks: ticks_between(from.tick, to.tick),
                deltas: Seq::new(
                    to.progress.len(),
                    |k: int| gain(from.progress[k], to.progress[k]),
                ),
            },
        )
    } else {
        None
    }
}

impl<N: Scalar> JobModel<N> {
    /// The iterations that the job will have done after some cycles.
    pub open spec fn iterations_ahead(self, delta: Progress<N>, periods: int) -> i64 {
        (self.current_iteration + delta.iterations * periods) as i64
    }

    /// The job after some cycles, at the start of a compute phase.
    pub open spec fn jumped(self, delta: Progress<N>, periods: int, start: N) -> JobModel<N> {
        let times = N::integer(periods as i64);
        JobModel {
            current_iteration: self.iterations_ahead(delta, periods),
            completed_iterations: Some(N::integer(self.iterations_ahead(delta, periods))),
            training_time: raised(self.training_time, delta.training.product(times)),
            consumed_compute_time: raised(
                self.consumed_compute_time,
                delta.compute.product(times),
            ),
            consumed_comms_time: raised(self.consumed_comms_time, delta.comms.product(times)),
            phase_start_time: Some(start),
            last_change_time: Some(start),
            ..self
        }
    }
}

impl<N: Scalar> System<N> {
    /// The active jobs that train, in the order of their numbers.
    pub open spec fn training_ids(self) -> Seq<i32> {
        ascending(self.cluster.active_ids().filter(|job: i32| self.jobs[job as int].trains()))
    }

    /// Whether cycles are skipped, and one may start at a time.
    pub open spec fn cycle_may_start(self, time: N) -> bool {
        &&& self.cluster.interference_model.skips_cycles()
        &&& self.cluster.enable_lcm_cycle_jump
        &&& self.cluster.all_start(self.jobs, self.training_ids(), self.cluster.tick(time))
    }

    /// What the present cycle is recognised by.
    pub open spec fn present_key(self) -> KeyModel {
        self.cluster.cycle_key(self.jobs, self.training_ids())
    }

    /// How many cycles to skip at a time.
    pub open spec fn cycles_to_skip(self, time: N, next: Option<(N, EventType, i32)>) -> int {
        if self.cycle_may_start(time) && self.cluster.cycle_profiles.contains_key(
            self.present_key(),
        ) {
            self.cluster.jump_count(
                self.cluster.cycle_profiles[self.present_key()],
                self.jobs,
                self.training_ids(),
                self.cluster.tick(time),
                next,
            )
        } else {
            0
        }
    }

    /// What skipping some cycles does to the jobs.
    pub open spec fn skip(
        self,
        ids: Seq<i32>,
        profile: ProfileModel<N>,
        periods: int,
        time: N,
    ) -> Change<N> {
        let start = time.sum(
            self.cluster.time_of(clamped(periods * profile.period_ticks)),
        );
        |job: int|
            if 0 <= job < self.jobs.len() && job <= i32::MAX && ids.contains(job as i32) {
                Some(
                    (
                        self.jobs[job].jumped(
                            profile.deltas[ids.index_of(job as i32)],
                            periods,
                            start,
                        ),
                        Some(start.sum(self.jobs[job].iteration_computing_time)),
                    ),
                )
            } else {
                None
            }
    }

    /// The state with some cycles skipped.
    pub open spec fn skipped(self, time: N, periods: int) -> System<N> {
        let profile = self.cluster.cycle_profiles[self.present_key()];
        let stats = self.cluster.cycle_stats;
        let ticks = clamped(periods * profile.period_ticks);
        System {
            cluster: ClusterModel {
                cycle_stats: CycleStats {
                    observed_sync: wrapped(stats.observed_sync, 1),
                    jump_applied: wrapped(stats.jump_applied, 1),
                    jump_periods: wrapped(stats.jump_periods, periods as u64),
                    jumped_ticks: wrapped(stats.jumped_ticks, ticks as u64),
                    ..stats
                },
                ..self.cluster
            },
            ..self.changed(self.skip(self.training_ids(), profile, periods, time))
        }
    }

    /// The state with the present cycle noted: how far the jobs are and, where they were
    /// noted before, what a cycle does to them.
    pub open spec fn noted(self, time: N) -> System<N> {
        let key = self.present_key();
        let cluster = self.cluster;
        let stats = cluster.cycle_stats;
        let now = snapshot_of(self.jobs, self.training_ids(), cluster.tick(time));
        let cycle = if cluster.cycle_observation_cache.contains_key(key) {
            cycle_between(cluster.cycle_observation_cache[key], now)
        } else {
            None
        };
        System {
            cluster: ClusterModel {
                cycle_stats: CycleStats {
                    observed_sync: wrapped(stats.observed_sync, 1),
                    cycle_detected: if cycle is Some {
                        wrapped(stats.cycle_detected, 1)
                    } else {
                        stats.cycle_detected
                    },
                    ..stats
                },
                cycle_profiles: match cycle {
                    Some(profile) => cluster.cycle_profiles.insert(key, profile),
                    None => cluster.cycle_profiles,
                },
                cycle_observation_cache: cluster.cycle_observation_cache.insert(key, now),
                ..cluster
            },
            ..self
        }
    }

    /// The state with cycles skipped where some can be, or else with the present one
    /// noted where it may start one.
    pub open spec fn cycled(self, time: N, next: Option<(N, EventType, i32)>) -> System<N> {
        if self.cycles_to_skip(time, next) > 0 {
            self.skipped(time, self.cycles_to_skip(time, next))
        } else if self.cycle_may_start(time) {
            self.noted(time)
        } else {
            self
        }
    }
}

/// A counter raised, going on from zero at the end of its range.
pub open spec fn wrapped(counter: u64, by: u64) -> u64 {
    if counter + by > u64::MAX {
        (counter + by - u64::MAX - 1) as u64
    } else {
        (counter + by) as u64
    }
}

fn wrap_add(counter: u64, by: u64) -> (result: u64)
    ensures
        result == wrapped(counter, by),
{
    counter.wrapping_add(by)
}

impl<N: Scalar> GpuJob<N> {
    /// Carries the job over some cycles, to the start of a compute phase.
    fn jump(&mut self, delta: Progress<N>, periods: i64, start: N)
        requires
            i64::MIN <= old(self)@.current_iteration + delta.iterations * periods <= i64::MAX,
        ensures
            final(self)@ == old(self)@.jumped(delta, periods as int, start),
    {
        let times: N = N::of_int(periods);
        let ahead: i128 = wide_product(delta.iterations, periods);
        self.current_iteration = (self.current_iteration as i128 + ahead) as i64;
        self.completed_iterations = Some(N::of_int(self.current_iteration));
        self.training_time = raise(self.training_time, delta.training.times(times));
        self.consumed_compute_time = raise(self.consumed_compute_time, delta.compute.times(times));
        self.consumed_comms_time = raise(self.consumed_comms_time, delta.comms.times(times));
        self.phase_start_time = Some(start);
        self.last_change_time = Some(start);
    }
}

/// The active jobs that train are listed once each.
pub(crate) proof fn lemma_training_ids<N: Scalar>(state: System<N>)
    requires
        state.cluster.knows_jobs(state.jobs.len()),
    ensures
        state.training_ids().no_duplicates(),
        forall|k: int|
            0 <= k < state.training_ids().len() ==> {
                let id = #[trigger] state.training_ids()[k];
                &&& 0 <= id < state.jobs.len()
                &&& state.cluster.active(id as int)
                &&& state.jobs[id as int].trains()
            },
{
    let trains = |job: i32| state.jobs[job as int].trains();
    let active = state.cluster.active_ids();
    let kept = active.filter(trains);
    lemma_active_ids(state.cluster, state.jobs.len());
    lemma_filter_no_duplicates(active, trains);
    ranked_is_sorted(kept, |item: i32| item as int, |item: i32| item as int);
    assert forall|k: int| 0 <= k < state.training_ids().len() implies {
        let id = #[trigger] state.training_ids()[k];
        &&& 0 <= id < state.jobs.len()
        &&& state.cluster.active(id as int)
        &&& state.jobs[id as int].trains()
    } by {
        let id = state.training_ids()[k];
        assert(state.training_ids().contains(id));
        assert(kept.contains(id));
        let i = choose|i: int| 0 <= i < kept.len() && kept[i] == id;
        active.lemma_filter_pred(trains, i);
        active.lemma_filter_contains_rev(trains, id);
        let m = choose|m: int| 0 <= m < active.len() && active[m] == id;
        assert(0 <= active[m] < state.jobs.len());
    }
}

proof fn lemma_filter_no_duplicates(list: Seq<i32>, keep: spec_fn(i32) -> bool)
    requires
        list.no_duplicates(),
    ensures
        list.filter(keep).no_duplicates(),
    decreases list.len(),
{
    reveal(Seq::filter);
    if list.len() > 0 {
        let rest = list.drop_last();
        lemma_filter_no_duplicates(rest, keep);
        let kept = rest.filter(keep);
        if kept.contains(list.last()) {
            rest.lemma_filter_contains_rev(keep, list.last());
            let i = choose|i: int| 0 <= i < rest.len() && rest[i] == list.last();
            assert(list[i] == list[list.len() - 1]);
        }
    }
}

impl<N: Scalar> GPUCluster<N> {
    fn to_tick(&self, time: N) -> (result: i64)
        ensures
            result == self@.tick(time),
    {
        time.times(self.time_scale).round()
    }

    fn from_tick(&self, tick: i64) -> (result: N)
        ensures
            result == self@.time_of(tick),
    {
        N::of_int(tick).over(self.time_scale)
    }

    /// The active jobs that train, in the order of their numbers.
    fn get_unique_active_training_job_ids(
        &self,
        jobs: &Vec<GpuJob<N>>,
        Ghost(state): Ghost<System<N>>,
    ) -> (result: Vec<i32>)
        requires
            state.cluster == self@,
            state.jobs == arena(jobs@),
            self@.knows_jobs(jobs@.len()),
        ensures
            result@ == state.training_ids(),
    {
        let ids: Vec<i32> = self.active_job_ids();
        let ghost trains = |job: i32| state.jobs[job as int].trains();
        let mut kept: Vec<i32> = Vec::new();
        let mut k: usize = 0;
        proof {
            reveal(Seq::filter);
            lemma_active_ids(self@, state.jobs.len());
            assert(ids@.take(0) =~= Seq::<i32>::empty());
        }
        while k < ids.len()
            invariant
                k <= ids@.len(),
                state.jobs == arena(jobs@),
                trains == (|job: i32| state.jobs[job as int].trains()),
                forall|i: int|
                    0 <= i < ids@.len() ==> 0 <= #[trigger] ids@[i] < state.jobs.len(),
                kept@ == ids@.take(k as int).filter(trains),
            decreases ids@.len() - k,
        {
            let job_id: i32 = ids[k];
            proof {
                reveal(Seq::filter);
                assert(ids@.take(k + 1).drop_last() =~= ids@.take(k as int));
                assert(ids@.take(k + 1).last() == job_id);
                assert(0 <= ids@[k as int] < state.jobs.len());
                assert(state.jobs[job_id as int] == jobs@[job_id as int]@);
            }
            let job = &jobs[job_id as usize];
            if job.training_time.is_some() && job.current_phase != Phase::Completed {
                assert(trains(job_id));
                kept.push(job_id);
            } else {
                assert(!trains(job_id));
            }
            k += 1;
        }
        assert(ids@.take(k as int) =~= ids@);
        sort_ascending(&kept)
    }

    /// The least common multiple of the iteration times in ticks, where it fits.
    fn compute_base_lcm_ticks(&self, job_ids: &Vec<i32>, jobs: &Vec<GpuJob<N>>) -> (result: Option<
        i64,
    >)
        requires
            forall|k: int| 0 <= k < job_ids@.len() ==> 0 <= #[trigger] job_ids@[k] < jobs@.len(),
        ensures
            result == self@.base_lcm(arena(jobs@), job_ids@),
    {
        let ghost model = self@;
        let ghost states = arena(jobs@);
        let mut ticks: Vec<i64> = Vec::new();
        let mut k: usize = 0;
        assert(job_ids@.take(0) =~= Seq::<i32>::empty());
        while k < job_ids.len()
            invariant
                k <= job_ids@.len(),
                model == self@,
                states == arena(jobs@),
                forall|i: int|
                    0 <= i < job_ids@.len() ==> 0 <= #[trigger] job_ids@[i] < jobs@.len(),
                ticks@ == model.positive_ticks(states, job_ids@.take(k as int)),
                forall|i: int| 0 <= i < ticks@.len() ==> #[trigger] ticks@[i] > 0,
            decreases job_ids@.len() - k,
        {
            let job_id: i32 = job_ids[k];
            proof {
                assert(job_ids@.take(k + 1).drop_last() =~= job_ids@.take(k as int));
                assert(0 <= job_ids@[k as int] < jobs@.len());
                assert(states[job_id as int] == jobs@[job_id as int]@);
            }
            let job = &jobs[job_id as usize];
            let iteration: N = self.effective_iteration_time(job, job.iteration_networking_time);
            let tick: i64 = self.to_tick(iteration);
            if tick > 0 {
                ticks.push(tick);
            }
            k += 1;
        }
        assert(job_ids@.take(k as int) =~= job_ids@);
        if ticks.len() == 0 {
            return Some(0);
        }
        checked_lcm_many(ticks.as_slice())
    }

    /// What a cycle is recognised by in the bandwidth that a job asks inside servers.
    fn intra_signature(&self, job: &GpuJob<N>) -> (result: Vec<(i32, i64)>)
        ensures
            result@ == self@.entry(job@, 0, 0).intra,
    {
        let mut result: Vec<(i32, i64)> = Vec::new();
        if self.interference_model.is_intra_model() {
            let servers: Vec<i32> = sort_ascending(&distinct_of(&job.allocated));
            let mut i: usize = 0;
            while i < servers.len()
                invariant
                    i <= servers@.len(),
                    result@.len() == i,
                    forall|j: int|
                        0 <= j < i ==> #[trigger] result@[j] == (
                            servers@[j],
                            job@.intra_demand(servers@[j]).product(
                                N::integer(BANDWIDTH_PARTS),
                            ).rounded(),
                        ),
                decreases servers@.len() - i,
            {
                let server: i32 = servers[i];
                let bandwidth: i64 = job.required_intra_bandwidth_per_server(server).times(
                    N::of_int(BANDWIDTH_PARTS),
                ).round();
                result.push((server, bandwidth));
                i += 1;
            }
        }
        assert(result@ =~= self@.entry(job@, 0, 0).intra);
        result
    }

    /// The fewest iterations that any of some jobs has done.
    fn min_iteration(job_ids: &Vec<i32>, jobs: &Vec<GpuJob<N>>) -> (result: i64)
        requires
            forall|k: int| 0 <= k < job_ids@.len() ==> 0 <= #[trigger] job_ids@[k] < jobs@.len(),
        ensures
            result == fewest_iterations(arena(jobs@), job_ids@),
    {
        let ghost states = arena(jobs@);
        let mut result: i64 = 0;
        let mut k: usize = 0;
        assert(job_ids@.take(0) =~= Seq::<i32>::empty());
        while k < job_ids.len()
            invariant
                k <= job_ids@.len(),
                states == arena(jobs@),
                forall|i: int|
                    0 <= i < job_ids@.len() ==> 0 <= #[trigger] job_ids@[i] < jobs@.len(),
                result == fewest_iterations(states, job_ids@.take(k as int)),
            decreases job_ids@.len() - k,
        {
            let job_id: i32 = job_ids[k];
            proof {
                assert(job_ids@.take(k + 1).drop_last() =~= job_ids@.take(k as int));
                assert(0 <= job_ids@[k as int] < jobs@.len());
                assert(states[job_id as int] == jobs@[job_id as int]@);
            }
            let iteration: i64 = jobs[job_id as usize].current_iteration;
            if k == 0 || iteration < result {
                result = iteration;
            }
            k += 1;
        }
        assert(job_ids@.take(k as int) =~= job_ids@);
        result
    }

    /// What the present cycle is recognised by.
    fn build_cycle_key(&self, job_ids: &Vec<i32>, jobs: &Vec<GpuJob<N>>) -> (result: CycleKey)
        requires
            forall|k: int| 0 <= k < job_ids@.len() ==> 0 <= #[trigger] job_ids@[k] < jobs@.len(),
        ensures
            result@ == self@.cycle_key(arena(jobs@), job_ids@),
    {
        let ghost model = self@;
        let ghost states = arena(jobs@);
        let min_iteration: i64 = Self::min_iteration(job_ids, jobs);
        let mut entries: Vec<CycleEntry> = Vec::new();
        let mut k: usize = 0;
        while k < job_ids.len()
            invariant
                k <= job_ids@.len(),
                model == self@,
                states == arena(jobs@),
                min_iteration == fewest_iterations(states, job_ids@),
                forall|i: int|
                    0 <= i < job_ids@.len() ==> 0 <= #[trigger] job_ids@[i] < jobs@.len(),
                entries@.len() == k,
                forall|i: int|
                    0 <= i < k ==> (#[trigger] entries@[i])@ == model.entry(
                        states[job_ids@[i] as int],
                        job_ids@[i],
                        min_iteration as int,
                    ),
            decreases job_ids@.len() - k,
        {
            let job_id: i32 = job_ids[k];
            proof {
                assert(0 <= job_ids@[k as int] < jobs@.len());
                assert(states[job_id as int] == jobs@[job_id as int]@);
            }
            let job = &jobs[job_id as usize];
            let entry = CycleEntry {
                job: job_id,
                lead: job.current_iteration as i128 - min_iteration as i128,
                allocated: sort_ascending(&job.allocated),
                ps_allocated: sort_ascending(&job.ps_allocated),
                intra: self.intra_signature(job),
            };
            assert(entry@ == model.entry(job@, job_id, min_iteration as int));
            entries.push(entry);
            k += 1;
        }
        let base_lcm: Option<i64> = self.compute_base_lcm_ticks(job_ids, jobs);
        let result = CycleKey {
            epoch: self.placement_epoch,
            model: self.interference_model,
            base_lcm,
            entries,
        };
        assert(result@.entries =~= model.cycle_key(states, job_ids@).entries);
        result
    }

    /// Whether all jobs start to compute at a tick.
    fn all_active_jobs_sync_compute_start(
        &self,
        job_ids: &Vec<i32>,
        jobs: &Vec<GpuJob<N>>,
        current_tick: i64,
    ) -> (result: bool)
        requires
            forall|k: int| 0 <= k < job_ids@.len() ==> 0 <= #[trigger] job_ids@[k] < jobs@.len(),
        ensures
            result == self@.all_start(arena(jobs@), job_ids@, current_tick),
    {
        if job_ids.len() == 0 {
            return false;
        }
        let ghost model = self@;
        let ghost states = arena(jobs@);
        let mut k: usize = 0;
        while k < job_ids.len()
            invariant
                k <= job_ids@.len(),
                model == self@,
                states == arena(jobs@),
                forall|i: int|
                    0 <= i < job_ids@.len() ==> 0 <= #[trigger] job_ids@[i] < jobs@.len(),
                forall|i: int|
                    0 <= i < k ==> {
                        let job = states[#[trigger] job_ids@[i] as int];
                        &&& job.current_phase == Phase::Compute
                        &&& job.phase_start_time is Some
                        &&& model.tick(job.phase_start_time->0) == current_tick
                    },
            decreases job_ids@.len() - k,
        {
            let job_id: i32 = job_ids[k];
            proof {
                assert(0 <= job_ids@[k as int] < jobs@.len());
                assert(states[job_id as int] == jobs@[job_id as int]@);
            }
            let job = &jobs[job_id as usize];
            if job.current_phase != Phase::Compute {
                return false;
            }
            match job.phase_start_time {
                Some(start) => {
                    if self.to_tick(start) != current_tick {
                        return false;
                    }
                },
                None => {
                    return false;
                },
            }
            k += 1;
        }
        true
    }

    /// How far some jobs have come.
    fn build_cycle_snapshot(
        &self,
        job_ids: &Vec<i32>,
        jobs: &Vec<GpuJob<N>>,
        current_tick: i64,
    ) -> (result: CycleSnapshot<N>)
        requires
            forall|k: int| 0 <= k < job_ids@.len() ==> 0 <= #[trigger] job_ids@[k] < jobs@.len(),
        ensures
            result@ == snapshot_of(arena(jobs@), job_ids@, current_tick),
    {
        let ghost states = arena(jobs@);
        let ghost wanted = snapshot_of(states, job_ids@, current_tick);
        let mut progress: Vec<Progress<N>> = Vec::new();
        let mut k: usize = 0;
        while k < job_ids.len()
            invariant
                k <= job_ids@.len(),
                states == arena(jobs@),
                wanted == snapshot_of(states, job_ids@, current_tick),
                forall|i: int|
                    0 <= i < job_ids@.len() ==> 0 <= #[trigger] job_ids@[i] < jobs@.len(),
                progress@.len() == k,
                forall|i: int| 0 <= i < k ==> #[trigger] progress@[i] == wanted.progress[i],
            decreases job_ids@.len() - k,
        {
            let job_id: i32 = job_ids[k];
            proof {
                assert(0 <= job_ids@[k as int] < jobs@.len());
                assert(states[job_id as int] == jobs@[job_id as int]@);
            }
            let job = &jobs[job_id as usize];
            progress.push(
                Progress {
                    job: job_id,
                    iterations: job.current_iteration,
                    training: or_else(job.training_time, N::of_int(0)),
                    compute: or_else(job.consumed_compute_time, N::of_int(0)),
                    comms: or_else(job.consumed_comms_time, N::of_int(0)),
                },
            );
            k += 1;
        }
        assert(progress@ =~= wanted.progress);
        CycleSnapshot { tick: current_tick, progress }
    }

    /// How many cycles to skip.
    fn compute_jump_count(
        &self,
        profile: &CycleProfile<N>,
        job_ids: &Vec<i32>,
        jobs: &Vec<GpuJob<N>>,
        current_tick: i64,
        next: Option<(N, EventType, i32)>,
    ) -> (result: i64)
        requires
            forall|k: int| 0 <= k < job_ids@.len() ==> 0 <= #[trigger] job_ids@[k] < jobs@.len(),
            profile@.deltas.len() == job_ids@.len(),
        ensures
            result == self@.jump_count(profile@, arena(jobs@), job_ids@, current_tick, next),
            result >= 0,
    {
        let ghost states = arena(jobs@);
        let period: i64 = profile.period_ticks;
        if period <= 0 {
            return 0;
        }
        let by_event: i128 = match next {
            Some((time, _, _)) => {
                let room: i128 = self.to_tick(time) as i128 - current_tick as i128 - 1;
                if room < period as i128 {
                    0
                } else {
                    let cycles: i128 = room / period as i128;
                    assert(0 <= cycles <= room) by (nonlinear_arith)
                        requires
                            cycles == room / period as i128,
                            room >= 0,
                            period > 0,
                    ;
                    cycles
                }
            },
            None => i64::MAX as i128,
        };
        let mut by_job: i64 = i64::MAX;
        let mut k: usize = 0;
        assert(job_ids@.take(0) =~= Seq::<i32>::empty());
        while k < job_ids.len()
            invariant
                k <= job_ids@.len() == profile@.deltas.len(),
                states == arena(jobs@),
                forall|i: int|
                    0 <= i < job_ids@.len() ==> 0 <= #[trigger] job_ids@[i] < jobs@.len(),
                by_job == cycles_before_end(profile@.deltas, states, job_ids@.take(k as int)),
                by_job >= 0,
            decreases job_ids@.len() - k,
        {
            let job_id: i32 = job_ids[k];
            proof {
                assert(job_ids@.take(k + 1).drop_last() =~= job_ids@.take(k as int));
                assert(0 <= job_ids@[k as int] < jobs@.len());
                assert(states[job_id as int] == jobs@[job_id as int]@);
            }
            let job = &jobs[job_id as usize];
            let delta: i64 = profile.deltas[k].iterations;
            let left: i128 = job.iteration_number.trunc() as i128 - 1
                - job.current_iteration as i128;
            let cycles: i128 = if delta <= 0 || left < 0 {
                0
            } else {
                let cycles: i128 = left / delta as i128;
                assert(0 <= cycles <= left) by (nonlinear_arith)
                    requires
                        cycles == left / delta as i128,
                        left >= 0,
                        delta > 0,
                ;
                cycles
            };
            if cycles < by_job as i128 {
                by_job = cycles as i64;
            }
            k += 1;
        }
        assert(job_ids@.take(k as int) =~= job_ids@);
        if by_event < by_job as i128 {
            by_event as i64
        } else {
            by_job
        }
    }
}

/// No more cycles fit before the end of any job than before the end of each.
proof fn lemma_cycles_before_end<N: Scalar>(
    deltas: Seq<Progress<N>>,
    jobs: Seq<JobModel<N>>,
    ids: Seq<i32>,
    k: int,
)
    requires
        0 <= k < ids.len(),
    ensures
        cycles_before_end(deltas, jobs, ids) <= cycles_before_job_end(
            jobs[ids[k] as int],
            deltas[k].iterations,
        ),
    decreases ids.len(),
{
    if k < ids.len() - 1 {
        lemma_cycles_before_end(deltas, jobs, ids.drop_last(), k);
    }
}

/// Skipping cycles stops before any job does its last iteration: the iterations of
/// every job after it are more than before and fewer than all.
pub proof fn jumps_end_before_the_jobs<N: Scalar>(
    cluster: ClusterModel<N>,
    profile: ProfileModel<N>,
    jobs: Seq<JobModel<N>>,
    ids: Seq<i32>,
    tick: i64,
    next: Option<(N, EventType, i32)>,
    k: int,
)
    requires
        0 <= k < ids.len(),
        cluster.jump_count(profile, jobs, ids, tick, next) > 0,
    ensures
        ({
            let job = jobs[ids[k] as int];
            let periods = cluster.jump_count(profile, jobs, ids, tick, next);
            let ahead = job.current_iteration + profile.deltas[k].iterations * periods;
            &&& job.current_iteration < ahead < job.iteration_number.truncated()
            &&& job.iterations_ahead(profile.deltas[k], periods) == ahead
        }),
{
    let job = jobs[ids[k] as int];
    let periods = cluster.jump_count(profile, jobs, ids, tick, next);
    let delta = profile.deltas[k].iterations as int;
    let left = job.iteration_number.truncated() - 1 - job.current_iteration;
    lemma_cycles_before_end(profile.deltas, jobs, ids, k);
    assert(delta > 0 && left >= 0 && periods <= left / delta);
    assert(delta * periods <= left) by (nonlinear_arith)
        requires
            delta > 0,
            left >= 0,
            periods <= left / delta,
    ;
    assert(delta * periods >= 1) by (nonlinear_arith)
        requires
            delta >= 1,
            periods >= 1,
    ;
}

/// Skipping cycles stops before the next event that changes which jobs run.
pub proof fn jumps_end_before_the_next_event<N: Scalar>(
    cluster: ClusterModel<N>,
    profile: ProfileModel<N>,
    jobs: Seq<JobModel<N>>,
    ids: Seq<i32>,
    tick: i64,
    next: (N, EventType, i32),
)
    requires
        cluster.jump_count(profile, jobs, ids, tick, Some(next)) > 0,
    ensures
        tick + cluster.jump_count(profile, jobs, ids, tick, Some(next)) * profile.period_ticks
            < cluster.tick(next.0),
{
    let periods = cluster.jump_count(profile, jobs, ids, tick, Some(next));
    let period = profile.period_ticks as int;
    let room = cluster.tick(next.0) - tick - 1;
    assert(periods * period <= room) by (nonlinear_arith)
        requires
            period > 0,
            room >= period,
            periods <= room / period,
    ;
}

impl<N: Scalar> GPUCluster<N> {
    /// Carries some jobs over some cycles.
    fn carry_over(
        &self,
        job_ids: &Vec<i32>,
        jobs: &mut Vec<GpuJob<N>>,
        profile: &CycleProfile<N>,
        jump_periods: i64,
        current_time: N,
        timer: &mut Timer<N>,
    )
        requires
            (System { cluster: self@, jobs: arena(old(jobs)@), timer: old(timer)@ }).is_sound(),
            old(timer).wf(),
            job_ids@ == (System {
                cluster: self@,
                jobs: arena(old(jobs)@),
                timer: old(timer)@,
            }).training_ids(),
            profile@.deltas.len() == job_ids@.len(),
            forall|k: int|
                0 <= k < job_ids@.len() ==> i64::MIN <= arena(
                    old(jobs)@,
                )[#[trigger] job_ids@[k] as int].current_iteration + profile@.deltas[k].iterations
                    * jump_periods <= i64::MAX,
        ensures
            final(timer).wf(),
            ({
                let before = System {
                    cluster: self@,
                    jobs: arena(old(jobs)@),
                    timer: old(timer)@,
                };
                (System { cluster: self@, jobs: arena(final(jobs)@), timer: final(timer)@ })
                    == before.changed(
                    before.skip(job_ids@, profile@, jump_periods as int, current_time),
                )
            }),
    {
        let ghost before = System { cluster: self@, jobs: arena(jobs@), timer: timer@ };
        let ghost change = before.skip(job_ids@, profile@, jump_periods as int, current_time);
        let jump_ticks: i64 = clamp_i64(wide_product(jump_periods, profile.period_ticks));
        let start: N = current_time.plus(self.from_tick(jump_ticks));
        let mut k: usize = 0;
        proof {
            lemma_training_ids(before);
            lemma_changed_start(before, change);
            assert(job_ids@.take(0) =~= Seq::<i32>::empty());
        }
        while k < job_ids.len()
            invariant
                k <= job_ids@.len() == profile@.deltas.len(),
                before.cluster == self@,
                before.is_sound(),
                change == before.skip(job_ids@, profile@, jump_periods as int, current_time),
                start == current_time.sum(
                    before.cluster.time_of(clamped(jump_periods * profile@.period_ticks)),
                ),
                job_ids@.no_duplicates(),
                forall|i: int|
                    0 <= i < job_ids@.len() ==> {
                        let id = #[trigger] job_ids@[i];
                        &&& 0 <= id < before.jobs.len()
                        &&& before.cluster.active(id as int)
                        &&& before.jobs[id as int].trains()
                    },
                forall|i: int|
                    0 <= i < job_ids@.len() ==> i64::MIN <= before.jobs[#[trigger] job_ids@[i] as int].current_iteration
                        + profile@.deltas[i].iterations * jump_periods <= i64::MAX,
                timer.wf(),
                arena(jobs@) == before.changed(only(job_ids@.take(k as int), change)).jobs,
                timer@ == before.changed(only(job_ids@.take(k as int), change)).timer,
            decreases job_ids@.len() - k,
        {
            let job_id: i32 = job_ids[k];
            proof {
                assert(before.cluster.active(job_ids@[k as int] as int));
                assert(before.timer.events.contains_key(job_id));
                assert(job_ids@.contains(job_id));
                let i = job_ids@.index_of(job_id);
                assert(job_ids@[i] == job_ids@[k as int]);
                assert(i == k);
                lemma_changed_step(before, job_ids@, k as int, change);
                assert(arena(jobs@).len() == jobs@.len());
                assert(arena(jobs@)[job_id as int] == jobs@[job_id as int]@);
            }
            let ghost old_jobs = jobs@;
            jobs[job_id as usize].jump(profile.deltas[k], jump_periods, start);
            let end: N = start.plus(jobs[job_id as usize].iteration_computing_time);
            proof {
                assert(arena(jobs@) =~= arena(old_jobs).update(
                    job_id as int,
                    jobs@[job_id as int]@,
                ));
                assert(timer@.events.dom().contains(job_id));
            }
            timer.update_job_time(job_id, end);
            k += 1;
        }
        proof {
            assert(job_ids@.take(k as int) =~= job_ids@);
            lemma_changed_end(before, job_ids@, change);
        }
    }

    /// Skips some cycles, whose profile is the given entry.
    fn apply_cycle_jump(
        &mut self,
        job_ids: &Vec<i32>,
        jobs: &mut Vec<GpuJob<N>>,
        entry: usize,
        jump_periods: i64,
        current_time: N,
        timer: &mut Timer<N>,
        Ghost(before): Ghost<System<N>>,
    )
        requires
            before == (System {
                cluster: old(self)@,
                jobs: arena(old(jobs)@),
                timer: old(timer)@,
            }),
            before.is_sound(),
            old(timer).wf(),
            job_ids@ == before.training_ids(),
            entry < old(self).cycle_profiles@.len(),
            before.cluster.cycle_profiles[before.present_key()] == old(
                self,
            ).cycle_profiles@[entry as int].1@,
            old(self).cycle_profiles@[entry as int].1@.deltas.len() == job_ids@.len(),
            jump_periods > 0,
            forall|k: int|
                0 <= k < job_ids@.len() ==> i64::MIN <= before.jobs[#[trigger] job_ids@[k] as int].current_iteration
                    + old(self).cycle_profiles@[entry as int].1@.deltas[k].iterations * jump_periods
                    <= i64::MAX,
        ensures
            final(timer).wf(),
            (System { cluster: final(self)@, jobs: arena(final(jobs)@), timer: final(timer)@ })
                == (System {
                cluster: ClusterModel {
                    cycle_stats: CycleStats {
                        observed_sync: before.cluster.cycle_stats.observed_sync,
                        ..before.skipped(current_time, jump_periods as int).cluster.cycle_stats
                    },
                    ..before.cluster
                },
                ..before.skipped(current_time, jump_periods as int)
            }),
    {
        self.carry_over(
            job_ids,
            jobs,
            &self.cycle_profiles[entry].1,
            jump_periods,
            current_time,
            timer,
        );
        let period: i64 = self.cycle_profiles[entry].1.period_ticks;
        let jump_ticks: i64 = clamp_i64(wide_product(jump_periods, period));
        self.cycle_stats.jump_applied = wrap_add(self.cycle_stats.jump_applied, 1);
        self.cycle_stats.jump_periods = wrap_add(
            self.cycle_stats.jump_periods,
            jump_periods as u64,
        );
        self.cycle_stats.jumped_ticks = wrap_add(self.cycle_stats.jumped_ticks, jump_ticks as u64);
    }

    /// The cycle between two snapshots of the same jobs.
    fn detect_cycle(previous: &CycleSnapshot<N>, snapshot: &CycleSnapshot<N>) -> (result: Option<
        CycleProfile<N>,
    >)
        requires
            previous@.progress.len() == snapshot@.progress.len(),
        ensures
            match result {
                Some(profile) => cycle_between(previous@, snapshot@) == Some(profile@),
                None => cycle_between(previous@, snapshot@) is None,
            },
    {
        let period_ticks: i64 = clamp_i64(snapshot.tick as i128 - previous.tick as i128);
        if period_ticks <= 0 {
            return None;
        }
        let mut deltas: Vec<Progress<N>> = Vec::new();
        let mut k: usize = 0;
        while k < snapshot.progress.len()
            invariant
                k <= snapshot@.progress.len() == previous@.progress.len(),
                deltas@.len() == k,
                forall|i: int|
                    0 <= i < k ==> #[trigger] snapshot@.progress[i].iterations
                        > previous@.progress[i].iterations,
                forall|i: int|
                    0 <= i < k ==> #[trigger] deltas@[i] == gain(
                        previous@.progress[i],
                        snapshot@.progress[i],
                    ),
            decreases snapshot@.progress.len() - k,
        {
            let now = &snapshot.progress[k];
            let then = &previous.progress[k];
            if now.iterations <= then.iterations {
                assert(!(snapshot@.progress[k as int].iterations
                    > previous@.progress[k as int].iterations));
                return None;
            }
            deltas.push(
                Progress {
                    job: now.job,
                    iterations: clamp_i64(now.iterations as i128 - then.iterations as i128),
                    training: now.training.minus(then.training),
                    compute: now.compute.minus(then.compute),
                    comms: now.comms.minus(then.comms),
                },
            );
            k += 1;
        }
        proof {
            let wanted = Seq::new(
                snapshot@.progress.len(),
                |k: int| gain(previous@.progress[k], snapshot@.progress[k]),
            );
            assert(deltas@ =~= wanted);
        }
        Some(CycleProfile { period_ticks, deltas })
    }

    /// Skips cycles where some can be skipped, and else takes note of the present one.
    /// Returns whether cycles were skipped.
    pub(crate) fn observe_or_jump_lcm_cycle(
        &mut self,
        current_time: N,
        jobs: &mut Vec<GpuJob<N>>,
        timer: &mut Timer<N>,
    ) -> (result: (bool, Ghost<Option<(N, EventType, i32)>>))
        requires
            (System {
                cluster: old(self)@,
                jobs: arena(old(jobs)@),
                timer: old(timer)@,
            }).is_sound(),
            old(timer).wf(),
        ensures
            final(timer).wf(),
            old(timer)@.is_answer(|t: EventType| t.external(), result.1@),
            ({
                let before = System {
                    cluster: old(self)@,
                    jobs: arena(old(jobs)@),
                    timer: old(timer)@,
                };
                let after = System {
                    cluster: final(self)@,
                    jobs: arena(final(jobs)@),
                    timer: final(timer)@,
                };
                &&& after == before.cycled(current_time, result.1@)
                &&& result.0 == (before.cycles_to_skip(current_time, result.1@) > 0)
            }),
    {
        let ghost before = System { cluster: self@, jobs: arena(jobs@), timer: timer@ };
        let next = timer.peek_next_external_state_change_event();
        if !self.interference_model.is_lcm_model() || !self.enable_lcm_cycle_jump {
            return (false, Ghost(next));
        }
        let job_ids: Vec<i32> = self.get_unique_active_training_job_ids(jobs, Ghost(before));
        proof {
            lemma_training_ids(before);
            assert forall|k: int| 0 <= k < job_ids@.len() implies 0 <= #[trigger] job_ids@[k]
                < jobs@.len() by {
                assert(0 <= before.training_ids()[k] < before.jobs.len());
            }
        }
        let current_tick: i64 = self.to_tick(current_time);
        if !self.all_active_jobs_sync_compute_start(&job_ids, jobs, current_tick) {
            return (false, Ghost(next));
        }
        let key: CycleKey = self.build_cycle_key(&job_ids, jobs);
        let snapshot: CycleSnapshot<N> = self.build_cycle_snapshot(&job_ids, jobs, current_tick);
        let ghost now = snapshot@;
        assert(speaks_of(now.progress, key@));
        let observed_sync: u64 = wrap_add(self.cycle_stats.observed_sync, 1);
        match find_cycle(&self.cycle_profiles, &key) {
            Some(entry) => {
                assert(before.cluster.cycle_profiles.contains_key(key@));
                let jump_periods: i64 = self.compute_jump_count(
                    &self.cycle_profiles[entry].1,
                    &job_ids,
                    jobs,
                    current_tick,
                    next,
                );
                if jump_periods > 0 {
                    proof {
                        assert forall|k: int| 0 <= k < job_ids@.len() implies i64::MIN
                            <= before.jobs[#[trigger] job_ids@[k] as int].current_iteration
                            + self.cycle_profiles@[entry as int].1@.deltas[k].iterations
                            * jump_periods <= i64::MAX by {
                            jumps_end_before_the_jobs(
                                before.cluster,
                                self.cycle_profiles@[entry as int].1@,
                                before.jobs,
                                job_ids@,
                                current_tick,
                                next,
                                k,
                            );
                        }
                    }
                    self.apply_cycle_jump(
                        &job_ids,
                        jobs,
                        entry,
                        jump_periods,
                        current_time,
                        timer,
                        Ghost(before),
                    );
                    self.cycle_stats.observed_sync = observed_sync;
                    return (true, Ghost(next));
                }
            },
            None => {},
        }
        let cycle: Option<CycleProfile<N>> = match find_cycle(&self.cycle_observation_cache, &key) {
            Some(entry) => {
                assert(before.cluster.cycle_observation_cache.contains_key(key@));
                Self::detect_cycle(&self.cycle_observation_cache[entry].1, &snapshot)
            },
            None => None,
        };
        match cycle {
            Some(profile) => {
                let profile_key: CycleKey = self.build_cycle_key(&job_ids, jobs);
                assert(profile_key@ == key@);
                put_cycle(&mut self.cycle_profiles, profile_key, profile);
                self.cycle_stats.cycle_detected = wrap_add(self.cycle_stats.cycle_detected, 1);
            },
            None => {},
        }
        put_cycle(&mut self.cycle_observation_cache, key, snapshot);
        self.cycle_stats.observed_sync = observed_sync;
        (false, Ghost(next))
    }
}

/// Skipping some cycles and then some more skips them all.
pub proof fn jumps_add_up(
    job: JobModel<Ticks>,
    delta: Progress<Ticks>,
    first: int,
    second: int,
    between: Ticks,
    start: Ticks,
)
    requires
        0 <= first,
        0 <= second,
        first + second <= i64::MAX,
        job.training_time is Some,
        job.consumed_compute_time is Some,
        job.consumed_comms_time is Some,
        job.current_iteration >= 0,
        job.training_time->0.count >= 0,
        job.consumed_compute_time->0.count >= 0,
        job.consumed_comms_time->0.count >= 0,
        delta.iterations >= 0,
        delta.training.count >= 0,
        delta.compute.count >= 0,
        delta.comms.count >= 0,
        job.current_iteration + delta.iterations * (first + second) <= i64::MAX,
        job.training_time->0.count + delta.training.count * (first + second) <= i64::MAX,
        job.consumed_compute_time->0.count + delta.compute.count * (first + second) <= i64::MAX,
        job.consumed_comms_time->0.count + delta.comms.count * (first + second) <= i64::MAX,
    ensures
        job.jumped(delta, first, between).jumped(delta, second, start) == job.jumped(
            delta,
            first + second,
            start,
        ),
{
    lemma_split(delta.iterations as int, first, second);
    lemma_split(delta.training.count as int, first, second);
    lemma_split(delta.compute.count as int, first, second);
    lemma_split(delta.comms.count as int, first, second);
}

proof fn lemma_split(amount: int, first: int, second: int)
    requires
        amount >= 0,
        first >= 0,
        second >= 0,
    ensures
        amount * (first + second) == amount * first + amount * second,
        amount * first >= 0,
        amount * second >= 0,
{
    assert(amount * (first + second) == amount * first + amount * second && amount * first >= 0
        && amount * second >= 0) by (nonlinear_arith)
        requires
            amount >= 0,
            first >= 0,
            second >= 0,
    ;
}

/// Some job lets no more cycles be skipped than all of them do.
proof fn lemma_tightest_job<N: Scalar>(
    deltas: Seq<Progress<N>>,
    jobs: Seq<JobModel<N>>,
    ids: Seq<i32>,
)
    ensures
        cycles_before_end(deltas, jobs, ids) == i64::MAX || exists|k: int|
            0 <= k < ids.len() && cycles_before_end(deltas, jobs, ids) == cycles_before_job_end(
                jobs[#[trigger] ids[k] as int],
                deltas[k].iterations,
            ),
    decreases ids.len(),
{
    if ids.len() > 0 {
        let rest = ids.drop_last();
        lemma_tightest_job(deltas, jobs, rest);
        let last = ids.len() - 1;
        let all = cycles_before_end(deltas, jobs, ids);
        assert(ids[last] == ids.last());
        if all != i64::MAX && all == cycles_before_end(deltas, jobs, rest) {
            let k = choose|k: int|
                0 <= k < rest.len() && cycles_before_end(deltas, jobs, rest)
                    == cycles_before_job_end(
                    jobs[#[trigger] rest[k] as int],
                    deltas[k].iterations,
                );
            assert(ids[k] == rest[k]);
        }
    }
}

/// As many cycles are skipped as fit: with one more, the next event that changes which jobs run would
/// have come, or some job would have done its last iteration.
pub proof fn jumps_skip_as_many_cycles_as_fit<N: Scalar>(
    cluster: ClusterModel<N>,
    profile: ProfileModel<N>,
    jobs: Seq<JobModel<N>>,
    ids: Seq<i32>,
    tick: i64,
    next: Option<(N, EventType, i32)>,
)
    requires
        profile.period_ticks > 0,
        profile.deltas.len() == ids.len(),
    ensures
        ({
            let more = cluster.jump_count(profile, jobs, ids, tick, next) + 1;
            ||| more > i64::MAX
            ||| next matches Some(event) && tick + more * profile.period_ticks >= cluster.tick(
                event.0,
            )
            ||| exists|k: int|
                0 <= k < ids.len() && {
                    let job = jobs[#[trigger] ids[k] as int];
                    ||| profile.deltas[k].iterations <= 0
                    ||| job.current_iteration + profile.deltas[k].iterations * more
                        >= job.iteration_number.truncated()
                }
        }),
{
    let count = cluster.jump_count(profile, jobs, ids, tick, next);
    let more = count + 1;
    let period = profile.period_ticks as int;
    lemma_tightest_job(profile.deltas, jobs, ids);
    let by_event = cluster.cycles_before_event(profile.period_ticks, tick, next);
    let by_job = cycles_before_end(profile.deltas, jobs, ids);
    if by_event < by_job {
        if let Some(event) = next {
            let room = cluster.tick(event.0) - tick - 1;
            if room < period {
                assert(more * period == period) by (nonlinear_arith)
                    requires
                        more == 1,
                ;
            } else {
                assert(more * period > room) by (nonlinear_arith)
                    requires
                        more == room / period + 1,
                        period > 0,
                ;
            }
        }
    } else if by_job < i64::MAX {
        let k = choose|k: int|
            0 <= k < ids.len() && by_job == cycles_before_job_end(
                jobs[#[trigger] ids[k] as int],
                profile.deltas[k].iterations,
            );
        let job = jobs[ids[k] as int];
        let delta = profile.deltas[k].iterations as int;
        let left = job.iteration_number.truncated() - 1 - job.current_iteration;
        if delta > 0 {
            if left < 0 {
                assert(delta * more == delta) by (nonlinear_arith)
                    requires
                        more == 1,
                ;
            } else {
                assert(delta * more > left) by (nonlinear_arith)
                    requires
                        more == left / delta + 1,
                        delta > 0,
                ;
            }
        }
    }
}

/// Between two snapshots of the same jobs lies a cycle exactly where time went by and every job did
/// iterations; what it does to each job is how far the job came.
pub proof fn cycles_are_what_happened_between_snapshots<N: Scalar>(
    from: SnapshotModel<N>,
    to: SnapshotModel<N>,
    k: int,
)
    requires
        0 <= k < to.progress.len(),
        to.tick - from.tick <= i64::MAX,
        forall|i: int|
            0 <= i < to.progress.len() ==> #[trigger] to.progress[i].iterations
                - from.progress[i].iterations <= i64::MAX,
    ensures
        cycle_between(from, to) is Some <==> from.tick < to.tick && forall|i: int|
            0 <= i < to.progress.len() ==> from.progress[i].iterations
                < #[trigger] to.progress[i].iterations,
        cycle_between(from, to) matches Some(cycle) ==> {
            &&& cycle.period_ticks == to.tick - from.tick
            &&& cycle.deltas.len() == to.progress.len()
            &&& cycle.deltas[k].job == to.progress[k].job
            &&& cycle.deltas[k].iterations == to.progress[k].iterations
                - from.progress[k].iterations
            &&& cycle.deltas[k].training == to.progress[k].training.difference(
                from.progress[k].training,
            )
            &&& cycle.deltas[k].compute == to.progress[k].compute.difference(
                from.progress[k].compute,
            )
            &&& cycle.deltas[k].comms == to.progress[k].comms.difference(from.progress[k].comms)
        },
{
    assert(to.progress[k].iterations - from.progress[k].iterations <= i64::MAX);
}

/// A job that is carried over some cycles comes as far as it does in one of them, as often as there are
/// cycles, up to rounding. It starts to compute then, and its compute phase ends a compute time
/// later; that is the time of the cycles from now.
pub proof fn jumps_carry_jobs_over_their_cycles<N: Scalar>(
    state: System<N>,
    ids: Seq<i32>,
    profile: ProfileModel<N>,
    periods: int,
    k: int,
    time: N,
    value: spec_fn(N) -> real,
    bound: real,
    error: real,
)
    requires
        rounds(value, bound, error),
        ids.no_duplicates(),
        0 <= k < ids.len(),
        0 <= ids[k] < state.jobs.len(),
        state.timer.events.contains_key(ids[k]),
        0 <= periods <= EXACT_INTEGER,
        0 <= profile.period_ticks,
        periods * profile.period_ticks <= EXACT_INTEGER,
        time.finite(),
        0real <= value(time),
        state.cluster.time_scale.finite(),
        value(state.cluster.time_scale) > 0real,
        ({
            let job = state.jobs[ids[k] as int];
            let delta = profile.deltas[k];
            let ahead = job.current_iteration + delta.iterations * periods;
            let span = ((periods * profile.period_ticks) as real) / value(state.cluster.time_scale);
            let times = periods as real;
            &&& i64::MIN <= ahead <= i64::MAX
            &&& value(time) + span + 2real * error <= bound
            &&& job.iteration_computing_time.finite()
            &&& 0real <= value(job.iteration_computing_time)
            &&& value(time) + span + value(job.iteration_computing_time) + 2real * error <= bound
            &&& job.training_time matches Some(training) && training.finite() && 0real <= value(
                training,
            ) && delta.training.finite() && 0real <= value(delta.training) && value(training)
                + value(delta.training) * times + error <= bound
            &&& job.consumed_compute_time matches Some(compute) && compute.finite() && 0real
                <= value(compute) && delta.compute.finite() && 0real <= value(delta.compute)
                && value(compute) + value(delta.compute) * times + error <= bound
            &&& job.consumed_comms_time matches Some(comms) && comms.finite() && 0real <= value(
                comms,
            ) && delta.comms.finite() && 0real <= value(delta.comms) && value(comms) + value(
                delta.comms,
            ) * times + error <= bound
        }),
    ensures
        ({
            let job = state.jobs[ids[k] as int];
            let delta = profile.deltas[k];
            let after = state.changed(state.skip(ids, profile, periods, time));
            let now = after.jobs[ids[k] as int];
            let span = ((periods * profile.period_ticks) as real) / value(state.cluster.time_scale);
            let times = periods as real;
            &&& now.current_iteration == job.current_iteration + delta.iterations * periods
            &&& now.training_time matches Some(training) && near(
                value(training),
                value(job.training_time->0) + value(delta.training) * times,
                2real * error,
            )
            &&& now.consumed_compute_time matches Some(compute) && near(
                value(compute),
                value(job.consumed_compute_time->0) + value(delta.compute) * times,
                2real * error,
            )
            &&& now.consumed_comms_time matches Some(comms) && near(
                value(comms),
                value(job.consumed_comms_time->0) + value(delta.comms) * times,
                2real * error,
            )
            &&& now.phase_start_time matches Some(start) && near(
                value(start),
                value(time) + span,
                2real * error,
            )
            &&& near(
                value(after.timer.events[ids[k]].0),
                value(time) + span + value(job.iteration_computing_time),
                3real * error,
            )
            &&& after.timer.events[ids[k]].1 == state.timer.events[ids[k]].1
        }),
{
    let id = ids[k];
    let job = state.jobs[id as int];
    let delta = profile.deltas[k];
    let whole = periods * profile.period_ticks;
    assert(whole >= 0) by (nonlinear_arith)
        requires
            whole == periods * profile.period_ticks,
            periods >= 0,
            profile.period_ticks >= 0,
    ;
    let scale = value(state.cluster.time_scale);
    let span = (whole as real) / scale;
    assert(span >= 0real) by (nonlinear_arith)
        requires
            span == (whole as real) / scale,
            whole as real >= 0real,
            scale > 0real,
    ;
    lemma_integer_value(value, whole as i64, bound, error);
    lemma_integer_value(value, periods as i64, bound, error);
    let far = N::integer(whole as i64).quotient(state.cluster.time_scale);
    lemma_quotient_near(value, N::integer(whole as i64), state.cluster.time_scale, bound, error);
    lemma_sum_near(value, time, far, bound, error);
    let start = time.sum(far);
    lemma_sum_near(value, start, job.iteration_computing_time, bound, error);
    let often = N::integer(periods as i64);
    let n = periods as real;
    lemma_often(value, delta.training, job.training_time->0, often, n, bound, error);
    lemma_often(value, delta.compute, job.consumed_compute_time->0, often, n, bound, error);
    lemma_often(value, delta.comms, job.consumed_comms_time->0, often, n, bound, error);
    assert(ids.contains(id));
    assert(ids.index_of(id) == k) by {
        let at = ids.index_of(id);
        assert(0 <= at < ids.len() && ids[at] == id);
    }
}

/// An amount that is added some times to another.
proof fn lemma_often<N: Scalar>(
    value: spec_fn(N) -> real,
    amount: N,
    before: N,
    often: N,
    times: real,
    bound: real,
    error: real,
)
    requires
        rounds(value, bound, error),
        amount.finite(),
        before.finite(),
        often.finite(),
        value(often) == times,
        times >= 0real,
        0real <= value(amount),
        0real <= value(before),
        value(before) + value(amount) * times + error <= bound,
    ensures
        before.sum(amount.product(often)).finite(),
        near(
            value(before.sum(amount.product(often))),
            value(before) + value(amount) * times,
            2real * error,
        ),
{
    let a = value(amount);
    assert(a * times >= 0real) by (nonlinear_arith)
        requires
            a >= 0real,
            times >= 0real,
    ;
    lemma_product_near(value, amount, often, bound, error);
    lemma_sum_near(value, before, amount.product(often), bound, error);
}

/// The jobs whose cycles are followed are those that are active, train and are not through, each
/// once, in the order of their numbers.
pub proof fn cycles_follow_the_jobs_that_train<N: Scalar>(state: System<N>, job: i32)
    requires
        state.cluster.knows_jobs(state.jobs.len()),
    ensures
        state.training_ids().contains(job) <==> {
            &&& state.cluster.active(job as int)
            &&& state.jobs[job as int].training_time is Some
            &&& state.jobs[job as int].current_phase != Phase::Completed
        },
        state.training_ids().no_duplicates(),
        forall|i: int, j: int|
            0 <= i < j < state.training_ids().len() ==> #[trigger] state.training_ids()[i]
                < #[trigger] state.training_ids()[j],
{
    let trains = |job: i32| state.jobs[job as int].trains();
    let active = state.cluster.active_ids();
    let kept = active.filter(trains);
    let ids = state.training_ids();
    let first = |item: i32| item as int;
    lemma_training_ids(state);
    lemma_active_ids(state.cluster, state.jobs.len());
    ranked_is_sorted(kept, first, first);
    assert forall|i: int, j: int| 0 <= i < j < ids.len() implies #[trigger] ids[i]
        < #[trigger] ids[j] by {
        assert(ids[i] != ids[j]);
    }
    if ids.contains(job) {
        let k = choose|k: int| 0 <= k < ids.len() && ids[k] == job;
        assert(state.cluster.active(ids[k] as int));
    }
    if state.cluster.active(job as int) && state.jobs[job as int].trains() {
        assert(active.contains(job));
        let i = choose|i: int| 0 <= i < active.len() && active[i] == job;
        active.lemma_filter_contains(trains, i);
        assert(kept.contains(job));
    }
}

/// Cycles are skipped only by the models that do so, where that is enabled, where all jobs that train
/// start to compute at the present tick, and where what a cycle does is known.
pub proof fn cycles_are_skipped_at_common_starts<N: Scalar>(
    state: System<N>,
    time: N,
    next: Option<(N, EventType, i32)>,
    job: i32,
)
    requires
        state.cycles_to_skip(time, next) > 0,
        state.cluster.knows_jobs(state.jobs.len()),
        state.cluster.active(job as int),
        state.jobs[job as int].training_time is Some,
        state.jobs[job as int].current_phase != Phase::Completed,
    ensures
        state.cluster.enable_lcm_cycle_jump,
        state.cluster.interference_model is CommsIterLcm
            || state.cluster.interference_model is CommsIterIntraLcm,
        state.jobs[job as int].current_phase == Phase::Compute,
        state.jobs[job as int].phase_start_time matches Some(start) && state.cluster.tick(start)
            == state.cluster.tick(time),
        state.cluster.cycle_profiles.contains_key(state.present_key()),
{
    cycles_follow_the_jobs_that_train(state, job);
    let ids = state.training_ids();
    let k = choose|k: int| 0 <= k < ids.len() && ids[k] == job;
    assert(state.jobs[ids[k] as int].current_phase == Phase::Compute);
}

/// The iteration times in ticks that count, and those of the jobs that they are of.
proof fn lemma_positive_ticks<N: Scalar>(
    cluster: ClusterModel<N>,
    jobs: Seq<JobModel<N>>,
    ids: Seq<i32>,
    k: int,
)
    requires
        0 <= k < ids.len(),
        cluster.base_ticks(jobs[ids[k] as int]) > 0,
    ensures
        cluster.positive_ticks(jobs, ids).contains(cluster.base_ticks(jobs[ids[k] as int])),
    decreases ids.len(),
{
    let ticks = cluster.positive_ticks(jobs, ids);
    let rest = cluster.positive_ticks(jobs, ids.drop_last());
    if k < ids.len() - 1 {
        lemma_positive_ticks(cluster, jobs, ids.drop_last(), k);
        assert(ids.drop_last()[k] == ids[k]);
        let wanted = cluster.base_ticks(jobs[ids[k] as int]);
        let i = choose|i: int| 0 <= i < rest.len() && rest[i] == wanted;
        assert(ticks[i] == wanted);
    } else {
        assert(ticks[ticks.len() - 1] == cluster.base_ticks(jobs[ids[k] as int]));
    }
}

/// The length that a cycle is recognised by is a multiple of the iteration time of every job, in ticks,
/// where that is positive.
pub proof fn cycle_lengths_are_common_multiples<N: Scalar>(
    cluster: ClusterModel<N>,
    jobs: Seq<JobModel<N>>,
    ids: Seq<i32>,
    k: int,
)
    requires
        0 <= k < ids.len(),
        cluster.base_ticks(jobs[ids[k] as int]) > 0,
    ensures
        cluster.cycle_key(jobs, ids).base_lcm matches Some(length) ==> length > 0 && divides(
            cluster.base_ticks(jobs[ids[k] as int]) as int,
            length as int,
        ),
{
    let ticks = cluster.positive_ticks(jobs, ids);
    let wanted = cluster.base_ticks(jobs[ids[k] as int]);
    lemma_positive_ticks(cluster, jobs, ids, k);
    lemma_ticks_positive(cluster, jobs, ids);
    lcm_of_all_is_least_common_multiple(ticks);
    let i = choose|i: int| 0 <= i < ticks.len() && ticks[i] == wanted;
    assert(divides(vstd::math::abs(ticks[i] as int) as int, lcm_of_all(ticks) as int));
    assert(!ticks.contains(0)) by {
        if ticks.contains(0) {
            let j = choose|j: int| 0 <= j < ticks.len() && ticks[j] == 0;
            assert(ticks[j] > 0);
        }
    }
}

proof fn lemma_ticks_positive<N: Scalar>(
    cluster: ClusterModel<N>,
    jobs: Seq<JobModel<N>>,
    ids: Seq<i32>,
)
    ensures
        forall|i: int|
            0 <= i < cluster.positive_ticks(jobs, ids).len() ==> #[trigger] cluster.positive_ticks(
                jobs,
                ids,
            )[i] > 0,
    decreases ids.len(),
{
    if ids.len() > 0 {
        let rest = cluster.positive_ticks(jobs, ids.drop_last());
        lemma_ticks_positive(cluster, jobs, ids.drop_last());
        assert forall|i: int|
            0 <= i < cluster.positive_ticks(jobs, ids).len() implies #[trigger] cluster.positive_ticks(
            jobs,
            ids,
        )[i] > 0 by {
            if i < rest.len() {
                assert(rest[i] > 0);
            }
        }
    }
}

/// In what a cycle is recognised by, a job leads by as many iterations as it has done more than the one
/// that has done the fewest.
pub proof fn leads_are_counted_from_the_last_job<N: Scalar>(
    cluster: ClusterModel<N>,
    jobs: Seq<JobModel<N>>,
    ids: Seq<i32>,
    a: int,
    b: int,
)
    requires
        0 <= a < ids.len(),
        0 <= b < ids.len(),
    ensures
        ({
            let entries = cluster.cycle_key(jobs, ids).entries;
            &&& entries.len() == ids.len()
            &&& entries[a].job == ids[a]
            &&& entries[a].lead >= 0
            &&& entries[a].lead - entries[b].lead == jobs[ids[a] as int].current_iteration
                - jobs[ids[b] as int].current_iteration
            &&& exists|k: int| 0 <= k < ids.len() && (#[trigger] entries[k]).lead == 0
        }),
{
    lemma_fewest(jobs, ids, a);
    let entries = cluster.cycle_key(jobs, ids).entries;
    let fewest = fewest_iterations(jobs, ids);
    let k = choose|k: int|
        0 <= k < ids.len() && jobs[#[trigger] ids[k] as int].current_iteration == fewest;
    assert(entries[k].lead == 0);
}

proof fn lemma_fewest<N: Scalar>(jobs: Seq<JobModel<N>>, ids: Seq<i32>, a: int)
    requires
        0 <= a < ids.len(),
    ensures
        fewest_iterations(jobs, ids) <= jobs[ids[a] as int].current_iteration,
        exists|k: int|
            0 <= k < ids.len() && jobs[#[trigger] ids[k] as int].current_iteration
                == fewest_iterations(jobs, ids),
    decreases ids.len(),
{
    let rest = ids.drop_last();
    let last = ids.len() - 1;
    assert(ids[last] == ids.last());
    if ids.len() > 1 {
        lemma_fewest(
            jobs,
            rest,
            if a < last {
                a
            } else {
                0
            },
        );
        if fewest_iterations(jobs, ids) != jobs[ids[last] as int].current_iteration {
            let k = choose|k: int|
                0 <= k < rest.len() && jobs[#[trigger] rest[k] as int].current_iteration
                    == fewest_iterations(jobs, rest);
            assert(ids[k] == rest[k]);
        }
    }
}

/// Skipping cycles counts one start at which the jobs meet and one jump, the cycles that it skips and
/// the ticks that they take; nothing else of the cluster changes.
pub proof fn jumps_are_counted<N: Scalar>(state: System<N>, time: N, periods: int)
    requires
        0 < periods,
        ({
            let stats = state.cluster.cycle_stats;
            let period = state.cluster.cycle_profiles[state.present_key()].period_ticks;
            &&& 0 <= period
            &&& periods * period <= i64::MAX
            &&& stats.observed_sync + 1 <= u64::MAX
            &&& stats.jump_applied + 1 <= u64::MAX
            &&& stats.jump_periods + periods <= u64::MAX
            &&& stats.jumped_ticks + periods * period <= u64::MAX
        }),
    ensures
        ({
            let before = state.cluster.cycle_stats;
            let period = state.cluster.cycle_profiles[state.present_key()].period_ticks;
            let cluster = state.skipped(time, periods).cluster;
            let after = cluster.cycle_stats;
            &&& after.observed_sync == before.observed_sync + 1
            &&& after.cycle_detected == before.cycle_detected
            &&& after.jump_applied == before.jump_applied + 1
            &&& after.jump_periods == before.jump_periods + periods
            &&& after.jumped_ticks == before.jumped_ticks + periods * period
            &&& cluster == (ClusterModel { cycle_stats: after, ..state.cluster })
        }),
{
    let period = state.cluster.cycle_profiles[state.present_key()].period_ticks;
    assert(0 <= periods * period) by (nonlinear_arith)
        requires
            0 < periods,
            0 <= period,
    ;
}

/// Noting a cycle stores for each job that trains how far it has come. A cycle is stored exactly where
/// the same jobs were noted in the same state at an earlier tick and each has done iterations
/// since; it takes the ticks that went by.
pub proof fn cycles_are_noted_with_their_jobs<N: Scalar>(state: System<N>, time: N, k: int)
    requires
        0 <= k < state.training_ids().len(),
        state.cluster.cycle_stats.observed_sync < u64::MAX,
        state.cluster.cycle_stats.cycle_detected < u64::MAX,
    ensures
        ({
            let key = state.present_key();
            let before = state.cluster;
            let after = state.noted(time).cluster;
            let now = after.cycle_observation_cache[key];
            let id = state.training_ids()[k];
            let job = state.jobs[id as int];
            &&& state.noted(time).jobs == state.jobs
            &&& after.cycle_observation_cache.contains_key(key)
            &&& now.tick == before.tick(time)
            &&& now.progress.len() == state.training_ids().len()
            &&& now.progress[k].job == id
            &&& now.progress[k].iterations == job.current_iteration
            &&& job.training_time matches Some(training) ==> now.progress[k].training == training
            &&& job.consumed_compute_time matches Some(compute) ==> now.progress[k].compute
                == compute
            &&& job.consumed_comms_time matches Some(comms) ==> now.progress[k].comms == comms
            &&& after.cycle_stats.observed_sync == before.cycle_stats.observed_sync + 1
            &&& after.cycle_stats.jump_applied == before.cycle_stats.jump_applied
            &&& after.cycle_stats.jump_periods == before.cycle_stats.jump_periods
            &&& after.cycle_stats.jumped_ticks == before.cycle_stats.jumped_ticks
            &&& !before.cycle_observation_cache.contains_key(key) ==> after.cycle_profiles
                == before.cycle_profiles && after.cycle_stats.cycle_detected
                == before.cycle_stats.cycle_detected
            &&& before.cycle_observation_cache.contains_key(key) && now.tick
                - before.cycle_observation_cache[key].tick <= i64::MAX ==> {
                let earlier = before.cycle_observation_cache[key];
                let repeats = earlier.tick < now.tick && forall|i: int|
                    0 <= i < now.progress.len() ==> earlier.progress[i].iterations
                        < #[trigger] now.progress[i].iterations;
                &&& after.cycle_stats.cycle_detected == before.cycle_stats.cycle_detected + if repeats {
                    1int
                } else {
                    0int
                }
                &&& !repeats ==> after.cycle_profiles == before.cycle_profiles
                &&& repeats ==> after.cycle_profiles.contains_key(key)
                    && after.cycle_profiles[key].period_ticks == now.tick - earlier.tick
            }
            &&& forall|other: KeyModel|
                other != key ==> #[trigger] after.cycle_profiles.contains_key(other)
                    == before.cycle_profiles.contains_key(other)
        }),
{
    let key = state.present_key();
    let now = state.noted(time).cluster.cycle_observation_cache[key];
    if state.cluster.cycle_observation_cache.contains_key(key) {
        let earlier = state.cluster.cycle_observation_cache[key];
        assert(now == snapshot_of(state.jobs, state.training_ids(), state.cluster.tick(time)));
        let repeats = earlier.tick < now.tick && forall|i: int|
            0 <= i < now.progress.len() ==> earlier.progress[i].iterations
                < #[trigger] now.progress[i].iterations;
        if now.tick - earlier.tick <= i64::MAX {
            assert(cycle_between(earlier, now) is Some <==> repeats);
        }
    }
}

/// Where the iteration times of the jobs, in ticks, all divide some number of ticks that fits, as far as
/// they are positive, a cycle is recognised by a length, and that divides the number too.
pub proof fn cycle_lengths_are_the_least<N: Scalar>(
    cluster: ClusterModel<N>,
    jobs: Seq<JobModel<N>>,
    ids: Seq<i32>,
    k: int,
    common: int,
)
    requires
        0 <= k < ids.len(),
        cluster.base_ticks(jobs[ids[k] as int]) > 0,
        0 < common <= i64::MAX,
        forall|i: int|
            0 <= i < ids.len() && cluster.base_ticks(jobs[#[trigger] ids[i] as int]) > 0 ==> divides(
                cluster.base_ticks(jobs[ids[i] as int]) as int,
                common,
            ),
    ensures
        cluster.cycle_key(jobs, ids).base_lcm matches Some(length) && 0 < length <= common && divides(
            length as int,
            common,
        ),
{
    let ticks = cluster.positive_ticks(jobs, ids);
    lemma_positive_ticks(cluster, jobs, ids, k);
    lemma_ticks_positive(cluster, jobs, ids);
    lcm_of_all_is_least_common_multiple(ticks);
    let whole = lcm_of_all(ticks) as int;
    assert(!ticks.contains(0)) by {
        if ticks.contains(0) {
            let j = choose|j: int| 0 <= j < ticks.len() && ticks[j] == 0;
            assert(ticks[j] > 0);
        }
    }
    assert forall|i: int| 0 <= i < ticks.len() implies divides(
        vstd::math::abs(#[trigger] ticks[i] as int) as int,
        common,
    ) by {
        lemma_ticks_of_jobs(cluster, jobs, ids, i);
        assert(ticks[i] > 0);
    }
    assert(divides(whole, common));
    let times = choose|times: int| #[trigger] (whole * times) == common;
    assert(whole <= common) by (nonlinear_arith)
        requires
            whole * times == common,
            0 < whole,
            0 < common,
    ;
}

/// Every positive number of ticks is that of a job.
proof fn lemma_ticks_of_jobs<N: Scalar>(
    cluster: ClusterModel<N>,
    jobs: Seq<JobModel<N>>,
    ids: Seq<i32>,
    i: int,
)
    requires
        0 <= i < cluster.positive_ticks(jobs, ids).len(),
    ensures
        exists|k: int|
            0 <= k < ids.len() && cluster.base_ticks(jobs[#[trigger] ids[k] as int])
                == cluster.positive_ticks(jobs, ids)[i],
    decreases ids.len(),
{
    let rest = ids.drop_last();
    let before = cluster.positive_ticks(jobs, rest);
    if i < before.len() {
        lemma_ticks_of_jobs(cluster, jobs, rest, i);
        let k = choose|k: int|
            0 <= k < rest.len() && cluster.base_ticks(jobs[#[trigger] rest[k] as int]) == before[i];
        assert(ids[k] == rest[k]);
    } else {
        assert(ids[ids.len() - 1] == ids.last());
    }
}

/// A cycle is recognised by the epoch, the model, and where each job has its workers and parameter
/// servers, whatever their order. Where the model looks inside servers, it is also recognised by
/// what the job asks inside each of them, in millionths; and else by nothing of it.
pub proof fn cycles_are_recognised_by_places<N: Scalar>(
    cluster: ClusterModel<N>,
    jobs: Seq<JobModel<N>>,
    ids: Seq<i32>,
    k: int,
    server: i32,
)
    requires
        0 <= k < ids.len(),
    ensures
        ({
            let key = cluster.cycle_key(jobs, ids);
            let entry = key.entries[k];
            let job = jobs[ids[k] as int];
            let inside = cluster.interference_model is CommsIterIntra
                || cluster.interference_model is CommsIterIntraLcm;
            let asked = job.intra_demand(server).product(N::integer(1_000_000)).rounded();
            &&& key.epoch == cluster.placement_epoch
            &&& key.model == cluster.interference_model
            &&& entry.allocated.to_multiset() == job.allocated.to_multiset()
            &&& forall|i: int, j: int|
                0 <= i < j < entry.allocated.len() ==> #[trigger] entry.allocated[i]
                    <= #[trigger] entry.allocated[j]
            &&& entry.ps_allocated.to_multiset() == job.ps_allocated.to_multiset()
            &&& forall|i: int, j: int|
                0 <= i < j < entry.ps_allocated.len() ==> #[trigger] entry.ps_allocated[i]
                    <= #[trigger] entry.ps_allocated[j]
            &&& !inside ==> entry.intra.len() == 0
            &&& inside && job.allocated.contains(server) ==> entry.intra.contains((server, asked))
            &&& forall|i: int|
                0 <= i < entry.intra.len() ==> job.allocated.contains((#[trigger] entry.intra[i]).0)
            &&& forall|i: int, j: int|
                0 <= i < j < entry.intra.len() ==> (#[trigger] entry.intra[i]).0 < (
                #[trigger] entry.intra[j]).0
        }),
{
    let entry = cluster.cycle_key(jobs, ids).entries[k];
    let job = jobs[ids[k] as int];
    let first = |item: i32| item as int;
    let own = distinct(job.allocated);
    let servers = ascending(own);
    ranked_is_sorted(job.allocated, first, first);
    ranked_is_sorted(job.ps_allocated, first, first);
    lemma_distinct(job.allocated);
    ranked_is_sorted(own, first, first);
    if job.allocated.contains(server) && cluster.interference_model.looks_inside() {
        assert(servers.contains(server));
        let i = choose|i: int| 0 <= i < servers.len() && servers[i] == server;
        assert(entry.intra[i].0 == server);
    }
    assert forall|i: int| 0 <= i < entry.intra.len() implies job.allocated.contains(
        (#[trigger] entry.intra[i]).0,
    ) by {
        assert(servers.contains(servers[i]));
        assert(own.contains(servers[i]));
    }
    assert forall|i: int, j: int| 0 <= i < j < entry.intra.len() implies (
    #[trigger] entry.intra[i]).0 < (#[trigger] entry.intra[j]).0 by {
        assert(servers[i] != servers[j]);
        assert(servers[i] <= servers[j]);
    }
}

/// Whether rounding a number gives an integer no more than a half off.
pub open spec fn rounds_to_nearest<N: Scalar>(value: spec_fn(N) -> real, bound: real) -> bool {
    forall|a: N|
        a.finite() && -bound <= value(a) <= bound ==> near(
            #[trigger] a.rounded() as real,
            value(a),
            1real / 2real,
        )
}

/// The tick of a time is the integer nearest to the time at the scale of the ticks, and the time of a tick
/// at that scale is the tick, up to rounding.
pub proof fn ticks_are_the_nearest<N: Scalar>(
    cluster: ClusterModel<N>,
    time: N,
    tick: i64,
    value: spec_fn(N) -> real,
    bound: real,
    error: real,
)
    requires
        rounds(value, bound, error),
        rounds_to_nearest(value, bound),
        time.finite(),
        cluster.time_scale.finite(),
        value(cluster.time_scale) > 0real,
        -bound + error <= value(time) * value(cluster.time_scale) <= bound - error,
        -EXACT_INTEGER <= tick <= EXACT_INTEGER,
        -bound <= tick as real / value(cluster.time_scale) <= bound,
    ensures
        near(
            cluster.tick(time) as real,
            value(time) * value(cluster.time_scale),
            1real / 2real + error,
        ),
        near(
            value(cluster.time_of(tick)) * value(cluster.time_scale),
            tick as real,
            error * value(cluster.time_scale),
        ),
{
    let scale = value(cluster.time_scale);
    lemma_product_near(value, time, cluster.time_scale, bound, error);
    let scaled = time.product(cluster.time_scale);
    assert(near(scaled.rounded() as real, value(scaled), 1real / 2real));
    lemma_integer_value(value, tick, bound, error);
    lemma_quotient_near(value, N::integer(tick), cluster.time_scale, bound, error);
    let exact = tick as real / scale;
    let got = value(cluster.time_of(tick));
    assert(exact * scale == tick as real) by (nonlinear_arith)
        requires
            exact == tick as real / scale,
            scale > 0real,
    ;
    assert(near(got * scale, tick as real, error * scale)) by (nonlinear_arith)
        requires
            near(got, exact, error),
            exact * scale == tick as real,
            scale > 0real,
    ;
}

/// Whole ticks round to themselves.
pub proof fn whole_ticks_round_to_nearest(bound: real)
    ensures
        rounds_to_nearest(ticks_value(), bound),
{
}

} // verus!
