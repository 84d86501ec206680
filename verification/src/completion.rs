//! The renewal of all completion times after a change of the state.

use vstd::prelude::*;

use crate::cycles::KeyModel;
use crate::gpu_cluster::{arena, ClusterModel, GPUCluster, System};
use crate::gpu_job::{GpuJob, JobModel};
use crate::interference::InterferenceModel;
use crate::jump::{jumps_end_before_the_jobs, snapshot_of, speaks_of};
use crate::progress::Change;
use crate::scalar::{larger, max_of, Scalar};
use crate::timer::{EventType, Timer};

verus! {

impl<N: Scalar> JobModel<N> {
    /// Whether two states are of the same job in the same place: they may differ in
    /// progress only.
    pub open spec fn same_place(self, other: JobModel<N>) -> bool {
        &&& self.job_id == other.job_id
        &&& self.model == other.model
        &&& self.arrival_time == other.arrival_time
        &&& self.gpu_workers == other.gpu_workers
        &&& self.ps == other.ps
        &&& self.gpu_per_worker == other.gpu_per_worker
        &&& self.cpu_per_gpu_worker == other.cpu_per_gpu_worker
        &&& self.cpu_per_ps == other.cpu_per_ps
        &&& self.allocated == other.allocated
        &&& self.ps_allocated == other.ps_allocated
        &&& self.using_bandwidths == other.using_bandwidths
        &&& self.end_time == other.end_time
        &&& self.loading_time == other.loading_time
        &&& self.profiled_network == other.profiled_network
        &&& self.iteration_number == other.iteration_number
        &&& self.start_time == other.start_time
        &&& self.wait_time == other.wait_time
        &&& self.queueing_wait_time == other.queueing_wait_time
        &&& self.capacity_wait_time == other.capacity_wait_time
        &&& self.placement_wait_time == other.placement_wait_time
        &&& self.queue_head_time == other.queue_head_time
        &&& self.capacity_met_time == other.capacity_met_time
        &&& self.consumed_loading_time == other.consumed_loading_time
        &&& self.training_time is Some <==> other.training_time is Some
        &&& self.current_phase == other.current_phase
        &&& self.current_iteration < i64::MAX ==> other.current_iteration < i64::MAX
    }
}

/// The types of the events that a job's arrival has.
pub open spec fn is_arrival() -> spec_fn(EventType) -> bool {
    |t: EventType| t == EventType::Arrive
}

/// The types of the events that change which jobs run.
pub open spec fn is_external() -> spec_fn(EventType) -> bool {
    |t: EventType| t.external()
}

impl<N: Scalar> System<N> {
    /// The state with the progress of all active jobs taken and their next events
    /// moved. Where cycles are skipped, that is all.
    pub open spec fn paced(self, time: N, next: Option<(N, EventType, i32)>) -> System<N> {
        match self.cluster.interference_model {
            InterferenceModel::CommsIter | InterferenceModel::CommsIterIntra => self.changed(
                self.phase_pace(time),
            ),
            InterferenceModel::CommsIterLcm | InterferenceModel::CommsIterIntraLcm => {
                let cycled = self.cycled(time, next);
                if self.cycles_to_skip(time, next) > 0 {
                    cycled
                } else {
                    cycled.changed(cycled.phase_pace(time))
                }
            },
            InterferenceModel::CorunProfile => self.changed(self.corun_pace(time)),
            _ => self.changed(self.job_pace(time)),
        }
    }

    /// The state with an arrival moved to the present where it lies in the past.
    pub open spec fn recalled(self, time: N, arrival: Option<(N, EventType, i32)>) -> System<N> {
        match arrival {
            Some((at, event_type, job)) => {
                let new_time = larger(time, self.jobs[job as int].temp_arrival_time);
                System {
                    cluster: self.cluster,
                    jobs: self.jobs.update(
                        job as int,
                        JobModel { temp_arrival_time: new_time, ..self.jobs[job as int] },
                    ),
                    timer: self.timer.moved(job, new_time),
                }
            },
            None => self,
        }
    }

    /// Whether a state follows from this one when the completion times are renewed. (Where
    /// several events come first at once, any of them counts as the next one.)
    pub open spec fn renews_to(self, after: System<N>, time: N) -> bool {
        exists|next: Option<(N, EventType, i32)>, arrival: Option<(N, EventType, i32)>|
            {
                &&& self.cluster.interference_model.skips_cycles() ==> self.timer.is_answer(
                    is_external(),
                    next,
                )
                &&& self.paced(time, next).timer.is_answer(is_arrival(), arrival)
                &&& after == #[trigger] self.paced(time, next).recalled(time, arrival)
            }
    }

    /// Whether a state has the same jobs in the same places as this one, with the same
    /// events, at other times perhaps.
    pub open spec fn keeps_places(self, after: System<N>) -> bool {
        &&& after.cluster == (ClusterModel {
            cycle_stats: after.cluster.cycle_stats,
            cycle_observation_cache: after.cluster.cycle_observation_cache,
            cycle_profiles: after.cluster.cycle_profiles,
            ..self.cluster
        })
        &&& after.jobs.len() == self.jobs.len()
        &&& forall|job: int|
            0 <= job < self.jobs.len() ==> self.jobs[job].same_place(#[trigger] after.jobs[job])
        &&& after.timer.events.dom() == self.timer.events.dom()
        &&& forall|job: i32| #[trigger]
            self.timer.events.contains_key(job) ==> after.timer.events[job].1
                == self.timer.events[job].1
        &&& after.timer.arrivals == self.timer.arrivals
    }
}

/// Whether a change keeps every job in its place and consistent.
spec fn keeps_each<N: Scalar>(state: System<N>, change: Change<N>) -> bool {
    forall|job: int|
        0 <= job < state.jobs.len() ==> match #[trigger] change(job) {
            Some((after, time)) => state.jobs[job].same_place(after) && after.is_consistent(),
            None => true,
        }
}

proof fn lemma_changed_keeps<N: Scalar>(state: System<N>, change: Change<N>)
    requires
        state.is_sound(),
        keeps_each(state, change),
    ensures
        state.changed(change).is_sound(),
        state.keeps_places(state.changed(change)),
{
    let after = state.changed(change);
    assert(after.timer.events.dom() =~= state.timer.events.dom());
    assert forall|job: int| 0 <= job < state.jobs.len() implies {
        &&& state.jobs[job].same_place(#[trigger] after.jobs[job])
        &&& after.jobs[job].is_consistent()
    } by {
        assert(state.jobs[job].is_consistent());
        assert(change(job) is Some || change(job) is None);
    }
    lemma_places_stay_sound(state, after);
}

/// A state that keeps the places of a sound one is sound where its jobs are consistent
/// and its cycles match.
pub(crate) proof fn lemma_places_stay_sound<N: Scalar>(state: System<N>, after: System<N>)
    requires
        state.is_sound(),
        state.keeps_places(after),
        after.cluster.cycles_match(),
        forall|job: int|
            0 <= job < after.jobs.len() ==> (#[trigger] after.jobs[job]).is_consistent(),
    ensures
        after.is_sound(),
{
    assert forall|job: int| 0 <= job < after.jobs.len() implies (
    #[trigger] after.jobs[job]).is_placed_within(after.cluster.servers as int) by {
        assert(state.jobs[job].same_place(after.jobs[job]));
        assert(state.jobs[job].is_placed_within(state.cluster.servers as int));
    }
    assert forall|job: int|
        0 <= job < after.jobs.len() && #[trigger] after.cluster.active(job)
            && after.jobs[job].training_time is Some implies after.timer.events.contains_key(
        job as i32,
    ) by {
        let server = choose|server: int| after.cluster.runs(server, job);
        assert(state.cluster.runs(server, job));
        assert(state.cluster.active(job));
        assert(state.jobs[job].same_place(after.jobs[job]));
        assert(state.timer.events.dom().contains(job as i32));
    }
    assert forall|job: i32| #[trigger] after.timer.events.contains_key(job) implies 0 <= job
        < after.jobs.len() by {
        assert(state.timer.events.dom().contains(job));
    }
    if after.cluster.interference_model is CorunProfile {
        assert forall|job: int| 0 <= job < after.jobs.len() implies
            after.cluster.corun_profile.solo_times(#[trigger] after.jobs[job]) is Some by {
            assert(state.jobs[job].same_place(after.jobs[job]));
            assert(state.cluster.corun_profile.solo_times(state.jobs[job]) is Some);
        }
    }
    assert(after.cluster.knows_jobs(after.jobs.len())) by {
        assert forall|server: int, k: int|
            0 <= server < after.cluster.active_jobs.len() && 0 <= k
                < after.cluster.active_jobs[server].len() implies 0
            <= #[trigger] after.cluster.active_jobs[server][k] < after.jobs.len() by {
            assert(0 <= state.cluster.active_jobs[server][k] < state.jobs.len());
        }
    }
}

/// Keeping places is transitive.
pub(crate) proof fn lemma_keeps_transitive<N: Scalar>(a: System<N>, b: System<N>, c: System<N>)
    requires
        a.keeps_places(b),
        b.keeps_places(c),
    ensures
        a.keeps_places(c),
{
    assert forall|job: int| 0 <= job < a.jobs.len() implies a.jobs[job].same_place(
        #[trigger] c.jobs[job],
    ) by {
        assert(a.jobs[job].same_place(b.jobs[job]));
        assert(b.jobs[job].same_place(c.jobs[job]));
    }
    assert forall|job: i32| #[trigger] a.timer.events.contains_key(job) implies
        c.timer.events[job].1 == a.timer.events[job].1 by {
        assert(a.timer.events.dom().contains(job));
        assert(b.timer.events.contains_key(job));
    }
}

proof fn lemma_noted_keeps<N: Scalar>(state: System<N>, time: N)
    requires
        state.is_sound(),
    ensures
        state.noted(time).is_sound(),
        state.keeps_places(state.noted(time)),
{
    let after = state.noted(time);
    let key = state.present_key();
    let now = snapshot_of(state.jobs, state.training_ids(), state.cluster.tick(time));
    assert(speaks_of(now.progress, key));
    assert forall|other: KeyModel| #[trigger]
        after.cluster.cycle_observation_cache.contains_key(other) implies speaks_of(
        after.cluster.cycle_observation_cache[other].progress,
        other,
    ) by {
        if other != key {
            assert(state.cluster.cycle_observation_cache.contains_key(other));
        }
    }
    assert forall|other: KeyModel| #[trigger]
        after.cluster.cycle_profiles.contains_key(other) implies speaks_of(
        after.cluster.cycle_profiles[other].deltas,
        other,
    ) by {
        if state.cluster.cycle_profiles.contains_key(other) && other != key {
            assert(speaks_of(state.cluster.cycle_profiles[other].deltas, other));
        } else if state.cluster.cycle_profiles.contains_key(key) {
            assert(speaks_of(state.cluster.cycle_profiles[key].deltas, key));
        }
    }
    lemma_places_stay_sound(state, after);
}

proof fn lemma_skipped_keeps<N: Scalar>(
    state: System<N>,
    time: N,
    next: Option<(N, EventType, i32)>,
)
    requires
        state.is_sound(),
        state.cycles_to_skip(time, next) > 0,
    ensures
        state.skipped(time, state.cycles_to_skip(time, next)).is_sound(),
        state.keeps_places(state.skipped(time, state.cycles_to_skip(time, next))),
{
    let periods = state.cycles_to_skip(time, next);
    let profile = state.cluster.cycle_profiles[state.present_key()];
    let ids = state.training_ids();
    let change = state.skip(ids, profile, periods, time);
    assert forall|job: int| 0 <= job < state.jobs.len() implies match #[trigger] change(job) {
        Some((after, time)) => state.jobs[job].same_place(after) && after.is_consistent(),
        None => true,
    } by {
        assert(state.jobs[job].is_consistent());
        if job <= i32::MAX && ids.contains(job as i32) {
            let k = ids.index_of(job as i32);
            assert(ids[k] == job as i32);
            jumps_end_before_the_jobs(
                state.cluster,
                profile,
                state.jobs,
                ids,
                state.cluster.tick(time),
                next,
                k,
            );
        }
    }
    lemma_changed_keeps(state, change);
    let mid = state.changed(change);
    let after = state.skipped(time, periods);
    lemma_places_stay_sound(state, after);
}

/// Renewing the completion times keeps every job in its place and the state sound.
pub proof fn renewal_keeps_places<N: Scalar>(state: System<N>, after: System<N>, time: N)
    requires
        state.is_sound(),
        state.renews_to(after, time),
    ensures
        after.is_sound(),
        state.keeps_places(after),
{
    let (next, arrival) = choose|
        next: Option<(N, EventType, i32)>,
        arrival: Option<(N, EventType, i32)>,
    |
        {
            &&& state.cluster.interference_model.skips_cycles() ==> state.timer.is_answer(
                is_external(),
                next,
            )
            &&& state.paced(time, next).timer.is_answer(is_arrival(), arrival)
            &&& after == #[trigger] state.paced(time, next).recalled(time, arrival)
        };
    lemma_paced_keeps(state, time, next);
    lemma_recalled_keeps(state.paced(time, next), time, arrival);
    lemma_keeps_transitive(state, state.paced(time, next), after);
}

proof fn lemma_paced_keeps<N: Scalar>(
    state: System<N>,
    time: N,
    next: Option<(N, EventType, i32)>,
)
    requires
        state.is_sound(),
    ensures
        state.paced(time, next).is_sound(),
        state.keeps_places(state.paced(time, next)),
{
    match state.cluster.interference_model {
        InterferenceModel::CommsIter | InterferenceModel::CommsIterIntra => {
            lemma_phases_keep(state, time);
        },
        InterferenceModel::CommsIterLcm | InterferenceModel::CommsIterIntraLcm => {
            if state.cycles_to_skip(time, next) > 0 {
                lemma_skipped_keeps(state, time, next);
            } else {
                let cycled = state.cycled(time, next);
                if state.cycle_may_start(time) {
                    lemma_noted_keeps(state, time);
                }
                assert(cycled.is_sound());
                assert(state.keeps_places(cycled));
                lemma_phases_keep(cycled, time);
                lemma_keeps_transitive(state, cycled, cycled.changed(cycled.phase_pace(time)));
            }
        },
        InterferenceModel::CorunProfile => {
            let change = state.corun_pace(time);
            assert forall|job: int| 0 <= job < state.jobs.len() implies match #[trigger] change(
                job,
            ) {
                Some((after, time)) => state.jobs[job].same_place(after) && after.is_consistent(),
                None => true,
            } by {
                assert(state.jobs[job].is_consistent());
            }
            lemma_changed_keeps(state, change);
        },
        _ => {
            let change = state.job_pace(time);
            assert forall|job: int| 0 <= job < state.jobs.len() implies match #[trigger] change(
                job,
            ) {
                Some((after, time)) => state.jobs[job].same_place(after) && after.is_consistent(),
                None => true,
            } by {
                assert(state.jobs[job].is_consistent());
            }
            lemma_changed_keeps(state, change);
        },
    }
}

proof fn lemma_phases_keep<N: Scalar>(state: System<N>, time: N)
    requires
        state.is_sound(),
    ensures
        state.changed(state.phase_pace(time)).is_sound(),
        state.keeps_places(state.changed(state.phase_pace(time))),
{
    let change = state.phase_pace(time);
    assert forall|job: int| 0 <= job < state.jobs.len() implies match #[trigger] change(job) {
        Some((after, time)) => state.jobs[job].same_place(after) && after.is_consistent(),
        None => true,
    } by {
        assert(state.jobs[job].is_consistent());
    }
    lemma_changed_keeps(state, change);
}

proof fn lemma_recalled_keeps<N: Scalar>(
    state: System<N>,
    time: N,
    arrival: Option<(N, EventType, i32)>,
)
    requires
        state.is_sound(),
        state.timer.is_answer(is_arrival(), arrival),
    ensures
        state.recalled(time, arrival).is_sound(),
        state.keeps_places(state.recalled(time, arrival)),
{
    let after = state.recalled(time, arrival);
    match arrival {
        Some((at, event_type, job)) => {
            assert(state.timer.events.contains_key(job));
            assert(after.timer.events.dom() =~= state.timer.events.dom());
            assert forall|other: int| 0 <= other < after.jobs.len() implies (
            #[trigger] after.jobs[other]).is_consistent() by {
                assert(state.jobs[other].is_consistent());
            }
        },
        None => {},
    }
    assert(state.keeps_places(after));
    lemma_places_stay_sound(state, after);
}

impl<N: Scalar> GpuJob<N> {
    /// Moves the arrival of the job to a time where it lies before it. Returns when the job
    /// arrives.
    fn recall(&mut self, current_time: N) -> (result: N)
        ensures
            result == larger(current_time, old(self)@.temp_arrival_time),
            final(self)@ == (JobModel { temp_arrival_time: result, ..old(self)@ }),
    {
        let new_time: N = max_of(current_time, self.temp_arrival_time);
        self.temp_arrival_time = new_time;
        new_time
    }
}

impl<N: Scalar> GPUCluster<N> {
    /// Takes the progress of all active jobs and moves their next events.
    fn take_progress(
        &mut self,
        current_time: N,
        jobs: &mut Vec<GpuJob<N>>,
        timer: &mut Timer<N>,
    ) -> (next: Ghost<Option<(N, EventType, i32)>>)
        requires
            (System {
                cluster: old(self)@,
                jobs: arena(old(jobs)@),
                timer: old(timer)@,
            }).is_sound(),
            old(timer).wf(),
        ensures
            final(timer).wf(),
            old(self).interference_model.skips_cycles() ==> old(timer)@.is_answer(
                is_external(),
                next@,
            ),
            (System { cluster: final(self)@, jobs: arena(final(jobs)@), timer: final(timer)@ }) == (
            System {
                cluster: old(self)@,
                jobs: arena(old(jobs)@),
                timer: old(timer)@,
            }).paced(current_time, next@),
    {
        let ghost before = System { cluster: self@, jobs: arena(jobs@), timer: timer@ };
        match self.interference_model {
            InterferenceModel::CommsIter | InterferenceModel::CommsIterIntra => {
                self.update_completion_times_iter_model(current_time, jobs, timer);
                Ghost(None)
            },
            InterferenceModel::CommsIterLcm | InterferenceModel::CommsIterIntraLcm => {
                let (jumped, next) = self.observe_or_jump_lcm_cycle(current_time, jobs, timer);
                if !jumped {
                    proof {
                        if before.cycle_may_start(current_time) {
                            lemma_noted_keeps(before, current_time);
                        }
                    }
                    self.update_completion_times_iter_model(current_time, jobs, timer);
                }
                next
            },
            InterferenceModel::CorunProfile => {
                self.update_completion_times_corun_profile(current_time, jobs, timer);
                Ghost(None)
            },
            _ => {
                self.update_completion_times_job_model(current_time, jobs, timer);
                Ghost(None)
            },
        }
    }

    /// Renews the completion times: takes the progress of all active jobs, moves their
    /// next events, and recalls the next arrival to the present.
    pub fn update_completion_times(
        &mut self,
        current_time: N,
        jobs: &mut Vec<GpuJob<N>>,
        timer: &mut Timer<N>,
    )
        requires
            (System {
                cluster: old(self)@,
                jobs: arena(old(jobs)@),
                timer: old(timer)@,
            }).is_sound(),
            old(timer).wf(),
        ensures
            final(timer).wf(),
            (System {
                cluster: old(self)@,
                jobs: arena(old(jobs)@),
                timer: old(timer)@,
            }).renews_to(
                System {
                    cluster: final(self)@,
                    jobs: arena(final(jobs)@),
                    timer: final(timer)@,
                },
                current_time,
            ),
    {
        let ghost before = System { cluster: self@, jobs: arena(jobs@), timer: timer@ };
        let next = self.take_progress(current_time, jobs, timer);
        let ghost mid = before.paced(current_time, next@);
        proof {
            lemma_paced_keeps(before, current_time, next@);
        }
        let arrival = timer.peek_next_arrive_event();
        match arrival {
            Some((_, _, arrive_job_id)) => {
                let ghost old_jobs = jobs@;
                proof {
                    assert(mid.timer.events.contains_key(arrive_job_id));
                    assert(arena(jobs@).len() == jobs@.len());
                    assert(arena(jobs@)[arrive_job_id as int] == jobs@[arrive_job_id as int]@);
                }
                let new_time: N = jobs[arrive_job_id as usize].recall(current_time);
                assert(arena(jobs@) =~= arena(old_jobs).update(
                    arrive_job_id as int,
                    jobs@[arrive_job_id as int]@,
                ));
                timer.update_job_time(arrive_job_id, new_time);
            },
            None => {},
        }
        assert(System { cluster: self@, jobs: arena(jobs@), timer: timer@ } == mid.recalled(
            current_time,
            arrival,
        ));
    }
}

} // verus!
