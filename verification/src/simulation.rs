//! The start of a simulation.

use vstd::prelude::*;

use crate::corun::solo_lookup;
use crate::gpu_cluster::{arena, ClusterModel, GPUCluster, System};
use crate::gpu_job::{GpuJob, JobModel};
use crate::gpu_scheduler::{
    arrival_order, run_of, scheduled, GPUScheduler, Run, SchedulerModel, SchedulerState,
};
use crate::lists::numbers;
use crate::placement::{wide, PlacementMethod};
use crate::ranking::ranked_is_sorted;
use crate::scalar::{zero, Scalar};
use crate::timer::{Timer, TimerModel};

verus! {

/// Why a simulation cannot start: what is wrong with a job.
#[derive(Debug, Clone, Copy, PartialEq, Eq, Structural)]
pub enum StartError {
    /// The number of the job is not its place.
    Misnumbered(usize),
    /// The arrival time of the job, which is not the only one, is not ordered.
    Unordered(usize),
    /// The job has workers that take no GPU or no core, by which bin packing would divide.
    Undividable(usize),
    /// The profile lacks the solo times of the job.
    Unprofiled(usize),
    /// There are more jobs than can be numbered.
    TooMany,
}

impl<N: Scalar> ClusterModel<N> {
    /// Whether nothing is allocated, and nothing noted of cycles.
    pub open spec fn is_idle(self) -> bool {
        &&& self.is_sized()
        &&& forall|server: int|
            0 <= server < self.servers ==> {
                &&& #[trigger] self.gpus[server] == self.gpus_per_server
                &&& self.cpu_cores[server] == self.cpu_cores_per_server
            }
        &&& forall|server: int|
            0 <= server < self.servers ==> (#[trigger] self.active_jobs[server]).len() == 0
        &&& self.cycle_observation_cache == Map::<
            crate::cycles::KeyModel,
            crate::cycles::SnapshotModel<N>,
        >::empty()
        &&& self.cycle_profiles == Map::<
            crate::cycles::KeyModel,
            crate::cycles::ProfileModel<N>,
        >::empty()
    }
}

impl<N: Scalar> JobModel<N> {
    /// Whether the job has not been placed yet.
    pub open spec fn is_unplaced(self) -> bool {
        self.is_consistent() && self.allocated.len() == 0 && self.ps_allocated.len() == 0
    }

    /// What is wrong with the job for a simulation, in which it may be the only one.
    pub open spec fn flaw(
        self,
        place: usize,
        only: bool,
        cluster: ClusterModel<N>,
        method: PlacementMethod,
    ) -> Option<StartError> {
        if self.job_id != place {
            Some(StartError::Misnumbered(place))
        } else if !only && !self.arrival_time.ordered() {
            Some(StartError::Unordered(place))
        } else if method is K8sBinPacking && self.gpu_workers > 0 && (self.gpu_per_worker == 0
            || self.cpu_per_gpu_worker == 0) {
            Some(StartError::Undividable(place))
        } else if cluster.interference_model is CorunProfile && cluster.corun_profile.solo_times(
            self,
        ) is None {
            Some(StartError::Unprofiled(place))
        } else {
            None
        }
    }
}

/// The first thing that is wrong with some jobs for a simulation.
pub open spec fn first_flaw<N: Scalar>(
    jobs: Seq<JobModel<N>>,
    only: bool,
    cluster: ClusterModel<N>,
    method: PlacementMethod,
) -> Option<StartError>
    decreases jobs.len(),
{
    if jobs.len() == 0 {
        None
    } else {
        match first_flaw(jobs.drop_last(), only, cluster, method) {
            Some(error) => Some(error),
            None => jobs.last().flaw((jobs.len() - 1) as usize, only, cluster, method),
        }
    }
}

/// What keeps a simulation from starting.
pub open spec fn start_flaw<N: Scalar>(
    jobs: Seq<JobModel<N>>,
    cluster: ClusterModel<N>,
    method: PlacementMethod,
) -> Option<StartError> {
    if jobs.len() > i32::MAX {
        Some(StartError::TooMany)
    } else {
        first_flaw(jobs, jobs.len() == 1, cluster, method)
    }
}

/// An empty queue.
pub open spec fn empty_timer<N: Scalar>() -> TimerModel<N> {
    TimerModel { events: Map::empty(), arrivals: Seq::empty(), orderly: true }
}

/// A scheduler that has handled nothing.
pub open spec fn fresh_scheduler<N: Scalar>(method: PlacementMethod) -> SchedulerModel<N> {
    SchedulerModel {
        placement_method: method,
        metrics_jobs: Seq::empty(),
        sched_idle_time: zero(),
        sched_capacity_wait_time: zero(),
        sched_placement_wait_time: zero(),
        last_state_change_time: zero(),
        current_state: SchedulerState::Idle,
        past_placement_success_time: zero(),
    }
}

/// The start of a simulation of some jobs on a cluster.
pub open spec fn started_run<N: Scalar>(
    cluster: ClusterModel<N>,
    jobs: Seq<JobModel<N>>,
    method: PlacementMethod,
) -> Run<N> {
    Run {
        scheduler: fresh_scheduler(method),
        system: System { cluster, jobs, timer: scheduled(empty_timer(), jobs) },
    }
}

/// Jobs without a flaw have none each.
proof fn lemma_no_flaw<N: Scalar>(
    jobs: Seq<JobModel<N>>,
    only: bool,
    cluster: ClusterModel<N>,
    method: PlacementMethod,
    k: int,
)
    requires
        jobs.len() <= i32::MAX,
        first_flaw(jobs, only, cluster, method) is None,
        0 <= k < jobs.len(),
    ensures
        jobs[k].flaw(k as usize, only, cluster, method) is None,
    decreases jobs.len(),
{
    if k < jobs.len() - 1 {
        lemma_no_flaw(jobs.drop_last(), only, cluster, method, k);
    }
}

/// A flaw of the first jobs is the first flaw of all.
proof fn lemma_early_flaw<N: Scalar>(
    jobs: Seq<JobModel<N>>,
    only: bool,
    cluster: ClusterModel<N>,
    method: PlacementMethod,
    count: int,
)
    requires
        0 <= count <= jobs.len(),
        first_flaw(jobs.take(count), only, cluster, method) is Some,
    ensures
        first_flaw(jobs, only, cluster, method) == first_flaw(
            jobs.take(count),
            only,
            cluster,
            method,
        ),
    decreases jobs.len(),
{
    if count < jobs.len() {
        assert(jobs.drop_last().take(count) =~= jobs.take(count));
        lemma_early_flaw(jobs.drop_last(), only, cluster, method, count);
    } else {
        assert(jobs.take(count) =~= jobs);
    }
}

/// The jobs in the order of their arrival are all jobs, each once.
proof fn lemma_arrival_order<N: Scalar>(jobs: Seq<JobModel<N>>)
    requires
        jobs.len() <= i32::MAX,
    ensures
        arrival_order(jobs).no_duplicates(),
        arrival_order(jobs).len() == jobs.len(),
        forall|k: int|
            0 <= k < jobs.len() ==> 0 <= #[trigger] arrival_order(jobs)[k] < jobs.len(),
{
    let all = numbers(jobs.len());
    let order = arrival_order(jobs);
    ranked_is_sorted(
        all,
        |job: i32| jobs[job as int].arrival_time.rank(),
        |job: i32| job as int,
    );
    assert forall|k: int| 0 <= k < jobs.len() implies 0 <= #[trigger] order[k] < jobs.len() by {
        assert(order.contains(order[k]));
        assert(all.contains(order[k]));
    }
}

/// A simulation of jobs without a flaw that are not placed yet, on a cluster with
/// nothing allocated, starts in a state in which a step can be taken, with its resources
/// conserved.
pub proof fn simulations_start_live<N: Scalar>(
    cluster: ClusterModel<N>,
    jobs: Seq<JobModel<N>>,
    method: PlacementMethod,
)
    requires
        cluster.is_idle(),
        forall|k: int| 0 <= k < jobs.len() ==> (#[trigger] jobs[k]).is_unplaced(),
        start_flaw(jobs, cluster, method) is None,
    ensures
        started_run(cluster, jobs, method).is_live(),
        started_run(cluster, jobs, method).system.is_conserved(),
{
    let run = started_run(cluster, jobs, method);
    let state = run.system;
    let order = arrival_order(jobs);
    lemma_arrival_order(jobs);
    assert forall|job: int| !(#[trigger] cluster.active(job)) by {
        if cluster.active(job) {
            let server = choose|server: int| cluster.runs(server, job);
            assert(cluster.active_jobs[server].len() == 0);
        }
    }
    assert(empty_timer::<N>().arrivals + order =~= order);
    assert forall|k: int| 0 <= k < jobs.len() implies {
        let job = #[trigger] jobs[k];
        &&& job.is_consistent()
        &&& job.is_placed_within(cluster.servers as int)
        &&& job.flaw(k as usize, jobs.len() == 1, cluster, method) is None
    } by {
        assert(jobs[k].is_unplaced());
        lemma_no_flaw(jobs, jobs.len() == 1, cluster, method, k);
    }
    assert(cluster.knows_jobs(jobs.len())) by {
        assert forall|server: int, k: int|
            0 <= server < cluster.active_jobs.len() && 0 <= k < cluster.active_jobs[server].len()
            implies 0 <= #[trigger] cluster.active_jobs[server][k] < jobs.len() by {
            assert(cluster.active_jobs[server].len() == 0);
        }
    }
    if jobs.len() > 0 {
        let arrivals = state.timer.arrivals;
        assert(0 <= order[0] < jobs.len());
        assert forall|k: int| 0 <= k < arrivals.len() implies {
            &&& 0 <= #[trigger] arrivals[k] < jobs.len()
            &&& !state.timer.events.contains_key(arrivals[k])
            &&& !cluster.active(arrivals[k] as int)
        } by {
            assert(arrivals[k] == order[k + 1]);
            assert(order[k + 1] != order[0]);
        }
        assert(arrivals.no_duplicates()) by {
            assert forall|i: int, j: int|
                0 <= i < arrivals.len() && 0 <= j < arrivals.len() && i != j implies arrivals[i]
                != arrivals[j] by {
                assert(order[i + 1] != order[j + 1]);
            }
        }
    } else {
        assert(order.len() == 0);
    }
    assert(state.is_conserved()) by {
        assert forall|server: int| 0 <= server < state.cluster.servers implies {
            &&& #[trigger] state.cluster.gpus[server] + state.gpus_held(server)
                == state.cluster.gpus_per_server
            &&& state.cluster.cpu_cores[server] + state.cpus_held(server)
                == state.cluster.cpu_cores_per_server
        } by {
            assert(cluster.active_jobs[server].len() == 0);
            assert(cluster.gpus[server] == cluster.gpus_per_server);
            assert(state.gpus_held(server) == 0);
            assert(state.cpus_held(server) == 0);
        }
    }
    assert(state.lists_fit()) by {
        assert forall|server: int| 0 <= server < cluster.servers implies {
            &&& #[trigger] cluster.active_jobs[server].no_duplicates()
            &&& forall|k: int|
                0 <= k < cluster.active_jobs[server].len()
                    ==> jobs[#[trigger] cluster.active_jobs[server][k] as int].uses(server)
        } by {
            assert(cluster.active_jobs[server].len() == 0);
        }
    }
}

/// What is wrong with a job for a simulation.
fn find_flaw<N: Scalar>(
    job: &GpuJob<N>,
    place: usize,
    only: bool,
    cluster: &GPUCluster<N>,
    method: PlacementMethod,
) -> (result: Option<StartError>)
    ensures
        result == job@.flaw(place, only, cluster@, method),
{
    if job.job_id as i128 != place as i128 {
        return Some(StartError::Misnumbered(place));
    }
    if !only && !job.arrival_time.is_equal(job.arrival_time) {
        return Some(StartError::Unordered(place));
    }
    if method == PlacementMethod::K8sBinPacking && job.gpu_workers > 0 && (job.gpu_per_worker == 0
        || job.cpu_per_gpu_worker == 0) {
        return Some(StartError::Undividable(place));
    }
    if cluster.interference_model.is_corun_profile() {
        let gpus: i64 = wide(job.gpu_workers, job.gpu_per_worker) as i64;
        if solo_lookup(&cluster.corun_profile.solo, &job.model, gpus).is_none() {
            return Some(StartError::Unprofiled(place));
        }
    }
    None
}

/// Starts a simulation of some jobs on a cluster: a scheduler, and a queue with the first
/// arrival. Or says what is wrong with the jobs.
pub fn start_simulation<N: Scalar>(
    placement_method: PlacementMethod,
    jobs: &Vec<GpuJob<N>>,
    cluster: &GPUCluster<N>,
) -> (result: Result<(GPUScheduler<N>, Timer<N>), StartError>)
    requires
        cluster@.is_idle(),
        forall|k: int| 0 <= k < jobs@.len() ==> (#[trigger] jobs@[k])@.is_unplaced(),
    ensures
        match result {
            Ok((scheduler, timer)) => {
                &&& start_flaw(arena(jobs@), cluster@, placement_method) is None
                &&& timer.wf()
                &&& run_of(&scheduler, cluster, jobs, &timer) == started_run(
                    cluster@,
                    arena(jobs@),
                    placement_method,
                )
                &&& run_of(&scheduler, cluster, jobs, &timer).is_live()
            },
            Err(error) => start_flaw(arena(jobs@), cluster@, placement_method) == Some(error),
        },
{
    let ghost states = arena(jobs@);
    assert(states.len() == jobs@.len());
    if jobs.len() > i32::MAX as usize {
        return Err(StartError::TooMany);
    }
    let only: bool = jobs.len() == 1;
    let mut k: usize = 0;
    assert(states.take(0) =~= Seq::empty());
    while k < jobs.len()
        invariant
            k <= jobs@.len() <= i32::MAX,
            states == arena(jobs@),
            only == (jobs@.len() == 1),
            first_flaw(states.take(k as int), only, cluster@, placement_method) is None,
            forall|i: int|
                0 <= i < k ==> (#[trigger] states[i]).flaw(
                    i as usize,
                    only,
                    cluster@,
                    placement_method,
                ) is None,
        decreases jobs@.len() - k,
    {
        proof {
            assert(states.take(k + 1).drop_last() =~= states.take(k as int));
            assert(states.take(k + 1).last() == jobs@[k as int]@);
        }
        match find_flaw(&jobs[k], k, only, cluster, placement_method) {
            Some(error) => {
                proof {
                    lemma_early_flaw(states, only, cluster@, placement_method, k + 1);
                }
                return Err(error);
            },
            None => {},
        }
        k += 1;
    }
    proof {
        assert(states.take(k as int) =~= states);
        assert forall|k: int| 0 <= k < states.len() implies (
        #[trigger] states[k]).is_unplaced() by {
            assert(jobs@[k]@.is_unplaced());
        }
        assert forall|job: int| 0 <= job < jobs@.len() implies (#[trigger] jobs@[job]).job_id == job
            && (jobs@.len() > 1 ==> jobs@[job].arrival_time.ordered()) by {
            assert(states[job].flaw(job as usize, only, cluster@, placement_method) is None);
        }
        simulations_start_live(cluster@, states, placement_method);
    }
    let mut timer: Timer<N> = Timer::new();
    assert(timer@ == empty_timer::<N>());
    let scheduler: GPUScheduler<N> = GPUScheduler::new(placement_method, jobs, &mut timer);
    Ok((scheduler, timer))
}

/// A simulation starts unless there are more jobs than can be numbered, or some job is not numbered by
/// its place, has an arrival time that cannot be ordered though it is not the only job, has workers
/// that take no GPU or no core where bin packing would divide by that, or lacks solo times
/// where these come from a profile.
pub proof fn simulations_start_without_flaws<N: Scalar>(
    jobs: Seq<JobModel<N>>,
    cluster: ClusterModel<N>,
    method: PlacementMethod,
)
    ensures
        start_flaw(jobs, cluster, method) is None <==> {
            &&& jobs.len() <= i32::MAX
            &&& forall|k: int|
                0 <= k < jobs.len() ==> {
                    let job = #[trigger] jobs[k];
                    &&& job.job_id == k
                    &&& jobs.len() == 1 || job.arrival_time.ordered()
                    &&& method == PlacementMethod::K8sBinPacking && job.gpu_workers > 0
                        ==> job.gpu_per_worker != 0 && job.cpu_per_gpu_worker != 0
                    &&& cluster.interference_model is CorunProfile
                        ==> cluster.corun_profile.solo_times(job) is Some
                }
        },
{
    if jobs.len() <= i32::MAX {
        lemma_flawless(jobs, jobs.len() == 1, cluster, method);
        if start_flaw(jobs, cluster, method) is None {
            assert forall|k: int| 0 <= k < jobs.len() implies {
                let job = #[trigger] jobs[k];
                &&& job.job_id == k
                &&& jobs.len() == 1 || job.arrival_time.ordered()
                &&& method == PlacementMethod::K8sBinPacking && job.gpu_workers > 0
                    ==> job.gpu_per_worker != 0 && job.cpu_per_gpu_worker != 0
                &&& cluster.interference_model is CorunProfile ==> cluster.corun_profile.solo_times(
                    job,
                ) is Some
            } by {
                lemma_no_flaw(jobs, jobs.len() == 1, cluster, method, k);
            }
        }
    }
}

proof fn lemma_flawless<N: Scalar>(
    jobs: Seq<JobModel<N>>,
    only: bool,
    cluster: ClusterModel<N>,
    method: PlacementMethod,
)
    requires
        jobs.len() <= i32::MAX,
    ensures
        (forall|k: int|
            0 <= k < jobs.len() ==> {
                let job = #[trigger] jobs[k];
                &&& job.job_id == k
                &&& only || job.arrival_time.ordered()
                &&& method == PlacementMethod::K8sBinPacking && job.gpu_workers > 0
                    ==> job.gpu_per_worker != 0 && job.cpu_per_gpu_worker != 0
                &&& cluster.interference_model is CorunProfile ==> cluster.corun_profile.solo_times(
                    job,
                ) is Some
            }) ==> first_flaw(jobs, only, cluster, method) is None,
    decreases jobs.len(),
{
    if jobs.len() > 0 {
        let rest = jobs.drop_last();
        lemma_flawless(rest, only, cluster, method);
        assert forall|k: int| 0 <= k < rest.len() implies #[trigger] rest[k] == jobs[k] by {}
        assert(jobs[jobs.len() - 1] == jobs.last());
    }
}

/// What keeps a simulation from starting is what is wrong with its first job that has anything wrong; and
/// of that job, its number comes first, then its arrival, then what a worker takes, then its times.
pub proof fn the_first_flaw_is_named<N: Scalar>(
    jobs: Seq<JobModel<N>>,
    cluster: ClusterModel<N>,
    method: PlacementMethod,
    k: int,
)
    requires
        0 <= k < jobs.len() <= i32::MAX,
        start_flaw(jobs.take(k), cluster, method) is None,
        jobs.len() > 1,
        k != 1 || jobs[0].arrival_time.ordered(),
    ensures
        ({
            let job = jobs[k];
            let place = k as usize;
            let flaw = start_flaw(jobs, cluster, method);
            let undividable = method is K8sBinPacking && job.gpu_workers > 0 && (
            job.gpu_per_worker == 0 || job.cpu_per_gpu_worker == 0);
            &&& job.job_id != k ==> flaw == Some(StartError::Misnumbered(place))
            &&& job.job_id == k && !job.arrival_time.ordered() ==> flaw == Some(
                StartError::Unordered(place),
            )
            &&& job.job_id == k && job.arrival_time.ordered() && undividable ==> flaw == Some(
                StartError::Undividable(place),
            )
            &&& job.job_id == k && job.arrival_time.ordered() && !undividable
                && cluster.interference_model is CorunProfile && cluster.corun_profile.solo_times(
                job,
            ) is None ==> flaw == Some(StartError::Unprofiled(place))
        }),
{
    let before = jobs.take(k);
    assert(first_flaw(before, false, cluster, method) is None) by {
        if before.len() == 1 {
            assert(before[0] == jobs[0]);
            assert(before.drop_last() =~= Seq::empty());
            assert(before.last() == before[0]);
            assert(first_flaw(before.drop_last(), false, cluster, method) is None);
            assert(first_flaw(before.drop_last(), true, cluster, method) is None);
        }
    }
    let upto = jobs.take(k + 1);
    assert(upto.drop_last() =~= before);
    assert(upto.last() == jobs[k]);
    if first_flaw(upto, false, cluster, method) is Some {
        lemma_flaw_stays(jobs, false, cluster, method, k + 1);
    }
}

/// What is wrong with some jobs is what is wrong with more of them.
proof fn lemma_flaw_stays<N: Scalar>(
    jobs: Seq<JobModel<N>>,
    only: bool,
    cluster: ClusterModel<N>,
    method: PlacementMethod,
    count: int,
)
    requires
        0 <= count <= jobs.len(),
        first_flaw(jobs.take(count), only, cluster, method) is Some,
    ensures
        first_flaw(jobs, only, cluster, method) == first_flaw(
            jobs.take(count),
            only,
            cluster,
            method,
        ),
    decreases jobs.len(),
{
    if count < jobs.len() {
        assert(jobs.drop_last().take(count) =~= jobs.take(count));
        lemma_flaw_stays(jobs.drop_last(), only, cluster, method, count);
    } else {
        assert(jobs.take(count) =~= jobs);
    }
}

} // verus!
