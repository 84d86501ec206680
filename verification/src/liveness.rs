//! What holds of a simulation at every step.

use vstd::prelude::*;

use crate::completion::renewal_keeps_places;
use crate::gpu_cluster::{ClusterModel, System};
use crate::gpu_job::{JobModel, Phase};
use crate::gpu_scheduler::{any_type, Run, Step};
use crate::placement::{plans_are_complete, PlacementMethod};
use crate::resources::{
    lemma_event_completes, lemma_freed_knows, lemma_job_replaced, lemma_same_active,
    lemma_shared_out_sound, lemma_without_first_subset, without_first,
};
use crate::scalar::Scalar;
use crate::timer::EventType;

verus! {

impl<N: Scalar> System<N> {
    /// Whether the jobs that are yet to arrive are distinct existing jobs that neither have
    /// an event nor are active.
    pub open spec fn has_arrivals_apart(self) -> bool {
        let arrivals = self.timer.arrivals;
        &&& arrivals.no_duplicates()
        &&& forall|k: int|
            0 <= k < arrivals.len() ==> {
                &&& 0 <= #[trigger] arrivals[k] < self.jobs.len()
                &&& !self.timer.events.contains_key(arrivals[k])
                &&& !self.cluster.active(arrivals[k] as int)
            }
    }

    /// Whether the event of a job fits its state: a job that arrives is not active, and a
    /// job whose iterations or training end trains.
    pub open spec fn event_fits(self, id: i32) -> bool {
        let event_type = self.timer.events[id].1;
        let job = self.jobs[id as int];
        &&& event_type == EventType::Arrive ==> !self.cluster.active(id as int)
        &&& event_type != EventType::Arrive && event_type != EventType::Start
            ==> job.training_time is Some
        &&& event_type == EventType::IterCompEnd || event_type == EventType::IterCommEnd
            ==> job.current_iteration < i64::MAX
    }

    /// Whether the events of all jobs fit their states.
    pub open spec fn events_fit(self) -> bool {
        forall|id: i32| #[trigger] self.timer.events.contains_key(id) ==> self.event_fits(id)
    }

    /// Whether every server names a job at most once, and only jobs that are placed on it.
    pub open spec fn lists_fit(self) -> bool {
        forall|server: int|
            #![trigger self.cluster.active_jobs[server]]
            0 <= server < self.cluster.servers ==> {
                &&& self.cluster.active_jobs[server].no_duplicates()
                &&& forall|k: int|
                    0 <= k < self.cluster.active_jobs[server].len()
                        ==> self.jobs[#[trigger] self.cluster.active_jobs[server][k] as int].uses(
                        server,
                    )
            }
    }

    /// Whether a method can plan for every job.
    pub open spec fn can_plan(self, method: PlacementMethod) -> bool {
        method is K8sBinPacking ==> forall|job: int|
            0 <= job < self.jobs.len() && (#[trigger] self.jobs[job]).gpu_workers > 0 ==> {
                &&& self.jobs[job].gpu_per_worker != 0
                &&& self.jobs[job].cpu_per_gpu_worker != 0
            }
    }

    /// What holds of the state at every step.
    pub open spec fn is_live(self, method: PlacementMethod) -> bool {
        &&& self.is_sound()
        &&& self.has_arrivals_apart()
        &&& self.events_fit()
        &&& self.lists_fit()
        &&& self.can_plan(method)
    }

    /// What holds of the state while the event of a job is handled.
    pub open spec fn is_live_but(self, id: i32, method: PlacementMethod) -> bool {
        &&& 0 <= id < self.jobs.len()
        &&& self.is_sound_but(id as int)
        &&& !self.timer.events.contains_key(id)
        &&& !self.timer.arrivals.contains(id)
        &&& self.has_arrivals_apart()
        &&& self.events_fit()
        &&& self.lists_fit()
        &&& self.can_plan(method)
    }
}

impl<N: Scalar> Run<N> {
    /// What holds at every step.
    pub open spec fn is_live(self) -> bool {
        &&& self.system.is_live(self.scheduler.placement_method)
        &&& forall|k: int|
            0 <= k < self.scheduler.metrics_jobs.len() ==> 0
                <= #[trigger] self.scheduler.metrics_jobs[k] < self.system.jobs.len()
    }
}

/// Keeping places keeps the state live.
pub(crate) proof fn lemma_keeps_live<N: Scalar>(
    state: System<N>,
    after: System<N>,
    method: PlacementMethod,
)
    requires
        state.is_live(method),
        state.keeps_places(after),
        after.is_sound(),
    ensures
        after.is_live(method),
{
    let arrivals = after.timer.arrivals;
    assert forall|k: int| 0 <= k < arrivals.len() implies {
        &&& 0 <= #[trigger] arrivals[k] < after.jobs.len()
        &&& !after.timer.events.contains_key(arrivals[k])
        &&& !after.cluster.active(arrivals[k] as int)
    } by {
        assert(0 <= state.timer.arrivals[k] < state.jobs.len());
        assert(!state.timer.events.dom().contains(arrivals[k]));
        lemma_same_active(state.cluster, after.cluster, arrivals[k] as int);
    }
    assert forall|id: i32| #[trigger] after.timer.events.contains_key(id) implies after.event_fits(
        id,
    ) by {
        assert(state.timer.events.dom().contains(id));
        assert(state.timer.events.contains_key(id));
        assert(state.event_fits(id));
        assert(0 <= id < state.jobs.len());
        assert(state.jobs[id as int].same_place(after.jobs[id as int]));
        lemma_same_active(state.cluster, after.cluster, id as int);
    }
    assert forall|server: int| 0 <= server < after.cluster.servers implies {
        &&& #[trigger] after.cluster.active_jobs[server].no_duplicates()
        &&& forall|k: int|
            0 <= k < after.cluster.active_jobs[server].len()
                ==> after.jobs[#[trigger] after.cluster.active_jobs[server][k] as int].uses(server)
    } by {
        assert(state.cluster.active_jobs[server].no_duplicates());
        assert forall|k: int| 0 <= k < after.cluster.active_jobs[server].len() implies
            after.jobs[#[trigger] after.cluster.active_jobs[server][k] as int].uses(server) by {
            let id = state.cluster.active_jobs[server][k] as int;
            assert(0 <= state.cluster.active_jobs[server][k] < state.jobs.len());
            assert(state.jobs[id].uses(server));
            assert(state.jobs[id].same_place(after.jobs[id]));
        }
    }
    if method is K8sBinPacking {
        assert forall|job: int|
            0 <= job < after.jobs.len() && (
            #[trigger] after.jobs[job]).gpu_workers > 0 implies after.jobs[job].gpu_per_worker != 0
            && after.jobs[job].cpu_per_gpu_worker != 0 by {
            assert(state.jobs[job].same_place(after.jobs[job]));
            assert(state.jobs[job].gpu_workers > 0);
        }
    }
}

/// A live state is live but for the job whose event is taken out.
pub(crate) proof fn lemma_popped_live<N: Scalar>(state: System<N>, id: i32, method: PlacementMethod)
    requires
        state.is_live(method),
        state.timer.events.contains_key(id),
    ensures
        (System { timer: state.timer.without(id), ..state }).is_live_but(id, method),
        state.event_fits(id),
{
    let after = System { timer: state.timer.without(id), ..state };
    assert forall|job: int|
        0 <= job < after.jobs.len() && job != id && #[trigger] after.cluster.active(job)
            && after.jobs[job].training_time is Some implies after.timer.events.contains_key(
        job as i32,
    ) by {
        assert(state.cluster.active(job));
        let server = choose|server: int| state.cluster.runs(server, job);
        assert(job as i32 != id);
    }
    assert forall|other: i32| #[trigger] after.timer.events.contains_key(other) implies
        after.event_fits(other) && 0 <= other < after.jobs.len() by {
        assert(state.timer.events.contains_key(other));
        assert(state.event_fits(other));
    }
    assert(!after.timer.arrivals.contains(id)) by {
        if after.timer.arrivals.contains(id) {
            let k = choose|k: int|
                0 <= k < state.timer.arrivals.len() && state.timer.arrivals[k] == id;
            assert(!state.timer.events.contains_key(state.timer.arrivals[k]));
        }
    }
    assert forall|k: int| 0 <= k < after.timer.arrivals.len() implies {
        &&& 0 <= #[trigger] after.timer.arrivals[k] < after.jobs.len()
        &&& !after.timer.events.contains_key(after.timer.arrivals[k])
        &&& !after.cluster.active(after.timer.arrivals[k] as int)
    } by {
        assert(!state.timer.events.contains_key(state.timer.arrivals[k]));
    }
    assert(after.lists_fit()) by {
        assert(after.cluster.active_jobs == state.cluster.active_jobs);
        assert(state.lists_fit());
    }
}

/// A state that lacks a job's event is live once the job has one that fits it.
pub(crate) proof fn lemma_event_live<N: Scalar>(
    state: System<N>,
    id: i32,
    time: N,
    event_type: EventType,
    method: PlacementMethod,
)
    requires
        state.is_live_but(id, method),
        event_type == EventType::Arrive ==> !state.cluster.active(id as int),
        event_type != EventType::Arrive && event_type != EventType::Start
            ==> state.jobs[id as int].training_time is Some,
        event_type == EventType::IterCompEnd || event_type == EventType::IterCommEnd
            ==> state.jobs[id as int].current_iteration < i64::MAX,
    ensures
        state.with_event(time, event_type, id).is_live(method),
{
    let after = state.with_event(time, event_type, id);
    lemma_event_completes(state, id, time, event_type);
    assert forall|other: i32| #[trigger] after.timer.events.contains_key(other) implies
        after.event_fits(other) by {
        if other != id {
            assert(state.timer.events.contains_key(other));
            assert(state.event_fits(other));
        }
    }
    assert forall|k: int| 0 <= k < after.timer.arrivals.len() implies {
        &&& 0 <= #[trigger] after.timer.arrivals[k] < after.jobs.len()
        &&& !after.timer.events.contains_key(after.timer.arrivals[k])
        &&& !after.cluster.active(after.timer.arrivals[k] as int)
    } by {
        assert(!state.timer.events.contains_key(state.timer.arrivals[k]));
        assert(state.timer.arrivals.contains(state.timer.arrivals[k]));
    }
    assert(after.lists_fit()) by {
        assert(after.cluster.active_jobs == state.cluster.active_jobs);
        assert(state.lists_fit());
    }
}

/// Another state of the job whose event is handled, in the same places, keeps the state live
/// but for it.
pub(crate) proof fn lemma_job_live<N: Scalar>(
    state: System<N>,
    id: i32,
    job: JobModel<N>,
    method: PlacementMethod,
)
    requires
        state.is_live_but(id, method),
        job.is_consistent(),
        job.allocated == state.jobs[id as int].allocated,
        job.ps_allocated == state.jobs[id as int].ps_allocated,
        job.model == state.jobs[id as int].model,
        job.gpu_workers == state.jobs[id as int].gpu_workers,
        job.gpu_per_worker == state.jobs[id as int].gpu_per_worker,
        job.cpu_per_gpu_worker == state.jobs[id as int].cpu_per_gpu_worker,
    ensures
        state.with_job(id, job).is_live_but(id, method),
{
    let after = state.with_job(id, job);
    assert(state.jobs[id as int].is_placed_within(state.cluster.servers as int));
    lemma_job_replaced(state, id as int, job, id as int);
    assert forall|other: i32| #[trigger] after.timer.events.contains_key(other) implies
        after.event_fits(other) by {
        assert(state.timer.events.contains_key(other));
        assert(state.event_fits(other));
        assert(0 <= other < state.jobs.len());
    }
    assert(after.has_arrivals_apart()) by {
        assert forall|k: int| 0 <= k < after.timer.arrivals.len() implies {
            &&& 0 <= #[trigger] after.timer.arrivals[k] < after.jobs.len()
            &&& !after.timer.events.contains_key(after.timer.arrivals[k])
            &&& !after.cluster.active(after.timer.arrivals[k] as int)
        } by {
            assert(!state.timer.events.contains_key(state.timer.arrivals[k]));
        }
    }
    assert forall|server: int| 0 <= server < after.cluster.servers implies {
        &&& #[trigger] after.cluster.active_jobs[server].no_duplicates()
        &&& forall|k: int|
            0 <= k < after.cluster.active_jobs[server].len()
                ==> after.jobs[#[trigger] after.cluster.active_jobs[server][k] as int].uses(server)
    } by {
        assert(state.cluster.active_jobs[server].no_duplicates());
        assert forall|k: int| 0 <= k < after.cluster.active_jobs[server].len() implies
            after.jobs[#[trigger] after.cluster.active_jobs[server][k] as int].uses(server) by {
            assert(0 <= state.cluster.active_jobs[server][k] < state.jobs.len());
            assert(state.jobs[state.cluster.active_jobs[server][k] as int].uses(server));
        }
    }
    if method is K8sBinPacking {
        assert forall|other: int|
            0 <= other < after.jobs.len() && (
            #[trigger] after.jobs[other]).gpu_workers > 0 implies after.jobs[other].gpu_per_worker
            != 0 && after.jobs[other].cpu_per_gpu_worker != 0 by {
            assert(state.jobs[other].gpu_workers > 0);
        }
    }
}

/// Sharing the bandwidth out keeps the state live but for a job.
pub(crate) proof fn lemma_shared_out_live<N: Scalar>(state: System<N>, id: i32, method: PlacementMethod)
    requires
        state.is_live_but(id, method),
    ensures
        state.shared_out().is_live_but(id, method),
{
    let after = state.shared_out();
    lemma_shared_out_sound(state, id as int);
    assert forall|other: i32| #[trigger] after.timer.events.contains_key(other) implies
        after.event_fits(other) by {
        assert(state.timer.events.contains_key(other));
        assert(state.event_fits(other));
        assert(0 <= other < state.jobs.len());
        lemma_same_active(state.cluster, after.cluster, other as int);
    }
    assert forall|k: int| 0 <= k < after.timer.arrivals.len() implies {
        &&& 0 <= #[trigger] after.timer.arrivals[k] < after.jobs.len()
        &&& !after.timer.events.contains_key(after.timer.arrivals[k])
        &&& !after.cluster.active(after.timer.arrivals[k] as int)
    } by {
        assert(!state.timer.events.contains_key(state.timer.arrivals[k]));
        lemma_same_active(state.cluster, after.cluster, after.timer.arrivals[k] as int);
    }
    assert forall|server: int| 0 <= server < after.cluster.servers implies {
        &&& #[trigger] after.cluster.active_jobs[server].no_duplicates()
        &&& forall|k: int|
            0 <= k < after.cluster.active_jobs[server].len()
                ==> after.jobs[#[trigger] after.cluster.active_jobs[server][k] as int].uses(server)
    } by {
        assert(state.cluster.active_jobs[server].no_duplicates());
        assert forall|k: int| 0 <= k < after.cluster.active_jobs[server].len() implies
            after.jobs[#[trigger] after.cluster.active_jobs[server][k] as int].uses(server) by {
            assert(0 <= state.cluster.active_jobs[server][k] < state.jobs.len());
            assert(state.jobs[state.cluster.active_jobs[server][k] as int].uses(server));
        }
    }
    if method is K8sBinPacking {
        assert forall|other: int|
            0 <= other < after.jobs.len() && (
            #[trigger] after.jobs[other]).gpu_workers > 0 implies after.jobs[other].gpu_per_worker
            != 0 && after.jobs[other].cpu_per_gpu_worker != 0 by {
            assert(state.jobs[other].gpu_workers > 0);
        }
    }
}

/// A state that is live but for a job that is not active is live.
pub(crate) proof fn lemma_idle_live<N: Scalar>(state: System<N>, id: i32, method: PlacementMethod)
    requires
        state.is_live_but(id, method),
        !state.cluster.active(id as int),
    ensures
        state.is_live(method),
{
    assert(state.has_events());
}

/// A job that is active once another is placed was active before.
proof fn lemma_taken_active<N: Scalar>(
    cluster: ClusterModel<N>,
    job: JobModel<N>,
    id: i32,
    allocated: Seq<i32>,
    ps_allocated: Seq<i32>,
    other: int,
)
    requires
        cluster.is_sized(),
        cluster.taken(job, id, allocated, ps_allocated).active(other),
        other != id,
    ensures
        cluster.active(other),
{
    let after = cluster.taken(job, id, allocated, ps_allocated);
    let server = choose|server: int| after.runs(server, other);
    let list = after.active_jobs[server];
    let k = choose|k: int| 0 <= k < list.len() && list[k] == other as i32;
    assert(k < cluster.active_jobs[server].len());
    assert(cluster.active_jobs[server][k] == other as i32);
    assert(cluster.runs(server, other));
}

/// Placing a job that is not active keeps the state live.
pub(crate) proof fn lemma_placed_live<N: Scalar>(
    state: System<N>,
    id: i32,
    allocated: Seq<i32>,
    ps_allocated: Seq<i32>,
    time: N,
    method: PlacementMethod,
)
    requires
        state.is_live_but(id, method),
        !state.cluster.active(id as int),
        forall|server: i32| #[trigger]
            allocated.contains(server) ==> 0 <= server < state.cluster.servers,
        forall|server: i32| #[trigger]
            ps_allocated.contains(server) ==> 0 <= server < state.cluster.servers,
    ensures
        state.placed(id, allocated, ps_allocated, time).is_live(method),
{
    let placed = state.placed(id, allocated, ps_allocated, time);
    let mid = System { timer: state.timer, ..placed };
    let old = state.jobs[id as int];
    let taken = state.cluster.taken(old, id, allocated, ps_allocated);
    assert(old.is_consistent());
    assert(placed.cluster.active_jobs == taken.active_jobs);
    assert(mid.cluster.is_sized());
    assert(mid.cluster.knows_jobs(mid.jobs.len())) by {
        assert forall|server: int, k: int|
            0 <= server < mid.cluster.active_jobs.len() && 0 <= k
                < mid.cluster.active_jobs[server].len() implies 0
            <= #[trigger] mid.cluster.active_jobs[server][k] < mid.jobs.len() by {
            if k < state.cluster.active_jobs[server].len() {
                assert(0 <= state.cluster.active_jobs[server][k] < state.jobs.len());
            }
        }
    }
    assert forall|job: int| 0 <= job < mid.jobs.len() implies {
        &&& (#[trigger] mid.jobs[job]).is_consistent()
        &&& mid.jobs[job].is_placed_within(mid.cluster.servers as int)
    } by {
        assert(state.jobs[job].is_consistent());
        assert(state.jobs[job].is_placed_within(state.cluster.servers as int));
    }
    if mid.cluster.interference_model is CorunProfile {
        assert forall|job: int| 0 <= job < mid.jobs.len() implies
            mid.cluster.corun_profile.solo_times(#[trigger] mid.jobs[job]) is Some by {
            assert(state.cluster.corun_profile.solo_times(state.jobs[job]) is Some);
        }
    }
    assert forall|job: int| job != id && #[trigger] mid.cluster.active(job) implies
        state.cluster.active(job) by {
        lemma_same_active(taken, mid.cluster, job);
        lemma_taken_active(state.cluster, old, id, allocated, ps_allocated, job);
    }
    assert forall|other: i32| #[trigger] mid.timer.events.contains_key(other) implies
        mid.event_fits(other) && 0 <= other < mid.jobs.len() by {
        assert(state.timer.events.contains_key(other));
        assert(state.event_fits(other));
        assert(other != id);
    }
    assert forall|k: int| 0 <= k < mid.timer.arrivals.len() implies {
        &&& 0 <= #[trigger] mid.timer.arrivals[k] < mid.jobs.len()
        &&& !mid.timer.events.contains_key(mid.timer.arrivals[k])
        &&& !mid.cluster.active(mid.timer.arrivals[k] as int)
    } by {
        assert(!state.timer.events.contains_key(state.timer.arrivals[k]));
        assert(state.timer.arrivals.contains(state.timer.arrivals[k]));
    }
    assert forall|server: int| 0 <= server < mid.cluster.servers implies {
        &&& #[trigger] mid.cluster.active_jobs[server].no_duplicates()
        &&& forall|k: int|
            0 <= k < mid.cluster.active_jobs[server].len()
                ==> mid.jobs[#[trigger] mid.cluster.active_jobs[server][k] as int].uses(server)
    } by {
        let list = state.cluster.active_jobs[server];
        assert(list.no_duplicates());
        assert(!list.contains(id)) by {
            if list.contains(id) {
                assert(state.cluster.runs(server, id as int));
            }
        }
        assert forall|k: int| 0 <= k < mid.cluster.active_jobs[server].len() implies
            mid.jobs[#[trigger] mid.cluster.active_jobs[server][k] as int].uses(server) by {
            if k < list.len() {
                assert(0 <= state.cluster.active_jobs[server][k] < state.jobs.len());
                assert(state.jobs[state.cluster.active_jobs[server][k] as int].uses(server));
                assert(list[k] != id) by {
                    if list[k] == id {
                        assert(list.contains(id));
                    }
                }
            }
        }
    }
    if method is K8sBinPacking {
        assert forall|job: int|
            0 <= job < mid.jobs.len() && (
            #[trigger] mid.jobs[job]).gpu_workers > 0 implies mid.jobs[job].gpu_per_worker != 0
            && mid.jobs[job].cpu_per_gpu_worker != 0 by {
            assert(state.jobs[job].gpu_workers > 0);
        }
    }
    assert(mid.is_live_but(id, method));
    let loading = placed.jobs[id as int].loading_time;
    lemma_event_live(mid, id, time.sum(loading), EventType::Start, method);
    assert(placed == mid.with_event(time.sum(loading), EventType::Start, id));
}

/// A job that is active once a job is released was active before, and is another one.
proof fn lemma_freed_active<N: Scalar>(state: System<N>, id: i32, other: int)
    requires
        state.cluster.is_sized(),
        state.cluster.knows_jobs(state.jobs.len()),
        state.lists_fit(),
        0 <= id < state.jobs.len(),
        state.cluster.freed(state.jobs[id as int], id).active(other),
    ensures
        state.cluster.active(other),
        other != id,
{
    let job = state.jobs[id as int];
    let after = state.cluster.freed(job, id);
    let server = choose|server: int| after.runs(server, other);
    let list = state.cluster.active_jobs[server];
    let kept = after.active_jobs[server];
    assert(list.no_duplicates());
    lemma_without_first_subset(list, id);
    let k = choose|k: int| 0 <= k < kept.len() && kept[k] == other as i32;
    assert(list.contains(other as i32)) by {
        if job.uses(server) {
            assert(without_first(list, id)[k] == other as i32);
        } else {
            assert(list[k] == other as i32);
        }
    }
    assert(state.cluster.runs(server, other));
    if other == id {
        if !job.uses(server) {
            assert(list[k] == id);
            assert(state.jobs[state.cluster.active_jobs[server][k] as int].uses(server));
        } else {
            assert(without_first(list, id).contains(id));
        }
    }
}

/// Releasing a job keeps the state live.
pub(crate) proof fn lemma_freed_live<N: Scalar>(state: System<N>, id: i32, method: PlacementMethod)
    requires
        state.is_live_but(id, method),
    ensures
        state.freed(id).is_live(method),
{
    let old = state.jobs[id as int];
    let cluster = state.cluster.freed(old, id);
    let mid = System {
        cluster,
        jobs: state.jobs.update(id as int, JobModel { using_bandwidths: Map::empty(), ..old }),
        timer: state.timer,
    };
    lemma_freed_knows(state.cluster, old, id, state.jobs.len());
    assert forall|job: int| #[trigger] mid.cluster.active(job) implies state.cluster.active(job)
        && job != id by {
        lemma_freed_active(state, id, job);
    }
    assert forall|job: int| 0 <= job < mid.jobs.len() implies {
        &&& (#[trigger] mid.jobs[job]).is_consistent()
        &&& mid.jobs[job].is_placed_within(mid.cluster.servers as int)
    } by {
        assert(state.jobs[job].is_consistent());
        assert(state.jobs[job].is_placed_within(state.cluster.servers as int));
    }
    if mid.cluster.interference_model is CorunProfile {
        assert forall|job: int| 0 <= job < mid.jobs.len() implies
            mid.cluster.corun_profile.solo_times(#[trigger] mid.jobs[job]) is Some by {
            assert(state.cluster.corun_profile.solo_times(state.jobs[job]) is Some);
        }
    }
    assert forall|other: i32| #[trigger] mid.timer.events.contains_key(other) implies
        mid.event_fits(other) && 0 <= other < mid.jobs.len() by {
        assert(state.timer.events.contains_key(other));
        assert(state.event_fits(other));
    }
    assert forall|k: int| 0 <= k < mid.timer.arrivals.len() implies {
        &&& 0 <= #[trigger] mid.timer.arrivals[k] < mid.jobs.len()
        &&& !mid.timer.events.contains_key(mid.timer.arrivals[k])
        &&& !mid.cluster.active(mid.timer.arrivals[k] as int)
    } by {
        assert(!state.timer.events.contains_key(state.timer.arrivals[k]));
    }
    assert forall|server: int| 0 <= server < mid.cluster.servers implies {
        &&& #[trigger] mid.cluster.active_jobs[server].no_duplicates()
        &&& forall|k: int|
            0 <= k < mid.cluster.active_jobs[server].len()
                ==> mid.jobs[#[trigger] mid.cluster.active_jobs[server][k] as int].uses(server)
    } by {
        let list = state.cluster.active_jobs[server];
        assert(list.no_duplicates());
        lemma_without_first_subset(list, id);
        assert forall|k: int| 0 <= k < mid.cluster.active_jobs[server].len() implies
            mid.jobs[#[trigger] mid.cluster.active_jobs[server][k] as int].uses(server) by {
            let other = mid.cluster.active_jobs[server][k];
            assert(list.contains(other)) by {
                if old.uses(server) {
                    assert(without_first(list, id)[k] == other);
                } else {
                    assert(list[k] == other);
                }
            }
            let m = choose|m: int| 0 <= m < list.len() && list[m] == other;
            assert(0 <= state.cluster.active_jobs[server][m] < state.jobs.len());
            assert(state.jobs[state.cluster.active_jobs[server][m] as int].uses(server));
        }
    }
    if method is K8sBinPacking {
        assert forall|job: int|
            0 <= job < mid.jobs.len() && (
            #[trigger] mid.jobs[job]).gpu_workers > 0 implies mid.jobs[job].gpu_per_worker != 0
            && mid.jobs[job].cpu_per_gpu_worker != 0 by {
            assert(state.jobs[job].gpu_workers > 0);
        }
    }
    assert(mid.is_live_but(id, method));
    lemma_shared_out_live(mid, id, method);
    lemma_same_active(mid.cluster, mid.shared_out().cluster, id as int);
    lemma_idle_live(mid.shared_out(), id, method);
}

/// Taking the first job out of the queue of arrivals leaves the state live but for it.
pub(crate) proof fn lemma_arrival_live<N: Scalar>(state: System<N>, method: PlacementMethod)
    requires
        state.is_live(method),
        state.timer.arrivals.len() > 0,
    ensures
        (System { timer: state.timer.without_arrival(), ..state }).is_live_but(
            state.timer.arrivals[0],
            method,
        ),
        !state.cluster.active(state.timer.arrivals[0] as int),
{
    let id = state.timer.arrivals[0];
    let after = System { timer: state.timer.without_arrival(), ..state };
    let rest = after.timer.arrivals;
    assert(0 <= state.timer.arrivals[0] < state.jobs.len());
    assert(!rest.contains(id)) by {
        if rest.contains(id) {
            let k = choose|k: int| 0 <= k < rest.len() && rest[k] == id;
            assert(state.timer.arrivals[k + 1] == state.timer.arrivals[0]);
        }
    }
    assert(rest.no_duplicates()) by {
        assert forall|i: int, j: int| 0 <= i < rest.len() && 0 <= j < rest.len() && i
            != j implies rest[i] != rest[j] by {
            assert(state.timer.arrivals[i + 1] != state.timer.arrivals[j + 1]);
        }
    }
    assert forall|k: int| 0 <= k < rest.len() implies {
        &&& 0 <= #[trigger] rest[k] < after.jobs.len()
        &&& !after.timer.events.contains_key(rest[k])
        &&& !after.cluster.active(rest[k] as int)
    } by {
        assert(0 <= state.timer.arrivals[k + 1] < state.jobs.len());
    }
    assert forall|other: i32| #[trigger] after.timer.events.contains_key(other) implies
        after.event_fits(other) by {
        assert(state.timer.events.contains_key(other));
        assert(state.event_fits(other));
    }
    assert(after.lists_fit()) by {
        assert(after.cluster.active_jobs == state.cluster.active_jobs);
        assert(state.lists_fit());
    }
    assert(state.has_events());
    assert(after.has_events_but(id as int)) by {
        assert forall|job: int|
            0 <= job < after.jobs.len() && job != id && #[trigger] after.cluster.active(job)
                && after.jobs[job].training_time is Some implies after.timer.events.contains_key(
            job as i32,
        ) by {
            assert(state.cluster.active(job));
        }
    }
}

/// Taking note of an arrival keeps the state live but for the job.
pub(crate) proof fn lemma_noticed_live<N: Scalar>(run: Run<N>, id: i32, time: N)
    requires
        run.system.is_live_but(id, run.scheduler.placement_method),
    ensures
        run.noticed(id, time).system.is_live_but(id, run.scheduler.placement_method),
        run.noticed(id, time).system.cluster == run.system.cluster,
        run.noticed(id, time).scheduler.placement_method == run.scheduler.placement_method,
        run.noticed(id, time).scheduler.metrics_jobs == run.scheduler.metrics_jobs,
        run.noticed(id, time).system.jobs.len() == run.system.jobs.len(),
        run.noticed(id, time).system.timer == run.system.timer,
{
    let job = run.noticed(id, time).system.jobs[id as int];
    assert(run.system.jobs[id as int].is_consistent());
    lemma_job_live(run.system, id, job, run.scheduler.placement_method);
}

/// Admitting a job keeps the state live.
pub(crate) proof fn lemma_admitted_live<N: Scalar>(
    run: Run<N>,
    id: i32,
    allocated: Seq<i32>,
    ps_allocated: Seq<i32>,
    time: N,
)
    requires
        run.system.is_live_but(id, run.scheduler.placement_method),
        !run.system.cluster.active(id as int),
        run.system.cluster.plan(run.system.jobs[id as int], run.scheduler.placement_method)
            == Some((allocated, ps_allocated)),
    ensures
        run.admitted(id, allocated, ps_allocated, time).system.is_live(
            run.scheduler.placement_method,
        ),
        run.system.placed(id, allocated, ps_allocated, time).is_live(
            run.scheduler.placement_method,
        ),
{
    let method = run.scheduler.placement_method;
    let job = run.system.jobs[id as int];
    let placed = run.system.placed(id, allocated, ps_allocated, time);
    plans_are_complete(
        method,
        run.system.cluster.gpus,
        run.system.cluster.cpu_cores,
        job.asks(),
        job.is_skewed(),
    );
    lemma_placed_live(run.system, id, allocated, ps_allocated, time, method);
    if placed.timer.arrivals.len() > 0 {
        let next = placed.timer.arrivals[0];
        let arrival = crate::scalar::larger(time, placed.jobs[next as int].arrival_time);
        let waiting = JobModel { temp_arrival_time: arrival, ..placed.jobs[next as int] };
        let rest = System { timer: placed.timer.without_arrival(), ..placed };
        lemma_arrival_live(placed, method);
        assert(placed.jobs[next as int].is_consistent());
        lemma_job_live(rest, next, waiting, method);
        lemma_event_live(rest.with_job(next, waiting), next, arrival, EventType::Arrive, method);
    }
}

/// Putting an arrival off keeps the state live.
proof fn lemma_postponed_live<N: Scalar>(run: Run<N>, id: i32, time: N)
    requires
        run.system.is_live_but(id, run.scheduler.placement_method),
        !run.system.cluster.active(id as int),
    ensures
        run.postponed(id, time).system.is_live(run.scheduler.placement_method),
{
    let method = run.scheduler.placement_method;
    let job = run.system.jobs[id as int];
    let arrival = crate::scalar::larger(time, job.temp_arrival_time);
    let waiting = JobModel { temp_arrival_time: arrival, ..job };
    assert(job.is_consistent());
    lemma_job_live(run.system, id, waiting, method);
    lemma_event_live(run.system.with_job(id, waiting), id, arrival, EventType::Arrive, method);
}

/// The state of a job at the start of its training is live but for the job.
pub(crate) proof fn lemma_trained_live<N: Scalar>(state: System<N>, id: i32, time: N, method: PlacementMethod)
    requires
        state.is_live_but(id, method),
    ensures
        state.trained(id, time).is_live_but(id, method),
{
    let job = state.trained(id, time).jobs[id as int];
    assert(state.jobs[id as int].is_consistent());
    lemma_job_live(state, id, job, method);
    assert(state.trained(id, time) =~= state.with_job(id, job));
}

/// The start of a job's training keeps the state live.
pub(crate) proof fn lemma_starts_live<N: Scalar>(
    state: System<N>,
    after: System<N>,
    id: i32,
    time: N,
    method: PlacementMethod,
)
    requires
        state.is_live_but(id, method),
        state.starts_to(after, id, time),
    ensures
        after.is_live(method),
        after.jobs.len() == state.jobs.len(),
{
    let trained = state.trained(id, time);
    lemma_trained_live(state, id, time, method);
    if state.cluster.interference_model.iterates() {
        let end = time.sum(state.jobs[id as int].iteration_computing_time);
        lemma_event_live(trained, id, end, EventType::IterCompEnd, method);
    } else {
        let entered = state.entered(id, time);
        lemma_shared_out_live(trained, id, method);
        lemma_event_live(
            trained.shared_out(),
            id,
            entered.timer.events[id].0,
            EventType::Complete,
            method,
        );
        assert(entered == trained.shared_out().with_event(
            entered.timer.events[id].0,
            EventType::Complete,
            id,
        ));
        renewal_keeps_places(entered, after, time);
        lemma_keeps_live(entered, after, method);
    }
}

/// The end of a compute phase keeps the state live.
pub(crate) proof fn lemma_computed_live<N: Scalar>(
    state: System<N>,
    id: i32,
    time: N,
    method: PlacementMethod,
)
    requires
        state.is_live_but(id, method),
        state.jobs[id as int].training_time is Some,
        state.jobs[id as int].current_iteration < i64::MAX,
    ensures
        state.computed(id, time).is_live(method),
{
    let slowdown = state.jobs[id as int].initial_slowdown(state.cluster.min_guaranteed_bw);
    let job = state.jobs[id as int].computed(time, slowdown);
    let mid = state.with_job(id, job);
    assert(state.jobs[id as int].is_consistent());
    lemma_job_live(state, id, job, method);
    lemma_shared_out_live(mid, id, method);
    lemma_event_live(
        mid.shared_out(),
        id,
        time.sum(job.iteration_networking_time.product(slowdown)),
        EventType::IterCommEnd,
        method,
    );
}

/// The end of a communication phase keeps the state live, after the last iteration and
/// after any other.
pub(crate) proof fn lemma_communicated_live<N: Scalar>(
    state: System<N>,
    id: i32,
    time: N,
    method: PlacementMethod,
)
    requires
        state.is_live_but(id, method),
        state.jobs[id as int].training_time is Some,
        state.jobs[id as int].current_iteration < i64::MAX,
    ensures
        state.exhausted(id, time).is_live(method),
        !state.jobs[id as int].communicated(time).is_through() ==> state.iterated(
            id,
            time,
        ).is_live(method),
{
    let old = state.jobs[id as int];
    let communicated = old.communicated(time);
    assert(old.is_consistent());
    let through = JobModel { current_phase: Phase::Completed, ..communicated };
    lemma_job_live(state, id, through, method);
    lemma_event_live(state.with_job(id, through), id, time, EventType::Complete, method);
    if !communicated.is_through() {
        let start = old.compute_start(state.cluster.overlapping_ratio, time);
        let job = JobModel {
            current_phase: Phase::Compute,
            phase_start_time: Some(start),
            is_in_comm_phase: false,
            ..communicated
        };
        let mid = state.with_job(id, job);
        lemma_job_live(state, id, job, method);
        lemma_shared_out_live(mid, id, method);
        lemma_event_live(
            mid.shared_out(),
            id,
            start.sum(old.iteration_computing_time),
            EventType::IterCompEnd,
            method,
        );
    }
}

/// The end of a job keeps the state live but for it.
pub(crate) proof fn lemma_ended_live<N: Scalar>(
    state: System<N>,
    id: i32,
    time: N,
    method: PlacementMethod,
)
    requires
        state.is_live_but(id, method),
    ensures
        state.ended(id, time).is_live_but(id, method),
{
    let job = state.ended(id, time).jobs[id as int];
    assert(state.jobs[id as int].is_consistent());
    lemma_job_live(state, id, job, method);
}

/// The release of a job keeps the state live.
proof fn lemma_releases_live<N: Scalar>(
    state: System<N>,
    after: System<N>,
    id: i32,
    time: N,
    method: PlacementMethod,
)
    requires
        state.is_live_but(id, method),
        state.releases_to(after, id, time),
    ensures
        after.is_live(method),
        after.jobs.len() == state.jobs.len(),
{
    let freed = state.freed(id);
    let renewed = choose|renewed: System<N>| #[trigger]
        freed.renews_to(renewed, time) && after == (System {
            cluster: renewed.cluster.logged(time),
            ..renewed
        });
    lemma_freed_live(state, id, method);
    renewal_keeps_places(freed, renewed, time);
    lemma_keeps_live(freed, renewed, method);
    lemma_logged_live(renewed, time, method);
}

/// Logging the utilization keeps the state live.
proof fn lemma_logged_live<N: Scalar>(state: System<N>, time: N, method: PlacementMethod)
    requires
        state.is_live(method),
    ensures
        (System { cluster: state.cluster.logged(time), ..state }).is_live(method),
{
    let after = System { cluster: state.cluster.logged(time), ..state };
    assert forall|job: int| #[trigger] after.cluster.active(job) implies state.cluster.active(
        job,
    ) by {
        lemma_same_active(state.cluster, after.cluster, job);
    }
    assert forall|other: i32| #[trigger] after.timer.events.contains_key(other) implies
        after.event_fits(other) by {
        assert(state.event_fits(other));
    }
    assert(after.lists_fit()) by {
        assert(after.cluster.active_jobs == state.cluster.active_jobs);
        assert(state.lists_fit());
    }
    assert(after.cluster.knows_jobs(after.jobs.len())) by {
        assert(after.cluster.active_jobs == state.cluster.active_jobs);
        assert(state.cluster.knows_jobs(state.jobs.len()));
    }
    assert forall|k: int| 0 <= k < after.timer.arrivals.len() implies {
        &&& 0 <= #[trigger] after.timer.arrivals[k] < after.jobs.len()
        &&& !after.timer.events.contains_key(after.timer.arrivals[k])
        &&& !after.cluster.active(after.timer.arrivals[k] as int)
    } by {
        assert(!state.timer.events.contains_key(state.timer.arrivals[k]));
    }
}

/// A step that handles an event leaves the simulation in a state in which the next step
/// can be taken.
pub proof fn steps_keep_the_simulation_live<N: Scalar>(run: Run<N>, after: Run<N>)
    requires
        run.is_live(),
        run.steps_to(after, Step::Handled),
    ensures
        after.is_live(),
        after.scheduler.placement_method == run.scheduler.placement_method,
        after.system.jobs.len() == run.system.jobs.len(),
{
    reveal(Run::steps_to);
    let event = choose|event: Option<(N, EventType, i32)>|
        {
            &&& #[trigger] run.system.timer.is_answer(any_type(), event)
            &&& match event {
                Some((time, event_type, id)) => run.popped(id).handles_to(
                    after,
                    time,
                    event_type,
                    id,
                    Step::Handled,
                ),
                None => false,
            }
        };
    let (time, event_type, id) = event->0;
    let method = run.scheduler.placement_method;
    let popped = run.popped(id);
    lemma_popped_live(run.system, id, method);
    match event_type {
        EventType::Arrive => {
            let waiting = popped.noticed(id, time);
            lemma_noticed_live(popped, id, time);
            match waiting.system.cluster.plan(waiting.system.jobs[id as int], method) {
                Some((allocated, ps_allocated)) => {
                    lemma_admitted_live(waiting, id, allocated, ps_allocated, time);
                },
                None => {
                    let chances = choose|chances: crate::gpu_scheduler::Chances<N>|
                        {
                            &&& #[trigger] chances.of(
                                waiting.system.timer,
                                waiting.system.cluster.interference_model.iterates(),
                            )
                            &&& match chances.first(
                                waiting.system.cluster.interference_model.iterates(),
                            ) {
                                Some(next_try) => after == waiting.postponed(id, next_try),
                                None => false,
                            }
                        };
                    let next_try = chances.first(
                        waiting.system.cluster.interference_model.iterates(),
                    )->0;
                    lemma_postponed_live(waiting, id, next_try);
                },
            }
        },
        EventType::Start => {
            lemma_starts_live(popped.system, after.system, id, time, method);
        },
        EventType::IterCompEnd => {
            let computed = popped.system.computed(id, time);
            lemma_computed_live(popped.system, id, time, method);
            renewal_keeps_places(computed, after.system, time);
            lemma_keeps_live(computed, after.system, method);
        },
        EventType::IterCommEnd => {
            lemma_communicated_live(popped.system, id, time, method);
            if !popped.system.jobs[id as int].communicated(time).is_through() {
                let iterated = popped.system.iterated(id, time);
                renewal_keeps_places(iterated, after.system, time);
                lemma_keeps_live(iterated, after.system, method);
            }
        },
        EventType::Complete => {
            let ended = popped.system.ended(id, time);
            lemma_ended_live(popped.system, id, time, method);
            lemma_releases_live(ended, after.system, id, time, method);
        },
    }
}

} // verus!
