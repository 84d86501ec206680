//! What the servers have is either free or taken by an active job, at every step.

use vstd::prelude::*;

use crate::completion::renewal_keeps_places;
use crate::gpu_cluster::System;
use crate::gpu_job::JobModel;
use crate::gpu_scheduler::{any_type, Run, Step};
use crate::lists::{
    amounts, lemma_amounts_positive, lemma_amounts_removed, lemma_amounts_same,
    lemma_occurrences, occurrences,
};
use crate::liveness::{
    lemma_communicated_live, lemma_computed_live, lemma_ended_live, lemma_freed_live,
    lemma_noticed_live, lemma_popped_live, lemma_trained_live, steps_keep_the_simulation_live,
};
use crate::resources::{
    first_place, lemma_event_completes, lemma_shared_out_sound, lemma_without_absent,
    lemma_without_first,
};
use crate::scalar::Scalar;
use crate::timer::EventType;

verus! {

impl<N: Scalar> JobModel<N> {
    /// The GPUs that the job takes of a server.
    pub open spec fn holds_gpus(self, server: int) -> int {
        self.gpus_taken(self.allocated, server)
    }

    /// The CPU cores that the job takes of a server.
    pub open spec fn holds_cpus(self, server: int) -> int {
        self.cpus_taken(self.allocated, self.ps_allocated, server)
    }

    /// Whether the job does not ask for less than nothing.
    pub open spec fn asks_properly(self) -> bool {
        self.gpu_per_worker >= 0 && self.cpu_per_gpu_worker >= 0 && self.cpu_per_ps >= 0
    }

    /// Whether two states of a job take the same of every server.
    pub open spec fn same_use(self, other: JobModel<N>) -> bool {
        &&& self.gpu_per_worker == other.gpu_per_worker
        &&& self.cpu_per_gpu_worker == other.cpu_per_gpu_worker
        &&& self.cpu_per_ps == other.cpu_per_ps
        &&& self.allocated == other.allocated
        &&& self.ps_allocated == other.ps_allocated
    }
}

impl<N: Scalar> System<N> {
    /// The GPUs of a server that are taken.
    pub open spec fn gpus_held(self, server: int) -> int {
        amounts(
            self.cluster.active_jobs[server],
            |job: i32| self.jobs[job as int].holds_gpus(server),
        )
    }

    /// The CPU cores of a server that are taken.
    pub open spec fn cpus_held(self, server: int) -> int {
        amounts(
            self.cluster.active_jobs[server],
            |job: i32| self.jobs[job as int].holds_cpus(server),
        )
    }

    /// Whether everything that the servers have is either free or taken.
    pub open spec fn is_conserved(self) -> bool {
        forall|server: int|
            0 <= server < self.cluster.servers ==> {
                &&& #[trigger] self.cluster.gpus[server] + self.gpus_held(server)
                    == self.cluster.gpus_per_server
                &&& self.cluster.cpu_cores[server] + self.cpus_held(server)
                    == self.cluster.cpu_cores_per_server
            }
    }

    /// Whether no job asks for less than nothing.
    pub open spec fn asks_properly(self) -> bool {
        forall|job: int| 0 <= job < self.jobs.len() ==> (#[trigger] self.jobs[job]).asks_properly()
    }

    /// Whether two states have the same free and the same taken resources.
    pub open spec fn same_resources(self, after: System<N>) -> bool {
        &&& after.cluster.servers == self.cluster.servers
        &&& after.cluster.gpus == self.cluster.gpus
        &&& after.cluster.cpu_cores == self.cluster.cpu_cores
        &&& after.cluster.gpus_per_server == self.cluster.gpus_per_server
        &&& after.cluster.cpu_cores_per_server == self.cluster.cpu_cores_per_server
        &&& after.cluster.active_jobs == self.cluster.active_jobs
        &&& after.jobs.len() == self.jobs.len()
        &&& forall|job: int|
            0 <= job < self.jobs.len() ==> self.jobs[job].same_use(#[trigger] after.jobs[job])
    }
}

/// What two states with the same resources have is conserved in both.
pub(crate) proof fn lemma_same_resources<N: Scalar>(state: System<N>, after: System<N>)
    requires
        state.cluster.knows_jobs(state.jobs.len()),
        state.cluster.is_sized(),
        state.is_conserved(),
        state.asks_properly(),
        state.same_resources(after),
    ensures
        after.is_conserved(),
        after.asks_properly(),
{
    assert forall|server: int| 0 <= server < after.cluster.servers implies {
        &&& #[trigger] after.cluster.gpus[server] + after.gpus_held(server)
            == after.cluster.gpus_per_server
        &&& after.cluster.cpu_cores[server] + after.cpus_held(server)
            == after.cluster.cpu_cores_per_server
    } by {
        let ids = state.cluster.active_jobs[server];
        assert(state.cluster.gpus[server] + state.gpus_held(server)
            == state.cluster.gpus_per_server);
        assert forall|i: int| 0 <= i < ids.len() implies {
            let old = state.jobs[#[trigger] ids[i] as int];
            let new = after.jobs[ids[i] as int];
            &&& old.holds_gpus(server) == new.holds_gpus(server)
            &&& old.holds_cpus(server) == new.holds_cpus(server)
        } by {
            assert(0 <= state.cluster.active_jobs[server][i] < state.jobs.len());
            assert(state.jobs[ids[i] as int].same_use(after.jobs[ids[i] as int]));
        }
        lemma_amounts_same(
            ids,
            |job: i32| state.jobs[job as int].holds_gpus(server),
            |job: i32| after.jobs[job as int].holds_gpus(server),
        );
        lemma_amounts_same(
            ids,
            |job: i32| state.jobs[job as int].holds_cpus(server),
            |job: i32| after.jobs[job as int].holds_cpus(server),
        );
    }
    assert forall|job: int| 0 <= job < after.jobs.len() implies (
    #[trigger] after.jobs[job]).asks_properly() by {
        assert(state.jobs[job].asks_properly());
        assert(state.jobs[job].same_use(after.jobs[job]));
    }
}

/// A job that does not use a server takes nothing of it, and one that asks properly never
/// less than nothing.
proof fn lemma_holds<N: Scalar>(job: JobModel<N>, server: int)
    requires
        job.asks_properly(),
    ensures
        job.holds_gpus(server) >= 0,
        job.holds_cpus(server) >= 0,
        !job.uses(server) ==> job.holds_gpus(server) == 0 && job.holds_cpus(server) == 0,
{
    let workers = occurrences(job.allocated, server as i32) as int;
    let ps = occurrences(job.ps_allocated, server as i32) as int;
    lemma_occurrences(job.allocated, server as i32);
    lemma_occurrences(job.ps_allocated, server as i32);
    assert(workers * job.gpu_per_worker >= 0 && workers * job.cpu_per_gpu_worker >= 0 && ps
        * job.cpu_per_ps >= 0) by (nonlinear_arith)
        requires
            workers >= 0,
            ps >= 0,
            job.gpu_per_worker >= 0,
            job.cpu_per_gpu_worker >= 0,
            job.cpu_per_ps >= 0,
    ;
    if !job.uses(server) {
        assert(workers == 0 && ps == 0);
        assert(0 * job.gpu_per_worker == 0 && 0 * job.cpu_per_gpu_worker == 0 && 0
            * job.cpu_per_ps == 0);
    }
}

/// Placing a job that is not active takes from the free resources just what the job then
/// holds.
pub proof fn placing_conserves_resources<N: Scalar>(
    state: System<N>,
    id: i32,
    allocated: Seq<i32>,
    ps_allocated: Seq<i32>,
    time: N,
)
    requires
        state.cluster.is_sized(),
        state.cluster.knows_jobs(state.jobs.len()),
        state.is_conserved(),
        state.asks_properly(),
        0 <= id < state.jobs.len(),
        !state.cluster.active(id as int),
        state.cluster.can_take(state.jobs[id as int], allocated, ps_allocated),
    ensures
        state.placed(id, allocated, ps_allocated, time).is_conserved(),
        state.placed(id, allocated, ps_allocated, time).asks_properly(),
{
    let after = state.placed(id, allocated, ps_allocated, time);
    let old = state.jobs[id as int];
    let new = after.jobs[id as int];
    assert(old.asks_properly());
    assert forall|server: int| 0 <= server < after.cluster.servers implies {
        &&& #[trigger] after.cluster.gpus[server] + after.gpus_held(server)
            == after.cluster.gpus_per_server
        &&& after.cluster.cpu_cores[server] + after.cpus_held(server)
            == after.cluster.cpu_cores_per_server
    } by {
        let ids = state.cluster.active_jobs[server];
        let now = after.cluster.active_jobs[server];
        let gpus = |job: i32| after.jobs[job as int].holds_gpus(server);
        let cpus = |job: i32| after.jobs[job as int].holds_cpus(server);
        assert(state.cluster.gpus[server] + state.gpus_held(server)
            == state.cluster.gpus_per_server);
        assert(crate::resources::fits(
            state.cluster.gpus[server] - old.gpus_taken(allocated, server),
        ));
        assert forall|i: int| 0 <= i < ids.len() implies state.jobs[#[trigger] ids[i] as int]
            == after.jobs[ids[i] as int] by {
            assert(0 <= state.cluster.active_jobs[server][i] < state.jobs.len());
            if ids[i] == id {
                assert(state.cluster.active_jobs[server].contains(id));
                assert(state.cluster.runs(server, id as int));
            }
        }
        lemma_amounts_same(ids, |job: i32| state.jobs[job as int].holds_gpus(server), gpus);
        lemma_amounts_same(ids, |job: i32| state.jobs[job as int].holds_cpus(server), cpus);
        lemma_holds(new, server);
        if new.uses(server) {
            assert(now.drop_last() =~= ids);
        }
    }
    assert forall|job: int| 0 <= job < after.jobs.len() implies (
    #[trigger] after.jobs[job]).asks_properly() by {
        assert(state.jobs[job].asks_properly());
    }
}

/// Releasing a job returns to the free resources just what the job held, and no server
/// comes to have more than its own.
pub proof fn releasing_conserves_resources<N: Scalar>(state: System<N>, id: i32)
    requires
        state.cluster.is_sized(),
        state.cluster.knows_jobs(state.jobs.len()),
        state.is_conserved(),
        state.asks_properly(),
        0 <= id < state.jobs.len(),
        state.cluster.can_free(state.jobs[id as int], id),
    ensures
        state.freed(id).is_conserved(),
        state.freed(id).asks_properly(),
{
    let job = state.jobs[id as int];
    let after = state.freed(id);
    assert forall|server: int| 0 <= server < after.cluster.servers implies {
        &&& #[trigger] after.cluster.gpus[server] + after.gpus_held(server)
            == after.cluster.gpus_per_server
        &&& after.cluster.cpu_cores[server] + after.cpus_held(server)
            == after.cluster.cpu_cores_per_server
    } by {
        let ids = state.cluster.active_jobs[server];
        let now = after.cluster.active_jobs[server];
        let gpus = |other: i32| state.jobs[other as int].holds_gpus(server);
        let cpus = |other: i32| state.jobs[other as int].holds_cpus(server);
        assert(state.cluster.gpus[server] + state.gpus_held(server)
            == state.cluster.gpus_per_server);
        assert forall|i: int| 0 <= i < ids.len() implies {
            &&& gpus(#[trigger] ids[i]) >= 0
            &&& cpus(ids[i]) >= 0
            &&& gpus(ids[i]) == after.jobs[ids[i] as int].holds_gpus(server)
            &&& cpus(ids[i]) == after.jobs[ids[i] as int].holds_cpus(server)
        } by {
            assert(0 <= state.cluster.active_jobs[server][i] < state.jobs.len());
            assert(state.jobs[ids[i] as int].asks_properly());
            lemma_holds(state.jobs[ids[i] as int], server);
        }
        if job.uses(server) && ids.contains(id) {
            let i = first_place(ids, id);
            lemma_without_first(ids, id, i);
            lemma_amounts_removed(ids, gpus, i);
            lemma_amounts_removed(ids, cpus, i);
            assert(now == ids.remove(i));
            assert forall|k: int| 0 <= k < now.len() implies {
                &&& gpus(#[trigger] now[k]) >= 0
                &&& cpus(now[k]) >= 0
                &&& gpus(now[k]) == after.jobs[now[k] as int].holds_gpus(server)
                &&& cpus(now[k]) == after.jobs[now[k] as int].holds_cpus(server)
            } by {
                let m = if k < i {
                    k
                } else {
                    k + 1
                };
                assert(now[k] == ids[m]);
            }
            lemma_amounts_positive(now, gpus);
            lemma_amounts_positive(now, cpus);
        } else {
            if job.uses(server) {
                lemma_without_absent(ids, id);
            }
            assert(now == ids);
            lemma_amounts_positive(ids, gpus);
            lemma_amounts_positive(ids, cpus);
        }
        lemma_amounts_same(now, gpus, |other: i32| after.jobs[other as int].holds_gpus(server));
        lemma_amounts_same(now, cpus, |other: i32| after.jobs[other as int].holds_cpus(server));
    }
    assert forall|other: int| 0 <= other < after.jobs.len() implies (
    #[trigger] after.jobs[other]).asks_properly() by {
        assert(state.jobs[other].asks_properly());
    }
}

proof fn lemma_keeps_resources<N: Scalar>(state: System<N>, after: System<N>)
    requires
        state.keeps_places(after),
    ensures
        state.same_resources(after),
{
    assert forall|job: int| 0 <= job < state.jobs.len() implies state.jobs[job].same_use(
        #[trigger] after.jobs[job],
    ) by {
        assert(state.jobs[job].same_place(after.jobs[job]));
    }
}

proof fn lemma_same_transitive<N: Scalar>(a: System<N>, b: System<N>, c: System<N>)
    requires
        a.same_resources(b),
        b.same_resources(c),
    ensures
        a.same_resources(c),
{
    assert forall|job: int| 0 <= job < a.jobs.len() implies a.jobs[job].same_use(
        #[trigger] c.jobs[job],
    ) by {
        assert(a.jobs[job].same_use(b.jobs[job]));
        assert(b.jobs[job].same_use(c.jobs[job]));
    }
}

/// A step whose outcome is that an arrival was handled conserves resources.
proof fn lemma_arrival_conserves<N: Scalar>(run: Run<N>, after: Run<N>, id: i32, time: N)
    requires
        run.system.is_live_but(id, run.scheduler.placement_method),
        !run.system.cluster.active(id as int),
        run.arrives_to(after, id, time, Step::Handled),
        run.system.is_conserved(),
        run.system.asks_properly(),
    ensures
        after.system.is_conserved(),
        after.system.asks_properly(),
{
    let method = run.scheduler.placement_method;
    let waiting = run.noticed(id, time);
    let cluster = waiting.system.cluster;
    lemma_noticed_live(run, id, time);
    assert(run.system.same_resources(waiting.system));
    lemma_same_resources(run.system, waiting.system);
    match cluster.plan(waiting.system.jobs[id as int], method) {
        Some((allocated, ps_allocated)) => {
            let placed = waiting.system.placed(id, allocated, ps_allocated, time);
            placing_conserves_resources(waiting.system, id, allocated, ps_allocated, time);
            crate::liveness::lemma_admitted_live(waiting, id, allocated, ps_allocated, time);
            assert(placed.same_resources(after.system));
            lemma_same_resources(placed, after.system);
        },
        None => {
            assert(waiting.system.same_resources(after.system));
            lemma_same_resources(waiting.system, after.system);
        },
    }
}

/// At every step, everything that the servers have is either free or held by an active
/// job.
pub proof fn steps_conserve_resources<N: Scalar>(run: Run<N>, after: Run<N>)
    requires
        run.is_live(),
        run.steps_to(after, Step::Handled),
        run.system.is_conserved(),
        run.system.asks_properly(),
    ensures
        after.system.is_conserved(),
        after.system.asks_properly(),
{
    reveal(Run::steps_to);
    let event = choose|event: Option<(N, EventType, i32)>|
        {
            &&& #[trigger] run.system.timer.is_answer(any_type(), event)
            &&& match event {
                Some((time, event_type, id)) => run.popped(id).handles_to(
                    after,
                    time,
                    event_type,
                    id,
                    Step::Handled,
                ),
                None => false,
            }
        };
    let (time, event_type, id) = event->0;
    let method = run.scheduler.placement_method;
    let popped = run.popped(id);
    let state = popped.system;
    lemma_popped_live(run.system, id, method);
    assert(run.system.same_resources(state));
    lemma_same_resources(run.system, state);
    match event_type {
        EventType::Arrive => {
            lemma_arrival_conserves(popped, after, id, time);
        },
        EventType::Start => {
            lemma_start_conserves(state, after.system, id, time, method);
        },
        EventType::IterCompEnd => {
            let computed = state.computed(id, time);
            lemma_computed_live(state, id, time, method);
            renewal_keeps_places(computed, after.system, time);
            lemma_keeps_resources(computed, after.system);
            assert(state.same_resources(computed));
            lemma_same_transitive(state, computed, after.system);
            lemma_same_resources(state, after.system);
        },
        EventType::IterCommEnd => {
            lemma_communicated_live(state, id, time, method);
            if state.jobs[id as int].communicated(time).is_through() {
                assert(state.same_resources(after.system));
            } else {
                let iterated = state.iterated(id, time);
                renewal_keeps_places(iterated, after.system, time);
                lemma_keeps_resources(iterated, after.system);
                assert(state.same_resources(iterated));
                lemma_same_transitive(state, iterated, after.system);
            }
            lemma_same_resources(state, after.system);
        },
        EventType::Complete => {
            lemma_completion_conserves(popped, after, id, time);
        },
    }
}

proof fn lemma_start_conserves<N: Scalar>(
    state: System<N>,
    after: System<N>,
    id: i32,
    time: N,
    method: crate::placement::PlacementMethod,
)
    requires
        state.is_live_but(id, method),
        state.starts_to(after, id, time),
        state.is_conserved(),
        state.asks_properly(),
    ensures
        after.is_conserved(),
        after.asks_properly(),
{
    if !state.cluster.interference_model.iterates() {
        let trained = state.trained(id, time);
        let entered = state.entered(id, time);
        lemma_trained_live(state, id, time, method);
        lemma_shared_out_sound(trained, id as int);
        lemma_event_completes(
            trained.shared_out(),
            id,
            entered.timer.events[id].0,
            EventType::Complete,
        );
        assert(entered == System {
            timer: trained.timer.with_event(
                entered.timer.events[id].0,
                EventType::Complete,
                id,
            ),
            ..trained.shared_out()
        });
        renewal_keeps_places(entered, after, time);
        lemma_keeps_resources(entered, after);
        assert(state.same_resources(entered));
        lemma_same_transitive(state, entered, after);
    }
    assert(state.same_resources(after));
    lemma_same_resources(state, after);
}

proof fn lemma_completion_conserves<N: Scalar>(run: Run<N>, after: Run<N>, id: i32, time: N)
    requires
        run.system.is_live_but(id, run.scheduler.placement_method),
        run.completes_to(after, id, time, Step::Handled),
        run.system.is_conserved(),
        run.system.asks_properly(),
    ensures
        after.system.is_conserved(),
        after.system.asks_properly(),
{
    let method = run.scheduler.placement_method;
    let state = run.system;
    let ended = state.ended(id, time);
    let freed = ended.freed(id);
    lemma_ended_live(state, id, time, method);
    assert(state.same_resources(ended));
    lemma_same_resources(state, ended);
    assert(ended.cluster.can_free(ended.jobs[id as int], id)) by {
        let job = ended.jobs[id as int];
        assert forall|server: int|
            0 <= server < ended.cluster.servers && #[trigger] job.uses(server) implies
            crate::resources::fits(ended.cluster.gpus_after(job, id, server))
            && crate::resources::fits(ended.cluster.cpus_after(job, id, server)) by {
            assert(state.jobs[id as int].uses(server));
        }
    }
    releasing_conserves_resources(ended, id);
    lemma_freed_live(ended, id, method);
    let renewed = choose|renewed: System<N>| #[trigger]
        freed.renews_to(renewed, time) && after.system == (System {
            cluster: renewed.cluster.logged(time),
            ..renewed
        });
    renewal_keeps_places(freed, renewed, time);
    lemma_keeps_resources(freed, renewed);
    assert(renewed.same_resources(after.system));
    lemma_same_transitive(freed, renewed, after.system);
    lemma_same_resources(freed, after.system);
}

/// Whatever a simulation reaches is live, and has its resources conserved.
pub proof fn simulations_stay_live_and_conserve_resources<N: Scalar>(
    begun: Run<N>,
    after: Run<N>,
    steps: nat,
)
    requires
        begun.is_live(),
        begun.system.is_conserved(),
        begun.system.asks_properly(),
        begun.reaches(after, steps),
    ensures
        after.is_live(),
        after.system.is_conserved(),
        after.system.asks_properly(),
    decreases steps,
{
    if steps > 0 {
        let before = choose|before: Run<N>|
            begun.reaches(before, (steps - 1) as nat) && #[trigger] before.steps_to(
                after,
                Step::Handled,
            );
        simulations_stay_live_and_conserve_resources(begun, before, (steps - 1) as nat);
        steps_keep_the_simulation_live(before, after);
        steps_conserve_resources(before, after);
    }
}

/// What a job that was placed takes is returned when it is released, if nothing was taken
/// or returned since.
proof fn lemma_freed_restores<N: Scalar>(
    state: System<N>,
    later: System<N>,
    id: i32,
    allocated: Seq<i32>,
    ps_allocated: Seq<i32>,
    time: N,
)
    requires
        state.cluster.is_sized(),
        0 <= id < state.jobs.len(),
        !state.cluster.active(id as int),
        state.cluster.can_take(state.jobs[id as int], allocated, ps_allocated),
        forall|server: int|
            0 <= server < state.cluster.servers ==> #[trigger] state.cluster.gpus[server]
                <= state.cluster.gpus_per_server && state.cluster.cpu_cores[server]
                <= state.cluster.cpu_cores_per_server,
        state.placed(id, allocated, ps_allocated, time).same_resources(later),
    ensures
        ({
            let after = later.freed(id).cluster;
            &&& after.gpus == state.cluster.gpus
            &&& after.cpu_cores == state.cluster.cpu_cores
            &&& after.active_jobs == state.cluster.active_jobs
        }),
{
    let placed = state.placed(id, allocated, ps_allocated, time);
    let after = later.freed(id).cluster;
    let job = later.jobs[id as int];
    assert(placed.jobs[id as int].same_use(job));
    assert forall|server: int|
        #![trigger after.gpus[server]]
        #![trigger after.cpu_cores[server]]
        #![trigger after.active_jobs[server]]
        0 <= server < state.cluster.servers implies {
        &&& after.gpus[server] == state.cluster.gpus[server]
        &&& after.cpu_cores[server] == state.cluster.cpu_cores[server]
        &&& after.active_jobs[server] == state.cluster.active_jobs[server]
    } by {
        let ids = state.cluster.active_jobs[server];
        assert(state.cluster.gpus[server] <= state.cluster.gpus_per_server);
        assert(crate::resources::fits(
            state.cluster.gpus[server] - state.jobs[id as int].gpus_taken(allocated, server),
        ));
        assert(!ids.contains(id)) by {
            if ids.contains(id) {
                assert(state.cluster.runs(server, id as int));
            }
        }
        if job.uses(server) {
            let longer = ids.push(id);
            assert(placed.cluster.active_jobs[server] == longer);
            assert(longer[ids.len() as int] == id);
            assert(longer.contains(id));
            assert forall|k: int| 0 <= k < ids.len() implies longer[k] != id by {
                if longer[k] == id {
                    assert(ids[k] == id);
                }
            }
            lemma_without_first(longer, id, ids.len() as int);
            assert(longer.remove(ids.len() as int) =~= ids);
        } else {
            lemma_occurrences(allocated, server as i32);
            lemma_occurrences(ps_allocated, server as i32);
            assert(0 * job.gpu_per_worker == 0 && 0 * job.cpu_per_gpu_worker == 0 && 0
                * job.cpu_per_ps == 0);
        }
    }
    assert(after.gpus =~= state.cluster.gpus);
    assert(after.cpu_cores =~= state.cluster.cpu_cores);
    assert(after.active_jobs =~= state.cluster.active_jobs);
}

/// Releasing a job undoes placing it: where no job was placed or released in between, every
/// server has again the free resources and the active jobs that it had, none has more than
/// its own, and the job uses no bandwidth.
pub proof fn releasing_undoes_placing<N: Scalar>(
    state: System<N>,
    later: System<N>,
    after: System<N>,
    id: i32,
    allocated: Seq<i32>,
    ps_allocated: Seq<i32>,
    placed_at: N,
    released_at: N,
)
    requires
        state.cluster.is_sized(),
        0 <= id < state.jobs.len(),
        !state.cluster.active(id as int),
        state.cluster.can_take(state.jobs[id as int], allocated, ps_allocated),
        forall|server: int|
            0 <= server < state.cluster.servers ==> #[trigger] state.cluster.gpus[server]
                <= state.cluster.gpus_per_server && state.cluster.cpu_cores[server]
                <= state.cluster.cpu_cores_per_server,
        state.placed(id, allocated, ps_allocated, placed_at).same_resources(later),
        later.freed(id).is_sound(),
        later.releases_to(after, id, released_at),
    ensures
        after.cluster.gpus == state.cluster.gpus,
        after.cluster.cpu_cores == state.cluster.cpu_cores,
        after.cluster.active_jobs == state.cluster.active_jobs,
        forall|server: int|
            0 <= server < state.cluster.servers ==> #[trigger] after.cluster.gpus[server]
                <= after.cluster.gpus_per_server && after.cluster.cpu_cores[server]
                <= after.cluster.cpu_cores_per_server,
        after.jobs[id as int].using_bandwidths == Map::<i32, N>::empty(),
{
    let freed = later.freed(id);
    lemma_freed_restores(state, later, id, allocated, ps_allocated, placed_at);
    let renewed = choose|renewed: System<N>| #[trigger]
        freed.renews_to(renewed, released_at) && after == (System {
            cluster: renewed.cluster.logged(released_at),
            ..renewed
        });
    renewal_keeps_places(freed, renewed, released_at);
    assert(freed.jobs[id as int].same_place(renewed.jobs[id as int]));
    assert(freed.jobs[id as int].using_bandwidths =~= Map::<i32, N>::empty()) by {
        let cluster = later.cluster.freed(later.jobs[id as int], id);
        assert forall|server: int| !cluster.runs(server, id as int) by {
            if cluster.runs(server, id as int) {
                assert(state.cluster.runs(server, id as int));
            }
        }
    }
    assert forall|server: int| 0 <= server < state.cluster.servers implies
        #[trigger] after.cluster.gpus[server] <= after.cluster.gpus_per_server
        && after.cluster.cpu_cores[server] <= after.cluster.cpu_cores_per_server by {
        assert(state.cluster.gpus[server] <= state.cluster.gpus_per_server);
    }
}

/// Placing a job takes of each server as many GPUs as its workers there have, and as many cores as its
/// workers and parameter servers there have; and the job is active from then on where it has any
/// of them, beside those that were.
pub proof fn placing_takes_what_workers_have<N: Scalar>(
    state: System<N>,
    id: i32,
    allocated: Seq<i32>,
    ps_allocated: Seq<i32>,
    time: N,
    server: int,
)
    requires
        state.cluster.is_sized(),
        0 <= id < state.jobs.len(),
        0 <= server < state.cluster.servers,
        state.cluster.can_take(state.jobs[id as int], allocated, ps_allocated),
    ensures
        ({
            let job = state.jobs[id as int];
            let after = state.placed(id, allocated, ps_allocated, time).cluster;
            let workers = occurrences(allocated, server as i32);
            let ps = occurrences(ps_allocated, server as i32);
            &&& after.gpus[server] == state.cluster.gpus[server] - workers * job.gpu_per_worker
            &&& after.cpu_cores[server] == state.cluster.cpu_cores[server] - workers
                * job.cpu_per_gpu_worker - ps * job.cpu_per_ps
            &&& workers > 0 || ps > 0 ==> after.active_jobs[server]
                == state.cluster.active_jobs[server].push(id)
            &&& workers == 0 && ps == 0 ==> after.active_jobs[server]
                == state.cluster.active_jobs[server]
        }),
{
    lemma_occurrences(allocated, server as i32);
    lemma_occurrences(ps_allocated, server as i32);
    assert(crate::resources::fits(
        state.cluster.gpus[server] - state.jobs[id as int].gpus_taken(allocated, server),
    ));
}

/// Releasing a job returns to each server where it is active as many GPUs as its workers there have, and
/// as many cores as its workers and parameter servers there have, up to what the server has; and
/// the job is no longer active there, while the others are.
pub proof fn releasing_returns_what_workers_have<N: Scalar>(state: System<N>, id: i32, server: int)
    requires
        state.cluster.is_sized(),
        0 <= id < state.jobs.len(),
        0 <= server < state.cluster.servers,
        state.cluster.can_free(state.jobs[id as int], id),
        state.cluster.active_jobs[server].contains(id),
        state.cluster.active_jobs[server].no_duplicates(),
        state.jobs[id as int].uses(server),
    ensures
        ({
            let job = state.jobs[id as int];
            let after = state.freed(id).cluster;
            let workers = occurrences(job.allocated, server as i32);
            let ps = occurrences(job.ps_allocated, server as i32);
            let gpus = state.cluster.gpus[server] + workers * job.gpu_per_worker;
            let cores = state.cluster.cpu_cores[server] + workers * job.cpu_per_gpu_worker + ps
                * job.cpu_per_ps;
            &&& gpus <= state.cluster.gpus_per_server ==> after.gpus[server] == gpus
            &&& gpus > state.cluster.gpus_per_server ==> after.gpus[server]
                == state.cluster.gpus_per_server
            &&& cores <= state.cluster.cpu_cores_per_server ==> after.cpu_cores[server] == cores
            &&& cores > state.cluster.cpu_cores_per_server ==> after.cpu_cores[server]
                == state.cluster.cpu_cores_per_server
            &&& !after.active_jobs[server].contains(id)
            &&& forall|other: i32|
                other != id ==> (#[trigger] after.active_jobs[server].contains(other)
                    <==> state.cluster.active_jobs[server].contains(other))
        }),
{
    let ids = state.cluster.active_jobs[server];
    let i = first_place(ids, id);
    lemma_without_first(ids, id, i);
    let after = state.freed(id).cluster.active_jobs[server];
    assert(after == ids.remove(i));
    assert forall|other: i32| other != id implies (#[trigger] after.contains(other)
        <==> ids.contains(other)) by {
        if ids.contains(other) {
            let k = choose|k: int| 0 <= k < ids.len() && ids[k] == other;
            if k < i {
                assert(after[k] == other);
            } else {
                assert(after[k - 1] == other);
            }
        }
        if after.contains(other) {
            let k = choose|k: int| 0 <= k < after.len() && after[k] == other;
            if k < i {
                assert(ids[k] == other);
            } else {
                assert(ids[k + 1] == other);
            }
        }
    }
    if after.contains(id) {
        let k = choose|k: int| 0 <= k < after.len() && after[k] == id;
        if k < i {
            assert(ids[k] == id);
        } else {
            assert(ids[k + 1] == id);
        }
    }
}

} // verus!
