//! Where the jobs are: every job is yet to arrive, has an event or is through, at every
//! step.

use vstd::prelude::*;

use crate::completion::renewal_keeps_places;
use crate::gpu_cluster::{ClusterModel, System};
use crate::gpu_job::JobModel;
use crate::gpu_scheduler::{any_type, arrival_order, Run, Step};
use crate::lists::numbers;
use crate::liveness::{
    lemma_admitted_live, lemma_communicated_live, lemma_computed_live, lemma_ended_live,
    lemma_freed_live, lemma_noticed_live, lemma_popped_live, lemma_trained_live,
    steps_keep_the_simulation_live,
};
use crate::placement::PlacementMethod;
use crate::ranking::ranked_is_sorted;
use crate::resources::{lemma_event_completes, lemma_shared_out_sound};
use crate::scalar::Scalar;
use crate::simulation::{empty_timer, simulations_start_live, start_flaw, started_run};
use crate::timer::EventType;

verus! {

impl<N: Scalar> Run<N> {
    /// Whether a job is yet to arrive.
    pub open spec fn awaits(self, id: i32) -> bool {
        self.system.timer.arrivals.contains(id)
    }

    /// Whether a job has an event.
    pub open spec fn expects(self, id: i32) -> bool {
        self.system.timer.events.contains_key(id)
    }

    /// Whether a job is through.
    pub open spec fn is_through(self, id: i32) -> bool {
        self.scheduler.metrics_jobs.contains(id)
    }

    /// Whether a job is in one of the three places, and in one only.
    pub open spec fn is_somewhere(self, id: i32) -> bool {
        ||| self.awaits(id) && !self.expects(id) && !self.is_through(id)
        ||| !self.awaits(id) && self.expects(id) && !self.is_through(id)
        ||| !self.awaits(id) && !self.expects(id) && self.is_through(id)
    }

    /// Whether every job is in one place, and no job is through twice.
    pub open spec fn is_accounted(self) -> bool {
        &&& forall|id: i32| 0 <= id < self.system.jobs.len() ==> #[trigger] self.is_somewhere(id)
        &&& self.scheduler.metrics_jobs.no_duplicates()
    }

    /// Whether one job has come to have an event since another state, and the other jobs
    /// are where they were.
    pub open spec fn has_gained(self, after: Run<N>, id: i32) -> bool {
        &&& after.system.jobs.len() == self.system.jobs.len()
        &&& after.system.timer.arrivals == self.system.timer.arrivals
        &&& after.system.timer.events.dom() == self.system.timer.events.dom().insert(id)
        &&& after.scheduler.metrics_jobs == self.scheduler.metrics_jobs
    }
}

/// A job whose event is taken out and that has an event afterwards is where it was.
proof fn lemma_gained<N: Scalar>(run: Run<N>, after: Run<N>, id: i32)
    requires
        run.is_accounted(),
        run.expects(id),
        run.popped(id).has_gained(after, id),
    ensures
        after.is_accounted(),
{
    assert(after.system.timer.events.dom() =~= run.system.timer.events.dom());
    assert forall|other: i32| 0 <= other < after.system.jobs.len() implies
        #[trigger] after.is_somewhere(other) by {
        assert(run.is_somewhere(other));
        assert(run.system.timer.events.dom().contains(other)
            == after.system.timer.events.dom().contains(other));
    }
}

/// An arrival that is handled leaves every job in one place.
proof fn lemma_arrival_accounted<N: Scalar>(run: Run<N>, after: Run<N>, id: i32, time: N)
    requires
        run.is_live(),
        run.is_accounted(),
        run.expects(id),
        run.system.timer.events[id].1 == EventType::Arrive,
        run.popped(id).arrives_to(after, id, time, Step::Handled),
    ensures
        after.is_accounted(),
{
    let method = run.scheduler.placement_method;
    let popped = run.popped(id);
    let waiting = popped.noticed(id, time);
    lemma_popped_live(run.system, id, method);
    lemma_noticed_live(popped, id, time);
    match waiting.system.cluster.plan(waiting.system.jobs[id as int], method) {
        Some((allocated, ps_allocated)) => {
            let placed = waiting.system.placed(id, allocated, ps_allocated, time);
            lemma_admitted_live(waiting, id, allocated, ps_allocated, time);
            assert(placed.timer.arrivals == run.system.timer.arrivals);
            assert(placed.timer.events.dom() =~= run.system.timer.events.dom());
            if placed.timer.arrivals.len() > 0 {
                let arrivals = run.system.timer.arrivals;
                let next = arrivals[0];
                let rest = arrivals.drop_first();
                assert(after.system.timer.arrivals == rest);
                assert(after.system.timer.events.dom() =~= placed.timer.events.dom().insert(next));
                assert(arrivals.no_duplicates());
                assert forall|other: i32| 0 <= other < after.system.jobs.len() implies
                    #[trigger] after.is_somewhere(other) by {
                    assert(run.is_somewhere(other));
                    assert(placed.timer.events.dom().contains(other)
                        == run.system.timer.events.dom().contains(other));
                    assert(after.system.timer.events.dom().contains(other) == (other == next
                        || placed.timer.events.dom().contains(other)));
                    if other == next {
                        assert(arrivals.contains(next));
                        if rest.contains(next) {
                            let k = choose|k: int| 0 <= k < rest.len() && rest[k] == next;
                            assert(arrivals[k + 1] == arrivals[0]);
                        }
                    } else {
                        if arrivals.contains(other) {
                            let k = choose|k: int| 0 <= k < arrivals.len() && arrivals[k] == other;
                            assert(rest[k - 1] == other);
                        }
                        if rest.contains(other) {
                            let k = choose|k: int| 0 <= k < rest.len() && rest[k] == other;
                            assert(arrivals[k + 1] == other);
                        }
                    }
                }
            } else {
                assert(after.system == placed);
                assert(popped.has_gained(after, id)) by {
                    assert(placed.timer.events.dom() =~= popped.system.timer.events.dom().insert(
                        id,
                    ));
                }
                lemma_gained(run, after, id);
            }
        },
        None => {
            assert(after.system.timer.events.dom() =~= popped.system.timer.events.dom().insert(
                id,
            ));
            lemma_gained(run, after, id);
        },
    }
}

/// At every step, every job is yet to arrive, has an event or is through, and is
/// through once only.
pub proof fn steps_keep_every_job_accounted_for<N: Scalar>(run: Run<N>, after: Run<N>)
    requires
        run.is_live(),
        run.is_accounted(),
        run.steps_to(after, Step::Handled),
    ensures
        after.is_accounted(),
{
    reveal(Run::steps_to);
    let event = choose|event: Option<(N, EventType, i32)>|
        {
            &&& #[trigger] run.system.timer.is_answer(any_type(), event)
            &&& match event {
                Some((time, event_type, id)) => run.popped(id).handles_to(
                    after,
                    time,
                    event_type,
                    id,
                    Step::Handled,
                ),
                None => false,
            }
        };
    let (time, event_type, id) = event->0;
    let method = run.scheduler.placement_method;
    let popped = run.popped(id);
    let state = popped.system;
    lemma_popped_live(run.system, id, method);
    match event_type {
        EventType::Arrive => {
            lemma_arrival_accounted(run, after, id, time);
        },
        EventType::Start => {
            lemma_start_gains(state, after.system, id, time, method);
            lemma_gained(run, after, id);
        },
        EventType::IterCompEnd => {
            let computed = state.computed(id, time);
            lemma_computed_live(state, id, time, method);
            renewal_keeps_places(computed, after.system, time);
            assert(computed.timer.events.dom() =~= state.timer.events.dom().insert(id));
            lemma_gained(run, after, id);
        },
        EventType::IterCommEnd => {
            lemma_communicated_live(state, id, time, method);
            if state.jobs[id as int].communicated(time).is_through() {
                assert(after.system.timer.events.dom() =~= state.timer.events.dom().insert(id));
            } else {
                let iterated = state.iterated(id, time);
                renewal_keeps_places(iterated, after.system, time);
                assert(iterated.timer.events.dom() =~= state.timer.events.dom().insert(id));
            }
            lemma_gained(run, after, id);
        },
        EventType::Complete => {
            lemma_completion_accounted(run, after, id, time);
        },
    }
}

proof fn lemma_start_gains<N: Scalar>(
    state: System<N>,
    after: System<N>,
    id: i32,
    time: N,
    method: PlacementMethod,
)
    requires
        state.is_live_but(id, method),
        state.starts_to(after, id, time),
    ensures
        after.jobs.len() == state.jobs.len(),
        after.timer.arrivals == state.timer.arrivals,
        after.timer.events.dom() == state.timer.events.dom().insert(id),
{
    if state.cluster.interference_model.iterates() {
        assert(after.timer.events.dom() =~= state.timer.events.dom().insert(id));
    } else {
        let trained = state.trained(id, time);
        let entered = state.entered(id, time);
        lemma_trained_live(state, id, time, method);
        lemma_shared_out_sound(trained, id as int);
        lemma_event_completes(
            trained.shared_out(),
            id,
            entered.timer.events[id].0,
            EventType::Complete,
        );
        assert(entered == System {
            timer: trained.timer.with_event(
                entered.timer.events[id].0,
                EventType::Complete,
                id,
            ),
            ..trained.shared_out()
        });
        renewal_keeps_places(entered, after, time);
        assert(entered.timer.events.dom() =~= state.timer.events.dom().insert(id));
    }
}

proof fn lemma_completion_accounted<N: Scalar>(run: Run<N>, after: Run<N>, id: i32, time: N)
    requires
        run.is_live(),
        run.is_accounted(),
        run.expects(id),
        run.popped(id).completes_to(after, id, time, Step::Handled),
    ensures
        after.is_accounted(),
{
    let method = run.scheduler.placement_method;
    let popped = run.popped(id);
    let ended = popped.system.ended(id, time);
    let freed = ended.freed(id);
    lemma_popped_live(run.system, id, method);
    lemma_ended_live(popped.system, id, time, method);
    lemma_freed_live(ended, id, method);
    let renewed = choose|renewed: System<N>| #[trigger]
        freed.renews_to(renewed, time) && after.system == (System {
            cluster: renewed.cluster.logged(time),
            ..renewed
        });
    renewal_keeps_places(freed, renewed, time);
    let through = run.scheduler.metrics_jobs;
    let now = after.scheduler.metrics_jobs;
    assert(after.system.timer.events.dom() =~= run.system.timer.events.dom().remove(id));
    assert(run.is_somewhere(id));
    assert(now =~= through.push(id));
    assert forall|other: i32| 0 <= other < after.system.jobs.len() implies
        #[trigger] after.is_somewhere(other) by {
        assert(run.is_somewhere(other));
        assert(after.system.timer.events.dom().contains(other) == (other != id
            && run.system.timer.events.dom().contains(other)));
        if other == id {
            assert(now[through.len() as int] == id);
            assert(now.contains(id));
        } else {
            if through.contains(other) {
                let k = choose|k: int| 0 <= k < through.len() && through[k] == other;
                assert(now[k] == other);
            }
            if now.contains(other) {
                let k = choose|k: int| 0 <= k < now.len() && now[k] == other;
                assert(through[k] == other);
            }
        }
    }
    assert(now.no_duplicates()) by {
        assert forall|i: int, j: int| 0 <= i < now.len() && 0 <= j < now.len() && i
            != j implies now[i] != now[j] by {
            if i == through.len() {
                assert(through.contains(through[j]));
            } else if j == through.len() {
                assert(through.contains(through[i]));
            }
        }
    }
}

/// At its start, a simulation has every job yet to arrive but for the first, which has
/// an event.
pub proof fn simulations_start_accounted_for<N: Scalar>(
    cluster: ClusterModel<N>,
    jobs: Seq<JobModel<N>>,
    method: PlacementMethod,
)
    requires
        jobs.len() <= i32::MAX,
    ensures
        started_run(cluster, jobs, method).is_accounted(),
{
    let run = started_run(cluster, jobs, method);
    let all = numbers(jobs.len());
    let order = arrival_order(jobs);
    ranked_is_sorted(
        all,
        |job: i32| jobs[job as int].arrival_time.rank(),
        |job: i32| job as int,
    );
    assert(empty_timer::<N>().arrivals + order =~= order);
    assert forall|id: i32| 0 <= id < jobs.len() implies #[trigger] run.is_somewhere(id) by {
        assert(all[id as int] == id);
        assert(all.contains(id));
        assert(order.contains(id));
        let k = choose|k: int| 0 <= k < order.len() && order[k] == id;
        let rest = order.drop_first();
        assert(run.system.timer.arrivals == rest);
        if k == 0 {
            if rest.contains(id) {
                let m = choose|m: int| 0 <= m < rest.len() && rest[m] == id;
                assert(order[m + 1] == order[0]);
            }
        } else {
            assert(rest[k - 1] == id);
            assert(order[k] != order[0]);
        }
    }
}

/// A simulation that finishes has completed every job, each once.
pub proof fn finished_simulations_have_completed_every_job<N: Scalar>(
    begun: Run<N>,
    last: Run<N>,
    after: Run<N>,
    steps: nat,
)
    requires
        begun.is_live(),
        begun.is_accounted(),
        begun.reaches(last, steps),
        last.steps_to(after, Step::Finished),
    ensures
        after.scheduler.metrics_jobs.no_duplicates(),
        after.system.jobs.len() == begun.system.jobs.len(),
        forall|id: i32|
            0 <= id < begun.system.jobs.len() ==> #[trigger] after.scheduler.metrics_jobs.contains(
                id,
            ),
{
    lemma_reached_accounted(begun, last, steps);
    reveal(Run::steps_to);
    let event = choose|event: Option<(N, EventType, i32)>|
        {
            &&& #[trigger] last.system.timer.is_answer(any_type(), event)
            &&& match event {
                Some((time, event_type, id)) => last.popped(id).handles_to(
                    after,
                    time,
                    event_type,
                    id,
                    Step::Finished,
                ),
                None => last.system.timer.arrivals.len() == 0 && after == last.finished(),
            }
        };
    assert(event is None) by {
        if let Some((time, event_type, id)) = event {
            assert(!last.popped(id).handles_to(after, time, event_type, id, Step::Finished)) by {
                if event_type == EventType::Arrive {
                    assert(!last.popped(id).arrives_to(after, id, time, Step::Finished));
                }
            }
        }
    }
    assert(after.scheduler.metrics_jobs == last.scheduler.metrics_jobs);
    assert forall|id: i32| 0 <= id < begun.system.jobs.len() implies
        #[trigger] after.scheduler.metrics_jobs.contains(id) by {
        assert(last.is_somewhere(id));
        if last.expects(id) {
            assert(any_type()(last.system.timer.events[id].1));
        }
    }
}

proof fn lemma_reached_accounted<N: Scalar>(begun: Run<N>, after: Run<N>, steps: nat)
    requires
        begun.is_live(),
        begun.is_accounted(),
        begun.reaches(after, steps),
    ensures
        after.is_live(),
        after.is_accounted(),
        after.system.jobs.len() == begun.system.jobs.len(),
    decreases steps,
{
    if steps > 0 {
        let before = choose|before: Run<N>|
            begun.reaches(before, (steps - 1) as nat) && #[trigger] before.steps_to(
                after,
                Step::Handled,
            );
        lemma_reached_accounted(begun, before, (steps - 1) as nat);
        steps_keep_the_simulation_live(before, after);
        steps_keep_every_job_accounted_for(before, after);
    }
}

impl<N: Scalar> System<N> {
    /// Whether the event of a job is its arrival.
    pub open spec fn is_arriving(self, id: i32) -> bool {
        self.timer.events.contains_key(id) && self.timer.events[id].1 == EventType::Arrive
    }

    /// Whether a job arrives as long as jobs are yet to arrive.
    pub open spec fn keeps_arriving(self) -> bool {
        self.timer.arrivals.len() > 0 ==> exists|id: i32| self.is_arriving(id)
    }
}

/// A job other than the one whose event is handled goes on arriving.
proof fn lemma_goes_on_arriving<N: Scalar>(
    before: System<N>,
    after: System<N>,
    arriving: i32,
    time: N,
)
    requires
        before.is_sound(),
        before.renews_to(after, time),
        before.is_arriving(arriving),
    ensures
        after.is_arriving(arriving),
{
    renewal_keeps_places(before, after, time);
    assert(before.timer.events.dom().contains(arriving));
    assert(after.timer.events.dom().contains(arriving));
}

/// As long as jobs are yet to arrive, one of them is arriving, at every step.
pub proof fn steps_keep_jobs_arriving<N: Scalar>(run: Run<N>, after: Run<N>)
    requires
        run.is_live(),
        run.system.keeps_arriving(),
        run.steps_to(after, Step::Handled),
    ensures
        after.system.keeps_arriving(),
{
    reveal(Run::steps_to);
    let event = choose|event: Option<(N, EventType, i32)>|
        {
            &&& #[trigger] run.system.timer.is_answer(any_type(), event)
            &&& match event {
                Some((time, event_type, id)) => run.popped(id).handles_to(
                    after,
                    time,
                    event_type,
                    id,
                    Step::Handled,
                ),
                None => false,
            }
        };
    let (time, event_type, id) = event->0;
    let method = run.scheduler.placement_method;
    let popped = run.popped(id);
    let state = popped.system;
    lemma_popped_live(run.system, id, method);
    if event_type == EventType::Arrive {
        lemma_arrival_keeps_arriving(popped, after, id, time);
    } else if run.system.timer.arrivals.len() > 0 {
        let arriving = choose|other: i32| run.system.is_arriving(other);
        assert(state.is_arriving(arriving));
        match event_type {
            EventType::Arrive => {},
            EventType::Start => {
                if state.cluster.interference_model.iterates() {
                    assert(after.system.is_arriving(arriving));
                } else {
                    let trained = state.trained(id, time);
                    let entered = state.entered(id, time);
                    lemma_trained_live(state, id, time, method);
                    lemma_shared_out_sound(trained, id as int);
                    lemma_event_completes(
                        trained.shared_out(),
                        id,
                        entered.timer.events[id].0,
                        EventType::Complete,
                    );
                    assert(entered == System {
                        timer: trained.timer.with_event(
                            entered.timer.events[id].0,
                            EventType::Complete,
                            id,
                        ),
                        ..trained.shared_out()
                    });
                    assert(entered.is_arriving(arriving));
                    lemma_goes_on_arriving(entered, after.system, arriving, time);
                }
            },
            EventType::IterCompEnd => {
                let computed = state.computed(id, time);
                lemma_computed_live(state, id, time, method);
                assert(computed.is_arriving(arriving));
                lemma_goes_on_arriving(computed, after.system, arriving, time);
            },
            EventType::IterCommEnd => {
                lemma_communicated_live(state, id, time, method);
                if state.jobs[id as int].communicated(time).is_through() {
                    assert(after.system.is_arriving(arriving));
                } else {
                    let iterated = state.iterated(id, time);
                    assert(iterated.is_arriving(arriving));
                    lemma_goes_on_arriving(iterated, after.system, arriving, time);
                }
            },
            EventType::Complete => {
                let ended = state.ended(id, time);
                let freed = ended.freed(id);
                lemma_ended_live(state, id, time, method);
                lemma_freed_live(ended, id, method);
                let renewed = choose|renewed: System<N>| #[trigger]
                    freed.renews_to(renewed, time) && after.system == (System {
                        cluster: renewed.cluster.logged(time),
                        ..renewed
                    });
                assert(freed.is_arriving(arriving));
                lemma_goes_on_arriving(freed, renewed, arriving, time);
                assert(after.system.is_arriving(arriving));
            },
        }
    } else {
        lemma_no_new_arrivals(run, after, time, event_type, id);
    }
}

proof fn lemma_arrival_keeps_arriving<N: Scalar>(run: Run<N>, after: Run<N>, id: i32, time: N)
    requires
        run.system.is_live_but(id, run.scheduler.placement_method),
        run.arrives_to(after, id, time, Step::Handled),
    ensures
        after.system.keeps_arriving(),
{
    let method = run.scheduler.placement_method;
    let waiting = run.noticed(id, time);
    lemma_noticed_live(run, id, time);
    match waiting.system.cluster.plan(waiting.system.jobs[id as int], method) {
        Some((allocated, ps_allocated)) => {
            let placed = waiting.system.placed(id, allocated, ps_allocated, time);
            if placed.timer.arrivals.len() > 0 {
                assert(after.system.is_arriving(placed.timer.arrivals[0]));
            }
        },
        None => {
            assert(after.system.is_arriving(id));
        },
    }
}

/// An event other than an arrival enters no job as yet to arrive.
proof fn lemma_no_new_arrivals<N: Scalar>(
    run: Run<N>,
    after: Run<N>,
    time: N,
    event_type: EventType,
    id: i32,
)
    requires
        run.is_live(),
        run.expects(id),
        run.system.timer.events[id] == (time, event_type),
        event_type != EventType::Arrive,
        run.popped(id).handles_to(after, time, event_type, id, Step::Handled),
    ensures
        after.system.timer.arrivals == run.system.timer.arrivals,
{
    let method = run.scheduler.placement_method;
    let state = run.popped(id).system;
    lemma_popped_live(run.system, id, method);
    match event_type {
        EventType::Arrive => {},
        EventType::Start => {
            lemma_start_gains(state, after.system, id, time, method);
        },
        EventType::IterCompEnd => {
            lemma_computed_live(state, id, time, method);
            renewal_keeps_places(state.computed(id, time), after.system, time);
        },
        EventType::IterCommEnd => {
            lemma_communicated_live(state, id, time, method);
            if !state.jobs[id as int].communicated(time).is_through() {
                renewal_keeps_places(state.iterated(id, time), after.system, time);
            }
        },
        EventType::Complete => {
            let ended = state.ended(id, time);
            let freed = ended.freed(id);
            lemma_ended_live(state, id, time, method);
            lemma_freed_live(ended, id, method);
            let renewed = choose|renewed: System<N>| #[trigger]
                freed.renews_to(renewed, time) && after.system == (System {
                    cluster: renewed.cluster.logged(time),
                    ..renewed
                });
            renewal_keeps_places(freed, renewed, time);
        },
    }
}

/// At its start, a simulation has a job arriving.
pub proof fn simulations_start_with_an_arrival<N: Scalar>(
    cluster: ClusterModel<N>,
    jobs: Seq<JobModel<N>>,
    method: PlacementMethod,
)
    ensures
        started_run(cluster, jobs, method).system.keeps_arriving(),
{
    let run = started_run(cluster, jobs, method);
    let order = empty_timer::<N>().arrivals + arrival_order(jobs);
    if order.len() > 0 {
        assert(run.system.is_arriving(order[0]));
    }
}

/// A simulation never runs out of events while jobs are yet to arrive.
pub proof fn simulations_never_starve<N: Scalar>(
    begun: Run<N>,
    last: Run<N>,
    after: Run<N>,
    steps: nat,
)
    requires
        begun.is_live(),
        begun.system.keeps_arriving(),
        begun.reaches(last, steps),
    ensures
        !last.steps_to(after, Step::Starved),
{
    lemma_reached_arriving(begun, last, steps);
    if last.steps_to(after, Step::Starved) {
        reveal(Run::steps_to);
        let event = choose|event: Option<(N, EventType, i32)>|
            {
                &&& #[trigger] last.system.timer.is_answer(any_type(), event)
                &&& match event {
                    Some((time, event_type, id)) => last.popped(id).handles_to(
                        after,
                        time,
                        event_type,
                        id,
                        Step::Starved,
                    ),
                    None => last.system.timer.arrivals.len() > 0,
                }
            };
        if let Some((time, event_type, id)) = event {
            if event_type == EventType::Arrive {
                assert(!last.popped(id).arrives_to(after, id, time, Step::Starved));
            }
        } else {
            let id = choose|id: i32| last.system.is_arriving(id);
            assert(any_type()(last.system.timer.events[id].1));
        }
    }
}

proof fn lemma_reached_arriving<N: Scalar>(begun: Run<N>, after: Run<N>, steps: nat)
    requires
        begun.is_live(),
        begun.system.keeps_arriving(),
        begun.reaches(after, steps),
    ensures
        after.is_live(),
        after.system.keeps_arriving(),
    decreases steps,
{
    if steps > 0 {
        let before = choose|before: Run<N>|
            begun.reaches(before, (steps - 1) as nat) && #[trigger] before.steps_to(
                after,
                Step::Handled,
            );
        lemma_reached_arriving(begun, before, (steps - 1) as nat);
        steps_keep_the_simulation_live(before, after);
        steps_keep_jobs_arriving(before, after);
    }
}

impl<N: Scalar> System<N> {
    /// The jobs that were placed, in the order in which they were.
    pub open spec fn placed_jobs(self) -> Seq<i32> {
        Seq::new(self.cluster.allocations.len(), |i: int| self.cluster.allocations[i].job)
    }

    /// The job that is arriving, if one is.
    pub open spec fn arriving_job(self) -> Seq<i32> {
        if exists|id: i32| self.is_arriving(id) {
            seq![choose|id: i32| self.is_arriving(id)]
        } else {
            Seq::empty()
        }
    }

    /// The line that the jobs stand in: those that were placed, the one that is arriving
    /// and those that are yet to arrive.
    pub open spec fn line(self) -> Seq<i32> {
        self.placed_jobs() + self.arriving_job() + self.timer.arrivals
    }

    /// Whether at most one job is arriving.
    pub open spec fn arrives_one_by_one(self) -> bool {
        forall|a: i32, b: i32| self.is_arriving(a) && self.is_arriving(b) ==> a == b
    }

    /// Whether two states have the same line.
    pub open spec fn same_line(self, after: System<N>) -> bool {
        &&& after.cluster.allocations == self.cluster.allocations
        &&& after.timer.arrivals == self.timer.arrivals
        &&& forall|id: i32| after.is_arriving(id) <==> self.is_arriving(id)
    }
}

proof fn lemma_same_line<N: Scalar>(state: System<N>, after: System<N>)
    requires
        state.arrives_one_by_one(),
        state.same_line(after),
    ensures
        after.arrives_one_by_one(),
        after.line() == state.line(),
{
    assert forall|a: i32, b: i32| after.is_arriving(a) && after.is_arriving(b) implies a == b by {
        assert(state.is_arriving(a) && state.is_arriving(b));
    }
    assert(after.placed_jobs() =~= state.placed_jobs());
    if exists|id: i32| state.is_arriving(id) {
        let a = choose|id: i32| state.is_arriving(id);
        assert(after.is_arriving(a));
        let b = choose|id: i32| after.is_arriving(id);
        assert(state.is_arriving(b));
        assert(a == b);
    } else {
        assert forall|id: i32| !after.is_arriving(id) by {
            assert(!state.is_arriving(id));
        }
    }
}

/// Renewing the completion times changes nothing in the line.
proof fn lemma_renewed_line<N: Scalar>(state: System<N>, after: System<N>, time: N)
    requires
        state.is_sound(),
        state.renews_to(after, time),
    ensures
        state.same_line(after),
{
    renewal_keeps_places(state, after, time);
    assert forall|id: i32| after.is_arriving(id) <==> state.is_arriving(id) by {
        assert(after.timer.events.dom().contains(id) == state.timer.events.dom().contains(id));
    }
}

/// An event that is no arrival changes nothing in the line when it is entered.
proof fn lemma_entered_line<N: Scalar>(
    state: System<N>,
    after: System<N>,
    id: i32,
    time: N,
    event_type: EventType,
)
    requires
        !state.timer.events.contains_key(id),
        event_type != EventType::Arrive,
        after.timer == state.timer.with_event(time, event_type, id),
        after.cluster.allocations == state.cluster.allocations,
    ensures
        state.same_line(after),
{
    assert forall|other: i32| after.is_arriving(other) <==> state.is_arriving(other) by {}
}

proof fn lemma_line_transitive<N: Scalar>(a: System<N>, b: System<N>, c: System<N>)
    requires
        a.same_line(b),
        b.same_line(c),
    ensures
        a.same_line(c),
{
    assert forall|id: i32| c.is_arriving(id) <==> a.is_arriving(id) by {
        assert(c.is_arriving(id) <==> b.is_arriving(id));
        assert(b.is_arriving(id) <==> a.is_arriving(id));
    }
}

proof fn lemma_start_keeps_line<N: Scalar>(
    state: System<N>,
    after: System<N>,
    id: i32,
    time: N,
    method: PlacementMethod,
)
    requires
        state.is_live_but(id, method),
        state.starts_to(after, id, time),
    ensures
        state.same_line(after),
{
    let trained = state.trained(id, time);
    if state.cluster.interference_model.iterates() {
        let end = time.sum(state.jobs[id as int].iteration_computing_time);
        lemma_entered_line(state, after, id, end, EventType::IterCompEnd);
    } else {
        let entered = state.entered(id, time);
        let end = entered.timer.events[id].0;
        lemma_trained_live(state, id, time, method);
        lemma_shared_out_sound(trained, id as int);
        lemma_event_completes(trained.shared_out(), id, end, EventType::Complete);
        assert(entered.timer == state.timer.with_event(end, EventType::Complete, id));
        assert(entered == System {
            timer: trained.timer.with_event(end, EventType::Complete, id),
            ..trained.shared_out()
        });
        lemma_entered_line(state, entered, id, end, EventType::Complete);
        lemma_renewed_line(entered, after, time);
        lemma_line_transitive(state, entered, after);
    }
}

proof fn lemma_completion_keeps_line<N: Scalar>(
    state: System<N>,
    after: System<N>,
    id: i32,
    time: N,
    method: PlacementMethod,
)
    requires
        state.is_live_but(id, method),
        state.ended(id, time).releases_to(after, id, time),
    ensures
        state.same_line(after),
{
    let ended = state.ended(id, time);
    let freed = ended.freed(id);
    lemma_ended_live(state, id, time, method);
    lemma_freed_live(ended, id, method);
    let renewed = choose|renewed: System<N>| #[trigger]
        freed.renews_to(renewed, time) && after == (System {
            cluster: renewed.cluster.logged(time),
            ..renewed
        });
    assert(state.same_line(freed)) by {
        assert forall|other: i32| freed.is_arriving(other) <==> state.is_arriving(other) by {}
    }
    lemma_renewed_line(freed, renewed, time);
    lemma_line_transitive(state, freed, renewed);
    assert(renewed.same_line(after)) by {
        assert forall|other: i32| after.is_arriving(other) <==> renewed.is_arriving(other) by {}
    }
    lemma_line_transitive(state, renewed, after);
}

proof fn lemma_phase_keeps_line<N: Scalar>(
    state: System<N>,
    entered: System<N>,
    after: System<N>,
    id: i32,
    time: N,
)
    requires
        !state.timer.events.contains_key(id),
        exists|end: N, event_type: EventType|
            event_type != EventType::Arrive && entered.timer == #[trigger] state.timer.with_event(
                end,
                event_type,
                id,
            ),
        entered.cluster.allocations == state.cluster.allocations,
        entered.is_sound(),
        entered.renews_to(after, time),
    ensures
        state.same_line(after),
{
    let (end, event_type) = choose|end: N, event_type: EventType|
        event_type != EventType::Arrive && entered.timer == #[trigger] state.timer.with_event(
            end,
            event_type,
            id,
        );
    lemma_entered_line(state, entered, id, end, event_type);
    lemma_renewed_line(entered, after, time);
    lemma_line_transitive(state, entered, after);
}

/// An event other than an arrival changes nothing in the line.
pub(crate) proof fn lemma_event_keeps_line<N: Scalar>(
    run: Run<N>,
    after: Run<N>,
    time: N,
    event_type: EventType,
    id: i32,
)
    requires
        run.is_live(),
        run.expects(id),
        run.system.timer.events[id] == (time, event_type),
        event_type != EventType::Arrive,
        run.popped(id).handles_to(after, time, event_type, id, Step::Handled),
    ensures
        run.system.same_line(after.system),
{
    let method = run.scheduler.placement_method;
    let state = run.popped(id).system;
    lemma_popped_live(run.system, id, method);
    assert(run.system.same_line(state)) by {
        assert forall|other: i32| state.is_arriving(other) <==> run.system.is_arriving(
            other,
        ) by {}
    }
    match event_type {
        EventType::Arrive => {},
        EventType::Start => {
            lemma_start_keeps_line(state, after.system, id, time, method);
        },
        EventType::IterCompEnd => {
            let computed = state.computed(id, time);
            let end = computed.timer.events[id].0;
            lemma_computed_live(state, id, time, method);
            assert(computed.timer == state.timer.with_event(end, EventType::IterCommEnd, id));
            lemma_phase_keeps_line(state, computed, after.system, id, time);
        },
        EventType::IterCommEnd => {
            lemma_communicated_live(state, id, time, method);
            if state.jobs[id as int].communicated(time).is_through() {
                lemma_entered_line(state, after.system, id, time, EventType::Complete);
            } else {
                let iterated = state.iterated(id, time);
                let end = iterated.timer.events[id].0;
                assert(iterated.timer == state.timer.with_event(end, EventType::IterCompEnd, id));
                lemma_phase_keeps_line(state, iterated, after.system, id, time);
            }
        },
        EventType::Complete => {
            lemma_completion_keeps_line(state, after.system, id, time, method);
        },
    }
    lemma_line_transitive(run.system, state, after.system);
}

/// An arrival moves along the line: the job that arrives is placed, and the next one
/// arrives, or it stays where it is.
proof fn lemma_arrival_keeps_line<N: Scalar>(run: Run<N>, after: Run<N>, id: i32, time: N)
    requires
        run.is_live(),
        run.system.arrives_one_by_one(),
        run.system.is_arriving(id),
        run.popped(id).arrives_to(after, id, time, Step::Handled),
    ensures
        after.system.arrives_one_by_one(),
        after.system.line() == run.system.line(),
{
    let method = run.scheduler.placement_method;
    let popped = run.popped(id);
    let waiting = popped.noticed(id, time);
    lemma_popped_live(run.system, id, method);
    lemma_noticed_live(popped, id, time);
    let first = choose|other: i32| run.system.is_arriving(other);
    assert(first == id);
    assert(run.system.arriving_job() == seq![id]);
    assert forall|other: i32| !waiting.system.is_arriving(other) by {
        if waiting.system.is_arriving(other) {
            assert(run.system.is_arriving(other));
        }
    }
    match waiting.system.cluster.plan(waiting.system.jobs[id as int], method) {
        Some((allocated, ps_allocated)) => {
            let placed = waiting.system.placed(id, allocated, ps_allocated, time);
            lemma_admitted_live(waiting, id, allocated, ps_allocated, time);
            assert(placed.placed_jobs() =~= run.system.placed_jobs().push(id));
            assert(after.system.placed_jobs() =~= placed.placed_jobs());
            assert forall|other: i32| !placed.is_arriving(other) by {
                assert(!waiting.system.is_arriving(other));
            }
            let arrivals = run.system.timer.arrivals;
            if arrivals.len() > 0 {
                let next = arrivals[0];
                assert(after.system.is_arriving(next));
                assert forall|other: i32| after.system.is_arriving(other) implies other
                    == next by {
                    assert(!placed.is_arriving(other));
                }
                let chosen = choose|other: i32| after.system.is_arriving(other);
                assert(chosen == next);
                assert(after.system.line() =~= run.system.line());
            } else {
                assert forall|other: i32| !after.system.is_arriving(other) by {
                    assert(!placed.is_arriving(other));
                }
                assert(after.system.line() =~= run.system.line());
            }
        },
        None => {
            assert(after.system.is_arriving(id));
            assert forall|other: i32| after.system.is_arriving(other) implies other == id by {
                assert(!waiting.system.is_arriving(other));
            }
            let chosen = choose|other: i32| after.system.is_arriving(other);
            assert(chosen == id);
            assert(after.system.placed_jobs() =~= run.system.placed_jobs());
            assert(after.system.line() =~= run.system.line());
        },
    }
}

/// A step leaves the line of the jobs as it is: a job moves from arriving to placed only
/// when it is the first that is not placed.
pub proof fn steps_keep_the_line<N: Scalar>(run: Run<N>, after: Run<N>)
    requires
        run.is_live(),
        run.system.arrives_one_by_one(),
        run.steps_to(after, Step::Handled),
    ensures
        after.system.arrives_one_by_one(),
        after.system.line() == run.system.line(),
{
    reveal(Run::steps_to);
    let event = choose|event: Option<(N, EventType, i32)>|
        {
            &&& #[trigger] run.system.timer.is_answer(any_type(), event)
            &&& match event {
                Some((time, event_type, id)) => run.popped(id).handles_to(
                    after,
                    time,
                    event_type,
                    id,
                    Step::Handled,
                ),
                None => false,
            }
        };
    let (time, event_type, id) = event->0;
    if event_type == EventType::Arrive {
        lemma_arrival_keeps_line(run, after, id, time);
    } else {
        lemma_event_keeps_line(run, after, time, event_type, id);
        lemma_same_line(run.system, after.system);
    }
}

/// Jobs are placed first in, first out: whatever a simulation of fresh jobs reaches, the
/// jobs placed so far are the first ones in the order of arrival.
pub proof fn jobs_are_placed_in_the_order_of_arrival<N: Scalar>(
    cluster: ClusterModel<N>,
    jobs: Seq<JobModel<N>>,
    method: PlacementMethod,
    after: Run<N>,
    steps: nat,
)
    requires
        cluster.is_idle(),
        cluster.allocations.len() == 0,
        forall|k: int| 0 <= k < jobs.len() ==> (#[trigger] jobs[k]).is_unplaced(),
        start_flaw(jobs, cluster, method) is None,
        started_run(cluster, jobs, method).reaches(after, steps),
    ensures
        after.system.line() == arrival_order(jobs),
        after.system.placed_jobs().is_prefix_of(arrival_order(jobs)),
{
    let run = started_run(cluster, jobs, method);
    let order = arrival_order(jobs);
    simulations_start_live(cluster, jobs, method);
    assert(empty_timer::<N>().arrivals + order =~= order);
    assert(run.system.placed_jobs() =~= Seq::<i32>::empty());
    if order.len() > 0 {
        assert(run.system.is_arriving(order[0]));
        assert forall|other: i32| run.system.is_arriving(other) implies other == order[0] by {}
        let chosen = choose|other: i32| run.system.is_arriving(other);
        assert(chosen == order[0]);
    } else {
        assert forall|other: i32| !run.system.is_arriving(other) by {}
    }
    assert(run.system.line() =~= order);
    lemma_reached_line(run, after, steps);
}

proof fn lemma_reached_line<N: Scalar>(begun: Run<N>, after: Run<N>, steps: nat)
    requires
        begun.is_live(),
        begun.system.arrives_one_by_one(),
        begun.reaches(after, steps),
    ensures
        after.is_live(),
        after.system.arrives_one_by_one(),
        after.system.line() == begun.system.line(),
    decreases steps,
{
    if steps > 0 {
        let before = choose|before: Run<N>|
            begun.reaches(before, (steps - 1) as nat) && #[trigger] before.steps_to(
                after,
                Step::Handled,
            );
        lemma_reached_line(begun, before, (steps - 1) as nat);
        steps_keep_the_simulation_live(before, after);
        steps_keep_the_line(before, after);
    }
}

/// A renewal leaves the loading times as they are.
proof fn lemma_renewed_loading<N: Scalar>(state: System<N>, after: System<N>, time: N, job: int)
    requires
        state.is_sound(),
        state.renews_to(after, time),
        0 <= job < state.jobs.len(),
    ensures
        after.jobs[job].loading_time == state.jobs[job].loading_time,
{
    renewal_keeps_places(state, after, time);
    assert(state.jobs[job].same_place(after.jobs[job]));
}

proof fn lemma_start_keeps_loading<N: Scalar>(
    state: System<N>,
    after: System<N>,
    id: i32,
    time: N,
    method: PlacementMethod,
    job: int,
)
    requires
        state.is_live_but(id, method),
        state.starts_to(after, id, time),
        0 <= job < state.jobs.len(),
    ensures
        after.jobs[job].loading_time == state.jobs[job].loading_time,
{
    if !state.cluster.interference_model.iterates() {
        let trained = state.trained(id, time);
        let entered = state.entered(id, time);
        let end = entered.timer.events[id].0;
        lemma_trained_live(state, id, time, method);
        lemma_shared_out_sound(trained, id as int);
        lemma_event_completes(trained.shared_out(), id, end, EventType::Complete);
        assert(entered == System {
            timer: trained.timer.with_event(end, EventType::Complete, id),
            ..trained.shared_out()
        });
        lemma_renewed_loading(entered, after, time, job);
    }
}

proof fn lemma_completion_keeps_loading<N: Scalar>(
    state: System<N>,
    after: System<N>,
    id: i32,
    time: N,
    method: PlacementMethod,
    job: int,
)
    requires
        state.is_live_but(id, method),
        state.ended(id, time).releases_to(after, id, time),
        0 <= job < state.jobs.len(),
    ensures
        after.jobs[job].loading_time == state.jobs[job].loading_time,
{
    let ended = state.ended(id, time);
    let freed = ended.freed(id);
    lemma_ended_live(state, id, time, method);
    lemma_freed_live(ended, id, method);
    let renewed = choose|renewed: System<N>| #[trigger]
        freed.renews_to(renewed, time) && after == (System {
            cluster: renewed.cluster.logged(time),
            ..renewed
        });
    lemma_renewed_loading(freed, renewed, time, job);
}

/// The loading time of a job is frozen: no step changes it but the one in which the job, having
/// arrived, is placed.
pub proof fn loading_times_are_frozen<N: Scalar>(run: Run<N>, after: Run<N>, job: i32)
    requires
        run.is_live(),
        run.steps_to(after, Step::Handled),
        0 <= job < run.system.jobs.len(),
        !run.system.is_arriving(job),
    ensures
        after.system.jobs[job as int].loading_time == run.system.jobs[job as int].loading_time,
{
    reveal(Run::steps_to);
    let event = choose|event: Option<(N, EventType, i32)>|
        {
            &&& #[trigger] run.system.timer.is_answer(any_type(), event)
            &&& match event {
                Some((time, event_type, id)) => run.popped(id).handles_to(
                    after,
                    time,
                    event_type,
                    id,
                    Step::Handled,
                ),
                None => false,
            }
        };
    let (time, event_type, id) = event->0;
    let method = run.scheduler.placement_method;
    let popped = run.popped(id);
    let state = popped.system;
    lemma_popped_live(run.system, id, method);
    match event_type {
        EventType::Arrive => {
            assert(run.system.is_arriving(id));
            lemma_arrival_keeps_loading(popped, after, id, time, job);
        },
        EventType::Start => {
            lemma_start_keeps_loading(state, after.system, id, time, method, job as int);
        },
        EventType::IterCompEnd => {
            lemma_computed_live(state, id, time, method);
            lemma_renewed_loading(state.computed(id, time), after.system, time, job as int);
        },
        EventType::IterCommEnd => {
            lemma_communicated_live(state, id, time, method);
            if !state.jobs[id as int].communicated(time).is_through() {
                lemma_renewed_loading(state.iterated(id, time), after.system, time, job as int);
            }
        },
        EventType::Complete => {
            lemma_completion_keeps_loading(state, after.system, id, time, method, job as int);
        },
    }
}

proof fn lemma_arrival_keeps_loading<N: Scalar>(
    run: Run<N>,
    after: Run<N>,
    id: i32,
    time: N,
    job: i32,
)
    requires
        run.system.is_live_but(id, run.scheduler.placement_method),
        !run.system.cluster.active(id as int),
        run.arrives_to(after, id, time, Step::Handled),
        0 <= job < run.system.jobs.len(),
        job != id,
    ensures
        after.system.jobs[job as int].loading_time == run.system.jobs[job as int].loading_time,
{
    let waiting = run.noticed(id, time);
    lemma_noticed_live(run, id, time);
    match waiting.system.cluster.plan(
        waiting.system.jobs[id as int],
        run.scheduler.placement_method,
    ) {
        Some((allocated, ps_allocated)) => {
            let placed = waiting.system.placed(id, allocated, ps_allocated, time);
            lemma_admitted_live(waiting, id, allocated, ps_allocated, time);
            assert(placed.jobs[job as int] == waiting.system.jobs[job as int]);
            if placed.timer.arrivals.len() > 0 {
                assert(0 <= placed.timer.arrivals[0] < placed.jobs.len());
            }
        },
        None => {},
    }
}

} // verus!
