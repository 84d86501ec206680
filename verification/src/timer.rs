//! The event queue of the simulation.

use std::collections::HashMap;
use std::collections::VecDeque;
use vstd::prelude::*;

use crate::scalar::Scalar;

verus! {

broadcast use vstd::std_specs::hash::group_hash_axioms;

/// Event types in priority order (the first has the highest priority).
#[derive(Debug, Clone, Copy, PartialEq, Eq, PartialOrd, Ord, Hash, Structural)]
pub enum EventType {
    Complete,
    IterCommEnd,
    IterCompEnd,
    Start,
    Arrive,
}

impl EventType {
    /// The place of the type among those of one instant: lower goes first.
    pub open spec fn place(self) -> u8 {
        match self {
            EventType::Complete => 0,
            EventType::IterCommEnd => 1,
            EventType::IterCompEnd => 2,
            EventType::Start => 3,
            EventType::Arrive => 4,
        }
    }

    /// The place of the type among those of one instant: lower goes first.
    pub fn priority(self) -> (result: u8)
        ensures
            result == self.place(),
    {
        match self {
            EventType::Complete => 0,
            EventType::IterCommEnd => 1,
            EventType::IterCompEnd => 2,
            EventType::Start => 3,
            EventType::Arrive => 4,
        }
    }

    /// Whether an event of the type changes which jobs run: an arrival, a start
    /// or a completion.
    pub open spec fn external(self) -> bool {
        self is Arrive || self is Start || self is Complete
    }
}

/// An event in the simulation event queue. `job_id` is the index of the job.
#[derive(Debug, Clone, Copy)]
pub struct Event<N> {
    pub time: N,
    pub event_type: EventType,
    pub job_id: i32,
}

impl<N: Scalar> Event<N> {
    /// Whether the event comes before another: by time, then by type.
    pub open spec fn before(self, other: Event<N>) -> bool {
        ||| crate::scalar::less(self.time, other.time)
        ||| crate::scalar::equal(self.time, other.time) && self.event_type.place()
            < other.event_type.place()
    }

    /// Whether the event comes before another: by time, then by type.
    pub fn less_than(&self, other: &Event<N>) -> (result: bool)
        ensures
            result == self.before(*other),
    {
        if !self.time.is_equal(other.time) {
            return self.time.is_less(other.time);
        }
        self.event_type.priority() < other.event_type.priority()
    }
}

/// The event of an entry of the queue, as it is handed out.
pub open spec fn triple<N>(event: Event<N>) -> (N, EventType, i32) {
    (event.time, event.event_type, event.job_id)
}

/// What a queue holds.
#[verifier::ext_equal]
pub struct TimerModel<N> {
    /// The time and the type of the one event of each job that has one.
    pub events: Map<i32, (N, EventType)>,
    /// The jobs that are yet to arrive, first one first.
    pub arrivals: Seq<i32>,
    /// Whether every time that was entered is ordered.
    pub orderly: bool,
}

impl<N: Scalar> TimerModel<N> {
    /// The event of a job that has one.
    pub open spec fn event(self, job: i32) -> Event<N> {
        Event { time: self.events[job].0, event_type: self.events[job].1, job_id: job }
    }

    /// The queue with an event more.
    pub open spec fn with_event(self, time: N, event_type: EventType, job: i32) -> TimerModel<N> {
        TimerModel {
            events: self.events.insert(job, (time, event_type)),
            orderly: self.orderly && time.ordered(),
            ..self
        }
    }

    /// The queue with the event of a job moved to another time.
    pub open spec fn moved(self, job: i32, time: N) -> TimerModel<N> {
        self.with_event(time, self.events[job].1, job)
    }

    /// The queue with the events of some jobs moved, each to its time.
    pub open spec fn moved_all(self, times: spec_fn(i32) -> Option<N>) -> TimerModel<N> {
        TimerModel {
            events: Map::new(
                |job: i32| self.events.contains_key(job),
                |job: i32|
                    match times(job) {
                        Some(time) => (time, self.events[job].1),
                        None => self.events[job],
                    },
            ),
            orderly: self.orderly && forall|job: i32| #[trigger]
                self.events.contains_key(job) ==> match times(job) {
                    Some(time) => time.ordered(),
                    None => true,
                },
            ..self
        }
    }

    /// The queue without the event of a job.
    pub open spec fn without(self, job: i32) -> TimerModel<N> {
        TimerModel { events: self.events.remove(job), ..self }
    }

    /// The queue with a job more that is yet to arrive.
    pub open spec fn with_arrival(self, job: i32) -> TimerModel<N> {
        TimerModel { arrivals: self.arrivals.push(job), ..self }
    }

    /// The queue without the job that arrives next.
    pub open spec fn without_arrival(self) -> TimerModel<N> {
        TimerModel { arrivals: self.arrivals.drop_first(), ..self }
    }

    /// Whether a triple is an event of the queue before which no event comes
    /// among those of the wanted types.
    pub open spec fn is_first(self, wanted: spec_fn(EventType) -> bool, found: (N, EventType, i32)) -> bool {
        &&& self.events.contains_key(found.2)
        &&& self.events[found.2] == (found.0, found.1)
        &&& wanted(found.1)
        &&& self.orderly ==> forall|job: i32| #[trigger]
            self.events.contains_key(job) && wanted(self.events[job].1) ==> !self.event(job).before(
                self.event(found.2),
            )
    }

    /// Whether an answer names a first event among those of the wanted types,
    /// or there is none.
    pub open spec fn is_answer(
        self,
        wanted: spec_fn(EventType) -> bool,
        answer: Option<(N, EventType, i32)>,
    ) -> bool {
        match answer {
            Some(found) => self.is_first(wanted, found),
            None => forall|job: i32| #[trigger]
                self.events.contains_key(job) ==> !wanted(self.events[job].1),
        }
    }
}

/// The first of the entries of the wanted types, in the order of the queue, before which none
/// of them comes.
pub open spec fn first_of<N: Scalar>(queue: Seq<Event<N>>, wanted: spec_fn(EventType) -> bool) -> Option<Event<N>>
    decreases queue.len(),
{
    if queue.len() == 0 {
        None
    } else {
        let best = first_of(queue.drop_last(), wanted);
        if !wanted(queue.last().event_type) {
            best
        } else {
            match best {
                None => Some(queue.last()),
                Some(event) => if queue.last().before(event) {
                    Some(queue.last())
                } else {
                    best
                },
            }
        }
    }
}

/// The answer that names an entry.
pub open spec fn answer_of<N>(event: Option<Event<N>>) -> Option<(N, EventType, i32)> {
    match event {
        Some(event) => Some(triple(event)),
        None => None,
    }
}

/// The event that is taken out of a queue next: that of its first entry.
pub open spec fn next_of<N>(queue: Seq<Event<N>>) -> Option<(N, EventType, i32)> {
    if queue.len() == 0 {
        None
    } else {
        Some(triple(queue[0]))
    }
}

/// The index of the parent of an entry of the heap.
spec fn parent(k: int) -> int {
    (k - 1) / 2
}

/// Whether every time is ordered.
spec fn all_ordered<N: Scalar>(queue: Seq<Event<N>>) -> bool {
    forall|i: int| 0 <= i < queue.len() ==> (#[trigger] queue[i]).time.ordered()
}

/// Whether no entry comes before its parent.
spec fn is_heap<N: Scalar>(queue: Seq<Event<N>>) -> bool {
    forall|c: int| 0 < c < queue.len() ==> !(#[trigger] queue[c]).before(queue[parent(c)])
}

/// Whether the queue is a heap but for the children of entry `k`.
spec fn heap_above<N: Scalar>(queue: Seq<Event<N>>, k: int) -> bool {
    &&& forall|c: int|
        0 < c < queue.len() && parent(c) != k ==> !(#[trigger] queue[c]).before(queue[parent(c)])
    &&& forall|c: int|
        0 < c < queue.len() && parent(c) == k && 0 < k ==> !(#[trigger] queue[c]).before(
            queue[parent(k)],
        )
}

/// Whether the queue is a heap but for entry `k`.
spec fn heap_around<N: Scalar>(queue: Seq<Event<N>>, k: int) -> bool {
    &&& forall|c: int|
        0 < c < queue.len() && c != k && parent(c) != k ==> !(#[trigger] queue[c]).before(
            queue[parent(c)],
        )
    &&& forall|c: int|
        0 < c < queue.len() && parent(c) == k && 0 < k ==> !(#[trigger] queue[c]).before(
            queue[parent(k)],
        )
}

/// No entry of a heap comes before its root.
proof fn lemma_root_is_first<N: Scalar>(queue: Seq<Event<N>>, i: int)
    requires
        all_ordered(queue),
        is_heap(queue),
        0 <= i < queue.len(),
    ensures
        !queue[i].before(queue[0]),
    decreases i,
{
    if i > 0 {
        lemma_root_is_first(queue, parent(i));
        assert(!queue[i].before(queue[parent(i)]));
        assert(queue[0].time.ordered() && queue[i].time.ordered() && queue[parent(i)].time.ordered());
    }
}

/// Moving an entry down, below its first child, leaves the queue a heap but for
/// the children of the place that it comes to.
proof fn lemma_sink_step<N: Scalar>(before: Seq<Event<N>>, after: Seq<Event<N>>, k: int, j: int)
    requires
        0 <= k < j < before.len(),
        parent(j) == k,
        all_ordered(before),
        heap_above(before, k),
        after == before.update(k, before[j]).update(j, before[k]),
        before[j].before(before[k]),
        forall|c: int| 0 < c < before.len() && parent(c) == k ==> !(#[trigger] before[c]).before(before[j]),
    ensures
        all_ordered(after),
        heap_above(after, j),
{
    assert forall|i: int| 0 <= i < after.len() implies (#[trigger] after[i]).time.ordered() by {
        assert(before[i].time.ordered());
        assert(before[k].time.ordered() && before[j].time.ordered());
    }
    assert forall|c: int| 0 < c < after.len() && parent(c) != j implies !(#[trigger] after[c]).before(
        after[parent(c)],
    ) by {
        if c == k {
            assert(!before[j].before(before[parent(k)]));
        } else if parent(c) == k {
            if c != j {
                assert(after[c] == before[c]);
            } else {
                assert(after[c] == before[k]);
            }
        } else {
            assert(after[c] == before[c] && after[parent(c)] == before[parent(c)]);
        }
    }
    assert forall|c: int| 0 < c < after.len() && parent(c) == j && 0 < j implies !(#[trigger] after[c]).before(
        after[parent(j)],
    ) by {
        assert(after[c] == before[c]);
        assert(!before[c].before(before[parent(c)]));
    }
}

/// An entry that comes no later than its first child completes the heap.
proof fn lemma_sink_done<N: Scalar>(queue: Seq<Event<N>>, k: int, j: int)
    requires
        0 <= k < j < queue.len(),
        all_ordered(queue),
        heap_above(queue, k),
        !queue[j].before(queue[k]),
        forall|c: int| 0 < c < queue.len() && parent(c) == k ==> !(#[trigger] queue[c]).before(queue[j]),
    ensures
        is_heap(queue),
{
    assert forall|c: int| 0 < c < queue.len() implies !(#[trigger] queue[c]).before(queue[parent(c)]) by {
        if parent(c) == k {
            assert(queue[c].time.ordered() && queue[k].time.ordered() && queue[j].time.ordered());
        }
    }
}

/// Indexed min-heap of events with O(log n) update, and the queue of the jobs
/// that are yet to arrive.
pub struct Timer<N: Scalar> {
    pq: Vec<Event<N>>,
    jobid_to_idx: HashMap<i32, usize>,
    arrival_queue: VecDeque<i32>,
    orderly: Ghost<bool>,
}

impl<N: Scalar> View for Timer<N> {
    type V = TimerModel<N>;

    closed spec fn view(&self) -> TimerModel<N> {
        TimerModel {
            events: self.jobid_to_idx@.map_values(
                |i: usize| (self.pq@[i as int].time, self.pq@[i as int].event_type),
            ),
            arrivals: self.arrival_queue@,
            orderly: self.orderly@,
        }
    }
}

impl<N: Scalar> Timer<N> {
    /// The entries in the order in which they are kept.
    pub closed spec fn queue(&self) -> Seq<Event<N>> {
        self.pq@
    }

    /// Whether the index of each job leads to its entry.
    spec fn indexed(&self) -> bool {
        &&& forall|i: int|
            0 <= i < self.pq@.len() ==> self.jobid_to_idx@.contains_key(
                (#[trigger] self.pq@[i]).job_id,
            ) && self.jobid_to_idx@[self.pq@[i].job_id] == i
        &&& forall|job: i32| #[trigger]
            self.jobid_to_idx@.contains_key(job) ==> self.jobid_to_idx@[job] < self.pq@.len()
                && self.pq@[self.jobid_to_idx@[job] as int].job_id == job
    }

    /// Whether the parts of the queue agree.
    pub closed spec fn wf(&self) -> bool {
        &&& self.indexed()
        &&& self.orderly@ ==> all_ordered(self.pq@) && is_heap(self.pq@)
    }

    /// The entries of the queue are the events that it holds.
    pub proof fn lemma_entries(&self)
        requires
            self.wf(),
        ensures
            forall|i: int|
                0 <= i < self.queue().len() ==> self@.events.contains_key(
                    (#[trigger] self.queue()[i]).job_id,
                ) && self@.event(self.queue()[i].job_id) == self.queue()[i],
            forall|job: i32| #[trigger]
                self@.events.contains_key(job) ==> exists|i: int|
                    0 <= i < self.queue().len() && self.queue()[i] == self@.event(job),
    {
        assert forall|job: i32| #[trigger] self@.events.contains_key(job) implies exists|i: int|
            0 <= i < self.queue().len() && self.queue()[i] == self@.event(job) by {
            assert(self.queue()[self.jobid_to_idx@[job] as int] == self@.event(job));
        }
    }

    /// An empty queue.
    pub fn new() -> (timer: Self)
        ensures
            timer.wf(),
            timer@ == (TimerModel::<N> {
                events: Map::empty(),
                arrivals: Seq::empty(),
                orderly: true,
            }),
            timer.queue().len() == 0,
    {
        let timer = Timer {
            pq: Vec::new(),
            jobid_to_idx: HashMap::new(),
            arrival_queue: VecDeque::new(),
            orderly: Ghost(true),
        };
        assert(timer@.events =~= Map::empty());
        timer
    }

    /// Add job_id to arrival queue.
    pub fn add_arrival(&mut self, job_id: i32)
        requires
            old(self).wf(),
        ensures
            final(self).wf(),
            final(self)@ == old(self)@.with_arrival(job_id),
            final(self).queue() == old(self).queue(),
    {
        self.arrival_queue.push_back(job_id);
    }

    /// Check if arrival queue has jobs.
    pub fn has_arrivals(&self) -> (result: bool)
        ensures
            result == (self@.arrivals.len() > 0),
    {
        self.arrival_queue.len() > 0
    }

    /// Get next job_id from arrival queue.
    pub fn get_next_arrival(&mut self) -> (result: Option<i32>)
        requires
            old(self).wf(),
        ensures
            final(self).wf(),
            final(self).queue() == old(self).queue(),
            match result {
                Some(job_id) => {
                    &&& old(self)@.arrivals.len() > 0
                    &&& job_id == old(self)@.arrivals[0]
                    &&& final(self)@ == old(self)@.without_arrival()
                },
                None => old(self)@.arrivals.len() == 0 && final(self)@ == old(self)@,
            },
    {
        self.arrival_queue.pop_front()
    }

    /// Number of events in the event queue.
    pub fn len(&self) -> (result: usize)
        requires
            self.wf(),
        ensures
            result == self@.events.dom().len(),
            result == self.queue().len(),
    {
        proof {
            self.lemma_len(self.pq@.len() as int);
        }
        self.pq.len()
    }

    /// As many jobs have an event as there are entries.
    proof fn lemma_len(&self, n: int)
        requires
            self.wf(),
            0 <= n <= self.pq@.len(),
        ensures
            self@.events.dom().filter(|job: i32| self.jobid_to_idx@[job] < n).finite(),
            self@.events.dom().filter(|job: i32| self.jobid_to_idx@[job] < n).len() == n,
            n == self.pq@.len() ==> self@.events.dom().len() == n,
        decreases n,
    {
        let part = self@.events.dom().filter(|job: i32| self.jobid_to_idx@[job] < n);
        if n == 0 {
            assert(part =~= Set::empty());
        } else {
            self.lemma_len(n - 1);
            let rest = self@.events.dom().filter(|job: i32| self.jobid_to_idx@[job] < n - 1);
            let job = self.pq@[n - 1].job_id;
            assert(part =~= rest.insert(job));
        }
        if n == self.pq@.len() {
            assert(part =~= self@.events.dom());
        }
    }

    /// Whether the event queue is empty.
    pub fn is_empty(&self) -> (result: bool)
        requires
            self.wf(),
        ensures
            result == (self@.events == Map::<i32, (N, EventType)>::empty()),
            result == (next_of(self.queue()) is None),
    {
        proof {
            self.lemma_entries();
            if self.pq@.len() == 0 {
                assert(self@.events =~= Map::empty());
            } else {
                assert(self@.events.contains_key(self.pq@[0].job_id));
            }
        }
        self.pq.len() == 0
    }

    /// Whether a job has an event in the queue.
    pub fn contains_job(&self, job_id: i32) -> (result: bool)
        ensures
            result == self@.events.contains_key(job_id),
    {
        self.jobid_to_idx.contains_key(&job_id)
    }

    /// Add event to event queue. The job has no event there yet.
    pub fn add_event(&mut self, time: N, event_type: EventType, job_id: i32)
        requires
            old(self).wf(),
            !old(self)@.events.contains_key(job_id),
        ensures
            final(self).wf(),
            final(self)@ == old(self)@.with_event(time, event_type, job_id),
    {
        let event = Event { time, event_type, job_id };
        let idx: usize = self.pq.len();
        self.pq.push(event);
        self.jobid_to_idx.insert(job_id, idx);
        proof {
            self.orderly@ = self.orderly@ && time.ordered();
        }
        proof {
            let before = old(self).pq@;
            assert(self.pq@ == before.push(event));
            assert forall|job: i32| #[trigger] self.jobid_to_idx@.contains_key(job) implies
                self.jobid_to_idx@[job] < self.pq@.len() && self.pq@[self.jobid_to_idx@[job] as int].job_id == job by {
                if job != job_id {
                    assert(old(self).jobid_to_idx@.contains_key(job));
                }
            }
            assert forall|i: int| 0 <= i < self.pq@.len() implies self.jobid_to_idx@.contains_key(
                (#[trigger] self.pq@[i]).job_id,
            ) && self.jobid_to_idx@[self.pq@[i].job_id] == i by {
                if i < idx {
                    assert(before[i] == self.pq@[i]);
                    assert(old(self)@.events.contains_key(before[i].job_id));
                }
            }
            assert(self@.events =~= old(self)@.with_event(time, event_type, job_id).events);
            if self.orderly@ {
                assert forall|c: int|
                    0 < c < self.pq@.len() && c != idx && parent(c) != idx implies !(#[trigger] self.pq@[c]).before(
                    self.pq@[parent(c)],
                ) by {
                    assert(before[c] == self.pq@[c] && before[parent(c)] == self.pq@[parent(c)]);
                }
            }
        }
        self.swim(idx);
        proof {
            if self.orderly@ {
                assert(is_heap(self.pq@));
            }
        }
    }

    /// Get and remove the highest-priority event: the one that `peek_next_event` shows.
    pub fn get_next_event(&mut self) -> (result: Option<(N, EventType, i32)>)
        requires
            old(self).wf(),
        ensures
            final(self).wf(),
            result == next_of(old(self).queue()),
            old(self)@.is_answer(|t: EventType| true, result),
            match result {
                Some(found) => final(self)@ == old(self)@.without(found.2),
                None => final(self)@ == old(self)@,
            },
    {
        let n: usize = self.pq.len();
        if n == 0 {
            return None;
        }
        let last: usize = n - 1;
        let ghost first = self.pq@[0];
        proof {
            self.lemma_entries();
            if self.orderly@ {
                assert forall|job: i32| #[trigger] self@.events.contains_key(job) implies !self@.event(job).before(first) by {
                    let i = choose|i: int| 0 <= i < self.queue().len() && self.queue()[i] == self@.event(job);
                    lemma_root_is_first(self.pq@, i);
                }
            }
        }
        self.exchange(0, last);
        let min_event = self.take_last();
        proof {
            if self.orderly@ {
                let after = self.pq@;
                let before = old(self).pq@;
                assert forall|c: int| 0 < c < after.len() && parent(c) != 0 implies !(#[trigger] after[c]).before(
                    after[parent(c)],
                ) by {
                    assert(after[c] == before[c] && after[parent(c)] == before[parent(c)]);
                }
            }
        }
        if self.pq.len() > 0 {
            self.sink(0);
        }
        Some((min_event.time, min_event.event_type, min_event.job_id))
    }

    /// Remove a specific job's event from the queue.
    pub fn remove_job(&mut self, job_id: i32)
        requires
            old(self).wf(),
            old(self)@.events.contains_key(job_id),
        ensures
            final(self).wf(),
            final(self)@ == old(self)@.without(job_id),
    {
        let idx: usize = self.index_of(job_id);
        let last: usize = self.pq.len() - 1;
        self.exchange(idx, last);
        let removed = self.take_last();
        if idx < self.pq.len() {
            proof {
                if self.orderly@ {
                    let after = self.pq@;
                    let before = old(self).pq@;
                    assert forall|c: int|
                        0 < c < after.len() && c != idx && parent(c) != idx implies !(#[trigger] after[c]).before(
                        after[parent(c)],
                    ) by {
                        assert(after[c] == before[c] && after[parent(c)] == before[parent(c)]);
                    }
                    assert forall|c: int| 0 < c < after.len() && parent(c) == idx && 0 < idx implies !(
                    #[trigger] after[c]).before(after[parent(idx as int)]) by {
                        assert(after[c] == before[c]);
                        assert(!before[c].before(before[parent(c)]));
                        assert(!before[idx as int].before(before[parent(idx as int)]));
                        assert(after[parent(idx as int)] == before[parent(idx as int)]);
                    }
                }
            }
            self.swim(idx);
            self.sink(idx);
        } else {
            proof {
                if self.orderly@ {
                    let after = self.pq@;
                    let before = old(self).pq@;
                    assert forall|c: int| 0 < c < after.len() implies !(#[trigger] after[c]).before(
                        after[parent(c)],
                    ) by {
                        assert(after[c] == before[c] && after[parent(c)] == before[parent(c)]);
                    }
                }
            }
        }
    }

    /// Peek at the highest-priority event without removing it.
    pub fn peek_next_event(&self) -> (result: Option<(N, EventType, i32)>)
        requires
            self.wf(),
        ensures
            result == next_of(self.queue()),
            self@.is_answer(|t: EventType| true, result),
    {
        proof {
            self.lemma_entries();
        }
        if self.pq.len() == 0 {
            return None;
        }
        let event = self.pq[0];
        proof {
            if self.orderly@ {
                assert forall|job: i32| #[trigger] self@.events.contains_key(job) implies !self@.event(job).before(event) by {
                    let i = choose|i: int| 0 <= i < self.queue().len() && self.queue()[i] == self@.event(job);
                    lemma_root_is_first(self.pq@, i);
                }
            }
        }
        Some((event.time, event.event_type, event.job_id))
    }

    /// Update the time of a specific job's event.
    pub fn update_job_time(&mut self, job_id: i32, new_time: N)
        requires
            old(self).wf(),
            old(self)@.events.contains_key(job_id),
        ensures
            final(self).wf(),
            final(self)@ == old(self)@.moved(job_id, new_time),
    {
        let idx: usize = self.index_of(job_id);
        let event_type = self.pq[idx].event_type;
        self.pq.set(idx, Event { time: new_time, event_type, job_id });
        proof {
            self.orderly@ = self.orderly@ && new_time.ordered();
        }
        proof {
            let before = old(self).pq@;
            let after = self.pq@;
            assert(self@.events =~= old(self)@.moved(job_id, new_time).events);
            if self.orderly@ {
                assert forall|c: int|
                    0 < c < after.len() && c != idx && parent(c) != idx implies !(#[trigger] after[c]).before(
                    after[parent(c)],
                ) by {
                    assert(after[c] == before[c] && after[parent(c)] == before[parent(c)]);
                }
                assert forall|c: int| 0 < c < after.len() && parent(c) == idx && 0 < idx implies !(
                #[trigger] after[c]).before(after[parent(idx as int)]) by {
                    assert(after[c] == before[c]);
                    assert(!before[c].before(before[parent(c)]));
                    assert(!before[idx as int].before(before[parent(idx as int)]));
                    assert(after[parent(idx as int)] == before[parent(idx as int)]);
                }
            }
        }
        self.swim(idx);
        self.sink(idx);
    }

    /// Find next event of a specific type by scanning the array.
    pub fn peek_next_event_of_type(&self, target: EventType) -> (result: Option<(N, EventType, i32)>)
        requires
            self.wf(),
        ensures
            self@.is_answer(|t: EventType| t == target, result),
            result == answer_of(first_of(self.queue(), |t: EventType| t == target)),
    {
        let ghost wanted = |t: EventType| t == target;
        let mut best: Option<Event<N>> = None;
        let mut i: usize = 0;
        while i < self.pq.len()
            invariant
                self.wf(),
                i <= self.pq@.len(),
                wanted == (|t: EventType| t == target),
                best == first_of(self.pq@.take(i as int), wanted),
            decreases self.pq@.len() - i,
        {
            let event = self.pq[i];
            proof {
                assert(self.pq@.take(i + 1).drop_last() =~= self.pq@.take(i as int));
            }
            if event.event_type == target {
                best = Self::earlier(best, event);
            }
            i += 1;
        }
        assert(self.pq@.take(i as int) =~= self.pq@);
        proof {
            self.lemma_first_of(wanted);
        }
        Self::as_triple(best)
    }

    pub fn peek_next_arrive_event(&self) -> (result: Option<(N, EventType, i32)>)
        requires
            self.wf(),
        ensures
            self@.is_answer(|t: EventType| t == EventType::Arrive, result),
            result == answer_of(first_of(self.queue(), |t: EventType| t == EventType::Arrive)),
    {
        self.peek_next_event_of_type(EventType::Arrive)
    }

    pub fn peek_next_complete_event(&self) -> (result: Option<(N, EventType, i32)>)
        requires
            self.wf(),
        ensures
            self@.is_answer(|t: EventType| t == EventType::Complete, result),
            result == answer_of(first_of(self.queue(), |t: EventType| t == EventType::Complete)),
    {
        self.peek_next_event_of_type(EventType::Complete)
    }

    pub fn peek_next_start_event(&self) -> (result: Option<(N, EventType, i32)>)
        requires
            self.wf(),
        ensures
            self@.is_answer(|t: EventType| t == EventType::Start, result),
            result == answer_of(first_of(self.queue(), |t: EventType| t == EventType::Start)),
    {
        self.peek_next_event_of_type(EventType::Start)
    }

    pub fn peek_next_iter_comp_end_event(&self) -> (result: Option<(N, EventType, i32)>)
        requires
            self.wf(),
        ensures
            self@.is_answer(|t: EventType| t == EventType::IterCompEnd, result),
            result == answer_of(first_of(self.queue(), |t: EventType| t == EventType::IterCompEnd)),
    {
        self.peek_next_event_of_type(EventType::IterCompEnd)
    }

    pub fn peek_next_iter_comm_end_event(&self) -> (result: Option<(N, EventType, i32)>)
        requires
            self.wf(),
        ensures
            self@.is_answer(|t: EventType| t == EventType::IterCommEnd, result),
            result == answer_of(first_of(self.queue(), |t: EventType| t == EventType::IterCommEnd)),
    {
        self.peek_next_event_of_type(EventType::IterCommEnd)
    }

    /// Find next ARRIVE/START/COMPLETE event without removing it.
    pub fn peek_next_external_state_change_event(&self) -> (result: Option<(N, EventType, i32)>)
        requires
            self.wf(),
        ensures
            self@.is_answer(|t: EventType| t.external(), result),
            result == answer_of(first_of(self.queue(), |t: EventType| t.external())),
    {
        let ghost wanted = |t: EventType| t.external();
        let mut best: Option<Event<N>> = None;
        let mut i: usize = 0;
        while i < self.pq.len()
            invariant
                self.wf(),
                i <= self.pq@.len(),
                wanted == (|t: EventType| t.external()),
                best == first_of(self.pq@.take(i as int), wanted),
            decreases self.pq@.len() - i,
        {
            let event = self.pq[i];
            proof {
                assert(self.pq@.take(i + 1).drop_last() =~= self.pq@.take(i as int));
            }
            match event.event_type {
                EventType::Arrive | EventType::Start | EventType::Complete => {
                    best = Self::earlier(best, event);
                },
                _ => {},
            }
            i += 1;
        }
        assert(self.pq@.take(i as int) =~= self.pq@);
        proof {
            self.lemma_first_of(wanted);
        }
        Self::as_triple(best)
    }

    /// The better of the best entry so far and another.
    fn earlier(best: Option<Event<N>>, event: Event<N>) -> (result: Option<Event<N>>)
        ensures
            result == match best {
                None => Some(event),
                Some(so_far) => if event.before(so_far) {
                    Some(event)
                } else {
                    best
                },
            },
    {
        match best {
            None => Some(event),
            Some(so_far) => if event.less_than(&so_far) {
                Some(event)
            } else {
                best
            },
        }
    }

    /// The event of an entry, as it is handed out.
    fn as_triple(best: Option<Event<N>>) -> (result: Option<(N, EventType, i32)>)
        ensures
            result == answer_of(best),
    {
        match best {
            Some(event) => Some((event.time, event.event_type, event.job_id)),
            None => None,
        }
    }

    /// What a scan of the entries finds is a first event among those wanted.
    proof fn lemma_first_of(&self, wanted: spec_fn(EventType) -> bool)
        requires
            self.wf(),
        ensures
            self@.is_answer(wanted, answer_of(first_of(self.queue(), wanted))),
    {
        self.lemma_entries();
        let found = first_of(self.pq@, wanted);
        lemma_first_of_queue(self.pq@, wanted);
        if found is None {
            assert forall|job: i32| #[trigger] self@.events.contains_key(job) implies !wanted(self@.events[job].1) by {
                let i = choose|i: int| 0 <= i < self.queue().len() && self.queue()[i] == self@.event(job);
                assert(!wanted(self.pq@[i].event_type));
            }
        } else {
            let event = found->0;
            assert forall|job: i32|
                #[trigger] self@.events.contains_key(job) && wanted(self@.events[job].1) && self.orderly@ implies !self@.event(
                job,
            ).before(event) by {
                let i = choose|i: int| 0 <= i < self.queue().len() && self.queue()[i] == self@.event(job);
                assert(wanted(self.pq@[i].event_type));
            }
        }
    }

    /// The index of the entry of a job.
    fn index_of(&self, job_id: i32) -> (idx: usize)
        requires
            self.wf(),
            self@.events.contains_key(job_id),
        ensures
            idx < self.pq@.len(),
            self.pq@[idx as int].job_id == job_id,
            self.jobid_to_idx@[job_id] == idx,
    {
        match self.jobid_to_idx.get(&job_id) {
            Some(idx) => *idx,
            None => 0,
        }
    }

    /// Removes the last entry.
    fn take_last(&mut self) -> (event: Event<N>)
        requires
            old(self).indexed(),
            old(self).pq@.len() > 0,
        ensures
            final(self).indexed(),
            event == old(self).pq@.last(),
            final(self).pq@ == old(self).pq@.drop_last(),
            final(self)@ == old(self)@.without(event.job_id),
    {
        let event = self.pq[self.pq.len() - 1];
        let _ = self.pq.pop();
        self.jobid_to_idx.remove(&event.job_id);
        proof {
            let before = old(self).pq@;
            assert forall|job: i32| #[trigger] self.jobid_to_idx@.contains_key(job) implies
                self.jobid_to_idx@[job] < self.pq@.len() && self.pq@[self.jobid_to_idx@[job] as int].job_id == job by {
                assert(old(self).jobid_to_idx@.contains_key(job));
            }
            assert forall|i: int| 0 <= i < self.pq@.len() implies self.jobid_to_idx@.contains_key(
                (#[trigger] self.pq@[i]).job_id,
            ) && self.jobid_to_idx@[self.pq@[i].job_id] == i by {
                assert(before[i] == self.pq@[i]);
                assert(before[before.len() - 1] == event);
            }
            assert(self@.events =~= old(self)@.without(event.job_id).events);
        }
        event
    }

    // --- Heap operations ---

    /// Moves an entry toward the root until its parent does not come after it.
    fn swim(&mut self, k: usize)
        requires
            old(self).indexed(),
            k < old(self).pq@.len(),
            old(self).orderly@ ==> all_ordered(old(self).pq@) && heap_around(old(self).pq@, k as int),
        ensures
            final(self).indexed(),
            final(self)@ == old(self)@,
            final(self).pq@.len() == old(self).pq@.len(),
            final(self).orderly@ ==> all_ordered(final(self).pq@) && heap_above(
                final(self).pq@,
                k as int,
            ),
    {
        let ghost start = k as int;
        let mut k: usize = k;
        while k > 0
            invariant_except_break
                self.orderly@ ==> heap_around(self.pq@, k as int),
                self.orderly@ && k < start ==> forall|c: int|
                    0 < c < self.pq@.len() && parent(c) == k ==> !(#[trigger] self.pq@[c]).before(
                        self.pq@[k as int],
                    ),
            invariant
                self.indexed(),
                k <= start < self.pq@.len(),
                self@ == old(self)@,
                self.pq@.len() == old(self).pq@.len(),
                self.orderly@ ==> all_ordered(self.pq@),
            ensures
                self.orderly@ ==> heap_above(self.pq@, start),
            decreases k,
        {
            let up: usize = (k - 1) / 2;
            let child = self.pq[k];
            let above = self.pq[up];
            if child.less_than(&above) {
                let ghost before = self.pq@;
                self.exchange(k, up);
                proof {
                    if self.orderly@ {
                        let after = self.pq@;
                        assert forall|i: int| 0 <= i < after.len() implies (#[trigger] after[i]).time.ordered() by {
                            assert(before[i].time.ordered());
                        }
                        assert forall|c: int|
                            0 < c < after.len() && c != up && parent(c) != up implies !(#[trigger] after[c]).before(
                            after[parent(c)],
                        ) by {
                            if parent(c) == k {
                                assert(after[c] == before[c]);
                                assert(!before[c].before(before[parent(k as int)]));
                            } else {
                                assert(after[c] == before[c] && after[parent(c)] == before[parent(c)]);
                            }
                        }
                        assert forall|c: int| 0 < c < after.len() && parent(c) == up && 0 < up implies !(
                        #[trigger] after[c]).before(after[parent(up as int)]) by {
                            assert(!before[up as int].before(before[parent(up as int)]));
                            if c != k {
                                assert(after[c] == before[c]);
                                assert(!before[c].before(before[parent(c)]));
                            }
                        }
                        assert forall|c: int| 0 < c < after.len() && parent(c) == up implies !(#[trigger] after[c]).before(
                            after[up as int],
                        ) by {
                            if c != k {
                                assert(after[c] == before[c]);
                                assert(!before[c].before(before[parent(c)]));
                            }
                        }
                    }
                }
                k = up;
            } else {
                proof {
                    if self.orderly@ {
                        self.lemma_settled(k as int, start);
                    }
                }
                break;
            }
        }
    }

    /// Where an entry that moved up from `start` has come to rest, the queue is
    /// a heap but for the children of `start`.
    proof fn lemma_settled(&self, k: int, start: int)
        requires
            0 <= k <= start < self.pq@.len(),
            all_ordered(self.pq@),
            heap_around(self.pq@, k),
            k > 0 ==> !self.pq@[k].before(self.pq@[parent(k)]),
            k < start ==> forall|c: int|
                0 < c < self.pq@.len() && parent(c) == k ==> !(#[trigger] self.pq@[c]).before(self.pq@[k]),
        ensures
            heap_above(self.pq@, start),
    {
        let queue = self.pq@;
        assert forall|c: int| 0 < c < queue.len() && parent(c) != start implies !(#[trigger] queue[c]).before(
            queue[parent(c)],
        ) by {}
        if k < start {
            assert(is_heap(queue));
            assert forall|c: int| 0 < c < queue.len() && parent(c) == start && 0 < start implies !(
            #[trigger] queue[c]).before(queue[parent(start)]) by {
                assert(!queue[c].before(queue[parent(c)]));
                assert(!queue[start].before(queue[parent(start)]));
            }
        }
    }

    /// Moves an entry away from the root until no child comes before it.
    fn sink(&mut self, k: usize)
        requires
            old(self).indexed(),
            k < old(self).pq@.len(),
            old(self).orderly@ ==> all_ordered(old(self).pq@) && heap_above(old(self).pq@, k as int),
        ensures
            final(self).indexed(),
            final(self)@ == old(self)@,
            final(self).pq@.len() == old(self).pq@.len(),
            final(self).orderly@ ==> all_ordered(final(self).pq@) && is_heap(final(self).pq@),
    {
        let mut k: usize = k;
        let n: usize = self.pq.len();
        while k < n / 2
            invariant_except_break
                self.orderly@ ==> heap_above(self.pq@, k as int),
            invariant
                self.indexed(),
                k < n == self.pq@.len(),
                self@ == old(self)@,
                self.pq@.len() == old(self).pq@.len(),
                self.orderly@ ==> all_ordered(self.pq@),
            ensures
                self.orderly@ ==> is_heap(self.pq@),
            decreases n - k,
        {
            let mut j: usize = 2 * k + 1;
            if j + 1 < n {
                let other = self.pq[j + 1];
                let one = self.pq[j];
                if other.less_than(&one) {
                    j += 1;
                }
            }
            let child = self.pq[j];
            let above = self.pq[k];
            proof {
                if self.orderly@ {
                    assert forall|c: int| 0 < c < n && parent(c) == k implies !(#[trigger] self.pq@[c]).before(child) by {
                        assert(c == 2 * k + 1 || c == 2 * k + 2);
                    }
                }
            }
            if child.less_than(&above) {
                let ghost before = self.pq@;
                self.exchange(k, j);
                proof {
                    if self.orderly@ {
                        lemma_sink_step(before, self.pq@, k as int, j as int);
                    }
                }
                k = j;
            } else {
                proof {
                    if self.orderly@ {
                        lemma_sink_done(self.pq@, k as int, j as int);
                    }
                }
                break;
            }
        }
    }

    /// Swaps two entries.
    fn exchange(&mut self, i: usize, j: usize)
        requires
            old(self).indexed(),
            i < old(self).pq@.len(),
            j < old(self).pq@.len(),
        ensures
            final(self).indexed(),
            final(self)@ == old(self)@,
            final(self).pq@ == old(self).pq@.update(i as int, old(self).pq@[j as int]).update(
                j as int,
                old(self).pq@[i as int],
            ),
    {
        let event_i = self.pq[i];
        let event_j = self.pq[j];
        self.jobid_to_idx.insert(event_i.job_id, j);
        self.jobid_to_idx.insert(event_j.job_id, i);
        self.pq.set(i, event_j);
        self.pq.set(j, event_i);
        assert(self@.events =~= old(self)@.events);
    }
}

/// A scan finds an entry of the wanted types where there is one, and none of
/// them comes before it where every time is ordered.
proof fn lemma_first_of_queue<N: Scalar>(queue: Seq<Event<N>>, wanted: spec_fn(EventType) -> bool)
    ensures
        match first_of(queue, wanted) {
            None => forall|i: int| 0 <= i < queue.len() ==> !wanted((#[trigger] queue[i]).event_type),
            Some(event) => {
                &&& wanted(event.event_type)
                &&& exists|i: int| 0 <= i < queue.len() && queue[i] == event
                &&& all_ordered(queue) ==> forall|i: int|
                    0 <= i < queue.len() && wanted((#[trigger] queue[i]).event_type) ==> !queue[i].before(event)
            },
        },
    decreases queue.len(),
{
    if queue.len() > 0 {
        let rest = queue.drop_last();
        lemma_first_of_queue(rest, wanted);
        assert forall|i: int| 0 <= i < rest.len() implies rest[i] == #[trigger] queue[i] by {}
        assert(queue[queue.len() - 1] == queue.last());
        if first_of(rest, wanted) is Some {
            let event = first_of(rest, wanted)->0;
            let i = choose|i: int| 0 <= i < rest.len() && rest[i] == event;
            assert(queue[i] == event);
        }
        if all_ordered(queue) {
            assert forall|i: int| 0 <= i < rest.len() implies (#[trigger] rest[i]).time.ordered() by {
                assert(queue[i].time.ordered());
            }
        }
    }
}

/// Events that are taken out one after the other come in their order: none comes before
/// the one that was taken out before it.
pub proof fn events_come_in_order<N: Scalar>(
    timer: TimerModel<N>,
    first: (N, EventType, i32),
    second: (N, EventType, i32),
)
    requires
        timer.orderly,
        timer.is_first(|t: EventType| true, first),
        timer.without(first.2).is_first(|t: EventType| true, second),
    ensures
        !timer.event(second.2).before(timer.event(first.2)),
        first.2 != second.2,
{
    let any = |t: EventType| true;
    assert(timer.events.contains_key(second.2));
    assert(any(timer.events[second.2].1));
}

/// A queue of arrivals hands the jobs out in the order in which they were entered.
pub proof fn arrivals_come_first_in_first_out<N: Scalar>(timer: TimerModel<N>, job: i32)
    ensures
        timer.with_arrival(job).arrivals.last() == job,
        timer.arrivals.len() > 0 ==> {
            &&& timer.with_arrival(job).arrivals[0] == timer.arrivals[0]
            &&& timer.with_arrival(job).without_arrival() == timer.without_arrival().with_arrival(
                job,
            )
        },
        timer.arrivals.len() == 0 ==> {
            &&& timer.with_arrival(job).arrivals[0] == job
            &&& timer.with_arrival(job).without_arrival() == timer
        },
{
    let longer = timer.with_arrival(job);
    if timer.arrivals.len() > 0 {
        assert(longer.arrivals.drop_first() =~= timer.arrivals.drop_first().push(job));
    } else {
        assert(longer.arrivals.drop_first() =~= timer.arrivals);
    }
}

/// Taking a job's event out undoes entering it.
pub proof fn removing_undoes_adding<N: Scalar>(
    timer: TimerModel<N>,
    time: N,
    event_type: EventType,
    job: i32,
)
    requires
        !timer.events.contains_key(job),
    ensures
        timer.with_event(time, event_type, job).without(job).events == timer.events,
        timer.with_event(time, event_type, job).without(job).arrivals == timer.arrivals,
{
    assert(timer.with_event(time, event_type, job).without(job).events =~= timer.events);
}

/// An event comes first that no event precedes in time. Of those at one instant, completions come
/// before the ends of communication, these before the ends of computing, these before starts and
/// these before arrivals.
pub proof fn events_of_one_instant_come_by_type<N: Scalar>(
    timer: TimerModel<N>,
    first: (N, EventType, i32),
    other: i32,
)
    requires
        timer.orderly,
        timer.is_first(|t: EventType| true, first),
        timer.events.contains_key(other),
    ensures
        ({
            let time = timer.events[other].0;
            let kind = timer.events[other].1;
            let same = time.ordered() && first.0.ordered() && time.rank() == first.0.rank();
            &&& timer.events[first.2] == (first.0, first.1)
            &&& !(time.ordered() && first.0.ordered() && time.rank() < first.0.rank())
            &&& same && first.1 == EventType::IterCommEnd ==> kind != EventType::Complete
            &&& same && first.1 == EventType::IterCompEnd ==> kind != EventType::Complete && kind
                != EventType::IterCommEnd
            &&& same && first.1 == EventType::Start ==> kind == EventType::Start || kind
                == EventType::Arrive
            &&& same && first.1 == EventType::Arrive ==> kind == EventType::Arrive
        }),
{
    let any = |t: EventType| true;
    assert(any(timer.events[other].1));
    assert(!timer.event(other).before(timer.event(first.2)));
}

} // verus!
