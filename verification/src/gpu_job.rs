//! Job model and bandwidth demand.

use std::collections::HashMap;
use vstd::prelude::*;

use crate::lists::{
    amounts, count_of, distinct, lemma_distinct, lemma_occurrences, lemma_occurrences_add_up,
    occurrences,
};
use crate::rounding::{
    lemma_compared, lemma_difference_near, lemma_integer_value, lemma_positive_part,
    lemma_product_near, lemma_quotient_near, lemma_real_product, lemma_sum_near,
    lemma_sum_of_integers, lemma_sum_scaled, lemma_sums_near, near,
    positive_part, real_sum, rounds, stands_for, EXACT_INTEGER,
};
use crate::scalar::{
    clamped, larger, less, max_of, truncating_quotient, zero, Scalar, Ticks,
};

verus! {

broadcast use vstd::std_specs::hash::group_hash_axioms;

/// What a job is doing.
#[derive(Clone, Copy, Debug, PartialEq, Eq, Structural)]
pub enum Phase {
    Loading,
    Compute,
    Comm,
    Completed,
}

impl Phase {
    /// The name of the phase.
    pub open spec fn name(self) -> Seq<char> {
        match self {
            Phase::Loading => "loading"@,
            Phase::Compute => "compute"@,
            Phase::Comm => "comm"@,
            Phase::Completed => "completed"@,
        }
    }

    /// The name of the phase.
    pub fn as_str(&self) -> (result: &'static str)
        ensures
            result@ == self.name(),
    {
        match self {
            Phase::Loading => "loading",
            Phase::Compute => "compute",
            Phase::Comm => "comm",
            Phase::Completed => "completed",
        }
    }
}

/// A GPU training job in the cluster simulator.
///
/// Jobs are kept in a `Vec<GpuJob>` and referred to by index.
#[derive(Clone)]
pub struct GpuJob<N> {
    // Set at creation
    pub job_id: i32,
    pub model: String,
    pub iteration_number: N,
    pub iteration_computing_time: N,
    pub iteration_networking_time: N,
    pub gpu_workers: i32,
    pub ps: i32,
    pub gpu_per_worker: i32,
    pub cpu_per_gpu_worker: i32,
    pub cpu_per_ps: i32,
    pub tensorsizes: N,
    pub skewness: N,
    /// C_j
    pub profiled_network: N,
    pub loading_time: N,
    pub arrival_time: N,
    // Changed by the simulation
    pub temp_arrival_time: N,
    /// Servers where GPU workers are placed, one for each worker.
    pub allocated: Vec<i32>,
    /// Servers where parameter servers are placed, one for each.
    pub ps_allocated: Vec<i32>,
    pub start_time: Option<N>,
    pub end_time: Option<N>,
    pub wait_time: Option<N>,
    pub queueing_wait_time: Option<N>,
    pub capacity_wait_time: Option<N>,
    pub placement_wait_time: Option<N>,
    pub queue_head_time: Option<N>,
    pub capacity_met_time: Option<N>,
    pub training_time: Option<N>,
    pub consumed_compute_time: Option<N>,
    pub consumed_comms_time: Option<N>,
    pub consumed_loading_time: Option<N>,
    pub remaining_train_time: Option<N>,
    pub completed_iterations: Option<N>,
    pub last_change_time: Option<N>,
    pub last_network_factor: Option<N>,
    /// Bandwidth in use on each server.
    pub using_bandwidths: HashMap<i32, N>,
    // Phase tracking for the models that split iterations
    pub current_iteration: i64,
    pub current_phase: Phase,
    pub phase_start_time: Option<N>,
    pub is_in_comm_phase: bool,
    // Progress of the communication phase
    /// (start_time, end_time, contention_factor)
    pub comm_phase_segments: Vec<(N, N, N)>,
    pub comm_phase_original_done: N,
    pub comm_phase_current_start: Option<N>,
    pub comm_phase_current_contention: Option<N>,
    /// (server, gpu) of each GPU, for the models that look inside a server.
    pub gpu_allocation: Vec<(i32, i32)>,
}

/// The state of a job.
#[verifier::ext_equal]
pub struct JobModel<N> {
    pub job_id: i32,
    pub model: Seq<char>,
    pub iteration_number: N,
    pub iteration_computing_time: N,
    pub iteration_networking_time: N,
    pub gpu_workers: i32,
    pub ps: i32,
    pub gpu_per_worker: i32,
    pub cpu_per_gpu_worker: i32,
    pub cpu_per_ps: i32,
    pub tensorsizes: N,
    pub skewness: N,
    pub profiled_network: N,
    pub loading_time: N,
    pub arrival_time: N,
    pub temp_arrival_time: N,
    pub allocated: Seq<i32>,
    pub ps_allocated: Seq<i32>,
    pub start_time: Option<N>,
    pub end_time: Option<N>,
    pub wait_time: Option<N>,
    pub queueing_wait_time: Option<N>,
    pub capacity_wait_time: Option<N>,
    pub placement_wait_time: Option<N>,
    pub queue_head_time: Option<N>,
    pub capacity_met_time: Option<N>,
    pub training_time: Option<N>,
    pub consumed_compute_time: Option<N>,
    pub consumed_comms_time: Option<N>,
    pub consumed_loading_time: Option<N>,
    pub remaining_train_time: Option<N>,
    pub completed_iterations: Option<N>,
    pub last_change_time: Option<N>,
    pub last_network_factor: Option<N>,
    pub using_bandwidths: Map<i32, N>,
    pub current_iteration: i64,
    pub current_phase: Phase,
    pub phase_start_time: Option<N>,
    pub is_in_comm_phase: bool,
    pub comm_phase_segments: Seq<(N, N, N)>,
    pub comm_phase_original_done: N,
    pub comm_phase_current_start: Option<N>,
    pub comm_phase_current_contention: Option<N>,
    pub gpu_allocation: Seq<(i32, i32)>,
}

impl<N> View for GpuJob<N> {
    type V = JobModel<N>;

    open spec fn view(&self) -> JobModel<N> {
        JobModel {
            job_id: self.job_id,
            model: self.model@,
            iteration_number: self.iteration_number,
            iteration_computing_time: self.iteration_computing_time,
            iteration_networking_time: self.iteration_networking_time,
            gpu_workers: self.gpu_workers,
            ps: self.ps,
            gpu_per_worker: self.gpu_per_worker,
            cpu_per_gpu_worker: self.cpu_per_gpu_worker,
            cpu_per_ps: self.cpu_per_ps,
            tensorsizes: self.tensorsizes,
            skewness: self.skewness,
            profiled_network: self.profiled_network,
            loading_time: self.loading_time,
            arrival_time: self.arrival_time,
            temp_arrival_time: self.temp_arrival_time,
            allocated: self.allocated@,
            ps_allocated: self.ps_allocated@,
            start_time: self.start_time,
            end_time: self.end_time,
            wait_time: self.wait_time,
            queueing_wait_time: self.queueing_wait_time,
            capacity_wait_time: self.capacity_wait_time,
            placement_wait_time: self.placement_wait_time,
            queue_head_time: self.queue_head_time,
            capacity_met_time: self.capacity_met_time,
            training_time: self.training_time,
            consumed_compute_time: self.consumed_compute_time,
            consumed_comms_time: self.consumed_comms_time,
            consumed_loading_time: self.consumed_loading_time,
            remaining_train_time: self.remaining_train_time,
            completed_iterations: self.completed_iterations,
            last_change_time: self.last_change_time,
            last_network_factor: self.last_network_factor,
            using_bandwidths: self.using_bandwidths@,
            current_iteration: self.current_iteration,
            current_phase: self.current_phase,
            phase_start_time: self.phase_start_time,
            is_in_comm_phase: self.is_in_comm_phase,
            comm_phase_segments: self.comm_phase_segments@,
            comm_phase_original_done: self.comm_phase_original_done,
            comm_phase_current_start: self.comm_phase_current_start,
            comm_phase_current_contention: self.comm_phase_current_contention,
            gpu_allocation: self.gpu_allocation@,
        }
    }
}

/// A count as a number.
pub open spec fn number<N: Scalar>(count: nat) -> N {
    N::integer(clamped(count as int))
}

/// The value of an option, or another where it has none.
pub open spec fn value_or<N>(value: Option<N>, default: N) -> N {
    match value {
        Some(value) => value,
        None => default,
    }
}

impl<N: Scalar> JobModel<N> {
    /// A job that has not arrived yet.
    pub open spec fn fresh(
        job_id: i32,
        model: Seq<char>,
        arrival_time: N,
        iteration_number: N,
        iteration_computing_time: N,
        iteration_networking_time: N,
        gpu_workers: i32,
        ps: i32,
        gpu_per_worker: i32,
        cpu_per_gpu_worker: i32,
        cpu_per_ps: i32,
        tensorsizes: N,
        skewness: N,
        profiled_network: N,
        loading_time: N,
    ) -> JobModel<N> {
        JobModel {
            job_id,
            model,
            iteration_number,
            iteration_computing_time,
            iteration_networking_time,
            gpu_workers,
            ps,
            gpu_per_worker,
            cpu_per_gpu_worker,
            cpu_per_ps,
            tensorsizes,
            skewness,
            profiled_network,
            loading_time,
            arrival_time,
            temp_arrival_time: arrival_time,
            allocated: Seq::empty(),
            ps_allocated: Seq::empty(),
            start_time: None,
            end_time: None,
            wait_time: None,
            queueing_wait_time: None,
            capacity_wait_time: None,
            placement_wait_time: None,
            queue_head_time: None,
            capacity_met_time: None,
            training_time: None,
            consumed_compute_time: None,
            consumed_comms_time: None,
            consumed_loading_time: None,
            remaining_train_time: None,
            completed_iterations: None,
            last_change_time: None,
            last_network_factor: None,
            using_bandwidths: Map::empty(),
            current_iteration: 0,
            current_phase: Phase::Loading,
            phase_start_time: None,
            is_in_comm_phase: false,
            comm_phase_segments: Seq::empty(),
            comm_phase_original_done: zero(),
            comm_phase_current_start: None,
            comm_phase_current_contention: None,
            gpu_allocation: Seq::empty(),
        }
    }

    /// The bandwidth that the job asks of a server's network.
    pub open spec fn demand(self, server: i32) -> N {
        let workers_inside = occurrences(self.allocated, server);
        let workers = N::integer(self.gpu_workers as i64);
        if self.ps > 0 {
            let ps = N::integer(self.ps as i64);
            let ps_inside = number::<N>(occurrences(self.ps_allocated, server));
            let ps_outside = ps.difference(ps_inside);
            let inside = number::<N>(workers_inside);
            let outside = workers.difference(inside);
            self.profiled_network.product(
                ps_inside.product(outside).sum(ps_outside.product(inside)),
            ).quotient(ps.product(workers))
        } else if self.gpu_workers == workers_inside || self.gpu_workers < 2 {
            zero()
        } else if self.gpu_workers == 2 {
            self.profiled_network.quotient(workers)
        } else {
            N::integer(2).product(self.profiled_network).quotient(workers)
        }
    }

    /// The bandwidth that the job asks inside a server.
    pub open spec fn intra_demand(self, server: i32) -> N {
        let inside = occurrences(self.allocated, server);
        if self.gpu_workers <= 0 || inside == 0 {
            zero()
        } else if inside == self.gpu_workers {
            self.profiled_network
        } else {
            self.profiled_network.product(number(inside)).quotient(
                N::integer(self.gpu_workers as i64),
            )
        }
    }

    /// Where the current segment of the communication phase started.
    pub open spec fn segment_start(self, current_time: N) -> N {
        value_or(self.comm_phase_current_start, current_time)
    }

    /// The uncontended communication time that the current segment has done.
    pub open spec fn segment_progress(self, current_time: N) -> N {
        match self.comm_phase_current_contention {
            Some(contention) if less(zero(), contention) => current_time.difference(
                self.segment_start(current_time),
            ).quotient(contention),
            _ => zero(),
        }
    }

    /// The job with the current segment of its communication phase closed.
    pub open spec fn segment_closed(self, current_time: N) -> JobModel<N> {
        JobModel {
            comm_phase_segments: self.comm_phase_segments.push(
                (
                    self.segment_start(current_time),
                    current_time,
                    value_or(self.comm_phase_current_contention, zero()),
                ),
            ),
            comm_phase_original_done: self.comm_phase_original_done.sum(
                self.segment_progress(current_time),
            ),
            ..self
        }
    }

    /// The job at the start of a communication phase.
    pub open spec fn comm_started(self, current_time: N, contention: N) -> JobModel<N> {
        JobModel {
            current_phase: Phase::Comm,
            is_in_comm_phase: true,
            phase_start_time: Some(current_time),
            comm_phase_segments: Seq::empty(),
            comm_phase_original_done: zero(),
            comm_phase_current_start: Some(current_time),
            comm_phase_current_contention: Some(contention),
            ..self
        }
    }

    /// The job with another contention factor from now on.
    pub open spec fn contention_updated(self, current_time: N, contention: N) -> JobModel<N> {
        if !self.is_in_comm_phase {
            self
        } else {
            JobModel {
                comm_phase_current_start: Some(current_time),
                comm_phase_current_contention: Some(contention),
                ..self.segment_closed(current_time)
            }
        }
    }

    /// The uncontended communication time that is left of the phase.
    pub open spec fn comm_remaining(self, current_time: N) -> N {
        if !self.is_in_comm_phase {
            zero()
        } else {
            larger(
                self.iteration_networking_time.difference(
                    self.comm_phase_original_done.sum(self.segment_progress(current_time)),
                ),
                zero(),
            )
        }
    }

    /// The job at the end of a communication phase.
    pub open spec fn comm_finished(self, current_time: N) -> JobModel<N> {
        if !self.is_in_comm_phase {
            self
        } else {
            JobModel {
                consumed_comms_time: match self.consumed_comms_time {
                    Some(consumed) => Some(
                        consumed.sum(
                            current_time.difference(value_or(self.phase_start_time, current_time)),
                        ),
                    ),
                    None => None,
                },
                is_in_comm_phase: false,
                ..self.segment_closed(current_time)
            }
        }
    }
}

impl<N: Scalar> GpuJob<N> {
    /// A job that has not arrived yet.
    pub fn new(
        job_id: i32,
        model: String,
        arrival_time: N,
        iteration_number: N,
        iteration_computing_time: N,
        iteration_networking_time: N,
        gpu_workers: i32,
        ps: i32,
        gpu_per_worker: i32,
        cpu_per_gpu_worker: i32,
        cpu_per_ps: i32,
        tensorsizes: N,
        skewness: N,
        profiled_network: N,
        loading_time: N,
    ) -> (job: Self)
        ensures
            job@ == JobModel::fresh(
                job_id,
                model@,
                arrival_time,
                iteration_number,
                iteration_computing_time,
                iteration_networking_time,
                gpu_workers,
                ps,
                gpu_per_worker,
                cpu_per_gpu_worker,
                cpu_per_ps,
                tensorsizes,
                skewness,
                profiled_network,
                loading_time,
            ),
    {
        GpuJob {
            job_id,
            model,
            iteration_number,
            iteration_computing_time,
            iteration_networking_time,
            gpu_workers,
            ps,
            gpu_per_worker,
            cpu_per_gpu_worker,
            cpu_per_ps,
            tensorsizes,
            skewness,
            profiled_network,
            loading_time,
            arrival_time,
            temp_arrival_time: arrival_time,
            allocated: Vec::new(),
            ps_allocated: Vec::new(),
            start_time: None,
            end_time: None,
            wait_time: None,
            queueing_wait_time: None,
            capacity_wait_time: None,
            placement_wait_time: None,
            queue_head_time: None,
            capacity_met_time: None,
            training_time: None,
            consumed_compute_time: None,
            consumed_comms_time: None,
            consumed_loading_time: None,
            remaining_train_time: None,
            completed_iterations: None,
            last_change_time: None,
            last_network_factor: None,
            using_bandwidths: HashMap::new(),
            current_iteration: 0,
            current_phase: Phase::Loading,
            phase_start_time: None,
            is_in_comm_phase: false,
            comm_phase_segments: Vec::new(),
            comm_phase_original_done: N::of_int(0),
            comm_phase_current_start: None,
            comm_phase_current_contention: None,
            gpu_allocation: Vec::new(),
        }
    }

    /// Calculate required bandwidth for the job on server `server`.
    pub fn required_bandwidth(&self, server: i32) -> (result: N)
        ensures
            result == self@.demand(server),
    {
        let c_j: N = self.profiled_network;
        let workers: N = N::of_int(self.gpu_workers as i64);
        let num_wk_inside: i64 = count_of(&self.allocated, server);
        if self.ps > 0 {
            // PS model
            let ps: N = N::of_int(self.ps as i64);
            let ps_inside: N = N::of_int(count_of(&self.ps_allocated, server));
            let ps_outside: N = ps.minus(ps_inside);
            let wk_inside: N = N::of_int(num_wk_inside);
            let wk_outside: N = workers.minus(wk_inside);
            c_j.times(ps_inside.times(wk_outside).plus(ps_outside.times(wk_inside))).over(
                ps.times(workers),
            )
        } else if self.gpu_workers as i64 == num_wk_inside {
            N::of_int(0)
        } else if self.gpu_workers < 2 {
            N::of_int(0)
        } else if self.gpu_workers == 2 {
            c_j.over(workers)
        } else {
            // AllReduce over more than two workers
            N::of_int(2).times(c_j).over(workers)
        }
    }

    /// Calculate required intra-server bandwidth for a specific server.
    pub fn required_intra_bandwidth_per_server(&self, server: i32) -> (result: N)
        ensures
            result == self@.intra_demand(server),
    {
        if self.gpu_workers <= 0 {
            return N::of_int(0);
        }
        let num_workers_on_server: i64 = count_of(&self.allocated, server);
        if num_workers_on_server == 0 {
            return N::of_int(0);
        }
        if num_workers_on_server == self.gpu_workers as i64 {
            return self.profiled_network;
        }
        self.profiled_network.times(N::of_int(num_workers_on_server)).over(
            N::of_int(self.gpu_workers as i64),
        )
    }

    /// Initialize communication phase with accurate progress tracking.
    pub fn start_comm_phase(&mut self, current_time: N, initial_contention: N)
        ensures
            final(self)@ == old(self)@.comm_started(current_time, initial_contention),
    {
        self.current_phase = Phase::Comm;
        self.is_in_comm_phase = true;
        self.phase_start_time = Some(current_time);
        self.comm_phase_segments.clear();
        self.comm_phase_original_done = N::of_int(0);
        self.comm_phase_current_start = Some(current_time);
        self.comm_phase_current_contention = Some(initial_contention);
    }

    /// The uncontended communication time that the current segment has done.
    fn current_segment_progress(&self, current_time: N) -> (result: N)
        ensures
            result == self@.segment_progress(current_time),
    {
        let segment_start: N = match self.comm_phase_current_start {
            Some(start) => start,
            None => current_time,
        };
        match self.comm_phase_current_contention {
            Some(contention) => {
                if N::of_int(0).is_less(contention) {
                    current_time.minus(segment_start).over(contention)
                } else {
                    N::of_int(0)
                }
            },
            None => N::of_int(0),
        }
    }

    /// Closes the current segment of the communication phase.
    fn close_segment(&mut self, current_time: N)
        ensures
            final(self)@ == old(self)@.segment_closed(current_time),
    {
        let progress: N = self.current_segment_progress(current_time);
        let segment_start: N = match self.comm_phase_current_start {
            Some(start) => start,
            None => current_time,
        };
        let contention: N = match self.comm_phase_current_contention {
            Some(contention) => contention,
            None => N::of_int(0),
        };
        self.comm_phase_segments.push((segment_start, current_time, contention));
        self.comm_phase_original_done = self.comm_phase_original_done.plus(progress);
    }

    /// Update contention factor during communication phase.
    pub fn update_comm_contention(&mut self, current_time: N, new_contention: N)
        ensures
            final(self)@ == old(self)@.contention_updated(current_time, new_contention),
    {
        if !self.is_in_comm_phase {
            return;
        }
        self.close_segment(current_time);
        self.comm_phase_current_start = Some(current_time);
        self.comm_phase_current_contention = Some(new_contention);
    }

    /// Calculate remaining original communication time.
    pub fn get_comm_remaining_original(&self, current_time: N) -> (result: N)
        ensures
            result == self@.comm_remaining(current_time),
    {
        if !self.is_in_comm_phase {
            return N::of_int(0);
        }
        let total_progress: N = self.comm_phase_original_done.plus(
            self.current_segment_progress(current_time),
        );
        max_of(self.iteration_networking_time.minus(total_progress), N::of_int(0))
    }

    /// Finalize communication phase when it completes.
    pub fn finish_comm_phase(&mut self, current_time: N)
        ensures
            final(self)@ == old(self)@.comm_finished(current_time),
    {
        if !self.is_in_comm_phase {
            return;
        }
        self.close_segment(current_time);
        // Update consumed time (total elapsed time with slowdown)
        let phase_start: N = match self.phase_start_time {
            Some(start) => start,
            None => current_time,
        };
        let total_elapsed: N = current_time.minus(phase_start);
        match self.consumed_comms_time {
            Some(consumed) => {
                self.consumed_comms_time = Some(consumed.plus(total_elapsed));
            },
            None => {},
        }
        self.is_in_comm_phase = false;
    }
}

/// Nothing over a positive number of ticks is nothing.
proof fn lemma_nothing_over(ticks: Ticks)
    requires
        ticks.count > 0,
    ensures
        (Ticks { count: 0 }).quotient(ticks) == (Ticks { count: 0 }),
{
    assert(0int / ticks.count as int == 0) by (nonlinear_arith)
        requires
            ticks.count > 0,
    ;
    assert(truncating_quotient(0, ticks.count as int) == 0);
}

/// A change of contention does not change how much is left of a communication phase at
/// that instant. From then on, what is left falls by the time that goes by over the new
/// contention factor, down to nothing.
pub proof fn contention_change_keeps_what_is_left(
    job: JobModel<Ticks>,
    current_time: Ticks,
    contention: Ticks,
    later: Ticks,
)
    requires
        job.is_in_comm_phase,
        contention.count > 0,
        later.count >= current_time.count,
        job.comm_phase_original_done.sum(job.segment_progress(current_time)).count >= 0,
    ensures
        ({
            let after = job.contention_updated(current_time, contention);
            let left = job.comm_remaining(current_time);
            &&& after.comm_remaining(current_time) == left
            &&& after.comm_remaining(later) == larger(
                left.difference(later.difference(current_time).quotient(contention)),
                zero(),
            )
        }),
{
    let after = job.contention_updated(current_time, contention);
    let none = Ticks { count: 0 };
    let gone = later.difference(current_time).quotient(contention);
    assert(current_time.difference(current_time) == none);
    lemma_nothing_over(contention);
    assert(after.segment_progress(current_time) == none);
    assert(after.comm_phase_original_done.sum(none) == after.comm_phase_original_done);
    assert(after.segment_progress(later) == gone);
    let passed = later.difference(current_time).count as int;
    assert(passed >= 0);
    assert(0 <= passed / contention.count as int <= passed) by (nonlinear_arith)
        requires
            passed >= 0,
            contention.count > 0,
    ;
    assert(gone.count >= 0);
}

/// A change of contention concerns a job that communicates only, and leaves the start of its
/// phase and the time that it consumed as they were.
pub proof fn contention_change_keeps_the_phase<N: Scalar>(
    job: JobModel<N>,
    current_time: N,
    contention: N,
)
    ensures
        ({
            let after = job.contention_updated(current_time, contention);
            &&& !job.is_in_comm_phase ==> after == job
            &&& after.is_in_comm_phase == job.is_in_comm_phase
            &&& after.phase_start_time == job.phase_start_time
            &&& after.consumed_comms_time == job.consumed_comms_time
        }),
{
}

/// At the start of a communication phase all of it is left.
pub proof fn all_is_left_at_the_start(
    job: JobModel<Ticks>,
    current_time: Ticks,
    contention: Ticks,
)
    requires
        contention.count > 0,
        job.iteration_networking_time.count >= 0,
    ensures
        job.comm_started(current_time, contention).comm_remaining(current_time)
            == job.iteration_networking_time,
{
    let after = job.comm_started(current_time, contention);
    let none = Ticks { count: 0 };
    assert(current_time.difference(current_time) == none);
    lemma_nothing_over(contention);
    assert(after.segment_progress(current_time) == none);
}

/// A job whose workers are all on one server asks nothing of its network, and one
/// with parameter servers neither where these are on the same server.
pub proof fn colocated_jobs_ask_for_nothing(job: JobModel<Ticks>, server: i32)
    requires
        occurrences(job.allocated, server) == job.gpu_workers,
        job.ps <= 0 || occurrences(job.ps_allocated, server) == job.ps,
    ensures
        job.demand(server) == (Ticks { count: 0 }),
{
    if job.ps > 0 {
        let ps = Ticks { count: job.ps as i64 };
        let workers = Ticks { count: job.gpu_workers as i64 };
        let none = Ticks { count: 0 };
        assert(ps.difference(ps) == none && workers.difference(workers) == none);
        assert(ps.product(none) == none && none.product(workers) == none) by {
            assert(job.ps * 0 == 0 && 0 * job.gpu_workers == 0);
        }
        assert(none.sum(none) == none);
        assert(job.profiled_network.product(none) == none) by {
            assert(job.profiled_network.count * 0 == 0);
        }
        let whole = ps.product(workers);
        assert(none.quotient(whole) == none) by {
            if whole.count != 0 {
                let size = vstd::math::abs(whole.count as int) as int;
                assert(0int / size == 0) by (nonlinear_arith)
                    requires
                        size > 0,
                ;
            }
        }
    }
}

/// What a job asks inside a server is its share of its communication, by its workers on the
/// server, rounded down.
proof fn lemma_intra_share(job: JobModel<Ticks>, server: i32)
    requires
        job.gpu_workers > 0,
        job.allocated.len() == job.gpu_workers,
        job.profiled_network.count >= 0,
        job.profiled_network.count * job.gpu_workers <= i64::MAX,
    ensures
        ({
            let inside = occurrences(job.allocated, server) as int;
            let whole = job.profiled_network.count * inside;
            let share = job.intra_demand(server).count as int;
            &&& 0 <= inside <= job.gpu_workers
            &&& 0 <= share <= job.profiled_network.count
            &&& job.gpu_workers * share <= whole < job.gpu_workers * share + job.gpu_workers
            &&& inside == 0 ==> share == 0
        }),
{
    let inside = occurrences(job.allocated, server) as int;
    let network = job.profiled_network.count as int;
    let workers = job.gpu_workers as int;
    let share = job.intra_demand(server).count as int;
    lemma_occurrences(job.allocated, server);
    assert(0 <= network * inside <= network * workers) by (nonlinear_arith)
        requires
            0 <= inside <= workers,
            network >= 0,
    ;
    if inside == 0 {
        assert(network * inside == 0 && workers * share == 0) by (nonlinear_arith)
            requires
                inside == 0,
                share == 0,
        ;
    } else if inside == workers {
        assert(workers * share == network * inside) by (nonlinear_arith)
            requires
                inside == workers,
                share == network,
        ;
    } else {
        let whole = network * inside;
        assert(share == whole / workers);
        assert(0 <= share <= network && workers * share <= whole < workers * share + workers)
            by (nonlinear_arith)
            requires
                share == whole / workers,
                0 <= whole <= network * workers,
                workers > 0,
        ;
    }
}

proof fn lemma_intra_shares(job: JobModel<Ticks>, servers: Seq<i32>)
    requires
        job.gpu_workers > 0,
        job.allocated.len() == job.gpu_workers,
        job.profiled_network.count >= 0,
        job.profiled_network.count * job.gpu_workers <= i64::MAX,
    ensures
        ({
            let inside = amounts(servers, |s: i32| occurrences(job.allocated, s) as int);
            let whole = job.profiled_network.count * inside;
            let shares = amounts(servers, |s: i32| job.intra_demand(s).count as int);
            &&& job.gpu_workers * shares <= whole
            &&& whole <= job.gpu_workers * shares + (job.gpu_workers - 1) * servers.len()
        }),
    decreases servers.len(),
{
    let network = job.profiled_network.count as int;
    let workers = job.gpu_workers as int;
    if servers.len() > 0 {
        let rest = servers.drop_last();
        let last = servers.last();
        lemma_intra_shares(job, rest);
        lemma_intra_share(job, last);
        let a = amounts(rest, |s: i32| occurrences(job.allocated, s) as int);
        let b = occurrences(job.allocated, last) as int;
        let c = amounts(rest, |s: i32| job.intra_demand(s).count as int);
        let d = job.intra_demand(last).count as int;
        let n = rest.len() as int;
        assert(network * (a + b) == network * a + network * b && workers * (c + d) == workers * c
            + workers * d && (workers - 1) * (n + 1) == (workers - 1) * n + (workers - 1))
            by (nonlinear_arith);
    } else {
        assert(network * 0 == 0 && workers * 0 == 0 && (workers - 1) * 0 == 0);
    }
}

/// What a job asks inside its servers adds up to its communication, short by less than one
/// tick for each server. On each server it is between nothing and all of it, and nothing
/// where the job has no worker.
pub proof fn intra_demands_add_up(job: JobModel<Ticks>, server: i32)
    requires
        job.gpu_workers > 0,
        job.allocated.len() == job.gpu_workers,
        job.profiled_network.count >= 0,
        job.profiled_network.count * job.gpu_workers <= i64::MAX,
    ensures
        ({
            let servers = distinct(job.allocated);
            let demands = amounts(servers, |s: i32| job.intra_demand(s).count as int);
            &&& 0 <= job.intra_demand(server).count <= job.profiled_network.count
            &&& !job.allocated.contains(server) ==> job.intra_demand(server).count == 0
            &&& demands <= job.profiled_network.count
            &&& demands > job.profiled_network.count - servers.len()
        }),
{
    let servers = distinct(job.allocated);
    let demands = amounts(servers, |s: i32| job.intra_demand(s).count as int);
    let network = job.profiled_network.count as int;
    let workers = job.gpu_workers as int;
    let n = servers.len() as int;
    lemma_intra_share(job, server);
    lemma_occurrences(job.allocated, server);
    lemma_occurrences_add_up(job.allocated);
    lemma_intra_shares(job, servers);
    lemma_distinct(job.allocated);
    assert(servers.len() > 0) by {
        assert(job.allocated.contains(job.allocated[0]));
        assert(servers.contains(job.allocated[0]));
    }
    assert(demands <= network && demands > network - n) by (nonlinear_arith)
        requires
            workers > 0,
            n > 0,
            workers * demands <= network * workers,
            network * workers <= workers * demands + (workers - 1) * n,
    ;
}

/// What a job asks inside a server, for any numbers that round.
proof fn lemma_intra_rounded<N: Scalar>(
    job: JobModel<N>,
    server: i32,
    value: spec_fn(N) -> real,
    bound: real,
    error: real,
)
    requires
        rounds(value, bound, error),
        job.gpu_workers > 0,
        job.allocated.len() == job.gpu_workers,
        job.profiled_network.finite(),
        0real <= value(job.profiled_network),
        value(job.profiled_network) * (job.gpu_workers as real) <= bound,
    ensures
        ({
            let inside = occurrences(job.allocated, server) as real;
            let share = (value(job.profiled_network) / (job.gpu_workers as real)) * inside;
            &&& job.intra_demand(server).finite()
            &&& near(value(job.intra_demand(server)), share, error + error)
            &&& 0real <= value(job.intra_demand(server))
            &&& share <= value(job.profiled_network)
            &&& !job.allocated.contains(server) ==> value(job.intra_demand(server)) == 0real
        }),
{
    let inside = occurrences(job.allocated, server) as int;
    let network = value(job.profiled_network);
    let workers = job.gpu_workers as real;
    let c = inside as real;
    let share = (network / workers) * c;
    lemma_occurrences(job.allocated, server);
    assert(N::integer(0).finite() && value(N::integer(0)) == 0real);
    assert(0real <= c <= workers);
    assert(network * c <= network * workers && 0real <= network * c && share == (network * c)
        / workers && 0real <= share <= network) by (nonlinear_arith)
        requires
            0real <= c <= workers,
            network >= 0real,
            workers > 0real,
            share == (network / workers) * c,
    ;
    if inside == 0 {
        assert(share == 0real) by (nonlinear_arith)
            requires
                share == (network / workers) * c,
                c == 0real,
        ;
    } else if inside == job.gpu_workers {
        assert(share == network) by (nonlinear_arith)
            requires
                share == (network / workers) * c,
                c == workers,
                workers > 0real,
        ;
    } else {
        let count = N::integer(inside as i64);
        let all = N::integer(job.gpu_workers as i64);
        let whole = job.profiled_network.product(count);
        let none = N::integer(0);
        assert(value(count) == c && value(all) == workers);
        assert(stands_for(value, whole, network * c, bound, error));
        assert(stands_for(value, none.product(count), 0real * c, bound, error));
        assert(0real * c == 0real) by (nonlinear_arith);
        assert(value(none.product(count)) == 0real) by {
            assert(value(none) == 0real);
        }
        assert(value(none.product(count)) <= value(whole)) by {
            assert(value(none) <= network);
        }
        let v = value(whole);
        assert(0real <= v <= network * c + error);
        let part = v / workers;
        assert(0real <= part <= bound && near(part, share, error)) by (nonlinear_arith)
            requires
                workers >= 2real,
                0real <= v,
                v <= network * c + error,
                network * c - v <= error,
                v - network * c <= error,
                network * c <= bound,
                0real <= error <= bound,
                share == (network * c) / workers,
                part == v / workers,
                near(part, share, error) <==> part - share <= error && share - part <= error,
        ;
        assert(stands_for(value, whole.quotient(all), part, bound, error));
        assert(stands_for(value, none.quotient(all), 0real / workers, bound, error));
        assert(0real / workers == 0real) by (nonlinear_arith)
            requires
                workers > 0real,
        ;
        assert(value(none.quotient(all)) == 0real) by {
            assert(value(none) == 0real);
        }
        assert(value(none.quotient(all)) <= value(whole.quotient(all))) by {
            assert(value(none) <= v);
        }
        assert(job.intra_demand(server) == whole.quotient(all));
    }
}

/// Up to rounding, what a job asks inside its servers adds up to its communication. On each
/// server it is between nothing and all of it, and nothing where the job has no worker.
pub proof fn intra_demands_add_up_to_rounding<N: Scalar>(
    job: JobModel<N>,
    server: i32,
    value: spec_fn(N) -> real,
    bound: real,
    error: real,
)
    requires
        rounds(value, bound, error),
        job.gpu_workers > 0,
        job.allocated.len() == job.gpu_workers,
        job.profiled_network.finite(),
        0real <= value(job.profiled_network),
        value(job.profiled_network) * (job.gpu_workers as real) <= bound,
    ensures
        ({
            let servers = distinct(job.allocated);
            let demands = real_sum(servers, |s: i32| value(job.intra_demand(s)));
            let network = value(job.profiled_network);
            &&& job.intra_demand(server).finite()
            &&& 0real <= value(job.intra_demand(server)) <= network + (error + error)
            &&& !job.allocated.contains(server) ==> value(job.intra_demand(server)) == 0real
            &&& near(demands, network, (error + error) * (servers.len() as real))
        }),
{
    let servers = distinct(job.allocated);
    let network = value(job.profiled_network);
    let workers = job.gpu_workers as real;
    let unit = network / workers;
    let inside = |s: i32| occurrences(job.allocated, s) as int;
    let count = |s: i32| inside(s) as real;
    let demand = |s: i32| value(job.intra_demand(s));
    let share = |s: i32| unit * count(s);
    lemma_intra_rounded(job, server, value, bound, error);
    assert forall|i: int| 0 <= i < servers.len() implies near(
        demand(#[trigger] servers[i]),
        share(servers[i]),
        error + error,
    ) by {
        lemma_intra_rounded(job, servers[i], value, bound, error);
    }
    lemma_sums_near(servers, demand, share, error + error);
    lemma_sum_scaled(servers, count, unit);
    lemma_sum_of_integers(servers, inside);
    lemma_occurrences_add_up(job.allocated);
    assert(amounts(servers, inside) == job.gpu_workers);
    assert(unit * workers == network) by (nonlinear_arith)
        requires
            unit == network / workers,
            workers > 0real,
    ;
}

/// A change of contention does not change how much is left of a communication phase at
/// that instant, with numbers of which one less itself is zero, zero over another is zero
/// and zero more changes nothing.
pub proof fn contention_change_keeps_what_is_left_now<N: Scalar>(
    job: JobModel<N>,
    current_time: N,
    contention: N,
)
    requires
        job.is_in_comm_phase,
        less(zero(), contention),
        current_time.difference(current_time) == zero::<N>(),
        zero::<N>().quotient(contention) == zero::<N>(),
        ({
            let done = job.comm_phase_original_done.sum(job.segment_progress(current_time));
            done.sum(zero()) == done
        }),
    ensures
        job.contention_updated(current_time, contention).comm_remaining(current_time)
            == job.comm_remaining(current_time),
{
    let after = job.contention_updated(current_time, contention);
    assert(after.segment_progress(current_time) == zero::<N>());
}

/// Up to rounding, what is left of a communication phase after a change of contention is
/// what was left at the change, less the time that goes by over the new factor, down to
/// nothing.
pub proof fn contention_change_slows_what_is_left<N: Scalar>(
    job: JobModel<N>,
    current_time: N,
    contention: N,
    later: N,
    value: spec_fn(N) -> real,
    bound: real,
    error: real,
)
    requires
        rounds(value, bound, error),
        job.is_in_comm_phase,
        current_time.finite(),
        contention.finite(),
        later.finite(),
        job.iteration_networking_time.finite(),
        job.comm_phase_original_done.sum(job.segment_progress(current_time)).finite(),
        value(contention) > 0real,
        value(current_time) <= value(later),
        value(later) - value(current_time) <= bound,
        0real <= value(job.iteration_networking_time),
        ({
            let done = value(
                job.comm_phase_original_done.sum(job.segment_progress(current_time)),
            );
            let passed = value(later) - value(current_time);
            &&& 0real <= done
            &&& done + value(job.iteration_networking_time) + (passed + error) / value(contention)
                + (error + error) <= bound
        }),
    ensures
        ({
            let after = job.contention_updated(current_time, contention);
            let left = value(job.comm_remaining(current_time));
            let passed = value(later) - value(current_time);
            &&& after.comm_remaining(later).finite()
            &&& near(
                value(after.comm_remaining(later)),
                positive_part(left - passed / value(contention)),
                4real * error + error / value(contention),
            )
            &&& 0real <= left
            &&& value(after.comm_remaining(later)) >= 0real
        }),
{
    let after = job.contention_updated(current_time, contention);
    let done = job.comm_phase_original_done.sum(job.segment_progress(current_time));
    let network = job.iteration_networking_time;
    let x = value(done);
    let n = value(network);
    let c = value(contention);
    let t = value(later) - value(current_time);
    let e = error;
    let none = N::integer(0);
    assert(none.finite() && value(none) == 0real);
    assert(less(none, contention)) by {
        assert(none.ordered() && contention.ordered());
        assert(contention.rank() <= none.rank() <==> value(contention) <= value(none));
    }
    // The time that goes by, and the progress in it.
    let span = later.difference(current_time);
    assert(stands_for(value, span, t, bound, e));
    let w = value(span);
    let ratio = w / c;
    let most = (t + e) / c;
    let exact = t / c;
    let slack = e / c;
    assert(-slack <= ratio <= most && near(ratio, exact, slack) && exact >= 0real && slack
        >= 0real && most == exact + slack) by (nonlinear_arith)
        requires
            c > 0real,
            t >= 0real,
            e >= 0real,
            w - t <= e,
            t - w <= e,
            ratio == w / c,
            most == (t + e) / c,
            exact == t / c,
            slack == e / c,
            near(ratio, exact, slack) <==> ratio - exact <= slack && exact - ratio <= slack,
    ;
    let progress = span.quotient(contention);
    assert(stands_for(value, progress, ratio, bound, e));
    let q = value(progress);
    assert(near(q, ratio, e));
    // All progress, and what is left of the phase.
    assert(after.segment_progress(later) == progress);
    let total = done.sum(progress);
    assert(stands_for(value, total, x + q, bound, e));
    let y = value(total);
    let rest = network.difference(total);
    assert(stands_for(value, rest, n - y, bound, e));
    let before = network.difference(done);
    assert(stands_for(value, before, n - x, bound, e));
    lemma_positive_part(value, rest, bound, e);
    lemma_positive_part(value, before, bound, e);
    assert(after.comm_remaining(later) == larger(rest, zero()));
    assert(job.comm_remaining(current_time) == larger(before, zero()));
    assert(near(value(rest), value(before) - exact, 4real * e + slack));
}

/// Whether every worker of a job is on a server.
pub open spec fn all_workers_on<N>(job: JobModel<N>, server: i32) -> bool {
    forall|i: int| 0 <= i < job.allocated.len() ==> #[trigger] job.allocated[i] == server
}

/// A value occurs as often as a list is long exactly where it is all that the list holds.
proof fn lemma_occurs_everywhere(list: Seq<i32>, value: i32)
    ensures
        occurrences(list, value) <= list.len(),
        occurrences(list, value) == list.len() <==> (forall|i: int|
            0 <= i < list.len() ==> #[trigger] list[i] == value),
    decreases list.len(),
{
    if list.len() > 0 {
        let rest = list.drop_last();
        lemma_occurs_everywhere(rest, value);
        if occurrences(list, value) == list.len() {
            assert forall|i: int| 0 <= i < list.len() implies #[trigger] list[i] == value by {
                if i < rest.len() {
                    assert(rest[i] == list[i]);
                }
            }
        }
        if forall|i: int| 0 <= i < list.len() ==> #[trigger] list[i] == value {
            assert(list[list.len() - 1] == value);
            assert forall|i: int| 0 <= i < rest.len() implies #[trigger] rest[i] == value by {
                assert(list[i] == value);
            }
        }
    }
}

/// What a job that reduces over a ring of its workers asks of a server's network: nothing
/// where all of them are on the server, or there is only one. Of two workers, each sends half of
/// the profiled network. Of more, the demand times the number of workers is twice the
/// profiled network, up to rounding.
pub proof fn ring_demand_by_workers<N: Scalar>(
    job: JobModel<N>,
    server: i32,
    value: spec_fn(N) -> real,
    bound: real,
    error: real,
)
    requires
        rounds(value, bound, error),
        job.ps <= 0,
        job.gpu_workers > 0,
        job.allocated.len() == job.gpu_workers,
        job.profiled_network.finite(),
        0real <= value(job.profiled_network),
        2real * value(job.profiled_network) <= bound,
    ensures
        ({
            let asked = value(job.demand(server));
            let network = value(job.profiled_network);
            let workers = job.gpu_workers as real;
            &&& job.demand(server).finite()
            &&& 0real <= asked
            &&& all_workers_on(job, server) || job.gpu_workers == 1 ==> asked == 0real
            &&& !all_workers_on(job, server) && job.gpu_workers == 2 ==> near(
                asked * workers,
                network,
                error * workers,
            )
            &&& !all_workers_on(job, server) && job.gpu_workers > 2 ==> near(
                asked * workers,
                2real * network,
                error * (workers + 1real),
            )
        }),
{
    let network = value(job.profiled_network);
    let workers = job.gpu_workers as real;
    let all = N::integer(job.gpu_workers as i64);
    let none = N::integer(0);
    let two = N::integer(2);
    lemma_occurs_everywhere(job.allocated, server);
    lemma_integer_value(value, 0, bound, error);
    lemma_integer_value(value, 2, bound, error);
    lemma_integer_value(value, job.gpu_workers as i64, bound, error);
    if !all_workers_on(job, server) && job.gpu_workers == 2 {
        let exact = network / workers;
        assert(0real <= exact <= bound && exact * workers == network && 0real / workers == 0real)
            by (nonlinear_arith)
            requires
                exact == network / workers,
                workers == 2real,
                0real <= network,
                2real * network <= bound,
        ;
        lemma_quotient_near(value, job.profiled_network, all, bound, error);
        lemma_quotient_near(value, none, all, bound, error);
        assert(value(none.quotient(all)) <= value(job.profiled_network.quotient(all)));
        let asked = value(job.demand(server));
        assert(near(asked * workers, network, error * workers)) by (nonlinear_arith)
            requires
                near(asked, exact, error),
                exact * workers == network,
                workers == 2real,
        ;
    } else if !all_workers_on(job, server) && job.gpu_workers > 2 {
        let whole = two.product(job.profiled_network);
        lemma_product_near(value, two, job.profiled_network, bound, error);
        lemma_product_near(value, two, none, bound, error);
        assert(value(two.product(none)) <= value(whole)) by {
            assert(2real * 0real == 0real);
        }
        let v = value(whole);
        let exact = v / workers;
        assert(0real <= exact <= bound && exact * workers == v && 0real / workers == 0real)
            by (nonlinear_arith)
            requires
                exact == v / workers,
                workers >= 3real,
                0real <= v,
                v <= bound + error,
                0real <= error <= bound,
        ;
        lemma_quotient_near(value, whole, all, bound, error);
        lemma_quotient_near(value, none, all, bound, error);
        assert(value(none.quotient(all)) <= value(whole.quotient(all)));
        let asked = value(job.demand(server));
        assert(near(asked * workers, 2real * network, error * (workers + 1real)))
            by (nonlinear_arith)
            requires
                near(asked, exact, error),
                near(v, 2real * network, error),
                exact * workers == v,
                workers >= 3real,
                error >= 0real,
        ;
    }
}

/// A job without parameter servers that has twice the workers of another, and as much to send,
/// asks for half as much of a server's network, up to rounding.
pub proof fn twice_the_workers_ask_for_half<N: Scalar>(
    job: JobModel<N>,
    other: JobModel<N>,
    server: i32,
    other_server: i32,
    value: spec_fn(N) -> real,
    bound: real,
    error: real,
)
    requires
        rounds(value, bound, error),
        job.ps <= 0,
        other.ps <= 0,
        job.gpu_workers > 2,
        other.gpu_workers == 2 * job.gpu_workers,
        job.allocated.len() == job.gpu_workers,
        other.allocated.len() == other.gpu_workers,
        !all_workers_on(job, server),
        !all_workers_on(other, other_server),
        job.profiled_network.finite(),
        other.profiled_network.finite(),
        value(other.profiled_network) == value(job.profiled_network),
        0real <= value(job.profiled_network),
        2real * value(job.profiled_network) <= bound,
    ensures
        near(
            2real * value(other.demand(other_server)),
            value(job.demand(server)),
            4real * error,
        ),
{
    ring_demand_by_workers(job, server, value, bound, error);
    ring_demand_by_workers(other, other_server, value, bound, error);
    let a = value(job.demand(server));
    let b = value(other.demand(other_server));
    let n = value(job.profiled_network);
    let w = job.gpu_workers as real;
    assert(near(2real * b, a, 4real * error)) by (nonlinear_arith)
        requires
            near(a * w, 2real * n, error * (w + 1real)),
            near(b * (2real * w), 2real * n, error * (2real * w + 1real)),
            w >= 3real,
            error >= 0real,
    ;
}

/// What a job with parameter servers asks of a server's network: every pair of a worker and a
/// parameter server of which one is on the server and the other is not counts, out of all
/// pairs, up to rounding.
pub proof fn parameter_server_demand_by_pairs<N: Scalar>(
    job: JobModel<N>,
    server: i32,
    value: spec_fn(N) -> real,
    bound: real,
    error: real,
)
    requires
        rounds(value, bound, error),
        job.ps > 0,
        job.gpu_workers > 0,
        job.allocated.len() == job.gpu_workers,
        job.ps_allocated.len() == job.ps,
        job.ps * job.gpu_workers <= EXACT_INTEGER,
        job.profiled_network.finite(),
        0real <= value(job.profiled_network),
        value(job.profiled_network) * ((job.ps * job.gpu_workers) as real) <= bound,
    ensures
        ({
            let asked = value(job.demand(server));
            let network = value(job.profiled_network);
            let workers_on = occurrences(job.allocated, server) as int;
            let ps_on = occurrences(job.ps_allocated, server) as int;
            let crossing = ps_on * (job.gpu_workers - workers_on) + (job.ps - ps_on) * workers_on;
            let pairs = job.ps * job.gpu_workers;
            &&& job.demand(server).finite()
            &&& 0 <= crossing <= pairs
            &&& crossing == 0 ==> asked == 0real
            &&& near(asked * (pairs as real), network * (crossing as real), error * (pairs as real
                + 1real))
        }),
{
    let network = value(job.profiled_network);
    let w = job.gpu_workers as int;
    let p = job.ps as int;
    let wi = occurrences(job.allocated, server) as int;
    let pi = occurrences(job.ps_allocated, server) as int;
    let wo = w - wi;
    let po = p - pi;
    lemma_occurrences(job.allocated, server);
    lemma_occurrences(job.ps_allocated, server);
    let first = pi * wo;
    let second = po * wi;
    let crossing = first + second;
    let pairs = p * w;
    assert(0 <= first && 0 <= second && crossing <= pairs && 0 < pairs) by (nonlinear_arith)
        requires
            0 <= wi <= w,
            0 <= pi <= p,
            0 < w,
            0 < p,
            wo == w - wi,
            po == p - pi,
            first == pi * wo,
            second == po * wi,
            crossing == first + second,
            pairs == p * w,
    ;
    let n_w = N::integer(w as i64);
    let n_p = N::integer(p as i64);
    let n_wi = N::integer(wi as i64);
    let n_pi = N::integer(pi as i64);
    lemma_integer_value(value, w as i64, bound, error);
    lemma_integer_value(value, p as i64, bound, error);
    lemma_integer_value(value, wi as i64, bound, error);
    lemma_integer_value(value, pi as i64, bound, error);
    lemma_integer_value(value, wo as i64, bound, error);
    lemma_integer_value(value, po as i64, bound, error);
    lemma_integer_value(value, first as i64, bound, error);
    lemma_integer_value(value, second as i64, bound, error);
    lemma_integer_value(value, crossing as i64, bound, error);
    lemma_integer_value(value, pairs as i64, bound, error);
    let n_wo = n_w.difference(n_wi);
    let n_po = n_p.difference(n_pi);
    assert(stands_for(value, n_wo, wo as real, bound, error));
    assert(stands_for(value, n_po, po as real, bound, error));
    assert(value(N::integer(wo as i64)) == wo as real && value(N::integer(po as i64)) == po as real);
    assert(value(n_wo) == wo as real && value(n_po) == po as real);
    assert((pi as real) * (wo as real) == first as real && (po as real) * (wi as real)
        == second as real && (p as real) * (w as real) == pairs as real) by {
        lemma_real_product(pi, wo);
        lemma_real_product(po, wi);
        lemma_real_product(p, w);
    }
    let n_first = n_pi.product(n_wo);
    let n_second = n_po.product(n_wi);
    assert(stands_for(value, n_first, first as real, bound, error));
    assert(stands_for(value, n_second, second as real, bound, error));
    assert(value(N::integer(first as i64)) == first as real);
    assert(value(N::integer(second as i64)) == second as real);
    let n_crossing = n_first.sum(n_second);
    assert(stands_for(value, n_crossing, crossing as real, bound, error));
    assert(value(N::integer(crossing as i64)) == crossing as real);
    let n_pairs = n_p.product(n_w);
    assert(stands_for(value, n_pairs, pairs as real, bound, error));
    assert(value(N::integer(pairs as i64)) == pairs as real);
    let c = crossing as real;
    let q = pairs as real;
    assert(0real <= network * c <= network * q) by (nonlinear_arith)
        requires
            0real <= c <= q,
            0real <= network,
    ;
    let whole = job.profiled_network.product(n_crossing);
    lemma_product_near(value, job.profiled_network, n_crossing, bound, error);
    let v = value(whole);
    let none = N::integer(0);
    lemma_integer_value(value, 0, bound, error);
    assert(0real * c == 0real) by (nonlinear_arith);
    assert(value(none) * value(n_crossing) == 0real);
    lemma_product_near(value, none, n_crossing, bound, error);
    assert(value(none.product(n_crossing)) <= v);
    assert(0real <= v);
    let exact = v / q;
    if pairs == 1 {
        // A worker and a parameter server: the product is exact.
        assert(q == 1real);
        assert(v / 1real == v) by (nonlinear_arith);
        assert(c == 0real || c == 1real);
        assert(network * 1real == network) by (nonlinear_arith);
        assert(v <= network * q) by {
            if c == 1real {
                assert(value(n_crossing) == 1real);
            } else {
                assert(value(n_crossing) == 0real);
            }
        }
    } else {
        assert(exact <= bound) by (nonlinear_arith)
            requires
                exact == v / q,
                q >= 2real,
                v <= bound + error,
                0real <= v,
                0real <= error <= bound,
        ;
    }
    assert(0real <= exact && exact * q == v) by (nonlinear_arith)
        requires
            exact == v / q,
            q >= 1real,
            v >= 0real,
    ;
    lemma_quotient_near(value, whole, n_pairs, bound, error);
    let asked = value(job.demand(server));
    assert(near(asked * q, network * c, error * (q + 1real))) by (nonlinear_arith)
        requires
            near(asked, exact, error),
            near(v, network * c, error),
            exact * q == v,
            q >= 1real,
            error >= 0real,
    ;
}

/// What a job asks inside a server is to its communication as its workers there are to all of them,
/// up to rounding.
pub proof fn intra_demand_goes_by_workers<N: Scalar>(
    job: JobModel<N>,
    server: i32,
    value: spec_fn(N) -> real,
    bound: real,
    error: real,
)
    requires
        rounds(value, bound, error),
        job.gpu_workers > 0,
        job.allocated.len() == job.gpu_workers,
        job.profiled_network.finite(),
        0real <= value(job.profiled_network),
        value(job.profiled_network) * (job.gpu_workers as real) <= bound,
    ensures
        near(
            value(job.intra_demand(server)) * (job.gpu_workers as real),
            value(job.profiled_network) * (occurrences(job.allocated, server) as real),
            2real * error * (job.gpu_workers as real),
        ),
{
    lemma_intra_rounded(job, server, value, bound, error);
    let asked = value(job.intra_demand(server));
    let network = value(job.profiled_network);
    let workers = job.gpu_workers as real;
    let inside = occurrences(job.allocated, server) as real;
    let share = (network / workers) * inside;
    assert(share * workers == network * inside) by (nonlinear_arith)
        requires
            share == (network / workers) * inside,
            workers > 0real,
    ;
    assert(near(asked * workers, network * inside, 2real * error * workers)) by (nonlinear_arith)
        requires
            near(asked, share, error + error),
            share * workers == network * inside,
            workers > 0real,
    ;
}

/// At the end of a communication phase, all the time since its start counts as communication, however
/// much of it is due to contention. The phase is over then.
pub proof fn phases_count_all_their_time<N: Scalar>(
    job: JobModel<N>,
    current_time: N,
    value: spec_fn(N) -> real,
    bound: real,
    error: real,
)
    requires
        rounds(value, bound, error),
        job.is_in_comm_phase,
        current_time.finite(),
        job.phase_start_time matches Some(start) && start.finite() && -bound <= value(current_time)
            - value(start) <= bound,
        job.consumed_comms_time matches Some(consumed) && consumed.finite() && -bound <= value(
            consumed,
        ) + (value(current_time) - value(job.phase_start_time->0)) - error && value(consumed) + (
        value(current_time) - value(job.phase_start_time->0)) + error <= bound,
    ensures
        ({
            let after = job.comm_finished(current_time);
            &&& !after.is_in_comm_phase
            &&& after.consumed_compute_time == job.consumed_compute_time
            &&& after.consumed_comms_time matches Some(consumed) && near(
                value(consumed),
                value(job.consumed_comms_time->0) + (value(current_time) - value(
                    job.phase_start_time->0,
                )),
                2real * error,
            )
        }),
{
    let start = job.phase_start_time->0;
    let elapsed = current_time.difference(start);
    lemma_difference_near(value, current_time, start, bound, error);
    lemma_sum_near(value, job.consumed_comms_time->0, elapsed, bound, error);
}

/// A communication phase starts with nothing of it done, and ends when all of it is: what is
/// left at its start is its whole time, up to rounding, whatever the contention.
pub proof fn phases_start_with_all_left<N: Scalar>(
    job: JobModel<N>,
    current_time: N,
    contention: N,
    value: spec_fn(N) -> real,
    bound: real,
    error: real,
)
    requires
        rounds(value, bound, error),
        current_time.finite(),
        contention.finite(),
        value(contention) > 0real,
        job.iteration_networking_time.finite(),
        0real <= value(job.iteration_networking_time) <= bound,
    ensures
        ({
            let after = job.comm_started(current_time, contention);
            &&& after.is_in_comm_phase
            &&& after.phase_start_time == Some(current_time)
            &&& after.comm_remaining(current_time).finite()
            &&& value(after.comm_remaining(current_time)) == value(job.iteration_networking_time)
        }),
{
    let after = job.comm_started(current_time, contention);
    let none = N::integer(0);
    lemma_integer_value(value, 0, bound, error);
    lemma_compared(value, none, contention, bound, error);
    let passed = current_time.difference(current_time);
    lemma_difference_near(value, current_time, current_time, bound, error);
    let c = value(contention);
    assert(0real / c == 0real) by (nonlinear_arith)
        requires
            c > 0real,
    ;
    lemma_quotient_near(value, passed, contention, bound, error);
    let progress = passed.quotient(contention);
    lemma_sum_near(value, none, progress, bound, error);
    lemma_difference_near(
        value,
        job.iteration_networking_time,
        none.sum(progress),
        bound,
        error,
    );
    lemma_positive_part(
        value,
        job.iteration_networking_time.difference(none.sum(progress)),
        bound,
        error,
    );
}

} // verus!
