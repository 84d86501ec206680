//! The cluster: its servers, what is free on them and which jobs they run.

use vstd::prelude::*;

use crate::corun::CorunModel;
use crate::cycles::{
    cycle_table, CycleKey, CycleProfile, CycleSnapshot, KeyModel, ProfileModel, SnapshotModel,
};
use crate::gpu_job::{GpuJob, JobModel};
use crate::lists::{lists_view, total};
use crate::rounding::{
    lemma_compared, lemma_difference_near, lemma_integer_value, lemma_product_near,
    lemma_quotient_near, lemma_sum_near, near, real_min, rounds, stands_for, EXACT_INTEGER,
};
use crate::scalar::{
    clamp_i64, clamped, equal, less, magnitude, magnitude_of, min_of, one, smaller,
    truncating_quotient, zero, Scalar, Ticks,
};
use crate::timer::TimerModel;

pub use crate::corun::CorunProfile;
pub use crate::cycles::CycleStats;
pub use crate::interference::InterferenceModel;
pub use crate::placement::PlacementMethod;

verus! {

/// Per-GPU utilization (percent) when a GPU is allocated to any job.
/// Idle GPUs report zero.
pub const GPU_UTIL_WHEN_ALLOCATED: i64 = 100;

/// The bandwidth that a job is taken to get at least, where none is configured.
pub const DEFAULT_MIN_BANDWIDTH: i64 = 10;

/// How many parts of a second apart two instants still count as the same one.
pub const INSTANT_PARTS: i64 = 1_000_000_000_000;

/// A row of the utilization log.
pub struct UtilRow<N> {
    pub time: N,
    /// The average utilization over all GPUs, in percent.
    pub average: N,
    /// The utilization of all GPUs added up, in percent.
    pub total: N,
    /// How many GPUs are allocated.
    pub active: i64,
    /// The average utilization of each server, in percent.
    pub nodes: Vec<N>,
}

/// A `UtilRow`.
#[verifier::ext_equal]
pub struct UtilRowModel<N> {
    pub time: N,
    pub average: N,
    pub total: N,
    pub active: i64,
    pub nodes: Seq<N>,
}

impl<N> View for UtilRow<N> {
    type V = UtilRowModel<N>;

    open spec fn view(&self) -> UtilRowModel<N> {
        UtilRowModel {
            time: self.time,
            average: self.average,
            total: self.total,
            active: self.active,
            nodes: self.nodes@,
        }
    }
}

/// A line of the allocation log: where a job was placed, and when.
pub struct Allocation<N> {
    pub job: i32,
    pub allocated: Vec<i32>,
    pub ps_allocated: Vec<i32>,
    pub time: N,
}

/// An `Allocation`.
#[verifier::ext_equal]
pub struct AllocationModel<N> {
    pub job: i32,
    pub allocated: Seq<i32>,
    pub ps_allocated: Seq<i32>,
    pub time: N,
}

impl<N> View for Allocation<N> {
    type V = AllocationModel<N>;

    open spec fn view(&self) -> AllocationModel<N> {
        AllocationModel {
            job: self.job,
            allocated: self.allocated@,
            ps_allocated: self.ps_allocated@,
            time: self.time,
        }
    }
}

/// GPU cluster state: manages resources, placement, and bandwidth.
pub struct GPUCluster<N> {
    // Configuration
    pub servers: i32,
    pub gpus_per_server: i32,
    pub bandwidth_per_server: N,
    pub intra_bandwidth_per_server: N,
    pub cpu_cores_per_server: i32,
    pub allocation_log_file: String,
    pub interference_model: InterferenceModel,
    pub interference_ratio: Option<N>,
    pub lcm_time_decimals: i32,
    pub time_scale: N,
    pub enable_lcm_cycle_jump: bool,
    /// Fraction of compute time that may overlap with communication.
    pub overlapping_ratio: N,
    /// Cap on the bandwidth that a job asks of a server, as a multiple of
    /// `bandwidth_per_server`. `None` disables the cap.
    pub required_bandwidth_cap_factor: Option<N>,
    /// Fraction of the networking time that is subject to contention.
    /// Smaller values dampen the effective contention factor.
    pub comm_contention_fraction: Option<N>,
    /// Exponent of the scaling of the cap by the number of workers.
    pub cap_n_exponent: Option<N>,
    /// Whether contention follows the M/M/1 model in place of the linear one.
    pub contention_model_mm1: bool,
    /// Clamping epsilon for the M/M/1 model.
    pub mm1_epsilon: N,
    /// Use phase-staggered overlap probability for total demand.
    pub phase_overlap_weighted: bool,
    /// Efficiency of a server's network under head-of-line blocking.
    pub hol_efficiency: Option<N>,
    // Resources
    /// Free GPUs of each server.
    pub gpus: Vec<i32>,
    pub bandwidths: Vec<N>,
    /// Free CPU cores of each server.
    pub cpu_cores: Vec<i32>,
    pub intra_bandwidths: Vec<N>,
    /// The jobs that are active on each server.
    pub active_jobs: Vec<Vec<i32>>,
    // Cycles
    pub placement_epoch: u64,
    pub cycle_observation_cache: Vec<(CycleKey, CycleSnapshot<N>)>,
    pub cycle_profiles: Vec<(CycleKey, CycleProfile<N>)>,
    pub cycle_stats: CycleStats,
    /// Minimum guaranteed bandwidth
    pub min_guaranteed_bw: N,
    /// Profile tables for the `corun-profile` interference model.
    pub corun_profile: CorunProfile<N>,
    /// Where the utilization log goes; empty where none is kept.
    pub gpu_util_log_file: String,
    /// The rows of the utilization log, each with the instant that it stands for.
    pub gpu_util_rows: Vec<(N, UtilRow<N>)>,
    /// The lines of the allocation log.
    pub allocations: Vec<Allocation<N>>,
}

/// The state of a cluster.
#[verifier::ext_equal]
pub struct ClusterModel<N> {
    pub servers: i32,
    pub gpus_per_server: i32,
    pub bandwidth_per_server: N,
    pub intra_bandwidth_per_server: N,
    pub cpu_cores_per_server: i32,
    pub allocation_log_file: Seq<char>,
    pub interference_model: InterferenceModel,
    pub interference_ratio: Option<N>,
    pub lcm_time_decimals: i32,
    pub time_scale: N,
    pub enable_lcm_cycle_jump: bool,
    pub overlapping_ratio: N,
    pub required_bandwidth_cap_factor: Option<N>,
    pub comm_contention_fraction: Option<N>,
    pub cap_n_exponent: Option<N>,
    pub contention_model_mm1: bool,
    pub mm1_epsilon: N,
    pub phase_overlap_weighted: bool,
    pub hol_efficiency: Option<N>,
    pub gpus: Seq<i32>,
    pub bandwidths: Seq<N>,
    pub cpu_cores: Seq<i32>,
    pub intra_bandwidths: Seq<N>,
    pub active_jobs: Seq<Seq<i32>>,
    pub placement_epoch: u64,
    pub cycle_observation_cache: Map<KeyModel, SnapshotModel<N>>,
    pub cycle_profiles: Map<KeyModel, ProfileModel<N>>,
    pub cycle_stats: CycleStats,
    pub min_guaranteed_bw: N,
    pub corun_profile: CorunModel<N>,
    pub gpu_util_log_file: Seq<char>,
    pub gpu_util_rows: Seq<(N, UtilRowModel<N>)>,
    pub allocations: Seq<AllocationModel<N>>,
}

impl<N> View for GPUCluster<N> {
    type V = ClusterModel<N>;

    open spec fn view(&self) -> ClusterModel<N> {
        ClusterModel {
            servers: self.servers,
            gpus_per_server: self.gpus_per_server,
            bandwidth_per_server: self.bandwidth_per_server,
            intra_bandwidth_per_server: self.intra_bandwidth_per_server,
            cpu_cores_per_server: self.cpu_cores_per_server,
            allocation_log_file: self.allocation_log_file@,
            interference_model: self.interference_model,
            interference_ratio: self.interference_ratio,
            lcm_time_decimals: self.lcm_time_decimals,
            time_scale: self.time_scale,
            enable_lcm_cycle_jump: self.enable_lcm_cycle_jump,
            overlapping_ratio: self.overlapping_ratio,
            required_bandwidth_cap_factor: self.required_bandwidth_cap_factor,
            comm_contention_fraction: self.comm_contention_fraction,
            cap_n_exponent: self.cap_n_exponent,
            contention_model_mm1: self.contention_model_mm1,
            mm1_epsilon: self.mm1_epsilon,
            phase_overlap_weighted: self.phase_overlap_weighted,
            hol_efficiency: self.hol_efficiency,
            gpus: self.gpus@,
            bandwidths: self.bandwidths@,
            cpu_cores: self.cpu_cores@,
            intra_bandwidths: self.intra_bandwidths@,
            active_jobs: lists_view(self.active_jobs@),
            placement_epoch: self.placement_epoch,
            cycle_observation_cache: cycle_table(self.cycle_observation_cache@),
            cycle_profiles: cycle_table(self.cycle_profiles@),
            cycle_stats: self.cycle_stats,
            min_guaranteed_bw: self.min_guaranteed_bw,
            corun_profile: self.corun_profile@,
            gpu_util_log_file: self.gpu_util_log_file@,
            gpu_util_rows: Seq::new(
                self.gpu_util_rows@.len(),
                |i: int| (self.gpu_util_rows@[i].0, self.gpu_util_rows@[i].1@),
            ),
            allocations: Seq::new(self.allocations@.len(), |i: int| self.allocations@[i]@),
        }
    }
}

/// Whether two times count as one instant: they are equal, or less than an instant apart.
pub open spec fn same_instant<N: Scalar>(a: N, b: N) -> bool {
    ||| b.finite() && equal(a, b)
    ||| less(magnitude(a.difference(b)), one::<N>().quotient(N::integer(INSTANT_PARTS)))
}

/// Whether two times count as one instant: they are equal, or less than an instant apart.
fn is_same_instant<N: Scalar>(a: N, b: N) -> (result: bool)
    ensures
        result == same_instant(a, b),
{
    b.is_finite() && a.is_equal(b) || magnitude_of(a.minus(b)).is_less(
        N::of_int(1).over(N::of_int(INSTANT_PARTS)),
    )
}

/// The time of an iteration in which compute may overlap with communication.
pub open spec fn iteration_time<N: Scalar>(overlap: N, compute: N, networking: N) -> N {
    compute.sum(networking).difference(smaller(overlap.product(compute), networking))
}

/// The time of an iteration in which compute may overlap with communication.
pub fn iteration_time_of<N: Scalar>(overlap: N, compute: N, networking: N) -> (result: N)
    ensures
        result == iteration_time(overlap, compute, networking),
{
    let overlap_credit: N = min_of(overlap.times(compute), networking);
    compute.plus(networking).minus(overlap_credit)
}

impl<N: Scalar> ClusterModel<N> {
    /// Whether every server has its entry in each list.
    pub open spec fn is_sized(self) -> bool {
        &&& self.servers >= 0
        &&& self.gpus.len() == self.servers
        &&& self.bandwidths.len() == self.servers
        &&& self.cpu_cores.len() == self.servers
        &&& self.intra_bandwidths.len() == self.servers
        &&& self.active_jobs.len() == self.servers
    }

    /// Whether a job is active on a server.
    pub open spec fn runs(self, server: int, job: int) -> bool {
        &&& 0 <= server < self.active_jobs.len()
        &&& i32::MIN <= job <= i32::MAX
        &&& self.active_jobs[server].contains(job as i32)
    }

    /// Whether a job is active.
    pub open spec fn active(self, job: int) -> bool {
        exists|server: int| self.runs(server, job)
    }

    /// The contention factor reshaped by the fraction of the networking time
    /// that is subject to contention.
    pub open spec fn damped(self, factor: N) -> N {
        match self.comm_contention_fraction {
            Some(fraction) if fraction.finite() && less(zero(), fraction) => one::<N>().sum(
                fraction.product(factor.difference(one())),
            ),
            _ => factor,
        }
    }

    /// How the cap on the bandwidth of a job grows with its workers.
    pub open spec fn cap_scale(self, workers: i32) -> N {
        match self.cap_n_exponent {
            Some(exponent) if exponent.finite() && !equal(
                exponent,
                zero(),
            ) => N::integer(workers as i64).quotient(N::integer(2)).powered(
                exponent,
            ),
            _ => one(),
        }
    }

    /// The bandwidth that a job asks of a server's network, up to the cap.
    pub open spec fn capped_demand(self, job: JobModel<N>, server: i32) -> N {
        match self.required_bandwidth_cap_factor {
            Some(factor) if factor.finite() && less(zero(), factor) => smaller(
                job.demand(server),
                factor.product(self.cap_scale(job.gpu_workers)).product(self.bandwidth_per_server),
            ),
            _ => job.demand(server),
        }
    }

    /// How many GPUs of a server are allocated.
    pub open spec fn busy_on(self, server: int) -> int {
        self.gpus_per_server - self.gpus[server]
    }

    /// How many GPUs are allocated.
    pub open spec fn busy(self) -> int {
        self.servers * self.gpus_per_server - total(self.gpus)
    }

    /// The row of the utilization log for the present state.
    pub open spec fn util_row(self, time: N) -> UtilRowModel<N> {
        let gpus = N::integer(clamped(self.servers * self.gpus_per_server));
        let percent = N::integer(GPU_UTIL_WHEN_ALLOCATED);
        let total_util = N::integer(clamped(self.busy())).product(percent);
        UtilRowModel {
            time,
            average: if less(zero(), gpus) {
                total_util.quotient(gpus)
            } else {
                zero()
            },
            total: total_util,
            active: clamped(self.busy()),
            nodes: Seq::new(
                self.servers as nat,
                |server: int|
                    if self.gpus_per_server > 0 {
                        N::integer(clamped(self.busy_on(server))).product(percent).quotient(
                            N::integer(self.gpus_per_server as i64),
                        )
                    } else {
                        zero()
                    },
            ),
        }
    }

    /// The cluster with its present utilization logged, where a log is kept. A row for
    /// the same instant is replaced.
    pub open spec fn logged(self, time: N) -> ClusterModel<N> {
        let rows = self.gpu_util_rows;
        if self.gpu_util_log_file.len() == 0 {
            self
        } else if rows.len() > 0 && same_instant(rows.last().0, time) {
            ClusterModel {
                gpu_util_rows: rows.update(
                    rows.len() - 1,
                    (rows.last().0, self.util_row(time)),
                ),
                ..self
            }
        } else {
            ClusterModel { gpu_util_rows: rows.push((time, self.util_row(time))), ..self }
        }
    }
}

/// A list that holds one value at every place.
fn full_of<T: Copy>(value: T, count: usize) -> (result: Vec<T>)
    ensures
        result@ == Seq::new(count as nat, |i: int| value),
{
    let mut result: Vec<T> = Vec::new();
    while result.len() < count
        invariant
            result@.len() <= count,
            forall|i: int| 0 <= i < result@.len() ==> result@[i] == value,
        decreases count - result@.len(),
    {
        result.push(value);
    }
    assert(result@ =~= Seq::new(count as nat, |i: int| value));
    result
}

impl<N: Scalar> GPUCluster<N> {
    /// A cluster with nothing allocated.
    pub fn new(
        servers: i32,
        gpus_per_server: i32,
        bandwidth_per_server: N,
        intra_bandwidth_per_server: N,
        cpu_cores_per_server: i32,
        allocation_log_file: String,
        interference_model: InterferenceModel,
        interference_ratio: Option<N>,
        lcm_time_decimals: i32,
        enable_lcm_cycle_jump: bool,
        overlapping_ratio: N,
        corun_profile: CorunProfile<N>,
        gpu_util_log_file: String,
        required_bandwidth_cap_factor: Option<N>,
        comm_contention_fraction: Option<N>,
        cap_n_exponent: Option<N>,
        min_guaranteed_bw: Option<N>,
        contention_model_mm1: bool,
        mm1_epsilon: N,
        phase_overlap_weighted: bool,
        hol_efficiency: Option<N>,
    ) -> (cluster: Self)
        requires
            servers >= 0,
        ensures
            cluster@ == (ClusterModel {
                servers,
                gpus_per_server,
                bandwidth_per_server,
                intra_bandwidth_per_server,
                cpu_cores_per_server,
                allocation_log_file: allocation_log_file@,
                interference_model,
                interference_ratio,
                lcm_time_decimals,
                time_scale: N::integer(10).powered_int(lcm_time_decimals),
                enable_lcm_cycle_jump,
                overlapping_ratio,
                required_bandwidth_cap_factor,
                comm_contention_fraction,
                cap_n_exponent,
                contention_model_mm1,
                mm1_epsilon,
                phase_overlap_weighted,
                hol_efficiency,
                gpus: Seq::new(servers as nat, |i: int| gpus_per_server),
                bandwidths: Seq::new(servers as nat, |i: int| bandwidth_per_server),
                cpu_cores: Seq::new(servers as nat, |i: int| cpu_cores_per_server),
                intra_bandwidths: Seq::new(servers as nat, |i: int| intra_bandwidth_per_server),
                active_jobs: Seq::new(servers as nat, |i: int| Seq::empty()),
                placement_epoch: 0,
                cycle_observation_cache: Map::empty(),
                cycle_profiles: Map::empty(),
                cycle_stats: (CycleStats {
                    observed_sync: 0,
                    cycle_detected: 0,
                    jump_applied: 0,
                    jump_periods: 0,
                    jumped_ticks: 0,
                }),
                min_guaranteed_bw: match min_guaranteed_bw {
                    Some(bandwidth) => bandwidth,
                    None => N::integer(DEFAULT_MIN_BANDWIDTH),
                },
                corun_profile: corun_profile@,
                gpu_util_log_file: gpu_util_log_file@,
                gpu_util_rows: Seq::empty(),
                allocations: Seq::empty(),
            }).logged(zero()),
            min_guaranteed_bw is None ==> cluster@.min_guaranteed_bw == N::integer(10),
            cluster@.is_idle(),
    {
        let n: usize = servers as usize;
        let mut active_jobs: Vec<Vec<i32>> = Vec::new();
        while active_jobs.len() < n
            invariant
                active_jobs@.len() <= n,
                lists_view(active_jobs@) == Seq::new(
                    active_jobs@.len(),
                    |i: int| Seq::<i32>::empty(),
                ),
            decreases n - active_jobs@.len(),
        {
            let ghost before = lists_view(active_jobs@);
            active_jobs.push(Vec::new());
            assert(lists_view(active_jobs@) =~= before.push(Seq::<i32>::empty()));
            assert(lists_view(active_jobs@) =~= Seq::new(
                active_jobs@.len(),
                |i: int| Seq::<i32>::empty(),
            ));
        }
        let mut cluster = GPUCluster {
            servers,
            gpus_per_server,
            bandwidth_per_server,
            intra_bandwidth_per_server,
            cpu_cores_per_server,
            allocation_log_file,
            interference_model,
            interference_ratio,
            lcm_time_decimals,
            time_scale: N::of_int(10).power_int(lcm_time_decimals),
            enable_lcm_cycle_jump,
            overlapping_ratio,
            required_bandwidth_cap_factor,
            comm_contention_fraction,
            cap_n_exponent,
            contention_model_mm1,
            mm1_epsilon,
            phase_overlap_weighted,
            hol_efficiency,
            gpus: full_of(gpus_per_server, n),
            bandwidths: full_of(bandwidth_per_server, n),
            cpu_cores: full_of(cpu_cores_per_server, n),
            intra_bandwidths: full_of(intra_bandwidth_per_server, n),
            active_jobs,
            placement_epoch: 0,
            cycle_observation_cache: Vec::new(),
            cycle_profiles: Vec::new(),
            cycle_stats: CycleStats {
                observed_sync: 0,
                cycle_detected: 0,
                jump_applied: 0,
                jump_periods: 0,
                jumped_ticks: 0,
            },
            min_guaranteed_bw: match min_guaranteed_bw {
                Some(bandwidth) => bandwidth,
                None => N::of_int(DEFAULT_MIN_BANDWIDTH),
            },
            corun_profile,
            gpu_util_log_file,
            gpu_util_rows: Vec::new(),
            allocations: Vec::new(),
        };
        assert(cluster@.gpu_util_rows =~= Seq::empty());
        assert(cluster@.allocations =~= Seq::empty());
        // All GPUs idle at the start, so that the log has a baseline.
        cluster.log_gpu_util_snapshot(N::of_int(0));
        cluster
    }

    /// Append a GPU utilization snapshot for `current_time`. A snapshot of the same
    /// instant is replaced. Nothing is done where no log is kept.
    pub fn log_gpu_util_snapshot(&mut self, current_time: N)
        requires
            old(self)@.is_sized(),
        ensures
            final(self)@ == old(self)@.logged(current_time),
    {
        if self.gpu_util_log_file.as_str().unicode_len() == 0 {
            return;
        }
        let ghost model = self@;
        let percent: N = N::of_int(GPU_UTIL_WHEN_ALLOCATED);
        let mut nodes: Vec<N> = Vec::new();
        let mut active: i128 = 0;
        let mut s: usize = 0;
        while s < self.gpus.len()
            invariant
                s <= self.gpus@.len(),
                model == self@,
                model.is_sized(),
                percent == N::integer(GPU_UTIL_WHEN_ALLOCATED),
                active == s * model.gpus_per_server - total(model.gpus.take(s as int)),
                -0x2_0000_0000 * s <= active <= 0x2_0000_0000 * s,
                nodes@.len() == s,
                forall|i: int|
                    0 <= i < s ==> #[trigger] nodes@[i] == model.util_row(current_time).nodes[i],
            decreases self.gpus@.len() - s,
        {
            // The free GPUs are counted, so the rest is allocated.
            let allocated: i64 = self.gpus_per_server as i64 - self.gpus[s] as i64;
            proof {
                assert(model.gpus.take(s + 1).drop_last() =~= model.gpus.take(s as int));
                assert((s + 1) * model.gpus_per_server == s * model.gpus_per_server
                    + model.gpus_per_server) by (nonlinear_arith);
            }
            active += allocated as i128;
            let node_average: N = if self.gpus_per_server > 0 {
                N::of_int(allocated).times(percent).over(N::of_int(self.gpus_per_server as i64))
            } else {
                N::of_int(0)
            };
            nodes.push(node_average);
            s += 1;
        }
        assert(model.gpus.take(s as int) =~= model.gpus);
        let total_gpus: N = N::of_int(
            clamp_i64(crate::placement::wide(self.servers, self.gpus_per_server)),
        );
        let active: i64 = clamp_i64(active);
        let total_util: N = N::of_int(active).times(percent);
        let average: N = if N::of_int(0).is_less(total_gpus) {
            total_util.over(total_gpus)
        } else {
            N::of_int(0)
        };
        assert(nodes@ =~= model.util_row(current_time).nodes);
        let row = UtilRow { time: current_time, average, total: total_util, active, nodes };
        assert(row@ == model.util_row(current_time));
        let count: usize = self.gpu_util_rows.len();
        let repeated: bool = count > 0 && is_same_instant(
            self.gpu_util_rows[count - 1].0,
            current_time,
        );
        if repeated {
            let mark: N = self.gpu_util_rows[count - 1].0;
            self.gpu_util_rows.set(count - 1, (mark, row));
        } else {
            self.gpu_util_rows.push((current_time, row));
        }
        assert(self@.gpu_util_rows =~= model.logged(current_time).gpu_util_rows);
    }

    /// Head-of-line blocking is part of the bandwidth allocation, which caps the total
    /// demand, so the factor is left as it is.
    pub fn apply_hol_blocking(&self, raw_factor: N) -> (result: N)
        ensures
            result == raw_factor,
    {
        raw_factor
    }

    /// Reshapes a contention factor by `comm_contention_fraction`:
    /// `1 + r * (raw - 1)`.
    pub fn damp_contention_factor(&self, raw_factor: N) -> (result: N)
        ensures
            result == self@.damped(raw_factor),
    {
        match self.comm_contention_fraction {
            Some(fraction) => {
                if fraction.is_finite() && N::of_int(0).is_less(fraction) {
                    N::of_int(1).plus(fraction.times(raw_factor.minus(N::of_int(1))))
                } else {
                    raw_factor
                }
            },
            None => raw_factor,
        }
    }

    /// How the cap on the bandwidth of a job grows with its workers.
    fn cap_scale(&self, workers: i32) -> (result: N)
        ensures
            result == self@.cap_scale(workers),
    {
        match self.cap_n_exponent {
            Some(exponent) => {
                if exponent.is_finite() && !exponent.is_equal(N::of_int(0)) {
                    N::of_int(workers as i64).over(N::of_int(2)).power(exponent)
                } else {
                    N::of_int(1)
                }
            },
            None => N::of_int(1),
        }
    }

    /// `job.required_bandwidth(server)` clamped to
    /// `required_bandwidth_cap_factor * bandwidth_per_server` when a cap is
    /// configured. The cap grows with the number of workers to the power of
    /// `cap_n_exponent`.
    pub fn required_bandwidth_capped(&self, job: &GpuJob<N>, server: i32) -> (result: N)
        ensures
            result == self@.capped_demand(job@, server),
    {
        let raw: N = job.required_bandwidth(server);
        match self.required_bandwidth_cap_factor {
            Some(factor) => {
                if factor.is_finite() && N::of_int(0).is_less(factor) {
                    let n_scale: N = self.cap_scale(job.gpu_workers);
                    min_of(raw, factor.times(n_scale).times(self.bandwidth_per_server))
                } else {
                    raw
                }
            },
            None => raw,
        }
    }

    /// Wall-clock time per iteration with compute/communication overlap.
    pub fn effective_iteration_time(&self, job: &GpuJob<N>, actual_networking_time: N) -> (result: N)
        ensures
            result == iteration_time(
                self.overlapping_ratio,
                job.iteration_computing_time,
                actual_networking_time,
            ),
    {
        iteration_time_of(
            self.overlapping_ratio,
            job.iteration_computing_time,
            actual_networking_time,
        )
    }
}

/// The states of all jobs.
pub open spec fn arena<N>(jobs: Seq<GpuJob<N>>) -> Seq<JobModel<N>> {
    Seq::new(jobs.len(), |i: int| jobs[i]@)
}

/// The state of a simulation: the cluster, the jobs and the event queue.
#[verifier::ext_equal]
pub struct System<N> {
    pub cluster: ClusterModel<N>,
    pub jobs: Seq<JobModel<N>>,
    pub timer: TimerModel<N>,
}

/// The utilization log has one row for one instant: logging again replaces the row by one
/// of the present state.
pub proof fn one_row_for_one_instant<N: Scalar>(
    cluster: ClusterModel<N>,
    later: ClusterModel<N>,
    time: N,
)
    requires
        cluster.gpu_util_log_file.len() > 0,
        later.gpu_util_log_file == cluster.gpu_util_log_file,
        later.gpu_util_rows == cluster.logged(time).gpu_util_rows,
        time.finite(),
        time.ordered(),
    ensures
        later.logged(time).gpu_util_rows.len() == later.gpu_util_rows.len(),
        later.logged(time).gpu_util_rows.last().1 == later.util_row(time),
        later.logged(time).gpu_util_rows.drop_last() == later.gpu_util_rows.drop_last(),
{
    assert(later.logged(time).gpu_util_rows.drop_last() =~= later.gpu_util_rows.drop_last());
}

/// Logging at another instant than that of the last row adds one row. Without a log, no
/// logging changes anything.
pub proof fn one_more_row_for_another_instant<N: Scalar>(cluster: ClusterModel<N>, time: N)
    ensures
        cluster.gpu_util_log_file.len() == 0 ==> cluster.logged(time) == cluster,
        cluster.gpu_util_log_file.len() > 0 && (cluster.gpu_util_rows.len() == 0 || !same_instant(
            cluster.gpu_util_rows.last().0,
            time,
        )) ==> cluster.logged(time).gpu_util_rows == cluster.gpu_util_rows.push(
            (time, cluster.util_row(time)),
        ),
{
}

/// In whole ticks, two times are one instant just where they are the same.
pub proof fn instants_of_ticks(a: Ticks, b: Ticks)
    ensures
        same_instant(a, b) <==> a == b,
{
    assert(1int / INSTANT_PARTS as int == 0);
    assert(truncating_quotient(1, INSTANT_PARTS as int) == 0);
}

/// An iteration takes its compute and its networking time, less what of them overlaps: up to a
/// part of the compute time, and up to all of the networking time. All of it up to rounding.
pub proof fn iterations_overlap<N: Scalar>(
    overlap: N,
    compute: N,
    networking: N,
    value: spec_fn(N) -> real,
    bound: real,
    error: real,
)
    requires
        rounds(value, bound, error),
        overlap.finite(),
        compute.finite(),
        networking.finite(),
        0real <= value(overlap),
        0real <= value(compute),
        0real <= value(networking),
        value(overlap) * value(compute) <= bound,
        value(compute) + value(networking) + 2real * error <= bound,
    ensures
        iteration_time(overlap, compute, networking).finite(),
        near(
            value(iteration_time(overlap, compute, networking)),
            value(compute) + value(networking) - real_min(
                value(overlap) * value(compute),
                value(networking),
            ),
            3real * error,
        ),
{
    let o = value(overlap);
    let c = value(compute);
    let n = value(networking);
    assert(o * c >= 0real) by (nonlinear_arith)
        requires
            o >= 0real,
            c >= 0real,
    ;
    lemma_sum_near(value, compute, networking, bound, error);
    lemma_product_near(value, overlap, compute, bound, error);
    let part = overlap.product(compute);
    lemma_compared(value, part, networking, bound, error);
    lemma_difference_near(
        value,
        compute.sum(networking),
        smaller(part, networking),
        bound,
        error,
    );
}

/// A contention factor is damped to one more than the given fraction of what it is above one,
/// up to rounding. Without a fraction, or with one that is not positive, it stays as it is.
pub proof fn damping_scales_what_is_above_one<N: Scalar>(
    cluster: ClusterModel<N>,
    factor: N,
    value: spec_fn(N) -> real,
    bound: real,
    error: real,
)
    requires
        rounds(value, bound, error),
        factor.finite(),
        1real <= value(factor) <= bound,
        cluster.comm_contention_fraction matches Some(fraction) ==> fraction.finite() && value(
            fraction,
        ) * (value(factor) + error) + error + 1real <= bound,
    ensures
        match cluster.comm_contention_fraction {
            None => cluster.damped(factor) == factor,
            Some(fraction) => if value(fraction) <= 0real {
                cluster.damped(factor) == factor
            } else {
                &&& cluster.damped(factor).finite()
                &&& near(
                    value(cluster.damped(factor)),
                    1real + value(fraction) * (value(factor) - 1real),
                    (value(fraction) + 2real) * error,
                )
            },
        },
{
    lemma_integer_value(value, 0, bound, error);
    lemma_integer_value(value, 1, bound, error);
    if let Some(fraction) = cluster.comm_contention_fraction {
        lemma_compared(value, N::integer(0), fraction, bound, error);
        if value(fraction) > 0real {
            let f = value(fraction);
            let x = value(factor);
            let above = factor.difference(one());
            lemma_difference_near(value, factor, one(), bound, error);
            let a = value(above);
            let exact = f * (x - 1real);
            assert(f * a <= f * (x + error) && -bound <= f * a && near(f * a, exact, f * error)
                && exact >= 0real && f * error + error + 1real <= bound) by (nonlinear_arith)
                requires
                    near(a, x - 1real, error),
                    f > 0real,
                    x >= 1real,
                    0real <= error,
                    f * (x + error) + error + 1real <= bound,
                    exact == f * (x - 1real),
            ;
            lemma_product_near(value, fraction, above, bound, error);
            let p = fraction.product(above);
            assert(-bound <= 1real + value(p));
            lemma_sum_near(value, one(), p, bound, error);
            assert((f + 2real) * error == f * error + error + error) by (nonlinear_arith);
        }
    }
}

/// The most that a job may ask of a server's network, where that is limited: the given factor
/// of a server's bandwidth, scaled by a power of half the workers where an exponent is given.
pub open spec fn demand_cap<N: Scalar>(
    cluster: ClusterModel<N>,
    job: JobModel<N>,
    value: spec_fn(N) -> real,
) -> real {
    let bandwidth = value(cluster.bandwidth_per_server);
    match cluster.required_bandwidth_cap_factor {
        Some(factor) => match cluster.cap_n_exponent {
            Some(exponent) => if value(exponent) == 0real {
                value(factor) * bandwidth
            } else {
                value(factor) * value(
                    N::integer(job.gpu_workers as i64).quotient(N::integer(2)).powered(exponent),
                ) * bandwidth
            },
            None => value(factor) * bandwidth,
        },
        None => 0real,
    }
}

/// What a job asks of a server, capped, is the smaller one of what it asks without a cap and the
/// cap, up to rounding of the cap. Without a cap, or with one that is not positive, it is
/// what it asks.
pub proof fn capped_demand_is_the_smaller<N: Scalar>(
    cluster: ClusterModel<N>,
    job: JobModel<N>,
    server: i32,
    value: spec_fn(N) -> real,
    bound: real,
    error: real,
)
    requires
        rounds(value, bound, error),
        job.demand(server).finite(),
        cluster.bandwidth_per_server.finite(),
        0real <= value(cluster.bandwidth_per_server),
        cluster.required_bandwidth_cap_factor matches Some(factor) ==> factor.finite() && 0real
            <= value(factor) && value(factor) <= bound && value(factor) * value(
            cluster.bandwidth_per_server,
        ) <= bound,
        cluster.cap_n_exponent matches Some(exponent) ==> {
            let scale = N::integer(job.gpu_workers as i64).quotient(N::integer(2)).powered(
                exponent,
            );
            &&& exponent.finite()
            &&& scale.finite()
            &&& 0real <= value(scale)
            &&& cluster.required_bandwidth_cap_factor matches Some(factor) ==> {
                &&& value(factor) * value(scale) <= bound
                &&& (value(factor) * value(scale) + error) * value(cluster.bandwidth_per_server)
                    <= bound
            }
        },
    ensures
        ({
            let asked = job.demand(server);
            let capped = cluster.capped_demand(job, server);
            match cluster.required_bandwidth_cap_factor {
                None => capped == asked,
                Some(factor) => if value(factor) <= 0real {
                    capped == asked
                } else {
                    &&& capped.finite()
                    &&& value(capped) <= value(asked)
                    &&& near(
                        value(capped),
                        real_min(value(asked), demand_cap(cluster, job, value)),
                        (value(cluster.bandwidth_per_server) + 1real) * error,
                    )
                },
            }
        }),
{
    lemma_integer_value(value, 0, bound, error);
    lemma_integer_value(value, 1, bound, error);
    if let Some(factor) = cluster.required_bandwidth_cap_factor {
        lemma_compared(value, N::integer(0), factor, bound, error);
        if value(factor) > 0real {
            let f = value(factor);
            let b = value(cluster.bandwidth_per_server);
            let scale = cluster.cap_scale(job.gpu_workers);
            if let Some(exponent) = cluster.cap_n_exponent {
                lemma_compared(value, exponent, N::integer(0), bound, error);
                lemma_compared(value, N::integer(0), exponent, bound, error);
            }
            let s = value(scale);
            assert(scale.finite() && 0real <= s);
            assert(s == 1real ==> f * s == f) by (nonlinear_arith);
            assert(0real <= f * s) by (nonlinear_arith)
                requires
                    f >= 0real,
                    s >= 0real,
            ;
            lemma_product_near(value, factor, scale, bound, error);
            let scaled = factor.product(scale);
            let g = value(scaled);
            lemma_product_near(value, N::integer(0), scale, bound, error);
            assert(value(N::integer(0).product(scale)) <= g) by {
                assert(0real * s == 0real) by (nonlinear_arith);
            }
            assert(0real <= g * b <= bound && near(g * b, f * s * b, error * b)) by {
                if cluster.cap_n_exponent matches Some(exponent) && value(exponent) != 0real {
                    assert(0real <= g * b <= bound && near(g * b, f * s * b, error * b))
                        by (nonlinear_arith)
                        requires
                            0real <= g,
                            near(g, f * s, error),
                            0real <= b,
                            (f * s + error) * b <= bound,
                    ;
                } else {
                    assert(g == f);
                    assert(0real <= g * b && near(g * b, f * s * b, error * b))
                        by (nonlinear_arith)
                        requires
                            g == f,
                            s == 1real,
                            f >= 0real,
                            0real <= b,
                            error >= 0real,
                    ;
                }
            }
            lemma_product_near(value, scaled, cluster.bandwidth_per_server, bound, error);
            let cap = scaled.product(cluster.bandwidth_per_server);
            lemma_compared(value, job.demand(server), cap, bound, error);
            assert(demand_cap(cluster, job, value) == f * s * b);
            assert((b + 1real) * error == error * b + error) by (nonlinear_arith);
        }
    }
}

/// A row of the utilization log says how many GPUs are allocated, which is all that are not free, and
/// what part of all GPUs that is and of those of each server, in percent; up to rounding.
pub proof fn utilization_is_the_part_allocated<N: Scalar>(
    cluster: ClusterModel<N>,
    time: N,
    server: int,
    value: spec_fn(N) -> real,
    bound: real,
    error: real,
)
    requires
        rounds(value, bound, error),
        cluster.is_sized(),
        0 <= server < cluster.servers,
        0 < cluster.gpus_per_server,
        0 <= cluster.gpus[server] <= cluster.gpus_per_server,
        0 <= total(cluster.gpus) <= cluster.servers * cluster.gpus_per_server,
        cluster.servers * cluster.gpus_per_server <= EXACT_INTEGER,
        100 * (cluster.servers * cluster.gpus_per_server) <= EXACT_INTEGER,
    ensures
        ({
            let row = cluster.util_row(time);
            let all = cluster.servers * cluster.gpus_per_server;
            let busy = all - total(cluster.gpus);
            let busy_here = cluster.gpus_per_server - cluster.gpus[server];
            &&& row.time == time
            &&& row.active == busy
            &&& value(row.total) == (100 * busy) as real
            &&& near(
                value(row.average) * (all as real),
                (100 * busy) as real,
                error * (all as real),
            )
            &&& row.nodes.len() == cluster.servers
            &&& near(
                value(row.nodes[server]) * (cluster.gpus_per_server as real),
                (100 * busy_here) as real,
                error * (cluster.gpus_per_server as real),
            )
        }),
{
    let row = cluster.util_row(time);
    let all = cluster.servers * cluster.gpus_per_server;
    let per = cluster.gpus_per_server as int;
    let busy = all - total(cluster.gpus);
    let busy_here = per - cluster.gpus[server];
    assert(all >= per) by (nonlinear_arith)
        requires
            all == cluster.servers * per,
            cluster.servers >= 1,
            per > 0,
    ;
    lemma_integer_value(value, 0, bound, error);
    lemma_integer_value(value, 100, bound, error);
    lemma_integer_value(value, all as i64, bound, error);
    lemma_integer_value(value, per as i64, bound, error);
    lemma_percentage(busy, all, value, bound, error);
    lemma_percentage(busy_here, per, value, bound, error);
    lemma_compared(value, N::integer(0), N::integer(all as i64), bound, error);
}

/// A part of a whole in percent.
proof fn lemma_percentage<N: Scalar>(
    part: int,
    whole: int,
    value: spec_fn(N) -> real,
    bound: real,
    error: real,
)
    requires
        rounds(value, bound, error),
        0 <= part <= whole,
        0 < whole,
        100 * whole <= EXACT_INTEGER,
    ensures
        ({
            let hundredfold = N::integer(part as i64).product(N::integer(100));
            let result = hundredfold.quotient(N::integer(whole as i64));
            &&& value(hundredfold) == (100 * part) as real
            &&& near(
                value(result) * (whole as real),
                (100 * part) as real,
                error * (whole as real),
            )
        }),
{
    let count = N::integer(part as i64);
    let percent = N::integer(100);
    lemma_integer_value(value, 100, bound, error);
    lemma_integer_value(value, part as i64, bound, error);
    lemma_integer_value(value, whole as i64, bound, error);
    lemma_integer_value(value, (100 * part) as i64, bound, error);
    let hundredfold = count.product(percent);
    assert((part as real) * 100real == (100 * part) as real);
    assert(stands_for(value, hundredfold, (100 * part) as real, bound, error));
    assert(value(N::integer((100 * part) as i64)) == (100 * part) as real);
    let h = (100 * part) as real;
    let w = whole as real;
    let exact = h / w;
    assert(0real <= exact <= 100real && exact * w == h) by (nonlinear_arith)
        requires
            exact == h / w,
            0real <= h <= 100real * w,
            w > 0real,
    ;
    lemma_quotient_near(value, hundredfold, N::integer(whole as i64), bound, error);
    let result = value(hundredfold.quotient(N::integer(whole as i64)));
    assert(near(result * w, h, error * w)) by (nonlinear_arith)
        requires
            near(result, exact, error),
            exact * w == h,
            w > 0real,
    ;
}

/// Two times are one instant where they are the same or less than a millionth of a millionth apart, and
/// are not where they are further apart, up to rounding.
pub proof fn instants_are_a_millionth_of_a_millionth<N: Scalar>(
    a: N,
    b: N,
    value: spec_fn(N) -> real,
    bound: real,
    error: real,
)
    requires
        rounds(value, bound, error),
        a.finite(),
        b.finite(),
        -bound + error <= value(a) - value(b) <= bound - error,
        N::integer(1_000_000_000_000).finite(),
        value(N::integer(1_000_000_000_000)) == 1_000_000_000_000real,
    ensures
        value(a) == value(b) ==> same_instant(a, b),
        ({
            let apart = if value(a) < value(b) {
                value(b) - value(a)
            } else {
                value(a) - value(b)
            };
            let instant = 1real / 1_000_000_000_000real;
            &&& apart + 3real * error < instant ==> same_instant(a, b)
            &&& apart > 0real && apart >= instant + 3real * error ==> !same_instant(a, b)
        }),
{
    lemma_integer_value(value, 0, bound, error);
    lemma_integer_value(value, 1, bound, error);
    let d = a.difference(b);
    let million = N::integer(1_000_000_000_000);
    let unit = one::<N>().quotient(million);
    assert(0real <= 1real / 1_000_000_000_000real <= 1real);
    lemma_quotient_near(value, one(), million, bound, error);
    lemma_difference_near(value, a, b, bound, error);
    lemma_compared(value, d, N::integer(0), bound, error);
    if value(d) < 0real {
        lemma_difference_near(value, N::integer(0), d, bound, error);
    }
    lemma_compared(value, magnitude(d), unit, bound, error);
    lemma_compared(value, a, b, bound, error);
    lemma_compared(value, b, a, bound, error);
}

} // verus!
