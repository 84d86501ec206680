use mosim::corun::{CorunProfile, PairEntry, SoloEntry};
use mosim::gpu_cluster::GPUCluster;
use mosim::gpu_job::{GpuJob, Phase};
use mosim::gpu_scheduler::{GPUScheduler, SchedulerState, Step};
use mosim::interference::InterferenceModel;
use mosim::placement::{enough_room, plan_placement, Demand, PlacementMethod};
use mosim::report::{output_lines, percentile, summarize};
use mosim::scalar::{Scalar, Ticks};
use mosim::simulation::{start_simulation, StartError};
use mosim::timer::{EventType, Timer};

#[derive(Debug, Clone, Copy, PartialEq)]
struct F(f64);

impl Scalar for F {
    fn is_less(self, rhs: Self) -> bool {
        self.0 < rhs.0
    }
    fn is_equal(self, rhs: Self) -> bool {
        self.0 == rhs.0
    }
    fn plus(self, rhs: Self) -> Self {
        F(self.0 + rhs.0)
    }
    fn minus(self, rhs: Self) -> Self {
        F(self.0 - rhs.0)
    }
    fn times(self, rhs: Self) -> Self {
        F(self.0 * rhs.0)
    }
    fn over(self, rhs: Self) -> Self {
        F(self.0 / rhs.0)
    }
    fn of_int(value: i64) -> Self {
        F(value as f64)
    }
    fn trunc(self) -> i64 {
        self.0 as i64
    }
    fn round(self) -> i64 {
        self.0.round() as i64
    }
    fn is_finite(self) -> bool {
        self.0.is_finite()
    }
    fn power(self, exponent: Self) -> Self {
        F(self.0.powf(exponent.0))
    }
    fn power_int(self, exponent: i32) -> Self {
        F(self.0.powi(exponent))
    }
    fn greatest() -> Self {
        F(f64::MAX)
    }
    fn read(text: &str) -> Option<Self> {
        text.parse().ok().map(F)
    }
}

/// What the clusters of the tests differ in.
struct Settings {
    servers: i32,
    gpus: i32,
    bandwidth: f64,
    intra: f64,
    model: InterferenceModel,
    ratio: Option<f64>,
    jump: bool,
    overlap: f64,
    profile: CorunProfile<F>,
    util_log: &'static str,
    cap: Option<f64>,
    fraction: Option<f64>,
    exponent: Option<f64>,
    guaranteed: Option<f64>,
    mm1: bool,
    weighted: bool,
    efficiency: Option<f64>,
}

fn settings(model: InterferenceModel) -> Settings {
    Settings {
        servers: 4,
        gpus: 8,
        bandwidth: 463.0,
        intra: 16_384.0,
        model,
        ratio: None,
        jump: true,
        overlap: 0.0,
        profile: CorunProfile::default(),
        util_log: "",
        cap: None,
        fraction: None,
        exponent: None,
        guaranteed: None,
        mm1: false,
        weighted: false,
        efficiency: None,
    }
}

fn build(s: Settings) -> GPUCluster<F> {
    GPUCluster::new(
        s.servers,
        s.gpus,
        F(s.bandwidth),
        F(s.intra),
        256,
        String::new(),
        s.model,
        s.ratio.map(F),
        6,
        s.jump,
        F(s.overlap),
        s.profile,
        s.util_log.to_string(),
        s.cap.map(F),
        s.fraction.map(F),
        s.exponent.map(F),
        s.guaranteed.map(F),
        s.mm1,
        F(0.05),
        s.weighted,
        s.efficiency.map(F),
    )
}

fn test_cluster() -> GPUCluster<F> {
    build(settings(InterferenceModel::Absent))
}

/// A job with the given number, workers, iterations and times; one GPU and one core for each
/// worker, loaded in two seconds.
fn job(id: i32, workers: i32, arrival: f64, iterations: f64, compute: f64, network: f64) -> GpuJob<F> {
    GpuJob::new(
        id,
        "test-model".to_string(),
        F(arrival),
        F(iterations),
        F(compute),
        F(network),
        workers,
        0,
        1,
        1,
        1,
        F(0.0),
        F(0.0),
        F(500.0),
        F(2.0),
    )
}

#[test]
fn k8s_load_balancing_does_not_overallocate_a_server_when_workers_exceed_server_count() {
    let mut cluster = test_cluster();
    cluster.gpus = vec![2, 3, 1, 2];
    let mut jobs = vec![GpuJob::new(
        0,
        "test-model".to_string(),
        F(0.0),
        F(1.0),
        F(1.0),
        F(0.0),
        8,
        0,
        1,
        1,
        1,
        F(0.0),
        F(0.0),
        F(0.0),
        F(0.0),
    )];
    let mut timer = Timer::new();

    let placed = cluster.allocate_resources(
        0,
        PlacementMethod::K8sLoadBalancing,
        F(0.0),
        &mut jobs,
        &mut timer,
    );

    assert!(placed);
    assert_eq!(jobs[0].allocated, vec![1, 0, 3, 2, 1, 0, 3, 1]);
    assert_eq!(cluster.gpus, vec![0, 0, 0, 0]);
}

fn demand(workers: i32, ps: i32) -> Demand {
    Demand {
        gpu_workers: workers,
        ps,
        gpu_per_worker: 1,
        cpu_per_gpu_worker: 2,
        cpu_per_ps: 3,
    }
}

fn planned(method: PlacementMethod, demand: Demand, skewed: bool) -> Option<(Vec<i32>, Vec<i32>)> {
    let gpus = vec![2, 3, 1, 2];
    let cpus = vec![16, 8, 32, 16];
    plan_placement(method, &gpus, &cpus, demand, skewed).map(|plan| (plan.allocated, plan.ps_allocated))
}

#[test]
fn load_balancing_deals_the_workers_out_in_rounds() {
    assert_eq!(
        planned(PlacementMethod::K8sLoadBalancing, demand(6, 0), false),
        Some((vec![1, 0, 3, 2, 1, 0], vec![]))
    );
    // The parameter servers go to the servers with the most cores.
    assert_eq!(
        planned(PlacementMethod::K8sLoadBalancing, demand(2, 5), false),
        Some((vec![1, 0], vec![2, 0, 3, 1, 2]))
    );
    // There are eight GPUs, but two for each worker fit only on three servers.
    let wide = Demand { gpu_per_worker: 2, ..demand(4, 0) };
    assert_eq!(planned(PlacementMethod::K8sLoadBalancing, wide, false), None);
    let fitting = Demand { gpu_per_worker: 2, ..demand(3, 0) };
    assert_eq!(
        planned(PlacementMethod::K8sLoadBalancing, fitting, false),
        Some((vec![1, 0, 3], vec![]))
    );
}

#[test]
fn bin_packing_fills_the_servers_with_the_fewest_gpus_first() {
    assert_eq!(
        planned(PlacementMethod::K8sBinPacking, demand(4, 2), false),
        Some((vec![2, 0, 0, 3], vec![1, 0]))
    );
    assert_eq!(planned(PlacementMethod::K8sBinPacking, demand(9, 0), false), None);
    // Eight cores for a worker let one server hold one worker only.
    let heavy = Demand { cpu_per_gpu_worker: 8, ..demand(4, 0) };
    assert_eq!(
        planned(PlacementMethod::K8sBinPacking, heavy, false),
        Some((vec![2, 0, 0, 3], vec![]))
    );
}

#[test]
fn colocation_takes_one_server() {
    assert_eq!(
        planned(PlacementMethod::Colocate, demand(2, 1), false),
        Some((vec![1, 1], vec![1]))
    );
    assert_eq!(planned(PlacementMethod::Colocate, demand(4, 0), false), None);
    // The server with the most GPUs has too few cores for these.
    assert_eq!(
        planned(PlacementMethod::Colocate, demand(2, 4), false),
        Some((vec![0, 0], vec![0, 0, 0, 0]))
    );
    assert_eq!(planned(PlacementMethod::Colocate, demand(0, 0), false), Some((vec![], vec![])));
    assert_eq!(planned(PlacementMethod::Colocate, demand(0, 1), false), None);
}

#[test]
fn tiresias_keeps_skewed_jobs_together() {
    assert_eq!(
        planned(PlacementMethod::Tiresias, demand(2, 0), true),
        Some((vec![0, 0], vec![]))
    );
    assert_eq!(
        planned(PlacementMethod::Tiresias, demand(5, 1), false),
        Some((vec![2, 0, 3, 1, 2], vec![2]))
    );
}

#[test]
fn no_plan_without_room() {
    for method in [
        PlacementMethod::K8sLoadBalancing,
        PlacementMethod::K8sBinPacking,
        PlacementMethod::Colocate,
        PlacementMethod::Tiresias,
    ] {
        assert_eq!(planned(method, demand(9, 0), false), None);
        assert_eq!(planned(method, Demand { cpu_per_gpu_worker: 80, ..demand(1, 0) }, false), None);
    }
}

#[test]
fn a_skewed_job_is_colocated_by_tiresias() {
    let mut cluster = test_cluster();
    cluster.gpus = vec![2, 3, 1, 2];
    let mut jobs = vec![job(0, 2, 0.0, 1.0, 1.0, 0.0)];
    jobs[0].skewness = F(5.5);
    let mut timer = Timer::new();
    assert!(cluster.allocate_resources(0, PlacementMethod::Tiresias, F(0.0), &mut jobs, &mut timer));
    assert_eq!(jobs[0].allocated, vec![0, 0]);
}

#[test]
fn placing_and_releasing_restores_the_resources() {
    let mut s = settings(InterferenceModel::CommsIterIntra);
    s.util_log = "util.csv";
    let mut cluster = build(s);
    let mut jobs = vec![job(0, 3, 1.0, 1.0, 1.0, 0.5)];
    jobs[0].ps = 2;
    jobs[0].gpu_per_worker = 2;
    jobs[0].cpu_per_gpu_worker = 4;
    let mut timer = Timer::new();
    assert!(cluster.allocate_resources(
        0,
        PlacementMethod::K8sBinPacking,
        F(5.0),
        &mut jobs,
        &mut timer
    ));
    assert_eq!(jobs[0].allocated, vec![0, 0, 0]);
    assert_eq!(jobs[0].ps_allocated, vec![0, 1]);
    assert_eq!(jobs[0].start_time, Some(F(5.0)));
    assert_eq!(jobs[0].wait_time, Some(F(4.0)));
    assert_eq!(
        jobs[0].gpu_allocation,
        vec![(0, 0), (0, 1), (0, 0), (0, 1), (0, 0), (0, 1)]
    );
    assert_eq!(cluster.gpus, vec![2, 8, 8, 8]);
    assert_eq!(cluster.cpu_cores, vec![256 - 12 - 1, 256 - 1, 256, 256]);
    assert_eq!(cluster.active_jobs, vec![vec![0], vec![0], vec![], vec![]]);
    assert_eq!(cluster.placement_epoch, 1);
    assert_eq!(timer.peek_next_event(), Some((F(7.0), EventType::Start, 0)));
    assert_eq!(cluster.allocations.len(), 1);
    assert_eq!(cluster.allocations[0].allocated, vec![0, 0, 0]);
    assert_eq!(cluster.gpu_util_rows.len(), 2);
    assert_eq!(cluster.gpu_util_rows[1].1.active, 6);
    assert_eq!(cluster.gpu_util_rows[1].1.total, F(600.0));
    assert_eq!(cluster.gpu_util_rows[1].1.average, F(18.75));
    assert_eq!(cluster.gpu_util_rows[1].1.nodes, vec![F(75.0), F(0.0), F(0.0), F(0.0)]);

    cluster.release_resources(0, F(9.0), &mut jobs, &mut timer);
    assert_eq!(cluster.gpus, vec![8, 8, 8, 8]);
    assert_eq!(cluster.cpu_cores, vec![256, 256, 256, 256]);
    assert_eq!(cluster.active_jobs, vec![vec![], vec![], vec![], vec![]]);
    assert_eq!(cluster.placement_epoch, 2);
    assert_eq!(cluster.gpu_util_rows.len(), 3);
    assert_eq!(cluster.gpu_util_rows[2].1.active, 0);
}

#[test]
fn a_snapshot_of_the_same_instant_is_replaced() {
    let mut s = settings(InterferenceModel::Absent);
    s.util_log = "util.csv";
    let mut cluster = build(s);
    assert_eq!(cluster.gpu_util_rows.len(), 1);
    cluster.gpus = vec![4, 8, 8, 8];
    cluster.log_gpu_util_snapshot(F(0.0));
    assert_eq!(cluster.gpu_util_rows.len(), 1);
    assert_eq!(cluster.gpu_util_rows[0].1.active, 4);
    cluster.log_gpu_util_snapshot(F(1.0));
    assert_eq!(cluster.gpu_util_rows.len(), 2);
    let mut silent = test_cluster();
    silent.log_gpu_util_snapshot(F(1.0));
    assert_eq!(silent.gpu_util_rows.len(), 0);
}

fn ticks(count: i64) -> Ticks {
    Ticks { count }
}

/// A cluster of two servers of four GPUs that counts in whole ticks.
fn tick_cluster(util_log: &str) -> GPUCluster<Ticks> {
    GPUCluster::new(
        2,
        4,
        ticks(400),
        ticks(16_384),
        256,
        String::new(),
        InterferenceModel::Comms,
        None,
        6,
        true,
        ticks(0),
        CorunProfile::default(),
        util_log.to_string(),
        None,
        None,
        None,
        None,
        false,
        ticks(1),
        false,
        None,
    )
}

#[test]
fn snapshots_of_one_tick_share_a_row() {
    let mut cluster = tick_cluster("util.csv");
    assert_eq!(cluster.gpu_util_rows.len(), 1);
    cluster.log_gpu_util_snapshot(ticks(0));
    assert_eq!(cluster.gpu_util_rows.len(), 1);
    cluster.log_gpu_util_snapshot(ticks(7));
    assert_eq!(cluster.gpu_util_rows.len(), 2);
    cluster.gpus = vec![1, 4];
    cluster.log_gpu_util_snapshot(ticks(7));
    assert_eq!(cluster.gpu_util_rows.len(), 2);
    assert_eq!(cluster.gpu_util_rows[1].0, ticks(7));
    assert_eq!(cluster.gpu_util_rows[1].1.active, 3);
    assert_eq!(cluster.gpu_util_rows[1].1.nodes, vec![ticks(75), ticks(0)]);
    assert_eq!(cluster.gpu_util_rows[0].1.active, 0);
    cluster.log_gpu_util_snapshot(ticks(8));
    assert_eq!(cluster.gpu_util_rows.len(), 3);
    assert_eq!(cluster.gpu_util_rows[2].0, ticks(8));
    let mut silent = tick_cluster("");
    silent.log_gpu_util_snapshot(ticks(7));
    silent.log_gpu_util_snapshot(ticks(7));
    assert_eq!(silent.gpu_util_rows.len(), 0);
}

#[test]
fn times_that_are_almost_the_same_share_a_row() {
    let mut s = settings(InterferenceModel::Absent);
    s.util_log = "util.csv";
    let mut cluster = build(s);
    cluster.log_gpu_util_snapshot(F(0.3));
    assert_eq!(cluster.gpu_util_rows.len(), 2);
    cluster.log_gpu_util_snapshot(F(0.1 + 0.2));
    assert_eq!(cluster.gpu_util_rows.len(), 2);
    assert_eq!(cluster.gpu_util_rows[1].0, F(0.3));
    // The difference of an infinite time and itself is no number.
    cluster.log_gpu_util_snapshot(F(f64::INFINITY));
    cluster.log_gpu_util_snapshot(F(f64::INFINITY));
    assert_eq!(cluster.gpu_util_rows.len(), 4);
}

#[test]
fn contention_is_damped_by_its_fraction() {
    let mut s = settings(InterferenceModel::Comms);
    s.fraction = Some(0.5);
    let cluster = build(s);
    assert_eq!(cluster.damp_contention_factor(F(3.0)), F(2.0));
    assert_eq!(cluster.apply_hol_blocking(F(3.0)), F(3.0));
    assert_eq!(test_cluster().damp_contention_factor(F(3.0)), F(3.0));
    let mut s = settings(InterferenceModel::Comms);
    s.fraction = Some(-1.0);
    assert_eq!(build(s).damp_contention_factor(F(3.0)), F(3.0));
}

#[test]
fn demand_is_capped() {
    let mut spread = job(0, 4, 0.0, 1.0, 1.0, 0.0);
    spread.allocated = vec![0, 0, 1, 1];
    assert_eq!(test_cluster().required_bandwidth_capped(&spread, 0), F(250.0));
    let mut s = settings(InterferenceModel::Comms);
    s.bandwidth = 400.0;
    s.cap = Some(0.25);
    assert_eq!(build(s).required_bandwidth_capped(&spread, 0), F(100.0));
    let mut s = settings(InterferenceModel::Comms);
    s.bandwidth = 400.0;
    s.cap = Some(0.25);
    s.exponent = Some(1.0);
    assert_eq!(build(s).required_bandwidth_capped(&spread, 0), F(200.0));
}

#[test]
fn compute_overlaps_with_communication() {
    let mut s = settings(InterferenceModel::Comms);
    s.overlap = 0.5;
    let cluster = build(s);
    let long = job(0, 1, 0.0, 1.0, 4.0, 0.0);
    assert_eq!(cluster.effective_iteration_time(&long, F(3.0)), F(5.0));
    assert_eq!(cluster.effective_iteration_time(&long, F(1.0)), F(4.0));
}

/// Two jobs of four workers that train on two servers.
fn two_sharing_jobs() -> (Vec<GpuJob<F>>, Vec<Vec<i32>>) {
    let mut jobs = vec![job(0, 4, 0.0, 10.0, 1.0, 1.0), job(1, 4, 0.0, 10.0, 1.0, 1.0)];
    for job in jobs.iter_mut() {
        job.allocated = vec![0, 0, 1, 1];
        job.training_time = Some(F(2.0));
        job.consumed_compute_time = Some(F(0.0));
        job.consumed_comms_time = Some(F(0.0));
    }
    (jobs, vec![vec![0, 1], vec![0, 1], vec![], vec![]])
}

#[test]
fn bandwidth_is_shared_out_in_proportion() {
    let mut s = settings(InterferenceModel::Comms);
    s.bandwidth = 400.0;
    let mut cluster = build(s);
    let (mut jobs, active) = two_sharing_jobs();
    cluster.active_jobs = active;
    cluster.allocate_bandwidth(&mut jobs);
    // Each asks for 250 of 400.
    assert_eq!(jobs[0].using_bandwidths[&0], F(200.0));
    assert_eq!(jobs[1].using_bandwidths[&1], F(200.0));
    assert_eq!(cluster.bandwidths, vec![F(0.0), F(0.0), F(400.0), F(400.0)]);
    // Sharing again changes nothing.
    cluster.allocate_bandwidth(&mut jobs);
    assert_eq!(jobs[0].using_bandwidths[&0], F(200.0));
    assert_eq!(cluster.bandwidths, vec![F(0.0), F(0.0), F(400.0), F(400.0)]);
    // A job that does not train asks for nothing.
    jobs[1].training_time = None;
    cluster.allocate_bandwidth(&mut jobs);
    assert_eq!(jobs[0].using_bandwidths[&0], F(250.0));
    assert_eq!(jobs[1].using_bandwidths[&0], F(0.0));
    assert_eq!(cluster.bandwidths[0], F(150.0));
}

#[test]
fn shares_stay_within_demand_and_capacity() {
    for bandwidth in [100.0, 463.0, 700.0, 10_000.0] {
        let mut s = settings(InterferenceModel::Comms);
        s.bandwidth = bandwidth;
        let mut cluster = build(s);
        let (mut jobs, _) = two_sharing_jobs();
        jobs.push(job(2, 3, 0.0, 10.0, 1.0, 1.0));
        jobs[2].allocated = vec![0, 1, 1];
        jobs[2].training_time = Some(F(2.0));
        jobs[2].consumed_compute_time = Some(F(0.0));
        jobs[2].consumed_comms_time = Some(F(0.0));
        cluster.active_jobs = vec![vec![0, 1, 2], vec![0, 1, 2], vec![], vec![]];
        cluster.allocate_bandwidth(&mut jobs);
        for server in 0..2 {
            let mut sum = 0.0;
            let mut asked = 0.0;
            for job in jobs.iter() {
                let share = job.using_bandwidths[&server].0;
                let demand = cluster.required_bandwidth_capped(job, server).0;
                assert!(0.0 <= share && share <= demand);
                sum += share;
                asked += demand;
            }
            assert!(sum <= bandwidth + 1e-9);
            assert!((sum - asked.min(bandwidth)).abs() < 1e-9);
        }
    }
}

#[test]
fn blocking_lowers_the_capacity() {
    let mut s = settings(InterferenceModel::Comms);
    s.bandwidth = 400.0;
    s.efficiency = Some(0.5);
    let mut cluster = build(s);
    let (mut jobs, active) = two_sharing_jobs();
    cluster.active_jobs = active;
    cluster.allocate_bandwidth(&mut jobs);
    assert_eq!(jobs[0].using_bandwidths[&0], F(100.0));
    assert_eq!(cluster.bandwidths[0], F(200.0));
}

#[test]
fn computing_jobs_ask_for_nothing_or_their_part() {
    let mut cluster = build(settings(InterferenceModel::CommsIter));
    let (mut jobs, active) = two_sharing_jobs();
    cluster.active_jobs = active.clone();
    jobs[0].is_in_comm_phase = true;
    cluster.allocate_bandwidth(&mut jobs);
    assert_eq!(jobs[0].using_bandwidths[&0], F(250.0));
    assert_eq!(jobs[1].using_bandwidths[&0], F(0.0));
    let mut s = settings(InterferenceModel::CommsIter);
    s.weighted = true;
    let mut cluster = build(s);
    cluster.active_jobs = active;
    cluster.allocate_bandwidth(&mut jobs);
    assert_eq!(jobs[1].using_bandwidths[&0], F(125.0));
}

#[test]
fn renewal_paces_jobs_by_their_contention() {
    let mut s = settings(InterferenceModel::Comms);
    s.bandwidth = 400.0;
    let mut cluster = build(s);
    let (mut jobs, active) = two_sharing_jobs();
    cluster.active_jobs = active;
    let mut timer = Timer::new();
    timer.add_event(F(20.0), EventType::Complete, 0);
    timer.add_event(F(20.0), EventType::Complete, 1);
    cluster.allocate_bandwidth(&mut jobs);
    cluster.update_completion_times(F(0.0), &mut jobs, &mut timer);
    // 250 / 200 = 1.25, so an iteration takes 2.25.
    assert_eq!(jobs[0].last_network_factor, Some(F(1.25)));
    assert_eq!(jobs[0].remaining_train_time, Some(F(22.5)));
    assert_eq!(timer.peek_next_event().unwrap().0, F(22.5));
    // After two iterations the other job is gone.
    cluster.active_jobs = vec![vec![0], vec![0], vec![], vec![]];
    cluster.allocate_bandwidth(&mut jobs);
    cluster.update_completion_times(F(4.5), &mut jobs, &mut timer);
    assert_eq!(jobs[0].completed_iterations, Some(F(2.0)));
    assert_eq!(jobs[0].last_network_factor, Some(F(1.0)));
    assert_eq!(jobs[0].training_time, Some(F(6.5)));
    assert!((jobs[0].consumed_compute_time.unwrap().0 - 2.0).abs() < 1e-9);
    assert!((jobs[0].consumed_comms_time.unwrap().0 - 2.5).abs() < 1e-9);
    assert_eq!(timer.peek_next_event(), Some((F(20.5), EventType::Complete, 0)));
}

#[test]
fn renewal_recalls_the_next_arrival() {
    let mut cluster = test_cluster();
    let mut jobs = vec![job(0, 1, 3.0, 1.0, 1.0, 0.0)];
    let mut timer = Timer::new();
    timer.add_event(F(3.0), EventType::Arrive, 0);
    cluster.update_completion_times(F(8.0), &mut jobs, &mut timer);
    assert_eq!(timer.peek_next_event(), Some((F(8.0), EventType::Arrive, 0)));
    assert_eq!(jobs[0].temp_arrival_time, F(8.0));
}

#[test]
fn fixed_interference_needs_a_neighbour() {
    let mut s = settings(InterferenceModel::Fixed);
    s.ratio = Some(0.5);
    let mut cluster = build(s);
    let (mut jobs, active) = two_sharing_jobs();
    cluster.active_jobs = active;
    let mut timer = Timer::new();
    timer.add_event(F(20.0), EventType::Complete, 0);
    timer.add_event(F(20.0), EventType::Complete, 1);
    cluster.update_completion_times(F(0.0), &mut jobs, &mut timer);
    assert_eq!(jobs[0].last_network_factor, Some(F(1.5)));
    cluster.active_jobs = vec![vec![0], vec![0], vec![], vec![]];
    cluster.update_completion_times(F(0.0), &mut jobs, &mut timer);
    assert_eq!(jobs[0].last_network_factor, Some(F(1.0)));
}

/// Two jobs that communicate on two servers.
fn communicating(model: InterferenceModel, mm1: bool, intra: f64) -> (GPUCluster<F>, Vec<GpuJob<F>>, Timer<F>) {
    let mut s = settings(model);
    s.bandwidth = 400.0;
    s.mm1 = mm1;
    s.intra = intra;
    let mut cluster = build(s);
    let (mut jobs, active) = two_sharing_jobs();
    cluster.active_jobs = active;
    for job in jobs.iter_mut() {
        job.start_comm_phase(F(0.0), F(1.0));
    }
    let mut timer = Timer::new();
    timer.add_event(F(1.0), EventType::IterCommEnd, 0);
    timer.add_event(F(1.0), EventType::IterCommEnd, 1);
    cluster.allocate_bandwidth(&mut jobs);
    (cluster, jobs, timer)
}

#[test]
fn communication_phases_are_stretched_by_contention() {
    let (mut cluster, mut jobs, mut timer) = communicating(InterferenceModel::CommsIter, false, 16_384.0);
    cluster.update_completion_times(F(0.5), &mut jobs, &mut timer);
    // Half of the phase is left, at 250 / 200.
    assert_eq!(jobs[0].comm_phase_current_contention, Some(F(1.25)));
    assert_eq!(timer.peek_next_event().unwrap().0, F(1.125));
}

#[test]
fn contention_inside_a_server_counts_where_the_model_looks_inside() {
    // Each job asks 250 inside a server that has 200.
    let (mut cluster, mut jobs, mut timer) = communicating(InterferenceModel::CommsIterIntra, false, 200.0);
    cluster.update_completion_times(F(0.5), &mut jobs, &mut timer);
    assert_eq!(jobs[0].comm_phase_current_contention, Some(F(2.5)));
    assert_eq!(timer.peek_next_event().unwrap().0, F(1.75));
}

#[test]
fn queueing_contention_is_bounded() {
    // 500 of 400 is asked for, so the load is clamped to 0.95.
    let (mut cluster, mut jobs, mut timer) = communicating(InterferenceModel::CommsIterIntra, true, 16_384.0);
    cluster.update_completion_times(F(0.0), &mut jobs, &mut timer);
    assert!((jobs[0].comm_phase_current_contention.unwrap().0 - 20.0).abs() < 1e-9);
}

/// Starts a simulation and runs it.
fn run(method: PlacementMethod, cluster: &mut GPUCluster<F>, jobs: &mut Vec<GpuJob<F>>) -> (GPUScheduler<F>, Option<Step>) {
    match start_simulation(method, jobs, cluster) {
        Ok((mut scheduler, mut timer)) => {
            let outcome = scheduler.run(jobs, cluster, &mut timer, 100_000);
            (scheduler, outcome)
        }
        Err(error) => panic!("{:?}", error),
    }
}

#[test]
fn a_single_job_runs_to_its_end() {
    let mut cluster = test_cluster();
    let mut jobs = vec![job(0, 2, 3.0, 10.0, 1.0, 0.5)];
    let (scheduler, outcome) = run(PlacementMethod::K8sLoadBalancing, &mut cluster, &mut jobs);
    assert_eq!(outcome, Some(Step::Finished));
    let metrics = scheduler.metrics(&jobs);
    assert_eq!(metrics.jobs.len(), 1);
    let m = &metrics.jobs[0];
    assert_eq!(m.model, "test-model");
    assert_eq!(m.arrival_time, F(3.0));
    assert_eq!(m.start_time, F(3.0));
    assert_eq!(m.end_time, F(20.0));
    assert_eq!(m.jct, F(17.0));
    assert_eq!(m.wait_time, F(0.0));
    assert_eq!(m.queueing_wait_time, F(0.0));
    assert_eq!(m.loading_time, F(2.0));
    assert!((m.compute_time.0 - 10.0).abs() < 1e-9);
    assert!((m.comms_time.0 - 5.0).abs() < 1e-9);
    assert!((m.training_time.0 - 17.0).abs() < 1e-9);
    assert!((m.gpu_util().0 - 1000.0 / 17.0).abs() < 1e-9);
    assert_eq!(cluster.gpus, vec![8, 8, 8, 8]);
    assert_eq!(scheduler.current_state, SchedulerState::Idle);
    // All the time until the last end is idle time: the job was placed at once.
    assert_eq!(metrics.sched_idle_time, F(20.0));
}

#[test]
fn iterations_are_run_one_by_one_where_they_are_split() {
    let mut cluster = build(settings(InterferenceModel::CommsIter));
    let mut jobs = vec![job(0, 2, 3.0, 3.0, 1.0, 0.5)];
    let (scheduler, outcome) = run(PlacementMethod::Colocate, &mut cluster, &mut jobs);
    assert_eq!(outcome, Some(Step::Finished));
    assert_eq!(scheduler.metrics(&jobs).jobs[0].end_time, F(9.5));
    assert_eq!(jobs[0].current_iteration, 3);
    assert_eq!(jobs[0].current_phase, Phase::Completed);
    assert_eq!(jobs[0].consumed_compute_time, Some(F(3.0)));
    assert_eq!(jobs[0].consumed_comms_time, Some(F(1.5)));
}

#[test]
fn skipping_cycles_does_not_change_the_end() {
    let mut cluster = build(settings(InterferenceModel::CommsIterLcm));
    let mut jobs = vec![job(0, 2, 3.0, 100.0, 1.0, 0.5)];
    let (scheduler, outcome) = run(PlacementMethod::Colocate, &mut cluster, &mut jobs);
    assert_eq!(outcome, Some(Step::Finished));
    assert!((scheduler.metrics(&jobs).jobs[0].end_time.0 - 155.0).abs() < 1e-6);
    assert_eq!(jobs[0].current_iteration, 100);
    assert!((jobs[0].consumed_compute_time.unwrap().0 - 100.0).abs() < 1e-6);
    assert!((jobs[0].consumed_comms_time.unwrap().0 - 50.0).abs() < 1e-6);
    assert_eq!(cluster.cycle_stats.jump_applied, 1);
    assert!(cluster.cycle_stats.jump_periods > 90);
    assert_eq!(cluster.cycle_stats.cycle_detected, 1);
    let mut s = settings(InterferenceModel::CommsIterLcm);
    s.jump = false;
    let mut plain = build(s);
    let mut again = vec![job(0, 2, 3.0, 100.0, 1.0, 0.5)];
    run(PlacementMethod::Colocate, &mut plain, &mut again);
    assert_eq!(plain.cycle_stats.jump_applied, 0);
    assert!((again[0].end_time.unwrap().0 - 155.0).abs() < 1e-6);
}

#[test]
fn a_jump_ends_before_the_next_arrival() {
    let mut cluster = build(settings(InterferenceModel::CommsIterLcm));
    let mut jobs = vec![job(0, 2, 0.0, 100.0, 1.0, 0.5), job(1, 2, 50.0, 2.0, 1.0, 0.5)];
    let (scheduler, outcome) = run(PlacementMethod::Colocate, &mut cluster, &mut jobs);
    assert_eq!(outcome, Some(Step::Finished));
    let metrics = scheduler.metrics(&jobs);
    assert_eq!(metrics.jobs[0].job_id, 1);
    assert_eq!(metrics.jobs[0].start_time, F(50.0));
    assert!((metrics.jobs[0].end_time.0 - 55.0).abs() < 1e-6);
    assert!((metrics.jobs[1].end_time.0 - 152.0).abs() < 1e-6);
    assert!(cluster.cycle_stats.jump_applied >= 2);
}

#[test]
fn a_job_waits_until_another_is_through() {
    let mut s = settings(InterferenceModel::Absent);
    s.servers = 1;
    let mut cluster = build(s);
    let mut jobs = vec![job(0, 8, 0.0, 10.0, 1.0, 0.0), job(1, 8, 1.0, 10.0, 1.0, 0.0)];
    let (scheduler, outcome) = run(PlacementMethod::K8sBinPacking, &mut cluster, &mut jobs);
    assert_eq!(outcome, Some(Step::Finished));
    let metrics = scheduler.metrics(&jobs);
    assert_eq!(metrics.jobs[0].end_time, F(12.0));
    assert_eq!(metrics.jobs[1].start_time, F(12.0));
    assert_eq!(metrics.jobs[1].end_time, F(24.0));
    assert_eq!(metrics.jobs[1].wait_time, F(11.0));
    assert_eq!(metrics.jobs[1].queueing_wait_time, F(0.0));
    assert_eq!(metrics.jobs[1].capacity_wait_time, F(11.0));
    assert_eq!(metrics.jobs[1].placement_wait_time, F(0.0));
    assert_eq!(metrics.sched_capacity_wait_time, F(11.0));
}

#[test]
fn a_job_that_never_fits_is_unplaceable() {
    let mut cluster = test_cluster();
    let mut jobs = vec![job(0, 33, 0.0, 1.0, 1.0, 0.0)];
    let (_, outcome) = run(PlacementMethod::K8sLoadBalancing, &mut cluster, &mut jobs);
    assert_eq!(outcome, Some(Step::Unplaceable(0)));
}

#[test]
fn resources_that_cannot_be_counted_stop_the_run() {
    let mut s = settings(InterferenceModel::Absent);
    s.servers = 1;
    let mut cluster = build(s);
    let mut jobs = vec![job(0, 2, 0.0, 1.0, 1.0, 0.0)];
    jobs[0].gpu_per_worker = i32::MAX;
    let (_, outcome) = run(PlacementMethod::Tiresias, &mut cluster, &mut jobs);
    assert_eq!(outcome, Some(Step::Overflow(0)));
    assert_eq!(cluster.gpus, vec![8]);
}

#[test]
fn a_run_can_be_bounded() {
    let mut cluster = test_cluster();
    let mut jobs = vec![job(0, 2, 3.0, 10.0, 1.0, 0.5)];
    if let Ok((mut scheduler, mut timer)) =
        start_simulation(PlacementMethod::Colocate, &jobs, &cluster)
    {
        assert_eq!(scheduler.run(&mut jobs, &mut cluster, &mut timer, 1), None);
        assert_eq!(jobs[0].start_time, Some(F(3.0)));
        assert_eq!(scheduler.step(&mut jobs, &mut cluster, &mut timer), Step::Handled);
        assert_eq!(scheduler.step(&mut jobs, &mut cluster, &mut timer), Step::Handled);
        assert_eq!(scheduler.step(&mut jobs, &mut cluster, &mut timer), Step::Finished);
    } else {
        panic!("the simulation does not start");
    }
}

#[test]
fn arrivals_without_events_starve() {
    let mut cluster = test_cluster();
    let mut jobs = vec![job(0, 2, 3.0, 10.0, 1.0, 0.5)];
    let mut timer = Timer::new();
    let none: Vec<GpuJob<F>> = Vec::new();
    let mut scheduler = GPUScheduler::new(PlacementMethod::Colocate, &none, &mut timer);
    timer.add_arrival(0);
    assert_eq!(scheduler.step(&mut jobs, &mut cluster, &mut timer), Step::Starved);
}

#[test]
fn jobs_arrive_in_the_order_of_their_times() {
    let jobs = vec![job(0, 1, 5.0, 1.0, 1.0, 0.0), job(1, 1, 2.0, 1.0, 1.0, 0.0), job(2, 1, 5.0, 1.0, 1.0, 0.0)];
    let mut timer = Timer::new();
    let scheduler = GPUScheduler::new(PlacementMethod::Colocate, &jobs, &mut timer);
    assert_eq!(scheduler.placement_method, PlacementMethod::Colocate);
    assert_eq!(timer.get_next_event(), Some((F(2.0), EventType::Arrive, 1)));
    assert_eq!(timer.get_next_arrival(), Some(0));
    assert_eq!(timer.get_next_arrival(), Some(2));
}

fn start_error(method: PlacementMethod, cluster: &GPUCluster<F>, jobs: &Vec<GpuJob<F>>) -> Option<StartError> {
    start_simulation(method, jobs, cluster).err()
}

#[test]
fn a_simulation_of_flawed_jobs_does_not_start() {
    let cluster = test_cluster();
    let good = job(0, 1, 0.0, 1.0, 1.0, 0.0);
    let misnumbered = vec![good.clone(), job(0, 1, 0.0, 1.0, 1.0, 0.0)];
    assert_eq!(
        start_error(PlacementMethod::Colocate, &cluster, &misnumbered),
        Some(StartError::Misnumbered(1))
    );
    let mut unordered = vec![job(0, 1, f64::NAN, 1.0, 1.0, 0.0)];
    // A single job needs no order.
    assert_eq!(start_error(PlacementMethod::Colocate, &cluster, &unordered), None);
    unordered.push(job(1, 1, 0.0, 1.0, 1.0, 0.0));
    assert_eq!(
        start_error(PlacementMethod::Colocate, &cluster, &unordered),
        Some(StartError::Unordered(0))
    );
    let mut free = job(0, 1, 0.0, 1.0, 1.0, 0.0);
    free.cpu_per_gpu_worker = 0;
    let undividable = vec![free];
    assert_eq!(
        start_error(PlacementMethod::K8sBinPacking, &cluster, &undividable),
        Some(StartError::Undividable(0))
    );
    assert_eq!(start_error(PlacementMethod::Colocate, &cluster, &undividable), None);
    let corun = build(settings(InterferenceModel::CorunProfile));
    assert_eq!(
        start_error(PlacementMethod::Colocate, &corun, &vec![good]),
        Some(StartError::Unprofiled(0))
    );
}

fn pair<V>(gpus: i32, co_gpus: i32, value: V) -> PairEntry<V> {
    PairEntry {
        model: "test-model".to_string(),
        gpus,
        co_model: "test-model".to_string(),
        co_gpus,
        value,
    }
}

fn profile() -> CorunProfile<F> {
    CorunProfile {
        solo: vec![
            SoloEntry { model: "test-model".to_string(), gpus: 2, times: (F(9.0), F(9.0)) },
            SoloEntry { model: "test-model".to_string(), gpus: 2, times: (F(1.0), F(0.5)) },
        ],
        colocate: vec![pair(2, 1, (F(1.5), F(0.5))), pair(2, 4, (F(7.0), F(7.0)))],
        colocate_loading: vec![pair(2, 2, F(6.0))],
    }
}

#[test]
fn profiles_are_looked_up_by_the_closest_neighbour() {
    let tables = profile();
    let small = job(0, 2, 0.0, 1.0, 3.0, 4.0);
    let large = job(1, 4, 0.0, 1.0, 3.0, 4.0);
    // The later solo entry holds.
    assert_eq!(tables.times_alone(&small), (F(1.0), F(0.5)));
    assert_eq!(tables.times_alone(&large), (F(3.0), F(4.0)));
    // Two GPUs: the entry with one is the closest below.
    assert_eq!(tables.times_beside(&small, &small), (F(1.5), F(0.5)));
    assert_eq!(tables.times_beside(&small, &large), (F(7.0), F(7.0)));
    assert_eq!(tables.times_beside(&large, &small), (F(3.0), F(4.0)));
    assert_eq!(tables.loading_time_beside(&small, &small), F(6.0));
    assert_eq!(tables.loading_time_beside(&large, &small), F(2.0));
}

#[test]
fn corunning_jobs_take_the_times_of_the_profile() {
    let mut s = settings(InterferenceModel::CorunProfile);
    s.servers = 1;
    s.profile = profile();
    let mut cluster = build(s);
    let mut jobs = vec![job(0, 2, 0.0, 10.0, 1.0, 0.5), job(1, 2, 0.0, 10.0, 1.0, 0.5)];
    let (scheduler, outcome) = run(PlacementMethod::Colocate, &mut cluster, &mut jobs);
    assert_eq!(outcome, Some(Step::Finished));
    // The first job loads alone, the second beside it.
    assert_eq!(jobs[0].loading_time, F(2.0));
    assert_eq!(jobs[1].loading_time, F(6.0));
    // The first trains alone from 2 to 6, at 1.5, and then beside the other, at 2.
    let metrics = scheduler.metrics(&jobs);
    assert_eq!(metrics.jobs[0].job_id, 0);
    let done = 4.0 / 1.5;
    let first_end = 6.0 + (10.0 - done) * 2.0;
    assert!((metrics.jobs[0].end_time.0 - first_end).abs() < 1e-9);
    let second_done = (first_end - 6.0) / 2.0;
    let second_end = first_end + (10.0 - second_done) * 1.5;
    assert!((metrics.jobs[1].end_time.0 - second_end).abs() < 1e-9);
}

#[test]
fn percentiles_lie_between_values() {
    let values = vec![F(4.0), F(1.0), F(3.0), F(2.0)];
    assert_eq!(percentile(&values, F(50.0)), Some(F(2.5)));
    assert_eq!(percentile(&values, F(0.0)), Some(F(1.0)));
    assert_eq!(percentile(&values, F(100.0)), Some(F(4.0)));
    assert!((percentile(&values, F(99.0)).unwrap().0 - 3.97).abs() < 1e-9);
    assert_eq!(percentile(&vec![F(7.0)], F(99.0)), Some(F(7.0)));
    assert_eq!(percentile::<F>(&vec![], F(99.0)), Some(F(0.0)));
    assert_eq!(percentile(&values, F(200.0)), None);
    assert_eq!(percentile(&vec![F(1.0), F(f64::NAN)], F(50.0)), None);
}

#[test]
fn a_simulation_is_summed_up() {
    let mut s = settings(InterferenceModel::Absent);
    s.servers = 1;
    let mut cluster = build(s);
    let mut jobs = vec![job(0, 8, 0.0, 10.0, 1.0, 0.0), job(1, 8, 1.0, 10.0, 1.0, 0.0)];
    let (scheduler, _) = run(PlacementMethod::K8sBinPacking, &mut cluster, &mut jobs);
    let metrics = scheduler.metrics(&jobs);
    let summary = summarize(&metrics);
    assert_eq!(summary.avg_jct, F(17.5));
    assert_eq!(summary.avg_waiting, F(5.5));
    assert_eq!(summary.avg_loading, F(2.0));
    assert_eq!(summary.avg_training, F(12.0));
    assert_eq!(summary.makespan, F(24.0));
    assert!((summary.tail_jct.unwrap().0 - 22.89).abs() < 1e-9);
    assert!((summary.tail_waiting.unwrap().0 - 10.89).abs() < 1e-9);
    assert_eq!(summary.tail_queueing, Some(F(0.0)));
    assert!((summary.tail_capacity.unwrap().0 - 10.89).abs() < 1e-9);
    assert_eq!(summary.tail_placement, Some(F(0.0)));
    assert_eq!(summary.tail_training, Some(F(12.0)));
    assert_eq!(summary.tail_loading, Some(F(2.0)));
    assert!((summary.capacity_wait_ratio.0 - 11.0 / 24.0).abs() < 1e-9);
    let times = summary.idle_ratio.0 + summary.capacity_wait_ratio.0 + summary.placement_wait_ratio.0;
    assert!((times - 1.0).abs() < 1e-9);
}

#[test]
fn output_goes_below_what_is_there() {
    let text = |s: &str| s.to_string();
    assert_eq!(
        output_lines(None, text("h"), vec![text("a"), text("b")]),
        vec![text("h"), text("a"), text("b")]
    );
    assert_eq!(
        output_lines(Some(vec![text("h"), text("a")]), text("h"), vec![text("b")]),
        vec![text("h"), text("a"), text("b")]
    );
}

#[test]
fn the_neighbour_with_the_slowest_networking_decides() {
    let pair_with = |other: &str, value: (F, F)| PairEntry {
        model: "test-model".to_string(),
        gpus: 1,
        co_model: other.to_string(),
        co_gpus: 1,
        value,
    };
    let mut s = settings(InterferenceModel::CorunProfile);
    s.servers = 1;
    s.profile = CorunProfile {
        solo: ["test-model", "slow", "busy"]
            .iter()
            .map(|name| SoloEntry { model: name.to_string(), gpus: 1, times: (F(1.0), F(1.0)) })
            .collect(),
        colocate: vec![
            pair_with("busy", (F(9.0), F(2.0))),
            pair_with("slow", (F(3.0), F(4.0))),
        ],
        colocate_loading: vec![],
    };
    let mut cluster = build(s);
    let mut jobs = vec![
        job(0, 1, 0.0, 10.0, 1.0, 1.0),
        job(1, 1, 0.0, 10.0, 1.0, 1.0),
        job(2, 1, 0.0, 10.0, 1.0, 1.0),
    ];
    jobs[1].model = "busy".to_string();
    jobs[2].model = "slow".to_string();
    cluster.active_jobs = vec![vec![0, 1, 2]];
    let mut timer = Timer::new();
    for (id, job) in jobs.iter_mut().enumerate() {
        job.allocated = vec![0];
        job.training_time = Some(F(0.0));
        job.consumed_compute_time = Some(F(0.0));
        job.consumed_comms_time = Some(F(0.0));
        timer.add_event(F(100.0), EventType::Complete, id as i32);
    }
    cluster.update_completion_times(F(0.0), &mut jobs, &mut timer);
    // The whole row of the slow neighbour holds, not the worst of each column.
    assert_eq!(jobs[0].iteration_computing_time, F(3.0));
    assert_eq!(jobs[0].iteration_networking_time, F(4.0));
    assert_eq!(jobs[0].remaining_train_time, Some(F(70.0)));
    // The others have no rows for their neighbours and go by their solo times.
    assert_eq!(jobs[1].remaining_train_time, Some(F(20.0)));
    assert_eq!(timer.peek_next_event().unwrap().0, F(20.0));
}

#[test]
fn every_job_of_a_run_completes_once() {
    for method in [
        PlacementMethod::K8sLoadBalancing,
        PlacementMethod::K8sBinPacking,
        PlacementMethod::Colocate,
        PlacementMethod::Tiresias,
    ] {
        for model in [
            InterferenceModel::Absent,
            InterferenceModel::Comms,
            InterferenceModel::CommsIter,
            InterferenceModel::CommsIterIntra,
            InterferenceModel::CommsIterLcm,
            InterferenceModel::CommsIterIntraLcm,
        ] {
            let mut cluster = build(settings(model));
            let mut jobs: Vec<GpuJob<F>> = (0..12)
                .map(|id| {
                    job(id, 1 + id % 4, (id / 2) as f64, 5.0 + id as f64, 1.0, 0.25 * (id % 3) as f64)
                })
                .collect();
            let (scheduler, outcome) = run(method, &mut cluster, &mut jobs);
            assert_eq!(outcome, Some(Step::Finished));
            let mut done = scheduler.metrics_jobs.clone();
            done.sort();
            assert_eq!(done, (0..12).collect::<Vec<i32>>());
            // They are placed in the order of their arrival.
            let placed: Vec<i32> = cluster.allocations.iter().map(|entry| entry.job).collect();
            assert_eq!(placed, (0..12).collect::<Vec<i32>>());
            assert_eq!(cluster.gpus, vec![8, 8, 8, 8]);
            assert_eq!(cluster.cpu_cores, vec![256, 256, 256, 256]);
            for m in &scheduler.metrics(&jobs).jobs {
                let waits = m.queueing_wait_time.0 + m.capacity_wait_time.0 + m.placement_wait_time.0;
                assert!((waits - m.wait_time.0).abs() < 1e-9);
                assert!(m.start_time.0 >= m.arrival_time.0);
                assert!(m.end_time.0 > m.start_time.0);
            }
        }
    }
}

/// A job "a" on a server beside a job "b" that loads, with a profile for the two.
fn loading_beside(profiled: Vec<PairEntry<F>>, neighbours: Vec<i32>) -> F {
    let mut s = settings(InterferenceModel::CorunProfile);
    s.servers = 1;
    s.profile = CorunProfile {
        solo: vec![
            SoloEntry { model: "a".to_string(), gpus: 1, times: (F(1.0), F(1.0)) },
            SoloEntry { model: "b".to_string(), gpus: 1, times: (F(1.0), F(1.0)) },
        ],
        colocate: vec![],
        colocate_loading: profiled,
    };
    let mut cluster = build(s);
    let mut jobs = vec![
        job(0, 1, 0.0, 1.0, 1.0, 1.0),
        job(1, 1, 0.0, 1.0, 1.0, 1.0),
        job(2, 1, 0.0, 1.0, 1.0, 1.0),
    ];
    jobs[0].model = "a".to_string();
    jobs[0].loading_time = F(3.0);
    jobs[1].model = "b".to_string();
    jobs[2].model = "c".to_string();
    for id in neighbours.iter() {
        jobs[*id as usize].allocated = vec![0];
    }
    cluster.active_jobs = vec![neighbours];
    let mut timer = Timer::new();
    assert!(cluster.allocate_resources(0, PlacementMethod::Colocate, F(0.0), &mut jobs, &mut timer));
    jobs[0].loading_time
}

fn loading_entry(other: &str, time: f64) -> PairEntry<F> {
    PairEntry {
        model: "a".to_string(),
        gpus: 1,
        co_model: other.to_string(),
        co_gpus: 1,
        value: F(time),
    }
}

#[test]
fn the_profiled_loading_time_holds_beside_a_neighbour() {
    // Also where it is shorter than the solo one.
    assert_eq!(loading_beside(vec![loading_entry("b", 2.0)], vec![1]), F(2.0));
    assert_eq!(loading_beside(vec![loading_entry("b", 5.0)], vec![1]), F(5.0));
    // Of several neighbours the slowest counts, and one without an entry counts as none.
    let both = || vec![loading_entry("b", 2.0), loading_entry("c", 2.5)];
    assert_eq!(loading_beside(both(), vec![1, 2]), F(2.5));
    assert_eq!(loading_beside(both(), vec![2, 1]), F(2.5));
    assert_eq!(loading_beside(vec![loading_entry("b", 2.0)], vec![1, 2]), F(3.0));
    // Without a neighbour the solo time holds.
    assert_eq!(loading_beside(both(), vec![]), F(3.0));
}

#[test]
fn neighbours_without_an_entry_are_named() {
    let mut s = settings(InterferenceModel::CorunProfile);
    s.servers = 2;
    s.profile = profile();
    let mut cluster = build(s);
    let mut jobs = vec![
        job(0, 2, 0.0, 1.0, 1.0, 1.0),
        job(1, 2, 0.0, 1.0, 1.0, 1.0),
        job(2, 2, 0.0, 1.0, 1.0, 1.0),
    ];
    jobs[2].model = "other".to_string();
    for job in jobs.iter_mut() {
        job.allocated = vec![0, 1];
    }
    cluster.active_jobs = vec![vec![0, 1, 2], vec![2, 0]];
    assert_eq!(cluster.unprofiled_neighbours(0, true, &jobs), vec![2, 2]);
    // Only jobs that train count for the iteration time.
    assert_eq!(cluster.unprofiled_neighbours(0, false, &jobs), vec![]);
    jobs[2].training_time = Some(F(0.0));
    assert_eq!(cluster.unprofiled_neighbours(0, false, &jobs), vec![2, 2]);
    jobs[1].allocated = vec![0, 0];
    assert_eq!(cluster.unprofiled_neighbours(1, true, &jobs), vec![2]);
}

#[test]
fn the_cap_is_scaled_for_every_number_of_workers() {
    let mut single = job(0, 1, 0.0, 1.0, 1.0, 0.0);
    single.ps = 1;
    single.allocated = vec![0];
    single.ps_allocated = vec![1];
    let cluster_with = |exponent: Option<f64>| {
        let mut s = settings(InterferenceModel::Comms);
        s.bandwidth = 100.0;
        s.cap = Some(2.0);
        s.exponent = exponent;
        build(s)
    };
    // The job asks for 500. The cap is 2 * (1 / 2)^1 * 100.
    assert_eq!(single.required_bandwidth(0), F(500.0));
    assert_eq!(cluster_with(Some(1.0)).required_bandwidth_capped(&single, 0), F(100.0));
    assert_eq!(cluster_with(Some(0.0)).required_bandwidth_capped(&single, 0), F(200.0));
    assert_eq!(cluster_with(None).required_bandwidth_capped(&single, 0), F(200.0));
    assert_eq!(cluster_with(Some(f64::NAN)).required_bandwidth_capped(&single, 0), F(200.0));
}

#[test]
fn room_is_counted_over_all_servers() {
    let gpus = vec![2, 3, 1, 2];
    let cpus = vec![16, 8, 32, 16];
    assert!(enough_room(&gpus, &cpus, demand(8, 0)));
    assert!(!enough_room(&gpus, &cpus, demand(9, 0)));
    assert!(!enough_room(&gpus, &cpus, demand(8, 19)));
}

#[test]
fn percentiles_do_not_depend_on_the_order() {
    let there = vec![F(4.0), F(1.0), F(3.0), F(2.0)];
    let back = vec![F(2.0), F(3.0), F(1.0), F(4.0)];
    let mut last = F(0.0);
    for percent in [0.0, 10.0, 50.0, 75.0, 99.0, 100.0] {
        let value = percentile(&there, F(percent));
        assert_eq!(value, percentile(&back, F(percent)));
        assert!(last.0 <= value.unwrap().0);
        last = value.unwrap();
    }
}
