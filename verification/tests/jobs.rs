use mosim::gpu_job::{GpuJob, Phase};
use mosim::scalar::{Scalar, Ticks};

#[derive(Debug, Clone, Copy, PartialEq)]
struct F(f64);

impl Scalar for F {
    fn is_less(self, rhs: Self) -> bool {
        self.0 < rhs.0
    }
    fn is_equal(self, rhs: Self) -> bool {
        self.0 == rhs.0
    }
    fn plus(self, rhs: Self) -> Self {
        F(self.0 + rhs.0)
    }
    fn minus(self, rhs: Self) -> Self {
        F(self.0 - rhs.0)
    }
    fn times(self, rhs: Self) -> Self {
        F(self.0 * rhs.0)
    }
    fn over(self, rhs: Self) -> Self {
        F(self.0 / rhs.0)
    }
    fn of_int(value: i64) -> Self {
        F(value as f64)
    }
    fn trunc(self) -> i64 {
        self.0 as i64
    }
    fn round(self) -> i64 {
        self.0.round() as i64
    }
    fn is_finite(self) -> bool {
        self.0.is_finite()
    }
    fn power(self, exponent: Self) -> Self {
        F(self.0.powf(exponent.0))
    }
    fn power_int(self, exponent: i32) -> Self {
        F(self.0.powi(exponent))
    }
    fn greatest() -> Self {
        F(f64::MAX)
    }
    fn read(text: &str) -> Option<Self> {
        text.parse().ok().map(F)
    }
}

fn make_test_job() -> GpuJob<F> {
    GpuJob::new(
        1,
        "resnet110".to_string(),
        F(0.0),
        F(100.0),
        F(0.5),
        F(0.3),
        4,
        0,
        1,
        4,
        4,
        F(100.0),
        F(1.0),
        F(500.0),
        F(10.0),
    )
}

#[test]
fn test_required_bandwidth_allreduce_all_colocated() {
    let mut job = make_test_job();
    job.allocated = vec![0, 0, 0, 0];
    assert_eq!(job.required_bandwidth(0), F(0.0));
}

#[test]
fn test_required_bandwidth_allreduce_distributed() {
    let mut job = make_test_job();
    job.allocated = vec![0, 0, 1, 1];
    // gpu_workers=4, >2 => 2 * C_j / gpu_workers = 2 * 500 / 4 = 250
    assert!((job.required_bandwidth(0).0 - 250.0).abs() < 1e-6);
    assert!((job.required_bandwidth(1).0 - 250.0).abs() < 1e-6);
}

#[test]
fn test_required_bandwidth_ps() {
    let mut job = make_test_job();
    job.ps = 2;
    job.allocated = vec![0, 0, 1, 1];
    job.ps_allocated = vec![0, 1];
    // PS model: C_j * (ps_inside * wk_outside + ps_outside * wk_inside) / (ps * gpu_workers)
    // server 0: C_j * (1 * 2 + 1 * 2) / (2 * 4) = 500 * 4 / 8 = 250
    assert!((job.required_bandwidth(0).0 - 250.0).abs() < 1e-6);
}

#[test]
fn test_comm_phase_tracking() {
    let mut job = make_test_job();
    job.consumed_comms_time = Some(F(0.0));

    // Start comm phase at time 10 with contention 1.0
    job.start_comm_phase(F(10.0), F(1.0));
    assert!(job.is_in_comm_phase);

    // At time 10.15 (0.15s elapsed), remaining = 0.3 - 0.15 = 0.15
    let remaining = job.get_comm_remaining_original(F(10.15));
    assert!((remaining.0 - 0.15).abs() < 1e-9);

    // Update contention at time 10.15 to 2.0
    job.update_comm_contention(F(10.15), F(2.0));
    // remaining should still be 0.15
    let remaining = job.get_comm_remaining_original(F(10.15));
    assert!((remaining.0 - 0.15).abs() < 1e-9);

    // Finish at time 10.45 (0.15 original remaining * 2.0 contention = 0.30 wall clock)
    job.finish_comm_phase(F(10.45));
    assert!(!job.is_in_comm_phase);
}

#[test]
fn a_new_job_is_loading_and_not_placed() {
    let job = make_test_job();
    assert_eq!(job.job_id, 1);
    assert_eq!(job.current_phase, Phase::Loading);
    assert_eq!(job.current_phase.as_str(), "loading");
    assert_eq!(job.temp_arrival_time, F(0.0));
    assert_eq!(job.training_time, None);
    assert!(job.allocated.is_empty());
    assert!(job.using_bandwidths.is_empty());
    assert_eq!(job.skewness, F(1.0));
    assert_eq!(job.profiled_network, F(500.0));
    assert_eq!(job.loading_time, F(10.0));
}

#[test]
fn phases_have_names() {
    assert_eq!(Phase::Compute.as_str(), "compute");
    assert_eq!(Phase::Comm.as_str(), "comm");
    assert_eq!(Phase::Completed.as_str(), "completed");
}

#[test]
fn two_workers_ask_for_half_and_one_for_nothing() {
    let mut job = make_test_job();
    job.gpu_workers = 2;
    job.allocated = vec![0, 1];
    assert_eq!(job.required_bandwidth(0), F(250.0));
    job.gpu_workers = 1;
    job.allocated = vec![0];
    assert_eq!(job.required_bandwidth(0), F(0.0));
    assert_eq!(job.required_bandwidth(1), F(0.0));
}

#[test]
fn bandwidth_inside_a_server_follows_the_workers_on_it() {
    let mut job = make_test_job();
    job.allocated = vec![0, 0, 0, 1];
    assert_eq!(job.required_intra_bandwidth_per_server(0), F(375.0));
    assert_eq!(job.required_intra_bandwidth_per_server(1), F(125.0));
    assert_eq!(job.required_intra_bandwidth_per_server(2), F(0.0));
    job.allocated = vec![0, 0, 0, 0];
    assert_eq!(job.required_intra_bandwidth_per_server(0), F(500.0));
    job.gpu_workers = 0;
    assert_eq!(job.required_intra_bandwidth_per_server(0), F(0.0));
}

#[test]
fn a_communication_phase_records_its_segments() {
    let mut job = make_test_job();
    job.consumed_comms_time = Some(F(1.0));
    job.start_comm_phase(F(10.0), F(2.0));
    job.update_comm_contention(F(11.0), F(4.0));
    assert_eq!(job.comm_phase_segments, vec![(F(10.0), F(11.0), F(2.0))]);
    assert_eq!(job.comm_phase_original_done, F(0.5));
    job.finish_comm_phase(F(13.0));
    assert_eq!(
        job.comm_phase_segments,
        vec![(F(10.0), F(11.0), F(2.0)), (F(11.0), F(13.0), F(4.0))]
    );
    assert_eq!(job.comm_phase_original_done, F(1.0));
    assert_eq!(job.consumed_comms_time, Some(F(4.0)));
    // Outside a communication phase nothing is recorded.
    job.update_comm_contention(F(14.0), F(1.0));
    job.finish_comm_phase(F(15.0));
    assert_eq!(job.comm_phase_segments.len(), 2);
    assert_eq!(job.get_comm_remaining_original(F(15.0)), F(0.0));
}

fn ticks(count: i64) -> Ticks {
    Ticks { count }
}

fn tick_job() -> GpuJob<Ticks> {
    GpuJob::new(
        0,
        "m".to_string(),
        ticks(0),
        ticks(5),
        ticks(10),
        ticks(100),
        4,
        0,
        1,
        1,
        1,
        ticks(0),
        ticks(0),
        ticks(800),
        ticks(0),
    )
}

#[test]
fn a_change_of_contention_keeps_what_is_left() {
    let mut job = tick_job();
    job.start_comm_phase(ticks(1000), ticks(2));
    assert_eq!(job.get_comm_remaining_original(ticks(1000)), ticks(100));
    assert_eq!(job.get_comm_remaining_original(ticks(1050)), ticks(75));
    job.update_comm_contention(ticks(1050), ticks(5));
    assert_eq!(job.get_comm_remaining_original(ticks(1050)), ticks(75));
    assert_eq!(job.get_comm_remaining_original(ticks(1100)), ticks(65));
}

#[test]
fn a_colocated_job_asks_nothing_of_the_network() {
    let mut job = tick_job();
    job.allocated = vec![3, 3, 3, 3];
    assert_eq!(job.required_bandwidth(3), ticks(0));
    job.ps = 1;
    job.ps_allocated = vec![3];
    assert_eq!(job.required_bandwidth(3), ticks(0));
    job.ps_allocated = vec![2];
    // 800 * (0 * 0 + 1 * 4) / (1 * 4)
    assert_eq!(job.required_bandwidth(3), ticks(800));
}

#[test]
fn demands_inside_the_servers_add_up() {
    let mut job = tick_job();
    job.profiled_network = ticks(100);
    job.gpu_workers = 7;
    job.allocated = vec![0, 1, 2, 0, 1, 0, 0];
    let demands: Vec<i64> =
        (0..4).map(|server| job.required_intra_bandwidth_per_server(server).count).collect();
    assert_eq!(demands, vec![57, 28, 14, 0]);
    let sum: i64 = demands.iter().sum();
    assert!(sum <= 100 && sum > 100 - 3);
}

#[test]
fn what_is_left_falls_by_the_new_contention() {
    let mut job = tick_job();
    job.start_comm_phase(ticks(1000), ticks(1));
    job.update_comm_contention(ticks(1040), ticks(3));
    let left = job.get_comm_remaining_original(ticks(1040));
    assert_eq!(left, ticks(60));
    for later in [1040, 1050, 1100, 1219, 1220, 2000] {
        let expected = (left.count - (later - 1040) / 3).max(0);
        assert_eq!(job.get_comm_remaining_original(ticks(later)), ticks(expected));
    }
}

#[test]
fn demands_inside_the_servers_add_up_to_rounding() {
    let mut job = make_test_job();
    job.profiled_network = F(0.7);
    job.gpu_workers = 7;
    job.allocated = vec![0, 1, 2, 0, 1, 0, 0];
    let demands: Vec<f64> =
        (0..4).map(|server| job.required_intra_bandwidth_per_server(server).0).collect();
    assert!((demands[0] - 0.4).abs() < 1e-12);
    assert!((demands[1] - 0.2).abs() < 1e-12);
    assert!((demands[2] - 0.1).abs() < 1e-12);
    assert_eq!(demands[3], 0.0);
    assert!((demands.iter().sum::<f64>() - 0.7).abs() < 1e-12);
}

#[test]
fn what_is_left_falls_to_rounding_by_the_new_contention() {
    let mut job = make_test_job();
    job.iteration_networking_time = F(1.0);
    job.start_comm_phase(F(10.0), F(1.0));
    let before = job.get_comm_remaining_original(F(10.4));
    job.update_comm_contention(F(10.4), F(3.0));
    let left = job.get_comm_remaining_original(F(10.4));
    assert_eq!(left, before);
    assert!((left.0 - 0.6).abs() < 1e-12);
    for later in [10.4, 10.5, 11.0, 12.19, 12.3, 20.0] {
        let expected = (left.0 - (later - 10.4) / 3.0).max(0.0);
        assert!((job.get_comm_remaining_original(F(later)).0 - expected).abs() < 1e-12);
    }
}
