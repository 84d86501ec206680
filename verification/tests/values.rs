use mosim::interference::{is_mm1, InterferenceModel};
use mosim::lists::{count_in, count_of, distinct_of, sum_of};
use mosim::placement::PlacementMethod;
use mosim::ranking::sort_ascending;
use mosim::scalar::{magnitude_of, max_of, min_of, Scalar, Ticks};
use mosim::tables::Column;
use mosim::text::{parse_i32, parse_i64, same_but_case, same_text};

fn ticks(count: i64) -> Ticks {
    Ticks { count }
}

#[test]
fn ticks_saturate() {
    assert_eq!(ticks(i64::MAX).plus(ticks(1)), ticks(i64::MAX));
    assert_eq!(ticks(i64::MIN).minus(ticks(1)), ticks(i64::MIN));
    assert_eq!(ticks(i64::MAX).times(ticks(-2)), ticks(i64::MIN));
    assert_eq!(ticks(3).plus(ticks(4)), ticks(7));
    assert_eq!(ticks(3).minus(ticks(4)), ticks(-1));
    assert_eq!(ticks(3).times(ticks(4)), ticks(12));
}

#[test]
fn ticks_divide_toward_zero() {
    assert_eq!(ticks(7).over(ticks(2)), ticks(3));
    assert_eq!(ticks(-7).over(ticks(2)), ticks(-3));
    assert_eq!(ticks(i64::MIN).over(ticks(-1)), ticks(i64::MAX));
    assert_eq!(ticks(5).over(ticks(0)), ticks(i64::MAX));
    assert_eq!(ticks(-5).over(ticks(0)), ticks(i64::MIN));
    assert_eq!(ticks(0).over(ticks(0)), ticks(0));
}

#[test]
fn ticks_have_powers() {
    assert_eq!(ticks(10).power_int(3), ticks(1000));
    assert_eq!(ticks(10).power_int(0), ticks(1));
    assert_eq!(ticks(10).power_int(-1), ticks(0));
    assert_eq!(ticks(2).power(ticks(10)), ticks(1024));
    assert_eq!(ticks(10).power_int(40), ticks(i64::MAX));
}

#[test]
fn ticks_compare_and_convert() {
    assert!(ticks(1).is_less(ticks(2)));
    assert!(!ticks(2).is_less(ticks(2)));
    assert!(ticks(2).is_equal(ticks(2)));
    assert!(ticks(2).is_finite());
    assert_eq!(ticks(9).trunc(), 9);
    assert_eq!(ticks(9).round(), 9);
    assert_eq!(Ticks::of_int(-4), ticks(-4));
    assert_eq!(Ticks::greatest(), ticks(i64::MAX));
    assert_eq!(Ticks::read("-12"), Some(ticks(-12)));
    assert_eq!(Ticks::read("1.5"), None);
    assert_eq!(max_of(ticks(1), ticks(2)), ticks(2));
    assert_eq!(min_of(ticks(1), ticks(2)), ticks(1));
    assert_eq!(magnitude_of(ticks(-3)), ticks(3));
}

#[test]
fn integers_are_read() {
    assert_eq!(parse_i32("0"), Some(0));
    assert_eq!(parse_i32("+42"), Some(42));
    assert_eq!(parse_i32("-0042"), Some(-42));
    assert_eq!(parse_i32("2147483647"), Some(i32::MAX));
    assert_eq!(parse_i32("-2147483648"), Some(i32::MIN));
    assert_eq!(parse_i32("2147483648"), None);
    assert_eq!(parse_i32("99999999999999999999999"), None);
    assert_eq!(parse_i32(""), None);
    assert_eq!(parse_i32("-"), None);
    assert_eq!(parse_i32("+-1"), None);
    assert_eq!(parse_i32(" 1"), None);
    assert_eq!(parse_i32("1.0"), None);
    assert_eq!(parse_i64("9223372036854775807"), Some(i64::MAX));
    assert_eq!(parse_i64("-9223372036854775808"), Some(i64::MIN));
    assert_eq!(parse_i64("9223372036854775808"), None);
}

#[test]
fn texts_compare() {
    assert!(same_text("abc", "abc"));
    assert!(!same_text("abc", "abC"));
    assert!(same_but_case("Job_ID", "job_id"));
    assert!(!same_but_case("job_id", "job-id"));
    assert!(!same_but_case("job", "jobs"));
    assert!(!same_but_case("@", "`"));
}

#[test]
fn lists_are_counted_and_sorted() {
    let list = vec![3, 1, 3, -2, 1];
    assert_eq!(count_in(&list, 3), 2);
    assert_eq!(count_of(&list, 7), 0);
    assert_eq!(sum_of(&list), 6);
    assert_eq!(distinct_of(&list), vec![3, 1, -2]);
    assert_eq!(sort_ascending(&list), vec![-2, 1, 1, 3, 3]);
}

#[test]
fn placement_methods_have_names() {
    for name in ["k8s-load-balancing", "k8s-bin-packing", "colocate", "tiresias"] {
        let method = PlacementMethod::from_str(name);
        assert_eq!(method.as_str(), name);
        assert_eq!(PlacementMethod::parse(name), Some(method));
    }
    assert_eq!(PlacementMethod::from_str("tiresias"), PlacementMethod::Tiresias);
    assert_eq!(PlacementMethod::parse("Tiresias"), None);
}

#[test]
fn interference_models_have_names() {
    assert_eq!(InterferenceModel::from_str("none"), InterferenceModel::Absent);
    assert_eq!(InterferenceModel::from_str("fixed"), InterferenceModel::Fixed);
    assert_eq!(InterferenceModel::from_str("comms"), InterferenceModel::Comms);
    assert_eq!(InterferenceModel::from_str("comms-iter"), InterferenceModel::CommsIter);
    assert_eq!(InterferenceModel::from_str("mosim"), InterferenceModel::CommsIterIntra);
    assert_eq!(InterferenceModel::from_str("comms-iter-intra"), InterferenceModel::CommsIterIntra);
    assert_eq!(InterferenceModel::from_str("comms-iter-lcm"), InterferenceModel::CommsIterLcm);
    assert_eq!(
        InterferenceModel::from_str("comms-iter-intra-lcm"),
        InterferenceModel::CommsIterIntraLcm
    );
    assert_eq!(InterferenceModel::from_str("corun-profile"), InterferenceModel::CorunProfile);
    assert_eq!(InterferenceModel::parse("linear"), None);
}

#[test]
fn models_that_look_inside_or_skip_split_iterations() {
    assert!(InterferenceModel::CommsIterIntraLcm.is_iter_model());
    assert!(InterferenceModel::CommsIterIntraLcm.is_lcm_model());
    assert!(InterferenceModel::CommsIterIntraLcm.is_intra_model());
    assert!(!InterferenceModel::CommsIter.is_lcm_model());
    assert!(!InterferenceModel::Comms.is_iter_model());
    assert!(InterferenceModel::CorunProfile.is_corun_profile());
    assert!(!InterferenceModel::CorunProfile.is_iter_model());
}

#[test]
fn columns_have_names() {
    assert_eq!(Column::VolumeRate.as_str(), "Sum of Max TX+RX (MB/s)");
    assert_eq!(Column::JobId.as_str(), "job_id");
    assert_eq!(Column::ColocatedWorkers.as_str(), "colocated_gpu_workers");
}

#[test]
fn the_queueing_model_has_a_name() {
    assert!(is_mm1(Some("mm1")));
    assert!(!is_mm1(Some("linear")));
    assert!(!is_mm1(None));
}
