use mosim::lcm_utils::{checked_lcm_many, gcd, lcm_many, lcm_pair};

#[test]
fn test_gcd_basic() {
    assert_eq!(gcd(12, 8), 4);
    assert_eq!(gcd(100, 75), 25);
    assert_eq!(gcd(7, 13), 1);
}

#[test]
fn test_lcm_pair() {
    assert_eq!(lcm_pair(4, 6), 12);
    assert_eq!(lcm_pair(3, 7), 21);
}

#[test]
fn test_lcm_many() {
    assert_eq!(lcm_many(&[4, 6, 10]), 60);
    assert_eq!(lcm_many(&[2, 3, 5, 7]), 210);
    assert_eq!(lcm_many(&[12]), 12);
}

#[test]
fn test_lcm_with_zero() {
    assert_eq!(lcm_many(&[0, 5, 10]), 0);
}

#[test]
fn gcd_goes_by_magnitude() {
    assert_eq!(gcd(-12, 8), 4);
    assert_eq!(gcd(0, 0), 0);
    assert_eq!(gcd(0, -9), 9);
}

#[test]
fn lcm_pair_keeps_the_sign_of_the_product() {
    assert_eq!(lcm_pair(-4, 6), -12);
    assert_eq!(lcm_pair(4, -6), -12);
    assert_eq!(lcm_pair(-4, -6), 12);
    assert_eq!(lcm_pair(0, 6), 0);
}

#[test]
fn lcm_many_goes_by_magnitude() {
    assert_eq!(lcm_many(&[-4, 6]), 12);
    assert_eq!(lcm_many(&[-5]), 5);
}

#[test]
fn checked_lcm_reports_what_does_not_fit() {
    assert_eq!(checked_lcm_many(&[4, 6]), Some(12));
    assert_eq!(checked_lcm_many(&[i64::MAX, i64::MAX - 1]), None);
    assert_eq!(checked_lcm_many(&[i64::MAX, 0, i64::MAX - 1]), Some(0));
    assert_eq!(checked_lcm_many(&[]), Some(1));
}
