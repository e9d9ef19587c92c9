use load_balancer::worker::{configured_work_duration, work_duration};

#[test]
fn requested_duration_wins() {
    assert_eq!(work_duration(Some(5), Some("25")), 5);
    assert_eq!(work_duration(Some(0), Some("not a number")), 0);
}

#[test]
fn configured_duration_applies_otherwise() {
    assert_eq!(work_duration(None, Some("25")), 25);
    assert_eq!(work_duration(None, Some("+7")), 7);
    assert_eq!(work_duration(None, None), 10);
}

#[test]
fn configured_duration_parses_like_u64() {
    assert_eq!(configured_work_duration(None), Some(10));
    assert_eq!(configured_work_duration(Some("18446744073709551615")), Some(u64::MAX));
    assert_eq!(configured_work_duration(Some("18446744073709551616")), None);
    assert_eq!(configured_work_duration(Some("")), None);
    assert_eq!(configured_work_duration(Some("+")), None);
    assert_eq!(configured_work_duration(Some("-1")), None);
    assert_eq!(configured_work_duration(Some(" 3")), None);
    assert_eq!(configured_work_duration(Some("1_000")), None);
}

#[test]
fn configured_duration_digits_only() {
    assert_eq!(configured_work_duration(Some("007")), Some(7));
    assert_eq!(configured_work_duration(Some("٣")), None);
    assert_eq!(configured_work_duration(Some("12a")), None);
    assert_eq!(configured_work_duration(Some("99999999999999999999")), None);
}
