use sui_gas_pool::gas_usage_cap::{GasUsageCap, GasUsageError};

#[test]
fn test_gas_usage_cap() {
    let today = 739_000;
    let mut cap = GasUsageCap::new_on(100, today);
    assert!(cap.check_usage_on(today).is_ok());
    cap.update_usage_on(50, today);
    assert!(cap.check_usage_on(today).is_ok());
    cap.update_usage_on(49, today);
    assert!(cap.check_usage_on(today).is_ok());
    cap.update_usage_on(1, today);
    assert!(cap.check_usage_on(today).is_err());
}

#[test]
fn test_gas_usage_cap_reset() {
    let today = 739_000;
    let mut cap = GasUsageCap::new_on(100, today);
    cap.update_usage_on(100, today);
    assert!(cap.check_usage_on(today).is_err());
    // The next day starts from nothing used.
    assert!(cap.check_usage_on(today + 1).is_ok());
    assert_eq!(cap.cur_daily_usage(), 0);
}

#[test]
fn gas_usage_cap_reports_new_total() {
    let mut cap = GasUsageCap::new_on(1000, 5);
    assert_eq!(cap.update_usage_on(300, 5), 300);
    assert_eq!(cap.update_usage_on(-100, 5), 200);
    assert_eq!(cap.update_usage_on(7, 6), 7);
    assert_eq!(cap.check_usage_on(6), Ok(()));
}

#[test]
fn gas_usage_cap_error_variant() {
    let mut cap = GasUsageCap::new_on(10, 1);
    cap.update_usage_on(10, 1);
    assert_eq!(cap.check_usage_on(1), Err(GasUsageError::ExceedsDailyCap));
}

#[test]
fn gas_usage_cap_huge_cap_compares_signed() {
    // A cap beyond i64::MAX reads as a negative number, so it refuses at once.
    let mut cap = GasUsageCap::new_on(u64::MAX, 1);
    assert!(cap.check_usage_on(1).is_err());
}

#[test]
fn gas_usage_cap_with_clock_starts_empty() {
    let mut cap = GasUsageCap::new(100);
    assert_eq!(cap.daily_cap(), 100);
    assert!(cap.check_usage().is_ok());
    assert_eq!(cap.update_usage(40), 40);
}
