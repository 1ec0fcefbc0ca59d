use gridpath::reports::is_monotonic;
use gridpath::reports::is_monotonic_safe;

#[test]
fn steady_slopes_are_safe() {
    assert!(is_monotonic(&[7, 6, 4, 2, 1], None));
    assert!(is_monotonic(&[1, 3, 6, 7, 9], None));
}

#[test]
fn jumps_and_reversals_are_unsafe() {
    assert!(!is_monotonic(&[1, 2, 7, 8, 9], None));
    assert!(!is_monotonic(&[9, 7, 6, 2, 1], None));
    assert!(!is_monotonic(&[1, 3, 2, 4, 5], None));
    assert!(!is_monotonic(&[8, 6, 4, 4, 1], None));
}

#[test]
fn short_reports_are_never_safe() {
    assert!(!is_monotonic(&[], None));
    assert!(!is_monotonic(&[5], None));
}

#[test]
fn skipping_one_level_can_rescue_a_report() {
    assert!(is_monotonic(&[1, 3, 2, 4, 5], Some(1)));
    assert!(is_monotonic(&[8, 6, 4, 4, 1], Some(2)));
    assert!(!is_monotonic(&[1, 2, 7, 8, 9], Some(2)));
}

#[test]
fn an_out_of_range_skip_changes_nothing() {
    assert!(is_monotonic(&[7, 6, 4, 2, 1], Some(10)));
    assert!(!is_monotonic(&[1, 2, 7, 8, 9], Some(10)));
}

#[test]
fn dampened_safety_tolerates_one_removal() {
    assert!(is_monotonic_safe(&[7, 6, 4, 2, 1]));
    assert!(!is_monotonic_safe(&[1, 2, 7, 8, 9]));
    assert!(!is_monotonic_safe(&[9, 7, 6, 2, 1]));
    assert!(is_monotonic_safe(&[1, 3, 2, 4, 5]));
    assert!(is_monotonic_safe(&[8, 6, 4, 4, 1]));
    assert!(is_monotonic_safe(&[1, 3, 6, 7, 9]));
}
