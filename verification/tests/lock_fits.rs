use gridpath::locks::count_fitting_pairs;
use gridpath::locks::does_lock_fit_key;

#[test]
fn overlapping_pins_do_not_fit() {
    assert!(!does_lock_fit_key([0, 5, 3, 4, 3], [5, 0, 2, 1, 3]));
    assert!(!does_lock_fit_key([4, 3, 4, 0, 2], [3, 0, 2, 0, 1]));
}

#[test]
fn clearing_pins_fit() {
    assert!(does_lock_fit_key([0, 5, 3, 4, 3], [3, 0, 2, 0, 1]));
    assert!(does_lock_fit_key([0, 0, 0, 0, 0], [5, 5, 5, 5, 5]));
}

#[test]
fn boundary_column_sum() {
    // a column summing to exactly six overlaps; five still fits
    assert!(!does_lock_fit_key([3, 0, 0, 0, 0], [3, 0, 0, 0, 0]));
    assert!(does_lock_fit_key([3, 0, 0, 0, 0], [2, 0, 0, 0, 0]));
}

#[test]
fn counting_fitting_pairs() {
    let locks = vec![[0, 5, 3, 4, 3], [1, 2, 0, 5, 3]];
    let keys = vec![[5, 0, 2, 1, 3], [4, 3, 4, 0, 2], [3, 0, 2, 0, 1]];
    assert_eq!(count_fitting_pairs(&locks, &keys), 3);
}
