use crane_planner::order::stable_order;

#[test]
fn stable_order_sorts_ascending() {
    assert_eq!(stable_order(&vec![30, 10, 20]), vec![1, 2, 0]);
}

#[test]
fn stable_order_keeps_equal_keys_in_place() {
    assert_eq!(stable_order(&vec![3, 1, 3, 1, 2]), vec![1, 3, 4, 0, 2]);
}

#[test]
fn stable_order_of_nothing_is_empty() {
    assert!(stable_order(&vec![]).is_empty());
}

#[test]
fn stable_order_handles_the_extremes() {
    assert_eq!(stable_order(&vec![i128::MAX, 0, i128::MIN, 0]), vec![2, 1, 3, 0]);
}
