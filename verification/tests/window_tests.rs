use treap::window::min_window_cost;

#[test]
fn scenario_sliding_window_end_to_end() {
    let values: Vec<i64> = vec![1, 2, 3, 4, 5];
    // Windows of length 3, dropping the 1 greatest value of each:
    // [1,2,3] -> 6-3=3; [2,3,4] -> 9-4=5; [3,4,5] -> 12-5=7.
    assert_eq!(min_window_cost(&values, 3, 1), 3);
}

#[test]
fn single_window_covers_the_whole_sequence() {
    let values: Vec<i64> = vec![4, -2, 7];
    // Sum 9, two greatest 4+7=11.
    assert_eq!(min_window_cost(&values, 3, 2), -2);
}

#[test]
fn zero_quota_keeps_the_whole_window_sum() {
    let values: Vec<i64> = vec![3, -1, 2];
    // Windows of length 2: sums 2 and 1.
    assert_eq!(min_window_cost(&values, 2, 0), 1);
}

#[test]
fn quota_beyond_window_length_cancels_each_window() {
    let values: Vec<i64> = vec![1, 2, 3];
    assert_eq!(min_window_cost(&values, 2, 5), 0);
}

#[test]
fn window_of_length_one() {
    let values: Vec<i64> = vec![5, -3, 9, 0];
    // Each window is one value; dropping none keeps it.
    assert_eq!(min_window_cost(&values, 1, 0), -3);
}

#[test]
fn repeated_values_across_windows() {
    let values: Vec<i64> = vec![2, 2, 2, 2];
    // Any window of length 2 minus its 1 greatest leaves a single 2.
    assert_eq!(min_window_cost(&values, 2, 1), 2);
}
