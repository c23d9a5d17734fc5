use splitter::plan::split_parts;

#[test]
fn plan_of_worked_example() {
    assert_eq!(split_parts(10, 3), vec![2, 2, 1, 1, 2, 2]);
}

#[test]
fn plan_of_empty_file() {
    assert_eq!(split_parts(0, 1), vec![0]);
}

#[test]
fn plan_below_limit_is_untouched() {
    assert_eq!(split_parts(5, 100), vec![5]);
    assert_eq!(split_parts(99, 100), vec![99]);
}

#[test]
fn plan_at_limit_splits_once() {
    assert_eq!(split_parts(4, 4), vec![2, 2]);
    assert_eq!(split_parts(5, 5), vec![2, 3]);
}

#[test]
fn plan_keeps_pass_order() {
    // [7] -> [3, 4] -> [1, 2, 2, 2]
    assert_eq!(split_parts(7, 3), vec![1, 2, 2, 2]);
}

#[test]
fn plan_sums_to_total_and_stays_below_limit() {
    for total in 0u64..300 {
        for limit in 2u64..40 {
            let parts = split_parts(total, limit);
            assert_eq!(parts.iter().sum::<u64>(), total);
            assert!(parts.iter().all(|p| *p < limit));
        }
    }
}

#[test]
fn plan_of_large_total() {
    let parts = split_parts(u64::MAX, 1 << 40);
    assert_eq!(parts.iter().map(|p| *p as u128).sum::<u128>(), u64::MAX as u128);
    assert!(parts.iter().all(|p| *p < 1 << 40));
}

#[test]
fn planner_is_reachable_from_the_splitter() {
    assert_eq!(splitter::split::split_parts(10, 3), vec![2, 2, 1, 1, 2, 2]);
    assert_eq!(splitter::get_file_name("a/b").unwrap(), "b");
}
