use file_dedup::grouper::Grouper;

/// Runs a scan over `items`, answering each comparison by equality, and
/// returns the groups and the pairs that were compared, in order.
fn scan<T: PartialEq>(items: &[T]) -> (Vec<Vec<usize>>, Vec<(usize, usize)>) {
    let mut grouper = Grouper::new(items.len());
    let mut asked = Vec::new();
    while let Some((a, b)) = grouper.pending() {
        asked.push((a, b));
        grouper.record(items[a] == items[b]);
    }
    (grouper.groups(), asked)
}

#[test]
fn an_empty_bucket_has_no_groups() {
    let grouper = Grouper::new(0);
    assert_eq!(grouper.pending(), None);
    assert_eq!(grouper.groups(), Vec::<Vec<usize>>::new());
}

#[test]
fn a_bucket_of_one_has_no_groups() {
    let grouper = Grouper::new(1);
    assert_eq!(grouper.pending(), None);
    assert_eq!(grouper.groups(), Vec::<Vec<usize>>::new());
}

#[test]
fn a_pair_of_identical_records_is_one_group() {
    let mut grouper = Grouper::new(2);
    assert_eq!(grouper.pending(), Some((0, 1)));
    grouper.record(true);
    assert_eq!(grouper.pending(), None);
    assert_eq!(grouper.groups(), vec![vec![0, 1]]);
}

#[test]
fn a_pair_of_different_records_is_no_group() {
    let mut grouper = Grouper::new(2);
    assert_eq!(grouper.pending(), Some((0, 1)));
    grouper.record(false);
    assert_eq!(grouper.pending(), None);
    assert_eq!(grouper.groups(), Vec::<Vec<usize>>::new());
}

#[test]
fn three_identical_and_one_different() {
    let (groups, asked) = scan(&["A", "A", "A", "D"]);
    assert_eq!(groups, vec![vec![0, 1, 2]]);
    assert_eq!(asked, vec![(0, 1), (0, 2), (0, 3)]);
}

#[test]
fn the_different_record_may_stand_anywhere() {
    assert_eq!(scan(&["D", "A", "A", "A"]).0, vec![vec![1, 2, 3]]);
    assert_eq!(scan(&["A", "D", "A", "A"]).0, vec![vec![0, 2, 3]]);
    assert_eq!(scan(&["A", "A", "D", "A"]).0, vec![vec![0, 1, 3]]);
}

#[test]
fn distinct_records_give_no_groups() {
    let (groups, asked) = scan(&[1, 2, 3, 4, 5]);
    assert_eq!(groups, Vec::<Vec<usize>>::new());
    assert_eq!(
        asked,
        vec![(0, 1), (0, 2), (0, 3), (0, 4), (1, 2), (1, 3), (1, 4), (2, 3), (2, 4), (3, 4)]
    );
}

#[test]
fn identical_records_give_one_group_of_all() {
    let (groups, asked) = scan(&[9, 9, 9, 9, 9]);
    assert_eq!(groups, vec![vec![0, 1, 2, 3, 4]]);
    assert_eq!(asked, vec![(0, 1), (0, 2), (0, 3), (0, 4)]);
}

#[test]
fn interleaved_groups_keep_bucket_order() {
    let (groups, asked) = scan(&["A", "B", "A", "B"]);
    assert_eq!(groups, vec![vec![0, 2], vec![1, 3]]);
    assert_eq!(asked, vec![(0, 1), (0, 2), (0, 3), (1, 3)]);
}

#[test]
fn a_group_after_a_record_without_duplicates() {
    let (groups, _) = scan(&["A", "A", "B", "C", "C"]);
    assert_eq!(groups, vec![vec![0, 1], vec![3, 4]]);
}

#[test]
fn groups_stand_in_the_order_of_their_first_members() {
    let (groups, _) = scan(&["x", "y", "z", "z", "y", "w", "x"]);
    assert_eq!(groups, vec![vec![0, 6], vec![1, 4], vec![2, 3]]);
}

#[test]
fn records_already_grouped_are_not_compared_again() {
    let (_, asked) = scan(&["A", "A", "B", "B"]);
    assert_eq!(asked, vec![(0, 1), (0, 2), (0, 3), (2, 3)]);
}

#[test]
fn recording_after_the_scan_changes_nothing() {
    let mut grouper = Grouper::new(2);
    grouper.record(true);
    assert_eq!(grouper.pending(), None);
    grouper.record(false);
    grouper.record(true);
    assert_eq!(grouper.pending(), None);
    assert_eq!(grouper.groups(), vec![vec![0, 1]]);
}

#[test]
fn groups_can_be_read_before_the_scan_is_complete() {
    let mut grouper = Grouper::new(4);
    grouper.record(true);
    assert_eq!(grouper.pending(), Some((0, 2)));
    assert_eq!(grouper.groups(), vec![vec![0, 1]]);
}

#[test]
fn answers_that_are_not_transitive_still_give_disjoint_groups() {
    // 0 matches 1, 0 does not match 2; 1 is never compared with 2.
    let mut grouper = Grouper::new(3);
    assert_eq!(grouper.pending(), Some((0, 1)));
    grouper.record(true);
    assert_eq!(grouper.pending(), Some((0, 2)));
    grouper.record(false);
    assert_eq!(grouper.pending(), None);
    assert_eq!(grouper.groups(), vec![vec![0, 1]]);
}
