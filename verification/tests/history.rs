use kafka_source::closing::{
    close_timestamps, last_processed_offset, least_timestamp, required_partitions,
};
use kafka_source::history::{find_matching_timestamp, PartitionHistories, TimestampHistories};
use std::collections::HashMap;

fn history(entries: &[(i32, Vec<(i32, u64, i64)>)]) -> PartitionHistories {
    entries.iter().cloned().collect()
}

fn histories(id: u64, entries: &[(i32, Vec<(i32, u64, i64)>)]) -> TimestampHistories {
    let mut all = HashMap::new();
    all.insert(id, history(entries));
    all
}

#[test]
fn message_without_history_has_no_timestamp() {
    assert_eq!(find_matching_timestamp(&1, 0, 1, &HashMap::new()), None);
    let other = histories(2, &[(0, vec![(1, 10, 5)])]);
    assert_eq!(find_matching_timestamp(&1, 0, 1, &other), None);
    assert_eq!(find_matching_timestamp(&2, 1, 1, &other), None);
}

#[test]
fn offsets_split_messages_into_intervals() {
    let all = histories(7, &[(0, vec![(1, 10, 3), (1, 20, 3), (1, 30, 5)])]);
    assert_eq!(find_matching_timestamp(&7, 0, 0, &all), Some(10));
    assert_eq!(find_matching_timestamp(&7, 0, 3, &all), Some(10));
    assert_eq!(find_matching_timestamp(&7, 0, 4, &all), Some(30));
    assert_eq!(find_matching_timestamp(&7, 0, 5, &all), Some(30));
    assert_eq!(find_matching_timestamp(&7, 0, 6, &all), None);
}

#[test]
fn first_binding_that_reaches_wins_without_order() {
    let all = histories(7, &[(0, vec![(1, 10, 9), (1, 20, 3)])]);
    assert_eq!(find_matching_timestamp(&7, 0, 2, &all), Some(10));
}

#[test]
fn unprocessed_partition_is_at_offset_zero() {
    let mut offsets = HashMap::new();
    assert_eq!(last_processed_offset(&offsets, 4), 0);
    offsets.insert(4, 12);
    assert_eq!(last_processed_offset(&offsets, 4), 12);
}

#[test]
fn closing_removes_all_bindings_up_to_the_offset() {
    let mut bindings = history(&[
        (0, vec![(1, 10, 3), (1, 20, 3), (1, 30, 5)]),
        (1, vec![(1, 10, 4)]),
        (2, vec![(1, 10, 0)]),
        (3, vec![(1, 10, 1), (1, 20, 2), (1, 30, 6), (1, 40, 2)]),
    ]);
    let offsets: HashMap<i32, i64> = [(0, 3), (1, 3), (3, 5)].iter().cloned().collect();
    let mut next: HashMap<i32, u64> = [(0, 1), (1, 2)].iter().cloned().collect();
    assert!(close_timestamps(&mut bindings, &offsets, &mut next));
    assert_eq!(
        bindings,
        history(&[
            (0, vec![(1, 30, 5)]),
            (1, vec![(1, 10, 4)]),
            (2, vec![]),
            (3, vec![(1, 30, 6), (1, 40, 2)]),
        ])
    );
    assert_eq!(next, [(0, 20), (1, 2), (2, 10), (3, 20)].iter().cloned().collect());
    assert!(!close_timestamps(&mut bindings, &offsets, &mut next));
}

#[test]
fn closing_keeps_the_timestamps_of_unprocessed_messages() {
    let mut all = histories(1, &[(0, vec![(1, 10, 3), (1, 20, 6)])]);
    let offsets: HashMap<i32, i64> = [(0, 3)].iter().cloned().collect();
    let before = find_matching_timestamp(&1, 0, 4, &all);
    let mut next = HashMap::new();
    close_timestamps(all.get_mut(&1).unwrap(), &offsets, &mut next);
    assert_eq!(find_matching_timestamp(&1, 0, 4, &all), before);
    assert_eq!(before, Some(20));
    assert_eq!(find_matching_timestamp(&1, 0, 3, &all), Some(20));
}

#[test]
fn least_timestamp_of_partitions() {
    assert_eq!(least_timestamp(&HashMap::new()), u64::MAX);
    let next: HashMap<i32, u64> = [(0, 5), (1, 3), (2, 9)].iter().cloned().collect();
    assert_eq!(least_timestamp(&next), 3);
}

#[test]
fn partitions_are_required_up_to_the_first_open_binding() {
    let offsets: HashMap<i32, i64> = [(0, 3)].iter().cloned().collect();
    let closed = history(&[(0, vec![(1, 10, 3), (2, 20, 4), (3, 30, 5)])]);
    assert_eq!(required_partitions(&closed, &offsets, 1), Some(2));
    assert_eq!(required_partitions(&closed, &offsets, 2), None);
    let passed: HashMap<i32, i64> = [(0, 4)].iter().cloned().collect();
    assert_eq!(required_partitions(&closed, &passed, 2), Some(3));
    assert_eq!(required_partitions(&HashMap::new(), &offsets, 0), None);
}
