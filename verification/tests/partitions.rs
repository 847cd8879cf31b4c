use kafka_source::closing::close_timestamps;
use kafka_source::partitions::{
    topic_partitions, update_partition_list, Metadata, PartitionList, TopicMetadata,
};
use std::collections::{HashMap, HashSet};

fn metadata(topics: &[(&str, &[i32])]) -> Metadata {
    Some(
        topics
            .iter()
            .map(|(name, partitions)| TopicMetadata {
                name: name.to_string(),
                partitions: partitions.to_vec(),
            })
            .collect(),
    )
}

fn set(partitions: &[i32]) -> HashSet<i32> {
    partitions.iter().cloned().collect()
}

#[test]
fn partitions_of_the_first_topic_with_the_name() {
    let topic = "orders".to_string();
    let listed = metadata(&[("users", &[9]), ("orders", &[0, 1, 1]), ("orders", &[5])]);
    assert_eq!(topic_partitions(&listed, &topic), set(&[0, 1]));
    assert_eq!(topic_partitions(&metadata(&[("users", &[9])]), &topic), set(&[]));
    assert_eq!(topic_partitions(&None, &topic), set(&[]));
}

#[test]
fn new_partitions_start_at_zero_and_old_ones_stay() {
    let mut offsets: HashMap<i32, i64> = [(0, 7)].iter().cloned().collect();
    let mut next: HashMap<i32, u64> = [(0, 40)].iter().cloned().collect();
    let listed = metadata(&[("t", &[0, 1])]);
    let topic = "t".to_string();
    match update_partition_list(&listed, &topic, 2, &mut offsets, &mut next, 30) {
        PartitionList::Complete(partitions) => assert_eq!(partitions, set(&[0, 1])),
        _ => panic!("expected a complete list"),
    }
    assert_eq!(offsets, [(0, 7), (1, 0)].iter().cloned().collect());
    assert_eq!(next, [(0, 40), (1, 30)].iter().cloned().collect());
}

#[test]
fn short_list_changes_nothing() {
    let mut offsets: HashMap<i32, i64> = HashMap::new();
    let mut next: HashMap<i32, u64> = HashMap::new();
    let topic = "t".to_string();
    for listed in vec![metadata(&[("t", &[0, 0])]), metadata(&[]), None] {
        assert!(matches!(
            update_partition_list(&listed, &topic, 2, &mut offsets, &mut next, 30),
            PartitionList::Incomplete
        ));
    }
    assert!(offsets.is_empty());
    assert!(next.is_empty());
}

#[test]
fn nothing_is_listed_when_nothing_is_expected() {
    let mut offsets: HashMap<i32, i64> = HashMap::new();
    let mut next: HashMap<i32, u64> = HashMap::new();
    let listed = metadata(&[("t", &[0])]);
    match update_partition_list(&listed, &"t".to_string(), 0, &mut offsets, &mut next, 0) {
        PartitionList::Complete(partitions) => assert!(partitions.is_empty()),
        _ => panic!("expected a complete list"),
    }
    assert!(offsets.is_empty());
}

#[test]
fn closing_and_learning_of_partitions_commute() {
    let bindings: HashMap<i32, Vec<(i32, u64, i64)>> =
        [(0, vec![(2, 10, 3)]), (1, vec![(2, 10, 0)]), (2, vec![(2, 10, 1)])]
            .iter()
            .cloned()
            .collect();
    let offsets: HashMap<i32, i64> = [(0, 3)].iter().cloned().collect();
    let next: HashMap<i32, u64> = [(0, 5)].iter().cloned().collect();
    let listed = metadata(&[("t", &[0, 1, 2])]);
    let topic = "t".to_string();

    let (mut b1, mut o1, mut n1) = (bindings.clone(), offsets.clone(), next.clone());
    close_timestamps(&mut b1, &o1, &mut n1);
    update_partition_list(&listed, &topic, 2, &mut o1, &mut n1, 5);

    let (mut b2, mut o2, mut n2) = (bindings, offsets, next);
    update_partition_list(&listed, &topic, 2, &mut o2, &mut n2, 5);
    close_timestamps(&mut b2, &o2, &mut n2);

    assert_eq!((&b1, &o1, &n1), (&b2, &o2, &n2));
    assert_eq!(n1, [(0, 10), (1, 10), (2, 5)].iter().cloned().collect());
}
