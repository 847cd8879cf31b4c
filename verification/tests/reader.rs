use kafka_source::capability::SourceCapability;
use kafka_source::history::TimestampHistories;
use kafka_source::message::{
    Action, Event, Failure, KafkaMessage, MessageTimestamp, Polled, PARK_SECONDS, TURN_MILLIS,
};
use kafka_source::partitions::TopicMetadata;
use kafka_source::reader::KafkaReader;
use std::collections::HashMap;
use timely::dataflow::channels::pushers::Tee;
use timely::dataflow::operators::generic::operator::source;
use timely::dataflow::operators::generic::OutputHandle;

/// Runs `body` with a capability for time zero.
fn with_capability(body: fn(&mut SourceCapability)) {
    timely::execute_directly(move |worker| {
        worker.dataflow::<u64, _, _>(|scope| {
            source(scope, "source", |inner, _info| {
                let mut cap = SourceCapability { inner };
                body(&mut cap);
                drop(cap);
                move |_output: &mut OutputHandle<u64, u64, Tee<u64, u64>>| {}
            });
        })
    })
}

fn histories(entries: &[(i32, Vec<(i32, u64, i64)>)]) -> TimestampHistories {
    let mut all = HashMap::new();
    all.insert(1, entries.iter().cloned().collect());
    all
}

fn metadata(partitions: &[i32]) -> Event {
    Event::Metadata(Some(vec![TopicMetadata {
        name: "t".to_string(),
        partitions: partitions.to_vec(),
    }]))
}

fn message(payload: Option<&[u8]>, partition: i32, offset: i64) -> Event {
    Event::Polled(Polled::Message(KafkaMessage {
        payload: payload.map(|bytes| bytes.to_vec()),
        timestamp: MessageTimestamp::NotAvailable,
        partition,
        offset,
    }))
}

fn deliver(payload: &[u8], offset: i64) -> Action {
    Action::Deliver { payload: payload.to_vec(), offset }
}

/// A reader of source 1 that knows the partitions.
fn started(
    partitions: &[i32],
    all: &mut TimestampHistories,
    cap: &mut SourceCapability,
) -> KafkaReader {
    let mut reader = KafkaReader::new(1, "t".to_string());
    assert_eq!(reader.step(metadata(partitions), all, cap), Action::Ready);
    reader
}

#[test]
fn reader_starts_once_a_partition_is_listed() {
    with_capability(|cap| {
        let mut all = histories(&[]);
        let mut reader = KafkaReader::new(1, "t".to_string());
        assert!(!reader.expects(&Event::Activated));
        assert!(reader.expects(&Event::Metadata(None)));
        let failed = Event::Metadata(None);
        assert_eq!(reader.step(failed, &mut all, cap), Action::FetchMetadata);
        assert_eq!(reader.step(metadata(&[]), &mut all, cap), Action::FetchMetadata);
        assert_eq!(reader.step(metadata(&[0]), &mut all, cap), Action::Ready);
        assert!(reader.expects(&Event::Activated));
    })
}

#[test]
fn turn_delivers_messages_and_closes_timestamps() {
    with_capability(|cap| {
        let mut all = histories(&[(0, vec![(1, 10, 2), (1, 20, 3)])]);
        let mut reader = started(&[0], &mut all, cap);
        assert_eq!(reader.step(Event::Activated, &mut all, cap), Action::Poll);
        let action = reader.step(message(Some(b"one"), 0, 0), &mut all, cap);
        assert_eq!(action, deliver(b"one", 0));
        assert_eq!(reader.step(Event::Delivered, &mut all, cap), Action::CheckTimer);
        assert_eq!(*cap.inner.time(), 0);
        assert_eq!(reader.step(Event::Elapsed(TURN_MILLIS), &mut all, cap), Action::Poll);
        let action = reader.step(message(Some(b"two!"), 0, 1), &mut all, cap);
        assert_eq!(action, deliver(b"two!", 1));
        // The payload is sent before the timestamp of its message is closed.
        assert_eq!(*cap.inner.time(), 0);
        assert_eq!(reader.step(Event::Delivered, &mut all, cap), Action::CheckTimer);
        assert_eq!(*cap.inner.time(), 11);
        assert_eq!(all, histories(&[(0, vec![(1, 20, 3)])]));
        assert_eq!(reader.step(Event::Elapsed(0), &mut all, cap), Action::Poll);
        assert_eq!(
            reader.step(Event::Polled(Polled::Empty), &mut all, cap),
            Action::Park { bytes_read: Some(7) }
        );
        assert_eq!(PARK_SECONDS, 60);
        // The next turn counts anew.
        assert_eq!(reader.step(Event::Activated, &mut all, cap), Action::Poll);
        assert_eq!(
            reader.step(Event::Polled(Polled::Failed), &mut all, cap),
            Action::Park { bytes_read: None }
        );
    })
}

#[test]
fn long_turn_ends_and_reports_its_bytes() {
    with_capability(|cap| {
        let mut all = histories(&[(0, vec![(1, 10, 9)])]);
        let mut reader = started(&[0], &mut all, cap);
        reader.step(Event::Activated, &mut all, cap);
        reader.step(message(Some(b"one"), 0, 0), &mut all, cap);
        reader.step(Event::Delivered, &mut all, cap);
        assert_eq!(
            reader.step(Event::Elapsed(TURN_MILLIS + 1), &mut all, cap),
            Action::Yield { bytes_read: Some(3) }
        );
    })
}

#[test]
fn turn_that_ends_at_an_undecided_message_reports_its_bytes() {
    with_capability(|cap| {
        let mut all = histories(&[(0, vec![(1, 10, 1)])]);
        let mut reader = started(&[0], &mut all, cap);
        reader.step(Event::Activated, &mut all, cap);
        reader.step(message(Some(b"one"), 0, 0), &mut all, cap);
        reader.step(Event::Delivered, &mut all, cap);
        reader.step(Event::Elapsed(0), &mut all, cap);
        assert_eq!(
            reader.step(message(Some(b"two!"), 0, 1), &mut all, cap),
            Action::Yield { bytes_read: Some(3) }
        );
        // The bytes were reported once; the held message is still undecided.
        assert_eq!(
            reader.step(Event::Activated, &mut all, cap),
            Action::Yield { bytes_read: None }
        );
    })
}

#[test]
fn turn_that_ends_at_a_new_partition_reports_its_bytes() {
    with_capability(|cap| {
        let mut all = histories(&[(0, vec![(1, 10, 5)])]);
        let mut reader = started(&[0], &mut all, cap);
        reader.step(Event::Activated, &mut all, cap);
        reader.step(message(Some(b"one"), 0, 0), &mut all, cap);
        reader.step(Event::Delivered, &mut all, cap);
        reader.step(Event::Elapsed(0), &mut all, cap);
        let action = reader.step(message(Some(b"two!"), 1, 0), &mut all, cap);
        assert_eq!(action, Action::FetchMetadata);
        assert_eq!(
            reader.step(metadata(&[0, 1]), &mut all, cap),
            Action::Yield { bytes_read: Some(3) }
        );
    })
}

#[test]
fn binding_inside_a_gap_of_the_offsets_closes() {
    with_capability(|cap| {
        let mut all = histories(&[(0, vec![(1, 10, 3), (1, 20, 5), (1, 30, 9)])]);
        let mut reader = started(&[0], &mut all, cap);
        reader.step(Event::Activated, &mut all, cap);
        // Offsets 0 to 6 do not occur.
        let action = reader.step(message(Some(b"seven"), 0, 6), &mut all, cap);
        assert_eq!(action, deliver(b"seven", 6));
        assert_eq!(reader.step(Event::Delivered, &mut all, cap), Action::CheckTimer);
        assert_eq!(*cap.inner.time(), 21);
        assert_eq!(all, histories(&[(0, vec![(1, 30, 9)])]));
    })
}

#[test]
fn message_without_payload_is_processed_but_not_delivered() {
    with_capability(|cap| {
        let mut all = histories(&[(0, vec![(1, 10, 1)])]);
        let mut reader = started(&[0], &mut all, cap);
        reader.step(Event::Activated, &mut all, cap);
        assert_eq!(
            reader.step(message(None, 0, 0), &mut all, cap),
            Action::CheckTimer
        );
        assert_eq!(*cap.inner.time(), 11);
    })
}

#[test]
fn message_without_timestamp_waits_in_the_buffer() {
    with_capability(|cap| {
        let mut all = histories(&[]);
        let mut reader = started(&[0], &mut all, cap);
        reader.step(Event::Activated, &mut all, cap);
        assert_eq!(
            reader.step(message(Some(b"one"), 0, 0), &mut all, cap),
            Action::Yield { bytes_read: None }
        );
        // Still undecided: the message stays, and the consumer is not polled.
        assert_eq!(
            reader.step(Event::Activated, &mut all, cap),
            Action::Yield { bytes_read: None }
        );
        all.get_mut(&1).unwrap().insert(0, vec![(1, 10, 1)]);
        assert_eq!(
            reader.step(Event::Activated, &mut all, cap),
            deliver(b"one", 0)
        );
    })
}

#[test]
fn duplicate_message_moves_the_consumer() {
    with_capability(|cap| {
        let mut all = histories(&[(0, vec![(1, 10, 9)])]);
        let mut reader = started(&[0], &mut all, cap);
        reader.step(Event::Activated, &mut all, cap);
        reader.step(message(Some(b"five"), 0, 5), &mut all, cap);
        reader.step(Event::Delivered, &mut all, cap);
        reader.step(Event::Elapsed(0), &mut all, cap);
        assert_eq!(
            reader.step(message(Some(b"four"), 0, 4), &mut all, cap),
            Action::Seek { partition: 0, offset: 6, received: 5, bytes_read: Some(4) }
        );
        reader.step(Event::Activated, &mut all, cap);
        assert_eq!(
            reader.step(message(Some(b"six"), 0, 6), &mut all, cap),
            deliver(b"six", 6)
        );
    })
}

#[test]
fn message_of_a_new_partition_waits_for_the_list() {
    with_capability(|cap| {
        let mut all = histories(&[(1, vec![(1, 10, 1)])]);
        let mut reader = started(&[0], &mut all, cap);
        reader.step(Event::Activated, &mut all, cap);
        assert_eq!(
            reader.step(message(Some(b"new"), 1, 0), &mut all, cap),
            Action::FetchMetadata
        );
        let failed = Event::Metadata(None);
        assert_eq!(reader.step(failed, &mut all, cap), Action::FetchMetadata);
        assert_eq!(
            reader.step(metadata(&[0, 1]), &mut all, cap),
            Action::Yield { bytes_read: None }
        );
        assert_eq!(
            reader.step(Event::Activated, &mut all, cap),
            deliver(b"new", 0)
        );
    })
}

#[test]
fn downgrade_waits_for_the_partitions_of_a_binding() {
    with_capability(|cap| {
        let mut all = histories(&[(0, vec![(2, 10, 0)]), (1, vec![(2, 10, 4)])]);
        let mut reader = started(&[0], &mut all, cap);
        assert_eq!(reader.step(Event::Activated, &mut all, cap), Action::FetchMetadata);
        assert_eq!(reader.step(metadata(&[0]), &mut all, cap), Action::FetchMetadata);
        assert_eq!(reader.step(metadata(&[0, 1]), &mut all, cap), Action::Poll);
        // Partition 0 is closed through 10, partition 1 through nothing yet.
        assert_eq!(*cap.inner.time(), 1);
        assert_eq!(all, histories(&[(0, vec![]), (1, vec![(2, 10, 4)])]));
    })
}

#[test]
fn downgrade_after_a_message_waits_for_partitions() {
    with_capability(|cap| {
        let mut all = histories(&[(0, vec![(1, 10, 1), (2, 20, 2)])]);
        let mut reader = started(&[0], &mut all, cap);
        reader.step(Event::Activated, &mut all, cap);
        reader.step(message(Some(b"one"), 0, 0), &mut all, cap);
        assert_eq!(reader.step(Event::Delivered, &mut all, cap), Action::FetchMetadata);
        assert_eq!(*cap.inner.time(), 0);
        assert_eq!(reader.step(metadata(&[0, 1]), &mut all, cap), Action::CheckTimer);
        assert_eq!(*cap.inner.time(), 1);
    })
}

#[test]
fn last_offset_overflows() {
    with_capability(|cap| {
        let mut all = histories(&[]);
        let mut reader = started(&[0], &mut all, cap);
        reader.step(Event::Activated, &mut all, cap);
        assert_eq!(
            reader.step(message(Some(b"x"), 0, i64::MAX), &mut all, cap),
            Action::Panic(Failure::OffsetOverflow)
        );
    })
}

#[test]
fn reader_gives_up_when_the_capability_would_go_back() {
    with_capability(|cap| {
        let mut all = histories(&[(0, vec![(1, 10, 0)])]);
        let mut reader = started(&[0], &mut all, cap);
        assert_eq!(reader.step(Event::Activated, &mut all, cap), Action::Poll);
        assert_eq!(*cap.inner.time(), 11);
        reader.step(Event::Polled(Polled::Empty), &mut all, cap);
        all.get_mut(&1).unwrap().insert(0, vec![(1, 3, 0)]);
        assert_eq!(
            reader.step(Event::Activated, &mut all, cap),
            Action::Panic(Failure::CapabilityRegression)
        );
    })
}

#[test]
fn payload_is_sent_no_later_than_the_timestamp_of_its_own_partition() {
    with_capability(|cap| {
        let mut all = histories(&[(0, vec![(2, 10, 1), (2, 20, 2)]), (1, vec![(2, 10, 1)])]);
        let mut reader = started(&[0, 1], &mut all, cap);
        reader.step(Event::Activated, &mut all, cap);
        let action = reader.step(message(Some(b"zero"), 0, 0), &mut all, cap);
        assert_eq!(action, deliver(b"zero", 0));
        reader.step(Event::Delivered, &mut all, cap);
        // Partition 1 has yet to be read up to timestamp 10, so the capability stays before it.
        assert_eq!(*cap.inner.time(), 1);
        reader.step(Event::Elapsed(0), &mut all, cap);
        let action = reader.step(message(Some(b"one"), 1, 0), &mut all, cap);
        assert_eq!(action, deliver(b"one", 0));
        assert!(*cap.inner.time() <= 10);
        reader.step(Event::Delivered, &mut all, cap);
        assert_eq!(*cap.inner.time(), 11);
    })
}
