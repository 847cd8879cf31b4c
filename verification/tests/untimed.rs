use kafka_source::capability::SourceCapability;
use kafka_source::message::{Action, Event, KafkaMessage, MessageTimestamp, Polled};
use kafka_source::untimed::UntimedReader;
use timely::dataflow::operators::generic::operator::source;

/// Runs `body` with a capability for time zero.
fn with_capability(body: fn(&mut SourceCapability)) {
    timely::execute_directly(move |worker| {
        worker.dataflow::<u64, _, _>(|scope| {
            source(scope, "source", |inner, _info| {
                let mut cap = SourceCapability { inner };
                body(&mut cap);
                drop(cap);
                move |_output: &mut timely::dataflow::operators::generic::OutputHandle<
                    u64,
                    u64,
                    timely::dataflow::channels::pushers::Tee<u64, u64>,
                >| {}
            });
        })
    })
}

fn message(payload: Option<&[u8]>, timestamp: MessageTimestamp) -> Event {
    Event::Polled(Polled::Message(KafkaMessage {
        payload: payload.map(|bytes| bytes.to_vec()),
        timestamp,
        partition: 0,
        offset: 8,
    }))
}

#[test]
fn capability_follows_message_times() {
    with_capability(|cap| {
        let mut reader = UntimedReader::new();
        assert_eq!(reader.step(Event::Activated, cap), Action::Poll);
        let event = message(Some(b"abc"), MessageTimestamp::CreateTime(50));
        assert!(reader.expects(&event));
        assert_eq!(
            reader.step(event, cap),
            Action::Deliver { payload: b"abc".to_vec(), offset: 8 }
        );
        assert_eq!(*cap.inner.time(), 50);
        assert_eq!(reader.step(Event::Delivered, cap), Action::CheckTimer);
        assert_eq!(reader.step(Event::Elapsed(10), cap), Action::Poll);
        let late = message(Some(b"de"), MessageTimestamp::LogAppendTime(20));
        assert!(matches!(reader.step(late, cap), Action::Deliver { .. }));
        assert_eq!(*cap.inner.time(), 50);
        assert_eq!(reader.step(Event::Delivered, cap), Action::CheckTimer);
        assert_eq!(
            reader.step(Event::Elapsed(11), cap),
            Action::Yield { bytes_read: Some(5) }
        );
    })
}

#[test]
fn untimed_turn_that_runs_out_of_messages_reports_its_bytes() {
    with_capability(|cap| {
        let mut reader = UntimedReader::new();
        reader.step(Event::Activated, cap);
        reader.step(message(Some(b"abc"), MessageTimestamp::CreateTime(5)), cap);
        reader.step(Event::Delivered, cap);
        reader.step(Event::Elapsed(0), cap);
        assert_eq!(
            reader.step(Event::Polled(Polled::Empty), cap),
            Action::Park { bytes_read: Some(3) }
        );
        reader.step(Event::Activated, cap);
        assert_eq!(
            reader.step(Event::Polled(Polled::Empty), cap),
            Action::Park { bytes_read: None }
        );
    })
}

#[test]
fn messages_without_payload_or_time_are_passed_over() {
    with_capability(|cap| {
        let mut reader = UntimedReader::new();
        reader.step(Event::Activated, cap);
        let null = message(None, MessageTimestamp::CreateTime(50));
        assert_eq!(reader.step(null, cap), Action::Poll);
        let timeless = message(Some(b"abc"), MessageTimestamp::NotAvailable);
        assert_eq!(reader.step(timeless, cap), Action::Poll);
        assert_eq!(*cap.inner.time(), 0);
        assert_eq!(
            reader.step(Event::Polled(Polled::Failed), cap),
            Action::CheckTimer
        );
        assert_eq!(reader.step(Event::Elapsed(0), cap), Action::Poll);
        assert_eq!(
            reader.step(Event::Polled(Polled::Empty), cap),
            Action::Park { bytes_read: None }
        );
    })
}

#[test]
fn times_before_the_epoch_wrap_around() {
    with_capability(|cap| {
        let mut reader = UntimedReader::new();
        reader.step(Event::Activated, cap);
        reader.step(message(Some(b"a"), MessageTimestamp::CreateTime(-1)), cap);
        assert_eq!(*cap.inner.time(), u64::MAX);
    })
}

#[test]
fn untimed_reader_expects_replies_to_its_actions() {
    with_capability(|cap| {
        let mut reader = UntimedReader::new();
        assert!(reader.expects(&Event::Activated));
        assert!(!reader.expects(&Event::Metadata(None)));
        reader.step(Event::Activated, cap);
        assert!(!reader.expects(&Event::Activated));
        assert!(!reader.expects(&Event::Delivered));
        assert!(!reader.expects(&Event::Elapsed(1)));
    })
}
