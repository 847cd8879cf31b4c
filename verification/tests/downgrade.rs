use kafka_source::capability::SourceCapability;
use kafka_source::downgrade::{downgrade_capability, Downgrade};
use kafka_source::history::TimestampHistories;
use std::collections::HashMap;
use timely::dataflow::channels::pushers::Tee;
use timely::dataflow::operators::generic::operator::source;
use timely::dataflow::operators::generic::OutputHandle;

/// Runs `body` with a capability for time zero.
fn with_capability(body: fn(&mut SourceCapability)) {
    timely::execute_directly(move |worker| {
        worker.dataflow::<u64, _, _>(|scope| {
            source(scope, "source", |inner, _info| {
                let mut cap = SourceCapability { inner };
                body(&mut cap);
                drop(cap);
                move |_output: &mut OutputHandle<u64, u64, Tee<u64, u64>>| {}
            });
        })
    })
}

fn histories(entries: &[(i32, Vec<(i32, u64, i64)>)]) -> TimestampHistories {
    let mut all = HashMap::new();
    all.insert(1, entries.iter().cloned().collect());
    all
}

#[test]
fn capability_moves_past_the_least_closed_timestamp() {
    with_capability(|cap| {
        let mut all = histories(&[
            (0, vec![(2, 10, 3), (2, 20, 5)]),
            (1, vec![(2, 10, 2), (2, 20, 2)]),
        ]);
        let offsets: HashMap<i32, i64> = [(0, 3), (1, 2)].iter().cloned().collect();
        let mut next: HashMap<i32, u64> = [(0, 0), (1, 0)].iter().cloned().collect();
        let mut closed = 0;
        let outcome =
            downgrade_capability(&1, cap, &offsets, &mut next, &mut all, 2, &mut closed);
        assert_eq!(outcome, Downgrade::Downgraded);
        assert_eq!(next, [(0, 10), (1, 20)].iter().cloned().collect());
        assert_eq!(closed, 10);
        assert_eq!(*cap.inner.time(), 11);
        assert_eq!(all, histories(&[(0, vec![(2, 20, 5)]), (1, vec![])]));

        let outcome =
            downgrade_capability(&1, cap, &offsets, &mut next, &mut all, 2, &mut closed);
        assert_eq!(outcome, Downgrade::Unchanged);
        assert_eq!(*cap.inner.time(), 11);
    })
}

#[test]
fn binding_that_has_been_passed_closes() {
    with_capability(|cap| {
        let mut all = histories(&[(0, vec![(1, 10, 5)])]);
        let offsets: HashMap<i32, i64> = [(0, 7)].iter().cloned().collect();
        let mut next: HashMap<i32, u64> = [(0, 0)].iter().cloned().collect();
        let mut closed = 0;
        let outcome =
            downgrade_capability(&1, cap, &offsets, &mut next, &mut all, 1, &mut closed);
        assert_eq!(outcome, Downgrade::Downgraded);
        assert_eq!(all, histories(&[(0, vec![])]));
        assert_eq!(next, [(0, 10)].iter().cloned().collect());
        assert_eq!(closed, 10);
        assert_eq!(*cap.inner.time(), 11);
    })
}

#[test]
fn source_without_history_is_left_alone() {
    with_capability(|cap| {
        let mut all = histories(&[(0, vec![(1, 10, 0)])]);
        let mut next: HashMap<i32, u64> = HashMap::new();
        let mut closed = 0;
        let outcome =
            downgrade_capability(&9, cap, &HashMap::new(), &mut next, &mut all, 1, &mut closed);
        assert_eq!(outcome, Downgrade::Unchanged);
        assert_eq!(*cap.inner.time(), 0);
        assert_eq!(all, histories(&[(0, vec![(1, 10, 0)])]));
    })
}

#[test]
fn unknown_partitions_come_first() {
    with_capability(|cap| {
        let mut all = histories(&[(0, vec![(1, 10, 3), (3, 20, 4)])]);
        let offsets: HashMap<i32, i64> = [(0, 3)].iter().cloned().collect();
        let mut next: HashMap<i32, u64> = [(0, 0)].iter().cloned().collect();
        let mut closed = 0;
        let outcome =
            downgrade_capability(&1, cap, &offsets, &mut next, &mut all, 1, &mut closed);
        assert_eq!(outcome, Downgrade::NeedsPartitions(3));
        assert_eq!(all, histories(&[(0, vec![(1, 10, 3), (3, 20, 4)])]));
        assert_eq!(next, [(0, 0)].iter().cloned().collect());
        assert_eq!(*cap.inner.time(), 0);
    })
}

#[test]
fn capability_does_not_go_back() {
    with_capability(|cap| {
        let offsets: HashMap<i32, i64> = [(0, 3)].iter().cloned().collect();
        let mut next: HashMap<i32, u64> = [(0, 0)].iter().cloned().collect();
        let mut closed = 0;
        let mut all = histories(&[(0, vec![(1, 10, 3)])]);
        downgrade_capability(&1, cap, &offsets, &mut next, &mut all, 1, &mut closed);
        assert_eq!(*cap.inner.time(), 11);
        let mut all = histories(&[(0, vec![(1, 5, 3)])]);
        let outcome =
            downgrade_capability(&1, cap, &offsets, &mut next, &mut all, 1, &mut closed);
        assert_eq!(outcome, Downgrade::Refused);
        assert_eq!(*cap.inner.time(), 11);
        assert_eq!(closed, 10);
    })
}

#[test]
fn there_is_no_time_after_the_greatest_timestamp() {
    with_capability(|cap| {
        let mut all = histories(&[(0, vec![(1, u64::MAX, 0)])]);
        let mut next: HashMap<i32, u64> = [(0, 0)].iter().cloned().collect();
        let mut closed = 0;
        let outcome =
            downgrade_capability(&1, cap, &HashMap::new(), &mut next, &mut all, 1, &mut closed);
        assert_eq!(outcome, Downgrade::Refused);
        assert_eq!(*cap.inner.time(), 0);
    })
}
