//! What holds when timestamps are decided in increasing order: the capability never stands in the
//! way of a message, and never has to go back.

use crate::closing::{
    closing, inspected, is_least_timestamp, last_offset, lemma_closed_count, requires_partitions,
    still_open,
};
use crate::downgrade::{can_follow, Downgrade};
use crate::history::{
    first_to_reach, lemma_unassigned_when_none_reaches, matching_timestamp, Binding, Timestamp,
};
use crate::laws::{delivers, message_at_hand};
use crate::message::{Action, Event, Failure, KafkaMessage, Polled};
use crate::partitions::partitions_found;
use crate::reader::{
    after_message, awaited_partitions, downgrade_step, goes_on_after_message, goes_on_opening,
    on_message, opens_turn, starts, transition, Phase, ReaderState, Stage,
};
use vstd::prelude::*;

verus! {

/// The last timestamp that is closed on a partition. On one that is not known yet, that is the
/// last one closed on all others.
pub open spec fn floor(
    next_ts: Map<i32, Timestamp>,
    last_closed_ts: Timestamp,
    partition: i32,
) -> Timestamp {
    if next_ts.contains_key(partition) {
        next_ts[partition]
    } else {
        last_closed_ts
    }
}

/// No partition is behind the timestamp that is closed on all.
pub open spec fn none_behind(next_ts: Map<i32, Timestamp>, last_closed_ts: Timestamp) -> bool {
    forall|partition: i32| #[trigger]
        next_ts.contains_key(partition) ==> last_closed_ts <= next_ts[partition]
}

/// Bindings are made only for timestamps that are still open.
pub open spec fn above_floor(
    history: Map<i32, Seq<Binding>>,
    next_ts: Map<i32, Timestamp>,
    last_closed_ts: Timestamp,
) -> bool {
    forall|partition: i32, i: int|
        history.contains_key(partition) && 0 <= i < history[partition].len() ==> floor(
            next_ts,
            last_closed_ts,
            partition,
        ) < (#[trigger] history[partition][i]).1
}

/// The bindings of each partition are made in the order of their timestamps.
pub open spec fn increasing(history: Map<i32, Seq<Binding>>) -> bool {
    forall|partition: i32, i: int, j: int|
        history.contains_key(partition) && 0 <= i < j < history[partition].len() ==> (
        #[trigger] history[partition][i]).1 < (#[trigger] history[partition][j]).1
}

/// A partition that has bindings is known, or its first binding was made with more partitions
/// than are.
pub open spec fn announced(
    history: Map<i32, Seq<Binding>>,
    next_ts: Map<i32, Timestamp>,
    expected: i32,
) -> bool {
    forall|partition: i32| #[trigger]
        history.contains_key(partition) && history[partition].len() > 0 ==> next_ts.contains_key(
            partition,
        ) || history[partition][0].0 > expected
}

/// Timestamps have been decided in increasing order, and the capability is not ahead of them.
pub open spec fn in_order(state: ReaderState) -> bool {
    &&& none_behind(state.next_ts, state.last_closed_ts)
    &&& above_floor(state.history(), state.next_ts, state.last_closed_ts)
    &&& increasing(state.history())
    &&& announced(state.history(), state.next_ts, state.expected)
    &&& state.time <= state.last_closed_ts + 1
}

/// No message gets a timestamp that is closed: the timestamp of every message is past the closed
/// ones, and the capability can still send at it.
pub proof fn lemma_timestamps_are_open(
    state: ReaderState,
    partition: i32,
    offset: i64,
    ts: Timestamp,
)
    requires
        in_order(state),
        matching_timestamp(state.history(), partition, offset) == Some(ts),
    ensures
        state.last_closed_ts < ts,
        state.time <= ts,
{
    let entries = state.history()[partition];
    lemma_unassigned_when_none_reaches(entries, offset);
    let i = choose|i: int| #[trigger] first_to_reach(entries, offset, i) && entries[i].1 == ts;
    assert(floor(state.next_ts, state.last_closed_ts, partition) < state.history()[partition][i].1);
}

/// The capability can still send at the timestamp of every binding that is open.
pub proof fn lemma_open_bindings_can_be_sent(state: ReaderState, partition: i32, i: int)
    requires
        in_order(state),
        state.history().contains_key(partition),
        0 <= i < state.history()[partition].len(),
    ensures
        state.last_closed_ts < state.history()[partition][i].1,
        state.time <= state.history()[partition][i].1,
{
    assert(floor(state.next_ts, state.last_closed_ts, partition) < state.history()[partition][i].1);
}

/// If there is one partition, the capability moves to the time after the last timestamp that was
/// closed on it.
pub proof fn lemma_downgrade_of_single_partition(
    pre: ReaderState,
    post: ReaderState,
    partition: i32,
)
    requires
        downgrade_step(pre, post, Downgrade::Downgraded),
        forall|other: i32| #[trigger] post.next_ts.contains_key(other) ==> other == partition,
    ensures
        closing(pre.history(), pre.offsets, partition) > 0,
        post.time == pre.history()[partition][closing(pre.history(), pre.offsets, partition)
            - 1].1 + 1,
{
    let closed = choose|closed: i32| #[trigger] closing(pre.history(), pre.offsets, closed) > 0;
    assert(post.next_ts.contains_key(closed));
}

/// A binding that is made for an open timestamp past those decided for its partition keeps the
/// order. A partition that is not known must be announced by the number of partitions.
pub proof fn lemma_new_binding_keeps_order(state: ReaderState, partition: i32, binding: Binding)
    requires
        in_order(state),
        state.histories.contains_key(state.id),
        ({
            let history = state.history();
            &&& floor(state.next_ts, state.last_closed_ts, partition) < binding.1
            &&& if history.contains_key(partition) && history[partition].len() > 0 {
                history[partition].last().1 < binding.1
            } else {
                state.next_ts.contains_key(partition) || binding.0 > state.expected
            }
        }),
    ensures
        ({
            let history = state.history();
            let entries = if history.contains_key(partition) {
                history[partition]
            } else {
                Seq::empty()
            };
            in_order(
                ReaderState {
                    histories: state.histories.insert(
                        state.id,
                        history.insert(partition, entries.push(binding)),
                    ),
                    ..state
                },
            )
        }),
{
    let history = state.history();
    let entries = if history.contains_key(partition) {
        history[partition]
    } else {
        Seq::empty()
    };
    let more = history.insert(partition, entries.push(binding));
    let post = ReaderState { histories: state.histories.insert(state.id, more), ..state };
    assert(post.history() == more);
    assert forall|p: i32, i: int|
        more.contains_key(p) && 0 <= i < more[p].len() implies floor(
        state.next_ts,
        state.last_closed_ts,
        p,
    ) < (#[trigger] more[p][i]).1 by {
        if p != partition || i < entries.len() {
            assert(more[p][i] == history[p][i]);
        }
    }
    assert forall|p: i32, i: int, j: int|
        more.contains_key(p) && 0 <= i < j < more[p].len() implies (#[trigger] more[p][i]).1 < (
    #[trigger] more[p][j]).1 by {
        if p != partition || j < entries.len() {
            assert(more[p][i] == history[p][i] && more[p][j] == history[p][j]);
        } else {
            assert(more[p][i] == history[p][i]);
            if i < entries.len() - 1 {
                assert(history[p][i].1 < history[p][entries.len() - 1].1);
            }
        }
    }
    assert forall|p: i32| #[trigger] more.contains_key(p) && more[p].len() > 0 implies
        state.next_ts.contains_key(p) || more[p][0].0 > state.expected by {
        if p != partition || entries.len() > 0 {
            assert(history.contains_key(p) && history[p].len() > 0);
            assert(more[p][0] == history[p][0]);
        }
    }
}

/// Downgrading keeps the order; the capability and the closed timestamp never go back. It is
/// refused only if there is no time left after the closed timestamps.
pub proof fn lemma_downgrade_keeps_order(pre: ReaderState, post: ReaderState, outcome: Downgrade)
    requires
        in_order(pre),
        downgrade_step(pre, post, outcome),
    ensures
        in_order(post),
        pre.time <= post.time,
        pre.last_closed_ts <= post.last_closed_ts,
        outcome is Refused ==> is_least_timestamp(post.next_ts, Timestamp::MAX),
{
    if !(outcome is NeedsPartitions) {
        let history = pre.history();
        let open = still_open(history, pre.offsets);
        assert(post.history() =~= open);
        assert forall|p: i32| #[trigger]
            history.contains_key(p) && history[p].len() > 0 implies pre.next_ts.contains_key(p) by {
            assert(inspected(history, pre.offsets, p, 0));
            assert(!requires_partitions(history, pre.offsets, pre.expected, history[p][0].0));
        }
        assert forall|p: i32| #[trigger] closing(history, pre.offsets, p) <= history[p].len()
            || !history.contains_key(p) by {
            if history.contains_key(p) {
                lemma_closed_count(history[p], last_offset(pre.offsets, p));
            }
        }
        assert(none_behind(post.next_ts, pre.last_closed_ts)) by {
            assert forall|p: i32| #[trigger] post.next_ts.contains_key(p) implies pre.last_closed_ts
                <= post.next_ts[p] by {
                let count = closing(history, pre.offsets, p) as int;
                if count > 0 {
                    assert(floor(pre.next_ts, pre.last_closed_ts, p) < history[p][count - 1].1);
                    assert(pre.next_ts.contains_key(p) ==> pre.last_closed_ts <= pre.next_ts[p]);
                } else {
                    assert(pre.next_ts.contains_key(p));
                }
            }
        }
        assert forall|p: i32, i: int|
            open.contains_key(p) && 0 <= i < open[p].len() implies floor(
            post.next_ts,
            post.last_closed_ts,
            p,
        ) < (#[trigger] open[p][i]).1 by {
            let count = closing(history, pre.offsets, p) as int;
            assert(open[p][i] == history[p][count + i]);
            assert(history.contains_key(p) && history[p].len() > 0);
            assert(post.next_ts.contains_key(p));
            if count > 0 {
                assert(history[p][count - 1].1 < history[p][count + i].1);
            } else {
                assert(floor(pre.next_ts, pre.last_closed_ts, p) < history[p][i].1);
            }
        }
        assert forall|p: i32, i: int, j: int|
            open.contains_key(p) && 0 <= i < j < open[p].len() implies (#[trigger] open[p][i]).1 < (
        #[trigger] open[p][j]).1 by {
            let count = closing(history, pre.offsets, p) as int;
            assert(history[p][count + i].1 < history[p][count + j].1);
        }
        assert forall|p: i32| #[trigger] open.contains_key(p) && open[p].len() > 0 implies
            post.next_ts.contains_key(p) by {
            assert(history.contains_key(p) && history[p].len() > 0);
        }
        if outcome is Downgraded {
            assert(is_least_timestamp(post.next_ts, post.last_closed_ts));
        }
        if outcome is Refused {
            let least = choose|least: Timestamp| #[trigger]
                is_least_timestamp(post.next_ts, least) && !can_follow(pre.time, least);
            assert(is_least_timestamp(post.next_ts, least));
            assert(pre.last_closed_ts <= least);
        }
    }
}

/// A complete list of the partitions names every partition that has bindings.
pub open spec fn names_all(pre: ReaderState, event: Event) -> bool {
    event matches Event::Metadata(metadata) ==> {
        let found = partitions_found(metadata, pre.topic, awaited_partitions(pre));
        awaited_partitions(pre) <= found.len() ==> forall|partition: i32| #[trigger]
            pre.history().contains_key(partition) && pre.history()[partition].len() > 0
                ==> pre.next_ts.contains_key(partition) || found.contains(partition)
    }
}

/// The message at `offset` of `partition` has a timestamp that the capability can still send at.
pub open spec fn in_time(state: ReaderState, partition: i32, offset: i64) -> bool {
    offset < i64::MAX && match matching_timestamp(
        state.history(),
        partition,
        (offset + 1) as i64,
    ) {
        Some(ts) => state.time <= ts,
        None => false,
    }
}

/// What the step delivers, if anything, is the message at hand, taken as processed on its own
/// partition, and sent no later than the timestamp that it has there.
pub open spec fn delivers_in_time(
    pre: ReaderState,
    event: Event,
    post: ReaderState,
    action: Action,
) -> bool {
    action is Deliver ==> match message_at_hand(pre, event) {
        Some(message) => {
            &&& delivers(message, pre, post, action)
            &&& in_time(post, message.partition, message.offset)
        },
        None => false,
    }
}

/// What a step keeps when timestamps are decided in increasing order.
pub open spec fn ordered_step(pre: ReaderState, post: ReaderState, action: Action) -> bool {
    &&& in_order(post)
    &&& pre.time <= post.time
    &&& pre.last_closed_ts <= post.last_closed_ts
    &&& action == Action::Panic(Failure::CapabilityRegression) ==> is_least_timestamp(
        post.next_ts,
        Timestamp::MAX,
    )
}

proof fn lemma_after_message_in_order(pre: ReaderState, post: ReaderState, action: Action)
    requires
        in_order(pre),
        after_message(pre, post, action),
    ensures
        ordered_step(pre, post, action),
        !(action is Deliver),
{
    let (mid, outcome) = choose|mid: ReaderState, outcome: Downgrade| #[trigger]
        downgrade_step(pre, mid, outcome) && goes_on_after_message(mid, outcome, post, action);
    lemma_downgrade_keeps_order(pre, mid, outcome);
    assert(post.history() == mid.history());
}

proof fn lemma_on_message_in_order(
    pre: ReaderState,
    message: KafkaMessage,
    post: ReaderState,
    action: Action,
)
    requires
        in_order(pre),
        on_message(pre, message, post, action),
    ensures
        ordered_step(pre, post, action),
        action is Deliver ==> delivers(message, pre, post, action) && in_time(
            post,
            message.partition,
            message.offset,
        ),
{
    let processed = pre.with_processed(message);
    assert(processed.history() == pre.history());
    if action is CheckTimer || action == Action::Panic(Failure::CapabilityRegression) || (action
        is FetchMetadata && post.phase is Counting) {
        lemma_after_message_in_order(processed, post, action);
    } else {
        assert(post.history() == pre.history());
        if action is Deliver {
            let ts = matching_timestamp(
                pre.history(),
                message.partition,
                (message.offset + 1) as i64,
            )->0;
            lemma_timestamps_are_open(pre, message.partition, (message.offset + 1) as i64, ts);
        }
    }
}

proof fn lemma_opens_turn_in_order(pre: ReaderState, post: ReaderState, action: Action)
    requires
        in_order(pre),
        opens_turn(pre, post, action),
    ensures
        ordered_step(pre, post, action),
        action is Deliver ==> match pre.buffer {
            Some(message) => delivers(message, pre, post, action) && in_time(
                post,
                message.partition,
                message.offset,
            ),
            None => false,
        },
{
    let (mid, outcome) = choose|mid: ReaderState, outcome: Downgrade| #[trigger]
        downgrade_step(pre, mid, outcome) && goes_on_opening(mid, outcome, post, action);
    lemma_downgrade_keeps_order(pre, mid, outcome);
    if (outcome is Unchanged || outcome is Downgraded) && mid.buffer is Some {
        let taken = ReaderState { buffer: None, ..mid };
        assert(taken.history() == mid.history());
        lemma_on_message_in_order(taken, mid.buffer->0, post, action);
    } else {
        assert(post.history() == mid.history());
    }
}

proof fn lemma_found_in_order(pre: ReaderState, found: Set<i32>)
    requires
        in_order(pre),
        forall|partition: i32| #[trigger]
            pre.history().contains_key(partition) && pre.history()[partition].len() > 0
                ==> pre.next_ts.contains_key(partition) || found.contains(partition),
    ensures
        in_order(pre.with_found(found)),
{
    let post = pre.with_found(found);
    assert(post.history() == pre.history());
    assert forall|p: i32| #[trigger] floor(post.next_ts, post.last_closed_ts, p) == floor(
        pre.next_ts,
        pre.last_closed_ts,
        p,
    ) by {}
    assert forall|p: i32| #[trigger] post.next_ts.contains_key(p) implies post.last_closed_ts
        <= post.next_ts[p] by {
        if pre.next_ts.contains_key(p) {
            assert(pre.last_closed_ts <= pre.next_ts[p]);
        }
    }
    assert forall|p: i32, i: int|
        post.history().contains_key(p) && 0 <= i < post.history()[p].len() implies floor(
        post.next_ts,
        post.last_closed_ts,
        p,
    ) < (#[trigger] post.history()[p][i]).1 by {
        assert(floor(pre.next_ts, pre.last_closed_ts, p) < pre.history()[p][i].1);
    }
}

/// Where timestamps are decided in increasing order, every step keeps that order, the capability
/// and the closed timestamp never go back, no payload is sent after the timestamp of its message,
/// and the reader does not give up for a capability that would have to go back, unless there is
/// no time left.
pub proof fn lemma_step_keeps_order(
    pre: ReaderState,
    event: Event,
    post: ReaderState,
    action: Action,
)
    requires
        in_order(pre),
        names_all(pre, event),
        transition(pre, event, post, action),
    ensures
        ordered_step(pre, post, action),
        delivers_in_time(pre, event, post, action),
{
    let idle = pre.in_phase(Phase::Idle);
    assert(idle.history() == pre.history());
    match event {
        Event::Activated => {
            let opened = ReaderState { bytes_read: 0, ..idle };
            assert(opened.history() == pre.history());
            lemma_opens_turn_in_order(opened, post, action);
        },
        Event::Metadata(metadata) => {
            let found = partitions_found(metadata, pre.topic, awaited_partitions(pre));
            if awaited_partitions(pre) <= found.len() <= i32::MAX {
                lemma_found_in_order(pre, found);
                let known = pre.with_found(found).in_phase(Phase::Idle);
                assert(known.history() == pre.with_found(found).history());
                match pre.phase {
                    Phase::Counting { stage: Stage::Opening, .. } => {
                        lemma_opens_turn_in_order(known, post, action);
                        if let Some(message) = pre.buffer {
                            assert(last_offset(known.offsets, message.partition) == last_offset(
                                pre.offsets,
                                message.partition,
                            ));
                        }
                    },
                    Phase::Counting { stage: Stage::AfterMessage, .. } => {
                        lemma_after_message_in_order(known, post, action);
                    },
                    _ => {
                        assert(post.history() == known.history());
                    },
                }
            } else {
                assert(post.history() == pre.history());
            }
        },
        Event::Polled(Polled::Message(message)) => {
            lemma_on_message_in_order(idle, message, post, action);
        },
        Event::Delivered => {
            lemma_after_message_in_order(idle, post, action);
        },
        _ => {
            assert(post.history() == pre.history());
        },
    }
}

/// A new reader starts in order if it holds a capability for time zero or one and no timestamp
/// has been decided.
pub proof fn lemma_start_in_order(state: ReaderState, topic: Seq<char>)
    requires
        starts(state, state.id, topic),
        state.time <= 1,
        state.history() == Map::<i32, Seq<Binding>>::empty(),
    ensures
        in_order(state),
{
}

} // verus!
