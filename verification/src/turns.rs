//! What a reader does with a message, with a list of partitions and with the clock, in terms of the
//! bindings and the offsets themselves.

use crate::closing::{closed_count, lemma_closed_count};
use crate::downgrade::{
    is_minimum, lemma_downgrade_asks_for_partitions, lemma_downgrade_follows_minimum,
    lemma_downgrade_leaves_the_rest, lemma_downgrade_removes_read_bindings,
    lemma_downgrade_without_finished_binding, meets_finished_binding, meets_unknown_partitions,
    read_up_to, Downgrade,
};
use crate::history::{
    first_to_reach, lemma_unassigned_when_none_reaches, matching_timestamp, SourceInstanceId,
    Timestamp,
};
use crate::message::{Action, Event, Failure, KafkaMessage, Polled};
use crate::partitions::{lemma_found_as_listed, lemma_none_found, partitions_found, TopicMetadata};
use crate::reader::{
    after_message, awaited_partitions, awaits, downgrade_step, goes_on_after_message,
    goes_on_opening, on_message, opens_turn, starts, transition, Phase, ReaderState, Stage,
};
use vstd::prelude::*;

verus! {

/// Some binding of the partition goes past `offset`: the message at `offset` has a timestamp.
pub open spec fn decided(state: ReaderState, partition: i32, offset: i64) -> bool {
    &&& state.histories.contains_key(state.id)
    &&& state.histories[state.id].contains_key(partition)
    &&& exists|i: int|
        0 <= i < state.histories[state.id][partition].len() && offset < (
        #[trigger] state.histories[state.id][partition][i]).2
}

/// The message is of a known partition, and past what has been processed of it.
pub open spec fn is_new(state: ReaderState, message: KafkaMessage) -> bool {
    &&& state.partitions.contains(message.partition)
    &&& read_up_to(state.offsets, message.partition) <= message.offset < i64::MAX
}

/// What the end of a turn reports of this many bytes.
pub open spec fn report_of(bytes_read: i64) -> Option<i64> {
    if bytes_read > 0 {
        Some(bytes_read)
    } else {
        None
    }
}

proof fn lemma_decided(state: ReaderState, partition: i32, offset: i64)
    requires
        offset < i64::MAX,
    ensures
        decided(state, partition, offset) <==> matching_timestamp(
            state.history(),
            partition,
            (offset + 1) as i64,
        ) is Some,
{
    if state.histories.contains_key(state.id) && state.histories[state.id].contains_key(partition) {
        let entries = state.histories[state.id][partition];
        let next = (offset + 1) as i64;
        lemma_unassigned_when_none_reaches(entries, next);
        if matching_timestamp(state.history(), partition, next) is Some {
            let i = choose|i: int|
                #[trigger] first_to_reach(entries, next, i) && entries[i].1 == matching_timestamp(
                    state.history(),
                    partition,
                    next,
                )->0;
            assert(offset < state.histories[state.id][partition][i].2);
        }
        if decided(state, partition, offset) {
            let i = choose|i: int|
                0 <= i < state.histories[state.id][partition].len() && offset < (
                #[trigger] state.histories[state.id][partition][i]).2;
            assert(!(entries[i].2 < next));
        }
    }
}

/// A polled message that is new, that some binding of its partition goes past, and whose payload
/// can be counted, is delivered, whatever its timestamp. Its partition is then processed up to it,
/// the bytes are counted, and nothing else changes.
pub proof fn lemma_decided_message_is_delivered(
    pre: ReaderState,
    message: KafkaMessage,
    payload: Vec<u8>,
    post: ReaderState,
    action: Action,
)
    requires
        transition(pre, Event::Polled(Polled::Message(message)), post, action),
        is_new(pre, message),
        decided(pre, message.partition, message.offset),
        message.payload == Some(payload),
        pre.bytes_read + payload@.len() <= i64::MAX,
    ensures
        action == (Action::Deliver { payload, offset: message.offset }),
        post == (ReaderState {
            offsets: pre.offsets.insert(message.partition, (message.offset + 1) as i64),
            bytes_read: (pre.bytes_read + payload@.len()) as i64,
            phase: Phase::Delivering,
            ..pre
        }),
{
    lemma_decided(pre, message.partition, message.offset);
    assert(pre.in_phase(Phase::Idle).history() == pre.history());
}

/// A polled message that is new is held back exactly when no binding of its partition goes past it.
/// The turn then ends, and nothing changes but that the message is in the buffer.
pub proof fn lemma_only_undecided_message_is_held(
    pre: ReaderState,
    message: KafkaMessage,
    post: ReaderState,
    action: Action,
)
    requires
        transition(pre, Event::Polled(Polled::Message(message)), post, action),
        is_new(pre, message),
    ensures
        !decided(pre, message.partition, message.offset) <==> action is Yield,
        !decided(pre, message.partition, message.offset) ==> {
            &&& action == Action::Yield { bytes_read: report_of(pre.bytes_read) }
            &&& post == ReaderState { buffer: Some(message), phase: Phase::Idle, ..pre }
        },
        decided(pre, message.partition, message.offset) ==> post.offsets == pre.offsets.insert(
            message.partition,
            (message.offset + 1) as i64,
        ),
{
    lemma_decided(pre, message.partition, message.offset);
    let idle = pre.in_phase(Phase::Idle);
    assert(idle.history() == pre.history());
    if decided(pre, message.partition, message.offset) && message.payload is None {
        let processed = idle.with_processed(message);
        let (mid, outcome) = choose|mid: ReaderState, outcome: Downgrade| #[trigger]
            downgrade_step(processed, mid, outcome) && goes_on_after_message(
                mid,
                outcome,
                post,
                action,
            );
        assert(mid.offsets == processed.offsets);
    }
}

/// A polled message without a payload that is new and that some binding goes past is processed as
/// if it had just been delivered.
pub proof fn lemma_message_without_payload_goes_on_as_delivered(
    pre: ReaderState,
    message: KafkaMessage,
    post: ReaderState,
    action: Action,
)
    requires
        transition(pre, Event::Polled(Polled::Message(message)), post, action),
        is_new(pre, message),
        decided(pre, message.partition, message.offset),
        message.payload is None,
    ensures
        transition(
            (ReaderState {
                offsets: pre.offsets.insert(message.partition, (message.offset + 1) as i64),
                phase: Phase::Delivering,
                ..pre
            }),
            Event::Delivered,
            post,
            action,
        ),
{
    lemma_decided(pre, message.partition, message.offset);
    assert(pre.in_phase(Phase::Idle).history() == pre.history());
    let delivered = ReaderState {
        offsets: pre.offsets.insert(message.partition, (message.offset + 1) as i64),
        phase: Phase::Delivering,
        ..pre
    };
    assert(delivered.in_phase(Phase::Idle) == pre.in_phase(Phase::Idle).with_processed(message));
}

/// What becomes of a polled message that is not new: one of a partition that is not known waits for
/// the list of partitions; one that was processed before makes the consumer go to the first message
/// of its partition that was not; neither changes anything else. One at the last of all offsets, or
/// one whose payload cannot be counted, makes the reader give up.
pub proof fn lemma_other_messages(
    pre: ReaderState,
    message: KafkaMessage,
    post: ReaderState,
    action: Action,
)
    requires
        transition(pre, Event::Polled(Polled::Message(message)), post, action),
    ensures
        message.offset == i64::MAX ==> {
            &&& action == Action::Panic(Failure::OffsetOverflow)
            &&& post == ReaderState { phase: Phase::Idle, ..pre }
        },
        message.offset < i64::MAX && !pre.partitions.contains(message.partition) ==> {
            &&& action == Action::FetchMetadata
            &&& post == ReaderState { phase: Phase::Placing(message), ..pre }
        },
        pre.partitions.contains(message.partition) && message.offset < read_up_to(
            pre.offsets,
            message.partition,
        ) ==> {
            &&& action == Action::Seek {
                partition: message.partition,
                offset: read_up_to(pre.offsets, message.partition),
                received: (message.offset + 1) as i64,
                bytes_read: report_of(pre.bytes_read),
            }
            &&& post == ReaderState { phase: Phase::Idle, ..pre }
        },
        is_new(pre, message) && decided(pre, message.partition, message.offset)
            && message.payload is Some && pre.bytes_read + message.payload->0@.len() > i64::MAX
            ==> {
            &&& action == Action::Panic(Failure::BytesOverflow)
            &&& post == ReaderState {
                offsets: pre.offsets.insert(message.partition, (message.offset + 1) as i64),
                phase: Phase::Idle,
                ..pre
            }
        },
{
    if message.offset < i64::MAX {
        lemma_decided(pre, message.partition, message.offset);
    }
    assert(pre.in_phase(Phase::Idle).history() == pre.history());
}

/// A turn with a buffered message goes as one without it whose first poll hands out that message;
/// as long as such a turn does not come to poll, the message stays in the buffer.
pub proof fn lemma_buffered_message_comes_first(
    pre: ReaderState,
    message: KafkaMessage,
    post: ReaderState,
    action: Action,
)
    requires
        transition(pre, Event::Activated, post, action),
        pre.buffer == Some(message),
    ensures
        exists|mid: ReaderState, asked: Action| #[trigger]
            transition(ReaderState { buffer: None, ..pre }, Event::Activated, mid, asked) && if asked
                == Action::Poll {
                transition(mid, Event::Polled(Polled::Message(message)), post, action)
            } else {
                post == (ReaderState { buffer: Some(message), ..mid }) && action == asked
            },
{
    let opened = ReaderState { bytes_read: 0, ..pre.in_phase(Phase::Idle) };
    let (settled, outcome) = choose|settled: ReaderState, outcome: Downgrade| #[trigger]
        downgrade_step(opened, settled, outcome) && goes_on_opening(
            settled,
            outcome,
            post,
            action,
        );
    let without = ReaderState { buffer: None, ..pre };
    let taken = ReaderState { buffer: None, ..settled };
    assert(downgrade_step(
        ReaderState { bytes_read: 0, ..without.in_phase(Phase::Idle) },
        taken,
        outcome,
    ));
    let (mid, asked) = match outcome {
        Downgrade::NeedsPartitions(required) => (
            taken.in_phase(Phase::Counting { required, stage: Stage::Opening }),
            Action::FetchMetadata,
        ),
        Downgrade::Refused => (
            taken.in_phase(Phase::Idle),
            Action::Panic(Failure::CapabilityRegression),
        ),
        _ => (taken.in_phase(Phase::Polling), Action::Poll),
    };
    assert(goes_on_opening(taken, outcome, mid, asked));
    assert(transition(without, Event::Activated, mid, asked));
    if asked == Action::Poll {
        assert(mid.in_phase(Phase::Idle) == taken);
    }
}

/// At the start of a turn without a buffered message, and after a delivery: if a binding that closing
/// comes to was made with more partitions than are expected, and only then, the partitions are asked
/// for, as many as such a binding names, and nothing else changes.
pub proof fn lemma_unknown_partitions_are_asked_for(
    pre: ReaderState,
    event: Event,
    post: ReaderState,
    action: Action,
)
    requires
        transition(pre, event, post, action),
        (event is Activated && pre.buffer is None) || event is Delivered,
    ensures
        post.phase is Counting <==> pre.histories.contains_key(pre.id) && meets_unknown_partitions(
            pre.histories[pre.id],
            pre.offsets,
            pre.expected,
        ),
        post.phase is Counting <==> action == Action::FetchMetadata,
        post.phase matches Phase::Counting { required, stage } ==> {
            &&& required > pre.expected
            &&& exists|partition: i32, i: int|
                pre.histories[pre.id].contains_key(partition) && 0 <= i
                    < pre.histories[pre.id][partition].len() && (
                #[trigger] pre.histories[pre.id][partition][i]).0 == required && forall|j: int|
                    0 <= j < i ==> (#[trigger] pre.histories[pre.id][partition][j]).2 <= read_up_to(
                        pre.offsets,
                        partition,
                    )
            &&& (stage is Opening <==> event is Activated)
            &&& post == ReaderState {
                phase: post.phase,
                bytes_read: if event is Activated {
                    0
                } else {
                    pre.bytes_read
                },
                ..pre
            }
        },
        post.offsets == pre.offsets,
        post.partitions == pre.partitions,
        post.expected == pre.expected,
        post.buffer == pre.buffer,
        post.bytes_read == if event is Activated {
            0
        } else {
            pre.bytes_read
        },
{
    let (entry, mid, outcome) = lemma_settles(pre, event, post, action);
    lemma_downgrade_asks_for_partitions(
        entry.progress(),
        entry.id,
        entry.offsets,
        entry.expected,
        mid.progress(),
        outcome,
    );
}

/// The downgrade that a step makes.
proof fn lemma_settles(
    pre: ReaderState,
    event: Event,
    post: ReaderState,
    action: Action,
) -> (found: (ReaderState, ReaderState, Downgrade))
    requires
        transition(pre, event, post, action),
        (event is Activated && pre.buffer is None) || event is Delivered,
    ensures
        ({
            let (entry, mid, outcome) = found;
            &&& entry == ReaderState {
                bytes_read: if event is Activated {
                    0
                } else {
                    pre.bytes_read
                },
                phase: Phase::Idle,
                ..pre
            }
            &&& downgrade_step(entry, mid, outcome)
            &&& event is Activated ==> goes_on_opening(mid, outcome, post, action)
            &&& event is Delivered ==> goes_on_after_message(mid, outcome, post, action)
            &&& post == mid.in_phase(post.phase)
        }),
{
    let entry = ReaderState {
        bytes_read: if event is Activated {
            0
        } else {
            pre.bytes_read
        },
        phase: Phase::Idle,
        ..pre
    };
    if event is Activated {
        let (mid, outcome) = choose|mid: ReaderState, outcome: Downgrade| #[trigger]
            downgrade_step(entry, mid, outcome) && goes_on_opening(mid, outcome, post, action);
        (entry, mid, outcome)
    } else {
        let (mid, outcome) = choose|mid: ReaderState, outcome: Downgrade| #[trigger]
            downgrade_step(entry, mid, outcome) && goes_on_after_message(
                mid,
                outcome,
                post,
                action,
            );
        (entry, mid, outcome)
    }
}

/// Such a step, if it need not ask for partitions, removes on each partition exactly the leading
/// bindings that have been read to their end.
pub proof fn lemma_step_removes_read_bindings(
    pre: ReaderState,
    event: Event,
    post: ReaderState,
    action: Action,
    partition: i32,
    n: int,
)
    requires
        transition(pre, event, post, action),
        (event is Activated && pre.buffer is None) || event is Delivered,
        pre.histories.contains_key(pre.id),
        !meets_unknown_partitions(pre.histories[pre.id], pre.offsets, pre.expected),
        pre.histories[pre.id].contains_key(partition),
        0 <= n <= pre.histories[pre.id][partition].len(),
        forall|i: int|
            0 <= i < n ==> (#[trigger] pre.histories[pre.id][partition][i]).2 <= read_up_to(
                pre.offsets,
                partition,
            ),
        n < pre.histories[pre.id][partition].len() ==> pre.histories[pre.id][partition][n].2
            > read_up_to(pre.offsets, partition),
    ensures
        post.histories.contains_key(pre.id),
        post.histories[pre.id].contains_key(partition),
        post.histories[pre.id][partition] == pre.histories[pre.id][partition].subrange(
            n,
            pre.histories[pre.id][partition].len() as int,
        ),
        n > 0 ==> post.next_ts.contains_key(partition) && post.next_ts[partition]
            == pre.histories[pre.id][partition][n - 1].1,
        n == 0 ==> (post.next_ts.contains_key(partition) <==> pre.next_ts.contains_key(partition)),
        n == 0 && pre.next_ts.contains_key(partition) ==> post.next_ts[partition]
            == pre.next_ts[partition],
{
    let (entry, mid, outcome) = lemma_settles(pre, event, post, action);
    lemma_downgrade_removes_read_bindings(
        entry.progress(),
        entry.id,
        entry.offsets,
        entry.expected,
        mid.progress(),
        outcome,
        partition,
        n,
    );
}

/// Such a step changes nothing of a partition without bindings, and neither adds a partition to the
/// bindings nor takes one away.
pub proof fn lemma_step_leaves_partitions_without_bindings(
    pre: ReaderState,
    event: Event,
    post: ReaderState,
    action: Action,
    partition: i32,
)
    requires
        transition(pre, event, post, action),
        (event is Activated && pre.buffer is None) || event is Delivered,
        !(pre.histories.contains_key(pre.id) && pre.histories[pre.id].contains_key(partition)),
    ensures
        !(post.histories.contains_key(pre.id) && post.histories[pre.id].contains_key(partition)),
        post.next_ts.contains_key(partition) <==> pre.next_ts.contains_key(partition),
        pre.next_ts.contains_key(partition) ==> post.next_ts[partition] == pre.next_ts[partition],
{
    let (entry, mid, outcome) = lemma_settles(pre, event, post, action);
    lemma_downgrade_leaves_the_rest(
        entry.progress(),
        entry.id,
        entry.offsets,
        entry.expected,
        mid.progress(),
        outcome,
    );
    assert(pre.histories.dom().contains(pre.id) == post.histories.dom().contains(pre.id));
    if pre.histories.contains_key(pre.id) {
        assert(pre.histories[pre.id].dom().contains(partition)
            == post.histories[pre.id].dom().contains(partition));
    }
}

/// Such a step, if it need not ask for partitions: once the first binding of some partition has been
/// read to its end, the capability moves to the time after the minimum of what the partitions are
/// closed through, and that is the last closed timestamp; if it cannot move there, the reader gives
/// up. If no such binding is there, nothing changes. The turn then goes on.
pub proof fn lemma_step_moves_capability(
    pre: ReaderState,
    event: Event,
    post: ReaderState,
    action: Action,
    least: Timestamp,
)
    requires
        transition(pre, event, post, action),
        (event is Activated && pre.buffer is None) || event is Delivered,
        !(pre.histories.contains_key(pre.id) && meets_unknown_partitions(
            pre.histories[pre.id],
            pre.offsets,
            pre.expected,
        )),
    ensures
        ({
            let closes = pre.histories.contains_key(pre.id) && meets_finished_binding(
                pre.histories[pre.id],
                pre.offsets,
            );
            let follows = least < u64::MAX && pre.time <= least + 1;
            &&& closes && is_minimum(post.next_ts, least) && follows ==> post.time == least + 1
                && post.last_closed_ts == least
            &&& closes && is_minimum(post.next_ts, least) && !follows ==> post.time == pre.time
                && post.last_closed_ts == pre.last_closed_ts && action == Action::Panic(
                Failure::CapabilityRegression,
            )
            &&& !closes ==> post.histories == pre.histories && post.next_ts == pre.next_ts
                && post.time == pre.time && post.last_closed_ts == pre.last_closed_ts
            &&& !closes || (is_minimum(post.next_ts, least) && follows) ==> if event is Activated {
                action == Action::Poll && post.phase is Polling
            } else {
                action == Action::CheckTimer && post.phase is Timing
            }
        }),
{
    let (entry, mid, outcome) = lemma_settles(pre, event, post, action);
    let (a, b) = (entry.progress(), mid.progress());
    lemma_downgrade_asks_for_partitions(a, entry.id, entry.offsets, entry.expected, b, outcome);
    if pre.histories.contains_key(pre.id) && meets_finished_binding(
        pre.histories[pre.id],
        pre.offsets,
    ) {
        if is_minimum(post.next_ts, least) {
            lemma_downgrade_follows_minimum(
                a,
                entry.id,
                entry.offsets,
                entry.expected,
                b,
                outcome,
                least,
            );
        }
    } else {
        lemma_downgrade_without_finished_binding(
            a,
            entry.id,
            entry.offsets,
            entry.expected,
            b,
            outcome,
        );
    }
}

/// A buffered message that is new, has a payload, and that some binding of its partition goes past,
/// is delivered at the start of the turn, unless partitions have to be asked for first, in which case
/// it stays in the buffer, or the capability cannot move.
pub proof fn lemma_decided_buffered_message_is_delivered(
    pre: ReaderState,
    message: KafkaMessage,
    payload: Vec<u8>,
    post: ReaderState,
    action: Action,
)
    requires
        transition(pre, Event::Activated, post, action),
        pre.buffer == Some(message),
        is_new(pre, message),
        decided(pre, message.partition, message.offset),
        message.payload == Some(payload),
        payload@.len() <= i64::MAX,
    ensures
        if pre.histories.contains_key(pre.id) && meets_unknown_partitions(
            pre.histories[pre.id],
            pre.offsets,
            pre.expected,
        ) {
            action == Action::FetchMetadata && post.buffer == Some(message) && post.offsets
                == pre.offsets
        } else if action == Action::Panic(Failure::CapabilityRegression) {
            meets_finished_binding(pre.histories[pre.id], pre.offsets)
        } else {
            &&& action == Action::Deliver { payload, offset: message.offset }
            &&& post.buffer is None
            &&& post.bytes_read == payload@.len()
            &&& post.offsets == pre.offsets.insert(message.partition, (message.offset + 1) as i64)
        },
{
    lemma_buffered_message_comes_first(pre, message, post, action);
    let without = ReaderState { buffer: None, ..pre };
    let (mid, asked) = choose|mid: ReaderState, asked: Action| #[trigger]
        transition(without, Event::Activated, mid, asked) && if asked == Action::Poll {
            transition(mid, Event::Polled(Polled::Message(message)), post, action)
        } else {
            post == (ReaderState { buffer: Some(message), ..mid }) && action == asked
        };
    lemma_unknown_partitions_are_asked_for(without, Event::Activated, mid, asked);
    let (entry, settled, outcome) = lemma_settles(without, Event::Activated, mid, asked);
    if !(mid.phase is Counting) {
        lemma_step_moves_capability(without, Event::Activated, mid, asked, 0);
        let entries = pre.histories[pre.id][message.partition];
        let last = read_up_to(pre.offsets, message.partition);
        lemma_closed_count(entries, last);
        let n = closed_count(entries, last) as int;
        lemma_step_removes_read_bindings(
            without,
            Event::Activated,
            mid,
            asked,
            message.partition,
            n,
        );
        let i = choose|i: int|
            0 <= i < entries.len() && message.offset < (
            #[trigger] pre.histories[pre.id][message.partition][i]).2;
        assert(i >= n);
        assert(mid.histories[mid.id][message.partition][i - n] == entries[i]);
        assert(decided(mid, message.partition, message.offset));
        if asked == Action::Poll {
            lemma_decided_message_is_delivered(mid, message, payload, post, action);
        }
    }
}

/// A turn that has lasted for more than ten milliseconds ends and reports its bytes; one that has
/// not polls again. A turn without a further message, or with an error of the consumer, ends and
/// reports its bytes. Nothing else changes.
pub proof fn lemma_end_of_turn(pre: ReaderState, event: Event, post: ReaderState, action: Action)
    requires
        transition(pre, event, post, action),
    ensures
        event matches Event::Elapsed(millis) && millis > 10 ==> {
            &&& action == Action::Yield { bytes_read: report_of(pre.bytes_read) }
            &&& post == ReaderState { phase: Phase::Idle, ..pre }
        },
        event matches Event::Elapsed(millis) && millis <= 10 ==> {
            &&& action == Action::Poll
            &&& post == ReaderState { phase: Phase::Polling, ..pre }
        },
        event == Event::Polled(Polled::Empty) || event == Event::Polled(Polled::Failed) ==> {
            &&& action == Action::Park { bytes_read: report_of(pre.bytes_read) }
            &&& post == ReaderState { phase: Phase::Idle, ..pre }
        },
{
}

/// The state after the partitions that a topic lists have been learned, in this phase.
pub open spec fn has_learned(
    pre: ReaderState,
    listed: Seq<i32>,
    phase: Phase,
    known: ReaderState,
) -> bool {
    &&& known == ReaderState {
        offsets: known.offsets,
        next_ts: known.next_ts,
        expected: listed.to_set().len() as i32,
        phase,
        ..pre
    }
    &&& forall|p: i32| #[trigger]
        known.offsets.contains_key(p) <==> pre.offsets.contains_key(p) || listed.contains(p)
    &&& forall|p: i32| #[trigger]
        known.next_ts.contains_key(p) <==> pre.next_ts.contains_key(p) || listed.contains(p)
    &&& forall|p: i32|
        known.offsets.contains_key(p) ==> #[trigger] known.offsets[p]
            == if pre.offsets.contains_key(p) {
            pre.offsets[p]
        } else {
            0
        }
    &&& forall|p: i32|
        known.next_ts.contains_key(p) ==> #[trigger] known.next_ts[p]
            == if pre.next_ts.contains_key(p) {
            pre.next_ts[p]
        } else {
            pre.last_closed_ts
        }
}

/// What a list of partitions does to a reader that waits for at least `count` of them, where
/// `topics[i]` is the first topic of the name and `known` is the reader once it has learned of what
/// is listed there. With fewer the reader asks again and nothing changes. With as many or more, a
/// new reader is ready and knows exactly those; a message that waited is buffered, the turn ends, and
/// the reader knows exactly those; a downgrade that waited is made up for, and the turn goes on as it
/// would have.
pub proof fn lemma_listed_partitions_are_learned(
    pre: ReaderState,
    topics: Vec<TopicMetadata>,
    i: int,
    count: i32,
    known: ReaderState,
    post: ReaderState,
    action: Action,
)
    requires
        transition(pre, Event::Metadata(Some(topics)), post, action),
        awaits(pre.phase, Event::Metadata(Some(topics))),
        count > 0,
        count == match pre.phase {
            Phase::Counting { required, .. } => required,
            _ => pre.expected,
        },
        0 <= i < topics@.len(),
        topics@[i].name@ == pre.topic,
        forall|j: int| 0 <= j < i ==> (#[trigger] topics@[j]).name@ != pre.topic,
        has_learned(pre, topics@[i].partitions@, Phase::Idle, known),
    ensures
        ({
            let listed = topics@[i].partitions@.to_set();
            &&& listed.len() < count ==> action == Action::FetchMetadata && post == pre
            &&& listed.len() > i32::MAX ==> action == Action::Panic(Failure::TooManyPartitions)
                && post == ReaderState { phase: Phase::Idle, ..pre }
            &&& count <= listed.len() <= i32::MAX ==> match pre.phase {
                Phase::Placing(message) => {
                    &&& action == Action::Yield { bytes_read: report_of(pre.bytes_read) }
                    &&& post == ReaderState { partitions: listed, buffer: Some(message), ..known }
                },
                Phase::Counting { stage: Stage::Opening, .. } => pre.bytes_read == 0
                    ==> transition(known, Event::Activated, post, action),
                Phase::Counting { stage: Stage::AfterMessage, .. } => transition(
                    ReaderState { phase: Phase::Delivering, ..known },
                    Event::Delivered,
                    post,
                    action,
                ),
                _ => {
                    &&& action == Action::Ready
                    &&& post == ReaderState { partitions: listed, ..known }
                },
            }
        }),
{
    lemma_found_as_listed(topics, pre.topic, count, i);
    let list = topics@[i].partitions@;
    let listed = list.to_set();
    assert forall|p: i32| #[trigger] listed.contains(p) <==> list.contains(p) by {}
    let found = pre.with_found(listed).in_phase(Phase::Idle);
    assert(known.offsets =~= found.offsets);
    assert(known.next_ts =~= found.next_ts);
    assert(known =~= found);
    let opened = ReaderState { bytes_read: 0, ..known.in_phase(Phase::Idle) };
    assert(pre.bytes_read == 0 ==> opened == known);
    let delivered = ReaderState { phase: Phase::Delivering, ..known };
    assert(delivered.in_phase(Phase::Idle) == known);
}

/// If the request for metadata failed, or no topic has the name, a reader that waits for at least one
/// partition asks again, and nothing changes.
pub proof fn lemma_missing_topic_is_asked_for_again(
    pre: ReaderState,
    metadata: Option<Vec<TopicMetadata>>,
    post: ReaderState,
    action: Action,
)
    requires
        transition(pre, Event::Metadata(metadata), post, action),
        0 < match pre.phase {
            Phase::Counting { required, .. } => required,
            _ => pre.expected,
        },
        metadata is None || forall|j: int|
            0 <= j < metadata->0@.len() ==> (#[trigger] metadata->0@[j]).name@ != pre.topic,
    ensures
        action == Action::FetchMetadata,
        post == pre,
{
    lemma_none_found(metadata, pre.topic, awaited_partitions(pre));
}

/// A reader waits for the event that answers what it has asked for.
pub proof fn lemma_awaits(phase: Phase, event: Event)
    ensures
        awaits(phase, event) <==> {
            ||| (phase is Idle && event is Activated)
            ||| ((phase is Starting || phase is Counting || phase is Placing) && event is Metadata)
            ||| (phase is Polling && event is Polled)
            ||| (phase is Delivering && event is Delivered)
            ||| (phase is Timing && event is Elapsed)
        },
{
}

/// No source comes or goes, and the bindings of all but this reader's source stay as they are.
pub open spec fn leaves_other_sources(pre: ReaderState, post: ReaderState) -> bool {
    &&& post.histories.dom() == pre.histories.dom()
    &&& forall|other: SourceInstanceId|
        other != pre.id && pre.histories.contains_key(other) ==> #[trigger] post.histories[other]
            == pre.histories[other]
}

/// The next event that a reader waits for is the answer to the action that it asked for; the actions
/// that end a turn leave it to be activated. No step touches the bindings of another source.
pub proof fn lemma_action_and_phase_agree(
    pre: ReaderState,
    event: Event,
    post: ReaderState,
    action: Action,
)
    requires
        transition(pre, event, post, action),
        awaits(pre.phase, event),
    ensures
        action is Poll <==> post.phase is Polling,
        action is Deliver <==> post.phase is Delivering,
        action is CheckTimer <==> post.phase is Timing,
        action is FetchMetadata <==> post.phase is Starting || post.phase is Counting || post.phase
            is Placing,
        post.id == pre.id,
        post.topic == pre.topic,
        leaves_other_sources(pre, post),
{
    let idle = pre.in_phase(Phase::Idle);
    match event {
        Event::Activated => {
            lemma_opening_agrees(ReaderState { bytes_read: 0, ..idle }, post, action);
        },
        Event::Metadata(metadata) => {
            let found = partitions_found(metadata, pre.topic, awaited_partitions(pre));
            let known = pre.with_found(found).in_phase(Phase::Idle);
            if awaited_partitions(pre) <= found.len() <= i32::MAX {
                match pre.phase {
                    Phase::Counting { stage: Stage::Opening, .. } => {
                        lemma_opening_agrees(known, post, action);
                    },
                    Phase::Counting { stage: Stage::AfterMessage, .. } => {
                        lemma_settling_agrees(known, post, action);
                    },
                    _ => {},
                }
            }
        },
        Event::Polled(Polled::Message(message)) => {
            lemma_message_agrees(idle, message, post, action);
        },
        Event::Delivered => {
            lemma_settling_agrees(idle, post, action);
        },
        _ => {},
    }
}

spec fn agrees(pre: ReaderState, post: ReaderState, action: Action) -> bool {
    &&& action is Poll <==> post.phase is Polling
    &&& action is Deliver <==> post.phase is Delivering
    &&& action is CheckTimer <==> post.phase is Timing
    &&& action is FetchMetadata <==> post.phase is Counting || post.phase is Placing
    &&& !(post.phase is Starting)
    &&& post.id == pre.id
    &&& post.topic == pre.topic
    &&& leaves_other_sources(pre, post)
}

proof fn lemma_settling_agrees(pre: ReaderState, post: ReaderState, action: Action)
    requires
        after_message(pre, post, action),
    ensures
        agrees(pre, post, action),
{
    let (mid, outcome) = choose|mid: ReaderState, outcome: Downgrade| #[trigger]
        downgrade_step(pre, mid, outcome) && goes_on_after_message(mid, outcome, post, action);
    lemma_downgrade_leaves_the_rest(
        pre.progress(),
        pre.id,
        pre.offsets,
        pre.expected,
        mid.progress(),
        outcome,
    );
}

proof fn lemma_message_agrees(
    pre: ReaderState,
    message: KafkaMessage,
    post: ReaderState,
    action: Action,
)
    requires
        on_message(pre, message, post, action),
    ensures
        agrees(pre, post, action),
{
    let processed = pre.with_processed(message);
    if after_message(processed, post, action) {
        lemma_settling_agrees(processed, post, action);
    }
}

proof fn lemma_opening_agrees(pre: ReaderState, post: ReaderState, action: Action)
    requires
        opens_turn(pre, post, action),
    ensures
        agrees(pre, post, action),
{
    let (mid, outcome) = choose|mid: ReaderState, outcome: Downgrade| #[trigger]
        downgrade_step(pre, mid, outcome) && goes_on_opening(mid, outcome, post, action);
    lemma_downgrade_leaves_the_rest(
        pre.progress(),
        pre.id,
        pre.offsets,
        pre.expected,
        mid.progress(),
        outcome,
    );
    if (outcome is Unchanged || outcome is Downgraded) && mid.buffer is Some {
        lemma_message_agrees(ReaderState { buffer: None, ..mid }, mid.buffer->0, post, action);
    }
}

/// A new reader has processed nothing, holds no message, knows no partition and waits for the list
/// of at least one.
pub proof fn lemma_new_reader(state: ReaderState, id: SourceInstanceId, topic: Seq<char>)
    requires
        starts(state, id, topic),
    ensures
        state.id == id,
        state.topic == topic,
        state.phase is Starting,
        state.expected == 1,
        state.buffer is None,
        state.bytes_read == 0,
        state.last_closed_ts == 0,
        forall|p: i32| !(#[trigger] state.partitions.contains(p)),
        forall|p: i32| !(#[trigger] state.offsets.contains_key(p)),
        forall|p: i32| !(#[trigger] state.next_ts.contains_key(p)),
{
}

} // verus!
