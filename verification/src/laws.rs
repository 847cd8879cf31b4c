//! What holds of a reader from one step to the next.

use crate::closing::last_offset;
use crate::downgrade::Downgrade;
use crate::history::{matching_timestamp, SourceInstanceId, Timestamp};
use crate::message::{
    countable, payload_bytes, turn_report, Action, Event, KafkaMessage, Polled,
};
use crate::partitions::partitions_found;
use crate::reader::{
    after_message, awaited_partitions, awaits, downgrade_step, goes_on_after_message,
    goes_on_opening, on_message, opens_turn, starts, transition, Phase, ReaderState, Stage,
};
use vstd::prelude::*;

verus! {

/// The message that the reader holds on to.
pub open spec fn pending(state: ReaderState) -> Option<KafkaMessage> {
    match state.phase {
        Phase::Placing(message) => Some(message),
        _ => state.buffer,
    }
}

/// Each of the partitions has an offset and a closed timestamp.
pub open spec fn all_followed(
    partitions: Set<i32>,
    offsets: Map<i32, i64>,
    next_ts: Map<i32, Timestamp>,
) -> bool {
    forall|partition: i32| #[trigger]
        partitions.contains(partition) ==> offsets.contains_key(partition) && next_ts.contains_key(
            partition,
        )
}

/// What holds of a reader at all times: it knows an offset and a closed timestamp for each of its
/// partitions, expects at least one partition, waits for more partitions than it expects, and
/// has an empty buffer once it has started to look at messages.
pub open spec fn well_formed(state: ReaderState) -> bool {
    &&& state.expected >= 1
    &&& state.bytes_read >= 0
    &&& all_followed(state.partitions, state.offsets, state.next_ts)
    &&& match state.phase {
        Phase::Counting { required, stage } => {
            &&& required > state.expected
            &&& stage is AfterMessage ==> state.buffer is None
        },
        Phase::Starting | Phase::Idle => true,
        _ => state.buffer is None,
    }
}

/// A new reader is well-formed.
pub proof fn lemma_start_well_formed(
    state: ReaderState,
    id: SourceInstanceId,
    topic: Seq<char>,
)
    requires
        starts(state, id, topic),
    ensures
        well_formed(state),
{
}

proof fn lemma_downgrade_well_formed(pre: ReaderState, post: ReaderState, outcome: Downgrade)
    requires
        well_formed(pre.in_phase(Phase::Idle)),
        downgrade_step(pre, post, outcome),
    ensures
        well_formed(post.in_phase(Phase::Idle)),
        outcome matches Downgrade::NeedsPartitions(count) ==> count > pre.expected,
        post.buffer == pre.buffer,
        post.expected == pre.expected,
        post.offsets == pre.offsets,
        post.bytes_read == pre.bytes_read,
        pre.time <= post.time,
{
    assert(post.partitions == pre.partitions && post.offsets == pre.offsets);
    assert(all_followed(pre.partitions, pre.offsets, pre.next_ts));
    assert forall|partition: i32| #[trigger]
        pre.next_ts.contains_key(partition) implies post.next_ts.contains_key(partition) by {}
    assert(all_followed(post.partitions, post.offsets, post.next_ts));
}

/// A step that leaves the reader idle ends the turn and reports the bytes of the turn, unless the
/// reader gives up or has just started. No other step reports any.
pub open spec fn reports_turn(post: ReaderState, action: Action) -> bool {
    turn_report(action) == if post.phase is Idle && !(action is Panic || action is Ready) {
        Some(countable(post.bytes_read))
    } else {
        None
    }
}

proof fn lemma_after_message_well_formed(pre: ReaderState, post: ReaderState, action: Action)
    requires
        well_formed(pre.in_phase(Phase::Idle)),
        pre.buffer is None,
        after_message(pre, post, action),
    ensures
        well_formed(post),
        pending(post) is None,
        post.offsets == pre.offsets,
        post.expected == pre.expected,
        post.bytes_read == pre.bytes_read,
        pre.time <= post.time,
        reports_turn(post, action),
        !(action is Deliver || action is Poll || action is Park || action is Seek),
{
    let (mid, outcome) = choose|mid: ReaderState, outcome: Downgrade| #[trigger]
        downgrade_step(pre, mid, outcome) && goes_on_after_message(mid, outcome, post, action);
    lemma_downgrade_well_formed(pre, mid, outcome);
}

/// The step has taken the message at `offset` of `partition` as processed.
pub open spec fn processes(
    pre: ReaderState,
    post: ReaderState,
    partition: i32,
    offset: i64,
) -> bool {
    &&& last_offset(pre.offsets, partition) <= offset < i64::MAX
    &&& last_offset(post.offsets, partition) == offset + 1
}

/// The step has processed at most one message.
spec fn processes_at_most_one(pre: ReaderState, post: ReaderState) -> bool {
    post.offsets == pre.offsets || exists|partition: i32, offset: i64| #[trigger]
        processes(pre, post, partition, offset) && post.offsets == pre.offsets.insert(
            partition,
            (offset + 1) as i64,
        )
}

/// The step delivers this message: its payload, with its offset, and takes it as processed.
pub open spec fn delivers(
    message: KafkaMessage,
    pre: ReaderState,
    post: ReaderState,
    action: Action,
) -> bool {
    match message.payload {
        Some(payload) => {
            &&& action == Action::Deliver { payload, offset: message.offset }
            &&& processes(pre, post, message.partition, message.offset)
        },
        None => false,
    }
}

/// What becomes of a message that a step looks at: the reader holds on to it, or has processed it
/// and delivers its payload, if it has one, or sends the consumer back as it was processed before,
/// or gives up.
pub open spec fn accounted_for(
    message: KafkaMessage,
    pre: ReaderState,
    post: ReaderState,
    action: Action,
) -> bool {
    ||| pending(post) == Some(message)
    ||| delivers(message, pre, post, action)
    ||| (message.payload is None && processes(pre, post, message.partition, message.offset))
    ||| (action is Seek && message.offset + 1 <= last_offset(pre.offsets, message.partition))
    ||| action is Panic
}

/// The message that a step may deliver: the one that the consumer hands out, or else the buffered
/// one.
pub open spec fn message_at_hand(pre: ReaderState, event: Event) -> Option<KafkaMessage> {
    match event {
        Event::Polled(Polled::Message(message)) => Some(message),
        _ => pre.buffer,
    }
}

/// What the step delivers, if anything, is the message at hand.
pub open spec fn delivers_at_hand(
    pre: ReaderState,
    event: Event,
    post: ReaderState,
    action: Action,
) -> bool {
    action is Deliver ==> match message_at_hand(pre, event) {
        Some(message) => delivers(message, pre, post, action),
        None => false,
    }
}

proof fn lemma_on_message(
    pre: ReaderState,
    message: KafkaMessage,
    post: ReaderState,
    action: Action,
)
    requires
        well_formed(pre.in_phase(Phase::Idle)),
        pre.buffer is None,
        on_message(pre, message, post, action),
    ensures
        well_formed(post),
        accounted_for(message, pre, post, action),
        action is Deliver ==> delivers(message, pre, post, action),
        processes_at_most_one(pre, post),
        post.expected == pre.expected,
        pre.time <= post.time,
        reports_turn(post, action),
        post.bytes_read == pre.bytes_read + payload_bytes(action),
        !(action is Poll || action is Park),
{
    if message.offset < i64::MAX && pre.partitions.contains(message.partition) && message.offset + 1
        > last_offset(pre.offsets, message.partition) && matching_timestamp(
        pre.history(),
        message.partition,
        (message.offset + 1) as i64,
    ) is Some {
        let processed = pre.with_processed(message);
        assert(all_followed(pre.partitions, pre.offsets, pre.next_ts));
        assert(all_followed(processed.partitions, processed.offsets, processed.next_ts));
        match message.payload {
            None => {
                lemma_after_message_well_formed(processed, post, action);
            },
            Some(_) => {},
        }
        assert(processes(pre, post, message.partition, message.offset));
    }
}

proof fn lemma_opens_turn(pre: ReaderState, post: ReaderState, action: Action)
    requires
        well_formed(pre.in_phase(Phase::Idle)),
        opens_turn(pre, post, action),
    ensures
        well_formed(post),
        pre.buffer matches Some(message) ==> accounted_for(message, pre, post, action),
        action is Deliver ==> pre.buffer is Some && delivers(pre.buffer->0, pre, post, action),
        processes_at_most_one(pre, post),
        post.expected == pre.expected,
        pre.time <= post.time,
        reports_turn(post, action),
        post.bytes_read == pre.bytes_read + payload_bytes(action),
        action is Poll ==> pending(post) is None && pre.buffer is None,
        !(action is Park),
{
    let (mid, outcome) = choose|mid: ReaderState, outcome: Downgrade| #[trigger]
        downgrade_step(pre, mid, outcome) && goes_on_opening(mid, outcome, post, action);
    lemma_downgrade_well_formed(pre, mid, outcome);
    if outcome is Unchanged || outcome is Downgraded {
        if let Some(message) = mid.buffer {
            let taken = ReaderState { buffer: None, ..mid };
            lemma_on_message(taken, message, post, action);
            if taken.offsets != post.offsets {
                let (partition, offset) = choose|partition: i32, offset: i64| #[trigger]
                    processes(taken, post, partition, offset) && post.offsets
                        == taken.offsets.insert(partition, (offset + 1) as i64);
                assert(processes(pre, post, partition, offset));
            }
        }
    }
}

/// The state of the reader that a step works on: a turn starts to count bytes anew.
pub open spec fn at_entry(pre: ReaderState, event: Event) -> ReaderState {
    match event {
        Event::Activated => ReaderState { bytes_read: 0, ..pre },
        _ => pre,
    }
}

proof fn lemma_found(pre: ReaderState, found: Set<i32>)
    requires
        well_formed(pre),
        awaited_partitions(pre) <= found.len() <= i32::MAX,
    ensures
        well_formed(pre.with_found(found).in_phase(Phase::Idle)),
        pre.expected <= pre.with_found(found).expected,
        forall|partition: i32| #[trigger]
            last_offset(pre.with_found(found).offsets, partition) == last_offset(
                pre.offsets,
                partition,
            ),
        forall|partition: i32| #[trigger]
            found.contains(partition) ==> pre.with_found(found).offsets.contains_key(partition)
                && pre.with_found(found).next_ts.contains_key(partition),
{
}

/// A reader stays well-formed.
pub proof fn lemma_step_well_formed(
    pre: ReaderState,
    event: Event,
    post: ReaderState,
    action: Action,
)
    requires
        well_formed(pre),
        awaits(pre.phase, event),
        transition(pre, event, post, action),
    ensures
        well_formed(post),
{
    lemma_step(pre, event, post, action);
}

/// No message is lost: each message that the consumer hands out, and each that the reader holds
/// on to, is kept, or delivered, or has no payload and is processed, or is found to have been
/// processed before, unless the reader gives up.
pub proof fn lemma_no_message_lost(
    pre: ReaderState,
    event: Event,
    post: ReaderState,
    action: Action,
    message: KafkaMessage,
)
    requires
        well_formed(pre),
        awaits(pre.phase, event),
        transition(pre, event, post, action),
        pending(pre) == Some(message) || event == Event::Polled(Polled::Message(message)),
    ensures
        accounted_for(message, pre, post, action),
{
    lemma_step(pre, event, post, action);
}

/// The consumer is polled only when the reader holds on to no message.
pub proof fn lemma_poll_when_nothing_pending(
    pre: ReaderState,
    event: Event,
    post: ReaderState,
    action: Action,
)
    requires
        well_formed(pre),
        awaits(pre.phase, event),
        transition(pre, event, post, action),
        action is Poll,
    ensures
        pending(pre) is None,
        pending(post) is None,
{
    lemma_step(pre, event, post, action);
}

/// The step moves neither the capability nor a partition back, forgets no partition, and expects no
/// fewer.
pub open spec fn advances(pre: ReaderState, post: ReaderState) -> bool {
    &&& pre.time <= post.time
    &&& pre.expected <= post.expected
    &&& forall|partition: i32| #[trigger]
        last_offset(pre.offsets, partition) <= last_offset(post.offsets, partition)
    &&& forall|partition: i32| #[trigger]
        pre.offsets.contains_key(partition) ==> post.offsets.contains_key(partition)
}

/// The capability never goes back, and the offsets of the processed messages only grow.
pub proof fn lemma_step_advances(
    pre: ReaderState,
    event: Event,
    post: ReaderState,
    action: Action,
)
    requires
        well_formed(pre),
        awaits(pre.phase, event),
        transition(pre, event, post, action),
    ensures
        advances(pre, post),
{
    lemma_step(pre, event, post, action);
}

/// A delivered payload, with its offset, is that of the message that the consumer handed out or
/// that was buffered, and this message is past all that its partition had processed before.
pub proof fn lemma_step_delivers_at_hand(
    pre: ReaderState,
    event: Event,
    post: ReaderState,
    action: Action,
)
    requires
        well_formed(pre),
        awaits(pre.phase, event),
        transition(pre, event, post, action),
    ensures
        delivers_at_hand(pre, event, post, action),
{
    lemma_step(pre, event, post, action);
}

proof fn lemma_advances(pre: ReaderState, mid: ReaderState, post: ReaderState)
    requires
        forall|partition: i32| #[trigger]
            last_offset(mid.offsets, partition) == last_offset(pre.offsets, partition),
        forall|partition: i32| #[trigger]
            pre.offsets.contains_key(partition) ==> mid.offsets.contains_key(partition),
        pre.time <= post.time,
        pre.expected <= post.expected,
        processes_at_most_one(mid, post),
    ensures
        advances(pre, post),
{
    if post.offsets != mid.offsets {
        let (partition, offset) = choose|partition: i32, offset: i64| #[trigger]
            processes(mid, post, partition, offset) && post.offsets == mid.offsets.insert(
                partition,
                (offset + 1) as i64,
            );
        assert(last_offset(mid.offsets, partition) == last_offset(pre.offsets, partition));
    }
    assert forall|partition: i32| #[trigger]
        last_offset(pre.offsets, partition) <= last_offset(post.offsets, partition) by {
        assert(last_offset(mid.offsets, partition) == last_offset(pre.offsets, partition));
    }
}

/// The bytes of the turn: what was counted before, and the payload that the step delivers. A step
/// that ends the turn reports them.
pub open spec fn counts_bytes(
    pre: ReaderState,
    event: Event,
    post: ReaderState,
    action: Action,
) -> bool {
    &&& post.bytes_read == at_entry(pre, event).bytes_read + payload_bytes(action)
    &&& reports_turn(post, action)
}

/// A turn starts with no bytes, each delivered payload is counted in, and the end of the turn
/// reports them all.
pub proof fn lemma_step_counts_bytes(
    pre: ReaderState,
    event: Event,
    post: ReaderState,
    action: Action,
)
    requires
        well_formed(pre),
        awaits(pre.phase, event),
        transition(pre, event, post, action),
    ensures
        counts_bytes(pre, event, post, action),
{
    lemma_step(pre, event, post, action);
}

proof fn lemma_step(pre: ReaderState, event: Event, post: ReaderState, action: Action)
    requires
        well_formed(pre),
        awaits(pre.phase, event),
        transition(pre, event, post, action),
    ensures
        well_formed(post),
        advances(pre, post),
        delivers_at_hand(pre, event, post, action),
        counts_bytes(pre, event, post, action),
        action is Poll ==> pending(pre) is None && pending(post) is None,
        pending(pre) matches Some(message) ==> accounted_for(message, pre, post, action),
        event matches Event::Polled(Polled::Message(message)) ==> accounted_for(
            message,
            pre,
            post,
            action,
        ),
{
    let idle = pre.in_phase(Phase::Idle);
    assert(well_formed(idle));
    match event {
        Event::Activated => {
            let opened = ReaderState { bytes_read: 0, ..idle };
            lemma_opens_turn(opened, post, action);
            lemma_advances(pre, opened, post);
        },
        Event::Metadata(metadata) => {
            let found = partitions_found(metadata, pre.topic, awaited_partitions(pre));
            if awaited_partitions(pre) <= found.len() <= i32::MAX {
                let known = pre.with_found(found).in_phase(Phase::Idle);
                lemma_found(pre, found);
                match pre.phase {
                    Phase::Counting { stage: Stage::Opening, .. } => {
                        lemma_opens_turn(known, post, action);
                        lemma_advances(pre, known, post);
                    },
                    Phase::Counting { stage: Stage::AfterMessage, .. } => {
                        lemma_after_message_well_formed(known, post, action);
                    },
                    _ => {},
                }
            }
        },
        Event::Polled(Polled::Message(message)) => {
            lemma_on_message(idle, message, post, action);
            lemma_advances(pre, idle, post);
        },
        Event::Delivered => {
            lemma_after_message_well_formed(idle, post, action);
        },
        _ => {},
    }
}

} // verus!
