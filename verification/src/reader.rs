//! Reading a topic whose messages get their timestamps from a timestamp history.

use crate::capability::{capability_time, SourceCapability};
use crate::closing::{last_offset, last_processed_offset};
use crate::downgrade::{downgrade_capability, downgrades, Downgrade, Progress};
use crate::history::{
    find_matching_timestamp, histories_of, matching_timestamp, source_bindings, Binding,
    SourceInstanceId, Timestamp, TimestampHistories,
};
use crate::message::{
    bytes_to_count, countable, Action, Event, Failure, KafkaMessage, Polled, TURN_MILLIS,
};
use crate::partitions::{
    partitions_found, update_partition_list, with_partitions, Metadata, PartitionList,
};
use std::collections::{HashMap, HashSet};
use vstd::prelude::*;

verus! {

broadcast use vstd::std_specs::hash::group_hash_axioms;

/// Where in a turn the capability is downgraded.
pub enum Stage {
    /// Before the first message is looked at.
    Opening,
    /// After a message has been processed.
    AfterMessage,
}

/// What a reader waits for.
pub enum Phase {
    /// The first list of the partitions.
    Starting,
    /// Its next turn.
    Idle,
    /// A list of at least `required` partitions, before the capability can be downgraded.
    Counting { required: i32, stage: Stage },
    /// A list of the partitions, as this message is of a partition that is not known.
    Placing(KafkaMessage),
    /// A message.
    Polling,
    /// The sending of a payload.
    Delivering,
    /// The duration of the turn.
    Timing,
}

/// Reads a topic, one message at a time.
///
/// A turn starts with `Event::Activated`. From then on each action is carried out and answered
/// with the event that belongs to it, until an action ends the turn.
pub struct KafkaReader {
    id: SourceInstanceId,
    topic: String,
    /// The greatest timestamp that is closed on all partitions.
    last_closed_ts: Timestamp,
    /// A message for which no timestamp had been decided.
    buffer: Option<KafkaMessage>,
    /// The offset after the last message processed, per partition.
    last_processed_offsets: HashMap<i32, i64>,
    /// The last timestamp closed, per partition.
    next_partition_ts: HashMap<i32, Timestamp>,
    /// The partitions of the topic.
    partitions: HashSet<i32>,
    /// How many partitions the topic is expected to have.
    expected_partition_count: i32,
    /// The bytes delivered in this turn.
    bytes_read: i64,
    phase: Phase,
}

/// A reader together with what it shares with its surroundings: the timestamp histories and the
/// time of its capability.
#[verifier::ext_equal]
pub struct ReaderState {
    pub id: SourceInstanceId,
    pub topic: Seq<char>,
    pub last_closed_ts: Timestamp,
    pub buffer: Option<KafkaMessage>,
    pub offsets: Map<i32, i64>,
    pub next_ts: Map<i32, Timestamp>,
    pub partitions: Set<i32>,
    pub expected: i32,
    pub bytes_read: i64,
    pub phase: Phase,
    pub histories: Map<SourceInstanceId, Map<i32, Seq<Binding>>>,
    pub time: Timestamp,
}

impl ReaderState {
    pub open spec fn progress(self) -> Progress {
        Progress {
            histories: self.histories,
            next_ts: self.next_ts,
            last_closed_ts: self.last_closed_ts,
            time: self.time,
        }
    }

    /// The bindings of this reader's source.
    pub open spec fn history(self) -> Map<i32, Seq<Binding>> {
        source_bindings(self.histories, self.id)
    }

    pub open spec fn in_phase(self, phase: Phase) -> ReaderState {
        ReaderState { phase, ..self }
    }

    /// The state once `found` are known to be the partitions.
    pub open spec fn with_found(self, found: Set<i32>) -> ReaderState {
        ReaderState {
            offsets: with_partitions(self.offsets, found, 0i64),
            next_ts: with_partitions(self.next_ts, found, self.last_closed_ts),
            expected: found.len() as i32,
            ..self
        }
    }

    /// The state once the message has been taken as processed.
    pub open spec fn with_processed(self, message: KafkaMessage) -> ReaderState {
        ReaderState {
            offsets: self.offsets.insert(message.partition, (message.offset + 1) as i64),
            ..self
        }
    }
}

/// A reader that has just been made.
pub open spec fn starts(state: ReaderState, id: SourceInstanceId, topic: Seq<char>) -> bool {
    &&& state.id == id
    &&& state.topic == topic
    &&& state.last_closed_ts == 0
    &&& state.buffer is None
    &&& state.offsets == Map::<i32, i64>::empty()
    &&& state.next_ts == Map::<i32, Timestamp>::empty()
    &&& state.partitions == Set::<i32>::empty()
    &&& state.expected == 1
    &&& state.bytes_read == 0
    &&& state.phase is Starting
}

/// Downgrading the capability of the reader leads from `pre` to `post`.
pub open spec fn downgrade_step(pre: ReaderState, post: ReaderState, outcome: Downgrade) -> bool {
    &&& downgrades(pre.progress(), pre.id, pre.offsets, pre.expected, post.progress(), outcome)
    &&& post == ReaderState {
        histories: post.histories,
        next_ts: post.next_ts,
        last_closed_ts: post.last_closed_ts,
        time: post.time,
        ..pre
    }
}

/// What follows the downgrade after a message: with the capability settled, the timer is looked
/// at.
pub open spec fn goes_on_after_message(
    mid: ReaderState,
    outcome: Downgrade,
    post: ReaderState,
    action: Action,
) -> bool {
    match outcome {
        Downgrade::NeedsPartitions(required) => {
            &&& post == mid.in_phase(Phase::Counting { required, stage: Stage::AfterMessage })
            &&& action == Action::FetchMetadata
        },
        Downgrade::Refused => {
            &&& post == mid.in_phase(Phase::Idle)
            &&& action == Action::Panic(Failure::CapabilityRegression)
        },
        _ => post == mid.in_phase(Phase::Timing) && action == Action::CheckTimer,
    }
}

/// The step after a message has been processed: timestamps are closed, then the timer is looked
/// at.
pub open spec fn after_message(pre: ReaderState, post: ReaderState, action: Action) -> bool {
    exists|mid: ReaderState, outcome: Downgrade| #[trigger]
        downgrade_step(pre, mid, outcome) && goes_on_after_message(mid, outcome, post, action)
}

/// The step that a message leads to.
pub open spec fn on_message(
    pre: ReaderState,
    message: KafkaMessage,
    post: ReaderState,
    action: Action,
) -> bool {
    let last = last_offset(pre.offsets, message.partition);
    if message.offset == i64::MAX {
        &&& post == pre.in_phase(Phase::Idle)
        &&& action == Action::Panic(Failure::OffsetOverflow)
    } else if !pre.partitions.contains(message.partition) {
        post == pre.in_phase(Phase::Placing(message)) && action == Action::FetchMetadata
    } else if message.offset + 1 <= last {
        &&& post == pre.in_phase(Phase::Idle)
        &&& action == Action::Seek {
            partition: message.partition,
            offset: last,
            received: (message.offset + 1) as i64,
            bytes_read: countable(pre.bytes_read),
        }
    } else if matching_timestamp(pre.history(), message.partition, (message.offset + 1) as i64)
        is None {
        &&& post == (ReaderState { buffer: Some(message), ..pre }).in_phase(Phase::Idle)
        &&& action == Action::Yield { bytes_read: countable(pre.bytes_read) }
    } else {
        let processed = pre.with_processed(message);
        match message.payload {
            Some(payload) => if pre.bytes_read + payload.len() > i64::MAX {
                &&& post == processed.in_phase(Phase::Idle)
                &&& action == Action::Panic(Failure::BytesOverflow)
            } else {
                &&& post == (ReaderState {
                    bytes_read: (pre.bytes_read + payload.len()) as i64,
                    ..processed
                }).in_phase(Phase::Delivering)
                &&& action == Action::Deliver { payload, offset: message.offset }
            },
            None => after_message(processed, post, action),
        }
    }
}

/// What follows the downgrade that opens a turn: with the capability settled, the buffered message
/// is looked at, or else the consumer is polled.
pub open spec fn goes_on_opening(
    mid: ReaderState,
    outcome: Downgrade,
    post: ReaderState,
    action: Action,
) -> bool {
    match outcome {
        Downgrade::NeedsPartitions(required) => {
            &&& post == mid.in_phase(Phase::Counting { required, stage: Stage::Opening })
            &&& action == Action::FetchMetadata
        },
        Downgrade::Refused => {
            &&& post == mid.in_phase(Phase::Idle)
            &&& action == Action::Panic(Failure::CapabilityRegression)
        },
        _ => match mid.buffer {
            Some(message) => on_message(ReaderState { buffer: None, ..mid }, message, post, action),
            None => post == mid.in_phase(Phase::Polling) && action == Action::Poll,
        },
    }
}

/// The step that opens a turn: timestamps are closed, then the buffered message is looked at, or
/// else the consumer is polled.
pub open spec fn opens_turn(pre: ReaderState, post: ReaderState, action: Action) -> bool {
    exists|mid: ReaderState, outcome: Downgrade| #[trigger]
        downgrade_step(pre, mid, outcome) && goes_on_opening(mid, outcome, post, action)
}

/// How many partitions a reader in this state waits for.
pub open spec fn awaited_partitions(state: ReaderState) -> i32 {
    match state.phase {
        Phase::Counting { required, .. } => required,
        _ => state.expected,
    }
}

/// The step that a list of partitions leads to.
pub open spec fn on_metadata(
    pre: ReaderState,
    metadata: Metadata,
    post: ReaderState,
    action: Action,
) -> bool {
    let found = partitions_found(metadata, pre.topic, awaited_partitions(pre));
    let known = pre.with_found(found).in_phase(Phase::Idle);
    if found.len() > i32::MAX {
        &&& post == pre.in_phase(Phase::Idle)
        &&& action == Action::Panic(Failure::TooManyPartitions)
    } else if found.len() < awaited_partitions(pre) {
        post == pre && action == Action::FetchMetadata
    } else {
        match pre.phase {
            Phase::Placing(message) => {
                &&& post == ReaderState { partitions: found, buffer: Some(message), ..known }
                &&& action == Action::Yield { bytes_read: countable(pre.bytes_read) }
            },
            Phase::Counting { stage: Stage::Opening, .. } => opens_turn(known, post, action),
            Phase::Counting { stage: Stage::AfterMessage, .. } => after_message(
                known,
                post,
                action,
            ),
            _ => post == ReaderState { partitions: found, ..known } && action == Action::Ready,
        }
    }
}

/// The event is one that a reader in this phase waits for.
pub open spec fn awaits(phase: Phase, event: Event) -> bool {
    match event {
        Event::Activated => phase is Idle,
        Event::Metadata(_) => phase is Starting || phase is Counting || phase is Placing,
        Event::Polled(_) => phase is Polling,
        Event::Delivered => phase is Delivering,
        Event::Elapsed(_) => phase is Timing,
    }
}

/// The step that an event leads to.
pub open spec fn transition(
    pre: ReaderState,
    event: Event,
    post: ReaderState,
    action: Action,
) -> bool {
    let idle = pre.in_phase(Phase::Idle);
    match event {
        Event::Activated => opens_turn(ReaderState { bytes_read: 0, ..idle }, post, action),
        Event::Metadata(metadata) => on_metadata(pre, metadata, post, action),
        Event::Polled(Polled::Message(message)) => on_message(idle, message, post, action),
        Event::Polled(_) => {
            &&& post == idle
            &&& action == Action::Park { bytes_read: countable(pre.bytes_read) }
        },
        Event::Delivered => after_message(idle, post, action),
        Event::Elapsed(millis) => if millis > TURN_MILLIS {
            post == idle && action == Action::Yield { bytes_read: countable(pre.bytes_read) }
        } else {
            post == pre.in_phase(Phase::Polling) && action == Action::Poll
        },
    }
}

impl KafkaReader {
    /// The state of the reader itself, with nothing around it.
    pub closed spec fn own_state(&self) -> ReaderState {
        ReaderState {
            id: self.id,
            topic: self.topic@,
            last_closed_ts: self.last_closed_ts,
            buffer: self.buffer,
            offsets: self.last_processed_offsets@,
            next_ts: self.next_partition_ts@,
            partitions: self.partitions@,
            expected: self.expected_partition_count,
            bytes_read: self.bytes_read,
            phase: self.phase,
            histories: Map::empty(),
            time: 0,
        }
    }

    /// The state of the reader in its surroundings.
    pub open spec fn state(
        &self,
        histories: TimestampHistories,
        cap: SourceCapability,
    ) -> ReaderState {
        ReaderState {
            histories: histories_of(histories),
            time: capability_time(cap),
            ..self.own_state()
        }
    }

    /// A reader of `topic` that has yet to learn of the partitions.
    pub fn new(id: SourceInstanceId, topic: String) -> (reader: KafkaReader)
        ensures
            starts(reader.own_state(), id, topic@),
    {
        KafkaReader {
            id,
            topic,
            last_closed_ts: 0,
            buffer: None,
            last_processed_offsets: HashMap::new(),
            next_partition_ts: HashMap::new(),
            partitions: HashSet::new(),
            expected_partition_count: 1,
            bytes_read: 0,
            phase: Phase::Starting,
        }
    }

    /// Whether the event is one that the reader waits for.
    pub fn expects(&self, event: &Event) -> (expected: bool)
        ensures
            expected == awaits(self.own_state().phase, *event),
    {
        match event {
            Event::Activated => matches!(self.phase, Phase::Idle),
            Event::Metadata(_) => matches!(
                self.phase,
                Phase::Starting | Phase::Counting { .. } | Phase::Placing(_)
            ),
            Event::Polled(_) => matches!(self.phase, Phase::Polling),
            Event::Delivered => matches!(self.phase, Phase::Delivering),
            Event::Elapsed(_) => matches!(self.phase, Phase::Timing),
        }
    }

    /// Downgrades the capability.
    fn downgrade(
        &mut self,
        histories: &mut TimestampHistories,
        cap: &mut SourceCapability,
    ) -> (outcome: Downgrade)
        ensures
            downgrade_step(
                old(self).state(*old(histories), *old(cap)),
                final(self).state(*final(histories), *final(cap)),
                outcome,
            ),
    {
        downgrade_capability(
            &self.id,
            cap,
            &self.last_processed_offsets,
            &mut self.next_partition_ts,
            histories,
            self.expected_partition_count,
            &mut self.last_closed_ts,
        )
    }

    /// Closes timestamps after a message has been processed.
    fn finish_message(
        &mut self,
        histories: &mut TimestampHistories,
        cap: &mut SourceCapability,
    ) -> (action: Action)
        ensures
            after_message(
                old(self).state(*old(histories), *old(cap)),
                final(self).state(*final(histories), *final(cap)),
                action,
            ),
    {
        let ghost pre = self.state(*histories, *cap);
        let outcome: Downgrade = self.downgrade(histories, cap);
        let ghost mid = self.state(*histories, *cap);
        assert(downgrade_step(pre, mid, outcome));
        match outcome {
            Downgrade::NeedsPartitions(required) => {
                self.phase = Phase::Counting { required, stage: Stage::AfterMessage };
                Action::FetchMetadata
            },
            Downgrade::Refused => {
                self.phase = Phase::Idle;
                Action::Panic(Failure::CapabilityRegression)
            },
            Downgrade::Unchanged | Downgrade::Downgraded => {
                self.phase = Phase::Timing;
                Action::CheckTimer
            },
        }
    }

    /// Decides what to do with a message.
    fn handle_message(
        &mut self,
        message: KafkaMessage,
        histories: &mut TimestampHistories,
        cap: &mut SourceCapability,
    ) -> (action: Action)
        ensures
            on_message(
                old(self).state(*old(histories), *old(cap)),
                message,
                final(self).state(*final(histories), *final(cap)),
                action,
            ),
    {
        if message.offset == i64::MAX {
            self.phase = Phase::Idle;
            return Action::Panic(Failure::OffsetOverflow);
        }
        let partition: i32 = message.partition;
        let offset: i64 = message.offset + 1;
        if !self.partitions.contains(&partition) {
            self.phase = Phase::Placing(message);
            return Action::FetchMetadata;
        }
        let last: i64 = last_processed_offset(&self.last_processed_offsets, partition);
        if offset <= last {
            self.phase = Phase::Idle;
            return Action::Seek {
                partition,
                offset: last,
                received: offset,
                bytes_read: bytes_to_count(self.bytes_read),
            };
        }
        if find_matching_timestamp(&self.id, partition, offset, histories).is_none() {
            self.buffer = Some(message);
            self.phase = Phase::Idle;
            return Action::Yield { bytes_read: bytes_to_count(self.bytes_read) };
        }
        self.last_processed_offsets.insert(partition, offset);
        match message.payload {
            None => self.finish_message(histories, cap),
            Some(payload) => {
                let total: i128 = self.bytes_read as i128 + payload.len() as i128;
                if total > i64::MAX as i128 {
                    self.phase = Phase::Idle;
                    return Action::Panic(Failure::BytesOverflow);
                }
                self.bytes_read = total as i64;
                self.phase = Phase::Delivering;
                Action::Deliver { payload, offset: message.offset }
            },
        }
    }

    /// Closes timestamps at the start of a turn, then looks for a message.
    fn open_turn(
        &mut self,
        histories: &mut TimestampHistories,
        cap: &mut SourceCapability,
    ) -> (action: Action)
        ensures
            opens_turn(
                old(self).state(*old(histories), *old(cap)),
                final(self).state(*final(histories), *final(cap)),
                action,
            ),
    {
        let ghost pre = self.state(*histories, *cap);
        let outcome: Downgrade = self.downgrade(histories, cap);
        let ghost mid = self.state(*histories, *cap);
        assert(downgrade_step(pre, mid, outcome));
        match outcome {
            Downgrade::NeedsPartitions(required) => {
                self.phase = Phase::Counting { required, stage: Stage::Opening };
                Action::FetchMetadata
            },
            Downgrade::Refused => {
                self.phase = Phase::Idle;
                Action::Panic(Failure::CapabilityRegression)
            },
            Downgrade::Unchanged | Downgrade::Downgraded => match self.buffer.take() {
                Some(message) => self.handle_message(message, histories, cap),
                None => {
                    self.phase = Phase::Polling;
                    Action::Poll
                },
            },
        }
    }

    /// Takes in a list of the partitions.
    fn handle_metadata(
        &mut self,
        metadata: Metadata,
        histories: &mut TimestampHistories,
        cap: &mut SourceCapability,
    ) -> (action: Action)
        ensures
            on_metadata(
                old(self).state(*old(histories), *old(cap)),
                metadata,
                final(self).state(*final(histories), *final(cap)),
                action,
            ),
    {
        let awaited: i32 = match &self.phase {
            Phase::Counting { required, .. } => *required,
            _ => self.expected_partition_count,
        };
        match update_partition_list(
            &metadata,
            &self.topic,
            awaited,
            &mut self.last_processed_offsets,
            &mut self.next_partition_ts,
            self.last_closed_ts,
        ) {
            PartitionList::TooMany => {
                self.phase = Phase::Idle;
                Action::Panic(Failure::TooManyPartitions)
            },
            PartitionList::Incomplete => Action::FetchMetadata,
            PartitionList::Complete(partitions) => {
                self.expected_partition_count = partitions.len() as i32;
                let mut phase: Phase = Phase::Idle;
                std::mem::swap(&mut self.phase, &mut phase);
                match phase {
                    Phase::Placing(message) => {
                        self.partitions = partitions;
                        self.buffer = Some(message);
                        Action::Yield { bytes_read: bytes_to_count(self.bytes_read) }
                    },
                    Phase::Counting { stage: Stage::Opening, .. } => self.open_turn(histories, cap),
                    Phase::Counting { stage: Stage::AfterMessage, .. } => self.finish_message(
                        histories,
                        cap,
                    ),
                    _ => {
                        self.partitions = partitions;
                        Action::Ready
                    },
                }
            },
        }
    }

    /// Takes in an event and decides what is to be done next.
    pub fn step(
        &mut self,
        event: Event,
        histories: &mut TimestampHistories,
        cap: &mut SourceCapability,
    ) -> (action: Action)
        requires
            awaits(old(self).own_state().phase, event),
        ensures
            transition(
                old(self).state(*old(histories), *old(cap)),
                event,
                final(self).state(*final(histories), *final(cap)),
                action,
            ),
    {
        match event {
            Event::Activated => {
                self.bytes_read = 0;
                self.phase = Phase::Idle;
                self.open_turn(histories, cap)
            },
            Event::Metadata(metadata) => self.handle_metadata(metadata, histories, cap),
            Event::Polled(Polled::Message(message)) => {
                self.phase = Phase::Idle;
                self.handle_message(message, histories, cap)
            },
            Event::Polled(_) => {
                self.phase = Phase::Idle;
                Action::Park { bytes_read: bytes_to_count(self.bytes_read) }
            },
            Event::Delivered => {
                self.phase = Phase::Idle;
                self.finish_message(histories, cap)
            },
            Event::Elapsed(millis) => if millis > TURN_MILLIS {
                self.phase = Phase::Idle;
                Action::Yield { bytes_read: bytes_to_count(self.bytes_read) }
            } else {
                self.phase = Phase::Polling;
                Action::Poll
            },
        }
    }
}

} // verus!
