//! Reading a topic whose messages are sent at the time that Kafka keeps with them.

use crate::capability::{capability_time, downgrade_to, time_of, SourceCapability};
use crate::history::Timestamp;
use crate::message::{
    bytes_to_count, countable, Action, Event, Failure, KafkaMessage, MessageTimestamp, Polled,
    TURN_MILLIS,
};
use vstd::prelude::*;

verus! {

/// What a reader waits for.
#[derive(Clone, Copy, Debug)]
pub enum UntimedPhase {
    /// Its next turn.
    Idle,
    /// A message.
    Polling,
    /// The sending of a payload.
    Delivering,
    /// The duration of the turn.
    Timing,
}

/// Reads a topic without a timestamp history. The capability follows the times that Kafka keeps
/// with the messages; a message that is older than the capability is sent at the time of the
/// capability.
pub struct UntimedReader {
    /// The bytes delivered in this turn.
    bytes_read: i64,
    phase: UntimedPhase,
}

/// A reader together with the time of its capability.
pub struct UntimedState {
    pub bytes_read: i64,
    pub phase: UntimedPhase,
    pub time: Timestamp,
}

/// The time that Kafka keeps with a message, as a timestamp: milliseconds before the epoch wrap
/// around to the end of the range.
pub open spec fn message_time(timestamp: MessageTimestamp) -> Option<Timestamp> {
    match timestamp {
        MessageTimestamp::NotAvailable => None,
        MessageTimestamp::CreateTime(ms) | MessageTimestamp::LogAppendTime(ms) => Some(
            if ms >= 0 {
                ms as u64
            } else {
                (ms + 0x1_0000_0000_0000_0000) as u64
            },
        ),
    }
}

/// The event is one that a reader in this phase waits for.
pub open spec fn untimed_awaits(phase: UntimedPhase, event: Event) -> bool {
    match event {
        Event::Activated => phase is Idle,
        Event::Metadata(_) => false,
        Event::Polled(_) => phase is Polling,
        Event::Delivered => phase is Delivering,
        Event::Elapsed(_) => phase is Timing,
    }
}

/// The step that a message leads to. A message without a payload or without a time is passed
/// over.
pub open spec fn untimed_message(
    pre: UntimedState,
    message: KafkaMessage,
    post: UntimedState,
    action: Action,
) -> bool {
    match (message.payload, message_time(message.timestamp)) {
        (Some(payload), Some(time)) => {
            &&& post.time == if time >= pre.time {
                time
            } else {
                pre.time
            }
            &&& if pre.bytes_read + payload.len() > i64::MAX {
                &&& post.bytes_read == pre.bytes_read
                &&& post.phase is Idle
                &&& action == Action::Panic(Failure::BytesOverflow)
            } else {
                &&& post.bytes_read == pre.bytes_read + payload.len()
                &&& post.phase is Delivering
                &&& action == Action::Deliver { payload, offset: message.offset }
            }
        },
        _ => {
            &&& post == UntimedState { phase: UntimedPhase::Polling, ..pre }
            &&& action == Action::Poll
        },
    }
}

/// The step that an event leads to.
pub open spec fn untimed_transition(
    pre: UntimedState,
    event: Event,
    post: UntimedState,
    action: Action,
) -> bool {
    match event {
        Event::Activated => {
            &&& post == UntimedState { bytes_read: 0, phase: UntimedPhase::Polling, ..pre }
            &&& action == Action::Poll
        },
        Event::Polled(Polled::Message(message)) => untimed_message(pre, message, post, action),
        Event::Polled(Polled::Empty) => {
            &&& post == UntimedState { phase: UntimedPhase::Idle, ..pre }
            &&& action == Action::Park { bytes_read: countable(pre.bytes_read) }
        },
        Event::Polled(Polled::Failed) | Event::Delivered => {
            &&& post == UntimedState { phase: UntimedPhase::Timing, ..pre }
            &&& action == Action::CheckTimer
        },
        Event::Elapsed(millis) => if millis > TURN_MILLIS {
            &&& post == UntimedState { phase: UntimedPhase::Idle, ..pre }
            &&& action == Action::Yield { bytes_read: countable(pre.bytes_read) }
        } else {
            &&& post == UntimedState { phase: UntimedPhase::Polling, ..pre }
            &&& action == Action::Poll
        },
        Event::Metadata(_) => false,
    }
}

/// The time of the capability never decreases, and is at least the time of every message that is
/// delivered.
pub proof fn lemma_untimed_time_advances(
    pre: UntimedState,
    event: Event,
    post: UntimedState,
    action: Action,
)
    requires
        untimed_transition(pre, event, post, action),
    ensures
        pre.time <= post.time,
        action is Deliver ==> (event matches Event::Polled(Polled::Message(message))
            && message_time(message.timestamp)->0 <= post.time),
{
}

/// Every polled message that has a payload and a time, of whatever partition, is delivered with that
/// payload and its own offset, if the bytes can still be counted. The capability then stands at the
/// greater of its own time and the time of the message; times before the epoch count from the end of
/// the range.
pub proof fn lemma_untimed_message_is_delivered(
    pre: UntimedState,
    message: KafkaMessage,
    payload: Vec<u8>,
    ms: i64,
    post: UntimedState,
    action: Action,
)
    requires
        untimed_transition(pre, Event::Polled(Polled::Message(message)), post, action),
        message.payload == Some(payload),
        message.timestamp == MessageTimestamp::CreateTime(ms) || message.timestamp
            == MessageTimestamp::LogAppendTime(ms),
    ensures
        ({
            let time: int = if ms >= 0 {
                ms as int
            } else {
                ms + 0x1_0000_0000_0000_0000
            };
            post.time == if time >= pre.time {
                time
            } else {
                pre.time as int
            }
        }),
        pre.bytes_read + payload@.len() <= i64::MAX ==> {
            &&& action == Action::Deliver { payload, offset: message.offset }
            &&& post.bytes_read == pre.bytes_read + payload@.len()
            &&& post.phase is Delivering
        },
        pre.bytes_read + payload@.len() > i64::MAX ==> {
            &&& action == Action::Panic(Failure::BytesOverflow)
            &&& post.bytes_read == pre.bytes_read
            &&& post.phase is Idle
        },
{
}

/// A polled message that lacks a payload or a time is passed over: the next one is polled, and
/// neither the capability nor the count of bytes changes.
pub proof fn lemma_untimed_message_is_passed_over(
    pre: UntimedState,
    message: KafkaMessage,
    post: UntimedState,
    action: Action,
)
    requires
        untimed_transition(pre, Event::Polled(Polled::Message(message)), post, action),
        message.payload is None || message.timestamp is NotAvailable,
    ensures
        action == Action::Poll,
        post.phase is Polling,
        post.time == pre.time,
        post.bytes_read == pre.bytes_read,
{
}

/// A turn starts to count bytes at zero and polls; it goes on after a delivery or an error of the
/// consumer until more than ten milliseconds have passed; it ends there, or when there is no
/// message, and then reports a positive number of bytes. The capability stays where it is in all of
/// this.
pub proof fn lemma_untimed_turn(
    pre: UntimedState,
    event: Event,
    post: UntimedState,
    action: Action,
)
    requires
        untimed_transition(pre, event, post, action),
        !(event matches Event::Polled(Polled::Message(_))),
    ensures
        post.time == pre.time,
        post.bytes_read == if event is Activated {
            0
        } else {
            pre.bytes_read
        },
        event is Activated ==> action == Action::Poll && post.phase is Polling,
        event is Delivered || event == Event::Polled(Polled::Failed) ==> action
            == Action::CheckTimer && post.phase is Timing,
        event matches Event::Elapsed(millis) && millis <= 10 ==> action == Action::Poll
            && post.phase is Polling,
        event matches Event::Elapsed(millis) && millis > 10 ==> post.phase is Idle && action
            == (Action::Yield {
            bytes_read: if pre.bytes_read > 0 {
                Some(pre.bytes_read)
            } else {
                None
            },
        }),
        event == Event::Polled(Polled::Empty) ==> post.phase is Idle && action == (Action::Park {
            bytes_read: if pre.bytes_read > 0 {
                Some(pre.bytes_read)
            } else {
                None
            },
        }),
{
}

/// A reader that is idle waits to be activated, one that polls for what the consumer has, one that
/// delivers for the delivery, and one that looks at the timer for the time.
pub proof fn lemma_untimed_awaits(phase: UntimedPhase, event: Event)
    ensures
        untimed_awaits(phase, event) <==> {
            ||| (phase is Idle && event is Activated)
            ||| (phase is Polling && event is Polled)
            ||| (phase is Delivering && event is Delivered)
            ||| (phase is Timing && event is Elapsed)
        },
{
}

/// The milliseconds of a message's time as a timestamp.
fn millis_to_timestamp(ms: i64) -> (time: Timestamp)
    ensures
        Some(time) == message_time(MessageTimestamp::CreateTime(ms)),
{
    proof {
        assert(ms < 0 ==> (ms as u64) == ms + 0x1_0000_0000_0000_0000) by (bit_vector);
    }
    ms as u64
}

impl UntimedReader {
    /// The bytes delivered in this turn.
    pub closed spec fn bytes_of(&self) -> i64 {
        self.bytes_read
    }

    /// What the reader waits for.
    pub closed spec fn phase_of(&self) -> UntimedPhase {
        self.phase
    }

    /// The state of the reader in its surroundings.
    pub open spec fn state(&self, cap: SourceCapability) -> UntimedState {
        UntimedState {
            bytes_read: self.bytes_of(),
            phase: self.phase_of(),
            time: capability_time(cap),
        }
    }

    /// A reader that waits for its first turn.
    pub fn new() -> (reader: UntimedReader)
        ensures
            reader.phase_of() is Idle,
            reader.bytes_of() == 0,
    {
        UntimedReader { bytes_read: 0, phase: UntimedPhase::Idle }
    }

    /// Whether the event is one that the reader waits for.
    pub fn expects(&self, event: &Event) -> (expected: bool)
        ensures
            expected == untimed_awaits(self.phase_of(), *event),
    {
        match event {
            Event::Activated => matches!(self.phase, UntimedPhase::Idle),
            Event::Metadata(_) => false,
            Event::Polled(_) => matches!(self.phase, UntimedPhase::Polling),
            Event::Delivered => matches!(self.phase, UntimedPhase::Delivering),
            Event::Elapsed(_) => matches!(self.phase, UntimedPhase::Timing),
        }
    }

    /// Decides what to do with a message.
    fn handle_message(
        &mut self,
        message: KafkaMessage,
        cap: &mut SourceCapability,
    ) -> (action: Action)
        ensures
            untimed_message(
                old(self).state(*old(cap)),
                message,
                final(self).state(*final(cap)),
                action,
            ),
    {
        let payload: Vec<u8> = match message.payload {
            Some(payload) => payload,
            None => {
                self.phase = UntimedPhase::Polling;
                return Action::Poll;
            },
        };
        let time: Timestamp = match message.timestamp {
            MessageTimestamp::NotAvailable => {
                self.phase = UntimedPhase::Polling;
                return Action::Poll;
            },
            MessageTimestamp::CreateTime(ms) | MessageTimestamp::LogAppendTime(
                ms,
            ) => millis_to_timestamp(ms),
        };
        if time >= time_of(cap) {
            downgrade_to(cap, time);
        }
        let total: i128 = self.bytes_read as i128 + payload.len() as i128;
        if total > i64::MAX as i128 {
            self.phase = UntimedPhase::Idle;
            return Action::Panic(Failure::BytesOverflow);
        }
        self.bytes_read = total as i64;
        self.phase = UntimedPhase::Delivering;
        Action::Deliver { payload, offset: message.offset }
    }

    /// Takes in an event and decides what is to be done next.
    pub fn step(&mut self, event: Event, cap: &mut SourceCapability) -> (action: Action)
        requires
            untimed_awaits(old(self).phase_of(), event),
        ensures
            untimed_transition(
                old(self).state(*old(cap)),
                event,
                final(self).state(*final(cap)),
                action,
            ),
    {
        match event {
            Event::Activated => {
                self.bytes_read = 0;
                self.phase = UntimedPhase::Polling;
                Action::Poll
            },
            Event::Polled(Polled::Message(message)) => self.handle_message(message, cap),
            Event::Polled(Polled::Empty) => {
                self.phase = UntimedPhase::Idle;
                Action::Park { bytes_read: bytes_to_count(self.bytes_read) }
            },
            Event::Polled(Polled::Failed) | Event::Delivered => {
                self.phase = UntimedPhase::Timing;
                Action::CheckTimer
            },
            Event::Elapsed(millis) => if millis > TURN_MILLIS {
                self.phase = UntimedPhase::Idle;
                Action::Yield { bytes_read: bytes_to_count(self.bytes_read) }
            } else {
                self.phase = UntimedPhase::Polling;
                Action::Poll
            },
            Event::Metadata(_) => {
                assert(false);
                Action::Poll
            },
        }
    }
}

} // verus!
