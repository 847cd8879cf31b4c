//! What a source hears of the outside and what it asks to be done there.

use crate::partitions::Metadata;
use vstd::prelude::*;

verus! {

/// The time that Kafka keeps with a message, in milliseconds.
#[derive(Clone, Copy, Debug)]
pub enum MessageTimestamp {
    NotAvailable,
    CreateTime(i64),
    LogAppendTime(i64),
}

/// A message of a topic.
#[derive(Clone, Debug)]
pub struct KafkaMessage {
    pub payload: Option<Vec<u8>>,
    pub timestamp: MessageTimestamp,
    pub partition: i32,
    pub offset: i64,
}

/// What polling the consumer came back with.
pub enum Polled {
    /// There is no message.
    Empty,
    /// The consumer reported an error.
    Failed,
    /// The next message.
    Message(KafkaMessage),
}

/// Something that a reader is told.
pub enum Event {
    /// The dataflow gives the source a turn.
    Activated,
    /// The reply to `Action::FetchMetadata`.
    Metadata(Metadata),
    /// The reply to `Action::Poll`.
    Polled(Polled),
    /// The payload of `Action::Deliver` was sent.
    Delivered,
    /// The reply to `Action::CheckTimer`: the milliseconds since the turn began.
    Elapsed(u128),
}

/// Something that a reader asks for.
#[derive(Debug, PartialEq, Eq)]
pub enum Action {
    /// Ask the brokers for the partitions of the topic.
    FetchMetadata,
    /// The reader has started and waits to be activated.
    Ready,
    /// Poll the consumer for a message.
    Poll,
    /// Send the payload, with the offset of its message, at the time of the capability.
    Deliver { payload: Vec<u8>, offset: i64 },
    /// See how long the turn has lasted.
    CheckTimer,
    /// Move the consumer of `partition` to `offset`, as it has handed out a message that was
    /// processed before (`received` is the offset after that message). Then end the turn and ask
    /// for another. Count `bytes_read` in, if given.
    Seek { partition: i32, offset: i64, received: i64, bytes_read: Option<i64> },
    /// End the turn and ask for another. Count `bytes_read` in, if given.
    Yield { bytes_read: Option<i64> },
    /// End the turn; another comes with new messages, or after `PARK_SECONDS`. Count
    /// `bytes_read` in, if given.
    Park { bytes_read: Option<i64> },
    /// Give up.
    Panic(Failure),
}

/// Why a reader gives up.
#[derive(Clone, Copy, Debug, PartialEq, Eq)]
pub enum Failure {
    /// There is no offset after that of the message.
    OffsetOverflow,
    /// More partitions are listed than can be counted.
    TooManyPartitions,
    /// More bytes have been read in this turn than can be counted.
    BytesOverflow,
    /// The capability cannot move to the time after the closed timestamps.
    CapabilityRegression,
}

/// A turn that has lasted for more than this many milliseconds ends.
pub const TURN_MILLIS: u128 = 10;

/// How long a source that has no messages waits for its next turn, in seconds. The consumer must
/// be polled more often than the group coordinator evicts silent members.
pub const PARK_SECONDS: u64 = 60;

/// The number of bytes to count in: only a positive number is counted.
pub open spec fn countable(bytes_read: i64) -> Option<i64> {
    if bytes_read > 0 {
        Some(bytes_read)
    } else {
        None
    }
}

/// What is counted in is the number of bytes itself, and nothing is counted in exactly when that is
/// not positive.
pub proof fn lemma_countable(bytes_read: i64)
    ensures
        countable(bytes_read) is None <==> bytes_read <= 0,
        countable(bytes_read) matches Some(bytes) ==> bytes == bytes_read,
{
}

/// A source that waits for messages is back long before the five minutes are over that its consumer
/// may go without being polled, and a turn is short beside that wait.
pub proof fn lemma_waits_are_bounded()
    ensures
        PARK_SECONDS == 60,
        PARK_SECONDS * 1000 < 300_000,
        TURN_MILLIS < PARK_SECONDS * 1000,
{
}

/// What an action that ends a turn reports of the bytes read; `None` if the action ends no turn.
pub open spec fn turn_report(action: Action) -> Option<Option<i64>> {
    match action {
        Action::Seek { bytes_read, .. } => Some(bytes_read),
        Action::Yield { bytes_read } => Some(bytes_read),
        Action::Park { bytes_read } => Some(bytes_read),
        _ => None,
    }
}

/// The bytes of the payload that the action delivers.
pub open spec fn payload_bytes(action: Action) -> int {
    match action {
        Action::Deliver { payload, .. } => payload.len() as int,
        _ => 0,
    }
}

/// The bytes of the payloads that the actions deliver.
pub open spec fn delivered_bytes(actions: Seq<Action>) -> int
    decreases actions.len(),
{
    if actions.len() == 0 {
        0
    } else {
        delivered_bytes(actions.drop_last()) + payload_bytes(actions.last())
    }
}

/// The number of bytes to count in.
pub(crate) fn bytes_to_count(bytes_read: i64) -> (bytes: Option<i64>)
    ensures
        bytes == countable(bytes_read),
{
    if bytes_read > 0 {
        Some(bytes_read)
    } else {
        None
    }
}

} // verus!
