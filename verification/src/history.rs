//! Timestamp histories: which timestamp the messages of a partition get, and which
//! timestamps are finished once a partition has been read up to some offset.

use std::collections::HashMap;
use vstd::prelude::*;

verus! {

broadcast use vstd::std_specs::hash::group_hash_axioms;

/// A point in the logical time of the dataflow.
pub type Timestamp = u64;

/// Identifies one running instance of a source.
pub type SourceInstanceId = u64;

/// One decision of the timestamper about a partition: how many partitions the topic had when
/// the decision was made, the timestamp, and the last offset that gets this timestamp.
pub type Binding = (i32, Timestamp, i64);

/// The bindings of each partition, oldest first.
pub type PartitionHistories = HashMap<i32, Vec<Binding>>;

/// The bindings of each source.
pub type TimestampHistories = HashMap<SourceInstanceId, PartitionHistories>;

/// What `PartitionHistories` holds.
pub open spec fn bindings_of(history: PartitionHistories) -> Map<i32, Seq<Binding>> {
    history@.map_values(|entries: Vec<Binding>| entries@)
}

/// What `TimestampHistories` holds.
pub open spec fn histories_of(histories: TimestampHistories) -> Map<
    SourceInstanceId,
    Map<i32, Seq<Binding>>,
> {
    histories@.map_values(|history: PartitionHistories| bindings_of(history))
}

/// The bindings of one source; a source without a history has none.
pub open spec fn source_bindings(
    histories: Map<SourceInstanceId, Map<i32, Seq<Binding>>>,
    id: SourceInstanceId,
) -> Map<i32, Seq<Binding>> {
    if histories.contains_key(id) {
        histories[id]
    } else {
        Map::empty()
    }
}

/// The timestamp of the first binding that reaches `offset`.
pub open spec fn assigned_timestamp(entries: Seq<Binding>, offset: i64) -> Option<Timestamp>
    decreases entries.len(),
{
    if entries.len() == 0 {
        None
    } else if offset <= entries[0].2 {
        Some(entries[0].1)
    } else {
        assigned_timestamp(entries.drop_first(), offset)
    }
}

/// The timestamp that the message at `offset` of `partition` gets, if it has been decided.
pub open spec fn matching_timestamp(
    history: Map<i32, Seq<Binding>>,
    partition: i32,
    offset: i64,
) -> Option<Timestamp> {
    if history.contains_key(partition) {
        assigned_timestamp(history[partition], offset)
    } else {
        None
    }
}

/// Binding `i` is the first of `entries` that reaches `offset`.
pub open spec fn first_to_reach(entries: Seq<Binding>, offset: i64, i: int) -> bool {
    &&& 0 <= i < entries.len()
    &&& offset <= entries[i].2
    &&& forall|j: int| 0 <= j < i ==> #[trigger] entries[j].2 < offset
}

/// A message gets the timestamp of the first binding whose offset is at least its own.
pub proof fn lemma_assigned_by_first_to_reach(entries: Seq<Binding>, offset: i64, i: int)
    requires
        first_to_reach(entries, offset, i),
    ensures
        assigned_timestamp(entries, offset) == Some(entries[i].1),
    decreases entries.len(),
{
    if i > 0 {
        assert(entries[0].2 < offset);
        let rest = entries.drop_first();
        assert forall|j: int| 0 <= j < i - 1 implies #[trigger] rest[j].2 < offset by {
            assert(entries[j + 1].2 < offset);
        }
        lemma_assigned_by_first_to_reach(rest, offset, i - 1);
    }
}

/// No timestamp is assigned exactly when no binding reaches the offset.
pub proof fn lemma_unassigned_when_none_reaches(entries: Seq<Binding>, offset: i64)
    ensures
        assigned_timestamp(entries, offset) is None <==> (forall|j: int|
            0 <= j < entries.len() ==> #[trigger] entries[j].2 < offset),
        assigned_timestamp(entries, offset) matches Some(ts) ==> exists|i: int|
            #[trigger] first_to_reach(entries, offset, i) && entries[i].1 == ts,
    decreases entries.len(),
{
    if entries.len() > 0 {
        if offset <= entries[0].2 {
            assert(first_to_reach(entries, offset, 0));
        } else {
            let rest = entries.drop_first();
            lemma_unassigned_when_none_reaches(rest, offset);
            if assigned_timestamp(rest, offset) is None {
                assert forall|j: int| 0 <= j < entries.len() implies #[trigger] entries[j].2
                    < offset by {
                    if j > 0 {
                        assert(rest[j - 1].2 < offset);
                    }
                }
            } else {
                let i = choose|i: int|
                    #[trigger] first_to_reach(rest, offset, i) && rest[i].1 == assigned_timestamp(
                        rest,
                        offset,
                    )->0;
                assert forall|j: int| 0 <= j < i + 1 implies #[trigger] entries[j].2 < offset by {
                    if j > 0 {
                        assert(rest[j - 1].2 < offset);
                    }
                }
                assert(entries[i + 1] == rest[i]);
                assert(first_to_reach(entries, offset, i + 1));
            }
        }
    }
}

/// Offsets that never decrease split the messages of a partition into intervals: those up to
/// the first offset get the first timestamp, those past one offset and up to the next get the
/// timestamp of that next one.
pub proof fn lemma_offsets_split_into_intervals(entries: Seq<Binding>, i: int, offset: i64)
    requires
        0 <= i < entries.len(),
        forall|j: int, k: int| 0 <= j <= k < entries.len() ==> entries[j].2 <= entries[k].2,
        i > 0 ==> entries[i - 1].2 < offset,
        offset <= entries[i].2,
    ensures
        assigned_timestamp(entries, offset) == Some(entries[i].1),
{
    assert forall|j: int| 0 <= j < i implies #[trigger] entries[j].2 < offset by {
        assert(entries[j].2 <= entries[i - 1].2);
    }
    lemma_assigned_by_first_to_reach(entries, offset, i);
}

/// What the histories hold is, for each source and partition, the list of its bindings as it stands.
pub proof fn lemma_histories_hold_the_lists(histories: TimestampHistories)
    ensures
        histories_of(histories).dom() == histories@.dom(),
        forall|id: SourceInstanceId|
            histories@.contains_key(id) ==> (#[trigger] histories_of(histories)[id]).dom()
                == histories@[id]@.dom(),
        forall|id: SourceInstanceId, partition: i32|
            histories@.contains_key(id) && histories@[id]@.contains_key(partition) ==> #[trigger]
            histories_of(histories)[id][partition] == histories@[id]@[partition]@,
{
    assert(histories_of(histories).dom() =~= histories@.dom());
    assert forall|id: SourceInstanceId| histories@.contains_key(id) implies (
    #[trigger] histories_of(histories)[id]).dom() == histories@[id]@.dom() by {
        assert(bindings_of(histories@[id]).dom() =~= histories@[id]@.dom());
    }
}

/// For every source and partition: the message at an offset gets the timestamp of the first binding
/// in the list of that very partition whose offset is at least that of the message.
pub proof fn lemma_message_gets_first_reaching_timestamp(
    histories: TimestampHistories,
    id: SourceInstanceId,
    partition: i32,
    offset: i64,
    i: int,
)
    requires
        histories@.contains_key(id),
        histories@[id]@.contains_key(partition),
        0 <= i < histories@[id]@[partition]@.len(),
        offset <= histories@[id]@[partition]@[i].2,
        forall|j: int| 0 <= j < i ==> (#[trigger] histories@[id]@[partition]@[j]).2 < offset,
    ensures
        matching_timestamp(source_bindings(histories_of(histories), id), partition, offset) == Some(
            histories@[id]@[partition]@[i].1,
        ),
{
    lemma_assigned_by_first_to_reach(histories@[id]@[partition]@, offset, i);
}

/// For every source and partition: a message has no timestamp exactly when no binding in the list of
/// that very partition has an offset that is at least that of the message.
pub proof fn lemma_message_without_timestamp_is_unreached(
    histories: TimestampHistories,
    id: SourceInstanceId,
    partition: i32,
    offset: i64,
)
    ensures
        matching_timestamp(source_bindings(histories_of(histories), id), partition, offset) is None
            <==> !(histories@.contains_key(id) && histories@[id]@.contains_key(partition) && exists|
            i: int,
        |
            0 <= i < histories@[id]@[partition]@.len() && offset <= (
            #[trigger] histories@[id]@[partition]@[i]).2),
{
    if histories@.contains_key(id) && histories@[id]@.contains_key(partition) {
        let entries = histories@[id]@[partition]@;
        assert(histories_of(histories)[id][partition] == entries);
        lemma_unassigned_when_none_reaches(entries, offset);
        if assigned_timestamp(entries, offset) is Some {
            let i = choose|i: int|
                #[trigger] first_to_reach(entries, offset, i) && entries[i].1
                    == assigned_timestamp(entries, offset)->0;
            assert(offset <= histories@[id]@[partition]@[i].2);
        }
    }
}

/// A later message of a partition never gets an earlier binding: if the messages at two offsets have
/// timestamps, each is that of a binding which reaches the message, and the binding of the lower
/// offset is at or before that of the higher one.
pub proof fn lemma_later_message_gets_later_binding(
    history: Map<i32, Seq<Binding>>,
    partition: i32,
    low: i64,
    high: i64,
)
    requires
        low <= high,
        matching_timestamp(history, partition, high) is Some,
    ensures
        history.contains_key(partition),
        matching_timestamp(history, partition, low) is Some,
        exists|i: int, j: int|
            0 <= i <= j < history[partition].len() && (#[trigger] history[partition][i]).2 >= low
                && (#[trigger] history[partition][j]).2 >= high && matching_timestamp(
                history,
                partition,
                low,
            ) == Some(history[partition][i].1) && matching_timestamp(history, partition, high)
                == Some(history[partition][j].1),
{
    let entries = history[partition];
    lemma_unassigned_when_none_reaches(entries, high);
    lemma_unassigned_when_none_reaches(entries, low);
    let j = choose|j: int|
        #[trigger] first_to_reach(entries, high, j) && entries[j].1 == assigned_timestamp(
            entries,
            high,
        )->0;
    assert(entries[j].2 >= low);
    let i = choose|i: int|
        #[trigger] first_to_reach(entries, low, i) && entries[i].1 == assigned_timestamp(
            entries,
            low,
        )->0;
    assert(history[partition][i].2 >= low && history[partition][j].2 >= high);
}

/// For a given offset, returns the matching timestamp, or `None` if no timestamp can be
/// assigned. A message is assigned the first timestamp whose binding reaches its offset.
pub fn find_matching_timestamp(
    id: &SourceInstanceId,
    partition: i32,
    offset: i64,
    timestamp_histories: &TimestampHistories,
) -> (timestamp: Option<Timestamp>)
    ensures
        timestamp == matching_timestamp(
            source_bindings(histories_of(*timestamp_histories), *id),
            partition,
            offset,
        ),
        timestamp is None <==> !(timestamp_histories@.contains_key(*id)
            && timestamp_histories@[*id]@.contains_key(partition) && exists|i: int|
            0 <= i < timestamp_histories@[*id]@[partition]@.len() && offset <= (
            #[trigger] timestamp_histories@[*id]@[partition]@[i]).2),
        forall|i: int|
            timestamp_histories@.contains_key(*id) && timestamp_histories@[*id]@.contains_key(
                partition,
            ) && 0 <= i < timestamp_histories@[*id]@[partition]@.len() && offset <= (
            #[trigger] timestamp_histories@[*id]@[partition]@[i]).2 && (forall|j: int|
                0 <= j < i ==> (#[trigger] timestamp_histories@[*id]@[partition]@[j]).2 < offset)
                ==> timestamp == Some(timestamp_histories@[*id]@[partition]@[i].1),
{
    proof {
        lemma_message_without_timestamp_is_unreached(*timestamp_histories, *id, partition, offset);
        assert forall|i: int|
            timestamp_histories@.contains_key(*id) && timestamp_histories@[*id]@.contains_key(
                partition,
            ) && 0 <= i < timestamp_histories@[*id]@[partition]@.len() && offset <= (
            #[trigger] timestamp_histories@[*id]@[partition]@[i]).2 && (forall|j: int|
                0 <= j < i ==> (#[trigger] timestamp_histories@[*id]@[partition]@[j]).2 < offset)
            implies matching_timestamp(
            source_bindings(histories_of(*timestamp_histories), *id),
            partition,
            offset,
        ) == Some(timestamp_histories@[*id]@[partition]@[i].1) by {
            lemma_message_gets_first_reaching_timestamp(
                *timestamp_histories,
                *id,
                partition,
                offset,
                i,
            );
        }
    }
    match timestamp_histories.get(id) {
        None => None,
        Some(history) => match history.get(&partition) {
            None => None,
            Some(entries) => {
                let mut i: usize = 0;
                while i < entries.len()
                    invariant
                        i <= entries.len(),
                        forall|j: int| 0 <= j < i ==> #[trigger] entries@[j].2 < offset,
                        histories_of(*timestamp_histories).contains_key(*id),
                        histories_of(*timestamp_histories)[*id].contains_key(partition),
                        histories_of(*timestamp_histories)[*id][partition] == entries@,
                    decreases entries.len() - i,
                {
                    let (_, ts, max_offset) = entries[i];
                    if offset <= max_offset {
                        proof {
                            lemma_assigned_by_first_to_reach(entries@, offset, i as int);
                        }
                        return Some(ts);
                    }
                    i += 1;
                }
                proof {
                    lemma_unassigned_when_none_reaches(entries@, offset);
                }
                None
            },
        },
    }
}

} // verus!
