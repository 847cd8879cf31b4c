//! Downgrading the capability as timestamps close.

use crate::capability::{capability_time, downgrade_to, time_of, SourceCapability};
use crate::closing::{
    anything_closes, close_timestamps, closed_through, inspected, is_least_timestamp,
    least_timestamp, lemma_anything_closes, lemma_closing_leaves_other_partitions,
    lemma_closing_removes_read_prefix, lemma_inspected, lemma_least_timestamp_unique,
    required_partitions, requires_partitions, still_open,
};
use crate::history::{
    bindings_of, histories_of, source_bindings, Binding, SourceInstanceId, Timestamp,
    TimestampHistories,
};
use std::collections::HashMap;
use vstd::prelude::*;

verus! {

broadcast use vstd::std_specs::hash::group_hash_axioms;

/// What came of an attempt to downgrade the capability.
#[derive(Clone, Copy, Debug, PartialEq, Eq)]
pub enum Downgrade {
    /// A binding was made when the topic had this many partitions, more than are known.
    NeedsPartitions(i32),
    /// No timestamp was closed.
    Unchanged,
    /// Timestamps were closed and the capability follows them.
    Downgraded,
    /// Timestamps were closed, but the capability cannot move to the time after them.
    Refused,
}

/// How far the timestamps of a source have come.
pub struct Progress {
    pub histories: Map<SourceInstanceId, Map<i32, Seq<Binding>>>,
    pub next_ts: Map<i32, Timestamp>,
    pub last_closed_ts: Timestamp,
    pub time: Timestamp,
}

/// The histories once the closed bindings of source `id` are gone.
pub open spec fn closed_histories(
    histories: Map<SourceInstanceId, Map<i32, Seq<Binding>>>,
    id: SourceInstanceId,
    offsets: Map<i32, i64>,
) -> Map<SourceInstanceId, Map<i32, Seq<Binding>>> {
    if histories.contains_key(id) {
        histories.insert(id, still_open(histories[id], offsets))
    } else {
        histories
    }
}

/// The capability can move from `time` to the time after `closed`.
pub open spec fn can_follow(time: Timestamp, closed: Timestamp) -> bool {
    closed < Timestamp::MAX && time <= closed + 1
}

/// The step from `pre` to `post` that downgrading makes, with its outcome, for source `id` whose
/// partitions have been processed up to `offsets` and of whose partitions `known` are known.
pub open spec fn downgrades(
    pre: Progress,
    id: SourceInstanceId,
    offsets: Map<i32, i64>,
    known: i32,
    post: Progress,
    outcome: Downgrade,
) -> bool {
    let history = source_bindings(pre.histories, id);
    if let Downgrade::NeedsPartitions(count) = outcome {
        requires_partitions(history, offsets, known, count) && post == pre
    } else {
        &&& forall|count: i32| !#[trigger] requires_partitions(history, offsets, known, count)
        &&& post.histories == closed_histories(pre.histories, id, offsets)
        &&& post.next_ts == closed_through(history, offsets, pre.next_ts)
        &&& if outcome is Downgraded {
            &&& anything_closes(history, offsets)
            &&& is_least_timestamp(post.next_ts, post.last_closed_ts)
            &&& can_follow(pre.time, post.last_closed_ts)
            &&& post.time == post.last_closed_ts + 1
        } else {
            &&& post.last_closed_ts == pre.last_closed_ts
            &&& post.time == pre.time
            &&& outcome is Unchanged ==> !anything_closes(history, offsets)
            &&& outcome is Refused ==> anything_closes(history, offsets) && exists|
                least: Timestamp,
            | #[trigger]
                is_least_timestamp(post.next_ts, least) && !can_follow(pre.time, least)
        }
    }
}

/// The offset up to which a partition has been processed, or zero.
pub open spec fn read_up_to(offsets: Map<i32, i64>, partition: i32) -> i64 {
    if offsets.contains_key(partition) {
        offsets[partition]
    } else {
        0
    }
}

/// A binding that none before it keeps from being reached was made with more partitions than are
/// known.
pub open spec fn meets_unknown_partitions(
    history: Map<i32, Seq<Binding>>,
    offsets: Map<i32, i64>,
    known: i32,
) -> bool {
    exists|partition: i32, i: int|
        history.contains_key(partition) && 0 <= i < history[partition].len() && (
        #[trigger] history[partition][i]).0 > known && forall|j: int|
            0 <= j < i ==> (#[trigger] history[partition][j]).2 <= read_up_to(offsets, partition)
}

/// The first binding of some partition has been read to its end.
pub open spec fn meets_finished_binding(
    history: Map<i32, Seq<Binding>>,
    offsets: Map<i32, i64>,
) -> bool {
    exists|partition: i32| #[trigger]
        history.contains_key(partition) && history[partition].len() > 0 && history[partition][0].2
            <= read_up_to(offsets, partition)
}

/// `least` is one of the timestamps, and no partition has a lesser one.
pub open spec fn is_minimum(next_ts: Map<i32, Timestamp>, least: Timestamp) -> bool {
    &&& exists|partition: i32| #[trigger]
        next_ts.contains_key(partition) && next_ts[partition] == least
    &&& forall|partition: i32| #[trigger]
        next_ts.contains_key(partition) ==> least <= next_ts[partition]
}

proof fn lemma_needs_unknown_partitions(
    history: Map<i32, Seq<Binding>>,
    offsets: Map<i32, i64>,
    known: i32,
)
    ensures
        meets_unknown_partitions(history, offsets, known) <==> exists|count: i32| #[trigger]
            requires_partitions(history, offsets, known, count),
{
    if meets_unknown_partitions(history, offsets, known) {
        let (partition, i) = choose|partition: i32, i: int|
            history.contains_key(partition) && 0 <= i < history[partition].len() && (
            #[trigger] history[partition][i]).0 > known && forall|j: int|
                0 <= j < i ==> (#[trigger] history[partition][j]).2 <= read_up_to(
                    offsets,
                    partition,
                );
        lemma_inspected(history, offsets, partition, i);
        assert(inspected(history, offsets, partition, i));
        assert(requires_partitions(history, offsets, known, history[partition][i].0));
    }
    if exists|count: i32| #[trigger] requires_partitions(history, offsets, known, count) {
        let count = choose|count: i32| #[trigger]
            requires_partitions(history, offsets, known, count);
        let (partition, i) = choose|partition: i32, i: int|
            #[trigger] inspected(history, offsets, partition, i) && history[partition][i].0
                == count;
        lemma_inspected(history, offsets, partition, i);
        assert(history[partition][i].0 > known);
    }
}

/// More partitions are asked for exactly when a binding that closing comes to was made with more
/// than are known; their number is that of such a binding, and nothing has changed.
pub proof fn lemma_downgrade_asks_for_partitions(
    pre: Progress,
    id: SourceInstanceId,
    offsets: Map<i32, i64>,
    known: i32,
    post: Progress,
    outcome: Downgrade,
)
    requires
        downgrades(pre, id, offsets, known, post, outcome),
    ensures
        outcome is NeedsPartitions <==> pre.histories.contains_key(id) && meets_unknown_partitions(
            pre.histories[id],
            offsets,
            known,
        ),
        outcome matches Downgrade::NeedsPartitions(count) ==> {
            &&& post == pre
            &&& count > known
            &&& exists|partition: i32, i: int|
                pre.histories[id].contains_key(partition) && 0 <= i
                    < pre.histories[id][partition].len() && (
                #[trigger] pre.histories[id][partition][i]).0 == count && forall|j: int|
                    0 <= j < i ==> (#[trigger] pre.histories[id][partition][j]).2 <= read_up_to(
                        offsets,
                        partition,
                    )
        },
{
    let history = source_bindings(pre.histories, id);
    lemma_needs_unknown_partitions(history, offsets, known);
    if let Downgrade::NeedsPartitions(count) = outcome {
        assert(requires_partitions(history, offsets, known, count));
        let (partition, i) = choose|partition: i32, i: int|
            #[trigger] inspected(history, offsets, partition, i) && history[partition][i].0
                == count;
        lemma_inspected(history, offsets, partition, i);
        assert(pre.histories.contains_key(id));
        assert(pre.histories[id][partition][i].0 == count);
    }
}

/// Unless more partitions are needed, each partition of the source loses exactly the leading
/// bindings that have been read to their end, and is closed through the timestamp of the last of
/// them.
pub proof fn lemma_downgrade_removes_read_bindings(
    pre: Progress,
    id: SourceInstanceId,
    offsets: Map<i32, i64>,
    known: i32,
    post: Progress,
    outcome: Downgrade,
    partition: i32,
    n: int,
)
    requires
        downgrades(pre, id, offsets, known, post, outcome),
        pre.histories.contains_key(id),
        !meets_unknown_partitions(pre.histories[id], offsets, known),
        pre.histories[id].contains_key(partition),
        0 <= n <= pre.histories[id][partition].len(),
        forall|i: int|
            0 <= i < n ==> (#[trigger] pre.histories[id][partition][i]).2 <= read_up_to(
                offsets,
                partition,
            ),
        n < pre.histories[id][partition].len() ==> pre.histories[id][partition][n].2 > read_up_to(
            offsets,
            partition,
        ),
    ensures
        post.histories.contains_key(id),
        post.histories[id].contains_key(partition),
        post.histories[id][partition] == pre.histories[id][partition].subrange(
            n,
            pre.histories[id][partition].len() as int,
        ),
        n > 0 ==> post.next_ts.contains_key(partition) && post.next_ts[partition]
            == pre.histories[id][partition][n - 1].1,
        n == 0 ==> (post.next_ts.contains_key(partition) <==> pre.next_ts.contains_key(partition)),
        n == 0 && pre.next_ts.contains_key(partition) ==> post.next_ts[partition]
            == pre.next_ts[partition],
{
    lemma_downgrade_asks_for_partitions(pre, id, offsets, known, post, outcome);
    lemma_closing_removes_read_prefix(
        pre.histories[id],
        offsets,
        pre.next_ts,
        partition,
        read_up_to(offsets, partition),
        n,
    );
}

/// Downgrading touches no other source, and no partition without bindings.
pub proof fn lemma_downgrade_leaves_the_rest(
    pre: Progress,
    id: SourceInstanceId,
    offsets: Map<i32, i64>,
    known: i32,
    post: Progress,
    outcome: Downgrade,
)
    requires
        downgrades(pre, id, offsets, known, post, outcome),
    ensures
        post.histories.dom() == pre.histories.dom(),
        forall|other: SourceInstanceId|
            other != id && pre.histories.contains_key(other) ==> #[trigger] post.histories[other]
                == pre.histories[other],
        pre.histories.contains_key(id) ==> post.histories[id].dom() == pre.histories[id].dom(),
        forall|partition: i32|
            !(pre.histories.contains_key(id) && pre.histories[id].contains_key(partition)) ==> ((
            #[trigger] post.next_ts.contains_key(partition) <==> pre.next_ts.contains_key(
                partition,
            )) && (pre.next_ts.contains_key(partition) ==> post.next_ts[partition]
                == pre.next_ts[partition])),
{
    assert(post.histories.dom() =~= pre.histories.dom());
    if pre.histories.contains_key(id) {
        assert(still_open(pre.histories[id], offsets).dom() =~= pre.histories[id].dom());
    }
    let history = source_bindings(pre.histories, id);
    assert forall|partition: i32|
        !(pre.histories.contains_key(id) && pre.histories[id].contains_key(partition)) implies ((
    #[trigger] post.next_ts.contains_key(partition) <==> pre.next_ts.contains_key(partition)) && (
    pre.next_ts.contains_key(partition) ==> post.next_ts[partition] == pre.next_ts[partition])) by {
        lemma_closing_leaves_other_partitions(history, offsets, pre.next_ts, partition);
    }
}

/// Unless more partitions are needed, and if the first binding of some partition has been read to
/// its end: the capability moves to the time after the minimum of the timestamps that the partitions
/// are closed through, and that minimum is the last closed timestamp. If that time does not exist,
/// or is before the present one, capability and last closed timestamp stay. This holds for any
/// number of partitions.
pub proof fn lemma_downgrade_follows_minimum(
    pre: Progress,
    id: SourceInstanceId,
    offsets: Map<i32, i64>,
    known: i32,
    post: Progress,
    outcome: Downgrade,
    least: Timestamp,
)
    requires
        downgrades(pre, id, offsets, known, post, outcome),
        pre.histories.contains_key(id),
        !meets_unknown_partitions(pre.histories[id], offsets, known),
        meets_finished_binding(pre.histories[id], offsets),
        is_minimum(post.next_ts, least),
    ensures
        least < u64::MAX && pre.time <= least + 1 ==> {
            &&& outcome is Downgraded
            &&& post.time == least + 1
            &&& post.last_closed_ts == least
        },
        !(least < u64::MAX && pre.time <= least + 1) ==> {
            &&& outcome is Refused
            &&& post.time == pre.time
            &&& post.last_closed_ts == pre.last_closed_ts
        },
{
    lemma_downgrade_asks_for_partitions(pre, id, offsets, known, post, outcome);
    lemma_anything_closes(pre.histories[id], offsets);
    let partition = choose|partition: i32| #[trigger]
        pre.histories[id].contains_key(partition) && pre.histories[id][partition].len() > 0
            && pre.histories[id][partition][0].2 <= read_up_to(offsets, partition);
    assert(pre.histories[id].contains_key(partition));
    assert(anything_closes(pre.histories[id], offsets));
    assert(is_least_timestamp(post.next_ts, least));
    if outcome is Downgraded {
        lemma_least_timestamp_unique(post.next_ts, least, post.last_closed_ts);
    }
    if outcome is Refused {
        let other = choose|other: Timestamp| #[trigger]
            is_least_timestamp(post.next_ts, other) && !can_follow(pre.time, other);
        lemma_least_timestamp_unique(post.next_ts, least, other);
    }
}

/// If no partition has a first binding that has been read to its end, and no more partitions are
/// needed, nothing changes.
pub proof fn lemma_downgrade_without_finished_binding(
    pre: Progress,
    id: SourceInstanceId,
    offsets: Map<i32, i64>,
    known: i32,
    post: Progress,
    outcome: Downgrade,
)
    requires
        downgrades(pre, id, offsets, known, post, outcome),
        !pre.histories.contains_key(id) || (!meets_unknown_partitions(
            pre.histories[id],
            offsets,
            known,
        ) && !meets_finished_binding(pre.histories[id], offsets)),
    ensures
        outcome is Unchanged,
        post.histories == pre.histories,
        post.next_ts == pre.next_ts,
        post.last_closed_ts == pre.last_closed_ts,
        post.time == pre.time,
{
    lemma_downgrade_asks_for_partitions(pre, id, offsets, known, post, outcome);
    lemma_downgrade_leaves_the_rest(pre, id, offsets, known, post, outcome);
    let history = source_bindings(pre.histories, id);
    lemma_anything_closes(history, offsets);
    if anything_closes(history, offsets) {
        let partition = choose|partition: i32| #[trigger]
            history.contains_key(partition) && history[partition].len() > 0
                && history[partition][0].2 <= if offsets.contains_key(partition) {
                offsets[partition]
            } else {
                0
            };
        assert(history.contains_key(partition));
        assert(meets_finished_binding(history, offsets));
    }
    assert forall|partition: i32| #[trigger] history.contains_key(partition) implies still_open(
        history,
        offsets,
    )[partition] == history[partition] && (post.next_ts.contains_key(partition)
        <==> pre.next_ts.contains_key(partition)) && (pre.next_ts.contains_key(partition)
        ==> post.next_ts[partition] == pre.next_ts[partition]) by {
        lemma_closing_removes_read_prefix(
            history,
            offsets,
            pre.next_ts,
            partition,
            read_up_to(offsets, partition),
            0,
        );
        assert(history[partition].subrange(0, history[partition].len() as int)
            =~= history[partition]);
    }
    if pre.histories.contains_key(id) {
        assert(post.histories[id] =~= pre.histories[id]);
    }
    assert(post.histories =~= pre.histories);
    assert(post.next_ts =~= pre.next_ts);
}

/// Closes the timestamps of source `id` for which all messages have been processed, and
/// downgrades the capability to the time after the greatest timestamp that is closed on every
/// partition.
///
/// A timestamp history lists, per partition, the timestamps and the offsets up to which they
/// reach. Once a partition has been processed up to a binding's offset, or past it, the binding's
/// timestamp is closed on that partition; where several bindings end at one offset, all of them
/// are. A timestamp is closed once it is closed on all partitions.
///
/// A binding that was made with more partitions than `current_partition_count` must wait until
/// these partitions are known: nothing is changed then, and the outcome names their number.
pub fn downgrade_capability(
    id: &SourceInstanceId,
    cap: &mut SourceCapability,
    last_processed_offset: &HashMap<i32, i64>,
    next_partition_ts: &mut HashMap<i32, Timestamp>,
    timestamp_histories: &mut TimestampHistories,
    current_partition_count: i32,
    last_closed_ts: &mut Timestamp,
) -> (outcome: Downgrade)
    ensures
        downgrades(
            (Progress {
                histories: histories_of(*old(timestamp_histories)),
                next_ts: old(next_partition_ts)@,
                last_closed_ts: *old(last_closed_ts),
                time: capability_time(*old(cap)),
            }),
            *id,
            last_processed_offset@,
            current_partition_count,
            (Progress {
                histories: histories_of(*final(timestamp_histories)),
                next_ts: final(next_partition_ts)@,
                last_closed_ts: *final(last_closed_ts),
                time: capability_time(*final(cap)),
            }),
            outcome,
        ),
{
    let ghost before = histories_of(*timestamp_histories);
    let ghost next_before = next_partition_ts@;
    let ghost offsets = last_processed_offset@;
    let ghost history_before = source_bindings(before, *id);
    let mut changed: bool = false;
    match timestamp_histories.get(id) {
        None => {},
        Some(history) => {
            assert(bindings_of(*history) == history_before);
            if let Some(count) = required_partitions(
                history,
                last_processed_offset,
                current_partition_count,
            ) {
                return Downgrade::NeedsPartitions(count);
            }
        },
    }
    match timestamp_histories.remove(id) {
        None => {
            assert(closed_through(history_before, offsets, next_before) =~= next_before);
        },
        Some(mut history) => {
            assert(bindings_of(history) == history_before);
            changed = close_timestamps(&mut history, last_processed_offset, next_partition_ts);
            timestamp_histories.insert(*id, history);
        },
    }
    assert(histories_of(*timestamp_histories) =~= closed_histories(before, *id, offsets));
    if !changed {
        return Downgrade::Unchanged;
    }
    let min: Timestamp = least_timestamp(next_partition_ts);
    if min == u64::MAX || min + 1 < time_of(cap) {
        return Downgrade::Refused;
    }
    downgrade_to(cap, min + 1);
    *last_closed_ts = min;
    Downgrade::Downgraded
}

} // verus!
