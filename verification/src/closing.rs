//! Closing timestamps: once a partition has been read up to the offset of a binding, or past it,
//! nothing more will arrive for the binding's timestamp on that partition.

use crate::history::{
    assigned_timestamp, bindings_of, matching_timestamp, Binding, PartitionHistories, Timestamp,
};
use crate::partitions::with_partitions;
use std::collections::HashMap;
use vstd::prelude::*;
use vstd::std_specs::iter::IteratorSpec;

verus! {

broadcast use vstd::std_specs::hash::group_hash_axioms;

/// The offset up to which a partition has been processed; zero if nothing has been.
pub open spec fn last_offset(offsets: Map<i32, i64>, partition: i32) -> i64 {
    if offsets.contains_key(partition) {
        offsets[partition]
    } else {
        0
    }
}

/// How many of the leading bindings end at `offset` or before it.
pub open spec fn closed_count(entries: Seq<Binding>, offset: i64) -> nat
    decreases entries.len(),
{
    if entries.len() > 0 && entries[0].2 <= offset {
        1 + closed_count(entries.drop_first(), offset)
    } else {
        0
    }
}

/// How many bindings of `partition` are closed, given how far each partition has been processed.
pub open spec fn closing(
    history: Map<i32, Seq<Binding>>,
    offsets: Map<i32, i64>,
    partition: i32,
) -> nat {
    if history.contains_key(partition) {
        closed_count(history[partition], last_offset(offsets, partition))
    } else {
        0
    }
}

/// Some partition has a binding to close.
pub open spec fn anything_closes(
    history: Map<i32, Seq<Binding>>,
    offsets: Map<i32, i64>,
) -> bool {
    exists|partition: i32| #[trigger] closing(history, offsets, partition) > 0
}

/// The bindings that stay open.
pub open spec fn still_open(
    history: Map<i32, Seq<Binding>>,
    offsets: Map<i32, i64>,
) -> Map<i32, Seq<Binding>> {
    Map::new(
        |partition: i32| history.contains_key(partition),
        |partition: i32| history[partition].skip(closing(history, offsets, partition) as int),
    )
}

/// The greatest timestamp closed on each partition, once the closed bindings are counted in.
pub open spec fn closed_through(
    history: Map<i32, Seq<Binding>>,
    offsets: Map<i32, i64>,
    next_ts: Map<i32, Timestamp>,
) -> Map<i32, Timestamp> {
    Map::new(
        |partition: i32|
            next_ts.contains_key(partition) || closing(history, offsets, partition) > 0,
        |partition: i32|
            {
                let count = closing(history, offsets, partition);
                if count > 0 {
                    history[partition][count - 1].1
                } else {
                    next_ts[partition]
                }
            },
    )
}

/// Binding `i` of `partition` is looked at when timestamps are closed: it is closed itself, or
/// it is the first that stays open.
pub open spec fn inspected(
    history: Map<i32, Seq<Binding>>,
    offsets: Map<i32, i64>,
    partition: i32,
    i: int,
) -> bool {
    &&& history.contains_key(partition)
    &&& 0 <= i < history[partition].len()
    &&& i <= closing(history, offsets, partition)
}

/// Some binding that is looked at was made when the topic had `count` partitions, more than are
/// known.
pub open spec fn requires_partitions(
    history: Map<i32, Seq<Binding>>,
    offsets: Map<i32, i64>,
    known: i32,
    count: i32,
) -> bool {
    &&& count > known
    &&& exists|partition: i32, i: int|
        #[trigger] inspected(history, offsets, partition, i) && history[partition][i].0 == count
}

/// `least` is the minimum of the timestamps, or the greatest timestamp if there is none.
pub open spec fn is_least_timestamp(next_ts: Map<i32, Timestamp>, least: Timestamp) -> bool {
    &&& forall|partition: i32| #[trigger]
        next_ts.contains_key(partition) ==> least <= next_ts[partition]
    &&& least == Timestamp::MAX || exists|partition: i32| #[trigger]
        next_ts.contains_key(partition) && next_ts[partition] == least
}

/// The first `count` bindings end at `offset` or before it; the one after them, if any, goes on
/// past it.
pub open spec fn is_closed_count(entries: Seq<Binding>, offset: i64, count: int) -> bool {
    &&& 0 <= count <= entries.len()
    &&& forall|i: int| 0 <= i < count ==> #[trigger] entries[i].2 <= offset
    &&& count < entries.len() ==> entries[count].2 > offset
}

/// `closed_count` counts the leading bindings that end at the offset or before it.
pub proof fn lemma_closed_count(entries: Seq<Binding>, offset: i64)
    ensures
        is_closed_count(entries, offset, closed_count(entries, offset) as int),
    decreases entries.len(),
{
    if entries.len() > 0 && entries[0].2 <= offset {
        let rest = entries.drop_first();
        lemma_closed_count(rest, offset);
        let count = closed_count(entries, offset) as int;
        assert forall|i: int| 0 <= i < count implies #[trigger] entries[i].2 <= offset by {
            if i > 0 {
                assert(rest[i - 1].2 <= offset);
            }
        }
        if count < entries.len() {
            assert(rest[count - 1] == entries[count]);
        }
    }
}

/// There is one number of leading bindings that end at the offset or before it.
pub proof fn lemma_closed_count_unique(entries: Seq<Binding>, offset: i64, count: int)
    requires
        is_closed_count(entries, offset, count),
    ensures
        closed_count(entries, offset) == count,
{
    lemma_closed_count(entries, offset);
    let other = closed_count(entries, offset) as int;
    if other < count {
        assert(entries[other].2 <= offset);
    } else if count < other {
        assert(entries[count].2 <= offset);
    }
}

/// A binding that does not reach an offset plays no part in the timestamp of that offset.
proof fn lemma_skip_unreached(entries: Seq<Binding>, offset: i64, count: int)
    requires
        0 <= count <= entries.len(),
        forall|i: int| 0 <= i < count ==> #[trigger] entries[i].2 < offset,
    ensures
        assigned_timestamp(entries.skip(count), offset) == assigned_timestamp(entries, offset),
    decreases count,
{
    if count == 0 {
        assert(entries.skip(0) =~= entries);
    } else {
        let rest = entries.drop_first();
        assert forall|i: int| 0 <= i < count - 1 implies #[trigger] rest[i].2 < offset by {
            assert(entries[i + 1].2 < offset);
        }
        lemma_skip_unreached(rest, offset, count - 1);
        assert(rest.skip(count - 1) =~= entries.skip(count));
        assert(entries[0].2 < offset);
    }
}

/// Closing timestamps does not change the timestamp of any message that is yet to be processed.
pub proof fn lemma_closing_keeps_assignments(
    history: Map<i32, Seq<Binding>>,
    offsets: Map<i32, i64>,
    partition: i32,
    offset: i64,
)
    requires
        offset > last_offset(offsets, partition),
    ensures
        matching_timestamp(still_open(history, offsets), partition, offset) == matching_timestamp(
            history,
            partition,
            offset,
        ),
{
    if history.contains_key(partition) {
        let last = last_offset(offsets, partition);
        let entries = history[partition];
        lemma_closed_count(entries, last);
        let count = closed_count(entries, last) as int;
        assert forall|i: int| 0 <= i < count implies #[trigger] entries[i].2 < offset by {
            assert(entries[i].2 <= last);
        }
        lemma_skip_unreached(entries, offset, count);
    }
}

/// Closing timestamps leaves nothing to close.
pub proof fn lemma_closing_is_complete(history: Map<i32, Seq<Binding>>, offsets: Map<i32, i64>)
    ensures
        !anything_closes(still_open(history, offsets), offsets),
        still_open(still_open(history, offsets), offsets) == still_open(history, offsets),
{
    let open = still_open(history, offsets);
    assert forall|partition: i32| #[trigger] closing(open, offsets, partition) == 0 by {
        if history.contains_key(partition) {
            let last = last_offset(offsets, partition);
            let entries = history[partition];
            lemma_closed_count(entries, last);
            let count = closed_count(entries, last) as int;
            if count < entries.len() {
                assert(open[partition][0] == entries[count]);
            }
        }
    }
    assert forall|partition: i32| #[trigger] open.contains_key(partition) implies still_open(
        open,
        offsets,
    )[partition] == open[partition] by {
        assert(closing(open, offsets, partition) == 0);
        assert(open[partition].skip(0) =~= open[partition]);
    }
    assert(still_open(open, offsets) =~= open);
}

/// Where bindings were made in the order of their timestamps, a partition is closed through the
/// greatest of the timestamps that it has been read up to.
pub proof fn lemma_closed_through_greatest(
    history: Map<i32, Seq<Binding>>,
    offsets: Map<i32, i64>,
    next_ts: Map<i32, Timestamp>,
    partition: i32,
    i: int,
)
    requires
        history.contains_key(partition),
        forall|j: int, k: int|
            0 <= j <= k < history[partition].len() ==> history[partition][j].1
                <= history[partition][k].1,
        0 <= i < closing(history, offsets, partition),
    ensures
        closed_through(history, offsets, next_ts).contains_key(partition),
        history[partition][i].1 <= closed_through(history, offsets, next_ts)[partition],
{
    lemma_closed_count(history[partition], last_offset(offsets, partition));
}

/// It does not matter whether timestamps are closed before or after more partitions become
/// known.
pub proof fn lemma_closing_commutes_with_new_partitions(
    history: Map<i32, Seq<Binding>>,
    offsets: Map<i32, i64>,
    next_ts: Map<i32, Timestamp>,
    partitions: Set<i32>,
    closed_ts: Timestamp,
)
    ensures
        still_open(history, with_partitions(offsets, partitions, 0i64)) == still_open(
            history,
            offsets,
        ),
        anything_closes(history, with_partitions(offsets, partitions, 0i64)) == anything_closes(
            history,
            offsets,
        ),
        closed_through(
            history,
            with_partitions(offsets, partitions, 0i64),
            with_partitions(next_ts, partitions, closed_ts),
        ) == with_partitions(closed_through(history, offsets, next_ts), partitions, closed_ts),
{
    let more = with_partitions(offsets, partitions, 0i64);
    assert forall|partition: i32| #[trigger]
        closing(history, more, partition) == closing(history, offsets, partition) by {
        assert(last_offset(more, partition) == last_offset(offsets, partition));
    }
    assert(still_open(history, more) =~= still_open(history, offsets));
    if anything_closes(history, offsets) {
        let partition = choose|partition: i32| #[trigger] closing(history, offsets, partition) > 0;
        assert(closing(history, more, partition) > 0);
    }
    assert(closed_through(history, more, with_partitions(next_ts, partitions, closed_ts))
        =~= with_partitions(closed_through(history, offsets, next_ts), partitions, closed_ts));
}

/// On every partition of the history, exactly the leading bindings that do not go past the processed
/// offset (zero if nothing was processed) are removed, and the partition is closed through the
/// timestamp of the last one removed; if none is, what was closed on it before stays.
pub proof fn lemma_closing_removes_read_prefix(
    history: Map<i32, Seq<Binding>>,
    offsets: Map<i32, i64>,
    next_ts: Map<i32, Timestamp>,
    partition: i32,
    last: i64,
    n: int,
)
    requires
        history.contains_key(partition),
        last == if offsets.contains_key(partition) {
            offsets[partition]
        } else {
            0
        },
        0 <= n <= history[partition].len(),
        forall|i: int| 0 <= i < n ==> (#[trigger] history[partition][i]).2 <= last,
        n < history[partition].len() ==> history[partition][n].2 > last,
    ensures
        still_open(history, offsets).contains_key(partition),
        still_open(history, offsets)[partition] == history[partition].subrange(
            n,
            history[partition].len() as int,
        ),
        closed_through(history, offsets, next_ts).contains_key(partition) <==> n > 0
            || next_ts.contains_key(partition),
        n > 0 ==> closed_through(history, offsets, next_ts)[partition] == history[partition][n
            - 1].1,
        n == 0 && next_ts.contains_key(partition) ==> closed_through(
            history,
            offsets,
            next_ts,
        )[partition] == next_ts[partition],
        n > 0 ==> anything_closes(history, offsets),
{
    lemma_closed_count_unique(history[partition], last, n);
    assert(closing(history, offsets, partition) == n);
    assert(still_open(history, offsets)[partition] =~= history[partition].subrange(
        n,
        history[partition].len() as int,
    ));
}

/// Closing touches no partition that has no bindings, and makes up none.
pub proof fn lemma_closing_leaves_other_partitions(
    history: Map<i32, Seq<Binding>>,
    offsets: Map<i32, i64>,
    next_ts: Map<i32, Timestamp>,
    partition: i32,
)
    requires
        !history.contains_key(partition),
    ensures
        !still_open(history, offsets).contains_key(partition),
        closed_through(history, offsets, next_ts).contains_key(partition)
            <==> next_ts.contains_key(partition),
        next_ts.contains_key(partition) ==> closed_through(history, offsets, next_ts)[partition]
            == next_ts[partition],
{
}

/// Something is closed exactly when the first binding of some partition does not go past what has
/// been processed of it.
pub proof fn lemma_anything_closes(history: Map<i32, Seq<Binding>>, offsets: Map<i32, i64>)
    ensures
        anything_closes(history, offsets) <==> exists|partition: i32| #[trigger]
            history.contains_key(partition) && history[partition].len() > 0
                && history[partition][0].2 <= if offsets.contains_key(partition) {
                offsets[partition]
            } else {
                0
            },
{
    if anything_closes(history, offsets) {
        let partition = choose|partition: i32| #[trigger] closing(history, offsets, partition) > 0;
        assert(history.contains_key(partition));
    }
    if exists|partition: i32| #[trigger]
        history.contains_key(partition) && history[partition].len() > 0 && history[partition][0].2
            <= if offsets.contains_key(partition) {
            offsets[partition]
        } else {
            0
        } {
        let partition = choose|partition: i32| #[trigger]
            history.contains_key(partition) && history[partition].len() > 0
                && history[partition][0].2 <= if offsets.contains_key(partition) {
                offsets[partition]
            } else {
                0
            };
        assert(closing(history, offsets, partition) > 0);
    }
}

/// Binding `i` of `partition` is looked at exactly when none of those before it goes past the
/// processed offset.
pub proof fn lemma_inspected(
    history: Map<i32, Seq<Binding>>,
    offsets: Map<i32, i64>,
    partition: i32,
    i: int,
)
    ensures
        inspected(history, offsets, partition, i) <==> {
            &&& history.contains_key(partition)
            &&& 0 <= i < history[partition].len()
            &&& forall|j: int|
                0 <= j < i ==> (#[trigger] history[partition][j]).2 <= if offsets.contains_key(
                    partition,
                ) {
                    offsets[partition]
                } else {
                    0
                }
        },
{
    if history.contains_key(partition) && 0 <= i < history[partition].len() {
        let last = last_offset(offsets, partition);
        lemma_closed_count(history[partition], last);
        let count = closed_count(history[partition], last) as int;
        if i > count {
            assert(history[partition][count].2 > last);
        }
    }
}

/// There is one least timestamp.
pub proof fn lemma_least_timestamp_unique(
    next_ts: Map<i32, Timestamp>,
    a: Timestamp,
    b: Timestamp,
)
    requires
        is_least_timestamp(next_ts, a),
        is_least_timestamp(next_ts, b),
    ensures
        a == b,
{
}

/// The offset up to which `partition` has been processed.
pub fn last_processed_offset(offsets: &HashMap<i32, i64>, partition: i32) -> (offset: i64)
    ensures
        offset == last_offset(offsets@, partition),
{
    match offsets.get(&partition) {
        Some(offset) => *offset,
        None => 0,
    }
}

/// Looks for a binding that was made with more partitions than are known, among those that
/// closing timestamps would look at.
pub fn required_partitions(
    history: &PartitionHistories,
    offsets: &HashMap<i32, i64>,
    known: i32,
) -> (required: Option<i32>)
    ensures
        match required {
            Some(count) => requires_partitions(bindings_of(*history), offsets@, known, count),
            None => forall|count: i32|
                !requires_partitions(bindings_of(*history), offsets@, known, count),
        },
{
    let ghost bindings = bindings_of(*history);
    let ghost pairs = history.iter().remaining();
    for kv in iter: history.iter()
        invariant
            bindings == bindings_of(*history),
            iter.seq() == pairs,
            pairs == history.iter().remaining(),
            forall|k: int, i: int|
                0 <= k < iter.index() && #[trigger] inspected(bindings, offsets@, *pairs[k].0, i)
                    ==> bindings[*pairs[k].0][i].0 <= known,
    {
        let partition: i32 = *kv.0;
        let entries: &Vec<Binding> = kv.1;
        let last: i64 = last_processed_offset(offsets, partition);
        assert(bindings.contains_key(partition) && bindings[partition] == entries@);
        let mut i: usize = 0;
        while i < entries.len()
            invariant
                i <= entries.len(),
                bindings.contains_key(partition),
                bindings[partition] == entries@,
                last == last_offset(offsets@, partition),
                bindings == bindings_of(*history),
                forall|j: int| 0 <= j < i ==> #[trigger] entries@[j].2 <= last,
                forall|j: int| 0 <= j < i ==> #[trigger] entries@[j].0 <= known,
            ensures
                i <= entries.len(),
                i < entries.len() ==> entries@[i as int].2 > last && entries@[i as int].0 <= known,
            decreases entries.len() - i,
        {
            let (partition_count, _, offset) = entries[i];
            if partition_count > known {
                proof {
                    lemma_closed_count(entries@, last);
                    assert(inspected(bindings, offsets@, partition, i as int));
                }
                return Some(partition_count);
            }
            if offset > last {
                break;
            }
            i += 1;
        }
        proof {
            lemma_closed_count_unique(entries@, last, i as int);
        }
    }
    proof {
        assert forall|count: i32|
            !requires_partitions(bindings, offsets@, known, count) by {
            if requires_partitions(bindings, offsets@, known, count) {
                let (partition, i) = choose|partition: i32, i: int|
                    #[trigger] inspected(bindings, offsets@, partition, i)
                        && bindings[partition][i].0 == count;
                assert(history@.contains_key(partition));
                assert(pairs.contains((&partition, &history@[partition])));
                let k = choose|k: int|
                    0 <= k < pairs.len() && pairs[k] == (&partition, &history@[partition]);
                assert(*pairs[k].0 == partition);
            }
        }
    }
    None
}

/// Removes the leading bindings that end at `offset` or before it; returns the timestamp of the
/// last one.
fn close_bindings(entries: &mut Vec<Binding>, offset: i64) -> (closed: Option<Timestamp>)
    ensures
        ({
            let count = closed_count(old(entries)@, offset) as int;
            &&& final(entries)@ == old(entries)@.skip(count)
            &&& closed == if count > 0 {
                Some(old(entries)@[count - 1].1)
            } else {
                None
            }
        }),
{
    let ghost before = entries@;
    let ghost mut count: int = 0;
    let mut closed: Option<Timestamp> = None;
    while entries.len() > 0 && entries[0].2 <= offset
        invariant
            0 <= count <= before.len(),
            entries@ == before.skip(count),
            forall|i: int| 0 <= i < count ==> #[trigger] before[i].2 <= offset,
            closed == if count > 0 {
                Some(before[count - 1].1)
            } else {
                None
            },
        decreases entries.len(),
    {
        closed = Some(entries[0].1);
        let _ = entries.remove(0);
        proof {
            assert(entries@ == before.skip(count + 1));
            count = count + 1;
        }
    }
    proof {
        if count < before.len() {
            assert(entries@[0] == before[count]);
        }
        lemma_closed_count_unique(before, offset, count);
    }
    closed
}

/// Closes, on each partition, the timestamps whose messages have all been processed. Removes
/// their bindings and records the last timestamp closed on the partition. Returns whether any
/// was closed.
pub fn close_timestamps(
    history: &mut PartitionHistories,
    offsets: &HashMap<i32, i64>,
    next_partition_ts: &mut HashMap<i32, Timestamp>,
) -> (changed: bool)
    ensures
        bindings_of(*final(history)) == still_open(bindings_of(*old(history)), offsets@),
        final(next_partition_ts)@ == closed_through(
            bindings_of(*old(history)),
            offsets@,
            old(next_partition_ts)@,
        ),
        changed == anything_closes(bindings_of(*old(history)), offsets@),
{
    let ghost before = bindings_of(*history);
    let ghost next_before = next_partition_ts@;
    let mut partitions: Vec<i32> = Vec::new();
    let ghost keys = history.keys().remaining();
    for partition in iter: history.keys()
        invariant
            iter.seq() == keys,
            partitions@ == keys.unref().take(iter.index() as int),
    {
        partitions.push(*partition);
        assert(keys.unref().take(iter.index() + 1) == keys.unref().take(iter.index() as int).push(
            *partition,
        ));
    }
    assert(partitions@ == keys.unref());
    assert(partitions@.to_set() == history@.dom());
    assert(partitions@.no_duplicates());
    let mut changed: bool = false;
    let ghost mut done: Set<i32> = Set::empty();
    let mut k: usize = 0;
    while k < partitions.len()
        invariant
            k <= partitions.len(),
            partitions@.no_duplicates(),
            partitions@.to_set() == before.dom(),
            bindings_of(*history).dom() == before.dom(),
            forall|j: int|
                0 <= j < partitions.len() ==> (done.contains(#[trigger] partitions@[j]) <==> j < k),
            forall|p: i32| #[trigger] done.contains(p) ==> before.contains_key(p),
            forall|p: i32| #[trigger]
                before.contains_key(p) ==> bindings_of(*history)[p] == if done.contains(p) {
                    before[p].skip(closing(before, offsets@, p) as int)
                } else {
                    before[p]
                },
            forall|p: i32| #[trigger]
                next_partition_ts@.contains_key(p) <==> next_before.contains_key(p) || (closing(
                    before,
                    offsets@,
                    p,
                ) > 0 && done.contains(p)),
            forall|p: i32| #[trigger]
                next_partition_ts@.contains_key(p) ==> next_partition_ts@[p] == if closing(
                    before,
                    offsets@,
                    p,
                ) > 0 && done.contains(p) {
                    before[p][closing(before, offsets@, p) - 1].1
                } else {
                    next_before[p]
                },
            changed <==> exists|p: i32| #[trigger]
                closing(before, offsets@, p) > 0 && done.contains(p),
        decreases partitions.len() - k,
    {
        let partition: i32 = partitions[k];
        proof {
            assert(partitions@.to_set().contains(partition));
            assert(!done.contains(partition));
        }
        let last: i64 = last_processed_offset(offsets, partition);
        if let Some(mut entries) = history.remove(&partition) {
            let closed: Option<Timestamp> = close_bindings(&mut entries, last);
            if let Some(ts) = closed {
                next_partition_ts.insert(partition, ts);
                changed = true;
                assert(closing(before, offsets@, partition) > 0 && done.insert(
                    partition,
                ).contains(partition));
            }
            history.insert(partition, entries);
        }
        proof {
            done = done.insert(partition);
        }
        k += 1;
    }
    proof {
        assert forall|p: i32| #[trigger] before.contains_key(p) implies done.contains(p) by {
            assert(partitions@.to_set().contains(p));
            let j = choose|j: int| 0 <= j < partitions.len() && partitions@[j] == p;
            assert(done.contains(partitions@[j]));
        }
        assert(bindings_of(*history) =~= still_open(before, offsets@));
        assert(next_partition_ts@ =~= closed_through(before, offsets@, next_before));
    }
    changed
}

/// The least timestamp of all partitions, or the greatest timestamp if there is no partition.
pub fn least_timestamp(next_partition_ts: &HashMap<i32, Timestamp>) -> (least: Timestamp)
    ensures
        is_least_timestamp(next_partition_ts@, least),
{
    let mut min: Timestamp = u64::MAX;
    let ghost values = next_partition_ts.values().remaining();
    for next_ts in iter: next_partition_ts.values()
        invariant
            iter.seq() == values,
            values == next_partition_ts.values().remaining(),
            forall|k: int| 0 <= k < iter.index() ==> min <= *#[trigger] values[k],
            min == u64::MAX || exists|k: int| 0 <= k < iter.index() && *#[trigger] values[k] == min,
    {
        if *next_ts < min {
            min = *next_ts;
        }
    }
    proof {
        let times = values.unref();
        assert(times.to_set() == next_partition_ts@.values());
        assert forall|partition: i32| #[trigger]
            next_partition_ts@.contains_key(partition) implies min <= next_partition_ts@[partition] by {
            assert(next_partition_ts@.values().contains(next_partition_ts@[partition]));
            let k = choose|k: int|
                0 <= k < times.len() && times[k] == next_partition_ts@[partition];
            assert(min <= *values[k]);
        }
        if min != u64::MAX {
            let k = choose|k: int| 0 <= k < values.len() && *#[trigger] values[k] == min;
            assert(times[k] == min);
            assert(times.to_set().contains(min));
        }
    }
    min
}

} // verus!
