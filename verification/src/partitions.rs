//! The partitions of a topic, as the brokers list them.

use crate::history::Timestamp;
use std::collections::{HashMap, HashSet};
use vstd::prelude::*;
use vstd::std_specs::iter::IteratorSpec;

verus! {

broadcast use vstd::std_specs::hash::group_hash_axioms;

/// What the brokers tell of one topic.
pub struct TopicMetadata {
    pub name: String,
    pub partitions: Vec<i32>,
}

/// What a request for metadata came back with: the topics, or nothing if it failed.
pub type Metadata = Option<Vec<TopicMetadata>>;

/// The outcome of one look at the partitions of a topic.
pub enum PartitionList {
    /// Fewer partitions than expected are listed.
    Incomplete,
    /// All expected partitions are listed.
    Complete(HashSet<i32>),
    /// More partitions are listed than can be counted.
    TooMany,
}

/// The partitions of the first topic named `topic`; none if there is no such topic.
pub open spec fn partitions_of_topic(topics: Seq<TopicMetadata>, topic: Seq<char>) -> Set<i32>
    decreases topics.len(),
{
    if topics.len() == 0 {
        Set::empty()
    } else if topics[0].name@ == topic {
        topics[0].partitions@.to_set()
    } else {
        partitions_of_topic(topics.drop_first(), topic)
    }
}

/// The partitions of `topic` that the metadata lists; none if the request failed.
pub open spec fn listed_partitions(metadata: Metadata, topic: Seq<char>) -> Set<i32> {
    match metadata {
        Some(topics) => partitions_of_topic(topics@, topic),
        None => Set::empty(),
    }
}

/// `map`, with `value` for the partitions that it has no entry for.
pub open spec fn with_partitions<V>(map: Map<i32, V>, partitions: Set<i32>, value: V) -> Map<
    i32,
    V,
> {
    Map::new(
        |partition: i32| map.contains_key(partition) || partitions.contains(partition),
        |partition: i32|
            if map.contains_key(partition) {
                map[partition]
            } else {
                value
            },
    )
}

proof fn lemma_first_named(topics: Seq<TopicMetadata>, topic: Seq<char>, i: int)
    requires
        0 <= i <= topics.len(),
        forall|j: int| 0 <= j < i ==> (#[trigger] topics[j]).name@ != topic,
        i < topics.len() ==> topics[i].name@ == topic,
    ensures
        partitions_of_topic(topics, topic) == if i < topics.len() {
            topics[i].partitions@.to_set()
        } else {
            Set::empty()
        },
    decreases topics.len(),
{
    if i > 0 {
        let rest = topics.drop_first();
        assert(topics[0].name@ != topic);
        assert forall|j: int| 0 <= j < i - 1 implies (#[trigger] rest[j]).name@ != topic by {
            assert(topics[j + 1].name@ != topic);
        }
        lemma_first_named(rest, topic, i - 1);
    }
}

/// The set of the partitions in a list.
fn partition_set(partitions: &Vec<i32>) -> (set: HashSet<i32>)
    ensures
        set@ == partitions@.to_set(),
{
    let mut set: HashSet<i32> = HashSet::new();
    let mut i: usize = 0;
    while i < partitions.len()
        invariant
            i <= partitions.len(),
            forall|p: i32| #[trigger]
                set@.contains(p) <==> exists|j: int| 0 <= j < i && #[trigger] partitions@[j] == p,
        decreases partitions.len() - i,
    {
        let ghost before = set@;
        let partition: i32 = partitions[i];
        set.insert(partition);
        i += 1;
        proof {
            assert forall|p: i32| #[trigger] set@.contains(p) implies exists|j: int|
                0 <= j < i && #[trigger] partitions@[j] == p by {
                if p == partition {
                    assert(partitions@[i - 1] == p);
                } else {
                    assert(before.contains(p));
                }
            }
        }
    }
    assert(set@ =~= partitions@.to_set());
    set
}

/// The partitions of `topic` that the metadata lists.
pub fn topic_partitions(metadata: &Metadata, topic: &String) -> (partitions: HashSet<i32>)
    ensures
        partitions@ == listed_partitions(*metadata, topic@),
{
    match metadata {
        Some(topics) => {
            let mut i: usize = 0;
            while i < topics.len()
                invariant
                    i <= topics.len(),
                    forall|j: int| 0 <= j < i ==> (#[trigger] topics@[j]).name@ != topic@,
                    *metadata == Some(*topics),
                decreases topics.len() - i,
            {
                if topics[i].name.eq(topic) {
                    proof {
                        lemma_first_named(topics@, topic@, i as int);
                    }
                    return partition_set(&topics[i].partitions);
                }
                i += 1;
            }
            proof {
                lemma_first_named(topics@, topic@, i as int);
            }
            HashSet::new()
        },
        None => HashSet::new(),
    }
}

/// Gives `value` to the partitions that `map` has no entry for.
fn add_partitions<V: Copy>(map: &mut HashMap<i32, V>, partitions: &HashSet<i32>, value: V)
    ensures
        final(map)@ == with_partitions(old(map)@, partitions@, value),
{
    let ghost before = map@;
    let ghost items = partitions.iter().remaining();
    for partition in iter: partitions.iter()
        invariant
            iter.seq() == items,
            forall|p: i32| #[trigger]
                map@.contains_key(p) <==> before.contains_key(p) || exists|k: int|
                    0 <= k < iter.index() && *#[trigger] items[k] == p,
            forall|p: i32| #[trigger]
                map@.contains_key(p) ==> map@[p] == if before.contains_key(p) {
                    before[p]
                } else {
                    value
                },
    {
        let ghost earlier = map@;
        if map.get(partition).is_none() {
            map.insert(*partition, value);
        }
        proof {
            assert(*items[iter.index() as int] == *partition);
            assert forall|p: i32| #[trigger] map@.contains_key(p) implies before.contains_key(p)
                || exists|k: int| 0 <= k < iter.index() + 1 && *#[trigger] items[k] == p by {
                if !earlier.contains_key(p) {
                    assert(*items[iter.index() as int] == p);
                }
            }
        }
    }
    proof {
        assert(items.unref().to_set() == partitions@);
        assert forall|p: i32| partitions@.contains(p) <==> exists|k: int|
            0 <= k < items.len() && *#[trigger] items[k] == p by {
            if partitions@.contains(p) {
                assert(items.unref().to_set().contains(p));
                let k = choose|k: int| 0 <= k < items.len() && items.unref()[k] == p;
                assert(*items[k] == p);
            }
            if exists|k: int| 0 <= k < items.len() && *#[trigger] items[k] == p {
                let k = choose|k: int| 0 <= k < items.len() && *#[trigger] items[k] == p;
                assert(items.unref()[k] == p);
                assert(items.unref().to_set().contains(p));
            }
        }
        assert(map@ =~= with_partitions(before, partitions@, value));
    }
}

/// The partitions that count as listed when `expected` are asked for: if none is expected, the
/// brokers are not asked and none is listed.
pub open spec fn partitions_found(metadata: Metadata, topic: Seq<char>, expected: i32) -> Set<i32> {
    if expected <= 0 {
        Set::empty()
    } else {
        listed_partitions(metadata, topic)
    }
}

/// What is kept of the partitions that are followed.
pub struct Followed {
    pub offsets: Map<i32, i64>,
    pub next_ts: Map<i32, Timestamp>,
}

/// Taking in what the brokers list for `topic` leads from `pre` to `post`, with this outcome.
pub open spec fn updates_partitions(
    metadata: Metadata,
    topic: Seq<char>,
    expected: i32,
    closed_ts: Timestamp,
    pre: Followed,
    list: PartitionList,
    post: Followed,
) -> bool {
    let found = partitions_found(metadata, topic, expected);
    match list {
        PartitionList::Complete(partitions) => {
            &&& partitions@ == found
            &&& expected <= found.len() <= i32::MAX
            &&& post.offsets == with_partitions(pre.offsets, found, 0i64)
            &&& post.next_ts == with_partitions(pre.next_ts, found, closed_ts)
        },
        PartitionList::Incomplete => {
            &&& found.len() < expected
            &&& post.offsets == pre.offsets
            &&& post.next_ts == pre.next_ts
        },
        PartitionList::TooMany => {
            &&& found.len() > i32::MAX
            &&& post.offsets == pre.offsets
            &&& post.next_ts == pre.next_ts
        },
    }
}

/// The partitions that are found, if at least one is expected, are exactly those that the first
/// topic of the name lists, however many they are.
pub proof fn lemma_found_as_listed(
    topics: Vec<TopicMetadata>,
    topic: Seq<char>,
    expected: i32,
    i: int,
)
    requires
        expected > 0,
        0 <= i < topics@.len(),
        topics@[i].name@ == topic,
        forall|j: int| 0 <= j < i ==> (#[trigger] topics@[j]).name@ != topic,
    ensures
        partitions_found(Some(topics), topic, expected) == topics@[i].partitions@.to_set(),
        listed_partitions(Some(topics), topic) == topics@[i].partitions@.to_set(),
{
    lemma_first_named(topics@, topic, i);
}

/// No partition is found if the request failed, if no topic has the name, or if none is expected.
pub proof fn lemma_none_found(metadata: Metadata, topic: Seq<char>, expected: i32)
    requires
        expected <= 0 || metadata is None || forall|j: int|
            0 <= j < metadata->0@.len() ==> (#[trigger] metadata->0@[j]).name@ != topic,
    ensures
        partitions_found(metadata, topic, expected) == Set::<i32>::empty(),
        expected > 0 ==> listed_partitions(metadata, topic) == Set::<i32>::empty(),
{
    if expected > 0 && metadata is Some {
        lemma_first_named(metadata->0@, topic, metadata->0@.len() as int);
    }
}

/// If at least one partition is expected, and the first topic of the name lists at least as many
/// distinct ones as are expected, the list is complete and holds exactly those that are listed,
/// however many more than expected they are. Those not followed before start at offset zero and at
/// the closed timestamp; all others keep what they have. If fewer are listed, or more than can be
/// counted, nothing changes.
pub proof fn lemma_update_follows_listed_partitions(
    topics: Vec<TopicMetadata>,
    topic: Seq<char>,
    expected: i32,
    closed_ts: Timestamp,
    pre: Followed,
    list: PartitionList,
    post: Followed,
    i: int,
)
    requires
        updates_partitions(Some(topics), topic, expected, closed_ts, pre, list, post),
        expected > 0,
        0 <= i < topics@.len(),
        topics@[i].name@ == topic,
        forall|j: int| 0 <= j < i ==> (#[trigger] topics@[j]).name@ != topic,
    ensures
        expected <= topics@[i].partitions@.to_set().len() <= i32::MAX ==> {
            &&& list is Complete
            &&& forall|p: i32| #[trigger]
                list->Complete_0@.contains(p) <==> topics@[i].partitions@.contains(p)
            &&& forall|p: i32| #[trigger]
                post.offsets.contains_key(p) <==> pre.offsets.contains_key(p)
                    || topics@[i].partitions@.contains(p)
            &&& forall|p: i32| #[trigger]
                post.next_ts.contains_key(p) <==> pre.next_ts.contains_key(p)
                    || topics@[i].partitions@.contains(p)
            &&& forall|p: i32|
                pre.offsets.contains_key(p) ==> #[trigger] post.offsets[p] == pre.offsets[p]
            &&& forall|p: i32|
                pre.next_ts.contains_key(p) ==> #[trigger] post.next_ts[p] == pre.next_ts[p]
            &&& forall|p: i32|
                !pre.offsets.contains_key(p) && topics@[i].partitions@.contains(p)
                    ==> #[trigger] post.offsets[p] == 0
            &&& forall|p: i32|
                !pre.next_ts.contains_key(p) && topics@[i].partitions@.contains(p)
                    ==> #[trigger] post.next_ts[p] == closed_ts
        },
        topics@[i].partitions@.to_set().len() < expected ==> list is Incomplete && post == pre,
        topics@[i].partitions@.to_set().len() > i32::MAX ==> list is TooMany && post == pre,
{
    lemma_found_as_listed(topics, topic, expected, i);
    let listed = topics@[i].partitions@;
    assert forall|p: i32| #[trigger] listed.to_set().contains(p) <==> listed.contains(p) by {}
    assert forall|p: i32| #[trigger] listed.contains(p) implies listed.to_set().contains(p) by {}
}

/// If the request failed or no topic has the name, a list with at least one expected partition is
/// not complete, and nothing changes. If none is expected the list is complete and empty.
pub proof fn lemma_update_without_listed_partitions(
    metadata: Metadata,
    topic: Seq<char>,
    expected: i32,
    closed_ts: Timestamp,
    pre: Followed,
    list: PartitionList,
    post: Followed,
)
    requires
        updates_partitions(metadata, topic, expected, closed_ts, pre, list, post),
        expected <= 0 || metadata is None || forall|j: int|
            0 <= j < metadata->0@.len() ==> (#[trigger] metadata->0@[j]).name@ != topic,
    ensures
        post.offsets == pre.offsets,
        post.next_ts == pre.next_ts,
        expected > 0 ==> list is Incomplete,
        expected <= 0 ==> list is Complete && list->Complete_0@ == Set::<i32>::empty(),
{
    lemma_none_found(metadata, topic, expected);
    if list is Complete {
        assert(post.offsets =~= pre.offsets);
        assert(post.next_ts =~= pre.next_ts);
    }
}

/// Takes in what the brokers list for `topic`. Once at least `expected_partition_count`
/// partitions are listed, those not seen before start at offset zero, with `closed_ts` as the
/// last timestamp closed on them; those seen before keep what they have. Until then nothing
/// changes and the brokers have to be asked again.
pub fn update_partition_list(
    metadata: &Metadata,
    topic: &String,
    expected_partition_count: i32,
    last_processed_offsets: &mut HashMap<i32, i64>,
    next_partition_ts: &mut HashMap<i32, Timestamp>,
    closed_ts: Timestamp,
) -> (list: PartitionList)
    ensures
        updates_partitions(
            *metadata,
            topic@,
            expected_partition_count,
            closed_ts,
            (Followed {
                offsets: old(last_processed_offsets)@,
                next_ts: old(next_partition_ts)@,
            }),
            list,
            (Followed {
                offsets: final(last_processed_offsets)@,
                next_ts: final(next_partition_ts)@,
            }),
        ),
{
    let partitions: HashSet<i32> = if expected_partition_count <= 0 {
        HashSet::new()
    } else {
        topic_partitions(metadata, topic)
    };
    let count: usize = partitions.len();
    if count > i32::MAX as usize {
        return PartitionList::TooMany;
    }
    if (count as i32) < expected_partition_count {
        return PartitionList::Incomplete;
    }
    add_partitions(next_partition_ts, &partitions, closed_ts);
    add_partitions(last_processed_offsets, &partitions, 0i64);
    PartitionList::Complete(partitions)
}

} // verus!
