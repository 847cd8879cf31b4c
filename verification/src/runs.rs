//! What holds of a reader over a run of steps.

use crate::closing::last_offset;
use crate::laws::{
    lemma_step_advances, lemma_step_counts_bytes, lemma_step_well_formed, processes, well_formed,
};
use crate::message::{countable, delivered_bytes, turn_report, Action, Event};
use crate::order::{in_order, lemma_step_keeps_order, names_all};
use crate::reader::{awaits, transition, ReaderState};
use crate::untimed::{untimed_awaits, untimed_transition, UntimedState};
use vstd::prelude::*;

verus! {

/// One step of a reader.
pub struct Step {
    pub pre: ReaderState,
    pub event: Event,
    pub post: ReaderState,
    pub action: Action,
}

/// Between two steps only the timestamp histories may change.
pub open spec fn continues(before: ReaderState, after: ReaderState) -> bool {
    after == ReaderState { histories: after.histories, ..before }
}

/// Each step is one that its event leads to.
pub open spec fn all_transitions(steps: Seq<Step>) -> bool {
    forall|i: int| #![trigger steps[i]]
        0 <= i < steps.len() ==> awaits(steps[i].pre.phase, steps[i].event) && transition(
            steps[i].pre,
            steps[i].event,
            steps[i].post,
            steps[i].action,
        )
}

/// Each step goes on from the one before it.
pub open spec fn all_continue(steps: Seq<Step>) -> bool {
    forall|i: int, j: int| #![trigger steps[i], steps[j]]
        0 <= i < steps.len() && j == i + 1 && j < steps.len() ==> continues(
            steps[i].post,
            steps[j].pre,
        )
}

/// The steps follow one another, from a reader that is well-formed.
pub open spec fn is_run(steps: Seq<Step>) -> bool {
    &&& steps.len() > 0 ==> well_formed(steps[0].pre)
    &&& all_transitions(steps)
    &&& all_continue(steps)
}

/// What the steps ask for.
pub open spec fn actions_of(steps: Seq<Step>) -> Seq<Action> {
    steps.map_values(|step: Step| step.action)
}

/// The reader is well-formed throughout a run.
pub proof fn lemma_run_well_formed(steps: Seq<Step>, i: int)
    requires
        is_run(steps),
        0 <= i < steps.len(),
    ensures
        well_formed(steps[i].pre),
        well_formed(steps[i].post),
    decreases i,
{
    if i > 0 {
        lemma_run_well_formed(steps, i - 1);
        assert(continues(steps[i - 1].post, steps[i].pre));
    }
    lemma_step_well_formed(steps[i].pre, steps[i].event, steps[i].post, steps[i].action);
}

proof fn lemma_run_offsets_advance(steps: Seq<Step>, i: int, j: int, partition: i32)
    requires
        is_run(steps),
        0 <= i < j < steps.len(),
    ensures
        last_offset(steps[i].post.offsets, partition) <= last_offset(
            steps[j].pre.offsets,
            partition,
        ),
    decreases j - i,
{
    assert(continues(steps[j - 1].post, steps[j].pre));
    if i < j - 1 {
        lemma_run_offsets_advance(steps, i, j - 1, partition);
        let step = steps[j - 1];
        lemma_run_well_formed(steps, j - 1);
        lemma_step_advances(step.pre, step.event, step.post, step.action);
    }
}

/// The messages of a partition are processed in the order of their offsets, each once.
pub proof fn lemma_messages_in_order_and_once(
    steps: Seq<Step>,
    i: int,
    j: int,
    partition: i32,
    first: i64,
    second: i64,
)
    requires
        is_run(steps),
        0 <= i < j < steps.len(),
        processes(steps[i].pre, steps[i].post, partition, first),
        processes(steps[j].pre, steps[j].post, partition, second),
    ensures
        first < second,
{
    lemma_run_offsets_advance(steps, i, j, partition);
}

/// In a turn the reader counts the bytes of the payloads that it delivers, and the end of the turn
/// reports their number, whatever ends it.
pub proof fn lemma_turn_counts_delivered_bytes(steps: Seq<Step>)
    requires
        is_run(steps),
        steps.len() > 0,
        steps[0].event is Activated,
        forall|i: int| 0 < i < steps.len() ==> !((#[trigger] steps[i]).event is Activated),
    ensures
        steps.last().post.bytes_read == delivered_bytes(actions_of(steps)),
        turn_report(steps.last().action) matches Some(report) ==> report == countable(
            delivered_bytes(actions_of(steps)) as i64,
        ),
        steps.last().post.phase is Idle ==> turn_report(steps.last().action) is Some
            || steps.last().action is Panic || steps.last().action is Ready,
    decreases steps.len(),
{
    let last = steps.len() - 1;
    let step = steps[last];
    let earlier = steps.drop_last();
    lemma_run_well_formed(steps, last);
    lemma_step_counts_bytes(step.pre, step.event, step.post, step.action);
    assert(actions_of(steps).drop_last() =~= actions_of(earlier));
    assert(actions_of(steps).last() == step.action);
    if last > 0 {
        assert forall|i: int| #![trigger earlier[i]] 0 <= i < earlier.len() implies earlier[i]
            == steps[i] by {}
        assert(is_run(earlier));
        assert forall|i: int| 0 < i < earlier.len() implies !((#[trigger] earlier[i]).event
            is Activated) by {
            assert(!(steps[i].event is Activated));
        }
        lemma_turn_counts_delivered_bytes(earlier);
        assert(continues(earlier.last().post, step.pre));
        assert(!(step.event is Activated));
    } else {
        assert(delivered_bytes(actions_of(earlier)) == 0);
    }
}

/// The capability of a reader never goes back.
pub proof fn lemma_run_time_advances(steps: Seq<Step>, i: int, j: int)
    requires
        is_run(steps),
        0 <= i <= j < steps.len(),
    ensures
        steps[i].pre.time <= steps[j].post.time,
    decreases j - i,
{
    let step = steps[j];
    lemma_run_well_formed(steps, j);
    lemma_step_advances(step.pre, step.event, step.post, step.action);
    if i < j {
        lemma_run_time_advances(steps, i, j - 1);
        assert(continues(steps[j - 1].post, steps[j].pre));
    }
}

/// Where timestamps are decided in increasing order, closed timestamps stay closed.
pub proof fn lemma_run_closed_advances(steps: Seq<Step>, i: int, j: int)
    requires
        is_run(steps),
        forall|k: int|
            0 <= k < steps.len() ==> in_order((#[trigger] steps[k]).pre) && names_all(
                steps[k].pre,
                steps[k].event,
            ),
        0 <= i <= j < steps.len(),
    ensures
        steps[i].pre.last_closed_ts <= steps[j].post.last_closed_ts,
    decreases j - i,
{
    let step = steps[j];
    lemma_step_keeps_order(step.pre, step.event, step.post, step.action);
    if i < j {
        lemma_run_closed_advances(steps, i, j - 1);
        assert(continues(steps[j - 1].post, steps[j].pre));
    }
}

/// One step of an untimed reader.
pub struct UntimedStep {
    pub pre: UntimedState,
    pub event: Event,
    pub post: UntimedState,
    pub action: Action,
}

/// The steps of an untimed reader follow one another.
pub open spec fn is_untimed_run(steps: Seq<UntimedStep>) -> bool {
    &&& forall|i: int| #![trigger steps[i]]
        0 <= i < steps.len() ==> untimed_awaits(steps[i].pre.phase, steps[i].event)
            && untimed_transition(steps[i].pre, steps[i].event, steps[i].post, steps[i].action)
    &&& forall|i: int, j: int| #![trigger steps[i], steps[j]]
        0 <= i < steps.len() && j == i + 1 && j < steps.len() ==> steps[j].pre == steps[i].post
}

/// What the steps of an untimed reader ask for.
pub open spec fn untimed_actions_of(steps: Seq<UntimedStep>) -> Seq<Action> {
    steps.map_values(|step: UntimedStep| step.action)
}

/// In a turn an untimed reader counts the bytes of the payloads that it delivers, and the end of
/// the turn reports their number, whatever ends it.
pub proof fn lemma_untimed_turn_counts_delivered_bytes(steps: Seq<UntimedStep>)
    requires
        is_untimed_run(steps),
        steps.len() > 0,
        steps[0].event is Activated,
        forall|i: int| 0 < i < steps.len() ==> !((#[trigger] steps[i]).event is Activated),
    ensures
        steps.last().post.bytes_read == delivered_bytes(untimed_actions_of(steps)),
        turn_report(steps.last().action) matches Some(report) ==> report == countable(
            delivered_bytes(untimed_actions_of(steps)) as i64,
        ),
        steps.last().post.phase is Idle ==> turn_report(steps.last().action) is Some
            || steps.last().action is Panic,
    decreases steps.len(),
{
    let last = steps.len() - 1;
    let step = steps[last];
    let earlier = steps.drop_last();
    assert(untimed_transition(step.pre, step.event, step.post, step.action));
    assert(untimed_actions_of(steps).drop_last() =~= untimed_actions_of(earlier));
    assert(untimed_actions_of(steps).last() == step.action);
    if last > 0 {
        assert forall|i: int| #![trigger earlier[i]] 0 <= i < earlier.len() implies earlier[i]
            == steps[i] by {}
        assert forall|i: int| 0 < i < earlier.len() implies !((#[trigger] earlier[i]).event
            is Activated) by {
            assert(!(steps[i].event is Activated));
        }
        lemma_untimed_turn_counts_delivered_bytes(earlier);
        assert(step.pre == earlier.last().post);
        assert(!(step.event is Activated));
    } else {
        assert(delivered_bytes(untimed_actions_of(earlier)) == 0);
    }
}

} // verus!
