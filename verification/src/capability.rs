//! The capability to send data into the dataflow, as timely hands it out.

use crate::history::Timestamp;
use timely::dataflow::operators::Capability;
use vstd::prelude::*;

verus! {

/// Holds a timely `Capability`. That type cannot be declared to the verifier, as its parameter is
/// bound by a trait of timely; what is known of a value is its `capability_time`.
#[verifier::external_body]
pub struct SourceCapability {
    pub inner: Capability<u64>,
}

/// The time at which the capability lets its holder send data.
pub uninterp spec fn capability_time(capability: SourceCapability) -> u64;

/// Calls `Capability::time`, which hands out the time that the capability was made for.
#[verifier::external_body]
pub(crate) fn time_of(capability: &SourceCapability) -> (time: Timestamp)
    ensures
        time == capability_time(*capability),
{
    *capability.inner.time()
}

/// Calls `Capability::downgrade`, which puts a capability for `new_time` in the place of the
/// present one. It panics unless the present time is less than or equal to `new_time`. That it
/// tells timely's progress tracking of the change is not stated.
#[verifier::external_body]
pub(crate) fn downgrade_to(capability: &mut SourceCapability, new_time: Timestamp)
    requires
        capability_time(*old(capability)) <= new_time,
    ensures
        capability_time(*final(capability)) == new_time,
{
    capability.inner.downgrade(&new_time)
}

} // verus!
