//! The wall clock, read through an outside crate. Lock leases compare
//! readings of this clock; every contract downstream holds for whatever
//! value a reading returns.

use vstd::prelude::*;

verus! {

/// Relies on chrono::Utc::now: the wall clock, as milliseconds since the
/// Unix epoch. Nothing is promised of the value: it depends on the machine.
#[verifier::external_body]
pub fn wall_clock_ms() -> u64 {
    u64::try_from(chrono::Utc::now().timestamp_millis()).unwrap_or(0)
}

} // verus!
