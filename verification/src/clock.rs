//! The current time (the `chrono` crate).

use vstd::prelude::*;

use crate::models::Timestamp;

verus! {

/// The current time (`chrono::Utc::now`), as seconds and nanoseconds since
/// the Unix epoch. Claimed: the seconds are not negative and the nanoseconds
/// are below one second, since the clock's reading is built from a duration
/// since the epoch (it panics on a clock set before the epoch).
#[verifier::external_body]
pub(crate) fn now() -> (t: Timestamp)
    ensures
        t.secs >= 0,
        t.nanos < 1_000_000_000,
{
    let now = chrono::Utc::now();
    Timestamp { secs: now.timestamp(), nanos: now.timestamp_subsec_nanos() }
}

} // verus!
