//! What only the outside world can give: a new identity and the time.

use crate::model::{Oid, Timestamp};
use vstd::prelude::*;

verus! {

/// Draws a new identity from `bson::oid::ObjectId::new` and hands its twelve
/// bytes over as an `Oid`. Nothing is claimed of the identity drawn: it comes
/// from the clock, a per-process random value and a counter. The call does
/// not return where the system clock stands before 1970 or after 2106.
#[verifier::external_body]
pub(crate) fn fresh_id() -> (id: Oid) {
    let b = bson::oid::ObjectId::new().bytes();
    Oid {
        seconds: u32::from_be_bytes([b[0], b[1], b[2], b[3]]),
        tail: u64::from_be_bytes([b[4], b[5], b[6], b[7], b[8], b[9], b[10], b[11]]),
    }
}

/// Reads the clock with `chrono::Utc::now` and hands the instant over as
/// seconds and nanoseconds since the Unix epoch. Nothing is claimed of the
/// instant read. The call does not return where the system clock stands
/// before 1970.
#[verifier::external_body]
pub(crate) fn current_time() -> (instant: Timestamp) {
    let now = chrono::Utc::now();
    Timestamp { secs: now.timestamp(), nanos: now.timestamp_subsec_nanos() }
}

} // verus!
