//! Wall-clock access for stamping freshly parsed dumps.

use vstd::prelude::*;

verus! {

/// Relies on chrono::Utc::now and chrono::DateTime::timestamp_millis: the
/// current wall-clock time as milliseconds since the Unix epoch. Nothing is
/// assumed of the value.
#[verifier::external_body]
pub(crate) fn now_millis() -> i64 {
    chrono::Utc::now().timestamp_millis()
}

} // verus!
