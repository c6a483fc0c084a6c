//! The wall clock, as nanoseconds since the Unix epoch.

use vstd::prelude::*;

verus! {

/// Reads the current UTC time with `time::OffsetDateTime::now_utc` and turns
/// it into nanoseconds since the Unix epoch with
/// `OffsetDateTime::unix_timestamp_nanos`.
///
/// Nothing is claimed of the value: it depends on the machine's clock.
#[verifier::external_body]
pub(crate) fn now_utc_nanos() -> (now: i128) {
    time::OffsetDateTime::now_utc().unix_timestamp_nanos()
}

} // verus!
