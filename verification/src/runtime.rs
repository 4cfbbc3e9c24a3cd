//! Thin access to the process environment: wall-clock time and CPU count.
//!
//! Nothing about these values can be pinned down — they depend on the machine
//! and the moment — so the callers state what holds of every outcome.

use vstd::prelude::*;

verus! {

/// Relies on `std::time::SystemTime::now` and `duration_since`: seconds since
/// the Unix epoch, or 0 if the system clock is before it.
#[verifier::external_body]
pub fn unix_timestamp() -> u64 {
    std::time::SystemTime::now()
        .duration_since(std::time::UNIX_EPOCH)
        .map(|d| d.as_secs())
        .unwrap_or(0)
}

/// Relies on `std::time::SystemTime::now` and `duration_since`: milliseconds
/// since the Unix epoch, or 0 if the system clock is before it.
#[verifier::external_body]
pub fn unix_timestamp_ms() -> u128 {
    std::time::SystemTime::now()
        .duration_since(std::time::UNIX_EPOCH)
        .map(|d| d.as_millis())
        .unwrap_or(0)
}

/// Relies on `num_cpus::get`: the number of logical CPUs available to this
/// process.
#[verifier::external_body]
pub(crate) fn logical_cpus() -> usize {
    num_cpus::get()
}

} // verus!
