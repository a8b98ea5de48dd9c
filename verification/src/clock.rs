//! The clock by which the age of a message is measured.

use vstd::prelude::*;

verus! {

/// Calls `time::precise_time_ns`, which reads a high-resolution counter in
/// nanoseconds since an unspecified epoch. Nothing is promised of the
/// reading.
#[verifier::external_body]
pub(crate) fn precise_time_ns() -> u64 {
    time::precise_time_ns()
}

} // verus!
