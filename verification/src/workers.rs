//! How many workers to run.

use vstd::prelude::*;

verus! {

/// Calls `num_cpus::get`, which reports the number of logical processors
/// that this process may use. The number depends on the machine and on the
/// limits set for the process, so nothing is claimed of it here.
#[verifier::external_body]
fn logical_cpus() -> (count: usize) {
    num_cpus::get()
}

/// The number of workers for a machine that reports `reported` processors:
/// one for each, but at least one and no more than `u32::MAX`.
pub open spec fn clamped(reported: int) -> int {
    if reported < 1 {
        1
    } else if reported > u32::MAX {
        u32::MAX as int
    } else {
        reported
    }
}

/// The number of workers for a machine that reports `reported` processors.
pub fn pool_size(reported: usize) -> (workers: u32)
    ensures
        workers == clamped(reported as int),
{
    if reported < 1 {
        1
    } else if reported > u32::MAX as usize {
        u32::MAX
    } else {
        reported as u32
    }
}

/// The number of workers to run on this machine: one for each logical
/// processor, and never none.
pub fn host_workers() -> (workers: u32)
    ensures
        workers >= 1,
{
    pool_size(logical_cpus())
}

} // verus!
