//! The clock that bounds a search.

use vstd::prelude::*;

verus! {

/// The time a search may take, in nanoseconds: three and a half seconds.
pub const SEARCH_BUDGET_NS: u64 = 3_500_000_000;

/// Calls `time::precise_time_ns`: the reading of a high-resolution counter in
/// nanoseconds since some moment that is not specified. Nothing is promised
/// of two readings.
#[verifier::external_body]
pub(crate) fn monotonic_ns() -> u64 {
    time::precise_time_ns()
}

/// Whether a search that started at the reading `start_ns` may go on at the
/// reading `now_ns`: as long as less than `budget_ns` nanoseconds have gone
/// by. A reading that lies before the start counts as no time gone by.
pub fn within_budget(start_ns: u64, now_ns: u64, budget_ns: u64) -> (go_on: bool)
    ensures
        go_on == (now_ns - start_ns < budget_ns),
{
    now_ns < start_ns || now_ns - start_ns < budget_ns
}

} // verus!
