//! Single-instance guard: the decision of whether this process may start.
//!
//! The process scans the host for running instances of this same program
//! (itself included) and steps aside silently when another one is live. The
//! scan itself is process I/O and happens outside the library; the decision
//! over the resulting count is made here.

use vstd::prelude::*;

verus! {

/// Decides whether the process may start, given how many running instances of
/// this program the host scan found (the caller's own process included).
///
/// `true` means this is the only live instance and the pipeline may run;
/// `false` means another instance is already running and the process must
/// exit immediately with success, having done no work.
pub fn guard_allows_start(instance_count: usize) -> (allowed: bool)
    ensures
        allowed <==> instance_count <= 1,
{
    instance_count <= 1
}

} // verus!
