use crate::base::ExitReason;
use vstd::prelude::*;

verus! {

/// What a sequence of runners does when one of them does not succeed.
///
/// An enum and not a `bool` because it will not stay at two: retrying a
/// failed step, tolerating a specific exit code, telling a killed run from a
/// failed one — each is a variant here rather than a second boolean at every
/// call site.
#[derive(Debug, Clone, Copy, PartialEq, Eq, Structural)]
pub enum RunnerPolicy {
    /// Stop at the first runner that does not succeed, and leave the rest
    /// unrun. The `&&` of a shell, and the default, because a step that runs
    /// against the output of a step that failed is usually worse than a step
    /// that does not run.
    Abort,
    /// Run every one regardless. The `;` of a shell.
    ///
    /// The sequence still *reports* the failure, so this means "run them all
    /// anyway", not "pretend it went fine".
    Continue,
}

impl Default for RunnerPolicy {
    fn default() -> (policy: Self)
        ensures
            policy == RunnerPolicy::Abort,
    {
        RunnerPolicy::Abort
    }
}

impl RunnerPolicy {
    /// Whether `reason` should end the sequence it came from.
    ///
    /// Success never does. A killed run currently weighs the same as a failed
    /// one; this match is where they would part ways.
    pub fn is_abort(&self, reason: ExitReason) -> (result: bool)
        ensures
            result == (!(reason is Success) && *self == RunnerPolicy::Abort),
    {
        match reason {
            ExitReason::Success => false,
            _ => match *self {
                RunnerPolicy::Abort => true,
                RunnerPolicy::Continue => false,
            },
        }
    }
}

} // verus!
