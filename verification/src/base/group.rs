//! Signalling and waiting on a child's process group.
//!
//! Asking the system is somebody else's business; what to do with the answer
//! is decided here.

use vstd::prelude::*;

verus! {

/// The shortest wait between two liveness checks, in milliseconds.
///
/// The common case is a group that empties as soon as the leader does, and
/// one short wait catches it; a group that is going to sit out the whole timer
/// is not worth checking hundreds of times, so the wait grows into it.
pub const POLL_MIN: u64 = 20;

/// The longest wait between two liveness checks, in milliseconds.
pub const POLL_MAX: u64 = 400;

/// Whether there is a group to signal: one that was ever made, and that still
/// has somebody in it.
///
/// The liveness test is not politeness: once the group empties, its number is
/// the kernel's to hand to somebody else, and a later signal reaches whoever
/// got it.
pub fn is_signalled(pid: Option<u32>, alive: bool) -> (result: bool)
    ensures
        result == (pid is Some && alive),
{
    match pid {
        Some(_) => alive,
        None => false,
    }
}

/// Whether a group is alive, from what probing it with no signal came to: it
/// is gone only if there is no such group. A member that may not be signalled
/// still counts as alive.
pub fn is_alive(probed: bool, no_such_group: bool) -> (result: bool)
    ensures
        result == (probed || !no_such_group),
{
    probed || !no_such_group
}

/// What a wait for a group to empty does next.
#[derive(Clone, Copy, PartialEq, Eq, Debug, Structural)]
pub enum GroupWaitStep {
    /// Stop: the group holds nothing.
    Gone,
    /// Stop: the deadline passed with somebody still in it.
    TimedOut,
    /// Look again after this many milliseconds.
    Sleep(u64),
}

/// A wait until a group holds nothing, or a deadline passes.
///
/// Polled rather than waited on: only our own children can be waited for, and
/// the processes that matter here are the grandchildren. The leader must
/// already be reaped — a zombie is still a member.
pub struct GroupWait {
    delay: u64,
}

impl GroupWait {
    /// How long the next wait is, if nothing cuts it short.
    pub closed spec fn delay(&self) -> u64 {
        self.delay
    }

    /// Whether the wait is within its bounds.
    pub open spec fn wf(&self) -> bool {
        POLL_MIN <= self.delay() <= POLL_MAX
    }

    /// A wait about to look for the first time.
    pub fn new() -> (wait: Self)
        ensures
            wait.wf(),
            wait.delay() == POLL_MIN,
    {
        GroupWait { delay: POLL_MIN }
    }

    /// What to do, with the group `alive` or not at `now`, in milliseconds of
    /// whatever clock the deadline is on. A group that was never made is gone.
    ///
    /// Each wait is twice the one before, up to [`POLL_MAX`], and clamped so a
    /// long one cannot overshoot the escalation.
    pub fn step(
        &mut self,
        pid: Option<u32>,
        alive: bool,
        now: u64,
        deadline: u64,
    ) -> (step: GroupWaitStep)
        requires
            old(self).wf(),
        ensures
            final(self).wf(),
            step == if pid is None || !alive {
                GroupWaitStep::Gone
            } else if now >= deadline {
                GroupWaitStep::TimedOut
            } else if old(self).delay() <= deadline - now {
                GroupWaitStep::Sleep(old(self).delay())
            } else {
                GroupWaitStep::Sleep((deadline - now) as u64)
            },
            final(self).delay() == if step is Sleep {
                if old(self).delay() * 2 <= POLL_MAX {
                    (old(self).delay() * 2) as u64
                } else {
                    POLL_MAX
                }
            } else {
                old(self).delay()
            },
            step matches GroupWaitStep::Sleep(time) ==> 0 < time && now + time <= deadline,
    {
        if pid.is_none() || !alive {
            return GroupWaitStep::Gone;
        }
        if now >= deadline {
            return GroupWaitStep::TimedOut;
        }
        let left = deadline - now;
        let time = if self.delay <= left {
            self.delay
        } else {
            left
        };
        let doubled = self.delay * 2;
        self.delay = if doubled <= POLL_MAX {
            doubled
        } else {
            POLL_MAX
        };
        GroupWaitStep::Sleep(time)
    }
}

/// End a group politely, where there are no groups: there is nothing to
/// signal, and the caller falls back to the leader alone.
pub fn terminate(_pid: Option<u32>) -> (signalled: bool)
    ensures
        !signalled,
{
    false
}

/// End a group by force, where there are no groups: there is nothing to
/// signal.
pub fn kill(_pid: Option<u32>) -> (signalled: bool)
    ensures
        !signalled,
{
    false
}

/// Whether a group is alive, where there are no groups: none is.
pub fn alive(_pid: u32) -> (result: bool)
    ensures
        !result,
{
    false
}

/// Wait for a group, where there are no groups. What this answers is "the
/// group is gone", and one that was never signalled into is gone — anything
/// else would hold a graceful shutdown open waiting on something that does not
/// exist.
pub fn wait(_pid: Option<u32>) -> (gone: bool)
    ensures
        gone,
{
    true
}

} // verus!
