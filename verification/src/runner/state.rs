use crate::base::{ExitCode, ExitReason};
use vstd::prelude::*;

verus! {

/// Where a run currently is in its lifecycle.
///
/// The variants are ordered: each one is "later" than the one above it, and
/// the `set_*` methods below only ever move down that order. Everything from
/// [`ExitSuccess`](RunnerState::ExitSuccess) down is terminal.
#[derive(Clone, Copy, PartialEq, Eq, Debug, Structural)]
pub enum RunnerState {
    /// Nothing was ever started (the state a unit reports with no handle).
    Stopped,
    /// The handle exists but is parked at the start gate.
    Waiting,
    /// Released to run; the task may not have been scheduled yet.
    Started,
    /// The runner's `run` is in flight.
    Running,
    /// Aborted, waiting for the shutdown to complete.
    Killing,
    /// Finished on its own, successfully.
    ExitSuccess,
    /// Finished on its own, with a failure code.
    ExitError(Option<ExitCode>),
    /// Terminated by us.
    Killed(Option<ExitCode>),
}

impl RunnerState {
    /// How far on a run in this state is. Every terminal state is as far on as
    /// a run gets.
    pub open spec fn rank(self) -> int {
        match self {
            RunnerState::Stopped => 0,
            RunnerState::Waiting => 1,
            RunnerState::Started => 2,
            RunnerState::Running => 3,
            RunnerState::Killing => 4,
            RunnerState::ExitSuccess => 5,
            RunnerState::ExitError(_) => 5,
            RunnerState::Killed(_) => 5,
        }
    }

    /// The state a run in this one is in once it is told it has come to `to`:
    /// that one, unless it is further on already.
    pub open spec fn moved(self, to: RunnerState) -> RunnerState {
        if self.rank() < to.rank() {
            to
        } else {
            self
        }
    }

    /// Whether the start gate has opened, the runs that have since finished
    /// included — everything but [`Stopped`](RunnerState::Stopped) and
    /// [`Waiting`](RunnerState::Waiting).
    pub fn is_started(&self) -> (result: bool)
        ensures
            result == (self.rank() >= RunnerState::Started.rank()),
    {
        match *self {
            RunnerState::Stopped => false,
            RunnerState::Waiting => false,
            _ => true,
        }
    }

    /// Whether the run finished on its own, which is what whatever depends on
    /// it waits for: one that was terminated has not got there.
    pub fn has_exited(&self) -> (result: bool)
        ensures
            result == (*self is ExitSuccess || *self is ExitError),
    {
        match *self {
            RunnerState::ExitSuccess => true,
            RunnerState::ExitError(_) => true,
            _ => false,
        }
    }

    /// Whether the run reached a terminal state.
    pub fn is_finished(&self) -> (result: bool)
        ensures
            result == (self.rank() == RunnerState::ExitSuccess.rank()),
    {
        match *self {
            RunnerState::ExitSuccess => true,
            RunnerState::ExitError(_) => true,
            RunnerState::Killed(_) => true,
            _ => false,
        }
    }

    /// Whether nothing is running — terminal, or never started at all.
    pub fn is_stopped(&self) -> (result: bool)
        ensures
            result == (*self == RunnerState::Stopped || self.rank()
                == RunnerState::ExitSuccess.rank()),
    {
        match *self {
            RunnerState::Stopped => true,
            RunnerState::ExitSuccess => true,
            RunnerState::ExitError(_) => true,
            RunnerState::Killed(_) => true,
            _ => false,
        }
    }

    /// Move to [`Started`](RunnerState::Started), unless the run is further
    /// on already.
    ///
    /// The three `set_*` methods are the whole of the forward-only rule: each
    /// names the states it may leave and returns the rest untouched, so a
    /// report that arrives late is dropped instead of rewinding the run.
    pub fn set_started(&mut self)
        ensures
            *final(self) == old(self).moved(RunnerState::Started),
    {
        match *self {
            RunnerState::Stopped => {
                *self = RunnerState::Started;
            },
            RunnerState::Waiting => {
                *self = RunnerState::Started;
            },
            _ => {},
        }
    }

    /// Move to [`Running`](RunnerState::Running), unless the run is further
    /// on already.
    pub fn set_running(&mut self)
        ensures
            *final(self) == old(self).moved(RunnerState::Running),
    {
        match *self {
            RunnerState::Stopped => {
                *self = RunnerState::Running;
            },
            RunnerState::Waiting => {
                *self = RunnerState::Running;
            },
            RunnerState::Started => {
                *self = RunnerState::Running;
            },
            _ => {},
        }
    }

    /// Move to [`Killing`](RunnerState::Killing), unless the run has already
    /// finished — how it finished outranks the abort that came too late.
    pub fn set_killing(&mut self)
        ensures
            *final(self) == old(self).moved(RunnerState::Killing),
    {
        match *self {
            RunnerState::Stopped => {
                *self = RunnerState::Killing;
            },
            RunnerState::Waiting => {
                *self = RunnerState::Killing;
            },
            RunnerState::Started => {
                *self = RunnerState::Killing;
            },
            RunnerState::Running => {
                *self = RunnerState::Killing;
            },
            _ => {},
        }
    }
}

/// The terminal state matching how a process finished.
pub open spec fn finished_state(reason: ExitReason) -> RunnerState {
    match reason {
        ExitReason::Success => RunnerState::ExitSuccess,
        ExitReason::Error(code) => RunnerState::ExitError(code),
        ExitReason::Killed(code) => RunnerState::Killed(code),
    }
}

/// How a run in a terminal state finished, or the state itself when it is not
/// a terminal one.
pub open spec fn finished_reason(state: RunnerState) -> Result<ExitReason, RunnerState> {
    match state {
        RunnerState::ExitSuccess => Ok(ExitReason::Success),
        RunnerState::ExitError(code) => Ok(ExitReason::Error(code)),
        RunnerState::Killed(code) => Ok(ExitReason::Killed(code)),
        state => Err(state),
    }
}

impl vstd::std_specs::convert::FromSpecImpl<ExitReason> for RunnerState {
    open spec fn obeys_from_spec() -> bool {
        true
    }

    open spec fn from_spec(value: ExitReason) -> RunnerState {
        finished_state(value)
    }
}

impl From<ExitReason> for RunnerState {
    /// Lift a finished process into the matching terminal state.
    fn from(value: ExitReason) -> (state: RunnerState) {
        match value {
            ExitReason::Success => RunnerState::ExitSuccess,
            ExitReason::Error(code) => RunnerState::ExitError(code),
            ExitReason::Killed(code) => RunnerState::Killed(code),
        }
    }
}

impl vstd::std_specs::convert::TryFromSpecImpl<RunnerState> for ExitReason {
    open spec fn obeys_try_from_spec() -> bool {
        true
    }

    open spec fn try_from_spec(value: RunnerState) -> Result<ExitReason, RunnerState> {
        finished_reason(value)
    }
}

impl TryFrom<RunnerState> for ExitReason {
    /// The state itself, when it was not a terminal one.
    type Error = RunnerState;

    fn try_from(value: RunnerState) -> (reason: Result<ExitReason, RunnerState>) {
        match value {
            RunnerState::ExitSuccess => Ok(ExitReason::Success),
            RunnerState::ExitError(code) => Ok(ExitReason::Error(code)),
            RunnerState::Killed(code) => Ok(ExitReason::Killed(code)),
            state => Err(state),
        }
    }
}

/// A finished process and its terminal state say the same thing: going to the
/// state and back gives the reason back, and a state gives a reason exactly
/// when it is terminal.
pub proof fn a_finish_survives_the_round_trip(reason: ExitReason, state: RunnerState)
    ensures
        finished_reason(finished_state(reason)) == Ok::<ExitReason, RunnerState>(reason),
        finished_reason(state) is Ok <==> state.rank() == RunnerState::ExitSuccess.rank(),
        finished_reason(state) matches Ok(reason) ==> finished_state(reason) == state,
        finished_reason(state) matches Err(same) ==> same == state,
{
}

/// A run never rewinds: whatever it is told it has come to, it is no less far
/// on afterwards, and one that has finished stays as it finished.
pub proof fn a_run_never_rewinds(state: RunnerState, to: RunnerState)
    ensures
        state.moved(to).rank() >= state.rank(),
        state.moved(to).rank() >= to.rank(),
        state.rank() == RunnerState::ExitSuccess.rank() ==> state.moved(to) == state,
        state.moved(to).moved(to) == state.moved(to),
{
}

/// Which states are over, which have begun, and which are neither: a run is
/// over once it has exited or been terminated, and has begun once its gate has
/// opened.
pub proof fn how_far_on_each_state_is(state: RunnerState)
    ensures
        state.rank() == RunnerState::ExitSuccess.rank() <==> (state is ExitSuccess
            || state is ExitError || state is Killed),
        state.rank() >= RunnerState::Started.rank() <==> !(state is Stopped || state is Waiting),
        RunnerState::Stopped.rank() < RunnerState::Waiting.rank() < RunnerState::Started.rank()
            < RunnerState::Running.rank() < RunnerState::Killing.rank()
            < RunnerState::ExitSuccess.rank(),
{
}

/// What a report moves a run to: exactly what it says, from each state that is
/// earlier, and nowhere from the rest.
pub proof fn a_report_moves_only_what_is_behind_it(state: RunnerState)
    ensures
        state.moved(RunnerState::Started) == if state is Stopped || state is Waiting {
            RunnerState::Started
        } else {
            state
        },
        state.moved(RunnerState::Running) == if state is Stopped || state is Waiting
            || state is Started {
            RunnerState::Running
        } else {
            state
        },
        state.moved(RunnerState::Killing) == if state is Stopped || state is Waiting
            || state is Started || state is Running {
            RunnerState::Killing
        } else {
            state
        },
{
}

/// A process that ended well is shown as one that did, one that failed by
/// itself as failed, and one that was terminated as terminated, each with the
/// code it ended with.
pub proof fn a_finish_is_shown_as_what_it_was(reason: ExitReason)
    ensures
        reason is Success <==> finished_state(reason) is ExitSuccess,
        reason is Error <==> finished_state(reason) is ExitError,
        reason is Killed <==> finished_state(reason) is Killed,
        reason matches ExitReason::Error(code) ==> finished_state(reason)
            == RunnerState::ExitError(code),
        reason matches ExitReason::Killed(code) ==> finished_state(reason) == RunnerState::Killed(
            code,
        ),
{
}

} // verus!
