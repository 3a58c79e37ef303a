use super::state::ProcessState;
use vstd::prelude::*;

verus! {

/// One run of a process: where it is, and whether it has been told to end.
#[derive(Clone, Copy, PartialEq, Eq, Debug, Structural)]
pub struct ProcessHandle {
    /// Where the run is.
    pub state: ProcessState,
    /// Whether it has been told to end.
    pub told: bool,
}

/// What became of a child that was waited for; `None` is one that could not
/// be.
pub open spec fn exited(result: Option<ProcessState>) -> ProcessState {
    match result {
        Some(state) => state,
        None => ProcessState::ExitError,
    }
}

/// What became of a child that was shut down; `None` is one that could not
/// be.
pub open spec fn shut_down(result: Option<ProcessState>) -> ProcessState {
    match result {
        Some(state) => state,
        None => ProcessState::Killed,
    }
}

impl ProcessHandle {
    /// A run that was just asked for.
    pub fn new() -> (handle: Self)
        ensures
            handle == (ProcessHandle { state: ProcessState::Started, told: false }),
    {
        ProcessHandle { state: ProcessState::Started, told: false }
    }

    /// Where the run is.
    pub fn state(&self) -> (state: ProcessState)
        ensures
            state == self.state,
    {
        self.state
    }

    /// Tell the run to end. Reports whether it had not been told before.
    pub fn abort(&mut self) -> (first: bool)
        ensures
            first == !old(self).told,
            *final(self) == (ProcessHandle { told: true, ..*old(self) }),
    {
        let first = !self.told;
        self.told = true;
        first
    }

    /// Its child was spawned, or could not be.
    pub fn spawned(&mut self)
        ensures
            *final(self) == (ProcessHandle { state: ProcessState::Running, ..*old(self) }),
    {
        self.state = ProcessState::Running;
    }

    /// Its child ended by itself.
    pub fn exited(&mut self, result: Option<ProcessState>)
        ensures
            *final(self) == (ProcessHandle { state: exited(result), ..*old(self) }),
    {
        self.state = match result {
            Some(state) => state,
            None => ProcessState::ExitError,
        };
    }

    /// It has heard that it is to end.
    pub fn aborted(&mut self)
        ensures
            *final(self) == (ProcessHandle { state: ProcessState::Killing, ..*old(self) }),
    {
        self.state = ProcessState::Killing;
    }

    /// Its child was shut down.
    pub fn shut_down(&mut self, result: Option<ProcessState>)
        ensures
            *final(self) == (ProcessHandle { state: shut_down(result), ..*old(self) }),
    {
        self.state = match result {
            Some(state) => state,
            None => ProcessState::Killed,
        };
    }
}

/// A run ends as its child was seen to end, a failed wait being a failure and
/// a failed shutdown a kill.
pub proof fn a_run_ends_as_its_child_did(result: Option<ProcessState>)
    ensures
        result matches Some(state) ==> exited(result) == state && shut_down(result) == state,
        result is None ==> exited(result) == ProcessState::ExitError && shut_down(result)
            == ProcessState::Killed,
{
}

} // verus!
