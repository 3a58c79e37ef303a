use crate::util::text;
use vstd::prelude::*;
use vstd::string::*;

verus! {

/// Where a process is.
#[derive(Clone, Copy, PartialEq, Eq, Debug, Structural)]
pub enum ProcessState {
    /// It was never run, or has been stopped.
    Stopped,
    /// A run was asked for.
    Started,
    /// Its child is up.
    Running,
    /// It ended by itself, successfully.
    ExitSuccess,
    /// It ended by itself, otherwise.
    ExitError,
    /// It is being ended.
    Killing,
    /// It was ended.
    Killed,
}

impl ProcessState {
    /// Whether the run is over.
    pub open spec fn over(self) -> bool {
        self is ExitSuccess || self is ExitError || self is Killed
    }

    /// Whether the run is over.
    pub fn is_finished(&self) -> (finished: bool)
        ensures
            finished == self.over(),
    {
        matches!(
            *self,
            ProcessState::ExitSuccess | ProcessState::ExitError | ProcessState::Killed
        )
    }
}

/// Why something could not be done to a process.
#[derive(PartialEq, Eq, Debug)]
pub enum ProcessFault {
    /// There is nothing to start.
    Empty,
    /// There is no child to wait for.
    NotRunning,
    /// The command has no program in it.
    NoCommands,
    /// No process has this name.
    Invalid(String),
}

impl ProcessFault {
    /// What there is to say about it.
    pub open spec fn says(self) -> Seq<char> {
        match self {
            ProcessFault::Empty => "Empty"@,
            ProcessFault::NotRunning => "Child is not running"@,
            ProcessFault::NoCommands => "No commands"@,
            ProcessFault::Invalid(key) => "Invalid process "@ + key@,
        }
    }

    /// What there is to say about it.
    pub fn message(&self) -> (message: String)
        ensures
            message@ == self.says(),
    {
        match self {
            ProcessFault::Empty => text::owned("Empty"),
            ProcessFault::NotRunning => text::owned("Child is not running"),
            ProcessFault::NoCommands => text::owned("No commands"),
            ProcessFault::Invalid(key) => text::owned("Invalid process ").concat(key.as_str()),
        }
    }
}

/// A run that was started and has not ended is not over, and any that ended
/// is.
pub proof fn only_an_end_is_over(state: ProcessState)
    ensures
        state.over() <==> !(state is Stopped || state is Started || state is Running
            || state is Killing),
{
}

} // verus!
