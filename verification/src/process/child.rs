use super::state::ProcessFault;
use vstd::prelude::*;

verus! {

/// Whether there is a child, and whether it was spawned.
#[derive(Clone, Copy, PartialEq, Eq, Debug, Structural)]
pub enum ProcessChild {
    /// There is nothing to spawn.
    Empty,
    /// There is a command to spawn.
    Setup,
    /// The child is up.
    Running,
}

impl ProcessChild {
    /// A child that is yet to be spawned.
    pub fn new() -> (child: Self)
        ensures
            child == ProcessChild::Setup,
    {
        ProcessChild::Setup
    }

    /// Try to start the child. Reports whether it is to be spawned: one with
    /// nothing to spawn cannot be. One that is up already is not spawned
    /// again; it is let go of, and there is nothing left to wait for.
    pub fn start(&mut self) -> (spawns: Result<bool, ProcessFault>)
        ensures
            spawns == match *old(self) {
                ProcessChild::Empty => Err::<bool, ProcessFault>(ProcessFault::Empty),
                ProcessChild::Setup => Ok(true),
                ProcessChild::Running => Ok(false),
            },
            *final(self) == match *old(self) {
                ProcessChild::Setup => ProcessChild::Running,
                _ => ProcessChild::Empty,
            },
    {
        match *self {
            ProcessChild::Empty => Err(ProcessFault::Empty),
            ProcessChild::Running => {
                *self = ProcessChild::Empty;
                Ok(false)
            },
            ProcessChild::Setup => {
                *self = ProcessChild::Running;
                Ok(true)
            },
        }
    }

    /// Whether there is a child to wait for.
    pub fn wait(&self) -> (waits: Result<(), ProcessFault>)
        ensures
            waits == match *self {
                ProcessChild::Running => Ok::<(), ProcessFault>(()),
                _ => Err(ProcessFault::NotRunning),
            },
    {
        match *self {
            ProcessChild::Running => Ok(()),
            _ => Err(ProcessFault::NotRunning),
        }
    }

    /// Whether there is a child to kill. Killing one that is not up is done
    /// already.
    pub fn kill(&self) -> (kills: bool)
        ensures
            kills == (*self == ProcessChild::Running),
    {
        matches!(*self, ProcessChild::Running)
    }
}

} // verus!
