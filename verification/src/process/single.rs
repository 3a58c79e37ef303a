use super::handle::ProcessHandle;
use super::state::{ProcessFault, ProcessState};
use crate::base::log::Log;
use crate::util::text;
use vstd::prelude::*;

verus! {

/// A command that is run and run again, and the history of what it wrote.
pub struct Process {
    command: Vec<String>,
    log: Log,
    handle: Option<ProcessHandle>,
}

/// A process: its command, and its run if it has one.
#[verifier::ext_equal]
pub struct ProcessView {
    pub command: Seq<Seq<char>>,
    pub run: Option<ProcessHandle>,
}

impl View for Process {
    type V = ProcessView;

    closed spec fn view(&self) -> ProcessView {
        ProcessView { command: text::texts(self.command@), run: self.handle }
    }
}

/// A run that was just asked for.
pub open spec fn asked_for() -> ProcessHandle {
    ProcessHandle { state: ProcessState::Started, told: false }
}

impl ProcessView {
    /// The process once a run has been asked for in place of whatever run it
    /// had. One with no program in its command is left as it is.
    pub open spec fn restarted(self) -> ProcessView {
        if self.command.len() == 0 {
            self
        } else {
            ProcessView { run: Some(asked_for()), ..self }
        }
    }

    /// Whether starting it asks for a run: it does unless one is in flight.
    pub open spec fn spawns(self) -> bool {
        match self.run {
            Some(run) => run.state.over(),
            None => true,
        }
    }

    /// Where the process is.
    pub open spec fn state(self) -> ProcessState {
        match self.run {
            Some(run) => run.state,
            None => ProcessState::Stopped,
        }
    }
}

impl Process {
    /// Whether its history is sound.
    pub closed spec fn wf(self) -> bool {
        self.log.wf()
    }

    /// The history of what it wrote.
    pub closed spec fn history(self) -> Log {
        self.log
    }

    /// A process that was never run, keeping at most `capacity` lines.
    pub fn new(capacity: usize, command: Vec<String>) -> (process: Self)
        requires
            capacity > 0,
        ensures
            process.wf(),
            process@ == (ProcessView { command: text::texts(command@), run: None }),
            process.history()@.written == Seq::<Seq<char>>::empty(),
            process.history()@.capacity == capacity,
    {
        Process { command, log: Log::new(capacity), handle: None }
    }

    /// The history of what it wrote.
    pub fn log(&self) -> (log: &Log)
        requires
            self.wf(),
        ensures
            *log == self.history(),
            log.wf(),
    {
        &self.log
    }

    /// Start it, unless a run is in flight. Reports whether a run was asked
    /// for.
    pub fn start(&mut self) -> (spawns: Result<bool, ProcessFault>)
        ensures
            old(self).wf() ==> final(self).wf(),
            final(self).history() == old(self).history(),
            spawns == if !old(self)@.spawns() {
                Ok(false)
            } else if old(self)@.command.len() == 0 {
                Err::<bool, ProcessFault>(ProcessFault::NoCommands)
            } else {
                Ok(true)
            },
            final(self)@ == if old(self)@.spawns() {
                old(self)@.restarted()
            } else {
                old(self)@
            },
    {
        match &self.handle {
            Some(handle) => {
                if !handle.state().is_finished() {
                    return Ok(false);
                }
            },
            None => {},
        }
        match self.restart() {
            Ok(()) => Ok(true),
            Err(fault) => Err(fault),
        }
    }

    /// Start it over, in place of whatever run it had.
    pub fn restart(&mut self) -> (spawned: Result<(), ProcessFault>)
        ensures
            old(self).wf() ==> final(self).wf(),
            final(self).history() == old(self).history(),
            spawned == if old(self)@.command.len() == 0 {
                Err::<(), ProcessFault>(ProcessFault::NoCommands)
            } else {
                Ok(())
            },
            final(self)@ == old(self)@.restarted(),
    {
        if self.command.len() == 0 {
            return Err(ProcessFault::NoCommands);
        }
        self.handle = Some(ProcessHandle::new());
        Ok(())
    }

    /// Where it is.
    pub fn state(&self) -> (state: ProcessState)
        ensures
            state == self@.state(),
    {
        match &self.handle {
            Some(handle) => handle.state(),
            None => ProcessState::Stopped,
        }
    }

    /// Stop it: let go of the run it has, if any, and hand it back to be told
    /// to end.
    pub fn stop(&mut self) -> (run: Option<ProcessHandle>)
        ensures
            old(self).wf() ==> final(self).wf(),
            final(self).history() == old(self).history(),
            run == old(self)@.run,
            final(self)@ == (ProcessView { run: None, ..old(self)@ }),
    {
        self.handle.take()
    }

    /// Note where its run got to. One that was stopped has no run to note it
    /// of.
    pub fn noted(&mut self, handle: ProcessHandle)
        ensures
            old(self).wf() ==> final(self).wf(),
            final(self).history() == old(self).history(),
            final(self)@ == (ProcessView {
                run: if old(self)@.run is Some {
                    Some(handle)
                } else {
                    None
                },
                ..old(self)@
            }),
    {
        if self.handle.is_some() {
            self.handle = Some(handle);
        }
    }
}

/// Starting a process twice over asks for one run: the second start leaves
/// alone what the first one set going.
pub proof fn starting_twice_is_starting_once(process: ProcessView)
    requires
        process.spawns(),
        process.command.len() > 0,
    ensures
        !process.restarted().spawns(),
{
}

/// A process with a program to run is given a run exactly where none is in
/// flight; asked to start over it is given one whatever it is doing; and one
/// with no program is left as it is.
pub proof fn a_process_is_run_where_none_is_in_flight(process: ProcessView)
    ensures
        process.run is None ==> process.spawns() && process.state() == ProcessState::Stopped,
        process.run matches Some(run) ==> process.state() == run.state && process.spawns() == (
        run.state is ExitSuccess || run.state is ExitError || run.state is Killed),
        process.command.len() > 0 ==> process.restarted().state() == ProcessState::Started
            && !process.restarted().run->0.told && process.restarted().command == process.command,
        process.command.len() == 0 ==> process.restarted() == process,
{
}

} // verus!
