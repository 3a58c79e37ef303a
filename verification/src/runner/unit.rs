use super::state::RunnerState;
use crate::base::ExitReason;
use vstd::prelude::*;

verus! {

/// One run of a [`RunnerUnit`]: the state it shows, which whoever supervises
/// it keeps up to date, and whether it has been told to stop.
#[derive(Clone, Copy, PartialEq, Eq, Debug)]
pub struct RunnerUnitRun {
    pub state: RunnerState,
    pub aborted: bool,
}

impl RunnerUnitRun {
    /// A run that has just been spawned.
    pub fn new() -> (run: Self)
        ensures
            run == (RunnerUnitRun { state: RunnerState::Started, aborted: false }),
    {
        RunnerUnitRun { state: RunnerState::Started, aborted: false }
    }

    /// How the run ended, for whoever waited for it. One that went away
    /// without ending is a failure.
    pub fn wait(&self) -> (reason: ExitReason)
        ensures
            reason == match super::state::finished_reason(self.state) {
                Ok(reason) => reason,
                Err(_) => ExitReason::Error(None),
            },
    {
        match ExitReason::try_from(self.state) {
            Ok(reason) => reason,
            Err(_) => ExitReason::Error(None),
        }
    }

    /// Tell the run to stop, and report whether that is news to it. It shows
    /// as being killed at once, whatever it showed before; one that has been
    /// told already is left as it is.
    pub fn abort(&mut self) -> (aborts: bool)
        ensures
            aborts == !old(self).aborted,
            *final(self) == if old(self).aborted {
                *old(self)
            } else {
                RunnerUnitRun { state: RunnerState::Killing, aborted: true }
            },
    {
        if self.aborted {
            return false;
        }
        self.aborted = true;
        self.state = RunnerState::Killing;
        true
    }
}

/// A thing that is run and run again: the current run, if there has been one.
#[derive(Clone, Copy, PartialEq, Eq, Debug)]
pub struct RunnerUnit {
    pub run: Option<RunnerUnitRun>,
}

impl RunnerUnit {
    /// A unit that has never been run.
    pub fn new() -> (unit: Self)
        ensures
            unit.run is None,
    {
        RunnerUnit { run: None }
    }

    /// Whether nothing is in flight: the unit has never been run, or its run
    /// has finished.
    pub open spec fn stopped(self) -> bool {
        match self.run {
            Some(run) => run.state.rank() == RunnerState::ExitSuccess.rank(),
            None => true,
        }
    }

    /// Whether starting the unit spawns a run: only where none is in flight.
    pub fn is_stopped(&self) -> (result: bool)
        ensures
            result == self.stopped(),
    {
        match &self.run {
            Some(run) => run.state.is_finished(),
            None => true,
        }
    }

    /// Start the unit, given what executing its description came to: a run is
    /// spawned unless one is in flight, which the execution has no part in. A
    /// failed execution is an error, and whatever run there was stays.
    pub fn start<E>(&mut self, executed: Result<(), E>) -> (result: Result<(), E>)
        ensures
            result == if old(self).stopped() {
                executed
            } else {
                Ok(())
            },
            final(self).run == if old(self).stopped() && executed is Ok {
                Some(RunnerUnitRun { state: RunnerState::Started, aborted: false })
            } else {
                old(self).run
            },
    {
        if self.is_stopped() {
            self.restart(executed)
        } else {
            Ok(())
        }
    }

    /// Abort the current run, if there is one, and report whether that is news
    /// to it.
    pub fn stop(&mut self) -> (aborts: bool)
        ensures
            aborts == match old(self).run {
                Some(run) => !run.aborted,
                None => false,
            },
            final(self).run == if aborts {
                Some(RunnerUnitRun { state: RunnerState::Killing, aborted: true })
            } else {
                old(self).run
            },
    {
        match self.run {
            Some(mut run) => {
                let aborts = run.abort();
                self.run = Some(run);
                aborts
            },
            None => false,
        }
    }

    /// Spawn a run in place of whatever run there was, given what executing
    /// the description came to. Where that failed it is the error, and
    /// whatever run there was stays.
    pub fn restart<E>(&mut self, executed: Result<(), E>) -> (result: Result<(), E>)
        ensures
            result == executed,
            final(self).run == if executed is Ok {
                Some(RunnerUnitRun { state: RunnerState::Started, aborted: false })
            } else {
                old(self).run
            },
    {
        match self.spawn(executed) {
            Ok(run) => {
                self.run = Some(run);
                assert(executed->Ok_0 == ());
                Ok(())
            },
            Err(error) => Err(error),
        }
    }

    /// A new run of the unit, which is not its current one, given what
    /// executing the description came to.
    pub fn spawn<E>(&self, executed: Result<(), E>) -> (run: Result<RunnerUnitRun, E>)
        ensures
            run == match executed {
                Ok(_) => Ok::<RunnerUnitRun, E>(
                    RunnerUnitRun { state: RunnerState::Started, aborted: false },
                ),
                Err(error) => Err(error),
            },
    {
        match executed {
            Ok(_) => Ok(RunnerUnitRun::new()),
            Err(error) => Err(error),
        }
    }

    /// State of the unit: of its current run, or stopped if there never was
    /// one.
    pub fn state(&self) -> (state: RunnerState)
        ensures
            state == match self.run {
                Some(run) => run.state,
                None => RunnerState::Stopped,
            },
    {
        match self.run {
            Some(run) => run.state,
            None => RunnerState::Stopped,
        }
    }
}

/// A unit is stopped where it has never been run or its run is over, however
/// that ended; and in no other state.
pub proof fn what_counts_as_stopped(unit: RunnerUnit)
    ensures
        unit.run is None ==> unit.stopped(),
        unit.run matches Some(run) ==> (unit.stopped() <==> run.state is ExitSuccess
            || run.state is ExitError || run.state is Killed),
{
}

} // verus!
