use super::state;
use super::state::RunnerState;
use crate::base::ExitReason;
use vstd::prelude::*;

verus! {

/// What the supervising of a run is doing.
#[derive(Clone, Copy, PartialEq, Eq, Debug, Structural)]
pub enum RunnerPhase {
    /// Parked at the start gate.
    Gate,
    /// Running the runner, and listening for an abort.
    Run,
    /// Shutting the runner down.
    Shutdown,
    /// Over.
    Over,
}

/// A supervised run: what the supervising is doing, and the state it shows.
#[verifier::ext_equal]
pub struct RunnerHandleView {
    pub phase: RunnerPhase,
    pub state: RunnerState,
}

impl RunnerHandleView {
    /// What holds of every run: the state is as far on as what is being done.
    pub open spec fn wf(self) -> bool {
        match self.phase {
            RunnerPhase::Gate => self.state == RunnerState::Waiting,
            RunnerPhase::Run => self.state == RunnerState::Started || self.state
                == RunnerState::Running,
            RunnerPhase::Shutdown => self.state == RunnerState::Killing,
            RunnerPhase::Over => self.state.rank() == RunnerState::ExitSuccess.rank(),
        }
    }

    /// The run once its gate has opened. One that was aborted before it is
    /// over without ever running.
    pub open spec fn released(self, aborted: bool) -> RunnerHandleView {
        if self.phase != RunnerPhase::Gate {
            self
        } else if aborted {
            RunnerHandleView { phase: RunnerPhase::Over, state: RunnerState::Killed(None) }
        } else {
            RunnerHandleView {
                phase: RunnerPhase::Run,
                state: self.state.moved(RunnerState::Started),
            }
        }
    }

    /// The run once its runner says it is up. A report that arrives late is
    /// dropped.
    pub open spec fn running(self) -> RunnerHandleView {
        RunnerHandleView { state: self.state.moved(RunnerState::Running), ..self }
    }

    /// The run once its runner has ended; `None` is one that could not be run.
    pub open spec fn ended(self, result: Option<ExitReason>) -> RunnerHandleView {
        if self.phase != RunnerPhase::Run {
            self
        } else {
            RunnerHandleView {
                phase: RunnerPhase::Over,
                state: match result {
                    Some(reason) => state::finished_state(reason),
                    None => RunnerState::ExitError(None),
                },
            }
        }
    }

    /// The run once it has been aborted while running.
    pub open spec fn aborted(self) -> RunnerHandleView {
        if self.phase != RunnerPhase::Run {
            self
        } else {
            RunnerHandleView {
                phase: RunnerPhase::Shutdown,
                state: self.state.moved(RunnerState::Killing),
            }
        }
    }

    /// The run once its shutdown has ended; `None` is one that went wrong.
    pub open spec fn shut_down(self, result: Option<ExitReason>) -> RunnerHandleView {
        if self.phase != RunnerPhase::Shutdown {
            self
        } else {
            RunnerHandleView {
                phase: RunnerPhase::Over,
                state: match result {
                    Some(reason) => state::finished_state(reason),
                    None => RunnerState::Killed(None),
                },
            }
        }
    }
}

/// One run, supervised.
///
/// The runner is held at a gate until it is released. That is what makes an
/// orderly restart possible: the replacement can exist, and be observed,
/// before the outgoing run has finished dying.
///
/// A handle covers exactly one run: once terminal it stays terminal, and
/// restarting means a new handle.
///
/// ```text
///          new()                start()            run()
///  ────> Waiting ──────────────> Started ─────────> Running ──┬──> ExitSuccess / ExitError
///           │                       │                         │
///           └────── abort() ────────┴───> Killing ────────────┴──> Killed
/// ```
///
/// Aborting before the start gate opens is honoured: the run finishes as
/// `Killed` without ever running.
pub struct RunnerHandle {
    phase: RunnerPhase,
    state: RunnerState,
}

impl View for RunnerHandle {
    type V = RunnerHandleView;

    closed spec fn view(&self) -> RunnerHandleView {
        RunnerHandleView { phase: self.phase, state: self.state }
    }
}

impl RunnerHandle {
    /// A handle parked at the start gate.
    pub fn new() -> (handle: Self)
        ensures
            handle@.wf(),
            handle@ == (RunnerHandleView {
                phase: RunnerPhase::Gate,
                state: RunnerState::Waiting,
            }),
    {
        RunnerHandle { phase: RunnerPhase::Gate, state: RunnerState::Waiting }
    }

    /// State of the run.
    pub fn state(&self) -> (state: RunnerState)
        ensures
            state == self@.state,
    {
        self.state
    }

    /// What the supervising is doing.
    pub fn phase(&self) -> (phase: RunnerPhase)
        ensures
            phase == self@.phase,
    {
        self.phase
    }

    /// The start gate has opened, `aborted` or not by then. Reports whether
    /// the runner is to be run.
    pub fn released(&mut self, aborted: bool) -> (runs: bool)
        requires
            old(self)@.wf(),
        ensures
            final(self)@.wf(),
            final(self)@ == old(self)@.released(aborted),
            runs == (old(self)@.phase == RunnerPhase::Gate && !aborted),
    {
        match self.phase {
            RunnerPhase::Gate => {
                self.state.set_started();
                if aborted {
                    self.state = RunnerState::Killed(None);
                    self.phase = RunnerPhase::Over;
                    return false;
                }
                self.phase = RunnerPhase::Run;
                true
            },
            _ => false,
        }
    }

    /// The runner says it is up.
    pub fn running(&mut self)
        requires
            old(self)@.wf(),
            old(self)@.phase != RunnerPhase::Gate,
        ensures
            final(self)@.wf(),
            final(self)@ == old(self)@.running(),
    {
        self.state.set_running();
    }

    /// The runner ended by itself; `None` is one that could not be run.
    pub fn ended(&mut self, result: Option<ExitReason>)
        requires
            old(self)@.wf(),
        ensures
            final(self)@.wf(),
            final(self)@ == old(self)@.ended(result),
    {
        match self.phase {
            RunnerPhase::Run => {
                self.state = match result {
                    Some(reason) => RunnerState::from(reason),
                    None => RunnerState::ExitError(None),
                };
                self.phase = RunnerPhase::Over;
            },
            _ => {},
        }
    }

    /// The run was aborted. Reports whether the runner is to be shut down.
    pub fn aborted(&mut self) -> (shuts_down: bool)
        requires
            old(self)@.wf(),
        ensures
            final(self)@.wf(),
            final(self)@ == old(self)@.aborted(),
            shuts_down == (old(self)@.phase == RunnerPhase::Run),
    {
        match self.phase {
            RunnerPhase::Run => {
                self.state.set_killing();
                self.phase = RunnerPhase::Shutdown;
                true
            },
            _ => false,
        }
    }

    /// The shutdown ended; `None` is one that went wrong.
    pub fn shut_down(&mut self, result: Option<ExitReason>)
        requires
            old(self)@.wf(),
        ensures
            final(self)@.wf(),
            final(self)@ == old(self)@.shut_down(result),
    {
        match self.phase {
            RunnerPhase::Shutdown => {
                self.state = match result {
                    Some(reason) => RunnerState::from(reason),
                    None => RunnerState::Killed(None),
                };
                self.phase = RunnerPhase::Over;
            },
            _ => {},
        }
    }
}

/// A run only ever moves forward, whatever happens to it, and once terminal it
/// stays as it is.
pub proof fn a_supervised_run_only_moves_forward(
    run: RunnerHandleView,
    abort: bool,
    result: Option<ExitReason>,
)
    requires
        run.wf(),
    ensures
        run.released(abort).state.rank() >= run.state.rank(),
        run.running().state.rank() >= run.state.rank(),
        run.ended(result).state.rank() >= run.state.rank(),
        run.aborted().state.rank() >= run.state.rank(),
        run.shut_down(result).state.rank() >= run.state.rank(),
        run.phase == RunnerPhase::Over ==> {
            &&& run.released(abort) == run
            &&& run.running() == run
            &&& run.ended(result) == run
            &&& run.aborted() == run
            &&& run.shut_down(result) == run
        },
{
}

/// Aborting before the start gate opens ends the run without ever running it.
pub proof fn an_abort_at_the_gate_never_runs(run: RunnerHandleView)
    requires
        run.wf(),
        run.phase == RunnerPhase::Gate,
    ensures
        run.released(true) == (RunnerHandleView {
            phase: RunnerPhase::Over,
            state: RunnerState::Killed(None),
        }),
{
}

/// What becomes of a run: it is started once its gate opens unless it was
/// aborted by then, it is running once its runner says so, it ends as its
/// runner ended, and aborted it is being killed until its shutdown has ended
/// it. What comes at the wrong time changes nothing.
pub proof fn what_becomes_of_a_run(run: RunnerHandleView, result: Option<ExitReason>)
    requires
        run.wf(),
    ensures
        run.phase == RunnerPhase::Gate ==> run.released(false) == (RunnerHandleView {
            phase: RunnerPhase::Run,
            state: RunnerState::Started,
        }),
        run.phase != RunnerPhase::Gate ==> run.released(false) == run && run.released(true) == run,
        run.phase == RunnerPhase::Run ==> run.running() == (RunnerHandleView {
            phase: RunnerPhase::Run,
            state: RunnerState::Running,
        }),
        run.phase == RunnerPhase::Shutdown || run.phase == RunnerPhase::Over ==> run.running()
            == run,
        run.phase == RunnerPhase::Run ==> {
            let ended = run.ended(result);
            &&& ended.phase == RunnerPhase::Over
            &&& result is None ==> ended.state == RunnerState::ExitError(None)
            &&& result == Some(ExitReason::Success) ==> ended.state == RunnerState::ExitSuccess
            &&& result matches Some(ExitReason::Error(code)) ==> ended.state
                == RunnerState::ExitError(code)
            &&& result matches Some(ExitReason::Killed(code)) ==> ended.state
                == RunnerState::Killed(code)
        },
        run.phase != RunnerPhase::Run ==> run.ended(result) == run && run.aborted() == run,
        run.phase == RunnerPhase::Run ==> run.aborted() == (RunnerHandleView {
            phase: RunnerPhase::Shutdown,
            state: RunnerState::Killing,
        }),
        run.phase == RunnerPhase::Shutdown ==> {
            let ended = run.shut_down(result);
            &&& ended.phase == RunnerPhase::Over
            &&& result is None ==> ended.state == RunnerState::Killed(None)
            &&& result == Some(ExitReason::Success) ==> ended.state == RunnerState::ExitSuccess
            &&& result matches Some(ExitReason::Error(code)) ==> ended.state
                == RunnerState::ExitError(code)
            &&& result matches Some(ExitReason::Killed(code)) ==> ended.state
                == RunnerState::Killed(code)
        },
        run.phase != RunnerPhase::Shutdown ==> run.shut_down(result) == run,
{
}

} // verus!
