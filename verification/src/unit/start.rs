//! What starting a unit comes to, by where its run is.

use crate::runner::RunnerState;
use vstd::prelude::*;

verus! {

/// What there is to do for a unit to be started.
#[derive(Clone, Copy, PartialEq, Eq, Debug, Structural)]
pub enum UnitStart {
    /// Nothing.
    Leave,
    /// Build a run, and park it where it starts.
    Create,
    /// Let the run that is parked go.
    Release,
    /// Build a run and let it go.
    Begin,
    /// See the run out, then build another and let it go.
    Restart,
}

/// What a start comes to for a unit whose run is in `run`: it is started over
/// whatever it is doing.
pub open spec fn started(run: Option<RunnerState>) -> UnitStart {
    match run {
        None => UnitStart::Begin,
        Some(_) => UnitStart::Restart,
    }
}

/// A unit that was never run is given a run to show, parked.
pub open spec fn created(run: Option<RunnerState>) -> UnitStart {
    match run {
        None => UnitStart::Create,
        Some(_) => UnitStart::Leave,
    }
}

/// A run that is parked is let go; any other is started over.
pub open spec fn resumed(run: Option<RunnerState>) -> UnitStart {
    if run == Some(RunnerState::Waiting) {
        UnitStart::Release
    } else {
        started(run)
    }
}

/// A unit that was never started is; any other is left alone.
pub open spec fn started_once(run: Option<RunnerState>) -> UnitStart {
    match run {
        None => UnitStart::Begin,
        Some(RunnerState::Waiting) => UnitStart::Release,
        Some(_) => UnitStart::Leave,
    }
}

impl UnitStart {
    /// Start a unit, restarting it if it was already running.
    pub fn start(run: Option<RunnerState>) -> (start: Self)
        ensures
            start == started(run),
    {
        match run {
            None => UnitStart::Begin,
            Some(_) => UnitStart::Restart,
        }
    }

    /// Build a unit's run without releasing it, so a unit still waiting on its
    /// dependencies exists and reports [`Waiting`](RunnerState::Waiting)
    /// instead of nothing at all.
    pub fn ensure_created(run: Option<RunnerState>) -> (start: Self)
        ensures
            start == created(run),
    {
        match run {
            None => UnitStart::Create,
            Some(_) => UnitStart::Leave,
        }
    }

    /// Release the run that [`ensure_created`](UnitStart::ensure_created)
    /// parked, or restart the unit if that run has already gone — what a unit
    /// that was named is given.
    pub fn start_or_resume(run: Option<RunnerState>) -> (start: Self)
        ensures
            start == resumed(run),
    {
        match run {
            None => UnitStart::Begin,
            Some(RunnerState::Waiting) => UnitStart::Release,
            Some(_) => UnitStart::Restart,
        }
    }

    /// Start a unit if it has never been started, and leave it alone otherwise
    /// — what a unit pulled in as a dependency is given.
    pub fn ensure_started(run: Option<RunnerState>) -> (start: Self)
        ensures
            start == started_once(run),
    {
        match run {
            None => UnitStart::Begin,
            Some(RunnerState::Waiting) => UnitStart::Release,
            Some(_) => UnitStart::Leave,
        }
    }
}

/// A unit pulled in as a dependency never loses a run that got going: only one
/// that was named is started over.
pub proof fn only_a_named_unit_is_started_over(run: RunnerState)
    ensures
        started_once(Some(run)) != UnitStart::Restart,
        created(Some(run)) == UnitStart::Leave,
        run != RunnerState::Waiting ==> started_once(Some(run)) == UnitStart::Leave,
{
}

/// Restarts do not overlap, and nothing is let go that is not there: a run is
/// built only where there is none or once the one there is has been seen out,
/// and only a run that is parked is released.
pub proof fn runs_never_overlap(run: Option<RunnerState>)
    ensures
        run is Some ==> started(run) == UnitStart::Restart,
        forall|start: UnitStart|
            (start == started(run) || start == created(run) || start == resumed(run) || start
                == started_once(run)) ==> {
                &&& #[trigger] starts_fresh(start) ==> run is None
                &&& start == UnitStart::Release ==> run == Some(RunnerState::Waiting)
                &&& start == UnitStart::Restart ==> run is Some
            },
{
}

/// Whether a start builds a run without seeing another one out first.
pub open spec fn starts_fresh(start: UnitStart) -> bool {
    start == UnitStart::Create || start == UnitStart::Begin
}

/// A unit that is named ends up with a run let go, whatever it was doing; one
/// that is pulled in does unless it has one that got going; and one that is
/// only shown has none let go.
pub proof fn a_named_unit_is_always_let_go(run: Option<RunnerState>)
    ensures
        started(run) != UnitStart::Leave && started(run) != UnitStart::Create,
        resumed(run) != UnitStart::Leave && resumed(run) != UnitStart::Create,
        run is None ==> started(run) == UnitStart::Begin && resumed(run) == UnitStart::Begin
            && started_once(run) == UnitStart::Begin && created(run) == UnitStart::Create,
        run == Some(RunnerState::Waiting) ==> resumed(run) == UnitStart::Release && started_once(
            run,
        ) == UnitStart::Release,
        run is Some && run != Some(RunnerState::Waiting) ==> resumed(run) == UnitStart::Restart,
        created(run) == UnitStart::Create || created(run) == UnitStart::Leave,
{
}

} // verus!
