//! What is asked of the units of a session one by one, by their keys.

use super::unit_map::{AppUnitKey, AppUnitMap};
use crate::error::AppError;
use crate::runner::RunnerState;
use crate::unit::dispatch;
use crate::unit::start;
use crate::unit::{UnitAction, UnitChoice, UnitEvent, UnitStart};
use crate::util::text;
use vstd::prelude::*;

verus! {

impl AppUnitMap {
    /// Start the unit under `key`, restarting it if it was already running.
    pub fn start(&self, key: AppUnitKey, run: Option<RunnerState>) -> (start: Result<
        UnitStart,
        AppError,
    >)
        ensures
            start == if key.at() < self@.units.len() {
                Ok(start::started(run))
            } else {
                Err::<UnitStart, AppError>(AppError::NotFound)
            },
    {
        match self.entry(key) {
            Ok(_) => Ok(UnitStart::start(run)),
            Err(_) => Err(AppError::NotFound),
        }
    }

    /// Build the unit's run without releasing it, so a unit still waiting on
    /// its dependencies exists and reports
    /// [`Waiting`](RunnerState::Waiting) instead of nothing at all.
    pub fn ensure_created(&self, key: AppUnitKey, run: Option<RunnerState>) -> (start: Result<
        UnitStart,
        AppError,
    >)
        ensures
            start == if key.at() < self@.units.len() {
                Ok(start::created(run))
            } else {
                Err::<UnitStart, AppError>(AppError::NotFound)
            },
    {
        match self.entry(key) {
            Ok(_) => Ok(UnitStart::ensure_created(run)),
            Err(_) => Err(AppError::NotFound),
        }
    }

    /// Release the run [`ensure_created`](AppUnitMap::ensure_created) parked,
    /// or restart the unit if that run has already gone — what the schedule
    /// gives a unit the caller named, against the
    /// [`ensure_started`](AppUnitMap::ensure_started) one pulled in as a
    /// dependency gets.
    pub fn start_or_resume(&self, key: AppUnitKey, run: Option<RunnerState>) -> (start: Result<
        UnitStart,
        AppError,
    >)
        ensures
            start == if key.at() < self@.units.len() {
                Ok(start::resumed(run))
            } else {
                Err::<UnitStart, AppError>(AppError::NotFound)
            },
    {
        match self.entry(key) {
            Ok(_) => Ok(UnitStart::start_or_resume(run)),
            Err(_) => Err(AppError::NotFound),
        }
    }

    /// Start `key` if it has never been started, and leave it alone
    /// otherwise — unlike [`start`](AppUnitMap::start), which restarts it.
    pub fn ensure_started(&self, key: AppUnitKey, run: Option<RunnerState>) -> (start: Result<
        UnitStart,
        AppError,
    >)
        ensures
            start == if key.at() < self@.units.len() {
                Ok(start::started_once(run))
            } else {
                Err::<UnitStart, AppError>(AppError::NotFound)
            },
    {
        match self.entry(key) {
            Ok(_) => Ok(UnitStart::ensure_started(run)),
            Err(_) => Err(AppError::NotFound),
        }
    }

    /// State of the unit under `key`.
    ///
    /// [`Stopped`](RunnerState::Stopped) for a unit that was declared and
    /// never started — which is a different thing from a key nothing was
    /// declared under, and that is the error.
    pub fn state(&self, key: AppUnitKey, run: Option<RunnerState>) -> (state: Result<
        RunnerState,
        AppError,
    >)
        ensures
            state == if key.at() < self@.units.len() {
                match run {
                    Some(state) => Ok(state),
                    None => Ok(RunnerState::Stopped),
                }
            } else {
                Err::<RunnerState, AppError>(AppError::NotFound)
            },
    {
        match self.entry(key) {
            Ok(_) => match run {
                Some(state) => Ok(state),
                None => Ok(RunnerState::Stopped),
            },
            Err(_) => Err(AppError::NotFound),
        }
    }

    /// Which of its modes the unit under `key`, on the mode at `on`, is
    /// currently on, if it has any.
    pub fn mode(&self, key: AppUnitKey, on: usize) -> (mode: Result<Option<String>, AppError>)
        ensures
            match mode {
                Ok(mode) => key.at() < self@.units.len() && text::opt_text(mode)
                    == self@.units[key.at() as int].behavior.mode(on),
                Err(error) => key.at() >= self@.units.len() && error == AppError::NotFound,
            },
    {
        match self.entry(key) {
            Ok(entry) => match entry.behavior.mode(on) {
                Some(name) => Ok(Some(name.clone())),
                None => Ok(None),
            },
            Err(_) => Err(AppError::NotFound),
        }
    }

    /// That mode's short name, if it declared one.
    pub fn mode_short(&self, key: AppUnitKey, on: usize) -> (mode: Result<
        Option<String>,
        AppError,
    >)
        ensures
            match mode {
                Ok(mode) => key.at() < self@.units.len() && text::opt_text(mode)
                    == self@.units[key.at() as int].behavior.mode_short(on),
                Err(error) => key.at() >= self@.units.len() && error == AppError::NotFound,
            },
    {
        match self.entry(key) {
            Ok(entry) => match entry.behavior.mode_short(on) {
                Some(name) => Ok(Some(name.clone())),
                None => Ok(None),
            },
            Err(_) => Err(AppError::NotFound),
        }
    }

    /// Everything that can be asked of the unit under `key` right now.
    pub fn choices(&self, key: AppUnitKey, on: usize, state: RunnerState) -> (choices: Result<
        Vec<UnitChoice<UnitEvent>>,
        AppError,
    >)
        ensures
            match choices {
                Ok(choices) => key.at() < self@.units.len() && dispatch::choice_texts(choices@)
                    == self@.units[key.at() as int].behavior.choices(on, state),
                Err(error) => key.at() >= self@.units.len() && error == AppError::NotFound,
            },
    {
        match self.entry(key) {
            Ok(entry) => Ok(entry.behavior.choices(on, state)),
            Err(_) => Err(AppError::NotFound),
        }
    }

    /// Hand `event` to the unit under `key` and report back which mode it is
    /// on after, and what it asks for.
    ///
    /// Reported and not done: a start has to go through the schedule, which
    /// is above this layer, so the action is carried out by
    /// [`App::dispatch`](crate::app::App::dispatch).
    pub fn dispatch(&self, key: AppUnitKey, on: usize, event: UnitEvent) -> (told: Result<
        (usize, Option<UnitAction>),
        AppError,
    >)
        ensures
            told == if key.at() < self@.units.len() {
                Ok(self@.units[key.at() as int].behavior.told(on, event))
            } else {
                Err::<(usize, Option<UnitAction>), AppError>(AppError::NotFound)
            },
    {
        match self.entry(key) {
            Ok(entry) => Ok(entry.behavior.dispatch(on, event)),
            Err(_) => Err(AppError::NotFound),
        }
    }
}

} // verus!
