//! Units: the named, restartable things a user manages.
//!
//! A [`UnitBehavior`] is what a unit does: what it is called and what it
//! spawns. Keeping it separate from the run is what lets a unit be restarted
//! under a different mode.

pub mod dispatch;
pub mod start;

pub use dispatch::{pick_mode, UnitEvent};
pub use start::UnitStart;

use crate::util::text;
use vstd::prelude::*;

verus! {

/// What a unit is called, and what it does when it is started.
#[derive(Debug, PartialEq, Eq)]
pub struct UnitBehavior {
    /// What it is called on screen.
    pub name: String,
    /// A shorter name, if it was given one.
    pub short: Option<String>,
    /// What starting it runs.
    pub kind: UnitType,
}

/// What starting a unit runs.
#[derive(Debug, PartialEq, Eq)]
pub enum UnitType {
    /// Nothing.
    Noop,
    /// One list of commands, in order.
    Run(UnitRun),
    /// One of several, by name.
    Modes(Vec<UnitMode>),
}

/// Commands to run one after the other, and where.
#[derive(Debug, PartialEq, Eq)]
pub struct UnitRun {
    /// Each command as its argv.
    pub commands: Vec<Vec<String>>,
    /// Where they run, or `None` to run where the session does.
    pub working_dir: Option<String>,
}

/// One named way of running a unit.
#[derive(Debug, PartialEq, Eq)]
pub struct UnitMode {
    pub name: String,
    pub short: Option<String>,
    pub run: UnitRun,
}

/// What a unit asks to have done to it, in answer to an event.
#[derive(Clone, Copy, PartialEq, Eq, Debug, Structural)]
pub enum UnitAction {
    /// To be started, once what it depends on is up.
    Start,
    /// To be stopped.
    Stop,
}

/// One thing that can be asked of a unit, as a menu lists it.
#[derive(PartialEq, Eq, Debug)]
pub struct UnitChoice<E> {
    /// What it does.
    pub verb: String,
    /// The mode it does it to, if the unit has modes.
    pub mode: Option<String>,
    /// Whether it can be asked for now.
    pub enabled: bool,
    /// Whether it is about the mode the unit is on.
    pub current: bool,
    /// What to hand the unit to ask for it.
    pub event: E,
}

/// What a run says: its commands and where they run.
#[verifier::ext_equal]
pub struct RunText {
    pub commands: Seq<Seq<Seq<char>>>,
    pub working_dir: Option<Seq<char>>,
}

/// What a mode says.
#[verifier::ext_equal]
pub struct ModeText {
    pub name: Seq<char>,
    pub short: Option<Seq<char>>,
    pub run: RunText,
}

/// What starting a unit runs, as text.
#[verifier::ext_equal]
pub enum TypeText {
    Noop,
    Run(RunText),
    Modes(Seq<ModeText>),
}

/// What a behavior says.
#[verifier::ext_equal]
pub struct BehaviorText {
    pub name: Seq<char>,
    pub short: Option<Seq<char>>,
    pub kind: TypeText,
}

impl View for UnitRun {
    type V = RunText;

    open spec fn view(&self) -> RunText {
        RunText {
            commands: Seq::new(self.commands@.len(), |i: int| text::texts(self.commands@[i]@)),
            working_dir: text::opt_text(self.working_dir),
        }
    }
}

impl View for UnitMode {
    type V = ModeText;

    open spec fn view(&self) -> ModeText {
        ModeText { name: self.name@, short: text::opt_text(self.short), run: self.run@ }
    }
}

impl View for UnitType {
    type V = TypeText;

    open spec fn view(&self) -> TypeText {
        match self {
            UnitType::Noop => TypeText::Noop,
            UnitType::Run(run) => TypeText::Run(run@),
            UnitType::Modes(modes) => TypeText::Modes(
                Seq::new(modes@.len(), |i: int| modes@[i]@),
            ),
        }
    }
}

impl View for UnitBehavior {
    type V = BehaviorText;

    open spec fn view(&self) -> BehaviorText {
        BehaviorText { name: self.name@, short: text::opt_text(self.short), kind: self.kind@ }
    }
}

} // verus!
