//! What can be asked of a unit, and what it does about it.

use super::{BehaviorText, ModeText, TypeText, UnitAction, UnitBehavior, UnitChoice, UnitType};
use crate::runner::RunnerState;
use crate::server::http;
use crate::util::text;
use vstd::prelude::*;
use vstd::string::*;

verus! {

/// What a unit can be told.
#[derive(Clone, Copy, PartialEq, Eq, Debug, Structural)]
pub enum UnitEvent {
    /// Run, in the mode it is already in.
    Start,
    /// Run, in the mode at this place in its list.
    StartMode(usize),
    /// Stop.
    Stop,
}

/// One thing that can be asked of a unit, as text.
#[verifier::ext_equal]
pub struct ChoiceText {
    pub verb: Seq<char>,
    pub mode: Option<Seq<char>>,
    pub enabled: bool,
    pub current: bool,
    pub event: UnitEvent,
}

impl View for UnitChoice<UnitEvent> {
    type V = ChoiceText;

    open spec fn view(&self) -> ChoiceText {
        ChoiceText {
            verb: self.verb@,
            mode: text::opt_text(self.mode),
            enabled: self.enabled,
            current: self.current,
            event: self.event,
        }
    }
}

/// Whether a run in this state is up, or on its way.
pub open spec fn is_up(state: RunnerState) -> bool {
    state != RunnerState::Stopped && state.rank() != RunnerState::ExitSuccess.rank()
}

/// What starting a unit is called: starting it, or starting it over.
pub open spec fn start_verb(again: bool) -> Seq<char> {
    if again {
        "Restart"@
    } else {
        "Start"@
    }
}

/// The entry for stopping, which can be chosen while there is something to
/// stop.
pub open spec fn stop_choice(state: RunnerState) -> ChoiceText {
    ChoiceText {
        verb: "Stop"@,
        mode: None,
        enabled: is_up(state),
        current: false,
        event: UnitEvent::Stop,
    }
}

impl BehaviorText {
    /// The name of the mode at `on`, for a unit that has modes.
    pub open spec fn mode(self, on: usize) -> Option<Seq<char>> {
        match self.kind {
            TypeText::Modes(modes) => if on < modes.len() {
                Some(modes[on as int].name)
            } else {
                None
            },
            _ => None,
        }
    }

    /// That mode's short name, if it declared one.
    pub open spec fn mode_short(self, on: usize) -> Option<Seq<char>> {
        match self.kind {
            TypeText::Modes(modes) => if on < modes.len() {
                modes[on as int].short
            } else {
                None
            },
            _ => None,
        }
    }

    /// The entry for the mode at `at`, of a unit on the mode at `on`.
    pub open spec fn mode_choice(self, at: int, on: usize, state: RunnerState) -> ChoiceText {
        ChoiceText {
            verb: start_verb(at == on && is_up(state)),
            mode: self.mode(at as usize),
            enabled: true,
            current: at == on,
            event: UnitEvent::StartMode(at as usize),
        }
    }

    /// Everything that can be asked of a unit: to be run, in each of its modes
    /// if it has any, and to be stopped.
    pub open spec fn choices(self, on: usize, state: RunnerState) -> Seq<ChoiceText> {
        match self.kind {
            TypeText::Modes(modes) => Seq::new(
                modes.len(),
                |at: int| self.mode_choice(at, on, state),
            ).push(stop_choice(state)),
            _ => seq![
                ChoiceText {
                    verb: start_verb(is_up(state)),
                    mode: None,
                    enabled: true,
                    current: true,
                    event: UnitEvent::Start,
                },
                stop_choice(state),
            ],
        }
    }

    /// Which mode an event leaves a unit on, and what it asks to have done.
    pub open spec fn told(self, on: usize, event: UnitEvent) -> (usize, Option<UnitAction>) {
        match event {
            UnitEvent::Start => (on, Some(UnitAction::Start)),
            UnitEvent::Stop => (on, Some(UnitAction::Stop)),
            UnitEvent::StartMode(at) => if self.mode(at) is Some {
                (at, Some(UnitAction::Start))
            } else {
                (on, None)
            },
        }
    }
}

/// What the entries of a menu are, as text.
pub open spec fn choice_texts(choices: Seq<UnitChoice<UnitEvent>>) -> Seq<ChoiceText> {
    Seq::new(choices.len(), |i: int| choices[i]@)
}

/// Whether a run in this state is up, or on its way.
fn runs(state: RunnerState) -> (up: bool)
    ensures
        up == is_up(state),
{
    !state.is_stopped()
}

/// What starting a unit is called.
fn verb(again: bool) -> (verb: String)
    ensures
        verb@ == start_verb(again),
{
    if again {
        text::owned("Restart")
    } else {
        text::owned("Start")
    }
}

impl UnitBehavior {
    /// Which of its modes a unit on the mode at `on` is running, if it has
    /// any.
    pub fn mode(&self, on: usize) -> (name: Option<&String>)
        ensures
            match name {
                Some(name) => self@.mode(on) == Some(name@),
                None => self@.mode(on) is None,
            },
    {
        match &self.kind {
            UnitType::Modes(modes) => if on < modes.len() {
                Some(&modes[on].name)
            } else {
                None
            },
            _ => None,
        }
    }

    /// That mode's short name, if it declared one.
    pub fn mode_short(&self, on: usize) -> (name: Option<&String>)
        ensures
            match name {
                Some(name) => self@.mode_short(on) == Some(name@),
                None => self@.mode_short(on) is None,
            },
    {
        match &self.kind {
            UnitType::Modes(modes) => if on < modes.len() {
                modes[on].short.as_ref()
            } else {
                None
            },
            _ => None,
        }
    }

    /// Everything that can be asked of a unit on the mode at `on` whose run is
    /// in `state`.
    ///
    /// Each entry says what it will actually do: `Restart` on the mode that is
    /// up, `Start` on the others.
    pub fn choices(&self, on: usize, state: RunnerState) -> (choices: Vec<UnitChoice<UnitEvent>>)
        ensures
            choice_texts(choices@) == self@.choices(on, state),
    {
        let up = runs(state);
        let mut choices: Vec<UnitChoice<UnitEvent>> = Vec::new();
        match &self.kind {
            UnitType::Modes(modes) => {
                let mut at: usize = 0;
                while at < modes.len()
                    invariant
                        self.kind == UnitType::Modes(*modes),
                        up == is_up(state),
                        at <= modes@.len(),
                        choices@.len() == at,
                        forall|i: int|
                            0 <= i < at ==> (#[trigger] choices@[i])@ == self@.mode_choice(
                                i,
                                on,
                                state,
                            ),
                    decreases modes@.len() - at,
                {
                    let name = modes[at].name.clone();
                    let choice = UnitChoice {
                        verb: verb(at == on && up),
                        mode: Some(name),
                        enabled: true,
                        current: at == on,
                        event: UnitEvent::StartMode(at),
                    };
                    assert(choice@ =~= self@.mode_choice(at as int, on, state));
                    choices.push(choice);
                    at = at + 1;
                }
            },
            _ => {
                choices.push(
                    UnitChoice {
                        verb: verb(up),
                        mode: None,
                        enabled: true,
                        current: true,
                        event: UnitEvent::Start,
                    },
                );
            },
        }
        choices.push(
            UnitChoice {
                verb: text::owned("Stop"),
                mode: None,
                enabled: up,
                current: false,
                event: UnitEvent::Stop,
            },
        );
        assert(choice_texts(choices@) =~= self@.choices(on, state));
        choices
    }

    /// Hand an event to a unit on the mode at `on`: which mode it is on after,
    /// and what it asks to have done.
    ///
    /// An event may move a unit onto another mode before the start it also
    /// asks for. One that names no mode of it asks for nothing.
    pub fn dispatch(&self, on: usize, event: UnitEvent) -> (told: (usize, Option<UnitAction>))
        ensures
            told == self@.told(on, event),
    {
        match event {
            UnitEvent::Start => (on, Some(UnitAction::Start)),
            UnitEvent::Stop => (on, Some(UnitAction::Stop)),
            UnitEvent::StartMode(at) => match self.mode(at) {
                Some(_) => (at, Some(UnitAction::Start)),
                None => (on, None),
            },
        }
    }
}

/// Where the first of `names` from `at` on that is `name` stands, or how many
/// there are if none is.
pub open spec fn first_named(names: Seq<Seq<char>>, name: Seq<char>, at: int) -> int
    decreases names.len() - at,
{
    if at >= names.len() {
        names.len() as int
    } else if names[at] == name {
        at
    } else {
        first_named(names, name, at + 1)
    }
}

/// Which of some modes `mode` picks: the one of that name, or else the one at
/// that position.
pub open spec fn picked(names: Seq<Seq<char>>, mode: Seq<char>) -> Option<int> {
    let named = first_named(names, mode, 0);
    if named < names.len() {
        Some(named)
    } else {
        match http::read_number(mode) {
            Some(position) => if position < names.len() {
                Some(position as int)
            } else {
                None
            },
            None => None,
        }
    }
}

/// Pick a mode by its name or its position in the list. A name goes first, so
/// that a mode called `1` can be had at all.
pub fn pick_mode(names: &Vec<String>, mode: &str) -> (at: Option<usize>)
    ensures
        match at {
            Some(at) => picked(text::texts(names@), mode@) == Some(at as int),
            None => picked(text::texts(names@), mode@) is None,
        },
        at matches Some(at) ==> at < names@.len(),
{
    let mut at: usize = 0;
    while at < names.len()
        invariant
            at <= names@.len(),
            first_named(text::texts(names@), mode@, 0) == first_named(
                text::texts(names@),
                mode@,
                at as int,
            ),
        decreases names@.len() - at,
    {
        if text::same_text(names[at].as_str(), mode) {
            return Some(at);
        }
        at = at + 1;
    }
    match http::parse_number(mode) {
        Some(position) => if position < names.len() as u64 {
            Some(position as usize)
        } else {
            None
        },
        None => None,
    }
}

/// Every mode can be picked: by its name, if it is the first of that name.
pub proof fn a_mode_is_picked_by_its_name(names: Seq<Seq<char>>, at: int)
    requires
        0 <= at < names.len(),
        forall|i: int| 0 <= i < at ==> #[trigger] names[i] != names[at],
    ensures
        picked(names, names[at]) == Some(at),
{
    lemma_first_named(names, 0, at);
}

proof fn lemma_first_named(names: Seq<Seq<char>>, from: int, at: int)
    requires
        0 <= from <= at < names.len(),
        forall|i: int| 0 <= i < at ==> #[trigger] names[i] != names[at],
    ensures
        first_named(names, names[at], from) == at,
    decreases at - from,
{
    if from < at {
        lemma_first_named(names, from + 1, at);
    }
}

/// Every entry of a menu does what it says: it can be handed back to the unit,
/// which starts, in the mode the entry names if it names one, or stops.
pub proof fn every_choice_is_heeded(
    behavior: BehaviorText,
    on: usize,
    state: RunnerState,
    i: int,
)
    requires
        0 <= i < behavior.choices(on, state).len(),
        behavior.kind matches TypeText::Modes(modes) ==> modes.len() <= usize::MAX,
    ensures
        ({
            let choice = behavior.choices(on, state)[i];
            let (after, action) = behavior.told(on, choice.event);
            &&& action is Some
            &&& (choice.event == UnitEvent::Stop) == (action == Some(UnitAction::Stop))
            &&& choice.mode is Some ==> behavior.mode(after) == choice.mode
            &&& choice.mode is None ==> after == on
        }),
{
}

/// Whether a run is up, or on its way: released or waiting to be, and not
/// over.
pub proof fn what_is_up(state: RunnerState)
    ensures
        is_up(state) <==> (state is Waiting || state is Started || state is Running
            || state is Killing),
{
}

/// The menu of a unit with modes lists each of them once, in the order they
/// were declared, and can start any of them; the one the unit is on is marked,
/// and is the one that is restarted while it is up. Last comes stopping, which
/// can be chosen exactly while there is something to stop.
pub proof fn a_menu_lists_every_mode(
    behavior: BehaviorText,
    modes: Seq<ModeText>,
    on: usize,
    state: RunnerState,
)
    requires
        behavior.kind == TypeText::Modes(modes),
        modes.len() < usize::MAX,
    ensures
        ({
            let choices = behavior.choices(on, state);
            let up = state is Waiting || state is Started || state is Running || state is Killing;
            &&& choices.len() == modes.len() + 1
            &&& forall|i: int|
                0 <= i < modes.len() ==> {
                    &&& (#[trigger] choices[i]).mode == Some(modes[i].name)
                    &&& choices[i].event == UnitEvent::StartMode(i as usize)
                    &&& choices[i].enabled
                    &&& choices[i].current == (i == on)
                    &&& i == on && up ==> choices[i].verb == "Restart"@
                    &&& !(i == on && up) ==> choices[i].verb == "Start"@
                }
            &&& choices.last().verb == "Stop"@
            &&& choices.last().event == UnitEvent::Stop
            &&& choices.last().mode is None
            &&& choices.last().enabled == up
            &&& !choices.last().current
        }),
{
    what_is_up(state);
}

/// The menu of a unit that runs one way is starting it, or restarting it while
/// it is up, and stopping it, which can be chosen exactly while there is
/// something to stop.
pub proof fn a_plain_menu_is_starting_and_stopping(
    behavior: BehaviorText,
    on: usize,
    state: RunnerState,
)
    requires
        !(behavior.kind is Modes),
    ensures
        ({
            let choices = behavior.choices(on, state);
            let up = state is Waiting || state is Started || state is Running || state is Killing;
            &&& choices.len() == 2
            &&& choices[0].event == UnitEvent::Start
            &&& choices[0].mode is None
            &&& choices[0].enabled
            &&& choices[0].current
            &&& up ==> choices[0].verb == "Restart"@
            &&& !up ==> choices[0].verb == "Start"@
            &&& choices[1].verb == "Stop"@
            &&& choices[1].event == UnitEvent::Stop
            &&& choices[1].mode is None
            &&& choices[1].enabled == up
            &&& !choices[1].current
        }),
{
    what_is_up(state);
}

/// A unit switches to a mode only by being started in it, and only to one it
/// has; a plain start and a stop leave it on the one it is on.
pub proof fn a_mode_is_switched_by_starting_in_it(
    behavior: BehaviorText,
    on: usize,
    event: UnitEvent,
)
    ensures
        ({
            let (after, action) = behavior.told(on, event);
            let modes = behavior.kind->Modes_0;
            &&& event == UnitEvent::Start ==> after == on && action == Some(UnitAction::Start)
            &&& event == UnitEvent::Stop ==> after == on && action == Some(UnitAction::Stop)
            &&& event matches UnitEvent::StartMode(at) ==> {
                &&& behavior.kind is Modes && at < modes.len() ==> after == at && action == Some(
                    UnitAction::Start,
                )
                &&& !(behavior.kind is Modes && at < modes.len()) ==> after == on && action is None
            }
        }),
        behavior.kind is Modes && on < behavior.kind->Modes_0.len() ==> behavior.mode(on) == Some(
            behavior.kind->Modes_0[on as int].name,
        ) && behavior.mode_short(on) == behavior.kind->Modes_0[on as int].short,
        !(behavior.kind is Modes && on < behavior.kind->Modes_0.len()) ==> behavior.mode(on) is None
            && behavior.mode_short(on) is None,
{
}

/// A mode is picked by name before it is by position, and by nothing else:
/// what is picked is a mode of that name, the first there is, or where none
/// has it the one at that position.
pub proof fn picking_goes_by_name_then_position(names: Seq<Seq<char>>, mode: Seq<char>)
    ensures
        picked(names, mode) matches Some(at) ==> 0 <= at < names.len() && (names[at] == mode
            || !names.contains(mode) && http::read_number(mode) == Some(at as u64)),
        picked(names, mode) matches Some(at) ==> forall|i: int|
            0 <= i < at ==> names.contains(mode) ==> #[trigger] names[i] != mode,
        names.contains(mode) ==> picked(names, mode) is Some,
        !names.contains(mode) ==> (http::read_number(mode) matches Some(at) ==> (at < names.len()
            ==> picked(names, mode) == Some(at as int))),
{
    lemma_first_named_is_first(names, mode, 0);
}

proof fn lemma_first_named_is_first(names: Seq<Seq<char>>, mode: Seq<char>, from: int)
    requires
        0 <= from <= names.len(),
        forall|i: int| 0 <= i < from ==> names[i] != mode,
    ensures
        from <= first_named(names, mode, from) <= names.len(),
        first_named(names, mode, from) < names.len() ==> names[first_named(names, mode, from)]
            == mode,
        forall|i: int| 0 <= i < first_named(names, mode, from) ==> names[i] != mode,
        first_named(names, mode, from) < names.len() <==> names.contains(mode),
    decreases names.len() - from,
{
    if from < names.len() && names[from] != mode {
        lemma_first_named_is_first(names, mode, from + 1);
    }
}

} // verus!
