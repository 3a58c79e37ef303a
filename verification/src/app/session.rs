//! A checked config, and what is asked of it.

use super::schedule;
use super::schedule::{AppSchedule, ScheduledStart};
use super::target::{Target, TargetView};
use super::unit_map;
use super::unit_map::{AppUnitKey, AppUnitMap, UnitMapView};
use crate::config::{Config, ConfigUi};
use crate::error::{AppConfigError, AppError};
use crate::unit::UnitAction;
use vstd::prelude::*;
use vstd::string::*;

verus! {

/// A session that has been checked and is ready to be run.
///
/// The type is the proof: an `App` is a config that survived
/// [`new`](App::new), so anything holding one can stop asking whether the
/// procs it names exist or whether their dependencies can be satisfied.
pub struct App {
    /// Every proc as a unit, by its key.
    unit_map: AppUnitMap,
    /// What the file said about the screen, kept because a client asks the
    /// session for it — the file is read here and nowhere else.
    ui: ConfigUi,
    /// The starts that cannot happen yet.
    schedule: AppSchedule,
}

/// What is left to be done about an event once the session has noted it.
#[derive(Clone, Copy, PartialEq, Eq, Debug, Structural)]
pub enum AppDispatch {
    /// Nothing.
    Nothing,
    /// The unit is on the schedule.
    Scheduled,
    /// The unit is to be stopped.
    Stop,
}

/// A session: its units, what it says about the screen, and what is to be
/// started.
#[verifier::ext_equal]
pub struct AppView {
    pub map: UnitMapView,
    pub ui: ConfigUi,
    pub scheduled: Map<usize, bool>,
}

impl View for App {
    type V = AppView;

    closed spec fn view(&self) -> AppView {
        AppView { map: self.unit_map@, ui: self.ui, scheduled: self.schedule@ }
    }
}

/// A session's schedule once `target` has been asked for. One that names
/// nothing asks for nothing.
pub open spec fn target_asked_for(
    map: UnitMapView,
    scheduled: Map<usize, bool>,
    target: TargetView,
) -> Map<usize, bool> {
    match target {
        TargetView::Unit(name) => if map.keys.contains(name) {
            schedule::asked_for(map, scheduled, seq![map.keys.index_of(name) as usize])
        } else {
            scheduled
        },
        TargetView::Group(name) => schedule::group_asked_for(map, scheduled, name),
    }
}

/// A session's schedule once the first `end` targets have been asked for, one
/// after the other.
pub open spec fn targets_asked_for(
    map: UnitMapView,
    scheduled: Map<usize, bool>,
    targets: Seq<Target>,
    end: int,
) -> Map<usize, bool>
    decreases end,
{
    if end <= 0 {
        scheduled
    } else {
        target_asked_for(
            map,
            targets_asked_for(map, scheduled, targets, end - 1),
            targets[end - 1]@,
        )
    }
}

impl App {
    /// The units are sound, nothing among them waits on itself, and the
    /// schedule is in order.
    pub closed spec fn wf(self) -> bool {
        &&& self.unit_map@.wf()
        &&& self.unit_map@.depends_follow()
        &&& self.schedule.wf()
        &&& forall|i: int| !#[trigger] self.unit_map@.waits.needs(i, i)
    }

    /// Nothing in a session waits on itself.
    pub proof fn nothing_waits_on_itself(self, i: int)
        requires
            self.wf(),
        ensures
            self@.map.wf(),
            self@.map.depends_follow(),
            !self@.map.waits.needs(i, i),
    {
    }

    /// Check a config, and build the session from it.
    ///
    /// Checked: that no proc declares both `run` and `modes`, that every
    /// `depends` names a proc that exists, that no name holds the character a
    /// target is told apart by, and that nothing depends on itself directly
    /// or through others. None of it stops at the first failure.
    pub fn new(config: &Config) -> (result: Result<Self, AppConfigError>)
        requires
            unit_map::sound_keys(*config),
        ensures
            match result {
                Ok(app) => {
                    &&& unit_map::problems(*config).len() == 0
                    &&& app.wf()
                    &&& app@.map == unit_map::map_of(*config)
                    &&& app@.ui == config.ui
                    &&& app@.scheduled == Map::<usize, bool>::empty()
                },
                Err(AppConfigError::Errors(errors)) => {
                    &&& unit_map::problems(*config).len() > 0
                    &&& unit_map::problems_of(errors@) == unit_map::problems(*config)
                },
                Err(_) => false,
            },
    {
        match AppUnitMap::new(config) {
            Ok(unit_map) => {
                proof {
                    assert forall|i: int| !#[trigger] unit_map@.waits.needs(i, i) by {
                        unit_map::a_checked_config_has_no_circle(*config, i);
                    }
                }
                Ok(App { unit_map, ui: config.ui, schedule: AppSchedule::new() })
            },
            Err(error) => Err(error),
        }
    }

    /// What the config said about the screen.
    pub fn ui(&self) -> (ui: ConfigUi)
        ensures
            ui == self@.ui,
    {
        self.ui
    }

    /// Every proc as a unit, by its key.
    pub fn unit_map(&self) -> (map: &AppUnitMap)
        requires
            self.wf(),
        ensures
            map@ == self@.map,
            map@.wf(),
    {
        &self.unit_map
    }

    /// Ask for a proc to start, once what it depends on is up.
    ///
    /// Returns before any of that has happened: what starts it is
    /// [`run`](App::run) finding it due.
    pub fn schedule(&mut self, key: AppUnitKey)
        requires
            old(self).wf(),
        ensures
            final(self).wf(),
            final(self)@ == (AppView {
                scheduled: schedule::asked_for(
                    old(self)@.map,
                    old(self)@.scheduled,
                    seq![key.at() as usize],
                ),
                ..old(self)@
            }),
    {
        self.schedule.schedule(&self.unit_map, key);
    }

    /// [`schedule`](App::schedule) for every proc of a group.
    pub fn schedule_group(&mut self, group: &str)
        requires
            old(self).wf(),
        ensures
            final(self).wf(),
            final(self)@ == (AppView {
                scheduled: schedule::group_asked_for(
                    old(self)@.map,
                    old(self)@.scheduled,
                    group@,
                ),
                ..old(self)@
            }),
    {
        self.schedule.schedule_group(&self.unit_map, group);
    }

    /// Start what the command line named, and nothing else.
    ///
    /// A target naming no unit is not a failure: it matched nothing, the same
    /// answer an unknown group gets.
    pub fn schedule_targets(&mut self, targets: &Vec<Target>)
        requires
            old(self).wf(),
        ensures
            final(self).wf(),
            final(self)@ == (AppView {
                scheduled: targets_asked_for(
                    old(self)@.map,
                    old(self)@.scheduled,
                    targets@,
                    targets@.len() as int,
                ),
                ..old(self)@
            }),
    {
        let mut i: usize = 0;
        while i < targets.len()
            invariant
                i <= targets@.len(),
                self.wf(),
                self@ == (AppView {
                    scheduled: targets_asked_for(
                        old(self)@.map,
                        old(self)@.scheduled,
                        targets@,
                        i as int,
                    ),
                    ..old(self)@
                }),
            decreases targets@.len() - i,
        {
            match &targets[i] {
                Target::Unit(name) => {
                    match self.unit_map.key(name.as_str()) {
                        Some(key) => {
                            proof {
                                let keys = self@.map.keys;
                                assert(keys.contains(name@));
                                assert(keys[keys.index_of(name@)] == name@);
                                assert(keys.index_of(name@) == key.at());
                            }
                            self.schedule(key);
                        },
                        None => {},
                    }
                },
                Target::Group(name) => {
                    self.schedule_group(name.as_str());
                },
            }
            i = i + 1;
        }
    }

    /// Take every start that is due: all it depends on is resolved.
    pub fn run(&mut self, resolved: &Vec<bool>) -> (starts: Vec<ScheduledStart>)
        requires
            old(self).wf(),
        ensures
            final(self).wf(),
            final(self)@ == (AppView {
                scheduled: old(self)@.scheduled.remove_keys(
                    Set::new(
                        |key: usize| schedule::is_due(old(self)@.map, resolved@, key),
                    ),
                ),
                ..old(self)@
            }),
            forall|start: ScheduledStart| #[trigger] starts@.contains(start) <==> {
                &&& old(self)@.scheduled.contains_key(start.key)
                &&& old(self)@.scheduled[start.key] == start.force
                &&& schedule::is_due(old(self)@.map, resolved@, start.key)
            },
            starts@.no_duplicates(),
            forall|s: int, i: int|
                #![trigger starts@[s], old(self)@.map.units[starts@[s].key as int].depends[i]]
                0 <= s < starts@.len() && starts@[s].key < old(self)@.map.units.len() && 0 <= i
                    < old(self)@.map.units[starts@[s].key as int].depends.len() ==> {
                    let depends = old(self)@.map.units[starts@[s].key as int].depends[i];
                    depends < resolved@.len() && resolved@[depends as int]
                },
    {
        self.schedule.run(&self.unit_map, resolved)
    }

    /// Note what the unit under `key` asked for in answer to an event, and
    /// report what is left to do about it.
    ///
    /// A start it asks for is a start in dependency order like any other, so
    /// it goes on the schedule; a stop is the caller's to carry out.
    pub fn dispatch(&mut self, key: AppUnitKey, action: Option<UnitAction>) -> (done: Result<
        AppDispatch,
        AppError,
    >)
        requires
            old(self).wf(),
        ensures
            final(self).wf(),
            key.at() >= old(self)@.map.units.len() ==> done == Err::<AppDispatch, AppError>(
                AppError::NotFound,
            ) && final(self)@ == old(self)@,
            key.at() < old(self)@.map.units.len() ==> match action {
                None => done == Ok::<AppDispatch, AppError>(AppDispatch::Nothing)
                    && final(self)@ == old(self)@,
                Some(UnitAction::Stop) => done == Ok::<AppDispatch, AppError>(AppDispatch::Stop)
                    && final(self)@ == old(self)@,
                Some(UnitAction::Start) => {
                    &&& done == Ok::<AppDispatch, AppError>(AppDispatch::Scheduled)
                    &&& final(self)@ == (AppView {
                        scheduled: schedule::asked_for(
                            old(self)@.map,
                            old(self)@.scheduled,
                            seq![key.at() as usize],
                        ),
                        ..old(self)@
                    })
                },
            },
    {
        match self.unit_map.entry(key) {
            Err(error) => {
                return Err(error);
            },
            Ok(_) => {},
        }
        match action {
            None => Ok(AppDispatch::Nothing),
            Some(UnitAction::Start) => {
                self.schedule(key);
                Ok(AppDispatch::Scheduled)
            },
            Some(UnitAction::Stop) => Ok(AppDispatch::Stop),
        }
    }
}

} // verus!
