//! Every proc of a checked config, as a unit, under the key it was interned
//! as.

use super::target::TARGET_SEPARATOR;
use crate::config;
use crate::config::{Config, ConfigPanel, ConfigProc};
use crate::error::{AppConfigError, AppError};
use crate::log::Log;
use crate::log::LOG_CHUNK_SIZE;
use crate::unit::{BehaviorText, ModeText, RunText, TypeText, UnitBehavior, UnitMode, UnitRun, UnitType};
use crate::util::graph;
use crate::util::graph::{DependencyGraph, DependencyOrder, GraphView};
use crate::util::interner;
use crate::util::interner::Interner;
use crate::util::text;
use crate::util::text::{contains_char, copy_text, same_text};
use vstd::prelude::*;
use vstd::string::*;

verus! {

/// How a unit is addressed once the config has been checked.
///
/// The interned key rather than the name it was interned from: a key is read
/// out of a row, copied into a command and compared every frame, and a name
/// there is a string to clone and hash where this is an integer.
///
/// It goes over the socket as that bare index, which holds only because the
/// far end is a client of the process that minted it; anything naming a unit
/// outside that sends the config key instead — see
/// [`key_str`](AppUnitMap::key_str).
#[derive(Clone, Copy, PartialEq, Eq, Hash, Debug, Structural)]
pub struct AppUnitKey {
    raw: u32,
}

impl AppUnitKey {
    /// Which unit it is.
    pub closed spec fn at(self) -> nat {
        self.raw as nat
    }

    /// The key to a unit.
    pub closed spec fn of(at: nat) -> AppUnitKey {
        AppUnitKey { raw: at as u32 }
    }

    /// The bare index, which is how a key travels.
    pub fn index(self) -> (index: usize)
        ensures
            index == self.at(),
    {
        self.raw as usize
    }

    /// The key that travelled as `index`, which wraps at the size of one.
    /// The largest one is no key.
    pub fn from_index(index: usize) -> (key: Option<Self>)
        ensures
            match key {
                Some(key) => key.at() == index as int % 0x1_0000_0000 && key.at() < u32::MAX,
                None => index as int % 0x1_0000_0000 == u32::MAX,
            },
    {
        let raw: u32 = (index as u64 % 0x1_0000_0000) as u32;
        if raw == u32::MAX {
            None
        } else {
            Some(AppUnitKey { raw })
        }
    }

    /// The key to a unit is to that unit.
    pub proof fn lemma_of(at: nat)
        requires
            at < u32::MAX,
        ensures
            AppUnitKey::of(at).at() == at,
    {
    }

    /// Two keys to one unit are one key.
    pub proof fn one_key_per_unit(self, other: Self)
        ensures
            self.at() == other.at() <==> self == other,
    {
    }
}

/// One unit, as the config declared it.
pub struct AppUnitEntry {
    /// What it is called and what it runs.
    pub behavior: UnitBehavior,
    /// How many bytes its log keeps.
    pub log_size: usize,
    /// Which list it is drawn in.
    pub panel: ConfigPanel,
    /// Whether its escape sequences are read.
    pub parse_ansi: bool,
    /// The groups it belongs to.
    pub groups: Vec<String>,
    /// What it depends on directly.
    pub depends: Vec<usize>,
}

/// Every proc of a checked config, as a unit.
///
/// It owns the interner, and so is the only place a name becomes an
/// [`AppUnitKey`]: everything above it — the screen, the commands it sends —
/// addresses a unit by key and never by text.
pub struct AppUnitMap {
    /// The one interner every key in the session was minted against.
    interner: Interner,
    /// The units, by key.
    units: Vec<AppUnitEntry>,
    /// The largest log here, in chunks.
    log_capacity_max: usize,
    /// The whole `depends` relation, which is what orders a start.
    dependency_graph: DependencyGraph,
    /// What the session said about escape sequences.
    parse_ansi_session: bool,
}

/// One problem, as it is said of a config.
#[verifier::ext_equal]
pub enum Problem {
    Reserved(Seq<char>),
    RunAndModes(Seq<char>),
    UnknownDependency(Seq<char>, Seq<char>),
    Cycle(Seq<Seq<char>>),
    Other,
}

/// The problem an error reports.
pub open spec fn problem_of(error: AppConfigError) -> Problem {
    match error {
        AppConfigError::ReservedCharacter { name, character } => if character == TARGET_SEPARATOR {
            Problem::Reserved(name@)
        } else {
            Problem::Other
        },
        AppConfigError::RunAndModes(proc) => Problem::RunAndModes(proc@),
        AppConfigError::UnknownDependency { proc, depends } => Problem::UnknownDependency(
            proc@,
            depends@,
        ),
        AppConfigError::Cycle(procs) => Problem::Cycle(text::texts(procs@)),
        _ => Problem::Other,
    }
}

/// The problems a list of errors reports.
pub open spec fn problems_of(errors: Seq<AppConfigError>) -> Seq<Problem> {
    Seq::new(errors.len(), |i: int| problem_of(errors[i]))
}

/// The keys procs are declared under.
pub open spec fn keys_of(procs: Seq<ConfigProc>) -> Seq<Seq<char>> {
    Seq::new(procs.len(), |i: int| procs[i].key@)
}

/// Whether every proc has a key of its own, as the keys of a mapping do, and
/// there are no more of them than keys to be had.
pub open spec fn sound_keys(config: Config) -> bool {
    &&& keys_of(config.procs@).no_duplicates()
    &&& config.procs@.len() < u32::MAX
}

/// Those of the first `end` groups that are named with the separator.
pub open spec fn group_problems(groups: Seq<String>, end: int) -> Seq<Problem>
    decreases end,
{
    if end <= 0 {
        Seq::empty()
    } else if groups[end - 1]@.contains(TARGET_SEPARATOR) {
        group_problems(groups, end - 1).push(Problem::Reserved(groups[end - 1]@))
    } else {
        group_problems(groups, end - 1)
    }
}

/// What is wrong with a proc by itself: a key or a group named with the
/// separator, or two answers to how it runs.
pub open spec fn own_problems(proc: ConfigProc) -> Seq<Problem> {
    let key = if proc.key@.contains(TARGET_SEPARATOR) {
        seq![Problem::Reserved(proc.key@)]
    } else {
        Seq::empty()
    };
    let both = if proc.run is Some && proc.modes is Some {
        seq![Problem::RunAndModes(proc.key@)]
    } else {
        Seq::empty()
    };
    key + group_problems(proc.groups@, proc.groups@.len() as int) + both
}

/// What is wrong with each of the first `end` procs by itself.
pub open spec fn proc_problems(procs: Seq<ConfigProc>, end: int) -> Seq<Problem>
    decreases end,
{
    if end <= 0 {
        Seq::empty()
    } else {
        proc_problems(procs, end - 1) + own_problems(procs[end - 1])
    }
}

/// Those of the first `end` dependencies of `proc` that are no proc.
pub open spec fn unknown(procs: Seq<ConfigProc>, proc: ConfigProc, end: int) -> Seq<Problem>
    decreases end,
{
    if end <= 0 {
        Seq::empty()
    } else if keys_of(procs).contains(proc.depends@[end - 1]@) {
        unknown(procs, proc, end - 1)
    } else {
        unknown(procs, proc, end - 1).push(
            Problem::UnknownDependency(proc.key@, proc.depends@[end - 1]@),
        )
    }
}

/// The dependencies of the first `end` procs that are no proc.
pub open spec fn depends_problems(procs: Seq<ConfigProc>, end: int) -> Seq<Problem>
    decreases end,
{
    if end <= 0 {
        Seq::empty()
    } else {
        depends_problems(procs, end - 1) + unknown(
            procs,
            procs[end - 1],
            procs[end - 1].depends@.len() as int,
        )
    }
}

/// `edges`, and after them those from the proc at `from` to what its first
/// `end` dependencies name, each of them once and only where it names a proc.
pub open spec fn edges_from(
    edges: Seq<(int, int)>,
    procs: Seq<ConfigProc>,
    from: int,
    end: int,
) -> Seq<(int, int)>
    decreases end,
{
    if end <= 0 {
        edges
    } else {
        let before = edges_from(edges, procs, from, end - 1);
        let name = procs[from].depends@[end - 1]@;
        if keys_of(procs).contains(name) && !before.contains(
            (from, keys_of(procs).index_of(name)),
        ) {
            before.push((from, keys_of(procs).index_of(name)))
        } else {
            before
        }
    }
}

/// The edges of the first `end` procs.
pub open spec fn edges_of(procs: Seq<ConfigProc>, end: int) -> Seq<(int, int)>
    decreases end,
{
    if end <= 0 {
        Seq::empty()
    } else {
        edges_from(
            edges_of(procs, end - 1),
            procs,
            end - 1,
            procs[end - 1].depends@.len() as int,
        )
    }
}

/// What waits on what: the procs by their place in the config, and an edge for
/// every dependency that names one.
pub open spec fn graph_of(procs: Seq<ConfigProc>) -> GraphView {
    GraphView {
        nodes: Seq::new(procs.len(), |i: int| i as usize),
        edges: edges_of(procs, procs.len() as int),
    }
}

/// The keys of the procs at `places`.
pub open spec fn named(procs: Seq<ConfigProc>, places: Seq<usize>) -> Seq<Seq<char>> {
    Seq::new(places.len(), |i: int| procs[places[i] as int].key@)
}

/// The circles among the procs, by key.
pub open spec fn cycle_problems(procs: Seq<ConfigProc>) -> Seq<Problem> {
    let waits = graph_of(procs);
    let circles = waits.circles(waits.wanted(waits.nodes), waits.nodes.len() as int);
    Seq::new(circles.len(), |i: int| Problem::Cycle(named(procs, circles[i])))
}

/// Everything wrong with a config: first what is wrong with each proc by
/// itself, then what each depends on and is not there, then the circles.
pub open spec fn problems(config: Config) -> Seq<Problem> {
    let procs = config.procs@;
    proc_problems(procs, procs.len() as int) + depends_problems(procs, procs.len() as int)
        + cycle_problems(procs)
}

/// Where a run happens: a mode's own directory wins, and the proc's stands in
/// for a mode that named none.
pub open spec fn folded_dir(mode: Option<String>, proc: Option<String>) -> Option<Seq<char>> {
    match mode {
        Some(dir) => Some(dir@),
        None => text::opt_text(proc),
    }
}

/// What a proc comes to as a unit: named by its name or else by its key, and
/// running its `run`, or else one of its `modes`, or else nothing.
pub open spec fn behavior_of(proc: ConfigProc) -> BehaviorText {
    BehaviorText {
        name: match proc.name {
            Some(name) => name@,
            None => proc.key@,
        },
        short: text::opt_text(proc.name_short),
        kind: match (proc.run, proc.modes) {
            (Some(run), _) => TypeText::Run(
                RunText { commands: run.says(), working_dir: text::opt_text(proc.working_dir) },
            ),
            (None, Some(modes)) => TypeText::Modes(
                Seq::new(
                    modes@.len(),
                    |i: int|
                        ModeText {
                            name: modes@[i].name@,
                            short: text::opt_text(modes@[i].name_short),
                            run: RunText {
                                commands: modes@[i].run.says(),
                                working_dir: folded_dir(modes@[i].working_dir, proc.working_dir),
                            },
                        },
                ),
            ),
            (None, None) => TypeText::Noop,
        },
    }
}

/// One unit, as the config declared it.
#[verifier::ext_equal]
pub struct EntryView {
    pub behavior: BehaviorText,
    pub log_size: usize,
    pub panel: ConfigPanel,
    pub parse_ansi: bool,
    pub groups: Seq<Seq<char>>,
    pub depends: Seq<usize>,
}

/// A map: the units, the keys they are declared under, and what waits on
/// what.
#[verifier::ext_equal]
pub struct UnitMapView {
    pub keys: Seq<Seq<char>>,
    pub units: Seq<EntryView>,
    pub waits: GraphView,
    pub log_capacity: int,
    pub parse_ansi: bool,
}

impl View for AppUnitEntry {
    type V = EntryView;

    open spec fn view(&self) -> EntryView {
        EntryView {
            behavior: self.behavior@,
            log_size: self.log_size,
            panel: self.panel,
            parse_ansi: self.parse_ansi,
            groups: text::texts(self.groups@),
            depends: self.depends@,
        }
    }
}

/// What the config says of how much output the units keep.
pub open spec fn session_size(config: Config) -> usize {
    match config.log_size {
        Some(size) => size.0,
        None => config::DEFAULT_LOG_SIZE,
    }
}

/// What the config says of escape sequences.
pub open spec fn session_ansi(config: Config) -> bool {
    match config.parse_ansi {
        Some(parse_ansi) => parse_ansi,
        None => config::DEFAULT_PARSE_ANSI,
    }
}

/// How much output the proc at `i` keeps.
pub open spec fn size_of(config: Config, i: int) -> usize {
    match config.procs@[i].log_size {
        Some(size) => size.0,
        None => session_size(config),
    }
}

/// How many chunks a log of so many bytes holds.
pub open spec fn chunks_for(bytes: usize) -> int {
    if bytes < LOG_CHUNK_SIZE {
        1
    } else {
        bytes as int / LOG_CHUNK_SIZE as int
    }
}

/// How many chunks the largest log of the first `end` procs holds.
pub open spec fn largest(config: Config, end: int) -> int
    decreases end,
{
    if end <= 0 {
        0
    } else {
        let before = largest(config, end - 1);
        let chunks = chunks_for(size_of(config, end - 1));
        if before < chunks {
            chunks
        } else {
            before
        }
    }
}

/// What the proc at `i` comes to.
pub open spec fn entry_of(config: Config, i: int) -> EntryView {
    let proc = config.procs@[i];
    let waits = graph_of(config.procs@);
    EntryView {
        behavior: behavior_of(proc),
        log_size: size_of(config, i),
        panel: proc.panel,
        parse_ansi: match proc.parse_ansi {
            Some(parse_ansi) => parse_ansi,
            None => session_ansi(config),
        },
        groups: text::texts(proc.groups@),
        depends: waits.direct(i as usize, waits.edges.len() as int),
    }
}

/// What a config comes to.
pub open spec fn map_of(config: Config) -> UnitMapView {
    UnitMapView {
        keys: keys_of(config.procs@),
        units: Seq::new(config.procs@.len(), |i: int| entry_of(config, i)),
        waits: graph_of(config.procs@),
        log_capacity: largest(config, config.procs@.len() as int),
        parse_ansi: session_ansi(config),
    }
}

impl UnitMapView {
    /// Every unit has one key, and is a node of what waits on what.
    pub open spec fn wf(self) -> bool {
        &&& self.keys.no_duplicates()
        &&& self.keys.len() == self.units.len()
        &&& self.keys.len() < u32::MAX
        &&& self.waits.wf()
        &&& self.waits.nodes == Seq::new(self.keys.len(), |i: int| i as usize)
    }

    /// What each unit waits for directly is what the graph says it depends on.
    pub open spec fn depends_follow(self) -> bool {
        forall|key: int, i: int|
            #![trigger self.units[key].depends[i]]
            0 <= key < self.units.len() && 0 <= i < self.units[key].depends.len()
                ==> self.waits.edge(key, self.units[key].depends[i] as int)
    }

    /// The units declared under `group`, as far as the first `end` go: once
    /// for each time one says so.
    pub open spec fn members(self, group: Seq<char>, end: int) -> Seq<usize>
        decreases end,
    {
        if end <= 0 {
            Seq::empty()
        } else {
            self.members(group, end - 1) + said(
                self.units[end - 1].groups,
                group,
                self.units[end - 1].groups.len() as int,
                (end - 1) as usize,
            )
        }
    }
}

/// `place`, once for each of the first `end` groups that is `group`.
pub open spec fn said(
    groups: Seq<Seq<char>>,
    group: Seq<char>,
    end: int,
    place: usize,
) -> Seq<usize>
    decreases end,
{
    if end <= 0 {
        Seq::empty()
    } else if groups[end - 1] == group {
        said(groups, group, end - 1, place).push(place)
    } else {
        said(groups, group, end - 1, place)
    }
}

impl View for AppUnitMap {
    type V = UnitMapView;

    closed spec fn view(&self) -> UnitMapView {
        UnitMapView {
            keys: interner::interned(self.interner),
            units: Seq::new(self.units@.len(), |i: int| self.units@[i]@),
            waits: self.dependency_graph@,
            log_capacity: self.log_capacity_max as int,
            parse_ansi: self.parse_ansi_session,
        }
    }
}

/// A mode of a proc, as a unit runs it.
fn build_mode(mode: &config::ConfigUnitMode, working_dir: &Option<String>) -> (built: UnitMode)
    ensures
        built@ == (ModeText {
            name: mode.name@,
            short: text::opt_text(mode.name_short),
            run: RunText {
                commands: mode.run.says(),
                working_dir: folded_dir(mode.working_dir, *working_dir),
            },
        }),
{
    let dir = match &mode.working_dir {
        Some(dir) => Some(dir.clone()),
        None => copy_text(working_dir),
    };
    let run = UnitRun { commands: mode.run.copy().commands, working_dir: dir };
    assert(run@.commands == mode.run.says());
    UnitMode { name: mode.name.clone(), short: copy_text(&mode.name_short), run }
}

impl AppUnitMap {
    /// What a proc comes to as a unit.
    ///
    /// Where each run happens is settled here and nowhere else: a mode's
    /// directory wins, the proc's stands in for a mode that named none, and
    /// neither means the child inherits.
    pub fn build_behavior(proc: &ConfigProc) -> (behavior: UnitBehavior)
        ensures
            behavior@ == behavior_of(*proc),
    {
        let name = match &proc.name {
            Some(name) => name.clone(),
            None => proc.key.clone(),
        };
        let short = copy_text(&proc.name_short);
        let kind = match &proc.run {
            Some(run) => {
                let run = UnitRun {
                    commands: run.copy().commands,
                    working_dir: copy_text(&proc.working_dir),
                };
                assert(run@.commands == proc.run->0.says());
                UnitType::Run(run)
            },
            None => match &proc.modes {
                Some(modes) => {
                    let mut built: Vec<UnitMode> = Vec::new();
                    let mut i: usize = 0;
                    while i < modes.len()
                        invariant
                            i <= modes@.len(),
                            built@.len() == i,
                            forall|j: int|
                                0 <= j < i ==> (#[trigger] built@[j])@ == (ModeText {
                                    name: modes@[j].name@,
                                    short: text::opt_text(modes@[j].name_short),
                                    run: RunText {
                                        commands: modes@[j].run.says(),
                                        working_dir: folded_dir(
                                            modes@[j].working_dir,
                                            proc.working_dir,
                                        ),
                                    },
                                }),
                        decreases modes@.len() - i,
                    {
                        built.push(build_mode(&modes[i], &proc.working_dir));
                        i = i + 1;
                    }
                    UnitType::Modes(built)
                },
                None => UnitType::Noop,
            },
        };
        let behavior = UnitBehavior { name, short, kind };
        assert(behavior@.kind =~= behavior_of(*proc).kind);
        behavior
    }

    /// Note what is wrong with a proc by itself.
    fn check_proc(proc: &ConfigProc, errors: &mut Vec<AppConfigError>)
        ensures
            problems_of(final(errors)@) == problems_of(old(errors)@) + own_problems(*proc),
    {
        let ghost first = problems_of(errors@);
        if contains_char(proc.key.as_str(), TARGET_SEPARATOR) {
            errors.push(
                AppConfigError::ReservedCharacter {
                    name: proc.key.clone(),
                    character: TARGET_SEPARATOR,
                },
            );
        }
        let ghost with_key = problems_of(errors@);
        assert(with_key == first + if proc.key@.contains(TARGET_SEPARATOR) {
            seq![Problem::Reserved(proc.key@)]
        } else {
            Seq::empty()
        });
        let mut i: usize = 0;
        while i < proc.groups.len()
            invariant
                i <= proc.groups@.len(),
                problems_of(errors@) == with_key + group_problems(proc.groups@, i as int),
            decreases proc.groups@.len() - i,
        {
            let ghost before = problems_of(errors@);
            if contains_char(proc.groups[i].as_str(), TARGET_SEPARATOR) {
                errors.push(
                    AppConfigError::ReservedCharacter {
                        name: proc.groups[i].clone(),
                        character: TARGET_SEPARATOR,
                    },
                );
                assert(problems_of(errors@) == before.push(
                    Problem::Reserved(proc.groups@[i as int]@),
                ));
            }
            i = i + 1;
        }
        let ghost with_groups = problems_of(errors@);
        if proc.run.is_some() && proc.modes.is_some() {
            errors.push(AppConfigError::RunAndModes(proc.key.clone()));
            assert(problems_of(errors@) == with_groups.push(Problem::RunAndModes(proc.key@)));
        }
        assert(problems_of(errors@) == first + own_problems(*proc));
    }

    /// Take every proc's key in, and note what is wrong with each by itself.
    fn declare(procs: &Vec<ConfigProc>, errors: &mut Vec<AppConfigError>) -> (declared: (
        Interner,
        DependencyGraph,
    ))
        requires
            keys_of(procs@).no_duplicates(),
            procs@.len() < u32::MAX,
        ensures
            problems_of(final(errors)@) == problems_of(old(errors)@) + proc_problems(
                procs@,
                procs@.len() as int,
            ),
            interner::interned(declared.0) == keys_of(procs@),
            declared.1@.wf(),
            declared.1@.nodes == graph_of(procs@).nodes,
            declared.1@.edges == Seq::<(int, int)>::empty(),
    {
        let ghost first = problems_of(errors@);
        let ghost keys = keys_of(procs@);
        let mut interner = Interner::new();
        let mut waits = DependencyGraph::new();
        let mut i: usize = 0;
        while i < procs.len()
            invariant
                i <= procs@.len() < u32::MAX,
                keys == keys_of(procs@),
                keys.no_duplicates(),
                problems_of(errors@) == first + proc_problems(procs@, i as int),
                interner::interned(interner) == keys.take(i as int),
                waits@.wf(),
                waits@.nodes == Seq::new(i as nat, |j: int| j as usize),
                waits@.edges == Seq::<(int, int)>::empty(),
            decreases procs@.len() - i,
        {
            Self::check_proc(&procs[i], errors);
            proof {
                assert(!keys.take(i as int).contains(keys[i as int])) by {
                    if keys.take(i as int).contains(keys[i as int]) {
                        let j = keys.take(i as int).index_of(keys[i as int]);
                        assert(keys[j] == keys[i as int]);
                    }
                }
                assert(keys.take(i as int).push(keys[i as int]) == keys.take(i + 1));
                assert(keys.take(i + 1).no_duplicates());
            }
            let number = interner.get_or_intern(procs[i].key.as_str());
            assert(number == i) by {
                assert(keys.take(i + 1)[i as int] == keys[i as int]);
                assert(keys.take(i + 1)[number as int] == keys[number as int]);
            }
            let ghost before = waits@.nodes;
            assert(!before.contains(number)) by {
                if before.contains(number) {
                    let j = before.index_of(number);
                    assert(before[j] == j as usize);
                }
            }
            waits.insert(number);
            assert(before.push(number) == Seq::new((i + 1) as nat, |j: int| j as usize));
            i = i + 1;
        }
        assert(keys.take(i as int) == keys);
        (interner, waits)
    }

    /// Add the edges of every proc to what waits on what, and note every
    /// dependency that is no proc.
    ///
    /// One that is no proc gets no edge: that would invent the node it points
    /// at, and the phantom would then turn up in the start order as a proc
    /// nobody declared.
    fn connect(
        procs: &Vec<ConfigProc>,
        interner: &Interner,
        waits: &mut DependencyGraph,
        errors: &mut Vec<AppConfigError>,
    )
        requires
            keys_of(procs@).no_duplicates(),
            interner::interned(*interner) == keys_of(procs@),
            old(waits)@.wf(),
            old(waits)@.nodes == graph_of(procs@).nodes,
            old(waits)@.edges == Seq::<(int, int)>::empty(),
        ensures
            problems_of(final(errors)@) == problems_of(old(errors)@) + depends_problems(
                procs@,
                procs@.len() as int,
            ),
            final(waits)@.wf(),
            final(waits)@ == graph_of(procs@),
    {
        let ghost first = problems_of(errors@);
        let ghost keys = keys_of(procs@);
        let ghost nodes = graph_of(procs@).nodes;
        let mut i: usize = 0;
        while i < procs.len()
            invariant
                i <= procs@.len(),
                keys == keys_of(procs@),
                keys.no_duplicates(),
                nodes == graph_of(procs@).nodes,
                interner::interned(*interner) == keys,
                problems_of(errors@) == first + depends_problems(procs@, i as int),
                waits@.wf(),
                waits@.nodes == nodes,
                waits@.edges == edges_of(procs@, i as int),
            decreases procs@.len() - i,
        {
            let ghost said = problems_of(errors@);
            let ghost known = waits@.edges;
            let proc = &procs[i];
            let mut d: usize = 0;
            while d < proc.depends.len()
                invariant
                    i < procs@.len(),
                    *proc == procs@[i as int],
                    d <= proc.depends@.len(),
                    keys == keys_of(procs@),
                    keys.no_duplicates(),
                    nodes == graph_of(procs@).nodes,
                    interner::interned(*interner) == keys,
                    problems_of(errors@) == said + unknown(procs@, *proc, d as int),
                    waits@.wf(),
                    waits@.nodes == nodes,
                    waits@.edges == edges_from(known, procs@, i as int, d as int),
                decreases proc.depends@.len() - d,
            {
                let ghost name = proc.depends@[d as int]@;
                match interner.get(proc.depends[d].as_str()) {
                    Some(number) => {
                        proof {
                            assert(keys.contains(name));
                            assert(keys[keys.index_of(name)] == name);
                            assert(keys.index_of(name) == number);
                            assert(nodes[i as int] == i);
                            assert(nodes[number as int] == number);
                            assert(nodes.index_of(i) == i) by {
                                assert(nodes[nodes.index_of(i)] == i);
                            }
                            assert(nodes.index_of(number) == number) by {
                                assert(nodes[nodes.index_of(number)] == number);
                            }
                        }
                        waits.add_dependency(i, number);
                    },
                    None => {
                        let ghost before = problems_of(errors@);
                        errors.push(
                            AppConfigError::UnknownDependency {
                                proc: proc.key.clone(),
                                depends: proc.depends[d].clone(),
                            },
                        );
                        assert(problems_of(errors@) == before.push(
                            Problem::UnknownDependency(proc.key@, name),
                        ));
                    },
                }
                d = d + 1;
            }
            i = i + 1;
        }
    }

    /// Note every circle.
    fn check_cycles(
        procs: &Vec<ConfigProc>,
        interner: &Interner,
        waits: &DependencyGraph,
        errors: &mut Vec<AppConfigError>,
    )
        requires
            procs@.len() < u32::MAX,
            interner::interned(*interner) == keys_of(procs@),
            waits@.wf(),
            waits@ == graph_of(procs@),
        ensures
            problems_of(final(errors)@) == problems_of(old(errors)@) + cycle_problems(procs@),
    {
        let ghost first = problems_of(errors@);
        let resolved = waits.resolve();
        let cycles = resolved.cycles();
        let ghost circles = resolved.circles();
        let ghost found = cycle_problems(procs@);
        let mut i: usize = 0;
        while i < cycles.len()
            invariant
                procs@.len() < u32::MAX,
                interner::interned(*interner) == keys_of(procs@),
                waits@.wf(),
                waits@ == graph_of(procs@),
                i <= cycles@.len(),
                circles == Seq::new(cycles@.len(), |j: int| cycles@[j]@),
                circles == waits@.circles(
                    waits@.wanted(waits@.nodes),
                    waits@.nodes.len() as int,
                ),
                found == cycle_problems(procs@),
                problems_of(errors@) == first + found.take(i as int),
            decreases cycles@.len() - i,
        {
            let ghost circle = circles[i as int];
            let mut names: Vec<String> = Vec::new();
            let mut j: usize = 0;
            proof {
                lemma_circles_inside(
                    waits@,
                    waits@.wanted(waits@.nodes),
                    waits@.nodes.len() as int,
                );
                assert(circles[i as int] == cycles@[i as int]@);
            }
            while j < cycles[i].len()
                invariant
                    procs@.len() < u32::MAX,
                    interner::interned(*interner) == keys_of(procs@),
                    i < cycles@.len(),
                    circle == cycles@[i as int]@,
                    forall|k: int| 0 <= k < circle.len() ==> #[trigger] circle[k] < procs@.len(),
                    j <= circle.len(),
                    names@.len() == j,
                    forall|k: int|
                        0 <= k < j ==> (#[trigger] names@[k])@ == procs@[circle[k] as int].key@,
                decreases circle.len() - j,
            {
                assert(circle[j as int] < procs@.len());
                let number = cycles[i][j] as u32;
                match interner.resolve(number) {
                    Some(name) => {
                        assert(name@ == keys_of(procs@)[number as int]);
                        names.push(text::owned(name));
                    },
                    None => {
                        assert(false);
                    },
                }
                j = j + 1;
            }
            proof {
                assert(text::texts(names@) == named(procs@, circle));
                assert(found[i as int] == Problem::Cycle(named(procs@, circle)));
                assert(found.take(i as int).push(found[i as int]) == found.take(i + 1));
            }
            let ghost before = problems_of(errors@);
            errors.push(AppConfigError::Cycle(names));
            assert(problems_of(errors@) == before.push(found[i as int]));
            i = i + 1;
        }
        assert(found.take(i as int) == found);
    }

    /// Check `config`, intern every key, and build a unit per proc.
    ///
    /// Every problem is collected before any of them is reported — see
    /// [`AppConfigError::Errors`]. A missing dependency does not prevent the
    /// cycle check: the edge is simply not added, so both kinds of problem
    /// come back together.
    pub fn new(config: &Config) -> (result: Result<Self, AppConfigError>)
        requires
            sound_keys(*config),
        ensures
            match result {
                Ok(map) => {
                    &&& problems(*config).len() == 0
                    &&& map@ == map_of(*config)
                    &&& map@.wf()
                    &&& map@.depends_follow()
                },
                Err(AppConfigError::Errors(errors)) => {
                    &&& problems(*config).len() > 0
                    &&& problems_of(errors@) == problems(*config)
                },
                Err(_) => false,
            },
    {
        let mut errors: Vec<AppConfigError> = Vec::new();
        assert(problems_of(errors@) == Seq::<Problem>::empty());
        let (interner, mut waits) = Self::declare(&config.procs, &mut errors);
        Self::connect(&config.procs, &interner, &mut waits, &mut errors);
        Self::check_cycles(&config.procs, &interner, &waits, &mut errors);
        assert(problems_of(errors@) == problems(*config));
        assert(errors@.len() == problems_of(errors@).len());
        if errors.len() > 0 {
            return Err(AppConfigError::Errors(errors));
        }
        let size_session = config.log_size();
        let ansi_session = config.parse_ansi();
        let mut units: Vec<AppUnitEntry> = Vec::new();
        let mut log_capacity_max: usize = 0;
        let mut i: usize = 0;
        while i < config.procs.len()
            invariant
                i <= config.procs@.len() < u32::MAX,
                size_session == session_size(*config),
                ansi_session == session_ansi(*config),
                waits@.wf(),
                waits@ == graph_of(config.procs@),
                log_capacity_max == largest(*config, i as int),
                units@.len() == i,
                forall|j: int| 0 <= j < i ==> (#[trigger] units@[j])@ == entry_of(*config, j),
            decreases config.procs@.len() - i,
        {
            let proc = &config.procs[i];
            let log_size = proc.log_size(size_session);
            let depends = waits.dependencies(i);
            units.push(
                AppUnitEntry {
                    behavior: Self::build_behavior(proc),
                    log_size,
                    panel: proc.panel,
                    parse_ansi: proc.parse_ansi(ansi_session),
                    groups: text::copy_texts(&proc.groups),
                    depends,
                },
            );
            let capacity = Log::capacity_for_bytes(log_size);
            if log_capacity_max < capacity {
                log_capacity_max = capacity;
            }
            i = i + 1;
        }
        let map = AppUnitMap {
            interner,
            units,
            log_capacity_max,
            dependency_graph: waits,
            parse_ansi_session: ansi_session,
        };
        assert(map@.units =~= map_of(*config).units);
        assert(map@ == map_of(*config));
        proof {
            assert forall|key: int, i: int|
                #![trigger map@.units[key].depends[i]]
                0 <= key < map@.units.len() && 0 <= i
                    < map@.units[key].depends.len() implies map@.waits.edge(
                key,
                map@.units[key].depends[i] as int,
            ) by {
                lemma_direct(map@.waits, key, map@.waits.edges.len() as int, i);
            }
        }
        Ok(map)
    }
}

impl AppUnitMap {
    /// The key `name` was interned as, if a proc was declared under it.
    ///
    /// The one door from text to [`AppUnitKey`]: what comes off a command
    /// line or out of a config is a name, and everything past here is a key.
    pub fn key(&self, name: &str) -> (key: Option<AppUnitKey>)
        requires
            self@.wf(),
        ensures
            match key {
                Some(key) => key.at() < self@.keys.len() && self@.keys[key.at() as int] == name@,
                None => !self@.keys.contains(name@),
            },
    {
        match self.interner.get(name) {
            Some(number) => Some(AppUnitKey { raw: number as u32 }),
            None => None,
        }
    }

    /// The text `key` was interned from, for whatever has to name a unit
    /// outside this process — where an [`AppUnitKey`] means nothing.
    pub fn key_str(&self, key: AppUnitKey) -> (name: Option<&str>)
        ensures
            match name {
                Some(name) => key.at() < self@.keys.len() && self@.keys[key.at() as int] == name@,
                None => key.at() >= self@.keys.len(),
            },
    {
        self.interner.resolve(key.raw)
    }

    /// The unit under `key`, or the failure of there being none.
    ///
    /// An unknown key is a mistake in a config or a command and not a state
    /// a unit can be in, so it is an error rather than a quiet no-op.
    pub fn entry(&self, key: AppUnitKey) -> (entry: Result<&AppUnitEntry, AppError>)
        ensures
            match entry {
                Ok(entry) => key.at() < self@.units.len() && entry@ == self@.units[key.at() as int],
                Err(error) => key.at() >= self@.units.len() && error == AppError::NotFound,
            },
    {
        let index = key.index();
        if index < self.units.len() {
            assert(self@.units[index as int] == self.units@[index as int]@);
            Ok(&self.units[index])
        } else {
            Err(AppError::NotFound)
        }
    }

    /// What the unit under `key` is called on screen.
    pub fn name(&self, key: AppUnitKey) -> (name: Result<String, AppError>)
        ensures
            match name {
                Ok(name) => key.at() < self@.units.len() && name@
                    == self@.units[key.at() as int].behavior.name,
                Err(error) => key.at() >= self@.units.len() && error == AppError::NotFound,
            },
    {
        match self.entry(key) {
            Ok(entry) => Ok(entry.behavior.name.clone()),
            Err(error) => Err(error),
        }
    }

    /// The shorter name for the unit under `key`, if it declared one.
    pub fn name_short(&self, key: AppUnitKey) -> (name: Result<Option<String>, AppError>)
        ensures
            match name {
                Ok(name) => key.at() < self@.units.len() && text::opt_text(name)
                    == self@.units[key.at() as int].behavior.short,
                Err(error) => key.at() >= self@.units.len() && error == AppError::NotFound,
            },
    {
        match self.entry(key) {
            Ok(entry) => Ok(copy_text(&entry.behavior.short)),
            Err(error) => Err(error),
        }
    }

    /// Which list `key` is drawn in.
    ///
    /// [`Main`](ConfigPanel::Main) for a key no proc was declared under, which
    /// wants the same answer as a proc that said nothing: there is one list
    /// until a config asks for two.
    pub fn panel(&self, key: AppUnitKey) -> (panel: ConfigPanel)
        ensures
            panel == if key.at() < self@.units.len() {
                self@.units[key.at() as int].panel
            } else {
                ConfigPanel::Main
            },
    {
        match self.entry(key) {
            Ok(entry) => entry.panel,
            Err(_) => ConfigPanel::Main,
        }
    }

    /// Whether `key`'s escape sequences are read as escape sequences.
    ///
    /// The session's answer for a key no proc was declared under, which is
    /// what a proc that said nothing gets too.
    pub fn parse_ansi(&self, key: AppUnitKey) -> (parse_ansi: bool)
        ensures
            parse_ansi == if key.at() < self@.units.len() {
                self@.units[key.at() as int].parse_ansi
            } else {
                self@.parse_ansi
            },
    {
        match self.entry(key) {
            Ok(entry) => entry.parse_ansi,
            Err(_) => self.parse_ansi_session,
        }
    }

    /// How many chunks the largest log here holds.
    ///
    /// The largest and not each, because this is what a caller reusing one
    /// reader across units builds it at: a reader holds its ring to whichever
    /// log it is put on but never past the size it was built for.
    pub fn log_capacity(&self) -> (capacity: usize)
        ensures
            capacity == self@.log_capacity,
    {
        self.log_capacity_max
    }

    /// Every unit's key.
    pub fn keys(&self) -> (keys: Vec<AppUnitKey>)
        requires
            self@.wf(),
        ensures
            keys@.len() == self@.units.len(),
            forall|i: int|
                0 <= i < keys@.len() ==> (#[trigger] keys@[i]).at() == i && keys@[i]
                    == AppUnitKey::of(i as nat),
    {
        let mut keys: Vec<AppUnitKey> = Vec::new();
        let mut raw: usize = 0;
        while raw < self.units.len()
            invariant
                self@.wf(),
                raw <= self.units@.len(),
                self.units@.len() == self@.units.len(),
                keys@.len() == raw,
                forall|i: int|
                    0 <= i < raw ==> (#[trigger] keys@[i]).at() == i && keys@[i] == AppUnitKey::of(
                        i as nat,
                    ),
            decreases self.units@.len() - raw,
        {
            keys.push(AppUnitKey { raw: raw as u32 });
            raw = raw + 1;
        }
        keys
    }

    /// What `key` must wait for, one edge out.
    ///
    /// `None` is "nothing to wait for" — both a unit that depends on nothing
    /// and a key no unit was declared under, which want the same answer.
    pub fn direct_dependencies(&self, key: usize) -> (depends: Option<&Vec<usize>>)
        ensures
            match depends {
                Some(depends) => {
                    &&& key < self@.units.len()
                    &&& depends@ == self@.units[key as int].depends
                    &&& depends@.len() > 0
                },
                None => key >= self@.units.len() || self@.units[key as int].depends.len() == 0,
            },
    {
        if key < self.units.len() {
            assert(self@.units[key as int] == self.units@[key as int]@);
            if self.units[key].depends.len() > 0 {
                return Some(&self.units[key].depends);
            }
        }
        None
    }

    /// Every unit declared under a group name, or `None` if none was.
    pub fn group(&self, group: &str) -> (members: Option<Vec<usize>>)
        ensures
            match members {
                Some(members) => members@ == self@.members(group@, self@.units.len() as int)
                    && members@.len() > 0,
                None => self@.members(group@, self@.units.len() as int).len() == 0,
            },
    {
        let mut members: Vec<usize> = Vec::new();
        let mut i: usize = 0;
        while i < self.units.len()
            invariant
                i <= self.units@.len(),
                self.units@.len() == self@.units.len(),
                members@ == self@.members(group@, i as int),
            decreases self.units@.len() - i,
        {
            let ghost before = members@;
            let groups = &self.units[i].groups;
            assert(self@.units[i as int] == self.units@[i as int]@);
            let mut g: usize = 0;
            while g < groups.len()
                invariant
                    i < self.units@.len(),
                    *groups == self.units@[i as int].groups,
                    g <= groups@.len(),
                    members@ == before + said(
                        text::texts(groups@),
                        group@,
                        g as int,
                        i,
                    ),
                decreases groups@.len() - g,
            {
                if same_text(groups[g].as_str(), group) {
                    members.push(i);
                }
                g = g + 1;
            }
            i = i + 1;
        }
        if members.len() == 0 {
            None
        } else {
            Some(members)
        }
    }

    /// Everything `keys` need, transitively, in an order that starts them —
    /// see [`resolve_from_many`](DependencyGraph::resolve_from_many).
    pub fn resolve_dependency_chain(&self, keys: &[usize]) -> (chain: DependencyOrder)
        requires
            self@.wf(),
        ensures
            chain.placed() == self@.waits.at(self@.waits.order(self@.waits.wanted(keys@))),
            chain.circles() == self@.waits.circles(
                self@.waits.wanted(keys@),
                self@.waits.nodes.len() as int,
            ),
    {
        self.dependency_graph.resolve_from_many(keys)
    }
}

proof fn lemma_edges_from(edges: Seq<(int, int)>, procs: Seq<ConfigProc>, from: int, end: int)
    requires
        0 <= from < procs.len(),
        edges.no_duplicates(),
        forall|i: int|
            0 <= i < edges.len() ==> 0 <= (#[trigger] edges[i]).0 < procs.len() && 0 <= edges[i].1
                < procs.len(),
    ensures
        ({
            let after = edges_from(edges, procs, from, end);
            &&& after.no_duplicates()
            &&& forall|i: int|
                0 <= i < after.len() ==> 0 <= (#[trigger] after[i]).0 < procs.len() && 0
                    <= after[i].1 < procs.len()
        }),
    decreases end,
{
    if end > 0 {
        lemma_edges_from(edges, procs, from, end - 1);
    }
}

proof fn lemma_edges_of(procs: Seq<ConfigProc>, end: int)
    requires
        end <= procs.len(),
    ensures
        edges_of(procs, end).no_duplicates(),
        forall|i: int|
            0 <= i < edges_of(procs, end).len() ==> 0 <= (#[trigger] edges_of(procs, end)[i]).0
                < procs.len() && 0 <= edges_of(procs, end)[i].1 < procs.len(),
    decreases end,
{
    if end > 0 {
        lemma_edges_of(procs, end - 1);
        lemma_edges_from(
            edges_of(procs, end - 1),
            procs,
            end - 1,
            procs[end - 1].depends@.len() as int,
        );
    }
}

/// What a config says waits on what is a graph.
pub proof fn lemma_graph_of(procs: Seq<ConfigProc>)
    requires
        procs.len() < u32::MAX,
    ensures
        graph_of(procs).wf(),
{
    lemma_edges_of(procs, procs.len() as int);
}

/// In a config with nothing wrong, nothing needs itself.
pub proof fn a_checked_config_has_no_circle(config: Config, i: int)
    requires
        sound_keys(config),
        problems(config).len() == 0,
    ensures
        !graph_of(config.procs@).needs(i, i),
{
    let waits = graph_of(config.procs@);
    lemma_graph_of(config.procs@);
    graph::a_circle_never_goes_unreported(waits, waits.nodes);
    assert(cycle_problems(config.procs@).len() == 0);
    if waits.needs(i, i) {
        graph::lemma_needs_inside(waits, i, i);
        assert(waits.nodes.contains(waits.nodes[i]));
        assert(waits.wanted(waits.nodes).contains(i));
    }
}

/// What a node depends on directly is at the other end of an edge.
proof fn lemma_direct(waits: GraphView, key: int, end: int, i: int)
    requires
        waits.wf(),
        waits.nodes == Seq::new(waits.nodes.len(), |i: int| i as usize),
        waits.nodes.len() < u32::MAX,
        0 <= key < waits.nodes.len(),
        end <= waits.edges.len(),
        0 <= i < waits.direct(key as usize, end).len(),
    ensures
        waits.edge(key, waits.direct(key as usize, end)[i] as int),
    decreases end,
{
    if end > 0 {
        if i < waits.direct(key as usize, end - 1).len() {
            lemma_direct(waits, key, end - 1, i);
        } else {
            assert(waits.edges[end - 1] == (key, waits.edges[end - 1].1));
        }
    }
}

/// The nodes of every circle are nodes of the graph.
proof fn lemma_circles_inside(waits: GraphView, wanted: Set<int>, end: int)
    requires
        waits.wf(),
        waits.nodes == Seq::new(waits.nodes.len(), |i: int| i as usize),
        waits.nodes.len() < u32::MAX,
        end <= waits.nodes.len(),
    ensures
        forall|i: int, k: int|
            0 <= i < waits.circles(wanted, end).len() && 0 <= k < waits.circles(
                wanted,
                end,
            )[i].len() ==> #[trigger] waits.circles(wanted, end)[i][k] < waits.nodes.len(),
    decreases end,
{
    if end > 0 {
        lemma_circles_inside(waits, wanted, end - 1);
        lemma_circle_inside(waits, end - 1, waits.nodes.len() as int);
        let before = waits.circles(wanted, end - 1);
        let all = waits.circles(wanted, end);
        assert forall|i: int, k: int|
            0 <= i < all.len() && 0 <= k < all[i].len() implies #[trigger] all[i][k]
            < waits.nodes.len() by {
            if i < before.len() {
                assert(before[i] == all[i]);
                assert(before[i][k] < waits.nodes.len());
            }
        }
    }
}

proof fn lemma_circle_inside(waits: GraphView, place: int, end: int)
    requires
        waits.nodes == Seq::new(waits.nodes.len(), |i: int| i as usize),
        waits.nodes.len() < u32::MAX,
        end <= waits.nodes.len(),
    ensures
        forall|k: int|
            0 <= k < waits.circle(place, end).len() ==> #[trigger] waits.circle(place, end)[k]
                < waits.nodes.len(),
    decreases end,
{
    if end > 0 {
        lemma_circle_inside(waits, place, end - 1);
        let before = waits.circle(place, end - 1);
        let all = waits.circle(place, end);
        assert forall|k: int| 0 <= k < all.len() implies #[trigger] all[k]
            < waits.nodes.len() by {
            if k < before.len() {
                assert(before[k] == all[k]);
            }
        }
    }
}

} // verus!
