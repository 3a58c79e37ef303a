//! What a session promises of a config, said of the config itself: which procs
//! it is made of, what each of them waits for, and what a name on the command
//! line brings up.

use super::schedule;
use super::session;
use super::target::{Target, TargetView};
use super::unit_map;
use super::unit_map::{Problem, UnitMapView};
use crate::config::{Config, ConfigProc, ConfigUnitRun};
use crate::error::AppConfigError;
use crate::log::LOG_CHUNK_SIZE;
use crate::util::graph;
use crate::util::graph::GraphView;
use crate::util::text;
use vstd::prelude::*;
use vstd::string::*;

verus! {

/// Whether the `depends` of the proc at `from` names the one at `to`.
pub open spec fn depends_on(procs: Seq<ConfigProc>, from: int, to: int) -> bool {
    &&& 0 <= from < procs.len()
    &&& 0 <= to < procs.len()
    &&& exists|d: int|
        0 <= d < procs[from].depends@.len() && (#[trigger] procs[from].depends@[d])@
            == procs[to].key@
}

/// Whether each proc along `walk` depends on the one after it.
pub open spec fn is_walk(procs: Seq<ConfigProc>, walk: Seq<int>) -> bool {
    forall|i: int| 0 <= i < walk.len() - 1 ==> depends_on(procs, #[trigger] walk[i], walk[i + 1])
}

/// Whether the proc at `from` waits for the one at `to`, directly or through
/// others.
pub open spec fn waits_for(procs: Seq<ConfigProc>, from: int, to: int) -> bool {
    exists|walk: Seq<int>| #[trigger]
        is_walk(procs, walk) && walk.len() > 1 && walk[0] == from && walk.last() == to
}

proof fn lemma_key_at(procs: Seq<ConfigProc>, name: Seq<char>, at: int)
    requires
        unit_map::keys_of(procs).no_duplicates(),
        0 <= at < procs.len(),
        procs[at].key@ == name,
    ensures
        unit_map::keys_of(procs).contains(name),
        unit_map::keys_of(procs).index_of(name) == at,
{
    let keys = unit_map::keys_of(procs);
    assert(keys[at] == name);
    assert(keys[keys.index_of(name)] == name);
}

proof fn lemma_edges_from(
    edges: Seq<(int, int)>,
    procs: Seq<ConfigProc>,
    from: int,
    end: int,
    edge: (int, int),
)
    requires
        unit_map::keys_of(procs).no_duplicates(),
        0 <= from < procs.len(),
        0 <= end <= procs[from].depends@.len(),
    ensures
        unit_map::edges_from(edges, procs, from, end).contains(edge) <==> (edges.contains(edge) || (
        edge.0 == from && 0 <= edge.1 < procs.len() && exists|d: int|
            0 <= d < end && (#[trigger] procs[from].depends@[d])@ == procs[edge.1].key@)),
    decreases end,
{
    if end > 0 {
        lemma_edges_from(edges, procs, from, end - 1, edge);
        let keys = unit_map::keys_of(procs);
        let before = unit_map::edges_from(edges, procs, from, end - 1);
        let after = unit_map::edges_from(edges, procs, from, end);
        let name = procs[from].depends@[end - 1]@;
        if edge.0 == from && 0 <= edge.1 < procs.len() && name == procs[edge.1].key@ {
            lemma_key_at(procs, name, edge.1);
            if !before.contains(edge) {
                assert(after.last() == edge);
            }
        }
        if keys.contains(name) {
            let at = keys.index_of(name);
            assert(keys[at] == name);
            if !before.contains((from, at)) {
                assert(after == before.push((from, at)));
                if before.contains(edge) {
                    let i = before.index_of(edge);
                    assert(after[i] == edge);
                }
                if after.contains(edge) && !before.contains(edge) {
                    let i = after.index_of(edge);
                    assert(i == before.len());
                    assert(procs[from].depends@[end - 1]@ == procs[edge.1].key@);
                }
            }
        }
    }
}

proof fn lemma_edges_of(procs: Seq<ConfigProc>, end: int, edge: (int, int))
    requires
        unit_map::keys_of(procs).no_duplicates(),
        0 <= end <= procs.len(),
    ensures
        unit_map::edges_of(procs, end).contains(edge) <==> (edge.0 < end && depends_on(
            procs,
            edge.0,
            edge.1,
        )),
    decreases end,
{
    if end > 0 {
        lemma_edges_of(procs, end - 1, edge);
        lemma_edges_from(
            unit_map::edges_of(procs, end - 1),
            procs,
            end - 1,
            procs[end - 1].depends@.len() as int,
            edge,
        );
    }
}

/// What waits on what is what the config says: there is an edge between two
/// procs exactly where the one names the other.
pub proof fn the_graph_is_what_the_config_says(procs: Seq<ConfigProc>, from: int, to: int)
    requires
        unit_map::keys_of(procs).no_duplicates(),
    ensures
        unit_map::graph_of(procs).edge(from, to) <==> depends_on(procs, from, to),
{
    lemma_edges_of(procs, procs.len() as int, (from, to));
}

proof fn lemma_walk_leads(procs: Seq<ConfigProc>, walk: Seq<int>)
    requires
        unit_map::keys_of(procs).no_duplicates(),
        is_walk(procs, walk),
        walk.len() > 0,
    ensures
        unit_map::graph_of(procs).leads((walk.len() - 1) as nat, walk[0], walk.last()),
    decreases walk.len(),
{
    if walk.len() > 1 {
        let rest = walk.skip(1);
        assert forall|i: int| 0 <= i < rest.len() - 1 implies depends_on(
            procs,
            #[trigger] rest[i],
            rest[i + 1],
        ) by {
            assert(depends_on(procs, walk[i + 1], walk[i + 2]));
        }
        lemma_walk_leads(procs, rest);
        assert(depends_on(procs, walk[0], walk[1]));
        the_graph_is_what_the_config_says(procs, walk[0], walk[1]);
    }
}

proof fn lemma_leads_walk(procs: Seq<ConfigProc>, steps: nat, from: int, to: int) -> (walk: Seq<
    int,
>)
    requires
        unit_map::keys_of(procs).no_duplicates(),
        unit_map::graph_of(procs).leads(steps, from, to),
    ensures
        is_walk(procs, walk),
        walk.len() == steps + 1,
        walk[0] == from,
        walk.last() == to,
    decreases steps,
{
    let waits = unit_map::graph_of(procs);
    if steps == 0 {
        seq![from]
    } else {
        let mid = choose|mid: int| #[trigger]
            waits.edge(from, mid) && waits.leads((steps - 1) as nat, mid, to);
        let rest = lemma_leads_walk(procs, (steps - 1) as nat, mid, to);
        the_graph_is_what_the_config_says(procs, from, mid);
        let walk = seq![from] + rest;
        assert forall|i: int| 0 <= i < walk.len() - 1 implies depends_on(
            procs,
            #[trigger] walk[i],
            walk[i + 1],
        ) by {
            if i > 0 {
                assert(depends_on(procs, rest[i - 1], rest[i]));
            }
        }
        walk
    }
}

/// One proc needs another exactly where there is a walk from the one to the
/// other along what the config says.
pub proof fn needing_is_waiting(procs: Seq<ConfigProc>, from: int, to: int)
    requires
        unit_map::keys_of(procs).no_duplicates(),
    ensures
        unit_map::graph_of(procs).needs(from, to) <==> waits_for(procs, from, to),
{
    let waits = unit_map::graph_of(procs);
    if waits.needs(from, to) {
        let steps = choose|steps: nat| steps > 0 && #[trigger] waits.leads(steps, from, to);
        let walk = lemma_leads_walk(procs, steps, from, to);
        assert(is_walk(procs, walk));
    }
    if waits_for(procs, from, to) {
        let walk = choose|walk: Seq<int>| #[trigger]
            is_walk(procs, walk) && walk.len() > 1 && walk[0] == from && walk.last() == to;
        lemma_walk_leads(procs, walk);
    }
}

proof fn lemma_waits_inside(procs: Seq<ConfigProc>, from: int, to: int)
    requires
        waits_for(procs, from, to),
    ensures
        0 <= from < procs.len(),
        0 <= to < procs.len(),
{
    let walk = choose|walk: Seq<int>| #[trigger]
        is_walk(procs, walk) && walk.len() > 1 && walk[0] == from && walk.last() == to;
    assert(depends_on(procs, walk[0], walk[1]));
    assert(depends_on(procs, walk[walk.len() - 2], walk[walk.len() - 1]));
}

proof fn lemma_direct_has(waits: GraphView, key: int, end: int, to: int)
    requires
        waits.wf(),
        waits.nodes == Seq::new(waits.nodes.len(), |i: int| i as usize),
        waits.nodes.len() < u32::MAX,
        0 <= key < waits.nodes.len(),
        0 <= to < waits.nodes.len(),
        0 <= end <= waits.edges.len(),
    ensures
        waits.direct(key as usize, end).contains(to as usize) <==> waits.edges.take(end).contains(
            (key, to),
        ),
    decreases end,
{
    if end > 0 {
        lemma_direct_has(waits, key, end - 1, to);
        let before = waits.edges.take(end - 1);
        let edge = waits.edges[end - 1];
        let listed = waits.direct(key as usize, end - 1);
        assert(waits.edges.take(end) =~= before.push(edge));
        assert(before.push(edge).last() == edge);
        assert(waits.nodes[edge.0] == edge.0 as usize);
        assert(waits.nodes[edge.1] == edge.1 as usize);
        if before.contains((key, to)) {
            let i = before.index_of((key, to));
            assert(before.push(edge)[i] == (key, to));
        }
        if before.push(edge).contains((key, to)) && edge != (key, to) {
            let i = before.push(edge).index_of((key, to));
            assert(before[i] == (key, to));
        }
        if edge.0 == key {
            let after = listed.push(edge.1 as usize);
            assert(after.last() == edge.1 as usize);
            if listed.contains(to as usize) {
                let i = listed.index_of(to as usize);
                assert(after[i] == to as usize);
            }
            if after.contains(to as usize) && edge.1 != to {
                let i = after.index_of(to as usize);
                assert(listed[i] == to as usize);
            }
        }
    }
}

proof fn lemma_direct_inside(waits: GraphView, key: int, end: int, i: int)
    requires
        waits.wf(),
        waits.nodes == Seq::new(waits.nodes.len(), |i: int| i as usize),
        waits.nodes.len() < u32::MAX,
        0 <= key < waits.nodes.len(),
        0 <= end <= waits.edges.len(),
        0 <= i < waits.direct(key as usize, end).len(),
    ensures
        waits.direct(key as usize, end)[i] < waits.nodes.len(),
    decreases end,
{
    if end > 0 {
        let edge = waits.edges[end - 1];
        assert(waits.nodes[edge.1] == edge.1 as usize);
        if i < waits.direct(key as usize, end - 1).len() {
            lemma_direct_inside(waits, key, end - 1, i);
        }
    }
}

/// What a unit depends on directly is what its proc's `depends` names: every
/// proc it names, and no other.
pub proof fn a_unit_depends_on_what_its_proc_names(config: Config, key: int)
    requires
        unit_map::sound_keys(config),
        0 <= key < config.procs@.len(),
    ensures
        forall|to: int|
            0 <= to < config.procs@.len() ==> (unit_map::map_of(
                config,
            ).units[key].depends.contains(to as usize) <==> #[trigger] depends_on(
                config.procs@,
                key,
                to,
            )),
        forall|i: int|
            0 <= i < unit_map::map_of(config).units[key].depends.len()
                ==> #[trigger] unit_map::map_of(config).units[key].depends[i]
                < config.procs@.len(),
{
    let procs = config.procs@;
    let waits = unit_map::graph_of(procs);
    let depends = unit_map::map_of(config).units[key].depends;
    unit_map::lemma_graph_of(procs);
    assert(depends == waits.direct(key as usize, waits.edges.len() as int));
    assert(waits.edges.take(waits.edges.len() as int) =~= waits.edges);
    assert forall|to: int| 0 <= to < procs.len() implies (depends.contains(to as usize)
        <==> #[trigger] depends_on(procs, key, to)) by {
        lemma_direct_has(waits, key, waits.edges.len() as int, to);
        the_graph_is_what_the_config_says(procs, key, to);
    }
    assert forall|i: int| 0 <= i < depends.len() implies #[trigger] depends[i] < procs.len() by {
        lemma_direct_inside(waits, key, waits.edges.len() as int, i);
    }
}

/// `depends` means "has finished": a proc is due exactly when every proc that
/// its `depends` names has run to the end. One whose `depends` names nothing
/// waits for nothing.
pub proof fn a_proc_is_due_once_all_it_names_have_finished(
    config: Config,
    resolved: Seq<bool>,
    key: usize,
)
    requires
        unit_map::sound_keys(config),
        key < config.procs@.len(),
    ensures
        schedule::is_due(unit_map::map_of(config), resolved, key) <==> forall|d: int, to: int|
            0 <= d < config.procs@[key as int].depends@.len() && 0 <= to < config.procs@.len()
                && (#[trigger] config.procs@[key as int].depends@[d])@ == (
            #[trigger] config.procs@[to]).key@ ==> to < resolved.len() && resolved[to],
{
    let procs = config.procs@;
    let map = unit_map::map_of(config);
    let depends = map.units[key as int].depends;
    a_unit_depends_on_what_its_proc_names(config, key as int);
    if schedule::is_due(map, resolved, key) {
        assert forall|d: int, to: int|
            0 <= d < procs[key as int].depends@.len() && 0 <= to < procs.len() && (
            #[trigger] procs[key as int].depends@[d])@ == (#[trigger] procs[to]).key@ implies to
            < resolved.len() && resolved[to] by {
            assert(depends_on(procs, key as int, to));
            let i = depends.index_of(to as usize);
            assert(schedule::is_resolved(resolved, map.units[key as int].depends[i]));
        }
    }
    if forall|d: int, to: int|
        0 <= d < procs[key as int].depends@.len() && 0 <= to < procs.len() && (
        #[trigger] procs[key as int].depends@[d])@ == (#[trigger] procs[to]).key@ ==> to
            < resolved.len() && resolved[to] {
        assert forall|i: int| 0 <= i < map.units[key as int].depends.len() implies schedule::is_resolved(
            resolved,
            #[trigger] map.units[key as int].depends[i],
        ) by {
            let to = depends[i] as int;
            assert(to < procs.len());
            assert(depends.contains(to as usize));
            assert(depends_on(procs, key as int, to));
            let d = choose|d: int|
                0 <= d < procs[key as int].depends@.len() && (
                #[trigger] procs[key as int].depends@[d])@ == procs[to].key@;
            assert(procs[key as int].depends@[d]@ == procs[to].key@);
        }
    }
}

proof fn lemma_nothing_waits_on_itself(config: Config)
    requires
        unit_map::sound_keys(config),
        unit_map::problems(config).len() == 0,
    ensures
        unit_map::map_of(config).wf(),
        forall|i: int| !#[trigger] unit_map::map_of(config).waits.needs(i, i),
{
    unit_map::lemma_graph_of(config.procs@);
    assert forall|i: int| !#[trigger] unit_map::map_of(config).waits.needs(i, i) by {
        unit_map::a_checked_config_has_no_circle(config, i);
    }
}

proof fn lemma_wanted(config: Config, keys: Seq<usize>, to: usize)
    requires
        unit_map::sound_keys(config),
    ensures
        unit_map::map_of(config).waits.wanted(keys).contains(to as int) <==> to
            < config.procs@.len() && (keys.contains(to) || exists|from: usize|
            keys.contains(from) && #[trigger] waits_for(config.procs@, from as int, to as int)),
{
    let procs = config.procs@;
    let waits = unit_map::graph_of(procs);
    let wanted = waits.wanted(keys);
    unit_map::lemma_graph_of(procs);
    if wanted.contains(to as int) {
        let from = choose|from: int|
            0 <= from < waits.nodes.len() && keys.contains(#[trigger] waits.nodes[from]) && (from
                == to || waits.needs(from, to as int)) && 0 <= to < waits.nodes.len();
        assert(waits.nodes[from] == from as usize);
        if from != to {
            needing_is_waiting(procs, from, to as int);
            assert(waits_for(procs, from as usize as int, to as int));
        }
    }
    if to < procs.len() && keys.contains(to) {
        assert(waits.nodes[to as int] == to);
    }
    if exists|from: usize|
        keys.contains(from) && #[trigger] waits_for(procs, from as int, to as int) {
        let from = choose|from: usize|
            keys.contains(from) && #[trigger] waits_for(procs, from as int, to as int);
        needing_is_waiting(procs, from as int, to as int);
        graph::lemma_needs_inside(waits, from as int, to as int);
        assert(waits.nodes[from as int] == from);
    }
}

/// Asking for procs puts them on the schedule by name, and with them every
/// proc they wait for, directly or through others; it takes nothing off, and
/// puts on nothing else.
pub proof fn asking_brings_what_is_waited_for_and_no_more(
    config: Config,
    scheduled: Map<usize, bool>,
    keys: Seq<usize>,
)
    requires
        unit_map::sound_keys(config),
        unit_map::problems(config).len() == 0,
    ensures
        ({
            let after = schedule::asked_for(unit_map::map_of(config), scheduled, keys);
            &&& forall|key: usize| #[trigger]
                keys.contains(key) ==> after.contains_key(key) && after[key]
            &&& forall|key: usize| #[trigger]
                scheduled.contains_key(key) ==> after.contains_key(key) && (scheduled[key]
                    ==> after[key])
            &&& forall|from: usize, to: usize|
                keys.contains(from) && #[trigger] waits_for(config.procs@, from as int, to as int)
                    ==> after.contains_key(to)
            &&& forall|key: usize| #[trigger]
                after.contains_key(key) ==> scheduled.contains_key(key) || keys.contains(key) || (
                exists|from: usize|
                    keys.contains(from) && #[trigger] waits_for(
                        config.procs@,
                        from as int,
                        key as int,
                    ))
            &&& forall|key: usize| #[trigger]
                after.contains_key(key) && after[key] ==> keys.contains(key) || (
                scheduled.contains_key(key) && scheduled[key])
        }),
{
    let procs = config.procs@;
    let map = unit_map::map_of(config);
    let waits = map.waits;
    let wanted = waits.wanted(keys);
    let order = waits.order(wanted);
    let after = schedule::asked_for(map, scheduled, keys);
    lemma_nothing_waits_on_itself(config);
    graph::without_a_circle_everything_is_placed(waits, keys);
    graph::everything_comes_after_what_it_depends_on(waits, wanted);
    assert forall|from: usize, to: usize|
        keys.contains(from) && #[trigger] waits_for(
            procs,
            from as int,
            to as int,
        ) implies after.contains_key(to) by {
        lemma_waits_inside(procs, from as int, to as int);
        lemma_wanted(config, keys, to);
        assert(order.contains(to as int));
        let i = order.index_of(to as int);
        assert(waits.at(order)[i] == to);
    }
    assert forall|key: usize| #[trigger] after.contains_key(key) implies scheduled.contains_key(key)
        || keys.contains(key) || (exists|from: usize|
        keys.contains(from) && #[trigger] waits_for(procs, from as int, key as int)) by {
        if waits.at(order).contains(key) {
            let i = waits.at(order).index_of(key);
            assert(wanted.contains(order[i]));
            assert(waits.nodes[order[i]] == order[i] as usize);
            lemma_wanted(config, keys, key);
        }
    }
}

/// Whether a proc says it belongs to `group`.
pub open spec fn belongs_to(proc: ConfigProc, group: Seq<char>) -> bool {
    exists|g: int| 0 <= g < proc.groups@.len() && (#[trigger] proc.groups@[g])@ == group
}

proof fn lemma_said(groups: Seq<Seq<char>>, group: Seq<char>, end: int, place: usize, key: usize)
    requires
        0 <= end <= groups.len(),
    ensures
        unit_map::said(groups, group, end, place).contains(key) <==> key == place && exists|g: int|
            0 <= g < end && #[trigger] groups[g] == group,
    decreases end,
{
    if end > 0 {
        lemma_said(groups, group, end - 1, place, key);
        let before = unit_map::said(groups, group, end - 1, place);
        if groups[end - 1] == group {
            let after = before.push(place);
            assert(after.last() == place);
            if before.contains(key) {
                let i = before.index_of(key);
                assert(after[i] == key);
            }
            if after.contains(key) && key != place {
                let i = after.index_of(key);
                assert(before[i] == key);
            }
        }
    }
}

proof fn lemma_members(map: UnitMapView, group: Seq<char>, end: int, key: usize)
    requires
        0 <= end <= map.units.len() < u32::MAX,
    ensures
        map.members(group, end).contains(key) <==> key < end && exists|g: int|
            0 <= g < map.units[key as int].groups.len() && #[trigger] map.units[key as int].groups[g]
                == group,
    decreases end,
{
    if end > 0 {
        lemma_members(map, group, end - 1, key);
        let groups = map.units[end - 1].groups;
        let before = map.members(group, end - 1);
        let said = unit_map::said(groups, group, groups.len() as int, (end - 1) as usize);
        lemma_said(groups, group, groups.len() as int, (end - 1) as usize, key);
        let after = before + said;
        if before.contains(key) {
            let i = before.index_of(key);
            assert(after[i] == key);
        }
        if said.contains(key) {
            let i = said.index_of(key);
            assert(after[before.len() + i] == key);
        }
        if after.contains(key) {
            let i = after.index_of(key);
            if i < before.len() {
                assert(before[i] == key);
            } else {
                assert(said[i - before.len()] == key);
            }
        }
    }
}

/// A group is every proc that says it belongs to it, and no other.
pub proof fn a_group_is_who_says_so(config: Config, group: Seq<char>, key: usize)
    requires
        unit_map::sound_keys(config),
    ensures
        unit_map::map_of(config).members(group, config.procs@.len() as int).contains(key) <==> key
            < config.procs@.len() && belongs_to(config.procs@[key as int], group),
{
    let map = unit_map::map_of(config);
    lemma_members(map, group, config.procs@.len() as int, key);
    if key < config.procs@.len() {
        let proc = config.procs@[key as int];
        assert(map.units[key as int].groups == text::texts(proc.groups@));
        if belongs_to(proc, group) {
            let g = choose|g: int|
                0 <= g < proc.groups@.len() && (#[trigger] proc.groups@[g])@ == group;
            assert(map.units[key as int].groups[g] == group);
        }
        if exists|g: int|
            0 <= g < map.units[key as int].groups.len() && #[trigger] map.units[key as int].groups[g]
                == group {
            let g = choose|g: int|
                0 <= g < map.units[key as int].groups.len()
                    && #[trigger] map.units[key as int].groups[g] == group;
            assert(proc.groups@[g]@ == group);
        }
    }
}

/// Whether a target names a proc: by its key, or by a group it belongs to.
pub open spec fn names(target: TargetView, proc: ConfigProc) -> bool {
    match target {
        TargetView::Unit(name) => proc.key@ == name,
        TargetView::Group(name) => belongs_to(proc, name),
    }
}

/// Whether any of the first `end` targets names a proc.
pub open spec fn any_names(targets: Seq<Target>, end: int, proc: ConfigProc) -> bool {
    exists|t: int| 0 <= t < end && names((#[trigger] targets[t])@, proc)
}

/// A target starts what it names, and what that depends on: once it has been
/// asked for, every proc it names is on the schedule by name, every proc they
/// wait for is on it, what was on it stays, and nothing else is put on. A
/// target that names no proc changes nothing.
pub proof fn a_target_brings_what_it_names(
    config: Config,
    scheduled: Map<usize, bool>,
    target: TargetView,
)
    requires
        unit_map::sound_keys(config),
        unit_map::problems(config).len() == 0,
    ensures
        ({
            let procs = config.procs@;
            let after = session::target_asked_for(unit_map::map_of(config), scheduled, target);
            &&& forall|i: int|
                0 <= i < procs.len() && #[trigger] names(target, procs[i]) ==> after.contains_key(
                    i as usize,
                ) && after[i as usize]
            &&& forall|i: int, to: int|
                0 <= i < procs.len() && names(target, procs[i]) && #[trigger] waits_for(
                    procs,
                    i,
                    to,
                ) ==> after.contains_key(to as usize)
            &&& forall|key: usize| #[trigger]
                scheduled.contains_key(key) ==> after.contains_key(key) && (scheduled[key]
                    ==> after[key])
            &&& forall|key: usize| #[trigger]
                after.contains_key(key) ==> scheduled.contains_key(key) || (key < procs.len()
                    && names(target, procs[key as int])) || (exists|i: int|
                    0 <= i < procs.len() && names(target, procs[i]) && #[trigger] waits_for(
                        procs,
                        i,
                        key as int,
                    ))
            &&& forall|key: usize| #[trigger]
                after.contains_key(key) && after[key] ==> (scheduled.contains_key(key)
                    && scheduled[key]) || (key < procs.len() && names(target, procs[key as int]))
        }),
{
    let procs = config.procs@;
    let map = unit_map::map_of(config);
    let keys = match target {
        TargetView::Unit(name) => if map.keys.contains(name) {
            seq![map.keys.index_of(name) as usize]
        } else {
            Seq::empty()
        },
        TargetView::Group(name) => map.members(name, map.units.len() as int),
    };
    assert forall|key: usize| #[trigger] keys.contains(key) <==> key < procs.len() && names(
        target,
        procs[key as int],
    ) by {
        match target {
            TargetView::Unit(name) => {
                if key < procs.len() && procs[key as int].key@ == name {
                    lemma_key_at(procs, name, key as int);
                    assert(keys[0] == key);
                }
                if map.keys.contains(name) {
                    assert(map.keys[map.keys.index_of(name)] == name);
                }
            },
            TargetView::Group(name) => {
                a_group_is_who_says_so(config, name, key);
            },
        }
    }
    asking_brings_what_is_waited_for_and_no_more(config, scheduled, keys);
    let after = session::target_asked_for(map, scheduled, target);
    if keys.len() > 0 {
        assert(after == schedule::asked_for(map, scheduled, keys));
    } else {
        assert(after == scheduled);
        assert forall|i: int| 0 <= i < procs.len() implies !#[trigger] names(target, procs[i]) by {
            if names(target, procs[i]) {
                assert(keys.contains(i as usize));
            }
        }
    }
    assert forall|i: int, to: int| #[trigger] waits_for(procs, i, to) implies 0 <= i < procs.len()
        && 0 <= to < procs.len() by {
        lemma_waits_inside(procs, i, to);
    }
    assert forall|i: int, to: int|
        0 <= i < procs.len() && names(target, procs[i]) && #[trigger] waits_for(
            procs,
            i,
            to,
        ) implies after.contains_key(to as usize) by {
        assert(keys.contains(i as usize));
        assert(waits_for(procs, i as usize as int, to as usize as int));
    }
    assert forall|i: int| 0 <= i < procs.len() && #[trigger] names(target, procs[i]) implies
        after.contains_key(i as usize) && after[i as usize] by {
        assert(keys.contains(i as usize));
    }
    assert forall|key: usize| #[trigger] after.contains_key(key) implies scheduled.contains_key(key)
        || (key < procs.len() && names(target, procs[key as int])) || (exists|i: int|
        0 <= i < procs.len() && names(target, procs[i]) && #[trigger] waits_for(
            procs,
            i,
            key as int,
        )) by {
        if !scheduled.contains_key(key) && !keys.contains(key) {
            let from = choose|from: usize|
                keys.contains(from) && #[trigger] waits_for(procs, from as int, key as int);
            assert(names(target, procs[from as int]));
            assert(waits_for(procs, from as int, key as int));
        }
    }
}

/// The command line starts what it names and what that depends on, and nothing
/// else: the same as [`a_target_brings_what_it_names`], of however many
/// targets there are.
pub proof fn the_command_line_brings_what_it_names(
    config: Config,
    scheduled: Map<usize, bool>,
    targets: Seq<Target>,
    end: int,
)
    requires
        unit_map::sound_keys(config),
        unit_map::problems(config).len() == 0,
        0 <= end <= targets.len(),
    ensures
        ({
            let procs = config.procs@;
            let after = session::targets_asked_for(
                unit_map::map_of(config),
                scheduled,
                targets,
                end,
            );
            &&& forall|i: int|
                0 <= i < procs.len() && #[trigger] any_names(targets, end, procs[i])
                    ==> after.contains_key(i as usize) && after[i as usize]
            &&& forall|i: int, to: int|
                0 <= i < procs.len() && any_names(targets, end, procs[i]) && #[trigger] waits_for(
                    procs,
                    i,
                    to,
                ) ==> after.contains_key(to as usize)
            &&& forall|key: usize| #[trigger]
                scheduled.contains_key(key) ==> after.contains_key(key) && (scheduled[key]
                    ==> after[key])
            &&& forall|key: usize| #[trigger]
                after.contains_key(key) ==> scheduled.contains_key(key) || (key < procs.len()
                    && any_names(targets, end, procs[key as int])) || (exists|i: int|
                    0 <= i < procs.len() && any_names(targets, end, procs[i])
                        && #[trigger] waits_for(procs, i, key as int))
            &&& forall|key: usize| #[trigger]
                after.contains_key(key) && after[key] ==> (scheduled.contains_key(key)
                    && scheduled[key]) || (key < procs.len() && any_names(
                    targets,
                    end,
                    procs[key as int],
                ))
        }),
    decreases end,
{
    if end > 0 {
        let procs = config.procs@;
        let map = unit_map::map_of(config);
        the_command_line_brings_what_it_names(config, scheduled, targets, end - 1);
        let before = session::targets_asked_for(map, scheduled, targets, end - 1);
        let target = targets[end - 1]@;
        a_target_brings_what_it_names(config, before, target);
        let after = session::targets_asked_for(map, scheduled, targets, end);
        assert(after == session::target_asked_for(map, before, target));
        assert forall|i: int| 0 <= i < procs.len() implies (#[trigger] any_names(
            targets,
            end,
            procs[i],
        ) <==> any_names(targets, end - 1, procs[i]) || names(target, procs[i])) by {
            if any_names(targets, end - 1, procs[i]) {
                let t = choose|t: int|
                    0 <= t < end - 1 && names((#[trigger] targets[t])@, procs[i]);
                assert(names(targets[t]@, procs[i]));
            }
            if names(target, procs[i]) {
                assert(names(targets[end - 1]@, procs[i]));
            }
        }
        assert forall|key: usize| #[trigger]
            after.contains_key(key) implies scheduled.contains_key(key) || (key < procs.len()
            && any_names(targets, end, procs[key as int])) || (exists|i: int|
            0 <= i < procs.len() && any_names(targets, end, procs[i]) && #[trigger] waits_for(
                procs,
                i,
                key as int,
            )) by {
            if before.contains_key(key) {
                if !scheduled.contains_key(key) && !(key < procs.len() && any_names(
                    targets,
                    end - 1,
                    procs[key as int],
                )) {
                    let i = choose|i: int|
                        0 <= i < procs.len() && any_names(targets, end - 1, procs[i])
                            && #[trigger] waits_for(procs, i, key as int);
                    assert(any_names(targets, end, procs[i]));
                }
            } else if !(key < procs.len() && names(target, procs[key as int])) {
                let i = choose|i: int|
                    0 <= i < procs.len() && names(target, procs[i]) && #[trigger] waits_for(
                        procs,
                        i,
                        key as int,
                    );
                assert(any_names(targets, end, procs[i]));
            }
        }
        assert forall|i: int, to: int|
            0 <= i < procs.len() && any_names(targets, end, procs[i]) && #[trigger] waits_for(
                procs,
                i,
                to,
            ) implies after.contains_key(to as usize) by {
            if any_names(targets, end - 1, procs[i]) {
                assert(before.contains_key(to as usize));
            }
        }
    }
}

proof fn lemma_in_both<T>(a: Seq<T>, b: Seq<T>, item: T)
    ensures
        (a + b).contains(item) <==> a.contains(item) || b.contains(item),
{
    let both = a + b;
    if a.contains(item) {
        assert(both[a.index_of(item)] == item);
    }
    if b.contains(item) {
        assert(both[a.len() + b.index_of(item)] == item);
    }
    if both.contains(item) {
        let i = both.index_of(item);
        if i < a.len() {
            assert(a[i] == item);
        } else {
            assert(b[i - a.len()] == item);
        }
    }
}

proof fn lemma_in_pushed<T>(a: Seq<T>, last: T, item: T)
    ensures
        a.push(last).contains(item) <==> a.contains(item) || item == last,
{
    assert(a.push(last) =~= a + seq![last]);
    assert(seq![last][0] == last);
    lemma_in_both(a, seq![last], item);
}

/// Whether the name of a proc or of a group it belongs to holds the character
/// a target is told apart by, and is `name`.
pub open spec fn is_reserved(proc: ConfigProc, name: Seq<char>) -> bool {
    name.contains(':') && (proc.key@ == name || belongs_to(proc, name))
}

/// Whether what the proc at `from` depends on as its `d`th is no proc.
pub open spec fn names_nothing(procs: Seq<ConfigProc>, from: int, d: int) -> bool {
    &&& 0 <= from < procs.len()
    &&& 0 <= d < procs[from].depends@.len()
    &&& forall|to: int|
        0 <= to < procs.len() ==> (#[trigger] procs[to]).key@ != procs[from].depends@[d]@
}

proof fn lemma_group_problems(groups: Seq<String>, end: int, problem: Problem)
    requires
        0 <= end <= groups.len(),
    ensures
        unit_map::group_problems(groups, end).contains(problem) <==> exists|g: int|
            0 <= g < end && (#[trigger] groups[g])@.contains(':') && problem == Problem::Reserved(
                groups[g]@,
            ),
    decreases end,
{
    if end > 0 {
        lemma_group_problems(groups, end - 1, problem);
        lemma_in_pushed(
            unit_map::group_problems(groups, end - 1),
            Problem::Reserved(groups[end - 1]@),
            problem,
        );
    }
}

proof fn lemma_own_problems(proc: ConfigProc, problem: Problem)
    ensures
        unit_map::own_problems(proc).contains(problem) <==> match problem {
            Problem::Reserved(name) => is_reserved(proc, name),
            Problem::RunAndModes(name) => name == proc.key@ && proc.run is Some
                && proc.modes is Some,
            _ => false,
        },
{
    let end = proc.groups@.len() as int;
    let key = if proc.key@.contains(':') {
        seq![Problem::Reserved(proc.key@)]
    } else {
        Seq::empty()
    };
    let groups = unit_map::group_problems(proc.groups@, end);
    let both = if proc.run is Some && proc.modes is Some {
        seq![Problem::RunAndModes(proc.key@)]
    } else {
        Seq::empty()
    };
    assert(unit_map::own_problems(proc) == key + groups + both);
    lemma_in_both(key + groups, both, problem);
    lemma_in_both(key, groups, problem);
    lemma_group_problems(proc.groups@, end, problem);
    if key.len() > 0 {
        assert(key[0] == Problem::Reserved(proc.key@));
    }
    if both.len() > 0 {
        assert(both[0] == Problem::RunAndModes(proc.key@));
    }
    if let Problem::Reserved(name) = problem {
        if belongs_to(proc, name) && name.contains(':') {
            let g = choose|g: int|
                0 <= g < proc.groups@.len() && (#[trigger] proc.groups@[g])@ == name;
            assert(proc.groups@[g]@.contains(':'));
        }
    }
}

proof fn lemma_proc_problems(procs: Seq<ConfigProc>, end: int, problem: Problem)
    requires
        0 <= end <= procs.len(),
    ensures
        unit_map::proc_problems(procs, end).contains(problem) <==> exists|i: int|
            0 <= i < end && unit_map::own_problems(#[trigger] procs[i]).contains(problem),
    decreases end,
{
    if end > 0 {
        lemma_proc_problems(procs, end - 1, problem);
        lemma_in_both(
            unit_map::proc_problems(procs, end - 1),
            unit_map::own_problems(procs[end - 1]),
            problem,
        );
    }
}

proof fn lemma_unknown(procs: Seq<ConfigProc>, from: int, end: int, problem: Problem)
    requires
        0 <= from < procs.len(),
        0 <= end <= procs[from].depends@.len(),
    ensures
        unit_map::unknown(procs, procs[from], end).contains(problem) <==> exists|d: int|
            0 <= d < end && #[trigger] names_nothing(procs, from, d) && problem
                == Problem::UnknownDependency(procs[from].key@, procs[from].depends@[d]@),
    decreases end,
{
    if end > 0 {
        lemma_unknown(procs, from, end - 1, problem);
        let keys = unit_map::keys_of(procs);
        let name = procs[from].depends@[end - 1]@;
        if keys.contains(name) {
            let to = keys.index_of(name);
            assert(procs[to].key@ == name);
            assert(!names_nothing(procs, from, end - 1));
        } else {
            assert forall|to: int| 0 <= to < procs.len() implies (#[trigger] procs[to]).key@
                != name by {
                assert(keys[to] == procs[to].key@);
            }
            assert(names_nothing(procs, from, end - 1));
            lemma_in_pushed(
                unit_map::unknown(procs, procs[from], end - 1),
                Problem::UnknownDependency(procs[from].key@, name),
                problem,
            );
        }
    }
}

proof fn lemma_depends_problems(procs: Seq<ConfigProc>, end: int, problem: Problem)
    requires
        0 <= end <= procs.len(),
    ensures
        unit_map::depends_problems(procs, end).contains(problem) <==> exists|from: int, d: int|
            from < end && #[trigger] names_nothing(procs, from, d) && problem
                == Problem::UnknownDependency(procs[from].key@, procs[from].depends@[d]@),
    decreases end,
{
    if end > 0 {
        lemma_depends_problems(procs, end - 1, problem);
        let count = procs[end - 1].depends@.len() as int;
        lemma_unknown(procs, end - 1, count, problem);
        lemma_in_both(
            unit_map::depends_problems(procs, end - 1),
            unit_map::unknown(procs, procs[end - 1], count),
            problem,
        );
    }
}

proof fn lemma_circle_has(waits: GraphView, place: int, end: int, node: int)
    requires
        waits.nodes == Seq::new(waits.nodes.len(), |i: int| i as usize),
        waits.nodes.len() < u32::MAX,
        0 <= end <= waits.nodes.len(),
        0 <= node < waits.nodes.len(),
    ensures
        waits.circle(place, end).contains(node as usize) <==> node < end && waits.circular(
            place,
            node,
        ),
    decreases end,
{
    if end > 0 {
        lemma_circle_has(waits, place, end - 1, node);
        assert(waits.nodes[end - 1] == (end - 1) as usize);
        lemma_in_pushed(waits.circle(place, end - 1), waits.nodes[end - 1], node as usize);
    }
}

proof fn lemma_circle_inside(waits: GraphView, place: int, end: int, k: int)
    requires
        waits.nodes == Seq::new(waits.nodes.len(), |i: int| i as usize),
        waits.nodes.len() < u32::MAX,
        0 <= end <= waits.nodes.len(),
        0 <= k < waits.circle(place, end).len(),
    ensures
        waits.circle(place, end)[k] < waits.nodes.len(),
    decreases end,
{
    if end > 0 {
        if k < waits.circle(place, end - 1).len() {
            lemma_circle_inside(waits, place, end - 1, k);
        }
    }
}

/// Where each circle opens.
proof fn lemma_openers(waits: GraphView, wanted: Set<int>, end: int) -> (places: Seq<int>)
    ensures
        places.len() == waits.circles(wanted, end).len(),
        forall|c: int|
            0 <= c < places.len() ==> {
                &&& 0 <= #[trigger] places[c] < end
                &&& waits.opens_circle(places[c])
                &&& waits.circles(wanted, end)[c] == waits.circle(
                    places[c],
                    waits.nodes.len() as int,
                )
            },
        forall|a: int, b: int| 0 <= a < b < places.len() ==> places[a] < places[b],
        forall|place: int|
            0 <= place < end && wanted.contains(place) && #[trigger] waits.opens_circle(place)
                ==> places.contains(place),
    decreases end,
{
    if end <= 0 {
        Seq::empty()
    } else {
        let before = lemma_openers(waits, wanted, end - 1);
        if wanted.contains(end - 1) && waits.opens_circle(end - 1) {
            let places = before.push(end - 1);
            assert forall|place: int|
                0 <= place < end && wanted.contains(place) && #[trigger] waits.opens_circle(
                    place,
                ) implies places.contains(place) by {
                lemma_in_pushed(before, end - 1, place);
            }
            assert forall|c: int| 0 <= c < places.len() implies {
                &&& 0 <= #[trigger] places[c] < end
                &&& waits.opens_circle(places[c])
                &&& waits.circles(wanted, end)[c] == waits.circle(
                    places[c],
                    waits.nodes.len() as int,
                )
            } by {
                if c < before.len() {
                    assert(before[c] == places[c]);
                    assert(waits.circles(wanted, end)[c] == waits.circles(wanted, end - 1)[c]);
                }
            }
            places
        } else {
            before
        }
    }
}

/// The proc a circle opens at: the first one that waits in a circle with the
/// one at `i`.
proof fn lemma_opener_of(procs: Seq<ConfigProc>, i: int) -> (first: int)
    requires
        unit_map::keys_of(procs).no_duplicates(),
        procs.len() < u32::MAX,
        waits_for(procs, i, i),
    ensures
        0 <= first < procs.len(),
        unit_map::graph_of(procs).opens_circle(first),
        unit_map::graph_of(procs).circular(i, first),
        unit_map::graph_of(procs).wanted(unit_map::graph_of(procs).nodes).contains(first),
{
    let waits = unit_map::graph_of(procs);
    needing_is_waiting(procs, i, i);
    lemma_waits_inside(procs, i, i);
    assert(waits.circular(i, i));
    let first = graph::lemma_first_of_circle(waits, i, procs.len() as int);
    graph::lemma_needs_on(waits, first, i, first);
    assert forall|other: int| 0 <= other < first implies !#[trigger] waits.circular(
        first,
        other,
    ) by {
        if waits.circular(first, other) {
            graph::lemma_needs_on(waits, i, first, other);
            graph::lemma_needs_on(waits, other, first, i);
            assert(waits.circular(i, other));
        }
    }
    assert(waits.nodes.contains(waits.nodes[first]));
    first
}

/// Whether an error is the one of a circle that names the proc at `i`.
pub open spec fn tells_of_circle(error: AppConfigError, proc: ConfigProc) -> bool {
    error matches AppConfigError::Cycle(names) && exists|n: int|
        0 <= n < names@.len() && (#[trigger] names@[n])@ == proc.key@
}

/// The errors past those of the procs by themselves are those of the circles.
proof fn lemma_circle_errors(config: Config, errors: Seq<AppConfigError>, e: int)
    requires
        unit_map::sound_keys(config),
        unit_map::problems_of(errors) == unit_map::problems(config),
        0 <= e < errors.len(),
    ensures
        ({
            let procs = config.procs@;
            let waits = unit_map::graph_of(procs);
            let end = procs.len() as int;
            let circles = waits.circles(waits.wanted(waits.nodes), end);
            let own = (unit_map::proc_problems(procs, end) + unit_map::depends_problems(
                procs,
                end,
            )).len();
            &&& errors.len() == own + circles.len()
            &&& (errors[e] is Cycle) == (e >= own)
            &&& e >= own ==> {
                let names = errors[e]->Cycle_0@;
                let circle = circles[e - own];
                &&& names.len() == circle.len()
                &&& forall|n: int|
                    0 <= n < names.len() ==> (#[trigger] names[n])@ == procs[circle[n] as int].key@
            }
        }),
{
    let procs = config.procs@;
    let waits = unit_map::graph_of(procs);
    let end = procs.len() as int;
    let circles = waits.circles(waits.wanted(waits.nodes), end);
    let own = unit_map::proc_problems(procs, end) + unit_map::depends_problems(procs, end);
    let found = unit_map::cycle_problems(procs);
    let all = unit_map::problems(config);
    assert(waits.nodes.len() == end);
    assert(all == own + found);
    assert(errors.len() == unit_map::problems_of(errors).len());
    assert(unit_map::problems_of(errors)[e] == unit_map::problem_of(errors[e]));
    if e < own.len() {
        assert(own[e] == all[e]);
        assert(own.contains(own[e]));
        lemma_in_both(
            unit_map::proc_problems(procs, end),
            unit_map::depends_problems(procs, end),
            own[e],
        );
        lemma_proc_problems(procs, end, own[e]);
        lemma_depends_problems(procs, end, own[e]);
        if unit_map::proc_problems(procs, end).contains(own[e]) {
            let i = choose|i: int|
                0 <= i < end && unit_map::own_problems(#[trigger] procs[i]).contains(own[e]);
            lemma_own_problems(procs[i], own[e]);
        }
    } else {
        let circle = circles[e - own.len()];
        assert(found[e - own.len()] == all[e]);
        assert(found[e - own.len()] == Problem::Cycle(unit_map::named(procs, circle)));
        let names = errors[e]->Cycle_0@;
        assert(text::texts(names) == unit_map::named(procs, circle));
        assert(text::texts(names).len() == names.len());
        assert forall|n: int| 0 <= n < names.len() implies (#[trigger] names[n])@
            == procs[circle[n] as int].key@ by {
            assert(text::texts(names)[n] == names[n]@);
            assert(unit_map::named(procs, circle)[n] == procs[circle[n] as int].key@);
        }
    }
}

/// Every circle is told of once, and whole: each proc that waits on itself,
/// directly or through others, is named by a circle error, the same one as
/// every proc it is in a circle with, and by no other. And what a circle error
/// names are procs that wait for each other.
pub proof fn every_circle_is_told_of(config: Config, errors: Seq<AppConfigError>)
    requires
        unit_map::sound_keys(config),
        unit_map::problems_of(errors) == unit_map::problems(config),
    ensures
        forall|i: int| #[trigger]
            waits_for(config.procs@, i, i) ==> exists|e: int|
                0 <= e < errors.len() && #[trigger] tells_of_circle(errors[e], config.procs@[i]),
        forall|e: int, i: int, j: int|
            0 <= e < errors.len() && 0 <= i < config.procs@.len() && 0 <= j < config.procs@.len()
                && #[trigger] tells_of_circle(errors[e], config.procs@[i]) ==> (
            #[trigger] tells_of_circle(errors[e], config.procs@[j]) <==> waits_for(
                config.procs@,
                i,
                j,
            ) && waits_for(config.procs@, j, i)),
        forall|a: int, b: int, i: int|
            0 <= a < errors.len() && 0 <= b < errors.len() && 0 <= i < config.procs@.len()
                && #[trigger] tells_of_circle(errors[a], config.procs@[i])
                && #[trigger] tells_of_circle(errors[b], config.procs@[i]) ==> a == b,
        forall|e: int, n: int|
            #![trigger errors[e]->Cycle_0@[n]]
            0 <= e < errors.len() && errors[e] is Cycle && 0 <= n < errors[e]->Cycle_0@.len()
                ==> exists|i: int|
                0 <= i < config.procs@.len() && (#[trigger] config.procs@[i]).key@
                    == errors[e]->Cycle_0@[n]@,
        forall|e: int|
            0 <= e < errors.len() && (#[trigger] errors[e]) is Cycle
                ==> errors[e]->Cycle_0@.len() > 0,
{
    let procs = config.procs@;
    let waits = unit_map::graph_of(procs);
    let wanted = waits.wanted(waits.nodes);
    let end = procs.len() as int;
    unit_map::lemma_graph_of(procs);
    let circles = waits.circles(wanted, end);
    let places = lemma_openers(waits, wanted, end);
    let own = unit_map::proc_problems(procs, end) + unit_map::depends_problems(procs, end);
    let found = unit_map::cycle_problems(procs);
    let all = unit_map::problems(config);
    assert(all == own + found);
    assert(errors.len() == unit_map::problems_of(errors).len());
    assert(waits.nodes.len() == end);
    // And it names the procs in a circle with the one it opens at.
    assert forall|e: int, i: int| 0 <= e < errors.len() && 0 <= i < end implies (
    #[trigger] tells_of_circle(errors[e], procs[i]) <==> e >= own.len() && waits.circular(
        places[e - own.len()],
        i,
    )) by {
        lemma_circle_errors(config, errors, e);
        if e >= own.len() {
            let c = e - own.len();
            assert(found.len() == circles.len());
            assert(circles[c] == waits.circle(places[c], end));
            lemma_circle_has(waits, places[c], end, i);
            let names = errors[e]->Cycle_0@;
            if circles[c].contains(i as usize) {
                let n = circles[c].index_of(i as usize);
                assert(names[n]@ == procs[i].key@);
            }
            if tells_of_circle(errors[e], procs[i]) {
                let n = choose|n: int|
                    0 <= n < names.len() && (#[trigger] names[n])@ == procs[i].key@;
                lemma_circle_inside(waits, places[c], end, n);
                let at = circles[c][n] as int;
                lemma_key_at(procs, procs[i].key@, i);
                lemma_key_at(procs, procs[i].key@, at);
            }
        }
    }
    assert forall|i: int| #[trigger] waits_for(procs, i, i) implies exists|e: int|
        0 <= e < errors.len() && #[trigger] tells_of_circle(errors[e], procs[i]) by {
        lemma_waits_inside(procs, i, i);
        let first = lemma_opener_of(procs, i);
        let c = places.index_of(first);
        assert(found.len() == circles.len());
        assert(unit_map::problems_of(errors).len() == errors.len());
        let e = own.len() + c;
        assert(waits.circular(first, i));
        assert(tells_of_circle(errors[e], procs[i]));
    }
    assert forall|e: int, i: int, j: int|
        0 <= e < errors.len() && 0 <= i < end && 0 <= j < end && #[trigger] tells_of_circle(
            errors[e],
            procs[i],
        ) implies (#[trigger] tells_of_circle(errors[e], procs[j]) <==> waits_for(procs, i, j)
        && waits_for(procs, j, i)) by {
        let first = places[e - own.len()];
        needing_is_waiting(procs, i, j);
        needing_is_waiting(procs, j, i);
        if tells_of_circle(errors[e], procs[j]) {
            graph::lemma_needs_on(waits, i, first, j);
            graph::lemma_needs_on(waits, j, first, i);
        } else if waits.needs(i, j) && waits.needs(j, i) {
            graph::lemma_needs_on(waits, first, i, j);
            graph::lemma_needs_on(waits, j, i, first);
        }
    }
    assert forall|a: int, b: int, i: int|
        0 <= a < errors.len() && 0 <= b < errors.len() && 0 <= i < end && #[trigger] tells_of_circle(
            errors[a],
            procs[i],
        ) && #[trigger] tells_of_circle(errors[b], procs[i]) implies a == b by {
        let first = places[a - own.len()];
        let other = places[b - own.len()];
        if a != b {
            graph::lemma_needs_on(waits, first, i, other);
            graph::lemma_needs_on(waits, other, i, first);
            assert(waits.circular(first, other));
            assert(waits.circular(other, first));
            assert(waits.opens_circle(first) && waits.opens_circle(other));
        }
    }
    assert forall|e: int, n: int|
        #![trigger errors[e]->Cycle_0@[n]]
        0 <= e < errors.len() && errors[e] is Cycle && 0 <= n
            < errors[e]->Cycle_0@.len() implies exists|i: int|
        0 <= i < end && (#[trigger] procs[i]).key@ == errors[e]->Cycle_0@[n]@ by {
        lemma_circle_errors(config, errors, e);
        let c = e - own.len();
        let names = errors[e]->Cycle_0@;
        assert(circles[c] == waits.circle(places[c], end));
        lemma_circle_inside(waits, places[c], end, n);
        assert(names[n]@ == procs[circles[c][n] as int].key@);
    }
    assert forall|e: int|
        0 <= e < errors.len() && (#[trigger] errors[e]) is Cycle implies errors[e]->Cycle_0@.len()
        > 0 by {
        lemma_circle_errors(config, errors, e);
        let c = e - own.len();
        let first = places[c];
        assert(waits.opens_circle(first));
        assert(waits.circular(first, first));
        assert(tells_of_circle(errors[e], procs[first]));
    }
}

/// Whether an error says that `name` holds the character a target is told
/// apart by.
pub open spec fn tells_of_reserved(error: AppConfigError, name: Seq<char>) -> bool {
    error matches AppConfigError::ReservedCharacter { name: said, character } && said@ == name
        && character == ':'
}

/// Whether an error says that a proc answers twice to how it runs.
pub open spec fn tells_of_both(error: AppConfigError, proc: Seq<char>) -> bool {
    error matches AppConfigError::RunAndModes(said) && said@ == proc
}

/// Whether an error says that a proc depends on what is no proc.
pub open spec fn tells_of_unknown(
    error: AppConfigError,
    proc: Seq<char>,
    depends: Seq<char>,
) -> bool {
    error matches AppConfigError::UnknownDependency { proc: said, depends: name } && said@ == proc
        && name@ == depends
}

proof fn lemma_told(config: Config, errors: Seq<AppConfigError>, problem: Problem)
    requires
        unit_map::problems_of(errors) == unit_map::problems(config),
        problem is Reserved || problem is RunAndModes || problem is UnknownDependency,
    ensures
        (exists|e: int|
            0 <= e < errors.len() && unit_map::problem_of(#[trigger] errors[e]) == problem)
            <==> match problem {
            Problem::Reserved(name) => exists|i: int|
                0 <= i < config.procs@.len() && is_reserved(#[trigger] config.procs@[i], name),
            Problem::RunAndModes(name) => exists|i: int|
                0 <= i < config.procs@.len() && (#[trigger] config.procs@[i]).key@ == name
                    && config.procs@[i].run is Some && config.procs@[i].modes is Some,
            Problem::UnknownDependency(proc, depends) => exists|from: int, d: int| #[trigger]
                names_nothing(config.procs@, from, d) && config.procs@[from].key@ == proc
                    && config.procs@[from].depends@[d]@ == depends,
            _ => false,
        },
{
    let procs = config.procs@;
    let end = procs.len() as int;
    let all = unit_map::problems(config);
    let own = unit_map::proc_problems(procs, end);
    let unknown = unit_map::depends_problems(procs, end);
    let circles = unit_map::cycle_problems(procs);
    lemma_in_both(own + unknown, circles, problem);
    lemma_in_both(own, unknown, problem);
    lemma_proc_problems(procs, end, problem);
    lemma_depends_problems(procs, end, problem);
    assert forall|i: int| 0 <= i < end implies (unit_map::own_problems(
        #[trigger] procs[i],
    ).contains(problem) <==> match problem {
        Problem::Reserved(name) => is_reserved(procs[i], name),
        Problem::RunAndModes(name) => name == procs[i].key@ && procs[i].run is Some
            && procs[i].modes is Some,
        _ => false,
    }) by {
        lemma_own_problems(procs[i], problem);
    }
    if exists|e: int|
        0 <= e < errors.len() && unit_map::problem_of(#[trigger] errors[e]) == problem {
        let e = choose|e: int|
            0 <= e < errors.len() && unit_map::problem_of(#[trigger] errors[e]) == problem;
        assert(unit_map::problems_of(errors)[e] == problem);
        assert(all[e] == problem);
    }
    if all.contains(problem) {
        let e = all.index_of(problem);
        assert(unit_map::problems_of(errors)[e] == unit_map::problem_of(errors[e]));
    }
}

/// Everything wrong with a config is reported, and nothing else is: each
/// dependency that no proc is declared under, by the proc and by the name it
/// gave; each name with the character a target is told apart by; each proc
/// that answers twice to how it runs. What is left are circles — see
/// [`every_circle_is_told_of`].
pub proof fn everything_wrong_is_told(config: Config, errors: Seq<AppConfigError>)
    requires
        unit_map::sound_keys(config),
        unit_map::problems_of(errors) == unit_map::problems(config),
    ensures
        forall|from: int, d: int| #[trigger]
            names_nothing(config.procs@, from, d) ==> exists|e: int|
                0 <= e < errors.len() && tells_of_unknown(
                    #[trigger] errors[e],
                    config.procs@[from].key@,
                    config.procs@[from].depends@[d]@,
                ),
        forall|i: int, name: Seq<char>|
            0 <= i < config.procs@.len() && #[trigger] is_reserved(config.procs@[i], name)
                ==> exists|e: int|
                0 <= e < errors.len() && tells_of_reserved(#[trigger] errors[e], name),
        forall|i: int|
            0 <= i < config.procs@.len() && (#[trigger] config.procs@[i]).run is Some
                && config.procs@[i].modes is Some ==> exists|e: int|
                0 <= e < errors.len() && tells_of_both(
                    #[trigger] errors[e],
                    config.procs@[i].key@,
                ),
        forall|e: int|
            0 <= e < errors.len() ==> match #[trigger] errors[e] {
                AppConfigError::UnknownDependency { proc, depends } => exists|from: int, d: int|
                    #[trigger] names_nothing(config.procs@, from, d) && config.procs@[from].key@
                        == proc@ && config.procs@[from].depends@[d]@ == depends@,
                AppConfigError::ReservedCharacter { name, character } => character == ':' && exists|
                    i: int,
                |
                    0 <= i < config.procs@.len() && is_reserved(
                        #[trigger] config.procs@[i],
                        name@,
                    ),
                AppConfigError::RunAndModes(proc) => exists|i: int|
                    0 <= i < config.procs@.len() && (#[trigger] config.procs@[i]).key@ == proc@
                        && config.procs@[i].run is Some && config.procs@[i].modes is Some,
                AppConfigError::Cycle(_) => true,
                _ => false,
            },
{
    let procs = config.procs@;
    assert forall|from: int, d: int| #[trigger] names_nothing(procs, from, d) implies exists|e: int|
        0 <= e < errors.len() && tells_of_unknown(
            #[trigger] errors[e],
            procs[from].key@,
            procs[from].depends@[d]@,
        ) by {
        let problem = Problem::UnknownDependency(procs[from].key@, procs[from].depends@[d]@);
        lemma_told(config, errors, problem);
        let e = choose|e: int|
            0 <= e < errors.len() && unit_map::problem_of(#[trigger] errors[e]) == problem;
        assert(tells_of_unknown(errors[e], procs[from].key@, procs[from].depends@[d]@));
    }
    assert forall|i: int, name: Seq<char>|
        0 <= i < procs.len() && #[trigger] is_reserved(procs[i], name) implies exists|e: int|
        0 <= e < errors.len() && tells_of_reserved(#[trigger] errors[e], name) by {
        let problem = Problem::Reserved(name);
        lemma_told(config, errors, problem);
        let e = choose|e: int|
            0 <= e < errors.len() && unit_map::problem_of(#[trigger] errors[e]) == problem;
        assert(tells_of_reserved(errors[e], name));
    }
    assert forall|i: int|
        0 <= i < procs.len() && (#[trigger] procs[i]).run is Some
            && procs[i].modes is Some implies exists|e: int|
        0 <= e < errors.len() && tells_of_both(#[trigger] errors[e], procs[i].key@) by {
        let problem = Problem::RunAndModes(procs[i].key@);
        lemma_told(config, errors, problem);
        let e = choose|e: int|
            0 <= e < errors.len() && unit_map::problem_of(#[trigger] errors[e]) == problem;
        assert(tells_of_both(errors[e], procs[i].key@));
    }
    assert forall|e: int| 0 <= e < errors.len() implies match #[trigger] errors[e] {
        AppConfigError::UnknownDependency { proc, depends } => exists|from: int, d: int|
            #[trigger] names_nothing(procs, from, d) && procs[from].key@ == proc@
                && procs[from].depends@[d]@ == depends@,
        AppConfigError::ReservedCharacter { name, character } => character == ':' && exists|i: int|
            0 <= i < procs.len() && is_reserved(#[trigger] procs[i], name@),
        AppConfigError::RunAndModes(proc) => exists|i: int|
            0 <= i < procs.len() && (#[trigger] procs[i]).key@ == proc@ && procs[i].run is Some
                && procs[i].modes is Some,
        AppConfigError::Cycle(_) => true,
        _ => false,
    } by {
        let problem = unit_map::problem_of(errors[e]);
        if problem is Reserved || problem is RunAndModes || problem is UnknownDependency {
            lemma_told(config, errors, problem);
        } else {
            assert(unit_map::problems_of(errors)[e] == problem);
            assert(unit_map::problems(config)[e] == problem);
            lemma_only_known(config, problem);
        }
    }
}

proof fn lemma_only_known(config: Config, problem: Problem)
    requires
        unit_map::problems(config).contains(problem),
    ensures
        !(problem is Other),
{
    let procs = config.procs@;
    let end = procs.len() as int;
    let own = unit_map::proc_problems(procs, end);
    let unknown = unit_map::depends_problems(procs, end);
    let circles = unit_map::cycle_problems(procs);
    lemma_in_both(own + unknown, circles, problem);
    lemma_in_both(own, unknown, problem);
    lemma_proc_problems(procs, end, problem);
    lemma_depends_problems(procs, end, problem);
    if own.contains(problem) {
        let i = choose|i: int|
            0 <= i < end && unit_map::own_problems(#[trigger] procs[i]).contains(problem);
        lemma_own_problems(procs[i], problem);
    }
}

/// A config is taken exactly when it is sound: every `depends` names a proc,
/// no name holds the character a target is told apart by, no proc answers
/// twice to how it runs, and nothing waits on itself.
pub proof fn a_config_is_taken_exactly_when_it_is_sound(config: Config)
    requires
        unit_map::sound_keys(config),
    ensures
        unit_map::problems(config).len() == 0 <==> {
            &&& forall|from: int, d: int|
                0 <= from < config.procs@.len() && 0 <= d < config.procs@[from].depends@.len()
                    ==> exists|to: int|
                    0 <= to < config.procs@.len() && (#[trigger] config.procs@[to]).key@ == (
                    #[trigger] config.procs@[from].depends@[d])@
            &&& forall|i: int, name: Seq<char>|
                0 <= i < config.procs@.len() ==> !#[trigger] is_reserved(config.procs@[i], name)
            &&& forall|i: int|
                0 <= i < config.procs@.len() ==> !((#[trigger] config.procs@[i]).run is Some
                    && config.procs@[i].modes is Some)
            &&& forall|i: int| !#[trigger] waits_for(config.procs@, i, i)
        },
{
    let procs = config.procs@;
    let all = unit_map::problems(config);
    let end = procs.len() as int;
    let own = unit_map::proc_problems(procs, end);
    let unknown = unit_map::depends_problems(procs, end);
    let circles = unit_map::cycle_problems(procs);
    let waits = unit_map::graph_of(procs);
    unit_map::lemma_graph_of(procs);
    graph::a_circle_never_goes_unreported(waits, waits.nodes);
    assert forall|i: int| #[trigger] waits_for(procs, i, i) <==> waits.needs(i, i) by {
        needing_is_waiting(procs, i, i);
    }
    if all.len() == 0 {
        assert forall|from: int, d: int|
            0 <= from < procs.len() && 0 <= d < procs[from].depends@.len() implies exists|to: int|
            0 <= to < procs.len() && (#[trigger] procs[to]).key@ == (
            #[trigger] procs[from].depends@[d])@ by {
            if names_nothing(procs, from, d) {
                let problem = Problem::UnknownDependency(
                    procs[from].key@,
                    procs[from].depends@[d]@,
                );
                lemma_depends_problems(procs, end, problem);
                assert(unknown.contains(problem));
            }
        }
        assert forall|i: int, name: Seq<char>| 0 <= i < procs.len() implies !#[trigger] is_reserved(
            procs[i],
            name,
        ) by {
            lemma_own_problems(procs[i], Problem::Reserved(name));
            lemma_proc_problems(procs, end, Problem::Reserved(name));
        }
        assert forall|i: int| 0 <= i < procs.len() implies !((#[trigger] procs[i]).run is Some
            && procs[i].modes is Some) by {
            lemma_own_problems(procs[i], Problem::RunAndModes(procs[i].key@));
            lemma_proc_problems(procs, end, Problem::RunAndModes(procs[i].key@));
        }
        assert forall|i: int| !#[trigger] waits_for(procs, i, i) by {
            needing_is_waiting(procs, i, i);
            unit_map::a_checked_config_has_no_circle(config, i);
        }
    }
    if {
        &&& forall|from: int, d: int|
            0 <= from < procs.len() && 0 <= d < procs[from].depends@.len() ==> exists|to: int|
                0 <= to < procs.len() && (#[trigger] procs[to]).key@ == (
                #[trigger] procs[from].depends@[d])@
        &&& forall|i: int, name: Seq<char>|
            0 <= i < procs.len() ==> !#[trigger] is_reserved(procs[i], name)
        &&& forall|i: int|
            0 <= i < procs.len() ==> !((#[trigger] procs[i]).run is Some
                && procs[i].modes is Some)
        &&& forall|i: int| !#[trigger] waits_for(procs, i, i)
    } {
        if own.len() > 0 {
            lemma_proc_problems(procs, end, own[0]);
            assert(own.contains(own[0]));
            let i = choose|i: int|
                0 <= i < end && unit_map::own_problems(#[trigger] procs[i]).contains(own[0]);
            lemma_own_problems(procs[i], own[0]);
        }
        if unknown.len() > 0 {
            lemma_depends_problems(procs, end, unknown[0]);
            assert(unknown.contains(unknown[0]));
            let (from, d) = choose|from: int, d: int|
                from < end && #[trigger] names_nothing(procs, from, d) && unknown[0]
                    == Problem::UnknownDependency(procs[from].key@, procs[from].depends@[d]@);
            assert(procs[from].depends@[d]@ == procs[from].depends@[d]@);
        }
        if circles.len() > 0 {
            let i = choose|i: int|
                waits.wanted(waits.nodes).contains(i) && #[trigger] waits.needs(i, i);
            needing_is_waiting(procs, i, i);
        }
    }
}

/// Whether `said` is `written`, command for command and word for word.
pub open spec fn same_commands(said: Seq<Seq<Seq<char>>>, written: ConfigUnitRun) -> bool {
    &&& said.len() == written.commands@.len()
    &&& forall|c: int|
        0 <= c < said.len() ==> (#[trigger] said[c]).len() == written.commands@[c]@.len()
    &&& forall|c: int, w: int|
        0 <= c < said.len() && 0 <= w < said[c].len() ==> #[trigger] said[c][w]
            == written.commands@[c]@[w]@
}

/// Whether `said` is what `written` holds, if it holds anything.
pub open spec fn same_text(said: Option<Seq<char>>, written: Option<String>) -> bool {
    match written {
        Some(text) => said == Some(text@),
        None => said is None,
    }
}

proof fn lemma_same_commands(run: ConfigUnitRun)
    ensures
        same_commands(run.says(), run),
{
    assert forall|c: int, w: int|
        0 <= c < run.says().len() && 0 <= w < run.says()[c].len() implies #[trigger] run.says()[c][w]
        == run.commands@[c]@[w]@ by {
        assert(text::texts(run.commands@[c]@)[w] == run.commands@[c]@[w]@);
    }
}

/// A unit is called what its proc says, or its key where that says nothing,
/// and runs what its proc says where it says so: the one `run`, or each of its
/// `modes` in the order they are written, or nothing at all. A mode that names
/// no directory runs in the proc's.
pub proof fn a_unit_runs_what_its_proc_says(config: Config, i: int)
    requires
        0 <= i < config.procs@.len(),
    ensures
        ({
            let proc = config.procs@[i];
            let map = unit_map::map_of(config);
            let behavior = map.units[i].behavior;
            &&& map.units.len() == config.procs@.len()
            &&& map.keys.len() == config.procs@.len()
            &&& map.keys[i] == proc.key@
            &&& proc.name matches Some(name) ==> behavior.name == name@
            &&& proc.name is None ==> behavior.name == proc.key@
            &&& same_text(behavior.short, proc.name_short)
            &&& proc.run matches Some(written) ==> {
                &&& behavior.kind is Run
                &&& same_commands(behavior.kind->Run_0.commands, written)
                &&& same_text(behavior.kind->Run_0.working_dir, proc.working_dir)
            }
            &&& proc.run is None && proc.modes is None ==> behavior.kind is Noop
            &&& proc.run is None && proc.modes is Some ==> {
                let written = proc.modes->0@;
                let modes = behavior.kind->Modes_0;
                &&& behavior.kind is Modes
                &&& modes.len() == written.len()
                &&& forall|m: int|
                    0 <= m < modes.len() ==> {
                        &&& (#[trigger] modes[m]).name == written[m].name@
                        &&& same_text(modes[m].short, written[m].name_short)
                        &&& same_commands(modes[m].run.commands, written[m].run)
                        &&& written[m].working_dir is Some ==> same_text(
                            modes[m].run.working_dir,
                            written[m].working_dir,
                        )
                        &&& written[m].working_dir is None ==> same_text(
                            modes[m].run.working_dir,
                            proc.working_dir,
                        )
                    }
            }
        }),
{
    let proc = config.procs@[i];
    let map = unit_map::map_of(config);
    assert(map.units[i] == unit_map::entry_of(config, i));
    if let Some(run) = proc.run {
        lemma_same_commands(run);
    } else if let Some(modes) = proc.modes {
        let said = map.units[i].behavior.kind->Modes_0;
        assert forall|m: int| 0 <= m < modes@.len() implies same_commands(
            (#[trigger] said[m]).run.commands,
            modes@[m].run,
        ) by {
            lemma_same_commands(modes@[m].run);
        }
    }
}

/// A unit keeps as much output, reads escape sequences or not, and is drawn in
/// the list that its proc says; where the proc says nothing the file's answer
/// stands, and where that says nothing either, a mebibyte, and that they are
/// read.
pub proof fn a_unit_is_set_up_as_its_proc_says(config: Config, i: int)
    requires
        0 <= i < config.procs@.len(),
    ensures
        ({
            let proc = config.procs@[i];
            let unit = unit_map::map_of(config).units[i];
            &&& proc.log_size matches Some(size) ==> unit.log_size == size.0
            &&& proc.log_size is None ==> (config.log_size matches Some(size) ==> unit.log_size
                == size.0)
            &&& proc.log_size is None && config.log_size is None ==> unit.log_size == 1_048_576
            &&& proc.parse_ansi matches Some(parse_ansi) ==> unit.parse_ansi == parse_ansi
            &&& proc.parse_ansi is None ==> (config.parse_ansi matches Some(parse_ansi)
                ==> unit.parse_ansi == parse_ansi)
            &&& proc.parse_ansi is None && config.parse_ansi is None ==> unit.parse_ansi
            &&& unit.panel == proc.panel
            &&& unit.groups.len() == proc.groups@.len()
            &&& forall|g: int|
                0 <= g < unit.groups.len() ==> #[trigger] unit.groups[g] == proc.groups@[g]@
        }),
{
    assert(unit_map::map_of(config).units[i] == unit_map::entry_of(config, i));
}

proof fn lemma_largest(config: Config, end: int)
    requires
        0 <= end <= config.procs@.len(),
    ensures
        forall|i: int|
            0 <= i < end ==> unit_map::chunks_for(#[trigger] unit_map::size_of(config, i))
                <= unit_map::largest(config, end),
        end > 0 ==> exists|i: int|
            0 <= i < end && unit_map::chunks_for(#[trigger] unit_map::size_of(config, i))
                == unit_map::largest(config, end),
    decreases end,
{
    if end > 0 {
        lemma_largest(config, end - 1);
        let last = unit_map::chunks_for(unit_map::size_of(config, end - 1));
        if unit_map::largest(config, end - 1) >= last && end > 1 {
            let i = choose|i: int|
                0 <= i < end - 1 && unit_map::chunks_for(#[trigger] unit_map::size_of(config, i))
                    == unit_map::largest(config, end - 1);
            assert(unit_map::chunks_for(unit_map::size_of(config, i)) == unit_map::largest(
                config,
                end,
            ));
        }
    }
}

/// The largest log of a session is as large as any, and one of them is as
/// large as it; and a log is as many whole chunks as its bytes hold, and never
/// none.
pub proof fn the_largest_log_holds_any(config: Config, i: int)
    requires
        0 <= i < config.procs@.len(),
    ensures
        ({
            let map = unit_map::map_of(config);
            let chunks = unit_map::chunks_for(map.units[i].log_size);
            &&& chunks <= map.log_capacity
            &&& chunks >= 1
            &&& chunks == 1 || chunks * LOG_CHUNK_SIZE <= map.units[i].log_size
            &&& map.units[i].log_size < (chunks + 1) * LOG_CHUNK_SIZE
            &&& exists|j: int|
                0 <= j < map.units.len() && unit_map::chunks_for(
                    (#[trigger] map.units[j]).log_size,
                ) == map.log_capacity
        }),
{
    let map = unit_map::map_of(config);
    let end = config.procs@.len() as int;
    lemma_largest(config, end);
    assert(map.units[i].log_size == unit_map::size_of(config, i));
    let j = choose|j: int|
        0 <= j < end && unit_map::chunks_for(#[trigger] unit_map::size_of(config, j))
            == unit_map::largest(config, end);
    assert(map.units[j].log_size == unit_map::size_of(config, j));
}

} // verus!
