//! The starts that cannot happen yet.

use super::unit_map::{AppUnitKey, AppUnitMap, UnitMapView};
use crate::util::graph;
use vstd::prelude::*;

verus! {

/// Every unit that is to be started once what it depends on is up, and
/// whether it was asked for by name.
///
/// One asked for by name is started whatever it is doing; one pulled in as a
/// dependency only if it has never been.
pub struct AppSchedule {
    scheduled: Vec<(usize, bool)>,
}

/// A start that is due.
#[derive(Clone, Copy, PartialEq, Eq, Debug, Structural)]
pub struct ScheduledStart {
    /// Which unit.
    pub key: usize,
    /// Whether it is started even if it has been before.
    pub force: bool,
}

impl View for AppSchedule {
    type V = Map<usize, bool>;

    closed spec fn view(&self) -> Map<usize, bool> {
        Map::new(
            |key: usize| exists|force: bool| #[trigger] self.scheduled@.contains((key, force)),
            |key: usize| self.scheduled@.contains((key, true)),
        )
    }
}

/// A schedule with `order` added to it, and `direct` asked for by name.
pub open spec fn scheduled_with(
    scheduled: Map<usize, bool>,
    order: Seq<usize>,
    direct: Seq<usize>,
) -> Map<usize, bool> {
    Map::new(
        |key: usize| scheduled.contains_key(key) || order.contains(key) || direct.contains(key),
        |key: usize| direct.contains(key) || (scheduled.contains_key(key) && scheduled[key]),
    )
}

/// A schedule once `keys` have been asked for: they are on it by name, and
/// whatever they need is on it too.
pub open spec fn asked_for(
    map: UnitMapView,
    scheduled: Map<usize, bool>,
    keys: Seq<usize>,
) -> Map<usize, bool> {
    scheduled_with(scheduled, map.waits.at(map.waits.order(map.waits.wanted(keys))), keys)
}

/// A schedule once `group` has been asked for.
pub open spec fn group_asked_for(
    map: UnitMapView,
    scheduled: Map<usize, bool>,
    group: Seq<char>,
) -> Map<usize, bool> {
    let members = map.members(group, map.units.len() as int);
    if members.len() > 0 {
        asked_for(map, scheduled, members)
    } else {
        scheduled
    }
}

/// Whether all that `key` depends on is resolved. One that depends on nothing
/// waits for nothing.
pub open spec fn is_due(map: UnitMapView, resolved: Seq<bool>, key: usize) -> bool {
    key < map.units.len() ==> forall|i: int|
        0 <= i < map.units[key as int].depends.len() ==> is_resolved(
            resolved,
            #[trigger] map.units[key as int].depends[i],
        )
}

/// Whether `key` has run to the end.
pub open spec fn is_resolved(resolved: Seq<bool>, key: usize) -> bool {
    key < resolved.len() && resolved[key as int]
}

impl AppSchedule {
    /// No unit is there twice.
    pub closed spec fn wf(self) -> bool {
        forall|i: int, j: int|
            0 <= i < j < self.scheduled@.len() ==> (#[trigger] self.scheduled@[i]).0 != (
            #[trigger] self.scheduled@[j]).0
    }

    proof fn lemma_at(self, i: int)
        requires
            self.wf(),
            0 <= i < self.scheduled@.len(),
        ensures
            self@.contains_key(self.scheduled@[i].0),
            self@[self.scheduled@[i].0] == self.scheduled@[i].1,
    {
        let (key, force) = self.scheduled@[i];
        assert(self.scheduled@.contains((key, force)));
        if self.scheduled@.contains((key, !force)) {
            let j = self.scheduled@.index_of((key, !force));
            assert(self.scheduled@[j].0 == self.scheduled@[i].0);
        }
    }

    proof fn lemma_key(self, key: usize) -> (i: int)
        requires
            self.wf(),
            self@.contains_key(key),
        ensures
            0 <= i < self.scheduled@.len(),
            self.scheduled@[i] == (key, self@[key]),
    {
        let force = choose|force: bool| #[trigger] self.scheduled@.contains((key, force));
        let i = self.scheduled@.index_of((key, force));
        self.lemma_at(i);
        i
    }

    /// A schedule with nothing on it.
    pub fn new() -> (schedule: Self)
        ensures
            schedule.wf(),
            schedule@ == Map::<usize, bool>::empty(),
    {
        let schedule = AppSchedule { scheduled: Vec::new() };
        assert(schedule@ =~= Map::<usize, bool>::empty());
        schedule
    }

    /// Put `key` on the schedule; `force` says so of it for good, and its
    /// absence leaves what was said.
    fn put(&mut self, key: usize, force: bool)
        requires
            old(self).wf(),
        ensures
            final(self).wf(),
            final(self)@ == old(self)@.insert(
                key,
                force || (old(self)@.contains_key(key) && old(self)@[key]),
            ),
    {
        let ghost before = *self;
        let mut i: usize = 0;
        while i < self.scheduled.len()
            invariant
                *self == before,
                before == *old(self),
                before.wf(),
                i <= self.scheduled@.len(),
                forall|j: int| 0 <= j < i ==> (#[trigger] self.scheduled@[j]).0 != key,
            decreases self.scheduled@.len() - i,
        {
            if self.scheduled[i].0 == key {
                proof {
                    before.lemma_at(i as int);
                }
                let kept = self.scheduled[i].1 || force;
                self.scheduled.set(i, (key, kept));
                proof {
                    assert(self.wf());
                    assert forall|k: usize| self@.contains_key(k) <==> before@.contains_key(k) by {
                        if self@.contains_key(k) {
                            let j = self.lemma_key(k);
                            if j != i {
                                assert(before.scheduled@[j] == self.scheduled@[j]);
                                before.lemma_at(j);
                            }
                        }
                        if before@.contains_key(k) {
                            let j = before.lemma_key(k);
                            if j != i {
                                assert(before.scheduled@[j] == self.scheduled@[j]);
                            }
                            self.lemma_at(j);
                        }
                    }
                    let expected = before@.insert(key, force || before@[key]);
                    assert forall|k: usize| #[trigger] self@.contains_key(k) implies self@[k]
                        == expected[k] by {
                        let j = self.lemma_key(k);
                        if j != i {
                            assert(before.scheduled@[j] == self.scheduled@[j]);
                            before.lemma_at(j);
                        }
                    }
                    assert(self@ =~= expected);
                }
                return ;
            }
            i = i + 1;
        }
        proof {
            if before@.contains_key(key) {
                let j = before.lemma_key(key);
                assert(before.scheduled@[j].0 == key);
            }
        }
        self.scheduled.push((key, force));
        proof {
            assert(self.wf());
            let last = before.scheduled@.len() as int;
            assert(self.scheduled@[last] == (key, force));
            assert forall|k: usize| self@.contains_key(k) <==> (before@.contains_key(k) || k == key) by {
                if self@.contains_key(k) {
                    let j = self.lemma_key(k);
                    if j != last {
                        assert(before.scheduled@[j] == self.scheduled@[j]);
                        before.lemma_at(j);
                    }
                }
                if before@.contains_key(k) {
                    let j = before.lemma_key(k);
                    assert(before.scheduled@[j] == self.scheduled@[j]);
                    self.lemma_at(j);
                }
                if k == key {
                    self.lemma_at(last);
                }
            }
            let expected = before@.insert(key, force);
            assert forall|k: usize| #[trigger] self@.contains_key(k) implies self@[k]
                == expected[k] by {
                let j = self.lemma_key(k);
                if j != last {
                    assert(before.scheduled@[j] == self.scheduled@[j]);
                    before.lemma_at(j);
                }
            }
            assert(self@ =~= expected);
        }
    }

    /// Put everything in `order` on the schedule, with `direct` asked for by
    /// name.
    pub fn schedule_inner(&mut self, order: &Vec<usize>, direct: &[usize])
        requires
            old(self).wf(),
        ensures
            final(self).wf(),
            final(self)@ == scheduled_with(old(self)@, order@, direct@),
    {
        let ghost before = self@;
        let mut i: usize = 0;
        assert(self@ =~= scheduled_with(before, order@.take(0), Seq::empty()));
        while i < order.len()
            invariant
                self.wf(),
                i <= order@.len(),
                self@ == scheduled_with(before, order@.take(i as int), Seq::empty()),
            decreases order@.len() - i,
        {
            let ghost so_far = order@.take(i as int);
            let ghost key = order@[i as int];
            self.put(order[i], false);
            proof {
                assert(order@.take(i + 1) == so_far.push(key));
                assert forall|k: usize| #[trigger] so_far.push(key).contains(k) <==> (
                so_far.contains(k) || k == key) by {
                    lemma_pushed(so_far, key, k);
                }
                assert(self@ =~= scheduled_with(before, order@.take(i + 1), Seq::empty()));
            }
            i = i + 1;
        }
        assert(order@.take(i as int) == order@);
        let mut j: usize = 0;
        assert(direct@.take(0) =~= Seq::<usize>::empty());
        while j < direct.len()
            invariant
                self.wf(),
                j <= direct@.len(),
                self@ == scheduled_with(before, order@, direct@.take(j as int)),
            decreases direct@.len() - j,
        {
            let ghost so_far = direct@.take(j as int);
            let ghost key = direct@[j as int];
            self.put(direct[j], true);
            proof {
                assert(direct@.take(j + 1) == so_far.push(key));
                assert forall|k: usize| #[trigger] so_far.push(key).contains(k) <==> (
                so_far.contains(k) || k == key) by {
                    lemma_pushed(so_far, key, k);
                }
                assert(self@ =~= scheduled_with(before, order@, direct@.take(j + 1)));
            }
            j = j + 1;
        }
        assert(direct@.take(j as int) == direct@);
    }

    /// Ask for a unit to start, and everything it needs before it.
    pub fn schedule(&mut self, map: &AppUnitMap, key: AppUnitKey)
        requires
            old(self).wf(),
            map@.wf(),
        ensures
            final(self).wf(),
            final(self)@ == asked_for(map@, old(self)@, seq![key.at() as usize]),
    {
        let mut keys: Vec<usize> = Vec::new();
        keys.push(key.index());
        assert(keys@ == seq![key.at() as usize]);
        let chain = map.resolve_dependency_chain(keys.as_slice());
        self.schedule_inner(chain.order(), keys.as_slice());
    }

    /// [`schedule`](AppSchedule::schedule) for every unit of a group. A group
    /// nobody declared asks for nothing.
    pub fn schedule_group(&mut self, map: &AppUnitMap, group: &str)
        requires
            old(self).wf(),
            map@.wf(),
        ensures
            final(self).wf(),
            final(self)@ == group_asked_for(map@, old(self)@, group@),
    {
        match map.group(group) {
            Some(keys) => {
                let chain = map.resolve_dependency_chain(keys.as_slice());
                self.schedule_inner(chain.order(), keys.as_slice());
            },
            None => {},
        }
    }

    /// Whether all that `key` depends on is resolved.
    fn due(map: &AppUnitMap, resolved: &Vec<bool>, key: usize) -> (due: bool)
        ensures
            due == is_due(map@, resolved@, key),
    {
        match map.direct_dependencies(key) {
            None => true,
            Some(depends) => {
                let mut i: usize = 0;
                while i < depends.len()
                    invariant
                        key < map@.units.len(),
                        depends@ == map@.units[key as int].depends,
                        i <= depends@.len(),
                        forall|j: int|
                            0 <= j < i ==> is_resolved(resolved@, #[trigger] depends@[j]),
                    decreases depends@.len() - i,
                {
                    if !(depends[i] < resolved.len() && resolved[depends[i]]) {
                        assert(!is_resolved(resolved@, map@.units[key as int].depends[i as int]));
                        return false;
                    }
                    i = i + 1;
                }
                true
            },
        }
    }

    /// Take every start that is due off the schedule.
    ///
    /// What is still waiting stays on it, as it was.
    pub fn run(&mut self, map: &AppUnitMap, resolved: &Vec<bool>) -> (starts: Vec<ScheduledStart>)
        requires
            old(self).wf(),
        ensures
            final(self).wf(),
            final(self)@ == old(self)@.remove_keys(
                Set::new(|key: usize| is_due(map@, resolved@, key)),
            ),
            forall|start: ScheduledStart| #[trigger] starts@.contains(start) <==> {
                &&& old(self)@.contains_key(start.key)
                &&& old(self)@[start.key] == start.force
                &&& is_due(map@, resolved@, start.key)
            },
            starts@.no_duplicates(),
            forall|s: int, i: int|
                #![trigger starts@[s], map@.units[starts@[s].key as int].depends[i]]
                0 <= s < starts@.len() && starts@[s].key < map@.units.len() && 0 <= i
                    < map@.units[starts@[s].key as int].depends.len() ==> {
                    let depends = map@.units[starts@[s].key as int].depends[i];
                    depends < resolved@.len() && resolved@[depends as int]
                },
    {
        let ghost before = *self;
        let mut starts: Vec<ScheduledStart> = Vec::new();
        let mut waiting: Vec<(usize, bool)> = Vec::new();
        let mut i: usize = 0;
        while i < self.scheduled.len()
            invariant
                *self == before,
                before.wf(),
                i <= before.scheduled@.len(),
                forall|j: int|
                    0 <= j < starts@.len() ==> exists|k: int|
                        0 <= k < i && before.scheduled@[k] == (
                            (#[trigger] starts@[j]).key,
                            starts@[j].force,
                        ) && is_due(map@, resolved@, starts@[j].key),
                forall|j: int|
                    0 <= j < waiting@.len() ==> exists|k: int|
                        0 <= k < i && before.scheduled@[k] == #[trigger] waiting@[j] && !is_due(
                            map@,
                            resolved@,
                            waiting@[j].0,
                        ),
                forall|k: int|
                    0 <= k < i ==> if is_due(map@, resolved@, (#[trigger] before.scheduled@[k]).0) {
                        starts@.contains(
                            ScheduledStart {
                                key: before.scheduled@[k].0,
                                force: before.scheduled@[k].1,
                            },
                        )
                    } else {
                        waiting@.contains(before.scheduled@[k])
                    },
                forall|a: int, b: int|
                    0 <= a < b < starts@.len() ==> (#[trigger] starts@[a]).key != (
                    #[trigger] starts@[b]).key,
                forall|a: int, b: int|
                    0 <= a < b < waiting@.len() ==> (#[trigger] waiting@[a]).0 != (
                    #[trigger] waiting@[b]).0,
            decreases before.scheduled@.len() - i,
        {
            let (key, force) = self.scheduled[i];
            let ghost starts_before = starts@;
            let ghost waiting_before = waiting@;
            if Self::due(map, resolved, key) {
                starts.push(ScheduledStart { key, force });
            } else {
                waiting.push((key, force));
            }
            proof {
                assert(before.scheduled@[i as int] == (key, force));
                assert forall|k: int| 0 <= k < i + 1 implies if is_due(
                    map@,
                    resolved@,
                    (#[trigger] before.scheduled@[k]).0,
                ) {
                    starts@.contains(
                        ScheduledStart {
                            key: before.scheduled@[k].0,
                            force: before.scheduled@[k].1,
                        },
                    )
                } else {
                    waiting@.contains(before.scheduled@[k])
                } by {
                    let start = ScheduledStart {
                        key: before.scheduled@[k].0,
                        force: before.scheduled@[k].1,
                    };
                    if k < i {
                        if is_due(map@, resolved@, before.scheduled@[k].0) {
                            let at = starts_before.index_of(start);
                            assert(starts@[at] == start);
                        } else {
                            let at = waiting_before.index_of(before.scheduled@[k]);
                            assert(waiting@[at] == before.scheduled@[k]);
                        }
                    } else {
                        if is_due(map@, resolved@, key) {
                            assert(starts@[starts_before.len() as int] == start);
                        } else {
                            assert(waiting@[waiting_before.len() as int] == (key, force));
                        }
                    }
                }
                assert forall|j: int| 0 <= j < starts@.len() implies exists|k: int|
                    0 <= k < i + 1 && before.scheduled@[k] == (
                        (#[trigger] starts@[j]).key,
                        starts@[j].force,
                    ) && is_due(map@, resolved@, starts@[j].key) by {
                    if j < starts_before.len() {
                        assert(starts_before[j] == starts@[j]);
                        let k = choose|k: int|
                            0 <= k < i && before.scheduled@[k] == (
                                starts_before[j].key,
                                starts_before[j].force,
                            );
                        assert(before.scheduled@[k] == (starts@[j].key, starts@[j].force));
                    } else {
                        assert(before.scheduled@[i as int] == (starts@[j].key, starts@[j].force));
                    }
                }
                assert forall|j: int| 0 <= j < waiting@.len() implies exists|k: int|
                    0 <= k < i + 1 && before.scheduled@[k] == #[trigger] waiting@[j] && !is_due(
                        map@,
                        resolved@,
                        waiting@[j].0,
                    ) by {
                    if j < waiting_before.len() {
                        assert(waiting_before[j] == waiting@[j]);
                        let k = choose|k: int|
                            0 <= k < i && before.scheduled@[k] == waiting_before[j];
                        assert(before.scheduled@[k] == waiting@[j]);
                    } else {
                        assert(before.scheduled@[i as int] == waiting@[j]);
                    }
                }
            }
            i = i + 1;
        }
        self.scheduled = waiting;
        proof {
            assert(self.wf());
            let due = Set::new(|key: usize| is_due(map@, resolved@, key));
            let expected = before@.remove_keys(due);
            assert forall|k: usize| self@.contains_key(k) <==> expected.contains_key(k) by {
                if self@.contains_key(k) {
                    let j = self.lemma_key(k);
                    let at = choose|at: int|
                        0 <= at < i && before.scheduled@[at] == #[trigger] waiting@[j] && !is_due(
                            map@,
                            resolved@,
                            waiting@[j].0,
                        );
                    before.lemma_at(at);
                }
                if expected.contains_key(k) {
                    let at = before.lemma_key(k);
                    let j = waiting@.index_of(before.scheduled@[at]);
                    self.lemma_at(j);
                }
            }
            assert forall|k: usize| #[trigger] self@.contains_key(k) implies self@[k]
                == expected[k] by {
                let j = self.lemma_key(k);
                let at = choose|at: int|
                    0 <= at < i && before.scheduled@[at] == #[trigger] waiting@[j] && !is_due(
                        map@,
                        resolved@,
                        waiting@[j].0,
                    );
                before.lemma_at(at);
            }
            assert(self@ =~= expected);
            assert forall|start: ScheduledStart| #[trigger] starts@.contains(start) <==> {
                &&& before@.contains_key(start.key)
                &&& before@[start.key] == start.force
                &&& is_due(map@, resolved@, start.key)
            } by {
                if starts@.contains(start) {
                    let j = starts@.index_of(start);
                    let at = choose|at: int|
                        0 <= at < i && before.scheduled@[at] == (
                            (#[trigger] starts@[j]).key,
                            starts@[j].force,
                        ) && is_due(map@, resolved@, starts@[j].key);
                    before.lemma_at(at);
                }
                if before@.contains_key(start.key) && before@[start.key] == start.force && is_due(
                    map@,
                    resolved@,
                    start.key,
                ) {
                    let at = before.lemma_key(start.key);
                    assert(start == ScheduledStart {
                        key: before.scheduled@[at].0,
                        force: before.scheduled@[at].1,
                    });
                }
            }
            assert forall|s: int, i: int|
                #![trigger starts@[s], map@.units[starts@[s].key as int].depends[i]]
                0 <= s < starts@.len() && starts@[s].key < map@.units.len() && 0 <= i
                    < map@.units[starts@[s].key as int].depends.len() implies {
                let depends = map@.units[starts@[s].key as int].depends[i];
                depends < resolved@.len() && resolved@[depends as int]
            } by {
                assert(starts@.contains(starts@[s]));
                nothing_is_due_before_what_it_depends_on(map@, resolved@, starts@[s].key);
            }
        }
        starts
    }
}

proof fn lemma_pushed(list: Seq<usize>, item: usize, other: usize)
    ensures
        list.push(item).contains(other) <==> (list.contains(other) || other == item),
{
    if list.contains(other) {
        let i = list.index_of(other);
        assert(list.push(item)[i] == other);
    }
    if list.push(item).contains(other) && other != item {
        let i = list.push(item).index_of(other);
        assert(list[i] == other);
    }
    assert(list.push(item)[list.len() as int] == item);
}

/// Nothing is due before what it depends on has finished, every bit of it;
/// and once every bit has, it is.
pub proof fn nothing_is_due_before_what_it_depends_on(
    map: UnitMapView,
    resolved: Seq<bool>,
    key: usize,
)
    requires
        key < map.units.len(),
    ensures
        is_due(map, resolved, key) <==> forall|i: int|
            0 <= i < map.units[key as int].depends.len() ==> (
            #[trigger] map.units[key as int].depends[i]) < resolved.len()
                && resolved[map.units[key as int].depends[i] as int],
{
    let depends = map.units[key as int].depends;
    if is_due(map, resolved, key) {
        assert forall|i: int| 0 <= i < depends.len() implies (#[trigger] depends[i])
            < resolved.len() && resolved[depends[i] as int] by {
            assert(is_resolved(resolved, map.units[key as int].depends[i]));
        }
    }
}

/// Whether every unit on the schedule waits only for units that are resolved
/// or on the schedule themselves.
pub open spec fn brings_its_own(
    map: UnitMapView,
    scheduled: Map<usize, bool>,
    resolved: Seq<bool>,
) -> bool {
    forall|key: usize, i: int|
        #![trigger map.units[key as int].depends[i]]
        scheduled.contains_key(key) && key < map.units.len() && 0 <= i
            < map.units[key as int].depends.len() ==> {
            let depends = map.units[key as int].depends[i];
            is_resolved(resolved, depends) || scheduled.contains_key(depends)
        }
}

/// From a unit that waits, a walk of any length through units that wait.
proof fn lemma_waiting_walk(
    map: UnitMapView,
    scheduled: Map<usize, bool>,
    resolved: Seq<bool>,
    start: usize,
    length: nat,
) -> (walk: Seq<int>)
    requires
        map.wf(),
        map.depends_follow(),
        brings_its_own(map, scheduled, resolved),
        scheduled.contains_key(start),
        start < map.units.len(),
        forall|key: usize|
            scheduled.contains_key(key) ==> !#[trigger] is_due(map, resolved, key),
    ensures
        walk.len() == length + 1,
        walk[0] == start,
        forall|i: int| 0 <= i < walk.len() ==> 0 <= #[trigger] walk[i] < map.units.len(),
        forall|i: int, j: int|
            0 <= i < j < walk.len() ==> map.waits.needs(#[trigger] walk[i], #[trigger] walk[j]),
    decreases length,
{
    if length == 0 {
        seq![start as int]
    } else {
        assert(!is_due(map, resolved, start));
        let i = choose|i: int|
            0 <= i < map.units[start as int].depends.len() && !is_resolved(
                resolved,
                #[trigger] map.units[start as int].depends[i],
            );
        let next = map.units[start as int].depends[i];
        assert(map.waits.edge(start as int, next as int));
        graph::lemma_edge_needs(map.waits, start as int, next as int);
        graph::lemma_needs_inside(map.waits, start as int, next as int);
        let rest = lemma_waiting_walk(map, scheduled, resolved, next, (length - 1) as nat);
        let walk = seq![start as int] + rest;
        assert forall|i: int, j: int| 0 <= i < j < walk.len() implies map.waits.needs(
            #[trigger] walk[i],
            #[trigger] walk[j],
        ) by {
            if i == 0 {
                if j > 1 {
                    assert(map.waits.needs(rest[0], rest[j - 1]));
                    graph::lemma_needs_on(map.waits, start as int, next as int, walk[j]);
                }
            } else {
                assert(map.waits.needs(rest[i - 1], rest[j - 1]));
            }
        }
        assert forall|i: int| 0 <= i < walk.len() implies 0 <= #[trigger] walk[i]
            < map.units.len() by {
            if i > 0 {
                assert(walk[i] == rest[i - 1]);
            }
        }
        walk
    }
}

/// A schedule never gets stuck: where nothing waits on itself, and everything
/// on the schedule waits only for what is resolved or scheduled too, something
/// on it is due.
pub proof fn a_schedule_never_gets_stuck(
    map: UnitMapView,
    scheduled: Map<usize, bool>,
    resolved: Seq<bool>,
    key: usize,
)
    requires
        map.wf(),
        map.depends_follow(),
        forall|i: int| !#[trigger] map.waits.needs(i, i),
        brings_its_own(map, scheduled, resolved),
        scheduled.contains_key(key),
    ensures
        exists|due: usize| scheduled.contains_key(due) && #[trigger] is_due(map, resolved, due),
{
    if forall|due: usize| scheduled.contains_key(due) ==> !#[trigger] is_due(map, resolved, due) {
        assert(!is_due(map, resolved, key));
        let walk = lemma_waiting_walk(map, scheduled, resolved, key, map.units.len());
        if walk.no_duplicates() {
            graph::lemma_no_more_than(walk, map.units.len() as int);
        }
        let (a, b) = choose|a: int, b: int|
            0 <= a < walk.len() && 0 <= b < walk.len() && a != b && walk[a] == walk[b];
        assert(map.waits.needs(walk[a], walk[b]) || map.waits.needs(walk[b], walk[a]));
    }
}

/// A start brings everything it needs: where nothing waits on itself, what is
/// put on the schedule for `keys` is every unit among them and every unit they
/// need.
pub proof fn a_start_brings_everything_it_needs(
    map: UnitMapView,
    scheduled: Map<usize, bool>,
    keys: Seq<usize>,
)
    requires
        map.wf(),
        forall|i: int| !#[trigger] map.waits.needs(i, i),
    ensures
        forall|key: usize| #[trigger]
            map.waits.wanted(keys).contains(key as int) ==> asked_for(
                map,
                scheduled,
                keys,
            ).contains_key(key),
{
    let waits = map.waits;
    let wanted = waits.wanted(keys);
    let order = waits.order(wanted);
    let after = asked_for(map, scheduled, keys);
    graph::without_a_circle_everything_is_placed(waits, keys);
    assert forall|key: usize| #[trigger] wanted.contains(key as int) implies after.contains_key(
        key,
    ) by {
        assert(order.contains(key as int));
        let i = order.index_of(key as int);
        assert(waits.at(order)[i] == key);
    }
}

/// A group is asked for as its members are: every unit declared under it is on
/// the schedule by name, every unit they need is on it, and what was on it
/// stays.
pub proof fn a_group_brings_everything_it_needs(
    map: UnitMapView,
    scheduled: Map<usize, bool>,
    group: Seq<char>,
)
    requires
        map.wf(),
        forall|i: int| !#[trigger] map.waits.needs(i, i),
    ensures
        ({
            let members = map.members(group, map.units.len() as int);
            let after = group_asked_for(map, scheduled, group);
            &&& forall|key: usize| #[trigger]
                members.contains(key) ==> after.contains_key(key) && after[key]
            &&& forall|key: usize, to: int|
                members.contains(key) && #[trigger] map.waits.needs(key as int, to)
                    ==> after.contains_key(to as usize)
            &&& forall|key: usize| #[trigger]
                scheduled.contains_key(key) ==> after.contains_key(key) && (scheduled[key]
                    ==> after[key])
        }),
{
    let members = map.members(group, map.units.len() as int);
    let after = group_asked_for(map, scheduled, group);
    a_start_brings_everything_it_needs(map, scheduled, members);
    assert forall|key: usize, to: int|
        members.contains(key) && #[trigger] map.waits.needs(
            key as int,
            to,
        ) implies after.contains_key(to as usize) by {
        graph::lemma_needs_inside(map.waits, key as int, to);
        assert(map.waits.nodes[key as int] == key);
        assert(map.waits.wanted(members).contains(to as usize as int));
    }
}

/// Asking keeps a schedule one that cannot get stuck: where everything on it
/// waits only for what is resolved or on it too, that is so after anything has
/// been asked for.
pub proof fn asking_keeps_a_schedule_whole(
    map: UnitMapView,
    scheduled: Map<usize, bool>,
    resolved: Seq<bool>,
    keys: Seq<usize>,
)
    requires
        map.wf(),
        map.depends_follow(),
        forall|i: int| !#[trigger] map.waits.needs(i, i),
        brings_its_own(map, scheduled, resolved),
    ensures
        brings_its_own(map, asked_for(map, scheduled, keys), resolved),
{
    let waits = map.waits;
    let wanted = waits.wanted(keys);
    let order = waits.order(wanted);
    let after = asked_for(map, scheduled, keys);
    a_start_brings_everything_it_needs(map, scheduled, keys);
    graph::everything_comes_after_what_it_depends_on(waits, wanted);
    assert forall|key: usize, i: int|
        #![trigger map.units[key as int].depends[i]]
        after.contains_key(key) && key < map.units.len() && 0 <= i
            < map.units[key as int].depends.len() implies {
        let depends = map.units[key as int].depends[i];
        is_resolved(resolved, depends) || after.contains_key(depends)
    } by {
        let depends = map.units[key as int].depends[i];
        assert(waits.edge(key as int, depends as int));
        graph::lemma_edge_needs(waits, key as int, depends as int);
        graph::lemma_needs_inside(waits, key as int, depends as int);
        if !scheduled.contains_key(key) {
            if waits.at(order).contains(key) {
                let at = waits.at(order).index_of(key);
                assert(waits.nodes[order[at]] == order[at] as usize);
                assert(wanted.contains(key as int));
            } else {
                assert(waits.nodes[key as int] == key);
                assert(wanted.contains(key as int));
            }
            graph::lemma_wanted_closed(waits, keys, key as int, depends as int);
            assert(wanted.contains(depends as int));
        }
    }
}

} // verus!
