//! A session as something outside it sees it.

use crate::app::{AppUnitKey, AppUnitMap, UnitMapView};
use crate::config::ConfigPanel;
use crate::runner::RunnerState;
use crate::util::text;
use crate::util::text::{copy_text, same_text};
use vstd::prelude::*;
use vstd::string::*;
use vstd::utf8::*;

verus! {

/// One unit, as a screen needs it: what it is called, and where its run was
/// the last time anybody looked.
///
/// The state is a copy, not a view. It is already slightly out of date by the
/// time it is drawn, and that is fine — it is a report of what the session
/// looked like at the last look, which is all a frame ever shows.
pub struct ViewUnit {
    /// How a command addresses it.
    pub unit_key: AppUnitKey,
    /// The name it was declared under.
    pub key: String,
    /// What to call it on screen.
    pub name: String,
    /// A shorter name, if it was given one.
    pub name_short: Option<String>,
    /// Which of its modes it is on, for a unit that has modes.
    pub mode: Option<String>,
    /// That mode's short name, if it has one.
    pub mode_short: Option<String>,
    /// Where its run was.
    pub state: RunnerState,
    /// Which list it is drawn in.
    pub panel: ConfigPanel,
    /// Whether its escape sequences are read.
    pub parse_ansi: bool,
}

/// A unit, as a screen needs it.
#[verifier::ext_equal]
pub struct UnitRow {
    pub unit_key: AppUnitKey,
    pub key: Seq<char>,
    pub name: Seq<char>,
    pub name_short: Option<Seq<char>>,
    pub mode: Option<Seq<char>>,
    pub mode_short: Option<Seq<char>>,
    pub state: RunnerState,
    pub panel: ConfigPanel,
    pub parse_ansi: bool,
}

impl View for ViewUnit {
    type V = UnitRow;

    open spec fn view(&self) -> UnitRow {
        UnitRow {
            unit_key: self.unit_key,
            key: self.key@,
            name: self.name@,
            name_short: text::opt_text(self.name_short),
            mode: text::opt_text(self.mode),
            mode_short: text::opt_text(self.mode_short),
            state: self.state,
            panel: self.panel,
            parse_ansi: self.parse_ansi,
        }
    }
}

/// Something the user asked for.
///
/// One type rather than one function per verb, because this is what goes on
/// the wire: a remote client sends one and the session plays it back.
#[derive(PartialEq, Eq, Debug)]
pub enum ViewCommand<E> {
    /// Run it, restarting it if it was already running.
    Start { key: AppUnitKey },
    /// Stop it.
    Stop { key: AppUnitKey },
    /// Hand it an event and let its behavior decide.
    Dispatch { key: AppUnitKey, event: E },
}

/// The rows of some units.
pub open spec fn rows(units: Seq<ViewUnit>) -> Seq<UnitRow> {
    Seq::new(units.len(), |i: int| units[i]@)
}

/// Whether `a` comes no later than `b` in the order of their bytes: the first
/// that differs decides, and one that the other goes on from comes first.
pub open spec fn text_le(a: Seq<u8>, b: Seq<u8>) -> bool
    decreases a.len(),
{
    if a.len() == 0 {
        true
    } else if b.len() == 0 {
        false
    } else if a[0] != b[0] {
        a[0] < b[0]
    } else {
        text_le(a.skip(1), b.skip(1))
    }
}

/// Whether a row comes no later than another: by panel, and then by name.
pub open spec fn row_le(a: UnitRow, b: UnitRow) -> bool {
    match (a.panel, b.panel) {
        (ConfigPanel::Main, ConfigPanel::Minor) => true,
        (ConfigPanel::Minor, ConfigPanel::Main) => false,
        _ => text_le(encode_utf8(a.name), encode_utf8(b.name)),
    }
}

/// Whether rows are in the order they are drawn in.
pub open spec fn ordered(units: Seq<UnitRow>) -> bool {
    forall|i: int, j: int|
        0 <= i < j < units.len() ==> row_le(#[trigger] units[i], #[trigger] units[j])
}

proof fn lemma_text_le_total(a: Seq<u8>, b: Seq<u8>)
    ensures
        text_le(a, b) || text_le(b, a),
    decreases a.len(),
{
    if a.len() > 0 && b.len() > 0 && a[0] == b[0] {
        lemma_text_le_total(a.skip(1), b.skip(1));
    }
}

proof fn lemma_text_le_on(a: Seq<u8>, b: Seq<u8>, c: Seq<u8>)
    requires
        text_le(a, b),
        text_le(b, c),
    ensures
        text_le(a, c),
    decreases a.len(),
{
    if a.len() > 0 && b.len() > 0 && c.len() > 0 && a[0] == b[0] && b[0] == c[0] {
        lemma_text_le_on(a.skip(1), b.skip(1), c.skip(1));
    }
}

proof fn lemma_row_le_total(a: UnitRow, b: UnitRow)
    ensures
        row_le(a, b) || row_le(b, a),
{
    lemma_text_le_total(encode_utf8(a.name), encode_utf8(b.name));
}

proof fn lemma_row_le_on(a: UnitRow, b: UnitRow, c: UnitRow)
    requires
        row_le(a, b),
        row_le(b, c),
    ensures
        row_le(a, c),
{
    if a.panel == b.panel && b.panel == c.panel {
        lemma_text_le_on(encode_utf8(a.name), encode_utf8(b.name), encode_utf8(c.name));
    }
}

/// Rows in the order they are drawn in have every row of the main panel before
/// every row of the minor one.
pub proof fn ordered_rows_are_by_panel(units: Seq<UnitRow>)
    requires
        ordered(units),
    ensures
        forall|i: int, j: int|
            0 <= i < j < units.len() && (#[trigger] units[i]).panel == ConfigPanel::Minor ==> (
            #[trigger] units[j]).panel == ConfigPanel::Minor,
{
}

/// Looking at rows again keeps them in the order they are drawn in.
pub proof fn looking_again_keeps_the_order(units: Seq<UnitRow>, now: Seq<UnitNow>)
    requires
        ordered(units),
    ensures
        ordered(all_refreshed(units, now)),
{
    let after = all_refreshed(units, now);
    assert forall|i: int, j: int| 0 <= i < j < after.len() implies row_le(
        #[trigger] after[i],
        #[trigger] after[j],
    ) by {
        assert(row_le(units[i], units[j]));
    }
}

/// Whether `a` comes no later than `b`.
pub fn is_text_le(a: &str, b: &str) -> (le: bool)
    ensures
        le == text_le(encode_utf8(a@), encode_utf8(b@)),
{
    let left = a.as_bytes();
    let right = b.as_bytes();
    let mut i: usize = 0;
    assert(left@.skip(0) =~= left@);
    assert(right@.skip(0) =~= right@);
    while i < left.len()
        invariant
            left@ == encode_utf8(a@),
            right@ == encode_utf8(b@),
            i <= left@.len(),
            i <= right@.len(),
            text_le(left@, right@) == text_le(left@.skip(i as int), right@.skip(i as int)),
        decreases left@.len() - i,
    {
        if i == right.len() {
            return false;
        }
        if left[i] != right[i] {
            return left[i] < right[i];
        }
        assert(left@.skip(i as int).skip(1) =~= left@.skip(i + 1));
        assert(right@.skip(i as int).skip(1) =~= right@.skip(i + 1));
        i = i + 1;
    }
    true
}

fn is_row_le(a: &ViewUnit, b: &ViewUnit) -> (le: bool)
    ensures
        le == row_le(a@, b@),
{
    match (a.panel, b.panel) {
        (ConfigPanel::Main, ConfigPanel::Minor) => true,
        (ConfigPanel::Minor, ConfigPanel::Main) => false,
        _ => is_text_le(a.name.as_str(), b.name.as_str()),
    }
}

/// Put a row where it goes among rows that are in order: after every one that
/// comes no later than it.
pub fn insert_row(units: &mut Vec<ViewUnit>, unit: ViewUnit)
    requires
        ordered(rows(old(units)@)),
    ensures
        ordered(rows(final(units)@)),
        rows(final(units)@).to_multiset() == rows(old(units)@).to_multiset().insert(unit@),
{
    let ghost before = rows(units@);
    let mut at: usize = 0;
    while at < units.len() && is_row_le(&units[at], &unit)
        invariant
            at <= units@.len(),
            before == rows(units@),
            forall|i: int| 0 <= i < at ==> row_le(#[trigger] before[i], unit@),
        ensures
            at <= units@.len(),
            forall|i: int| 0 <= i < at ==> row_le(#[trigger] before[i], unit@),
            at < units@.len() ==> !row_le(before[at as int], unit@),
        decreases units@.len() - at,
    {
        assert(before[at as int] == units@[at as int]@);
        at = at + 1;
    }
    let ghost row = unit@;
    units.insert(at, unit);
    proof {
        let after = rows(units@);
        assert(after =~= before.insert(at as int, row));
        vstd::seq_lib::to_multiset_insert(before, at as int, row);
        assert forall|i: int, j: int| 0 <= i < j < after.len() implies row_le(
            #[trigger] after[i],
            #[trigger] after[j],
        ) by {
            if at < before.len() {
                lemma_row_le_total(before[at as int], row);
            }
            if i < at && j > at {
                assert(row_le(before[i], before[j - 1]));
            } else if i < at && j < at {
                assert(row_le(before[i], before[j]));
            } else if i > at {
                assert(row_le(before[i - 1], before[j - 1]));
            } else if i == at {
                if j - 1 > at {
                    assert(row_le(before[at as int], before[j - 1]));
                    lemma_row_le_on(row, before[at as int], before[j - 1]);
                }
            }
        }
    }
}

/// The row of the unit under `key`, before anybody has looked at it.
pub open spec fn row_of(map: UnitMapView, key: AppUnitKey) -> UnitRow {
    let entry = map.units[key.at() as int];
    UnitRow {
        unit_key: key,
        key: map.keys[key.at() as int],
        name: entry.behavior.name,
        name_short: entry.behavior.short,
        mode: None,
        mode_short: None,
        state: RunnerState::Stopped,
        panel: entry.panel,
        parse_ansi: entry.parse_ansi,
    }
}

/// Every unit of a session as a row, in the order of their keys.
pub open spec fn declared_rows(map: UnitMapView) -> Seq<UnitRow> {
    Seq::new(map.units.len(), |i: int| row_of(map, AppUnitKey::of(i as nat)))
}

/// Every unit of a session as a row, in the order they are drawn in: by panel
/// and then by name.
///
/// Laid out once and for good: a list that resequenced itself on every look
/// would move the row out from under the cursor.
pub fn rows_of(map: &AppUnitMap) -> (units: Vec<ViewUnit>)
    requires
        map@.wf(),
    ensures
        ordered(rows(units@)),
        rows(units@).to_multiset() == declared_rows(map@).to_multiset(),
{
    let keys = map.keys();
    let ghost all = declared_rows(map@);
    let mut units: Vec<ViewUnit> = Vec::new();
    let mut i: usize = 0;
    assert(rows(units@) =~= Seq::empty());
    assert(all.take(0) =~= Seq::empty());
    while i < keys.len()
        invariant
            map@.wf(),
            keys@.len() == map@.units.len(),
            forall|i: int|
                0 <= i < keys@.len() ==> (#[trigger] keys@[i]).at() == i && keys@[i]
                    == AppUnitKey::of(i as nat),
            all == declared_rows(map@),
            i <= keys@.len(),
            ordered(rows(units@)),
            rows(units@).to_multiset() == all.take(i as int).to_multiset(),
        decreases keys@.len() - i,
    {
        let unit_key = keys[i];
        let name = match map.key_str(unit_key) {
            Some(name) => text::owned(name),
            None => String::new(),
        };
        match map.entry(unit_key) {
            Ok(entry) => {
                let unit = ViewUnit {
                    unit_key,
                    key: name,
                    name: entry.behavior.name.clone(),
                    name_short: copy_text(&entry.behavior.short),
                    mode: None,
                    mode_short: None,
                    state: RunnerState::Stopped,
                    panel: entry.panel,
                    parse_ansi: entry.parse_ansi,
                };
                assert(unit@ =~= row_of(map@, unit_key));
                insert_row(&mut units, unit);
                proof {
                    assert(all.take(i + 1) =~= all.take(i as int).push(all[i as int]));
                    all.take(i as int).to_multiset_ensures();
                }
            },
            Err(_) => {},
        }
        i = i + 1;
    }
    proof {
        assert(all.take(i as int) =~= all);
    }
    units
}

/// What a look at one unit finds: the three things a run changes.
#[derive(PartialEq, Eq, Debug)]
pub struct UnitNow {
    pub state: RunnerState,
    pub mode: Option<String>,
    pub mode_short: Option<String>,
}

/// A row, looked at again.
pub open spec fn looked_at(row: UnitRow, now: UnitNow) -> UnitRow {
    UnitRow {
        state: now.state,
        mode: text::opt_text(now.mode),
        mode_short: text::opt_text(now.mode_short),
        ..row
    }
}

/// A row, looked at again if there was anything to see: units are found by
/// the number of their key.
pub open spec fn refreshed(row: UnitRow, now: Seq<UnitNow>) -> UnitRow {
    if row.unit_key.at() < now.len() {
        looked_at(row, now[row.unit_key.at() as int])
    } else {
        row
    }
}

/// Rows, looked at again.
pub open spec fn all_refreshed(units: Seq<UnitRow>, now: Seq<UnitNow>) -> Seq<UnitRow> {
    Seq::new(units.len(), |i: int| refreshed(units[i], now))
}

fn same_opt(a: &Option<String>, b: &Option<String>) -> (same: bool)
    ensures
        same == (text::opt_text(*a) == text::opt_text(*b)),
{
    match (a, b) {
        (Some(a), Some(b)) => same_text(a.as_str(), b.as_str()),
        (None, None) => true,
        _ => false,
    }
}

/// Look at every row again, and report whether any of them had changed.
///
/// What a run changes is compared rather than written over: the comparison is
/// what lets a client be told that what it has is still current.
pub fn refresh_rows(units: &mut Vec<ViewUnit>, now: &Vec<UnitNow>) -> (changed: bool)
    ensures
        rows(final(units)@) == all_refreshed(rows(old(units)@), now@),
        changed == (rows(final(units)@) != rows(old(units)@)),
{
    let ghost before = rows(units@);
    let ghost after = all_refreshed(before, now@);
    let mut changed = false;
    let mut i: usize = 0;
    while i < units.len()
        invariant
            units@.len() == before.len(),
            after == all_refreshed(before, now@),
            i <= units@.len(),
            forall|j: int| 0 <= j < i ==> (#[trigger] units@[j])@ == after[j],
            forall|j: int| i <= j < units@.len() ==> (#[trigger] units@[j])@ == before[j],
            changed <==> exists|j: int| 0 <= j < i && after[j] != #[trigger] before[j],
        decreases units@.len() - i,
    {
        let index = units[i].unit_key.index();
        let ghost was_changed = changed;
        if index < now.len() {
            let seen = &now[index];
            if units[i].state != seen.state || !same_opt(&units[i].mode, &seen.mode) || !same_opt(
                &units[i].mode_short,
                &seen.mode_short,
            ) {
                units[i].state = seen.state;
                units[i].mode = copy_text(&seen.mode);
                units[i].mode_short = copy_text(&seen.mode_short);
                changed = true;
                assert(after[i as int] != before[i as int]);
            } else {
                assert(after[i as int] =~= before[i as int]);
            }
        }
        assert(units@[i as int]@ =~= after[i as int]);
        i = i + 1;
    }
    proof {
        assert(rows(units@) =~= after);
        if !changed {
            assert forall|j: int| 0 <= j < before.len() implies after[j] == before[j] by {
                assert(!(after[j] != before[j]));
            }
            assert(after =~= before);
        }
    }
    changed
}

proof fn lemma_text_le(a: Seq<u8>, b: Seq<u8>, k: int)
    requires
        0 <= k <= a.len(),
        k <= b.len(),
        forall|i: int| 0 <= i < k ==> a[i] == b[i],
        k == a.len() || k == b.len() || a[k] != b[k],
    ensures
        text_le(a, b) <==> k == a.len() || (k < b.len() && a[k] < b[k]),
    decreases k,
{
    if k > 0 {
        let x = a.skip(1);
        let y = b.skip(1);
        assert forall|i: int| 0 <= i < k - 1 implies x[i] == y[i] by {
            assert(a[i + 1] == b[i + 1]);
        }
        lemma_text_le(x, y, k - 1);
    }
}

/// Rows are drawn main list first, and within a list by the bytes of their
/// names: the first byte that differs decides, and a name that another goes on
/// from comes first.
pub proof fn rows_go_by_panel_then_name(a: UnitRow, b: UnitRow, k: int)
    requires
        ({
            let x = encode_utf8(a.name);
            let y = encode_utf8(b.name);
            &&& 0 <= k <= x.len()
            &&& k <= y.len()
            &&& forall|i: int| 0 <= i < k ==> x[i] == y[i]
            &&& k == x.len() || k == y.len() || x[k] != y[k]
        }),
    ensures
        a.panel is Main && b.panel is Minor ==> row_le(a, b) && !row_le(b, a),
        a.panel == b.panel ==> {
            let x = encode_utf8(a.name);
            let y = encode_utf8(b.name);
            row_le(a, b) <==> k == x.len() || (k < y.len() && x[k] < y[k])
        },
{
    lemma_text_le(encode_utf8(a.name), encode_utf8(b.name), k);
}

/// A look brings every row what was seen of its own unit — where its run is
/// and which mode it is on — and changes nothing else of it, nor which rows
/// there are.
pub proof fn a_look_brings_each_row_its_own(units: Seq<UnitRow>, now: Seq<UnitNow>, i: int)
    requires
        0 <= i < units.len(),
    ensures
        all_refreshed(units, now).len() == units.len(),
        ({
            let row = units[i];
            let after = all_refreshed(units, now)[i];
            let at = row.unit_key.at();
            &&& after.unit_key == row.unit_key
            &&& after.key == row.key
            &&& after.name == row.name
            &&& after.name_short == row.name_short
            &&& after.panel == row.panel
            &&& after.parse_ansi == row.parse_ansi
            &&& at < now.len() ==> {
                let seen = now[at as int];
                &&& after.state == seen.state
                &&& seen.mode matches Some(mode) ==> after.mode == Some(mode@)
                &&& seen.mode is None ==> after.mode is None
                &&& seen.mode_short matches Some(mode) ==> after.mode_short == Some(mode@)
                &&& seen.mode_short is None ==> after.mode_short is None
            }
            &&& at >= now.len() ==> after == row
        }),
{
}

/// Every unit has a row of its own, under its own key and with its own names
/// and list, stopped and on no mode until somebody looks.
pub proof fn every_unit_has_a_row(map: UnitMapView, i: int)
    requires
        map.wf(),
        0 <= i < map.units.len(),
    ensures
        declared_rows(map).len() == map.units.len(),
        ({
            let row = declared_rows(map)[i];
            &&& row.unit_key.at() == i
            &&& row.key == map.keys[i]
            &&& row.name == map.units[i].behavior.name
            &&& row.name_short == map.units[i].behavior.short
            &&& row.panel == map.units[i].panel
            &&& row.parse_ansi == map.units[i].parse_ansi
            &&& row.state == RunnerState::Stopped
            &&& row.mode is None
            &&& row.mode_short is None
        }),
{
    AppUnitKey::lemma_of(i as nat);
}

} // verus!
