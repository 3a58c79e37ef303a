//! The units pane: one row per unit, laid out the way the theme says.

use super::menu::past_mark;
use crate::config::ConfigPanel;
use crate::runner::RunnerState;
use crate::ui::draw;
use crate::ui::draw::{
    columns_of, room, DrawView, PenView, UiArea, UiDraw, UiPen, UiStyle,
};
use crate::ui::theme::{UiColor, UiTheme, UiThemeMenuLayout};
use crate::util::text;
use crate::util::text::decimal;
use crate::view;
use crate::view::{UnitRow, ViewUnit};
use vstd::prelude::*;
use vstd::string::*;

verus! {

/// Blank columns at each edge of a row, so the text is not against the border
/// and the gutter has somewhere to start.
pub const UNITS_PAD_X: u16 = 1;

/// What separates the name from the column on the right, in a compact row.
pub const DETAIL_GAP: u16 = 2;

/// How little room the name may be left with before the right hand column is
/// dropped instead. A name is what the list is for; the mode is a reminder.
pub const NAME_MIN: u16 = 8;

/// How much of the pane the minor list may take: half, because the list above
/// it is the one you are here for.
pub const MINOR_SHARE: u16 = 2;

/// Where a key press moves the cursor.
#[derive(Clone, Copy, PartialEq, Eq, Debug, Structural)]
pub enum Move {
    Next,
    Previous,
}

/// Where the units pane is looking from — the part that survives a frame.
///
/// One cursor and two offsets: the lists are drawn from one list ordered by
/// panel, so a row is one index into it and which list has the keys is simply
/// where that index fell. What cannot be shared is the scroll, two windows of
/// different heights having nothing to say to each other.
pub struct UiRenderUnitsState {
    cursor: usize,
    main_offset: usize,
    minor_offset: usize,
}

/// The row the cursor is on, and where each list's window starts.
pub struct UnitsStateView {
    pub cursor: int,
    pub main_offset: int,
    pub minor_offset: int,
}

impl View for UiRenderUnitsState {
    type V = UnitsStateView;

    closed spec fn view(&self) -> UnitsStateView {
        UnitsStateView {
            cursor: self.cursor as int,
            main_offset: self.main_offset as int,
            minor_offset: self.minor_offset as int,
        }
    }
}

/// Where a move takes the cursor among `units` of them: one row on, coming
/// round at the ends.
pub open spec fn stepped(cursor: int, movement: Move, units: int) -> int {
    if units == 0 {
        cursor
    } else {
        let cursor = draw::least(cursor, units - 1);
        match movement {
            Move::Next => if cursor == units - 1 {
                0
            } else {
                cursor + 1
            },
            Move::Previous => if cursor == 0 {
                units - 1
            } else {
                cursor - 1
            },
        }
    }
}

/// The top of the other list, where the lists are parted at `split`; or where
/// the cursor is, if the other one is empty.
pub open spec fn other_list(cursor: int, split: int, units: int) -> int {
    if cursor < split {
        if units > split {
            split
        } else {
            cursor
        }
    } else {
        if split > 0 {
            0
        } else {
            cursor
        }
    }
}

impl UiRenderUnitsState {
    /// At the top of everything.
    pub fn new() -> (state: Self)
        ensures
            state@ == (UnitsStateView { cursor: 0, main_offset: 0, minor_offset: 0 }),
    {
        UiRenderUnitsState { cursor: 0, main_offset: 0, minor_offset: 0 }
    }

    /// Which unit the cursor is on.
    pub fn cursor(&self) -> (cursor: usize)
        ensures
            cursor == self@.cursor,
    {
        self.cursor
    }

    /// Move one row, crossing the divider and coming round at the ends.
    ///
    /// The divider is a division of one list and not a wall: the arrows walk
    /// every unit on screen in the order they are drawn, so there is never a
    /// row you can see and cannot reach.
    pub fn select(&mut self, movement: Move, units: usize)
        ensures
            final(self)@ == (UnitsStateView {
                cursor: stepped(old(self)@.cursor, movement, units as int),
                ..old(self)@
            }),
    {
        if units == 0 {
            return ;
        }
        let last = units - 1;
        // Clamped: a list that shrank under the cursor leaves it past the end
        // until the next draw, and stepping from there lands anywhere.
        let cursor = if self.cursor < last {
            self.cursor
        } else {
            last
        };
        self.cursor = match movement {
            Move::Next => if cursor == last {
                0
            } else {
                cursor + 1
            },
            Move::Previous => if cursor == 0 {
                last
            } else {
                cursor - 1
            },
        };
    }

    /// Jump to the top of the other list.
    ///
    /// The top and not the row last left there: the arrows already walk both
    /// lists, so this is the shortcut past a long one, and a shortcut that
    /// lands somewhere you have to look for is not one.
    ///
    /// A no-op when the list it would jump to is empty, so a session that
    /// declared no minor panel does nothing rather than selecting a row that
    /// is not there.
    pub fn focus_other(&mut self, split: usize, units: usize)
        ensures
            final(self)@ == (UnitsStateView {
                cursor: other_list(old(self)@.cursor, split as int, units as int),
                ..old(self)@
            }),
    {
        if self.cursor < split {
            if units > split {
                self.cursor = split;
            }
        } else {
            if split > 0 {
                self.cursor = 0;
            }
        }
    }
}

/// One way and then the other comes back to where it was, wherever that is in
/// the list.
pub proof fn a_step_back_undoes_a_step(cursor: int, units: int)
    requires
        0 <= cursor < units,
    ensures
        stepped(stepped(cursor, Move::Next, units), Move::Previous, units) == cursor,
        stepped(stepped(cursor, Move::Previous, units), Move::Next, units) == cursor,
{
}

/// Every row is reached by moving on: some number of steps from any row lead
/// to any other.
pub proof fn every_row_can_be_reached(from: int, to: int, units: int)
    requires
        0 <= from < units,
        0 <= to < units,
    ensures
        walked(from, units, ((to - from + units) % units) as nat) == to,
{
    let steps = (to - from + units) % units;
    if to >= from {
        assert(steps == to - from) by (nonlinear_arith)
            requires
                steps == (to - from + units) % units,
                0 <= to - from < units,
        ;
    } else {
        assert(steps == to - from + units) by (nonlinear_arith)
            requires
                steps == (to - from + units) % units,
                0 <= to - from + units < units,
        ;
    }
    lemma_walked(from, units, steps as nat);
}

/// Where so many steps on lead.
pub open spec fn walked(cursor: int, units: int, steps: nat) -> int
    decreases steps,
{
    if steps == 0 {
        cursor
    } else {
        stepped(walked(cursor, units, (steps - 1) as nat), Move::Next, units)
    }
}

proof fn lemma_walked(from: int, units: int, steps: nat)
    requires
        0 <= from < units,
        steps < units,
    ensures
        walked(from, units, steps) == if from + steps < units {
            from + steps
        } else {
            from + steps - units
        },
    decreases steps,
{
    if steps > 0 {
        lemma_walked(from, units, (steps - 1) as nat);
    }
}

/// The first row of a window of `per_page` rows that was at `offset`, kept on
/// the cursor if it is in this list, and on the units.
pub open spec fn into_view(offset: int, cursor: Option<int>, per_page: int, units: int) -> int {
    let on_cursor = match cursor {
        Some(cursor) => if cursor < offset {
            cursor
        } else if cursor >= offset + per_page {
            cursor + 1 - per_page
        } else {
            offset
        },
        None => offset,
    };
    draw::least(on_cursor, draw::left_of(units, per_page))
}

/// Keep a window on the cursor, and on the units.
///
/// `None` is the list without the cursor: it still has to be pulled back onto
/// what there is, or a list that shrank leaves a window past its end.
pub fn scroll_into_view(
    offset: usize,
    cursor: Option<usize>,
    per_page: usize,
    units: usize,
) -> (after: usize)
    requires
        per_page > 0,
    ensures
        after == into_view(
            offset as int,
            match cursor {
                Some(cursor) => Some(cursor as int),
                None => None,
            },
            per_page as int,
            units as int,
        ),
{
    let mut after = offset;
    if let Some(cursor) = cursor {
        if cursor < offset {
            after = cursor;
        } else if cursor - offset >= per_page {
            after = cursor - (per_page - 1);
        }
    }
    // Never so far down that rows go begging at the bottom while there are
    // units above that could have filled them.
    let most = units.saturating_sub(per_page);
    if after > most {
        most
    } else {
        after
    }
}

/// The cursor is always in the window, and the window is never past the
/// units: it is as full as they allow.
pub proof fn the_cursor_is_in_the_window(offset: int, cursor: int, per_page: int, units: int)
    requires
        0 <= offset,
        0 <= cursor < units,
        0 < per_page,
    ensures
        ({
            let after = into_view(offset, Some(cursor), per_page, units);
            &&& after <= cursor < after + per_page
            &&& 0 <= after
            &&& (after + per_page <= units || after == 0)
        }),
{
}

/// Whether units are ordered by panel: the main ones first.
pub open spec fn by_panel(units: Seq<UnitRow>) -> bool {
    forall|i: int, j: int|
        0 <= i < j < units.len() && (#[trigger] units[i]).panel == ConfigPanel::Minor ==> (
        #[trigger] units[j]).panel == ConfigPanel::Minor
}

/// How many units the list opens with that are of the main panel.
pub open spec fn leading_main(units: Seq<UnitRow>) -> int
    decreases units.len(),
{
    if units.len() == 0 || units[0].panel != ConfigPanel::Main {
        0
    } else {
        1 + leading_main(units.skip(1))
    }
}

proof fn lemma_leading_main(units: Seq<UnitRow>, split: int)
    requires
        0 <= split <= units.len(),
        forall|i: int| 0 <= i < split ==> (#[trigger] units[i]).panel == ConfigPanel::Main,
        split < units.len() ==> units[split].panel == ConfigPanel::Minor,
    ensures
        leading_main(units) == split,
    decreases units.len(),
{
    if split > 0 {
        let rest = units.skip(1);
        assert forall|i: int| 0 <= i < split - 1 implies (#[trigger] rest[i]).panel
            == ConfigPanel::Main by {
            assert(rest[i] == units[i + 1]);
        }
        lemma_leading_main(rest, split - 1);
    }
}

/// Where the minor list starts among the units.
///
/// A partition point and not a scan, because the units are ordered by panel,
/// which is what lets two lists be drawn out of one.
pub fn minor_start(units: &Vec<ViewUnit>) -> (split: usize)
    requires
        by_panel(view::rows(units@)),
    ensures
        split == leading_main(view::rows(units@)),
        split <= units@.len(),
        forall|i: int| 0 <= i < split ==> (#[trigger] units@[i]).panel == ConfigPanel::Main,
        forall|i: int|
            split <= i < units@.len() ==> (#[trigger] units@[i]).panel == ConfigPanel::Minor,
{
    let ghost rows = view::rows(units@);
    let mut low: usize = 0;
    let mut high: usize = units.len();
    while low < high
        invariant
            low <= high <= units@.len(),
            rows == view::rows(units@),
            by_panel(rows),
            forall|i: int| 0 <= i < low ==> (#[trigger] units@[i]).panel == ConfigPanel::Main,
            forall|i: int|
                high <= i < units@.len() ==> (#[trigger] units@[i]).panel == ConfigPanel::Minor,
        decreases high - low,
    {
        let mid = low + (high - low) / 2;
        assert(rows[mid as int].panel == units@[mid as int].panel);
        if units[mid].panel == ConfigPanel::Main {
            assert forall|i: int| 0 <= i < mid + 1 implies (#[trigger] units@[i]).panel
                == ConfigPanel::Main by {
                assert(rows[i].panel == units@[i].panel);
            }
            low = mid + 1;
        } else {
            assert forall|i: int| mid <= i < units@.len() implies (#[trigger] units@[i]).panel
                == ConfigPanel::Minor by {
                assert(rows[i].panel == units@[i].panel);
            }
            high = mid;
        }
    }
    proof {
        assert forall|i: int| 0 <= i < low implies (#[trigger] rows[i]).panel
            == ConfigPanel::Main by {
            assert(rows[i].panel == units@[i].panel);
        }
        if low < units@.len() {
            assert(rows[low as int].panel == units@[low as int].panel);
        }
        lemma_leading_main(rows, low as int);
    }
    low
}

/// How many lines a layout spends on one unit.
///
/// A comfortable row is two lines and the gap after them: two lines with
/// nothing between them read as four rows rather than two.
pub open spec fn height_of(layout: UiThemeMenuLayout) -> u16 {
    match layout {
        UiThemeMenuLayout::Compact => 1,
        UiThemeMenuLayout::Comfortable => 3,
    }
}

/// How many lines `layout` spends on one unit.
pub fn row_height(layout: UiThemeMenuLayout) -> (height: u16)
    ensures
        height == height_of(layout),
{
    match layout {
        UiThemeMenuLayout::Compact => 1,
        UiThemeMenuLayout::Comfortable => 3,
    }
}

/// The layout a pane of so many lines has room for.
pub open spec fn fitting(wanted: UiThemeMenuLayout, height: u16) -> UiThemeMenuLayout {
    if height >= height_of(wanted) {
        wanted
    } else {
        UiThemeMenuLayout::Compact
    }
}

/// Which layout to actually use, which is the theme's unless the pane is too
/// short for it.
///
/// The fallback is one way: a comfortable row wants three lines, and a pane
/// that cannot give one row all three would show a list of one unit.
pub fn layout(wanted: UiThemeMenuLayout, height: u16) -> (layout: UiThemeMenuLayout)
    ensures
        layout == fitting(wanted, height),
{
    if height >= row_height(wanted) {
        wanted
    } else {
        UiThemeMenuLayout::Compact
    }
}

/// The main list's area, the row the rule goes on, and the minor list's area.
pub struct Parted {
    pub main: UiArea,
    pub rule: u16,
    pub minor: UiArea,
}

/// How a pane is parted between the lists: the minor one gets as much as it
/// holds, as far as the rule and a row of the other leave it and up to its
/// share. `None` when there is no minor list, or no room for one.
pub open spec fn parted(inner: UiArea, minor: int, main_row: u16) -> Option<Parted> {
    let most = inner.height - (main_row + 1);
    let height = draw::least(
        draw::least(minor, most),
        inner.height as int / MINOR_SHARE as int,
    );
    if minor == 0 || most < 0 || height == 0 {
        None
    } else {
        let main_height = inner.height - height - 1;
        Some(
            Parted {
                main: UiArea { height: main_height as u16, ..inner },
                rule: draw::counted(inner.y + main_height),
                minor: UiArea {
                    y: draw::counted(inner.y + main_height + 1),
                    height: height as u16,
                    ..inner
                },
            },
        )
    }
}

/// The main list, the row the rule goes on, and the minor list.
///
/// The minor list is sized to what it holds, so it takes no room it does not
/// need, and capped at its share so it cannot take the pane.
pub fn areas(inner: UiArea, minor: usize, main_row: u16) -> (areas: Option<Parted>)
    requires
        main_row < u16::MAX,
    ensures
        areas == parted(inner, minor as int, main_row),
{
    if minor == 0 || inner.height < main_row + 1 {
        return None;
    }
    // The rule, and one row of the list above it: a pane that cannot afford
    // both has nothing to divide.
    let most = inner.height - (main_row + 1);
    let mut height = if minor < most as usize {
        minor as u16
    } else {
        most
    };
    if height > inner.height / MINOR_SHARE {
        height = inner.height / MINOR_SHARE;
    }
    if height == 0 {
        return None;
    }
    let main_height = inner.height - height - 1;
    Some(
        Parted {
            main: UiArea { x: inner.x, y: inner.y, width: inner.width, height: main_height },
            rule: inner.y.saturating_add(main_height),
            minor: UiArea {
                x: inner.x,
                y: inner.y.saturating_add(main_height).saturating_add(1),
                width: inner.width,
                height,
            },
        },
    )
}

/// The two lists and the rule take up the pane between them, the minor list
/// no more than its share, and the main one at least a row.
pub proof fn the_lists_share_the_pane(inner: UiArea, minor: int, main_row: u16)
    requires
        0 < minor,
        parted(inner, minor, main_row) is Some,
        inner.y + inner.height <= u16::MAX,
    ensures
        ({
            let areas = parted(inner, minor, main_row)->0;
            &&& areas.main.height + 1 + areas.minor.height == inner.height
            &&& areas.main.height >= main_row
            &&& 2 * areas.minor.height <= inner.height
            &&& areas.minor.height <= minor
            &&& areas.rule == areas.main.y + areas.main.height
            &&& areas.minor.y == areas.rule + 1
        }),
{
}

/// Bold under the live cursor, quiet throughout the minor list, plain
/// otherwise.
pub open spec fn row_style(live: bool, quiet: bool) -> UiStyle {
    if live {
        UiStyle::spec_bold()
    } else if quiet {
        UiStyle::spec_dim()
    } else {
        UiStyle::spec_plain()
    }
}

/// Bold under the live cursor, quiet throughout the minor list, plain
/// otherwise.
///
/// The minor list is written quietly by standing and not by focus: focus is
/// the cursor being there or not — never this — so a terminal that ignores
/// dimness still says which list has the keys. And the row under the cursor
/// goes bold whichever list it is in.
pub fn name_style(live: bool, quiet: bool) -> (style: UiStyle)
    ensures
        style == row_style(live, quiet),
{
    if live {
        UiStyle::bold()
    } else if quiet {
        UiStyle::dim()
    } else {
        UiStyle::plain()
    }
}

/// The screen, and where the text coming from the left has to stop.
pub struct RightSet {
    pub pen: PenView,
    pub stop: u16,
}

/// Two pieces against the right edge of a row, so long as that leaves the
/// text coming from the left its least.
pub open spec fn right_set(
    pen: PenView,
    y: u16,
    left: u16,
    right: u16,
    first: Seq<char>,
    second: Seq<char>,
    style: UiStyle,
) -> RightSet {
    let width = draw::columns(first) + draw::columns(second);
    let start = draw::left_of(right as int, width) as u16;
    if width == 0 || start < left + NAME_MIN {
        RightSet { pen, stop: right }
    } else {
        let space = draw::left_of(right as int, start as int);
        let with_first = pen.put(start, y, first, space, style);
        let x = pen.end(start, first, space);
        RightSet {
            pen: with_first.put(x, y, second, draw::left_of(right as int, x as int), style),
            stop: draw::left_of(start as int, DETAIL_GAP as int) as u16,
        }
    }
}

/// Put `first` and `second` against the right edge of row `y`, so long as
/// doing so still leaves [`NAME_MIN`] columns for the text coming from the
/// left, and report where that text now has to stop.
pub fn set_right(
    pen: &mut UiPen,
    y: u16,
    left: u16,
    right: u16,
    first: &str,
    second: &str,
    style: UiStyle,
) -> (stop: u16)
    ensures
        ({
            let set = right_set(old(pen)@, y, left, right, first@, second@, style);
            &&& final(pen)@ == set.pen
            &&& stop == set.stop
        }),
{
    let width = columns_of(first) as u128 + columns_of(second) as u128;
    if width == 0 {
        return right;
    }
    let start: u16 = if width > right as u128 {
        0
    } else {
        right - (width as u16)
    };
    if (start as u32) < (left as u32) + (NAME_MIN as u32) {
        return right;
    }
    let x = pen.put(start, y, first, room(start, right), style);
    pen.put(x, y, second, room(x, right), style);
    start.saturating_sub(DETAIL_GAP)
}

/// The screen, and where the name may start.
pub struct Gutter {
    pub pen: PenView,
    pub left: u16,
}

/// The cursor column and the status mark, which both layouts open with.
pub open spec fn gutter(
    pen: PenView,
    theme: UiTheme,
    state: RunnerState,
    area: UiArea,
    selected: bool,
) -> Gutter {
    let cursor = theme.symbols.cursor@;
    let mark = theme.symbols.mark(state);
    let x = draw::counted(area.x + UNITS_PAD_X);
    let marked = if selected {
        pen.put(
            x,
            area.y,
            cursor,
            draw::columns(cursor) as int,
            UiStyle::spec_colored(theme.colors.cursor),
        )
    } else {
        pen
    };
    let at = draw::counted(x + draw::columns(cursor) + 1);
    Gutter {
        pen: marked.put(
            at,
            area.y,
            mark,
            draw::columns(mark) as int,
            UiStyle::spec_colored(theme.colors.color(state)),
        ),
        left: draw::counted(marked.end(at, mark, draw::columns(mark) as int) + 1),
    }
}

/// The cursor column and the status mark, which both layouts open with, and
/// where the name may start after them.
pub fn draw_gutter(
    pen: &mut UiPen,
    theme: &UiTheme,
    state: RunnerState,
    area: UiArea,
    selected: bool,
) -> (left: u16)
    ensures
        ({
            let drawn = gutter(old(pen)@, *theme, state, area, selected);
            &&& final(pen)@ == drawn.pen
            &&& left == drawn.left
        }),
{
    let cursor = theme.symbols.cursor.as_str();
    let x = area.x.saturating_add(UNITS_PAD_X);
    if selected {
        pen.put(x, area.y, cursor, columns_of(cursor), UiStyle::colored(theme.colors.cursor));
    }
    let mark = theme.symbols.status(state).as_str();
    let at = past_mark(x, cursor);
    let end = pen.put(
        at,
        area.y,
        mark,
        columns_of(mark),
        UiStyle::colored(theme.colors.status(state)),
    );
    end.saturating_add(1)
}

/// A row's right hand column: what it says, the number after it, and its
/// colour — or none for what is said quietly.
pub struct UiDetail {
    pub label: String,
    pub number: String,
    pub color: Option<UiColor>,
}

/// What a row's right hand column says.
#[verifier::ext_equal]
pub struct DetailText {
    pub label: Seq<char>,
    pub number: Seq<char>,
    pub color: Option<UiColor>,
}

/// The most specific thing there is to say about a unit: why it stopped, when
/// it stopped badly, and otherwise which mode it is on — by its short name if
/// it has one.
pub open spec fn detail_of(theme: UiTheme, unit: UnitRow) -> DetailText {
    let color = Some(theme.colors.color(unit.state));
    let label = theme.texts.word(unit.state);
    match unit.state {
        RunnerState::ExitError(Some(code)) => DetailText {
            label,
            number: text::digits(code.spec_get() as nat),
            color,
        },
        RunnerState::ExitError(None) => DetailText { label, number: Seq::empty(), color },
        RunnerState::Killed(_) => DetailText { label, number: Seq::empty(), color },
        _ => DetailText {
            label: match (unit.mode_short, unit.mode) {
                (Some(short), _) => short,
                (None, Some(mode)) => mode,
                (None, None) => Seq::empty(),
            },
            number: Seq::empty(),
            color: None,
        },
    }
}

impl View for UiDetail {
    type V = DetailText;

    open spec fn view(&self) -> DetailText {
        DetailText { label: self.label@, number: self.number@, color: self.color }
    }
}

/// A compact row's right hand column, in the two pieces it is written in: the
/// most specific thing there is to say about the unit.
pub fn detail(theme: &UiTheme, unit: &ViewUnit) -> (detail: UiDetail)
    ensures
        detail@ == detail_of(*theme, unit@),
{
    let label = theme.texts.status(unit.state);
    let color = Some(theme.colors.status(unit.state));
    match unit.state {
        RunnerState::ExitError(Some(code)) => UiDetail {
            label: label.clone(),
            number: decimal(code.get() as usize),
            color,
        },
        RunnerState::ExitError(None) => UiDetail {
            label: label.clone(),
            number: String::new(),
            color,
        },
        RunnerState::Killed(_) => UiDetail { label: label.clone(), number: String::new(), color },
        _ => UiDetail {
            label: match (&unit.mode_short, &unit.mode) {
                (Some(short), _) => short.clone(),
                (None, Some(mode)) => mode.clone(),
                (None, None) => String::new(),
            },
            number: String::new(),
            color: None,
        },
    }
}

/// One unit on one line: the status mark, the right hand column, and the name
/// in whatever the other two leave — the short one where there is one.
pub open spec fn with_compact(
    pen: PenView,
    theme: UiTheme,
    unit: UnitRow,
    area: UiArea,
    selected: bool,
    quiet: bool,
) -> PenView {
    let opened = gutter(pen, theme, unit.state, area, selected);
    let right = draw::left_of(area.spec_right() as int, UNITS_PAD_X as int) as u16;
    let said = detail_of(theme, unit);
    let style = match said.color {
        Some(color) => UiStyle::spec_colored(color),
        None => UiStyle::spec_dim(),
    };
    let set = right_set(opened.pen, area.y, opened.left, right, said.label, said.number, style);
    let name = match unit.name_short {
        Some(short) => short,
        None => unit.name,
    };
    set.pen.clipped(
        opened.left,
        area.y,
        name,
        draw::left_of(set.stop as int, opened.left as int),
        row_style(selected, quiet),
        theme.symbols.ellipsis@,
    )
}

/// One unit on one line: the status mark, the name, and the right hand
/// column — set down in that order because the name takes whatever the other
/// two leave.
pub fn draw_compact(
    pen: &mut UiPen,
    theme: &UiTheme,
    unit: &ViewUnit,
    area: UiArea,
    selected: bool,
    quiet: bool,
)
    ensures
        final(pen)@ == with_compact(old(pen)@, *theme, unit@, area, selected, quiet),
{
    let left = draw_gutter(pen, theme, unit.state, area, selected);
    let right = area.right().saturating_sub(UNITS_PAD_X);
    let said = detail(theme, unit);
    let style = match said.color {
        Some(color) => UiStyle::colored(color),
        None => UiStyle::dim(),
    };
    let stop = set_right(
        pen,
        area.y,
        left,
        right,
        said.label.as_str(),
        said.number.as_str(),
        style,
    );
    let name = match &unit.name_short {
        Some(short) => short.as_str(),
        None => unit.name.as_str(),
    };
    pen.set_clipped(theme, left, area.y, name, room(left, stop), name_style(selected, quiet));
}

/// One unit over two lines and a gap: the name on its own, then its state
/// under it with the mode against the right edge.
pub open spec fn with_comfortable(
    pen: PenView,
    theme: UiTheme,
    unit: UnitRow,
    area: UiArea,
    selected: bool,
    quiet: bool,
) -> PenView {
    let opened = gutter(pen, theme, unit.state, area, selected);
    let left = opened.left;
    let right = draw::left_of(area.spec_right() as int, UNITS_PAD_X as int) as u16;
    let named = opened.pen.clipped(
        left,
        area.y,
        unit.name,
        draw::left_of(right as int, left as int),
        row_style(selected, quiet),
        theme.symbols.ellipsis@,
    );
    let y = draw::counted(area.y + 1);
    let mode = match unit.mode {
        Some(mode) => mode,
        None => ""@,
    };
    let set = right_set(named, y, left, right, mode, ""@, UiStyle::spec_dim());
    let style = UiStyle::spec_colored(theme.colors.color(unit.state));
    let word = theme.texts.word(unit.state);
    let space = draw::left_of(set.stop as int, left as int);
    let worded = set.pen.put(left, y, word, space, style);
    match unit.state {
        RunnerState::ExitError(Some(code)) => {
            let x = set.pen.end(left, word, space);
            worded.put(
                x,
                y,
                text::digits(code.spec_get() as nat),
                draw::left_of(set.stop as int, x as int),
                style,
            )
        },
        _ => worded,
    }
}

/// One unit over two lines and a gap: the name on its own, then its state
/// under it.
///
/// Both lines are anchored, which is what makes a column of these read as a
/// list rather than as text of ragged lengths. Full names and full modes: two
/// lines is the layout you pick when you would rather read the list than fit
/// it.
pub fn draw_comfortable(
    pen: &mut UiPen,
    theme: &UiTheme,
    unit: &ViewUnit,
    area: UiArea,
    selected: bool,
    quiet: bool,
)
    ensures
        final(pen)@ == with_comfortable(old(pen)@, *theme, unit@, area, selected, quiet),
{
    let left = draw_gutter(pen, theme, unit.state, area, selected);
    let right = area.right().saturating_sub(UNITS_PAD_X);
    pen.set_clipped(
        theme,
        left,
        area.y,
        unit.name.as_str(),
        room(left, right),
        name_style(selected, quiet),
    );
    // The gutter stays empty on the second line, so the two read as one row.
    let y = area.y.saturating_add(1);
    let mode = match &unit.mode {
        Some(mode) => mode.as_str(),
        None => "",
    };
    let stop = set_right(pen, y, left, right, mode, "", UiStyle::dim());
    let style = UiStyle::colored(theme.colors.status(unit.state));
    let word = theme.texts.status(unit.state).as_str();
    let x = pen.put(left, y, word, room(left, stop), style);
    if let RunnerState::ExitError(Some(code)) = unit.state {
        let number = decimal(code.get() as usize);
        pen.put(x, y, number.as_str(), room(x, stop), style);
    }
}

/// How many rows of a layout an area shows: at least one.
pub open spec fn page_of(area: UiArea, layout: UiThemeMenuLayout) -> int {
    let rows = area.height as int / height_of(layout) as int;
    if rows < 1 {
        1
    } else {
        rows
    }
}

/// One row of a list, in its layout.
pub open spec fn with_row(
    pen: PenView,
    theme: UiTheme,
    unit: UnitRow,
    row: UiArea,
    layout: UiThemeMenuLayout,
    selected: bool,
    quiet: bool,
) -> PenView {
    match layout {
        UiThemeMenuLayout::Compact => with_compact(pen, theme, unit, row, selected, quiet),
        UiThemeMenuLayout::Comfortable => with_comfortable(
            pen,
            theme,
            unit,
            row,
            selected,
            quiet,
        ),
    }
}

/// One row of a list, in its layout.
fn draw_unit(
    pen: &mut UiPen,
    theme: &UiTheme,
    unit: &ViewUnit,
    row: UiArea,
    layout: UiThemeMenuLayout,
    selected: bool,
    quiet: bool,
)
    ensures
        final(pen)@ == with_row(old(pen)@, *theme, unit@, row, layout, selected, quiet),
{
    match layout {
        UiThemeMenuLayout::Compact => {
            draw_compact(pen, theme, unit, row, selected, quiet);
        },
        UiThemeMenuLayout::Comfortable => {
            draw_comfortable(pen, theme, unit, row, selected, quiet);
        },
    }
}

/// The first `count` rows of a list from `offset` on.
pub open spec fn with_rows(
    pen: PenView,
    theme: UiTheme,
    units: Seq<UnitRow>,
    area: UiArea,
    layout: UiThemeMenuLayout,
    offset: int,
    cursor: Option<int>,
    quiet: bool,
    count: int,
) -> PenView
    decreases count,
{
    if count <= 0 {
        pen
    } else {
        let before = with_rows(
            pen,
            theme,
            units,
            area,
            layout,
            offset,
            cursor,
            quiet,
            count - 1,
        );
        let row = UiArea {
            y: draw::counted(area.y + (count - 1) * height_of(layout)),
            height: height_of(layout),
            ..area
        };
        let index = offset + count - 1;
        with_row(before, theme, units[index], row, layout, cursor == Some(index), quiet)
    }
}

/// A list in its own area, scrolled to `offset`: as many rows as there are
/// units from there and room for them.
pub open spec fn with_list(
    pen: PenView,
    theme: UiTheme,
    units: Seq<UnitRow>,
    area: UiArea,
    layout: UiThemeMenuLayout,
    offset: int,
    cursor: Option<int>,
    quiet: bool,
) -> PenView {
    with_rows(
        pen,
        theme,
        units,
        area,
        layout,
        offset,
        cursor,
        quiet,
        draw::least(draw::left_of(units.len() as int, offset), page_of(area, layout)),
    )
}

/// An index, if there is one, as a number.
pub open spec fn at_int(index: Option<usize>) -> Option<int> {
    match index {
        Some(index) => Some(index as int),
        None => None,
    }
}

/// One list into its own area, at its own scroll, which is reported back.
///
/// The list is the units from `start` to `end`. `cursor` is `None` for the
/// list the keys are not in, which is what makes the mark appear exactly once
/// on the screen.
pub fn draw_list(
    pen: &mut UiPen,
    theme: &UiTheme,
    units: &Vec<ViewUnit>,
    start: usize,
    end: usize,
    area: UiArea,
    layout: UiThemeMenuLayout,
    offset: usize,
    cursor: Option<usize>,
    quiet: bool,
) -> (after: usize)
    requires
        start <= end <= units@.len(),
    ensures
        after == into_view(
            offset as int,
            at_int(cursor),
            page_of(area, layout),
            end - start,
        ),
        final(pen)@ == with_list(
            old(pen)@,
            *theme,
            view::rows(units@).subrange(start as int, end as int),
            area,
            layout,
            after as int,
            at_int(cursor),
            quiet,
        ),
{
    let height = row_height(layout);
    let per_page: usize = if area.height / height < 1 {
        1
    } else {
        (area.height / height) as usize
    };
    assert(per_page == page_of(area, layout));
    let count = end - start;
    let offset = scroll_into_view(offset, cursor, per_page, count);
    let ghost listed = view::rows(units@).subrange(start as int, end as int);
    let ghost first = pen@;
    let shown: usize = if count - offset < per_page {
        count - offset
    } else {
        per_page
    };
    let mut row: usize = 0;
    while row < shown
        invariant
            start <= end <= units@.len(),
            count == end - start,
            offset <= count,
            shown <= count - offset,
            shown <= per_page,
            height == height_of(layout),
            per_page == page_of(area, layout),
            row <= shown,
            listed == view::rows(units@).subrange(start as int, end as int),
            pen@ == with_rows(
                first,
                *theme,
                listed,
                area,
                layout,
                offset as int,
                at_int(cursor),
                quiet,
                row as int,
            ),
        decreases shown - row,
    {
        let index = offset + row;
        assert(row * height <= area.height) by {
            assert(height == 1 || height == 3);
        }
        let line = UiArea {
            x: area.x,
            y: area.y.saturating_add((row as u16) * height),
            width: area.width,
            height,
        };
        let unit = &units[start + index];
        assert(listed[index as int] == unit@);
        let selected = match cursor {
            Some(cursor) => cursor == index,
            None => false,
        };
        draw_unit(pen, theme, unit, line, layout, selected, quiet);
        row = row + 1;
    }
    offset
}

/// The line between the two lists, up to column `end`.
pub open spec fn with_rule(pen: PenView, theme: UiTheme, start: u16, end: int, y: u16) -> PenView
    decreases end - start,
{
    if end <= start {
        pen
    } else {
        with_rule(pen, theme, start, end - 1, y).with(
            DrawView::Cell {
                x: (end - 1) as u16,
                y,
                symbol: theme.symbols.border.horizontal_top@,
                painted: Some(UiStyle::spec_dim()),
            },
        )
    }
}

/// Where the rule stops short of the pane's right edge.
pub open spec fn rule_end(inner: UiArea) -> int {
    draw::left_of(inner.spec_right() as int, UNITS_PAD_X as int)
}

/// The line between the two lists.
///
/// Inset from the pane's own border rather than joined to it: a rule that
/// stops short reads as one list divided rather than as a second box.
pub fn draw_rule(pen: &mut UiPen, theme: &UiTheme, inner: UiArea, y: u16)
    ensures
        final(pen)@ == with_rule(
            old(pen)@,
            *theme,
            draw::counted(inner.x + UNITS_PAD_X),
            rule_end(inner),
            y,
        ),
{
    let start = inner.x.saturating_add(UNITS_PAD_X);
    let end = inner.right().saturating_sub(UNITS_PAD_X);
    let ghost first = pen@;
    let mut x = start;
    if end <= start {
        return ;
    }
    while x < end
        invariant
            start <= x <= end,
            pen@ == with_rule(first, *theme, start, x as int, y),
        decreases end - x,
    {
        pen.draw(
            UiDraw::Cell {
                x,
                y,
                symbol: theme.symbols.border.horizontal_top.clone(),
                painted: Some(UiStyle::dim()),
            },
        );
        x = x + 1;
    }
}

/// The screen with the units pane on it, and where the pane is looking from
/// after.
pub struct UnitsDrawn {
    pub pen: PenView,
    pub state: UnitsStateView,
}

/// The cursor's place in the main list or the minor one, where they are
/// parted at `split`, if it is in it.
pub open spec fn cursor_in(cursor: int, split: int, main: bool) -> Option<int> {
    if main {
        if cursor < split {
            Some(cursor)
        } else {
            None
        }
    } else {
        if cursor >= split {
            Some(cursor - split)
        } else {
            None
        }
    }
}

/// The units pane on the screen: the main list, a rule, and the minor list
/// under it — or the one list there is, or there is room for.
pub open spec fn with_units(
    pen: PenView,
    theme: UiTheme,
    units: Seq<UnitRow>,
    area: UiArea,
    state: UnitsStateView,
) -> UnitsDrawn {
    let inner = area.spec_inner(false);
    let bordered = pen.with(DrawView::Border { area, right: false });
    let cursor = draw::least(state.cursor, draw::left_of(units.len() as int, 1));
    let split = leading_main(units);
    let main = units.subrange(0, split);
    let minor = units.subrange(split, units.len() as int);
    let layout = fitting(theme.menu_layout, inner.height);
    let main_cursor = cursor_in(cursor, split, true);
    let minor_cursor = cursor_in(cursor, split, false);
    let two = if main.len() > 0 && minor.len() > 0 {
        parted(inner, minor.len() as int, height_of(layout))
    } else {
        None
    };
    match two {
        None => if main.len() == 0 {
            let offset = into_view(
                state.minor_offset,
                minor_cursor,
                page_of(inner, layout),
                minor.len() as int,
            );
            UnitsDrawn {
                pen: with_list(
                    bordered,
                    theme,
                    minor,
                    inner,
                    layout,
                    offset,
                    minor_cursor,
                    true,
                ),
                state: UnitsStateView { cursor, minor_offset: offset, ..state },
            }
        } else {
            let offset = into_view(
                state.main_offset,
                main_cursor,
                page_of(inner, layout),
                main.len() as int,
            );
            UnitsDrawn {
                pen: with_list(
                    bordered,
                    theme,
                    main,
                    inner,
                    layout,
                    offset,
                    main_cursor,
                    false,
                ),
                state: UnitsStateView { cursor, main_offset: offset, ..state },
            }
        },
        Some(areas) => {
            let main_offset = into_view(
                state.main_offset,
                main_cursor,
                page_of(areas.main, layout),
                main.len() as int,
            );
            let compact = UiThemeMenuLayout::Compact;
            let minor_offset = into_view(
                state.minor_offset,
                minor_cursor,
                page_of(areas.minor, compact),
                minor.len() as int,
            );
            let with_main = with_list(
                bordered,
                theme,
                main,
                areas.main,
                layout,
                main_offset,
                main_cursor,
                false,
            );
            let ruled = with_rule(
                with_main,
                theme,
                draw::counted(inner.x + UNITS_PAD_X),
                rule_end(inner),
                areas.rule,
            );
            UnitsDrawn {
                pen: with_list(
                    ruled,
                    theme,
                    minor,
                    areas.minor,
                    compact,
                    minor_offset,
                    minor_cursor,
                    true,
                ),
                state: UnitsStateView { cursor, main_offset, minor_offset },
            }
        },
    }
}

/// Draw the units pane.
///
/// The cursor belongs to exactly one list, which is what says which one has
/// the keys — there is no second mark to tell apart from it. A rule divides
/// two lists, so one of them being empty leaves nothing to divide.
pub fn render(
    pen: &mut UiPen,
    theme: &UiTheme,
    units: &Vec<ViewUnit>,
    area: UiArea,
    state: &mut UiRenderUnitsState,
)
    requires
        by_panel(view::rows(units@)),
    ensures
        ({
            let drawn = with_units(
                old(pen)@,
                *theme,
                view::rows(units@),
                area,
                old(state)@,
            );
            &&& final(pen)@ == drawn.pen
            &&& final(state)@ == drawn.state
        }),
{
    let inner = area.inner(false);
    pen.draw(UiDraw::Border { area, right: false });
    let count = units.len();
    let last = count.saturating_sub(1);
    if state.cursor > last {
        state.cursor = last;
    }
    let split = minor_start(units);
    let layout = layout(theme.menu_layout, inner.height);
    let main_cursor = if state.cursor < split {
        Some(state.cursor)
    } else {
        None
    };
    let minor_cursor = if state.cursor >= split {
        Some(state.cursor - split)
    } else {
        None
    };
    let two = if split > 0 && split < count {
        areas(inner, count - split, row_height(layout))
    } else {
        None
    };
    match two {
        None => {
            // One list, either because that is all there is or because the
            // pane cannot afford the rule.
            if split == 0 {
                state.minor_offset = draw_list(
                    pen,
                    theme,
                    units,
                    split,
                    count,
                    inner,
                    layout,
                    state.minor_offset,
                    minor_cursor,
                    true,
                );
            } else {
                state.main_offset = draw_list(
                    pen,
                    theme,
                    units,
                    0,
                    split,
                    inner,
                    layout,
                    state.main_offset,
                    main_cursor,
                    false,
                );
            }
        },
        Some(areas) => {
            state.main_offset = draw_list(
                pen,
                theme,
                units,
                0,
                split,
                areas.main,
                layout,
                state.main_offset,
                main_cursor,
                false,
            );
            draw_rule(pen, theme, inner, areas.rule);
            // Compact whatever the theme says: this is the list you are not
            // reading, and a row of it spent on a second line is a row the
            // list above does not get.
            state.minor_offset = draw_list(
                pen,
                theme,
                units,
                split,
                count,
                areas.minor,
                UiThemeMenuLayout::Compact,
                state.minor_offset,
                minor_cursor,
                true,
            );
        },
    }
}

proof fn lemma_split(units: Seq<UnitRow>)
    requires
        by_panel(units),
    ensures
        0 <= leading_main(units) <= units.len(),
        forall|i: int|
            0 <= i < units.len() ==> ((#[trigger] units[i]).panel == ConfigPanel::Main <==> i
                < leading_main(units)),
    decreases units.len(),
{
    if units.len() > 0 {
        let rest = units.skip(1);
        assert forall|i: int, j: int|
            0 <= i < j < rest.len() && (#[trigger] rest[i]).panel
                == ConfigPanel::Minor implies (#[trigger] rest[j]).panel == ConfigPanel::Minor by {
            assert(rest[i] == units[i + 1] && rest[j] == units[j + 1]);
        }
        lemma_split(rest);
        if units[0].panel == ConfigPanel::Main {
            assert forall|i: int| 0 <= i < units.len() implies ((#[trigger] units[i]).panel
                == ConfigPanel::Main <==> i < leading_main(units)) by {
                if i > 0 {
                    assert(units[i] == rest[i - 1]);
                }
            }
        }
    }
}

/// Going to the other list comes out on a unit of the other panel, the first
/// of it there is; and stays where there is none of the other panel.
pub proof fn the_other_list_starts_with_its_first(units: Seq<UnitRow>, cursor: int, at: int)
    requires
        by_panel(units),
        0 <= cursor < units.len(),
        0 <= at < units.len(),
    ensures
        ({
            let to = other_list(cursor, leading_main(units), units.len() as int);
            &&& 0 <= to < units.len()
            &&& units[at].panel != units[cursor].panel ==> units[to].panel != units[cursor].panel
                && to <= at
            &&& units[to].panel == units[cursor].panel ==> to == cursor
        }),
{
    lemma_split(units);
}

/// A window that already has the cursor, and is on the units, stays where it
/// is; and one that has not moves no further than it has to.
pub proof fn a_window_moves_no_further_than_it_must(
    offset: int,
    cursor: int,
    per_page: int,
    units: int,
    other: int,
)
    requires
        0 < per_page,
        0 <= cursor < units,
        0 <= offset,
        0 <= other,
        other <= cursor < other + per_page,
        other + per_page <= units || other == 0,
        offset + per_page <= units || offset == 0,
    ensures
        ({
            let to = into_view(offset, Some(cursor), per_page, units);
            &&& offset <= cursor < offset + per_page ==> to == offset
            &&& offset <= to ==> other >= to || other <= offset
            &&& to <= offset ==> other <= to || other >= offset
        }),
{
}

/// A list that has not the cursor is left where it is, but for being pulled
/// back onto its units.
pub proof fn a_window_without_the_cursor_stays(offset: int, per_page: int, units: int)
    requires
        0 < per_page,
        0 <= offset,
        0 <= units,
    ensures
        ({
            let to = into_view(offset, None, per_page, units);
            &&& to <= offset
            &&& offset + per_page <= units ==> to == offset
            &&& offset + per_page > units && units >= per_page ==> to == units - per_page
            &&& units < per_page ==> to == 0
        }),
{
}

/// A pane is parted wherever there is a minor list and room for a row of each
/// and the rule; and the minor list is then all there, unless that is half
/// the pane or leaves the other its one row.
pub proof fn a_pane_is_parted_where_there_is_room(inner: UiArea, minor: int, main_row: u16)
    requires
        0 <= minor,
        1 <= main_row,
    ensures
        parted(inner, minor, main_row) is Some <==> minor > 0 && inner.height >= main_row + 2,
        ({
            let areas = parted(inner, minor, main_row)->0;
            parted(inner, minor, main_row) is Some ==> {
                ||| areas.minor.height == minor
                ||| 2 * areas.minor.height + 1 >= inner.height
                ||| areas.main.height == main_row
            }
        }),
{
}

/// A pane takes the layout it is given wherever one row of it fits, and one
/// line to a unit where it does not.
pub proof fn a_layout_is_kept_where_it_fits(wanted: UiThemeMenuLayout, height: u16)
    ensures
        fitting(wanted, height) is Comfortable <==> wanted is Comfortable && height >= 3,
        height >= 1 ==> height_of(fitting(wanted, height)) <= height,
{
}

/// What stands at the right of a row: why a unit failed, or that it was
/// killed, in the colour of that; and for any other the mode it is on, by the
/// shorter name, quietly.
pub proof fn what_a_row_says_at_the_right(theme: UiTheme, unit: UnitRow)
    ensures
        ({
            let said = detail_of(theme, unit);
            let badly = unit.state is ExitError || unit.state is Killed;
            &&& badly <==> said.color is Some
            &&& badly ==> said.label == theme.texts.word(unit.state)
            &&& badly ==> said.color == Some(theme.colors.color(unit.state))
            &&& unit.state matches RunnerState::ExitError(Some(code)) ==> said.number
                == text::digits(code.spec_get() as nat)
            &&& !(unit.state is ExitError && unit.state->ExitError_0 is Some)
                ==> said.number.len() == 0
            &&& !badly && unit.mode_short is Some ==> said.label == unit.mode_short->0
            &&& !badly && unit.mode_short is None && unit.mode is Some ==> said.label
                == unit.mode->0
            &&& !badly && unit.mode_short is None && unit.mode is None ==> said.label.len() == 0
        }),
{
}

/// How the name of a unit is written: strongly under the cursor, and else
/// quietly in the minor list.
pub open spec fn written_as(style: UiStyle, live: bool, quiet: bool) -> bool {
    &&& style.bold == live
    &&& style.dim == (quiet && !live)
    &&& style.color is None && style.background is None
    &&& !style.italic && !style.underline && !style.reverse && !style.strike
}

/// What a row calls its unit: by its short name where it has one and a line to
/// itself is all there is.
pub open spec fn called(unit: UnitRow, layout: UiThemeMenuLayout) -> Seq<char> {
    if layout is Compact && unit.name_short is Some {
        unit.name_short->0
    } else {
        unit.name
    }
}

/// Whether a screen has `text` in row `y`, written as a name is.
pub open spec fn names_at(
    pen: PenView,
    y: u16,
    text: Seq<char>,
    live: bool,
    quiet: bool,
) -> bool {
    exists|style: UiStyle| written_as(style, live, quiet) && #[trigger] draw::tells(
        pen,
        y,
        text,
        style,
    )
}

proof fn lemma_set_stays(
    pen: PenView,
    y: u16,
    left: u16,
    right: u16,
    first: Seq<char>,
    second: Seq<char>,
    style: UiStyle,
)
    ensures
        draw::stays(pen, right_set(pen, y, left, right, first, second, style).pen),
{
}

proof fn lemma_gutter(
    pen: PenView,
    theme: UiTheme,
    state: RunnerState,
    area: UiArea,
    selected: bool,
)
    ensures
        ({
            let opened = gutter(pen, theme, state, area, selected).pen;
            let shown = UiStyle::spec_colored(theme.colors.color(state));
            let cursor = UiStyle::spec_colored(theme.colors.cursor);
            &&& draw::stays(pen, opened)
            &&& draw::tells(opened, area.y, theme.symbols.mark(state), shown)
            &&& selected ==> draw::tells(opened, area.y, theme.symbols.cursor@, cursor)
            &&& opened.draws.len() == pen.draws.len() + if selected {
                2nat
            } else {
                1nat
            }
        }),
{
    let opened = gutter(pen, theme, state, area, selected).pen;
    let count = opened.draws.len() as int;
    let shown = UiStyle::spec_colored(theme.colors.color(state));
    assert(draw::writes(opened.draws[count - 1], area.y, theme.symbols.mark(state), shown));
    if selected {
        let cursor = UiStyle::spec_colored(theme.colors.cursor);
        assert(draw::writes(opened.draws[count - 2], area.y, theme.symbols.cursor@, cursor));
    }
}

/// A row shows its unit: the mark of what it is doing and what it is called,
/// in its first line; the cursor's mark where the cursor is on it; and what it
/// is doing spelled out in the second line, if it has one.
#[verifier::rlimit(60)]
pub proof fn a_row_shows_its_unit(
    pen: PenView,
    theme: UiTheme,
    unit: UnitRow,
    row: UiArea,
    layout: UiThemeMenuLayout,
    selected: bool,
    quiet: bool,
)
    ensures
        ({
            let after = with_row(pen, theme, unit, row, layout, selected, quiet);
            let marked = UiStyle::spec_colored(theme.colors.color(unit.state));
            let cursor = UiStyle::spec_colored(theme.colors.cursor);
            &&& draw::stays(pen, after)
            &&& draw::tells(after, row.y, theme.symbols.mark(unit.state), marked)
            &&& names_at(after, row.y, called(unit, layout), selected, quiet)
            &&& selected ==> draw::tells(after, row.y, theme.symbols.cursor@, cursor)
            &&& layout is Comfortable && row.y < u16::MAX ==> draw::tells(
                after,
                (row.y + 1) as u16,
                theme.texts.word(unit.state),
                marked,
            )
        }),
{
    let after = with_row(pen, theme, unit, row, layout, selected, quiet);
    let marked = UiStyle::spec_colored(theme.colors.color(unit.state));
    let cursor = UiStyle::spec_colored(theme.colors.cursor);
    lemma_gutter(pen, theme, unit.state, row, selected);
    let opened = gutter(pen, theme, unit.state, row, selected);
    let style = row_style(selected, quiet);
    let ellipsis = theme.symbols.ellipsis@;
    let right = draw::left_of(row.spec_right() as int, UNITS_PAD_X as int) as u16;
    let name = called(unit, layout);
    match layout {
        UiThemeMenuLayout::Compact => {
            let said = detail_of(theme, unit);
            let said_style = match said.color {
                Some(color) => UiStyle::spec_colored(color),
                None => UiStyle::spec_dim(),
            };
            lemma_set_stays(
                opened.pen,
                row.y,
                opened.left,
                right,
                said.label,
                said.number,
                said_style,
            );
            let set = right_set(
                opened.pen,
                row.y,
                opened.left,
                right,
                said.label,
                said.number,
                said_style,
            );
            draw::only_what_is_cut_is_marked(
                set.pen,
                opened.left,
                row.y,
                name,
                draw::left_of(set.stop as int, opened.left as int),
                style,
                ellipsis,
            );
        },
        UiThemeMenuLayout::Comfortable => {
            let room = draw::left_of(right as int, opened.left as int);
            draw::only_what_is_cut_is_marked(
                opened.pen,
                opened.left,
                row.y,
                name,
                room,
                style,
                ellipsis,
            );
            let named = opened.pen.clipped(opened.left, row.y, name, room, style, ellipsis);
            let y = draw::counted(row.y + 1);
            let mode = match unit.mode {
                Some(mode) => mode,
                None => ""@,
            };
            lemma_set_stays(named, y, opened.left, right, mode, ""@, UiStyle::spec_dim());
            let set = right_set(named, y, opened.left, right, mode, ""@, UiStyle::spec_dim());
            let word = theme.texts.word(unit.state);
            let room = draw::left_of(set.stop as int, opened.left as int);
            draw::what_is_put_is_told(set.pen, opened.left, y, word, room, marked);
            let worded = set.pen.put(opened.left, y, word, room, marked);
            assert(draw::stays(worded, after));
            draw::what_is_told_stays_told(worded, after, y, word, marked);
            draw::what_is_told_stays_told(named, after, row.y, name, style);
        },
    }
    assert(draw::stays(opened.pen, after));
    draw::what_is_told_stays_told(
        opened.pen,
        after,
        row.y,
        theme.symbols.mark(unit.state),
        marked,
    );
    if selected {
        draw::what_is_told_stays_told(opened.pen, after, row.y, theme.symbols.cursor@, cursor);
    }
    assert(written_as(style, selected, quiet) && draw::tells(after, row.y, name, style));
}

proof fn lemma_set_alike(
    one: PenView,
    other: PenView,
    y: u16,
    left: u16,
    right: u16,
    first: Seq<char>,
    second: Seq<char>,
    style: UiStyle,
)
    requires
        one.right == other.right,
    ensures
        ({
            let set = right_set(one, y, left, right, first, second, style);
            let set_other = right_set(other, y, left, right, first, second, style);
            &&& set.stop == set_other.stop
            &&& set.pen.right == set_other.pen.right
            &&& set.pen.draws.len() - one.draws.len() == set_other.pen.draws.len()
                - other.draws.len()
        }),
{
}

proof fn lemma_clipped_alike(
    one: PenView,
    other: PenView,
    x: u16,
    y: u16,
    text: Seq<char>,
    room: int,
    style: UiStyle,
    style_other: UiStyle,
    mark: Seq<char>,
)
    requires
        one.right == other.right,
    ensures
        ({
            let after = one.clipped(x, y, text, room, style, mark);
            let after_other = other.clipped(x, y, text, room, style_other, mark);
            &&& after.right == after_other.right
            &&& after.draws.len() - one.draws.len() == after_other.draws.len()
                - other.draws.len()
        }),
{
}

/// A row under the cursor has the cursor's mark more on it than it would have
/// otherwise, and nothing else.
#[verifier::rlimit(60)]
pub proof fn only_the_cursors_row_has_its_mark(
    pen: PenView,
    theme: UiTheme,
    unit: UnitRow,
    row: UiArea,
    layout: UiThemeMenuLayout,
    quiet: bool,
)
    ensures
        with_row(pen, theme, unit, row, layout, true, quiet).draws.len() == with_row(
            pen,
            theme,
            unit,
            row,
            layout,
            false,
            quiet,
        ).draws.len() + 1,
{
    lemma_gutter(pen, theme, unit.state, row, true);
    lemma_gutter(pen, theme, unit.state, row, false);
    let on = gutter(pen, theme, unit.state, row, true);
    let off = gutter(pen, theme, unit.state, row, false);
    let left = on.left;
    assert(left == off.left);
    let right = draw::left_of(row.spec_right() as int, UNITS_PAD_X as int) as u16;
    let ellipsis = theme.symbols.ellipsis@;
    let live = row_style(true, quiet);
    let still = row_style(false, quiet);
    let dim = UiStyle::spec_dim();
    match layout {
        UiThemeMenuLayout::Compact => {
            let said = detail_of(theme, unit);
            let style = match said.color {
                Some(color) => UiStyle::spec_colored(color),
                None => UiStyle::spec_dim(),
            };
            lemma_set_alike(on.pen, off.pen, row.y, left, right, said.label, said.number, style);
            let set = right_set(on.pen, row.y, left, right, said.label, said.number, style);
            let other = right_set(off.pen, row.y, left, right, said.label, said.number, style);
            let name = called(unit, layout);
            let room = draw::left_of(set.stop as int, left as int);
            lemma_clipped_alike(
                set.pen,
                other.pen,
                left,
                row.y,
                name,
                room,
                live,
                still,
                ellipsis,
            );
        },
        UiThemeMenuLayout::Comfortable => {
            let room = draw::left_of(right as int, left as int);
            lemma_clipped_alike(
                on.pen,
                off.pen,
                left,
                row.y,
                unit.name,
                room,
                live,
                still,
                ellipsis,
            );
            let named = on.pen.clipped(left, row.y, unit.name, room, live, ellipsis);
            let other = off.pen.clipped(left, row.y, unit.name, room, still, ellipsis);
            let y = draw::counted(row.y + 1);
            let mode = match unit.mode {
                Some(mode) => mode,
                None => ""@,
            };
            lemma_set_alike(named, other, y, left, right, mode, ""@, dim);
        },
    }
}

/// Whether a screen shows a unit in the row from `y` on: its mark, what it is
/// called, and the cursor's mark where the cursor is on it.
pub open spec fn shows_unit(
    pen: PenView,
    theme: UiTheme,
    unit: UnitRow,
    y: u16,
    layout: UiThemeMenuLayout,
    live: bool,
    quiet: bool,
) -> bool {
    &&& draw::tells(
        pen,
        y,
        theme.symbols.mark(unit.state),
        UiStyle::spec_colored(theme.colors.color(unit.state)),
    )
    &&& names_at(pen, y, called(unit, layout), live, quiet)
    &&& live ==> draw::tells(
        pen,
        y,
        theme.symbols.cursor@,
        UiStyle::spec_colored(theme.colors.cursor),
    )
}

proof fn lemma_shown_stays(
    before: PenView,
    after: PenView,
    theme: UiTheme,
    unit: UnitRow,
    y: u16,
    layout: UiThemeMenuLayout,
    live: bool,
    quiet: bool,
)
    requires
        draw::stays(before, after),
        shows_unit(before, theme, unit, y, layout, live, quiet),
    ensures
        shows_unit(after, theme, unit, y, layout, live, quiet),
{
    let name = called(unit, layout);
    let style = choose|style: UiStyle|
        written_as(style, live, quiet) && #[trigger] draw::tells(before, y, name, style);
    draw::what_is_told_stays_told(before, after, y, name, style);
    draw::what_is_told_stays_told(
        before,
        after,
        y,
        theme.symbols.mark(unit.state),
        UiStyle::spec_colored(theme.colors.color(unit.state)),
    );
    if live {
        draw::what_is_told_stays_told(
            before,
            after,
            y,
            theme.symbols.cursor@,
            UiStyle::spec_colored(theme.colors.cursor),
        );
    }
}

proof fn lemma_rows_shown(
    pen: PenView,
    theme: UiTheme,
    units: Seq<UnitRow>,
    area: UiArea,
    layout: UiThemeMenuLayout,
    offset: int,
    cursor: Option<int>,
    quiet: bool,
    count: int,
    at: int,
)
    requires
        0 <= at < count,
        area.y + at * height_of(layout) <= u16::MAX,
    ensures
        ({
            let after = with_rows(pen, theme, units, area, layout, offset, cursor, quiet, count);
            shows_unit(
                after,
                theme,
                units[offset + at],
                (area.y + at * height_of(layout)) as u16,
                layout,
                cursor == Some(offset + at),
                quiet,
            )
        }),
    decreases count,
{
    let before = with_rows(pen, theme, units, area, layout, offset, cursor, quiet, count - 1);
    let after = with_rows(pen, theme, units, area, layout, offset, cursor, quiet, count);
    let row = UiArea {
        y: draw::counted(area.y + (count - 1) * height_of(layout)),
        height: height_of(layout),
        ..area
    };
    let index = offset + count - 1;
    a_row_shows_its_unit(before, theme, units[index], row, layout, cursor == Some(index), quiet);
    if at < count - 1 {
        lemma_rows_shown(pen, theme, units, area, layout, offset, cursor, quiet, count - 1, at);
        lemma_shown_stays(
            before,
            after,
            theme,
            units[offset + at],
            (area.y + at * height_of(layout)) as u16,
            layout,
            cursor == Some(offset + at),
            quiet,
        );
    }
}

proof fn lemma_rows_stay(
    pen: PenView,
    theme: UiTheme,
    units: Seq<UnitRow>,
    area: UiArea,
    layout: UiThemeMenuLayout,
    offset: int,
    cursor: Option<int>,
    quiet: bool,
    count: int,
)
    ensures
        draw::stays(
            pen,
            with_rows(pen, theme, units, area, layout, offset, cursor, quiet, count),
        ),
    decreases count,
{
    if count > 0 {
        lemma_rows_stay(pen, theme, units, area, layout, offset, cursor, quiet, count - 1);
        let before = with_rows(pen, theme, units, area, layout, offset, cursor, quiet, count - 1);
        let row = UiArea {
            y: draw::counted(area.y + (count - 1) * height_of(layout)),
            height: height_of(layout),
            ..area
        };
        let index = offset + count - 1;
        a_row_shows_its_unit(
            before,
            theme,
            units[index],
            row,
            layout,
            cursor == Some(index),
            quiet,
        );
    }
}

/// A list shows every unit from where it is scrolled to for as far as it has
/// room, one below the other, each in its own row and under the cursor if it
/// is the one that is.
pub proof fn a_list_shows_each_unit_in_its_row(
    pen: PenView,
    theme: UiTheme,
    units: Seq<UnitRow>,
    area: UiArea,
    layout: UiThemeMenuLayout,
    offset: int,
    cursor: Option<int>,
    quiet: bool,
    at: int,
)
    requires
        0 <= offset <= at < units.len(),
        area.y + area.height <= u16::MAX,
        at == offset || (at - offset + 1) * height_of(layout) <= area.height,
    ensures
        shows_unit(
            with_list(pen, theme, units, area, layout, offset, cursor, quiet),
            theme,
            units[at],
            (area.y + (at - offset) * height_of(layout)) as u16,
            layout,
            cursor == Some(at),
            quiet,
        ),
{
    let count = draw::least(draw::left_of(units.len() as int, offset), page_of(area, layout));
    let height = height_of(layout) as int;
    assert(height == 1 || height == 3);
    lemma_rows_shown(
        pen,
        theme,
        units,
        area,
        layout,
        offset,
        cursor,
        quiet,
        count,
        at - offset,
    );
}

proof fn lemma_rule_stays(pen: PenView, theme: UiTheme, start: u16, end: int, y: u16)
    ensures
        draw::stays(pen, with_rule(pen, theme, start, end, y)),
    decreases end - start,
{
    if end > start {
        lemma_rule_stays(pen, theme, start, end - 1, y);
    }
}

/// Whether a screen shows a unit in a row inside `area`.
pub open spec fn shows_inside(
    pen: PenView,
    theme: UiTheme,
    unit: UnitRow,
    area: UiArea,
    live: bool,
    quiet: bool,
) -> bool {
    exists|y: u16, layout: UiThemeMenuLayout|
        area.y < y < area.y + area.height - 1 && #[trigger] shows_unit(
            pen,
            theme,
            unit,
            y,
            layout,
            live,
            quiet,
        )
}

proof fn lemma_cursor_shown(
    pen: PenView,
    theme: UiTheme,
    units: Seq<UnitRow>,
    area: UiArea,
    layout: UiThemeMenuLayout,
    offset: int,
    cursor: int,
    quiet: bool,
) -> (y: u16)
    requires
        0 <= cursor < units.len(),
        0 <= offset,
        area.y + area.height <= u16::MAX,
        area.height >= height_of(layout),
    ensures
        ({
            let at = into_view(offset, Some(cursor), page_of(area, layout), units.len() as int);
            let after = with_list(pen, theme, units, area, layout, at, Some(cursor), quiet);
            shows_unit(after, theme, units[cursor], y, layout, true, quiet)
        }),
        area.y <= y < area.y + area.height,
{
    let page = page_of(area, layout);
    the_cursor_is_in_the_window(offset, cursor, page, units.len() as int);
    let at = into_view(offset, Some(cursor), page, units.len() as int);
    assert(height_of(layout) == 1 || height_of(layout) == 3);
    a_list_shows_each_unit_in_its_row(
        pen,
        theme,
        units,
        area,
        layout,
        at,
        Some(cursor),
        quiet,
        cursor,
    );
    (area.y + (cursor - at) * height_of(layout)) as u16
}

/// The unit under the cursor is on the screen, inside the pane and under the
/// cursor's mark: any unit of the main panel, any at all where there is no
/// main panel, and any at all where the pane has room for both lists. A cursor
/// past the last unit is on the last one.
#[verifier::rlimit(60)]
pub proof fn the_unit_under_the_cursor_is_on_the_screen(
    pen: PenView,
    theme: UiTheme,
    units: Seq<UnitRow>,
    area: UiArea,
    state: UnitsStateView,
)
    requires
        by_panel(units),
        units.len() > 0,
        0 <= state.cursor,
        0 <= state.main_offset,
        0 <= state.minor_offset,
        area.height >= 3,
        area.y + area.height <= u16::MAX,
    ensures
        ({
            let after = with_units(pen, theme, units, area, state);
            let cursor = after.state.cursor;
            let unit = units[cursor];
            &&& state.cursor < units.len() ==> cursor == state.cursor
            &&& state.cursor >= units.len() ==> cursor == units.len() - 1
            &&& unit.panel == ConfigPanel::Main || units[0].panel == ConfigPanel::Minor
                || area.height >= 7 ==> shows_inside(
                after.pen,
                theme,
                unit,
                area,
                true,
                unit.panel == ConfigPanel::Minor,
            )
        }),
{
    lemma_split(units);
    let after = with_units(pen, theme, units, area, state);
    let inner = area.spec_inner(false);
    let bordered = pen.with(DrawView::Border { area, right: false });
    let cursor = draw::least(state.cursor, draw::left_of(units.len() as int, 1));
    let split = leading_main(units);
    let main = units.subrange(0, split);
    let minor = units.subrange(split, units.len() as int);
    let layout = fitting(theme.menu_layout, inner.height);
    let compact = UiThemeMenuLayout::Compact;
    let main_cursor = cursor_in(cursor, split, true);
    let minor_cursor = cursor_in(cursor, split, false);
    let unit = units[cursor];
    let quiet = unit.panel == ConfigPanel::Minor;
    let two = if main.len() > 0 && minor.len() > 0 {
        parted(inner, minor.len() as int, height_of(layout))
    } else {
        None
    };
    match two {
        None => {
            if main.len() == 0 {
                let y = lemma_cursor_shown(
                    bordered,
                    theme,
                    minor,
                    inner,
                    layout,
                    state.minor_offset,
                    cursor - split,
                    true,
                );
                assert(shows_unit(after.pen, theme, unit, y, layout, true, quiet));
            } else if cursor < split {
                let y = lemma_cursor_shown(
                    bordered,
                    theme,
                    main,
                    inner,
                    layout,
                    state.main_offset,
                    cursor,
                    false,
                );
                assert(shows_unit(after.pen, theme, unit, y, layout, true, quiet));
            }
        },
        Some(areas) => {
            let main_offset = into_view(
                state.main_offset,
                main_cursor,
                page_of(areas.main, layout),
                main.len() as int,
            );
            let minor_offset = into_view(
                state.minor_offset,
                minor_cursor,
                page_of(areas.minor, compact),
                minor.len() as int,
            );
            let with_main = with_list(
                bordered,
                theme,
                main,
                areas.main,
                layout,
                main_offset,
                main_cursor,
                false,
            );
            let start = draw::counted(inner.x + UNITS_PAD_X);
            lemma_rule_stays(with_main, theme, start, rule_end(inner), areas.rule);
            let ruled = with_rule(with_main, theme, start, rule_end(inner), areas.rule);
            lemma_rows_stay(
                ruled,
                theme,
                minor,
                areas.minor,
                compact,
                minor_offset,
                minor_cursor,
                true,
                draw::least(
                    draw::left_of(minor.len() as int, minor_offset),
                    page_of(areas.minor, compact),
                ),
            );
            if cursor < split {
                let y = lemma_cursor_shown(
                    bordered,
                    theme,
                    main,
                    areas.main,
                    layout,
                    state.main_offset,
                    cursor,
                    false,
                );
                assert(draw::stays(with_main, after.pen));
                assert(unit == main[cursor]);
                lemma_shown_stays(with_main, after.pen, theme, unit, y, layout, true, false);
                assert(shows_unit(after.pen, theme, unit, y, layout, true, quiet));
            } else {
                let y = lemma_cursor_shown(
                    ruled,
                    theme,
                    minor,
                    areas.minor,
                    compact,
                    state.minor_offset,
                    cursor - split,
                    true,
                );
                assert(unit == minor[cursor - split]);
                assert(shows_unit(after.pen, theme, unit, y, compact, true, quiet));
            }
        },
    }
}

proof fn lemma_list_stays(
    pen: PenView,
    theme: UiTheme,
    units: Seq<UnitRow>,
    area: UiArea,
    layout: UiThemeMenuLayout,
    offset: int,
    cursor: Option<int>,
    quiet: bool,
)
    ensures
        draw::stays(pen, with_list(pen, theme, units, area, layout, offset, cursor, quiet)),
{
    let count = draw::least(draw::left_of(units.len() as int, offset), page_of(area, layout));
    lemma_rows_stay(pen, theme, units, area, layout, offset, cursor, quiet, count);
}

/// The units pane goes over what is on the screen and takes nothing of it
/// away.
pub proof fn the_units_pane_takes_nothing_away(
    pen: PenView,
    theme: UiTheme,
    units: Seq<UnitRow>,
    area: UiArea,
    state: UnitsStateView,
)
    ensures
        draw::stays(pen, with_units(pen, theme, units, area, state).pen),
{
    lemma_units_stay(pen, theme, units, area, state);
}

proof fn lemma_units_stay(
    pen: PenView,
    theme: UiTheme,
    units: Seq<UnitRow>,
    area: UiArea,
    state: UnitsStateView,
)
    ensures
        ({
            let bordered = pen.with(DrawView::Border { area, right: false });
            let after = with_units(pen, theme, units, area, state).pen;
            &&& draw::stays(bordered, after)
            &&& draw::stays(pen, after)
        }),
{
    let after = with_units(pen, theme, units, area, state);
    let inner = area.spec_inner(false);
    let bordered = pen.with(DrawView::Border { area, right: false });
    let cursor = draw::least(state.cursor, draw::left_of(units.len() as int, 1));
    let split = leading_main(units);
    let main = units.subrange(0, split);
    let minor = units.subrange(split, units.len() as int);
    let layout = fitting(theme.menu_layout, inner.height);
    let compact = UiThemeMenuLayout::Compact;
    let main_cursor = cursor_in(cursor, split, true);
    let minor_cursor = cursor_in(cursor, split, false);
    let two = if main.len() > 0 && minor.len() > 0 {
        parted(inner, minor.len() as int, height_of(layout))
    } else {
        None
    };
    let (main_at, minor_at) = (after.state.main_offset, after.state.minor_offset);
    match two {
        None => {
            if main.len() == 0 {
                lemma_list_stays(
                    bordered,
                    theme,
                    minor,
                    inner,
                    layout,
                    minor_at,
                    minor_cursor,
                    true,
                );
            } else {
                lemma_list_stays(
                    bordered,
                    theme,
                    main,
                    inner,
                    layout,
                    main_at,
                    main_cursor,
                    false,
                );
            }
        },
        Some(areas) => {
            lemma_list_stays(
                bordered,
                theme,
                main,
                areas.main,
                layout,
                main_at,
                main_cursor,
                false,
            );
            let with_main = with_list(
                bordered,
                theme,
                main,
                areas.main,
                layout,
                main_at,
                main_cursor,
                false,
            );
            let start = draw::counted(inner.x + UNITS_PAD_X);
            lemma_rule_stays(with_main, theme, start, rule_end(inner), areas.rule);
            let ruled = with_rule(with_main, theme, start, rule_end(inner), areas.rule);
            lemma_list_stays(
                ruled,
                theme,
                minor,
                areas.minor,
                compact,
                minor_at,
                minor_cursor,
                true,
            );
            assert(draw::stays(bordered, ruled));
        },
    }
}

/// A unit that is on the screen stays there whatever else is put on it.
pub proof fn a_unit_stays_shown(
    before: PenView,
    after: PenView,
    theme: UiTheme,
    unit: UnitRow,
    area: UiArea,
    live: bool,
    quiet: bool,
)
    requires
        draw::stays(before, after),
        shows_inside(before, theme, unit, area, live, quiet),
    ensures
        shows_inside(after, theme, unit, area, live, quiet),
{
    let (y, layout) = choose|y: u16, layout: UiThemeMenuLayout|
        area.y < y < area.y + area.height - 1 && #[trigger] shows_unit(
            before,
            theme,
            unit,
            y,
            layout,
            live,
            quiet,
        );
    lemma_shown_stays(before, after, theme, unit, y, layout, live, quiet);
}

/// What is set against the right edge is there, all of it, where that leaves
/// the name its least; and what comes from the left then stops a gap before
/// it. Where it does not, or there is nothing to set, nothing is put down and
/// the name has the row to itself.
pub proof fn what_is_set_right_leaves_the_name_its_least(
    pen: PenView,
    y: u16,
    left: u16,
    right: u16,
    first: Seq<char>,
    second: Seq<char>,
    style: UiStyle,
)
    ensures
        ({
            let set = right_set(pen, y, left, right, first, second, style);
            let width = draw::columns(first) + draw::columns(second);
            &&& draw::stays(pen, set.pen)
            &&& width > 0 && left + NAME_MIN + width <= right ==> {
                &&& draw::tells(set.pen, y, first, style)
                &&& draw::tells(set.pen, y, second, style)
                &&& set.stop + DETAIL_GAP + width == right
            }
            &&& !(width > 0 && left + NAME_MIN + width <= right) ==> set.pen == pen && set.stop
                == right
        }),
{
    let set = right_set(pen, y, left, right, first, second, style);
    let width = draw::columns(first) + draw::columns(second);
    if width > 0 && left + NAME_MIN + width <= right {
        let count = pen.draws.len() as int;
        assert(draw::writes(set.pen.draws[count], y, first, style));
        assert(draw::writes(set.pen.draws[count + 1], y, second, style));
    }
}

/// What a row says beside the name: on one line the most there is to say of
/// the unit, where the name leaves room for it; on two the mode, where the
/// state leaves room for it, and the code of a failure that had one.
#[verifier::rlimit(60)]
pub proof fn a_row_says_what_there_is_to_say(
    pen: PenView,
    theme: UiTheme,
    unit: UnitRow,
    row: UiArea,
    selected: bool,
    quiet: bool,
)
    requires
        row.y < u16::MAX,
    ensures
        ({
            let left = gutter(pen, theme, unit.state, row, selected).left;
            let right = draw::left_of(row.spec_right() as int, 1);
            let said = detail_of(theme, unit);
            let width = draw::columns(said.label) + draw::columns(said.number);
            let short = with_row(
                pen,
                theme,
                unit,
                row,
                UiThemeMenuLayout::Compact,
                selected,
                quiet,
            );
            let long = with_row(
                pen,
                theme,
                unit,
                row,
                UiThemeMenuLayout::Comfortable,
                selected,
                quiet,
            );
            let style = if said.color is Some {
                UiStyle::spec_colored(said.color->0)
            } else {
                UiStyle::spec_dim()
            };
            let below = (row.y + 1) as u16;
            &&& width > 0 && left + NAME_MIN + width <= right ==> draw::tells(
                short,
                row.y,
                said.label,
                style,
            ) && draw::tells(short, row.y, said.number, style)
            &&& unit.mode matches Some(mode) ==> (0 < draw::columns(mode) + draw::columns(""@)
                && left + NAME_MIN + draw::columns(mode) + draw::columns(""@) <= right
                ==> draw::tells(long, below, mode, UiStyle::spec_dim()))
            &&& unit.state matches RunnerState::ExitError(Some(code)) ==> draw::tells(
                long,
                below,
                text::digits(code.spec_get() as nat),
                UiStyle::spec_colored(theme.colors.color(unit.state)),
            )
        }),
{
    lemma_row_says_short(pen, theme, unit, row, selected, quiet);
    lemma_row_says_long(pen, theme, unit, row, selected, quiet);
}

proof fn lemma_row_says_short(
    pen: PenView,
    theme: UiTheme,
    unit: UnitRow,
    row: UiArea,
    selected: bool,
    quiet: bool,
)
    ensures
        ({
            let left = gutter(pen, theme, unit.state, row, selected).left;
            let right = draw::left_of(row.spec_right() as int, 1);
            let said = detail_of(theme, unit);
            let width = draw::columns(said.label) + draw::columns(said.number);
            let after = with_compact(pen, theme, unit, row, selected, quiet);
            let style = if said.color is Some {
                UiStyle::spec_colored(said.color->0)
            } else {
                UiStyle::spec_dim()
            };
            width > 0 && left + NAME_MIN + width <= right ==> draw::tells(
                after,
                row.y,
                said.label,
                style,
            ) && draw::tells(after, row.y, said.number, style)
        }),
{
    let opened = gutter(pen, theme, unit.state, row, selected);
    let left = opened.left;
    let right = draw::left_of(row.spec_right() as int, UNITS_PAD_X as int) as u16;
    let said = detail_of(theme, unit);
    let width = draw::columns(said.label) + draw::columns(said.number);
    let after = with_compact(pen, theme, unit, row, selected, quiet);
    let style = match said.color {
        Some(color) => UiStyle::spec_colored(color),
        None => UiStyle::spec_dim(),
    };
    what_is_set_right_leaves_the_name_its_least(
        opened.pen,
        row.y,
        left,
        right,
        said.label,
        said.number,
        style,
    );
    let set = right_set(opened.pen, row.y, left, right, said.label, said.number, style);
    let name = called(unit, UiThemeMenuLayout::Compact);
    draw::only_what_is_cut_is_marked(
        set.pen,
        left,
        row.y,
        name,
        draw::left_of(set.stop as int, left as int),
        row_style(selected, quiet),
        theme.symbols.ellipsis@,
    );
    assert(draw::stays(set.pen, after));
    if width > 0 && left + NAME_MIN + width <= right {
        draw::what_is_told_stays_told(set.pen, after, row.y, said.label, style);
        draw::what_is_told_stays_told(set.pen, after, row.y, said.number, style);
    }
}

proof fn lemma_row_says_long(
    pen: PenView,
    theme: UiTheme,
    unit: UnitRow,
    row: UiArea,
    selected: bool,
    quiet: bool,
)
    requires
        row.y < u16::MAX,
    ensures
        ({
            let left = gutter(pen, theme, unit.state, row, selected).left;
            let right = draw::left_of(row.spec_right() as int, 1);
            let after = with_comfortable(pen, theme, unit, row, selected, quiet);
            let below = (row.y + 1) as u16;
            &&& unit.mode matches Some(mode) ==> (0 < draw::columns(mode) + draw::columns(""@)
                && left + NAME_MIN + draw::columns(mode) + draw::columns(""@) <= right
                ==> draw::tells(after, below, mode, UiStyle::spec_dim()))
            &&& unit.state matches RunnerState::ExitError(Some(code)) ==> draw::tells(
                after,
                below,
                text::digits(code.spec_get() as nat),
                UiStyle::spec_colored(theme.colors.color(unit.state)),
            )
        }),
{
    let opened = gutter(pen, theme, unit.state, row, selected);
    let left = opened.left;
    let right = draw::left_of(row.spec_right() as int, UNITS_PAD_X as int) as u16;
    let after = with_comfortable(pen, theme, unit, row, selected, quiet);
    let below = (row.y + 1) as u16;
    let dim = UiStyle::spec_dim();
    let named = opened.pen.clipped(
        left,
        row.y,
        unit.name,
        draw::left_of(right as int, left as int),
        row_style(selected, quiet),
        theme.symbols.ellipsis@,
    );
    let mode = match unit.mode {
        Some(mode) => mode,
        None => ""@,
    };
    what_is_set_right_leaves_the_name_its_least(named, below, left, right, mode, ""@, dim);
    let set = right_set(named, below, left, right, mode, ""@, dim);
    assert(draw::stays(set.pen, after));
    if draw::tells(set.pen, below, mode, dim) {
        draw::what_is_told_stays_told(set.pen, after, below, mode, dim);
    }
    if let RunnerState::ExitError(Some(code)) = unit.state {
        let style = UiStyle::spec_colored(theme.colors.color(unit.state));
        let number = text::digits(code.spec_get() as nat);
        assert(draw::writes(after.draws.last(), below, number, style));
        assert(after.draws[after.draws.len() - 1] == after.draws.last());
    }
}

/// The rule between the lists runs the whole of its length: every column from
/// where it starts to where it ends has its character, quietly, in its row.
pub proof fn a_rule_runs_its_whole_length(
    pen: PenView,
    theme: UiTheme,
    start: u16,
    end: int,
    y: u16,
    x: u16,
)
    requires
        start <= x < end <= u16::MAX,
    ensures
        with_rule(pen, theme, start, end, y).draws.contains(
            DrawView::Cell {
                x,
                y,
                symbol: theme.symbols.border.horizontal_top@,
                painted: Some(UiStyle::spec_dim()),
            },
        ),
    decreases end - start,
{
    let after = with_rule(pen, theme, start, end, y);
    let before = with_rule(pen, theme, start, end - 1, y);
    let cell = DrawView::Cell {
        x,
        y,
        symbol: theme.symbols.border.horizontal_top@,
        painted: Some(UiStyle::spec_dim()),
    };
    if x == end - 1 {
        assert(after.draws.last() == cell);
        assert(after.draws[after.draws.len() - 1] == cell);
    } else {
        a_rule_runs_its_whole_length(pen, theme, start, end - 1, y, x);
        draw::what_is_drawn_stays_drawn(before, after, cell);
    }
}

/// The units pane is boxed, and leaves its right hand wall to the pane next to
/// it.
pub proof fn the_units_pane_is_boxed(
    pen: PenView,
    theme: UiTheme,
    units: Seq<UnitRow>,
    area: UiArea,
    state: UnitsStateView,
)
    ensures
        with_units(pen, theme, units, area, state).pen.draws.contains(
            DrawView::Border { area, right: false },
        ),
{
    let border = DrawView::Border { area, right: false };
    let bordered = pen.with(border);
    let after = with_units(pen, theme, units, area, state).pen;
    lemma_units_stay(pen, theme, units, area, state);
    assert(bordered.draws[pen.draws.len() as int] == border);
    draw::what_is_drawn_stays_drawn(bordered, after, border);
}

} // verus!
