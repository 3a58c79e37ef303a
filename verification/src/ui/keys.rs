//! The keys, and what they do to the screen.

use super::client::UiLog;
use super::draw;
use super::render::frame;
use super::render::frame::{RenderView, UiRender};
use super::render::log;
use super::render::log::LogStateView;
use super::render::menu;
use super::render::menu::{MenuView, UiMenuChoice};
use super::render::units;
use super::render::units::{Move, UnitsStateView};
use super::theme::UiTheme;
use crate::app::AppUnitKey;
use crate::log::LogRegion;
use crate::view;
use crate::view::{ViewCommand, ViewUnit};
use vstd::prelude::*;

verus! {

/// How many lines one notch of the wheel moves the log: three, which is what
/// a terminal scrolls by and so what a hand expects.
pub const WHEEL_LINES: isize = 3;

/// A key.
#[derive(Clone, Copy, PartialEq, Eq, Debug, Structural)]
pub enum UiKey {
    Up,
    Down,
    PageUp,
    PageDown,
    End,
    Tab,
    Enter,
    Esc,
    Backspace,
    Delete,
    Char(char),
    Other,
}

/// A key pressed, and what was held down with it.
#[derive(Clone, Copy, PartialEq, Eq, Debug, Structural)]
pub struct UiPress {
    pub key: UiKey,
    pub shift: bool,
    pub control: bool,
}

/// What a press means.
#[derive(Clone, Copy, PartialEq, Eq, Debug, Structural)]
pub enum UiVerb {
    Nothing,
    Quit,
    ScrollLines(isize),
    ScrollPages(isize),
    Follow,
    Select(Move),
    FocusOther,
    OpenMenu,
    Start,
    Stop,
    CloseMenu,
    SelectMenu(Move),
    Choose,
}

/// What is to be done about a press that the screen cannot do itself.
#[derive(PartialEq, Eq, Debug)]
pub enum UiAsk<E> {
    Nothing,
    /// Read what can be asked of the selected unit, and open the menu on it.
    OpenMenu,
    /// Tell the session.
    Send(ViewCommand<E>),
}

/// What a press means in the list.
pub open spec fn list_verb(press: UiPress) -> UiVerb {
    match press.key {
        UiKey::Esc => UiVerb::Quit,
        UiKey::Up => if press.shift {
            UiVerb::ScrollLines(1)
        } else {
            UiVerb::Select(Move::Previous)
        },
        UiKey::Down => if press.shift {
            UiVerb::ScrollLines((-1) as isize)
        } else {
            UiVerb::Select(Move::Next)
        },
        UiKey::PageUp => UiVerb::ScrollPages(1),
        UiKey::PageDown => UiVerb::ScrollPages((-1) as isize),
        UiKey::End => UiVerb::Follow,
        UiKey::Tab => UiVerb::FocusOther,
        UiKey::Enter => UiVerb::OpenMenu,
        UiKey::Backspace => UiVerb::Stop,
        UiKey::Delete => UiVerb::Stop,
        UiKey::Char('q') => UiVerb::Quit,
        UiKey::Char('j') => UiVerb::Select(Move::Next),
        UiKey::Char('k') => UiVerb::Select(Move::Previous),
        UiKey::Char('G') => UiVerb::Follow,
        UiKey::Char('r') => UiVerb::Start,
        UiKey::Char('R') => UiVerb::Start,
        _ => UiVerb::Nothing,
    }
}

/// What a press means while the menu is open.
pub open spec fn menu_verb(press: UiPress) -> UiVerb {
    match press.key {
        UiKey::Esc => UiVerb::CloseMenu,
        UiKey::Char('q') => UiVerb::CloseMenu,
        UiKey::Down => UiVerb::SelectMenu(Move::Next),
        UiKey::Char('j') => UiVerb::SelectMenu(Move::Next),
        UiKey::Up => UiVerb::SelectMenu(Move::Previous),
        UiKey::Char('k') => UiVerb::SelectMenu(Move::Previous),
        UiKey::Enter => UiVerb::Choose,
        _ => UiVerb::Nothing,
    }
}

/// What a press means: an interrupt quits before anything else, the menu
/// included; and the menu takes every other key while it is up.
pub open spec fn meaning(press: UiPress, menu_open: bool) -> UiVerb {
    if press.control && press.key == UiKey::Char('c') {
        UiVerb::Quit
    } else if menu_open {
        menu_verb(press)
    } else {
        list_verb(press)
    }
}

/// What a press means.
///
/// The menu takes every key but the interrupt while it is up: `q` closes it
/// rather than quitting, `j` moves within it rather than under it. Shift with
/// an arrow scrolls the log a line at a time, which is the fine adjustment a
/// page is too coarse for.
pub fn verb_of(press: UiPress, menu_open: bool) -> (verb: UiVerb)
    ensures
        verb == meaning(press, menu_open),
{
    if press.control && press.key == UiKey::Char('c') {
        return UiVerb::Quit;
    }
    if menu_open {
        return match press.key {
            UiKey::Esc => UiVerb::CloseMenu,
            UiKey::Char('q') => UiVerb::CloseMenu,
            UiKey::Down => UiVerb::SelectMenu(Move::Next),
            UiKey::Char('j') => UiVerb::SelectMenu(Move::Next),
            UiKey::Up => UiVerb::SelectMenu(Move::Previous),
            UiKey::Char('k') => UiVerb::SelectMenu(Move::Previous),
            UiKey::Enter => UiVerb::Choose,
            _ => UiVerb::Nothing,
        };
    }
    match press.key {
        UiKey::Esc => UiVerb::Quit,
        UiKey::Up => if press.shift {
            UiVerb::ScrollLines(1)
        } else {
            UiVerb::Select(Move::Previous)
        },
        UiKey::Down => if press.shift {
            UiVerb::ScrollLines(-1)
        } else {
            UiVerb::Select(Move::Next)
        },
        UiKey::PageUp => UiVerb::ScrollPages(1),
        UiKey::PageDown => UiVerb::ScrollPages(-1),
        UiKey::End => UiVerb::Follow,
        UiKey::Tab => UiVerb::FocusOther,
        UiKey::Enter => UiVerb::OpenMenu,
        UiKey::Backspace => UiVerb::Stop,
        UiKey::Delete => UiVerb::Stop,
        UiKey::Char('q') => UiVerb::Quit,
        UiKey::Char('j') => UiVerb::Select(Move::Next),
        UiKey::Char('k') => UiVerb::Select(Move::Previous),
        UiKey::Char('G') => UiVerb::Follow,
        UiKey::Char('r') => UiVerb::Start,
        UiKey::Char('R') => UiVerb::Start,
        _ => UiVerb::Nothing,
    }
}

/// An interrupt quits from anywhere, and nothing else quits while the menu is
/// open.
pub proof fn only_an_interrupt_quits_the_menu(press: UiPress)
    ensures
        press.control && press.key == UiKey::Char('c') ==> meaning(press, true) == UiVerb::Quit
            && meaning(press, false) == UiVerb::Quit,
        meaning(press, true) == UiVerb::Quit ==> press.control && press.key == UiKey::Char('c'),
{
}

/// The screen: what it is drawn from, and whether it is still up.
pub struct Ui<E> {
    render: UiRender<E>,
    running: bool,
}

/// What a screen remembers, and whether it is still up.
pub struct UiView<E> {
    pub render: RenderView<E>,
    pub running: bool,
}

impl<E> View for Ui<E> {
    type V = UiView<E>;

    closed spec fn view(&self) -> UiView<E> {
        UiView { render: self.render@, running: self.running }
    }
}

impl<E> UiView<E> {
    /// With the log scrolled to `scroll`.
    pub open spec fn scrolled_to(self, scroll: usize) -> UiView<E> {
        UiView {
            render: RenderView {
                log: LogStateView { scroll, ..self.render.log },
                ..self.render
            },
            ..self
        }
    }

    /// With the cursor on row `cursor`, and the log followed.
    pub open spec fn moved_to(self, cursor: int) -> UiView<E> {
        UiView {
            render: RenderView {
                units: UnitsStateView { cursor, ..self.render.units },
                log: LogStateView { scroll: 0, ..self.render.log },
                ..self.render
            },
            ..self
        }
    }

    /// With the menu as `menu` says.
    pub open spec fn with_menu(self, menu: MenuView<E>) -> UiView<E> {
        UiView { render: RenderView { menu, ..self.render }, ..self }
    }

    /// The screen once something has been done to it.
    pub open spec fn did(self, verb: UiVerb, units: Seq<view::UnitRow>) -> UiView<E> {
        let scroll = self.render.log.scroll;
        match verb {
            UiVerb::Quit => UiView { running: false, ..self },
            UiVerb::ScrollLines(lines) => self.scrolled_to(log::scrolled(scroll, lines as int)),
            UiVerb::ScrollPages(pages) => self.scrolled_to(
                log::scrolled(scroll, log::held_to_isize(pages * self.render.log.page())),
            ),
            UiVerb::Follow => self.scrolled_to(0),
            UiVerb::Select(movement) => self.moved_to(
                units::stepped(self.render.units.cursor, movement, units.len() as int),
            ),
            UiVerb::FocusOther => self.moved_to(
                units::other_list(
                    self.render.units.cursor,
                    units::leading_main(units),
                    units.len() as int,
                ),
            ),
            UiVerb::CloseMenu => self.with_menu(MenuView { key: None, ..self.render.menu }),
            UiVerb::Choose => self.with_menu(MenuView { key: None, ..self.render.menu }),
            UiVerb::SelectMenu(movement) => self.with_menu(
                MenuView { cursor: self.render.menu.moved(movement), ..self.render.menu },
            ),
            UiVerb::OpenMenu => self,
            UiVerb::Start => self,
            UiVerb::Stop => self,
            UiVerb::Nothing => self,
        }
    }

    /// What is left to do about something: a command is for the selected
    /// unit, if there is one, and a choice is what the menu's cursor is on.
    pub open spec fn asks(self, verb: UiVerb, units: Seq<view::UnitRow>) -> UiAsk<E> {
        let selected = frame::selected(units, self.render.units.cursor);
        match (verb, selected) {
            (UiVerb::OpenMenu, Some(_)) => UiAsk::OpenMenu,
            (UiVerb::Start, Some(unit)) => UiAsk::Send(ViewCommand::Start { key: unit.unit_key }),
            (UiVerb::Stop, Some(unit)) => UiAsk::Send(ViewCommand::Stop { key: unit.unit_key }),
            (UiVerb::Choose, _) => {
                let menu = self.render.menu;
                match menu.key {
                    Some(key) => if 0 <= menu.cursor < menu.items.len()
                        && menu.items[menu.cursor].enabled {
                        UiAsk::Send(
                            ViewCommand::Dispatch { key, event: menu.items[menu.cursor].event },
                        )
                    } else {
                        UiAsk::Nothing
                    },
                    None => UiAsk::Nothing,
                }
            },
            _ => UiAsk::Nothing,
        }
    }
}

impl<E: Copy> Ui<E> {
    /// Whether the menu's cursor is where it can be.
    pub open spec fn wf(self) -> bool {
        self@.render.menu.wf()
    }

    /// A screen that is up.
    pub fn new(theme: UiTheme) -> (ui: Self)
        ensures
            ui.wf(),
            ui@.running,
            ui@.render == (RenderView::<E> {
                units: UnitsStateView { cursor: 0, main_offset: 0, minor_offset: 0 },
                log: LogStateView { scroll: 0, rows: 0, columns: 0 },
                menu: MenuView { key: None, title: Seq::empty(), items: Seq::empty(), cursor: 0 },
                theme,
            }),
    {
        Ui { render: UiRender::new(theme), running: true }
    }

    /// Whether it is still up.
    pub fn running(&self) -> (running: bool)
        ensures
            running == self@.running,
    {
        self.running
    }

    /// What it is drawn from.
    pub fn render(&mut self) -> (render: &mut UiRender<E>)
        ensures
            render@ == old(self)@.render,
            final(self)@ == (UiView { render: final(render)@, ..old(self)@ }),
    {
        &mut self.render
    }

    /// Act on one press, and report what is left to do about it.
    pub fn handle(&mut self, press: UiPress, units: &Vec<ViewUnit>) -> (ask: UiAsk<E>)
        requires
            old(self).wf(),
            units::by_panel(view::rows(units@)),
        ensures
            final(self).wf(),
            ({
                let verb = meaning(press, old(self)@.render.menu.key is Some);
                &&& final(self)@ == old(self)@.did(verb, view::rows(units@))
                &&& ask == old(self)@.asks(verb, view::rows(units@))
            }),
    {
        let verb = verb_of(press, self.render.menu_open());
        match verb {
            UiVerb::Nothing => UiAsk::Nothing,
            UiVerb::Quit => {
                self.running = false;
                UiAsk::Nothing
            },
            UiVerb::ScrollLines(lines) => {
                self.render.scroll_log_lines(lines);
                UiAsk::Nothing
            },
            UiVerb::ScrollPages(pages) => {
                self.render.scroll_log_pages(pages);
                UiAsk::Nothing
            },
            UiVerb::Follow => {
                self.render.follow_log();
                UiAsk::Nothing
            },
            UiVerb::Select(movement) => {
                self.render.select(movement, units.len());
                UiAsk::Nothing
            },
            UiVerb::FocusOther => {
                self.render.focus_other(units);
                UiAsk::Nothing
            },
            UiVerb::OpenMenu => match self.render.selected_unit(units) {
                Some(_) => UiAsk::OpenMenu,
                None => UiAsk::Nothing,
            },
            UiVerb::Start => match self.render.selected_unit(units) {
                Some(unit) => UiAsk::Send(ViewCommand::Start { key: unit.unit_key }),
                None => UiAsk::Nothing,
            },
            UiVerb::Stop => match self.render.selected_unit(units) {
                Some(unit) => UiAsk::Send(ViewCommand::Stop { key: unit.unit_key }),
                None => UiAsk::Nothing,
            },
            UiVerb::CloseMenu => {
                self.render.close_menu();
                UiAsk::Nothing
            },
            UiVerb::SelectMenu(movement) => {
                self.render.select_menu(movement);
                UiAsk::Nothing
            },
            // A chosen entry is sent and the menu closes: left open, the
            // cursor would sit on a label the press itself just made wrong.
            UiVerb::Choose => {
                let choice = self.render.menu_choice();
                self.render.close_menu();
                match choice {
                    UiMenuChoice::Send { unit, event } => UiAsk::Send(
                        ViewCommand::Dispatch { key: unit, event },
                    ),
                    UiMenuChoice::Cancel => UiAsk::Nothing,
                }
            },
        }
    }

    /// Act on one notch of the wheel: it scrolls the log wherever the pointer
    /// is, that being the only thing on screen with more in it than fits.
    pub fn handle_mouse(&mut self, up: bool)
        ensures
            final(self)@ == old(self)@.scrolled_to(
                log::scrolled(
                    old(self)@.render.log.scroll,
                    if up {
                        WHEEL_LINES as int
                    } else {
                        -WHEEL_LINES
                    },
                ),
            ),
    {
        if up {
            self.render.scroll_log_lines(WHEEL_LINES);
        } else {
            self.render.scroll_log_lines(-WHEEL_LINES);
        }
    }

    /// Which log the pane shows, and which rectangle of it.
    ///
    /// The rectangle is the pane's, and whether escape sequences are read in
    /// it is the unit's.
    pub fn request_log(&self, units: &Vec<ViewUnit>) -> (request: (Option<AppUnitKey>, LogRegion))
        requires
            self@.render.log.scroll + self@.render.log.rows + log::LOG_MARGIN <= usize::MAX,
        ensures
            ({
                let selected = frame::selected(view::rows(units@), self@.render.units.cursor);
                request == match selected {
                    Some(unit) => (
                        Some(unit.unit_key),
                        LogRegion { parse_ansi: unit.parse_ansi, ..self@.render.log.wants() },
                    ),
                    None => (None::<AppUnitKey>, self@.render.log.wants()),
                }
            }),
    {
        let region = self.render.log_region();
        match self.render.selected_unit(units) {
            Some(unit) => (Some(unit.unit_key), region.with_parse_ansi(unit.parse_ansi)),
            None => (None, region.with_parse_ansi(true)),
        }
    }

    /// Pull the log scroll back to what the client actually found: nothing is
    /// further back than the lines that came in reach.
    pub fn clamp_log(&mut self, log: &UiLog<'_>)
        requires
            log.region.line_start + log.lines@.len() <= usize::MAX,
        ensures
            final(self)@ == old(self)@.scrolled_to(
                draw::least(
                    old(self)@.render.log.scroll as int,
                    draw::left_of(
                        log.region.line_start + log.lines@.len(),
                        old(self)@.render.log.rows as int,
                    ),
                ) as usize,
            ),
    {
        let held = log.region.line_start + log.lines.len();
        self.render.clamp_log(held);
    }
}

/// What is held down matters to an interrupt, and to the arrows while the
/// list has the keys; every other key means the same whatever is held.
pub proof fn little_hangs_on_what_is_held(one: UiPress, other: UiPress, menu_open: bool)
    requires
        one.key == other.key,
        one.key != UiKey::Char('c'),
        (one.key is Up || one.key is Down) && !menu_open ==> one.shift == other.shift,
    ensures
        meaning(one, menu_open) == meaning(other, menu_open),
{
}

/// Which keys come to what, while the list has them.
pub proof fn the_keys_of_the_list(press: UiPress)
    ensures
        ({
            let verb = meaning(press, false);
            let key = press.key;
            let interrupt = press.control && key == UiKey::Char('c');
            &&& verb is Quit <==> interrupt || key is Esc || key == UiKey::Char('q')
            &&& verb is Start <==> key == UiKey::Char('r') || key == UiKey::Char('R')
            &&& verb is Stop <==> key is Backspace || key is Delete
            &&& verb is OpenMenu <==> key is Enter
            &&& verb is FocusOther <==> key is Tab
            &&& verb is Follow <==> key is End || key == UiKey::Char('G')
            &&& verb == UiVerb::Select(Move::Next) <==> (key is Down && !press.shift) || key
                == UiKey::Char('j')
            &&& verb == UiVerb::Select(Move::Previous) <==> (key is Up && !press.shift) || key
                == UiKey::Char('k')
            &&& verb is ScrollLines <==> (key is Up || key is Down) && press.shift
            &&& verb is ScrollPages <==> key is PageUp || key is PageDown
            &&& verb is ScrollLines ==> (verb->ScrollLines_0 > 0) == (key is Up)
            &&& verb is ScrollLines ==> -1 <= verb->ScrollLines_0 <= 1 && verb->ScrollLines_0 != 0
            &&& verb is ScrollPages ==> (verb->ScrollPages_0 > 0) == (key is PageUp)
            &&& verb is ScrollPages ==> -1 <= verb->ScrollPages_0 <= 1 && verb->ScrollPages_0 != 0
            &&& !(verb is CloseMenu || verb is SelectMenu || verb is Choose)
        }),
{
}

/// Which keys come to what, while the menu has them: it closes, it is walked,
/// it is chosen from, and nothing under it hears a thing.
pub proof fn the_keys_of_the_menu(press: UiPress)
    ensures
        ({
            let verb = meaning(press, true);
            let key = press.key;
            &&& verb is CloseMenu <==> key is Esc || key == UiKey::Char('q')
            &&& verb is Choose <==> key is Enter
            &&& verb == UiVerb::SelectMenu(Move::Next) <==> key is Down || key == UiKey::Char('j')
            &&& verb == UiVerb::SelectMenu(Move::Previous) <==> key is Up || key == UiKey::Char(
                'k',
            )
            &&& verb is Quit || verb is CloseMenu || verb is Choose || verb is SelectMenu
                || verb is Nothing
        }),
{
}

/// What a press leaves of the screen: only quitting takes it down; only a move
/// of the cursor moves the cursor; only what is for the menu changes the menu;
/// nothing changes the look; and the log is scrolled by being scrolled, and
/// followed again by asking or by looking at another unit.
pub proof fn what_a_press_touches<E>(ui: UiView<E>, verb: UiVerb, units: Seq<view::UnitRow>)
    ensures
        ({
            let after = ui.did(verb, units);
            let moves = verb is Select || verb is FocusOther;
            let scrolls = verb is ScrollLines || verb is ScrollPages;
            &&& after.running == (ui.running && !(verb is Quit))
            &&& after.render.theme == ui.render.theme
            &&& after.render.log.rows == ui.render.log.rows
            &&& after.render.log.columns == ui.render.log.columns
            &&& after.render.units.main_offset == ui.render.units.main_offset
            &&& after.render.units.minor_offset == ui.render.units.minor_offset
            &&& !moves ==> after.render.units == ui.render.units
            &&& moves || verb is Follow ==> after.render.log.scroll == 0
            &&& !moves && !scrolls && !(verb is Follow) ==> after.render.log.scroll
                == ui.render.log.scroll
            &&& verb is CloseMenu || verb is Choose ==> after.render.menu.key is None
            &&& !(verb is CloseMenu || verb is Choose) ==> after.render.menu.key
                == ui.render.menu.key
            &&& !(verb is SelectMenu) ==> after.render.menu.cursor == ui.render.menu.cursor
            &&& after.render.menu.items == ui.render.menu.items
            &&& after.render.menu.title == ui.render.menu.title
        }),
{
}

/// Scrolling goes as far as it says, stopping at the end of the log and at
/// what can be counted; a page of it is a line less than the pane, and a line
/// in a pane of none.
pub proof fn how_far_the_log_is_scrolled<E>(
    ui: UiView<E>,
    count: isize,
    units: Seq<view::UnitRow>,
)
    ensures
        ({
            let was = ui.render.log.scroll as int;
            let rows = ui.render.log.rows as int;
            let by_line = ui.did(UiVerb::ScrollLines(count), units).render.log.scroll as int;
            let by_page = ui.did(UiVerb::ScrollPages(count), units).render.log.scroll as int;
            &&& 0 <= was + count <= usize::MAX ==> by_line == was + count
            &&& was + count < 0 ==> by_line == 0
            &&& was + count > usize::MAX ==> by_line == usize::MAX
            &&& rows > 1 && isize::MIN <= count * (rows - 1) <= isize::MAX && 0 <= was + count * (
            rows - 1) <= usize::MAX ==> by_page == was + count * (rows - 1)
            &&& rows <= 1 && 0 <= was + count <= usize::MAX ==> by_page == was + count
            &&& count < 0 ==> by_line <= was && by_page <= was
            &&& count > 0 ==> was <= by_line && was <= by_page
        }),
{
    let page = ui.render.log.page();
    assert(count < 0 ==> count * page <= 0) by (nonlinear_arith)
        requires
            page >= 1,
    ;
    assert(count > 0 ==> count * page >= 0) by (nonlinear_arith)
        requires
            page >= 1,
    ;
    assert(ui.render.log.rows <= 1 ==> count * page == count) by (nonlinear_arith)
        requires
            ui.render.log.rows <= 1 ==> page == 1,
    ;
}

/// The cursor goes where the keys say: one row on or back, round at the ends,
/// from the last row where there are fewer than there were.
pub proof fn where_the_cursor_goes<E>(ui: UiView<E>, units: Seq<view::UnitRow>)
    requires
        0 <= ui.render.units.cursor,
        units.len() > 0,
    ensures
        ({
            let at = ui.render.units.cursor;
            let last = units.len() - 1;
            let next = ui.did(UiVerb::Select(Move::Next), units).render.units.cursor;
            let previous = ui.did(UiVerb::Select(Move::Previous), units).render.units.cursor;
            &&& at < last ==> next == at + 1
            &&& at >= last ==> next == 0
            &&& 0 < at <= last ==> previous == at - 1
            &&& at == 0 ==> previous == last
            &&& at > last && last > 0 ==> previous == last - 1
        }),
{
}

/// What is asked is of the unit the cursor is on, and only when it is on one;
/// a choice is of the unit the menu is open for, of the entry its cursor is
/// on, and only when that one can be chosen.
pub proof fn what_is_asked_of_whom<E>(ui: UiView<E>, verb: UiVerb, units: Seq<view::UnitRow>)
    ensures
        ({
            let at = ui.render.units.cursor;
            let on_one = 0 <= at < units.len();
            let menu = ui.render.menu;
            let picked = menu.key is Some && 0 <= menu.cursor < menu.items.len()
                && menu.items[menu.cursor].enabled;
            let ask = ui.asks(verb, units);
            &&& ask is OpenMenu <==> verb is OpenMenu && on_one
            &&& ask is Send <==> (verb is Start && on_one) || (verb is Stop && on_one) || (
            verb is Choose && picked)
            &&& verb is Start && on_one ==> ask == UiAsk::<E>::Send(
                ViewCommand::Start { key: units[at].unit_key },
            )
            &&& verb is Stop && on_one ==> ask == UiAsk::<E>::Send(
                ViewCommand::Stop { key: units[at].unit_key },
            )
            &&& verb is Choose && picked ==> ask == UiAsk::<E>::Send(
                ViewCommand::Dispatch { key: menu.key->0, event: menu.items[menu.cursor].event },
            )
        }),
{
}

} // verus!
