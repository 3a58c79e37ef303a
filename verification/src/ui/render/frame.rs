//! The frame the panes are drawn in.

use super::log;
use super::log::{LogStateView, UiRenderLogState};
use super::menu;
use super::menu::{MenuView, UiMenuChoice, UiRenderMenuState};
use super::units;
use super::units::{minor_start, Move, UiRenderUnitsState, UnitsStateView};
use crate::app::AppUnitKey;
use crate::config::ConfigPanel;
use crate::log::{LogLine, LogLineView, LogRegion};
use crate::ui::client::UiLog;
use crate::ui::draw;
use crate::ui::draw::{
    DrawView, PenView, PieceText, UiArea, UiDraw, UiFit, UiPen, UiPiece, UiStyle,
};
use crate::ui::theme::UiTheme;
use crate::unit::UnitChoice;
use crate::view;
use crate::view::{UnitRow, ViewUnit};
use ratatui::layout::{Constraint, Layout, Rect};
use vstd::prelude::*;
use vstd::string::*;

verus! {

/// How wide the units column is.
///
/// Fixed rather than a share of the terminal, because what has to fit is a
/// name and a name does not grow when the window does. It also keeps the list
/// still: a name lands in the same place whatever else is on screen.
pub const UNITS_WIDTH: u16 = 30;

/// A rectangle as its place and its size.
pub type Parts = (u16, u16, u16, u16);

/// How much of `size` is left of a rectangle that starts at `at`: none of it
/// reaches past where it can be counted.
pub open spec fn held(at: u16, size: u16) -> u16 {
    draw::least(size as int, u16::MAX - at) as u16
}

/// A rectangle parted into what is left above and `length` rows below, or as
/// many as it has.
pub open spec fn split_below(area: Parts, length: u16) -> (Parts, Parts) {
    let width = held(area.0, area.2);
    let height = held(area.1, area.3);
    let below = draw::least(length as int, height as int) as u16;
    let above = (height - below) as u16;
    ((area.0, area.1, width, above), (area.0, (area.1 + above) as u16, width, below))
}

/// A rectangle parted into `length` columns on the left, or as many as it
/// has, and what is left.
pub open spec fn split_left(area: Parts, length: u16) -> (Parts, Parts) {
    let width = held(area.0, area.2);
    let height = held(area.1, area.3);
    let left = draw::least(length as int, width as int) as u16;
    let rest = (width - left) as u16;
    ((area.0, area.1, left, height), ((area.0 + left) as u16, area.1, rest, height))
}

/// `area` parted into what is left above and `length` rows below, by
/// `ratatui::layout::Layout::areas`: a `Constraint::Length` sets its part to
/// that length as far as there is room, which binds tighter than the
/// `Constraint::Fill` that fills what is left. `Rect::new` cuts off what
/// reaches past where it can be counted.
#[verifier::external_body]
fn layout_below(area: Parts, length: u16) -> (parts: (Parts, Parts))
    ensures
        parts == split_below(area, length),
{
    let rect = Rect::new(area.0, area.1, area.2, area.3);
    let [a, b] = Layout::vertical([Constraint::Fill(1), Constraint::Length(length)]).areas(rect);
    ((a.x, a.y, a.width, a.height), (b.x, b.y, b.width, b.height))
}

/// `area` parted into `length` columns on the left and what is left, by
/// `ratatui::layout::Layout::areas`: a `Constraint::Length` sets its part to
/// that length as far as there is room, which binds tighter than the
/// `Constraint::Fill` that fills what is left. `Rect::new` cuts off what
/// reaches past where it can be counted.
#[verifier::external_body]
fn layout_left(area: Parts, length: u16) -> (parts: (Parts, Parts))
    ensures
        parts == split_left(area, length),
{
    let rect = Rect::new(area.0, area.1, area.2, area.3);
    let [a, b] = Layout::horizontal([Constraint::Length(length), Constraint::Fill(1)]).areas(rect);
    ((a.x, a.y, a.width, a.height), (b.x, b.y, b.width, b.height))
}

/// The rectangle of some parts.
pub open spec fn area_of(parts: Parts) -> UiArea {
    UiArea { x: parts.0, y: parts.1, width: parts.2, height: parts.3 }
}

/// Where the panes go.
#[derive(Clone, Copy, PartialEq, Eq, Debug, Structural)]
pub struct UiPanes {
    pub footer: UiArea,
    pub units: UiArea,
    pub log: UiArea,
}

/// Where the panes go: a row at the bottom for the footer, and above it the
/// units at their width and the log in the rest.
pub open spec fn panes_in(frame: UiArea) -> UiPanes {
    let (body, footer) = split_below((frame.x, frame.y, frame.width, frame.height), 1);
    let (units, log) = split_left(body, UNITS_WIDTH);
    UiPanes { footer: area_of(footer), units: area_of(units), log: area_of(log) }
}

/// The footer, the units pane and the log pane, laid out from the whole
/// frame: one row for the footer, the width of a list for the units, and the
/// rest for the log, wherever there is as much as that.
pub fn areas(frame: UiArea) -> (panes: UiPanes)
    ensures
        panes == panes_in(frame),
{
    let (body, footer) = layout_below((frame.x, frame.y, frame.width, frame.height), 1);
    let (units, log) = layout_left(body, UNITS_WIDTH);
    UiPanes {
        footer: UiArea { x: footer.0, y: footer.1, width: footer.2, height: footer.3 },
        units: UiArea { x: units.0, y: units.1, width: units.2, height: units.3 },
        log: UiArea { x: log.0, y: log.1, width: log.2, height: log.3 },
    }
}

/// The panes tile the frame: the footer is under the other two, the log is to
/// the right of the units, and between them they are as wide and as tall as
/// the frame.
pub proof fn the_panes_tile_the_frame(frame: UiArea)
    requires
        frame.x + frame.width <= u16::MAX,
        frame.y + frame.height <= u16::MAX,
    ensures
        ({
            let panes = panes_in(frame);
            &&& panes.units.x == frame.x && panes.units.y == frame.y
            &&& panes.log.x == frame.x + panes.units.width && panes.log.y == frame.y
            &&& panes.units.height == panes.log.height
            &&& panes.units.width + panes.log.width == frame.width
            &&& panes.footer.x == frame.x && panes.footer.width == frame.width
            &&& panes.footer.y == frame.y + panes.units.height
            &&& panes.units.height + panes.footer.height == frame.height
            &&& panes.footer.height == draw::least(1, frame.height as int)
            &&& panes.units.width == draw::least(UNITS_WIDTH as int, frame.width as int)
        }),
{
}

/// A box of `width` by `height` in the middle of `area`, clamped to it.
pub open spec fn in_the_middle(area: UiArea, width: u16, height: u16) -> UiArea {
    let width = draw::least(width as int, area.width as int);
    let height = draw::least(height as int, area.height as int);
    UiArea {
        x: draw::counted(area.x + (area.width - width) / 2),
        y: draw::counted(area.y + (area.height - height) / 2),
        width: width as u16,
        height: height as u16,
    }
}

/// A box of `width` by `height` in the middle of `area`, clamped to it — a
/// popup hanging off the frame is a popup missing a border.
pub fn centered(area: UiArea, width: u16, height: u16) -> (middle: UiArea)
    ensures
        middle == in_the_middle(area, width, height),
{
    let width = if width < area.width {
        width
    } else {
        area.width
    };
    let height = if height < area.height {
        height
    } else {
        area.height
    };
    UiArea {
        x: area.x.saturating_add((area.width - width) / 2),
        y: area.y.saturating_add((area.height - height) / 2),
        width,
        height,
    }
}

/// A centred box is inside what it is centred in, and as far from one side as
/// from the other, give or take one.
pub proof fn a_centred_box_is_inside(area: UiArea, width: u16, height: u16)
    requires
        area.x + area.width <= u16::MAX,
        area.y + area.height <= u16::MAX,
    ensures
        ({
            let middle = in_the_middle(area, width, height);
            &&& area.x <= middle.x
            &&& area.y <= middle.y
            &&& middle.x + middle.width <= area.x + area.width
            &&& middle.y + middle.height <= area.y + area.height
            &&& 0 <= (area.x + area.width - middle.x - middle.width) - (middle.x - area.x) <= 1
            &&& 0 <= (area.y + area.height - middle.y - middle.height) - (middle.y - area.y) <= 1
        }),
{
}

/// The bindings the footer lists, in the order it lists them: the symbol that
/// names each key, and the text that says what it does.
pub open spec fn hint_pairs(theme: UiTheme) -> Seq<(Seq<char>, Seq<char>)> {
    seq![
        (theme.symbols.statusbar_move@, theme.texts.statusbar_move@),
        (theme.symbols.statusbar_panel@, theme.texts.statusbar_panel@),
        (theme.symbols.statusbar_actions@, theme.texts.statusbar_actions@),
        (theme.symbols.statusbar_start@, theme.texts.statusbar_start@),
        (theme.symbols.statusbar_stop@, theme.texts.statusbar_stop@),
        (theme.symbols.statusbar_scroll@, theme.texts.statusbar_scroll@),
        (theme.symbols.statusbar_follow@, theme.texts.statusbar_follow@),
        (theme.symbols.statusbar_quit@, theme.texts.statusbar_quit@),
    ]
}

/// One binding as pieces: the key in its colour, then quietly what it does,
/// with a gap after each.
pub open spec fn hint_pieces(theme: UiTheme, pair: (Seq<char>, Seq<char>)) -> Seq<PieceText> {
    let key = UiStyle::spec_colored(theme.colors.statusbar_key);
    let what = UiStyle::spec_dim();
    seq![
        PieceText { text: pair.0, style: key, fit: UiFit::Cut },
        PieceText { text: " "@, style: key, fit: UiFit::Cut },
        PieceText { text: pair.1, style: what, fit: UiFit::Cut },
        PieceText { text: "   "@, style: what, fit: UiFit::Cut },
    ]
}

/// The first `count` bindings as pieces.
pub open spec fn hints_pieces(theme: UiTheme, count: int) -> Seq<PieceText>
    decreases count,
{
    if count <= 0 {
        Seq::empty()
    } else {
        hints_pieces(theme, count - 1) + hint_pieces(theme, hint_pairs(theme)[count - 1])
    }
}

/// The footer on the screen: every binding, as far as there is room.
pub open spec fn with_hints(pen: PenView, theme: UiTheme, area: UiArea) -> PenView {
    let pieces = hints_pieces(theme, 8);
    draw::laid(
        pen,
        pieces,
        pieces.len() as int,
        draw::counted(area.x + 1),
        area.y,
        area.spec_right(),
        theme.symbols.ellipsis@,
    ).pen
}

/// Add one binding to a line.
fn push_hint<'a>(
    pieces: &mut Vec<UiPiece<'a>>,
    theme: &UiTheme,
    symbol: &'a str,
    what: &'a str,
)
    ensures
        draw::pieces_text(final(pieces)@) == draw::pieces_text(old(pieces)@) + hint_pieces(
            *theme,
            (symbol@, what@),
        ),
{
    let key = UiStyle::colored(theme.colors.statusbar_key);
    let dim = UiStyle::dim();
    pieces.push(UiPiece { text: symbol, style: key, fit: UiFit::Cut });
    pieces.push(UiPiece { text: " ", style: key, fit: UiFit::Cut });
    pieces.push(UiPiece { text: what, style: dim, fit: UiFit::Cut });
    pieces.push(UiPiece { text: "   ", style: dim, fit: UiFit::Cut });
    assert(draw::pieces_text(pieces@) =~= draw::pieces_text(old(pieces)@) + hint_pieces(
        *theme,
        (symbol@, what@),
    ));
}

/// The footer: what the keys do.
pub fn draw_hints(pen: &mut UiPen, theme: &UiTheme, area: UiArea)
    ensures
        final(pen)@ == with_hints(old(pen)@, *theme, area),
{
    let symbols = &theme.symbols;
    let texts = &theme.texts;
    let mut pieces: Vec<UiPiece<'_>> = Vec::new();
    assert(draw::pieces_text(pieces@) =~= Seq::empty());
    push_hint(&mut pieces, theme, symbols.statusbar_move.as_str(), texts.statusbar_move.as_str());
    push_hint(&mut pieces, theme, symbols.statusbar_panel.as_str(), texts.statusbar_panel.as_str());
    push_hint(
        &mut pieces,
        theme,
        symbols.statusbar_actions.as_str(),
        texts.statusbar_actions.as_str(),
    );
    push_hint(&mut pieces, theme, symbols.statusbar_start.as_str(), texts.statusbar_start.as_str());
    push_hint(&mut pieces, theme, symbols.statusbar_stop.as_str(), texts.statusbar_stop.as_str());
    push_hint(
        &mut pieces,
        theme,
        symbols.statusbar_scroll.as_str(),
        texts.statusbar_scroll.as_str(),
    );
    push_hint(
        &mut pieces,
        theme,
        symbols.statusbar_follow.as_str(),
        texts.statusbar_follow.as_str(),
    );
    push_hint(&mut pieces, theme, symbols.statusbar_quit.as_str(), texts.statusbar_quit.as_str());
    proof {
        reveal_with_fuel(hints_pieces, 9);
        assert(draw::pieces_text(pieces@) == hints_pieces(*theme, 8));
    }
    pen.lay(theme, &pieces, area.x.saturating_add(1), area.y, area.right());
}

/// The log pane's two left hand corners as the joints they are.
pub open spec fn with_joints(pen: PenView, theme: UiTheme, log: UiArea) -> PenView {
    pen.with(
        DrawView::Cell {
            x: log.x,
            y: log.y,
            symbol: theme.symbols.join_top@,
            painted: None,
        },
    ).with(
        DrawView::Cell {
            x: log.x,
            y: draw::left_of(log.spec_bottom() as int, 1) as u16,
            symbol: theme.symbols.join_bottom@,
            painted: None,
        },
    )
}

/// Turn the log pane's two left hand corners into the joints they are.
///
/// The panes share one wall rather than standing two of them next to each
/// other: a double rule down the middle of the screen is the first thing the
/// eye catches, and it means nothing.
pub fn join_borders(pen: &mut UiPen, theme: &UiTheme, log: UiArea)
    ensures
        final(pen)@ == with_joints(old(pen)@, *theme, log),
{
    pen.draw(
        UiDraw::Cell {
            x: log.x,
            y: log.y,
            symbol: theme.symbols.join_top.clone(),
            painted: None,
        },
    );
    pen.draw(
        UiDraw::Cell {
            x: log.x,
            y: log.bottom().saturating_sub(1),
            symbol: theme.symbols.join_bottom.clone(),
            painted: None,
        },
    );
}

/// The frame the panes are drawn in.
///
/// Holds what a screen must remember between frames and nothing else: the
/// pane states and the theme.
pub struct UiRender<E> {
    units: UiRenderUnitsState,
    log: UiRenderLogState,
    menu: UiRenderMenuState<E>,
    theme: UiTheme,
}

/// What a screen remembers between frames.
pub struct RenderView<E> {
    pub units: UnitsStateView,
    pub log: LogStateView,
    pub menu: MenuView<E>,
    pub theme: UiTheme,
}

impl<E> View for UiRender<E> {
    type V = RenderView<E>;

    closed spec fn view(&self) -> RenderView<E> {
        RenderView {
            units: self.units@,
            log: self.log@,
            menu: self.menu@,
            theme: self.theme,
        }
    }
}

/// The unit the cursor is on, if there is one.
pub open spec fn selected(units: Seq<UnitRow>, cursor: int) -> Option<UnitRow> {
    if 0 <= cursor < units.len() {
        Some(units[cursor])
    } else {
        None
    }
}

/// What a frame shows, and what the screen remembers after.
pub struct FrameDrawn<E> {
    pub pen: PenView,
    pub render: RenderView<E>,
}

/// A frame, in panes: the footer, the log, the units, the joints between the
/// two, and the menu over the top if it is open.
pub open spec fn frame_in<E>(
    render: RenderView<E>,
    frame: UiArea,
    panes: UiPanes,
    units: Seq<UnitRow>,
    lines: Seq<LogLineView>,
    line_start: int,
) -> FrameDrawn<E> {
    let theme = render.theme;
    let pen = PenView { right: frame.spec_right(), draws: Seq::empty() };
    let hinted = with_hints(pen, theme, panes.footer);
    let logged = log::with_log(
        hinted,
        theme,
        selected(units, render.units.cursor),
        lines,
        line_start,
        render.log.scroll,
        panes.log,
    );
    let inside = log::text_area(panes.log.spec_inner(true));
    let listed = units::with_units(logged, theme, units, panes.units, render.units);
    let joined = with_joints(listed.pen, theme, panes.log);
    let popped = if render.menu.key is Some {
        menu::with_menu(
            joined,
            theme,
            render.menu,
            in_the_middle(
                frame,
                draw::counted(menu::menu_width(render.menu, theme)),
                draw::counted(menu::menu_height(render.menu)),
            ),
        )
    } else {
        joined
    };
    FrameDrawn {
        pen: popped,
        render: RenderView {
            units: listed.state,
            log: LogStateView { rows: inside.height, columns: inside.width, ..render.log },
            ..render
        },
    }
}

impl<E: Copy> UiRender<E> {
    /// Whether the menu's cursor is where it can be.
    pub open spec fn wf(self) -> bool {
        self@.menu.wf()
    }

    /// A screen showing the first unit, following the end of its log, drawn
    /// the way `theme` says.
    pub fn new(theme: UiTheme) -> (render: Self)
        ensures
            render.wf(),
            render@ == (RenderView::<E> {
                units: UnitsStateView { cursor: 0, main_offset: 0, minor_offset: 0 },
                log: LogStateView { scroll: 0, rows: 0, columns: 0 },
                menu: MenuView { key: None, title: Seq::empty(), items: Seq::empty(), cursor: 0 },
                theme,
            }),
    {
        UiRender {
            units: UiRenderUnitsState::new(),
            log: UiRenderLogState::new(),
            menu: UiRenderMenuState::new(),
            theme,
        }
    }

    /// Draw one frame in some panes: the units on the left, their log on the
    /// right, and a line at the bottom.
    pub fn draw_in(
        &mut self,
        frame: UiArea,
        panes: UiPanes,
        units: &Vec<ViewUnit>,
        log: Option<UiLog<'_>>,
    ) -> (draws: Vec<UiDraw>)
        requires
            units::by_panel(view::rows(units@)),
            log matches Some(log) ==> forall|i: int|
                0 <= i < log.lines@.len() ==> (#[trigger] log.lines@[i])@.wf(),
        ensures
            ({
                let lines = match log {
                    Some(log) => log::line_views(log.lines@),
                    None => Seq::empty(),
                };
                let line_start = match log {
                    Some(log) => log.region.line_start as int,
                    None => 0,
                };
                let drawn = frame_in(
                    old(self)@,
                    frame,
                    panes,
                    view::rows(units@),
                    lines,
                    line_start,
                );
                &&& Seq::new(draws@.len(), |i: int| draws@[i]@) == drawn.pen.draws
                &&& final(self)@ == drawn.render
            }),
    {
        let mut pen = UiPen::new(frame.right());
        draw_hints(&mut pen, &self.theme, panes.footer);
        let cursor = self.units.cursor();
        let unit = if cursor < units.len() {
            Some(&units[cursor])
        } else {
            None
        };
        let none: Vec<LogLine> = Vec::new();
        assert(log::line_views(none@) =~= Seq::empty());
        let (lines, line_start): (&Vec<LogLine>, usize) = match log {
            Some(log) => (log.lines, log.region.line_start),
            None => (&none, 0),
        };
        log::render(&mut pen, &self.theme, unit, lines, line_start, panes.log, &mut self.log);
        units::render(&mut pen, &self.theme, units, panes.units, &mut self.units);
        join_borders(&mut pen, &self.theme, panes.log);
        // Last, because it goes over both panes. Centred rather than pinned
        // to the row it acts on: the title says which unit it is for.
        if self.menu.is_open() {
            let (width, height) = self.menu.size(&self.theme);
            menu::render(&mut pen, &self.theme, &self.menu, centered(frame, width, height));
        }
        pen.draws()
    }

    /// Draw one frame.
    pub fn draw(&mut self, frame: UiArea, units: &Vec<ViewUnit>, log: Option<UiLog<'_>>) -> (draws:
        Vec<UiDraw>)
        requires
            units::by_panel(view::rows(units@)),
            log matches Some(log) ==> forall|i: int|
                0 <= i < log.lines@.len() ==> (#[trigger] log.lines@[i])@.wf(),
        ensures
            ({
                let lines = match log {
                    Some(log) => log::line_views(log.lines@),
                    None => Seq::empty(),
                };
                let line_start = match log {
                    Some(log) => log.region.line_start as int,
                    None => 0,
                };
                let drawn = frame_in(
                    old(self)@,
                    frame,
                    panes_in(frame),
                    view::rows(units@),
                    lines,
                    line_start,
                );
                &&& Seq::new(draws@.len(), |i: int| draws@[i]@) == drawn.pen.draws
                &&& final(self)@ == drawn.render
            }),
    {
        let panes = areas(frame);
        self.draw_in(frame, panes, units, log)
    }

    /// The unit the cursor is on.
    pub fn selected_unit<'a>(&self, units: &'a Vec<ViewUnit>) -> (unit: Option<&'a ViewUnit>)
        ensures
            match unit {
                Some(unit) => selected(view::rows(units@), self@.units.cursor) == Some(unit@),
                None => selected(view::rows(units@), self@.units.cursor) is None,
            },
    {
        let cursor = self.units.cursor();
        if cursor < units.len() {
            Some(&units[cursor])
        } else {
            None
        }
    }

    /// Move the cursor, and put the log pane back at the end.
    pub fn select(&mut self, movement: Move, units: usize)
        ensures
            final(self)@ == (RenderView {
                units: UnitsStateView {
                    cursor: units::stepped(old(self)@.units.cursor, movement, units as int),
                    ..old(self)@.units
                },
                log: LogStateView { scroll: 0, ..old(self)@.log },
                ..old(self)@
            }),
    {
        self.units.select(movement, units);
        self.log.follow();
    }

    /// Jump to the top of the other list, which is a different unit selected —
    /// so the log pane goes back to the end, as it does for any other move.
    pub fn focus_other(&mut self, units: &Vec<ViewUnit>)
        requires
            units::by_panel(view::rows(units@)),
        ensures
            final(self)@ == (RenderView {
                units: UnitsStateView {
                    cursor: units::other_list(
                        old(self)@.units.cursor,
                        units::leading_main(view::rows(units@)),
                        units@.len() as int,
                    ),
                    ..old(self)@.units
                },
                log: LogStateView { scroll: 0, ..old(self)@.log },
                ..old(self)@
            }),
    {
        self.units.focus_other(minor_start(units), units.len());
        self.log.follow();
    }

    /// Scroll the log pane back by `lines`, or forward by a negative number.
    pub fn scroll_log_lines(&mut self, lines: isize)
        ensures
            final(self)@ == (RenderView {
                log: LogStateView {
                    scroll: log::scrolled(old(self)@.log.scroll, lines as int),
                    ..old(self)@.log
                },
                ..old(self)@
            }),
    {
        self.log.scroll_lines(lines);
    }

    /// Scroll the log pane back by `pages`, or forward by a negative number.
    pub fn scroll_log_pages(&mut self, pages: isize)
        ensures
            final(self)@ == (RenderView {
                log: LogStateView {
                    scroll: log::scrolled(
                        old(self)@.log.scroll,
                        log::held_to_isize(pages * old(self)@.log.page()),
                    ),
                    ..old(self)@.log
                },
                ..old(self)@
            }),
    {
        self.log.scroll_pages(pages);
    }

    /// Put the log pane back at the end and follow it again.
    pub fn follow_log(&mut self)
        ensures
            final(self)@ == (RenderView {
                log: LogStateView { scroll: 0, ..old(self)@.log },
                ..old(self)@
            }),
    {
        self.log.follow();
    }

    /// Whether the lines the log pane wants are still counted.
    pub fn is_log_counted(&self) -> (counted: bool)
        ensures
            counted == (self@.log.scroll + self@.log.rows + log::LOG_MARGIN <= usize::MAX),
    {
        self.log.is_counted()
    }

    /// The rectangle the log pane wants.
    pub fn log_region(&self) -> (region: LogRegion)
        requires
            self@.log.scroll + self@.log.rows + log::LOG_MARGIN <= usize::MAX,
        ensures
            region == self@.log.wants(),
    {
        self.log.region()
    }

    /// Pull the log scroll back to what the client actually found.
    pub fn clamp_log(&mut self, held: usize)
        ensures
            final(self)@ == (RenderView {
                log: LogStateView {
                    scroll: draw::least(
                        old(self)@.log.scroll as int,
                        draw::left_of(held as int, old(self)@.log.rows as int),
                    ) as usize,
                    ..old(self)@.log
                },
                ..old(self)@
            }),
    {
        self.log.clamp(held);
    }

    /// Whether the menu has the keys.
    pub fn menu_open(&self) -> (open: bool)
        ensures
            open == (self@.menu.key is Some),
    {
        self.menu.is_open()
    }

    /// The unit the menu is open for, if it is open.
    pub fn menu_key(&self) -> (key: Option<AppUnitKey>)
        ensures
            key == self@.menu.key,
    {
        self.menu.key()
    }

    /// Which row of the menu the cursor is on.
    pub fn menu_cursor(&self) -> (cursor: usize)
        ensures
            cursor == self@.menu.cursor,
    {
        self.menu.cursor()
    }

    /// Lend out the menu's entry buffer to be refilled. The cursor stays where
    /// it is, for [`refresh_menu`](Self::refresh_menu) to find.
    pub fn take_menu_items(&mut self) -> (items: Vec<UnitChoice<E>>)
        ensures
            items@ == old(self)@.menu.items,
            final(self)@ == (RenderView {
                menu: MenuView { items: Seq::empty(), ..old(self)@.menu },
                ..old(self)@
            }),
    {
        self.menu.take_items()
    }

    /// Put the menu's entries back, read again, with the cursor where it was
    /// if it can still be there.
    pub fn refresh_menu(&mut self, items: Vec<UnitChoice<E>>)
        ensures
            final(self).wf(),
            final(self)@ == (RenderView {
                menu: MenuView {
                    items: items@,
                    cursor: if menu::choosable(items@, old(self)@.menu.cursor) {
                        old(self)@.menu.cursor
                    } else {
                        menu::opening(items@)
                    },
                    ..old(self)@.menu
                },
                ..old(self)@
            }),
    {
        self.menu.refresh(items);
    }

    /// Open the menu over `key`, titled `title`, listing `items`.
    pub fn open_menu(&mut self, key: AppUnitKey, title: String, items: Vec<UnitChoice<E>>)
        ensures
            final(self).wf(),
            final(self)@ == (RenderView {
                menu: MenuView {
                    key: Some(key),
                    title: title@,
                    items: items@,
                    cursor: menu::opening(items@),
                },
                ..old(self)@
            }),
    {
        self.menu.open(key, title, items);
    }

    /// Give the keys back to the list.
    pub fn close_menu(&mut self)
        ensures
            final(self)@ == (RenderView {
                menu: MenuView { key: None, ..old(self)@.menu },
                ..old(self)@
            }),
            old(self).wf() ==> final(self).wf(),
    {
        self.menu.close();
    }

    /// Move the menu cursor to the next entry that can be chosen.
    pub fn select_menu(&mut self, movement: Move)
        requires
            movement is Previous ==> old(self)@.menu.cursor <= old(self)@.menu.items.len() + 1,
        ensures
            old(self).wf() ==> final(self).wf(),
            final(self)@ == (RenderView {
                menu: MenuView {
                    cursor: old(self)@.menu.moved(movement),
                    ..old(self)@.menu
                },
                ..old(self)@
            }),
    {
        self.menu.select(movement);
    }

    /// What choosing from the menu comes to.
    pub fn menu_choice(&self) -> (choice: UiMenuChoice<E>)
        ensures
            choice == match self@.menu.key {
                Some(unit) => if 0 <= self@.menu.cursor < self@.menu.items.len()
                    && self@.menu.items[self@.menu.cursor].enabled {
                    UiMenuChoice::Send { unit, event: self@.menu.items[self@.menu.cursor].event }
                } else {
                    UiMenuChoice::Cancel
                },
                None => UiMenuChoice::Cancel,
            },
    {
        self.menu.chosen()
    }
}

proof fn lemma_hint(theme: UiTheme, count: int, i: int)
    requires
        0 <= i < count <= 8,
    ensures
        ({
            let pieces = hints_pieces(theme, count);
            let pair = hint_pairs(theme)[i];
            &&& pieces.len() == 4 * count
            &&& pieces[4 * i] == (PieceText {
                text: pair.0,
                style: UiStyle::spec_colored(theme.colors.statusbar_key),
                fit: UiFit::Cut,
            })
            &&& pieces[4 * i + 2] == (PieceText {
                text: pair.1,
                style: UiStyle::spec_dim(),
                fit: UiFit::Cut,
            })
        }),
    decreases count,
{
    if count == 1 {
        assert(hints_pieces(theme, 0) =~= Seq::empty());
    } else if i < count - 1 {
        lemma_hint(theme, count - 1, i);
    } else {
        lemma_hint(theme, count - 1, 0);
    }
}

/// Whether a screen says in row `y` what a key does.
pub open spec fn hints_at(
    pen: PenView,
    theme: UiTheme,
    y: u16,
    key: Seq<char>,
    what: Seq<char>,
) -> bool {
    &&& draw::tells(pen, y, key, UiStyle::spec_colored(theme.colors.statusbar_key))
    &&& draw::tells(pen, y, what, UiStyle::spec_dim())
}

proof fn lemma_hinted(pen: PenView, theme: UiTheme, area: UiArea, i: int)
    requires
        0 <= i < 8,
    ensures
        hints_at(
            with_hints(pen, theme, area),
            theme,
            area.y,
            hint_pairs(theme)[i].0,
            hint_pairs(theme)[i].1,
        ),
{
    let pieces = hints_pieces(theme, 8);
    lemma_hint(theme, 8, i);
    draw::every_piece_of_a_line_is_told(
        pen,
        pieces,
        pieces.len() as int,
        draw::counted(area.x + 1),
        area.y,
        area.spec_right(),
        theme.symbols.ellipsis@,
    );
    let after = with_hints(pen, theme, area);
    assert(draw::tells(after, area.y, pieces[4 * i].text, pieces[4 * i].style));
    assert(draw::tells(after, area.y, pieces[4 * i + 2].text, pieces[4 * i + 2].style));
}

/// The footer says of every key there is what it does.
pub proof fn the_footer_names_every_key(pen: PenView, theme: UiTheme, area: UiArea)
    ensures
        ({
            let after = with_hints(pen, theme, area);
            let y = area.y;
            let (keys, texts) = (theme.symbols, theme.texts);
            &&& hints_at(after, theme, y, keys.statusbar_move@, texts.statusbar_move@)
            &&& hints_at(after, theme, y, keys.statusbar_panel@, texts.statusbar_panel@)
            &&& hints_at(after, theme, y, keys.statusbar_actions@, texts.statusbar_actions@)
            &&& hints_at(after, theme, y, keys.statusbar_start@, texts.statusbar_start@)
            &&& hints_at(after, theme, y, keys.statusbar_stop@, texts.statusbar_stop@)
            &&& hints_at(after, theme, y, keys.statusbar_scroll@, texts.statusbar_scroll@)
            &&& hints_at(after, theme, y, keys.statusbar_follow@, texts.statusbar_follow@)
            &&& hints_at(after, theme, y, keys.statusbar_quit@, texts.statusbar_quit@)
        }),
{
    lemma_hinted(pen, theme, area, 0);
    lemma_hinted(pen, theme, area, 1);
    lemma_hinted(pen, theme, area, 2);
    lemma_hinted(pen, theme, area, 3);
    lemma_hinted(pen, theme, area, 4);
    lemma_hinted(pen, theme, area, 5);
    lemma_hinted(pen, theme, area, 6);
    lemma_hinted(pen, theme, area, 7);
}

/// A frame has every pane on it: the footer with its keys, the log of the unit
/// the cursor is on under that unit's name, and that unit in the list. The
/// screen remembers how much room there was for the log.
#[verifier::rlimit(60)]
pub proof fn a_frame_shows_the_unit_it_is_on<E>(
    render: RenderView<E>,
    frame: UiArea,
    panes: UiPanes,
    units: Seq<UnitRow>,
    lines: Seq<LogLineView>,
    line_start: int,
)
    requires
        units::by_panel(units),
        0 <= render.units.cursor < units.len(),
        0 <= render.units.main_offset,
        0 <= render.units.minor_offset,
        panes.units.height >= 7,
        panes.units.y + panes.units.height <= u16::MAX,
        panes.log.width >= 4,
        panes.log.height >= 2,
    ensures
        ({
            let after = frame_in(render, frame, panes, units, lines, line_start);
            let (pen, theme) = (after.pen, render.theme);
            let unit = units[render.units.cursor];
            let minor = unit.panel == ConfigPanel::Minor;
            let (quit, what) = (theme.symbols.statusbar_quit@, theme.texts.statusbar_quit@);
            &&& hints_at(pen, theme, panes.footer.y, quit, what)
            &&& draw::tells(pen, panes.log.y, unit.name, UiStyle::spec_bold())
            &&& units::shows_inside(pen, theme, unit, panes.units, true, minor)
            &&& after.render.units.cursor == render.units.cursor
            &&& after.render.log.scroll == render.log.scroll
            &&& after.render.log.rows == panes.log.height - 2
            &&& after.render.log.columns == panes.log.width - 4
            &&& after.render.menu == render.menu
            &&& after.render.theme == render.theme
        }),
{
    let after = frame_in(render, frame, panes, units, lines, line_start);
    let theme = render.theme;
    let unit = units[render.units.cursor];
    let pen = PenView { right: frame.spec_right(), draws: Seq::empty() };
    let hinted = with_hints(pen, theme, panes.footer);
    let scroll = render.log.scroll;
    let logged = log::with_log(
        hinted,
        theme,
        Some(unit),
        lines,
        line_start,
        scroll,
        panes.log,
    );
    let listed = units::with_units(logged, theme, units, panes.units, render.units);
    let joined = with_joints(listed.pen, theme, panes.log);
    lemma_hinted(pen, theme, panes.footer, 7);
    log::a_log_pane_says_whose_log_it_is(
        hinted,
        theme,
        Some(unit),
        lines,
        line_start,
        scroll,
        panes.log,
    );
    units::the_units_pane_takes_nothing_away(logged, theme, units, panes.units, render.units);
    units::the_unit_under_the_cursor_is_on_the_screen(
        logged,
        theme,
        units,
        panes.units,
        render.units,
    );
    let middle = in_the_middle(
        frame,
        draw::counted(menu::menu_width(render.menu, theme)),
        draw::counted(menu::menu_height(render.menu)),
    );
    menu::a_menu_takes_nothing_away(joined, theme, render.menu, middle);
    assert(draw::stays(listed.pen, after.pen));
    assert(draw::stays(logged, after.pen));
    assert(draw::stays(hinted, after.pen));
    let quit = theme.symbols.statusbar_quit@;
    let what = theme.texts.statusbar_quit@;
    let key = UiStyle::spec_colored(theme.colors.statusbar_key);
    let y = panes.footer.y;
    draw::what_is_told_stays_told(hinted, after.pen, y, quit, key);
    draw::what_is_told_stays_told(hinted, after.pen, y, what, UiStyle::spec_dim());
    draw::what_is_told_stays_told(
        logged,
        after.pen,
        panes.log.y,
        unit.name,
        UiStyle::spec_bold(),
    );
    units::a_unit_stays_shown(
        listed.pen,
        after.pen,
        theme,
        unit,
        panes.units,
        true,
        unit.panel == ConfigPanel::Minor,
    );
}

/// A menu is drawn where it is open, in the middle of the frame, after all
/// else; and where it is closed a frame is the panes alone.
pub proof fn a_menu_is_over_everything_else<E>(
    render: RenderView<E>,
    frame: UiArea,
    panes: UiPanes,
    units: Seq<UnitRow>,
    lines: Seq<LogLineView>,
    line_start: int,
)
    ensures
        ({
            let shut = RenderView { menu: MenuView { key: None, ..render.menu }, ..render };
            let under = frame_in(shut, frame, panes, units, lines, line_start).pen;
            let over = frame_in(render, frame, panes, units, lines, line_start).pen;
            &&& draw::stays(under, over)
            &&& render.menu.key is None ==> over == under
            &&& render.menu.key is Some ==> menu::offers(
                over,
                in_the_middle(
                    frame,
                    draw::counted(menu::menu_width(render.menu, render.theme)),
                    draw::counted(menu::menu_height(render.menu)),
                ).y,
                render.menu.title,
                true,
                false,
            )
        }),
{
    let shut = RenderView { menu: MenuView { key: None, ..render.menu }, ..render };
    let under = frame_in(shut, frame, panes, units, lines, line_start).pen;
    let middle = in_the_middle(
        frame,
        draw::counted(menu::menu_width(render.menu, render.theme)),
        draw::counted(menu::menu_height(render.menu)),
    );
    menu::a_menu_takes_nothing_away(under, render.theme, render.menu, middle);
}

/// The panes are joined where their walls meet: the log pane's two left hand
/// corners are the joints, the one at its top and the one at its bottom.
pub proof fn the_panes_are_joined(pen: PenView, theme: UiTheme, log: UiArea)
    requires
        log.y + log.height <= u16::MAX,
        log.height > 0,
    ensures
        ({
            let after = with_joints(pen, theme, log);
            &&& draw::stays(pen, after)
            &&& after.draws.contains(
                DrawView::Cell {
                    x: log.x,
                    y: log.y,
                    symbol: theme.symbols.join_top@,
                    painted: None,
                },
            )
            &&& after.draws.contains(
                DrawView::Cell {
                    x: log.x,
                    y: (log.y + log.height - 1) as u16,
                    symbol: theme.symbols.join_bottom@,
                    painted: None,
                },
            )
        }),
{
    let after = with_joints(pen, theme, log);
    let count = pen.draws.len() as int;
    let top = after.draws[count];
    let bottom = after.draws[count + 1];
    assert(after.draws.contains(top) && after.draws.contains(bottom));
}

} // verus!
