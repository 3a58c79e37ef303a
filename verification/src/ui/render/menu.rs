//! The action menu: what can be asked of one unit, over the top of the rest.

use super::units::Move;
use crate::app::AppUnitKey;
use crate::ui::draw;
use crate::ui::draw::{
    columns_of, DrawView, PenView, PieceText, UiArea, UiDraw, UiFit, UiPen, UiPiece,
    UiStyle,
};
use crate::ui::theme::{UiColor, UiTheme};
use crate::unit::UnitChoice;
use crate::util::text;
use vstd::prelude::*;
use vstd::string::*;

verus! {

/// Clear space inside the border, so the box does not read as cramped.
pub const MENU_PAD_X: u16 = 2;

/// The same, above and below.
pub const MENU_PAD_Y: u16 = 1;

/// The narrowest the menu may be, so that every one of them is the same
/// object rather than a box shrunk to fit the word `Stop`.
pub const MENU_MIN_WIDTH: u16 = 28;

/// A blank row before the way out, so it is not what you hit aiming at
/// `Stop`.
pub const MENU_CANCEL_GAP: u16 = 1;

/// What the menu is showing, and which row the cursor is on.
pub struct UiRenderMenuState<E> {
    /// The unit it is open for, `None` when closed. Kept rather than re-read
    /// from the selection, which a resize can move underneath it.
    key: Option<AppUnitKey>,
    /// What that unit is called, for the title.
    title: String,
    /// The entries, kept across a close so the next open refills them.
    items: Vec<UnitChoice<E>>,
    /// Which row: an entry, or the way out at `items.len()`.
    cursor: usize,
}

/// A menu: the unit it is open for, its title, its entries, and the cursor.
#[verifier::ext_equal]
pub struct MenuView<E> {
    pub key: Option<AppUnitKey>,
    pub title: Seq<char>,
    pub items: Seq<UnitChoice<E>>,
    pub cursor: int,
}

/// What choosing an entry comes to.
///
/// Not an `Option`, because closing is an answer and not the absence of one.
#[derive(PartialEq, Eq, Debug)]
pub enum UiMenuChoice<E> {
    /// Send this to the unit, and close.
    Send { unit: AppUnitKey, event: E },
    /// Close, and ask for nothing.
    Cancel,
}

impl<E> View for UiRenderMenuState<E> {
    type V = MenuView<E>;

    closed spec fn view(&self) -> MenuView<E> {
        MenuView {
            key: self.key,
            title: self.title@,
            items: self.items@,
            cursor: self.cursor as int,
        }
    }
}

/// Whether the cursor may be on row `at`: the way out, or an entry that can be
/// chosen.
pub open spec fn choosable<E>(items: Seq<UnitChoice<E>>, at: int) -> bool {
    at == items.len() || (0 <= at < items.len() && items[at].enabled)
}

/// The first entry from `at` on that can be chosen — and is the mode the unit
/// is on, if `current` — or the number of entries if there is none.
pub open spec fn first_enabled<E>(items: Seq<UnitChoice<E>>, at: int, current: bool) -> int
    decreases items.len() - at,
{
    if at >= items.len() {
        items.len() as int
    } else if items[at].enabled && (!current || items[at].current) {
        at
    } else {
        first_enabled(items, at + 1, current)
    }
}

/// Where the cursor starts: on the mode the unit is already on, so two
/// presses run what the row was offering; failing that the first entry that
/// can be chosen, failing that the way out.
pub open spec fn opening<E>(items: Seq<UnitChoice<E>>) -> int {
    let current = first_enabled(items, 0, true);
    if current < items.len() {
        current
    } else {
        first_enabled(items, 0, false)
    }
}

/// The last row before `at` the cursor may be on, or `otherwise` if there is
/// none.
pub open spec fn last_enabled<E>(items: Seq<UnitChoice<E>>, at: int, otherwise: int) -> int
    decreases at,
{
    if at <= 0 {
        otherwise
    } else if choosable(items, at - 1) {
        at - 1
    } else {
        last_enabled(items, at - 1, otherwise)
    }
}

impl<E> MenuView<E> {
    /// Whether the cursor is on a row that can be chosen.
    pub open spec fn wf(self) -> bool {
        choosable(self.items, self.cursor)
    }

    /// Where a move takes the cursor: to the next row that can be chosen,
    /// stepping over those that cannot. Neither end wraps.
    pub open spec fn moved(self, movement: Move) -> int {
        match movement {
            Move::Next => if self.cursor < self.items.len() {
                first_enabled(self.items, self.cursor + 1, false)
            } else {
                self.cursor
            },
            Move::Previous => last_enabled(self.items, self.cursor, self.cursor),
        }
    }
}

proof fn lemma_first_enabled<E>(items: Seq<UnitChoice<E>>, at: int, current: bool)
    requires
        0 <= at <= items.len(),
    ensures
        at <= first_enabled(items, at, current) <= items.len(),
        choosable(items, first_enabled(items, at, current)),
    decreases items.len() - at,
{
    if at < items.len() && !(items[at].enabled && (!current || items[at].current)) {
        lemma_first_enabled(items, at + 1, current);
    }
}

fn find_enabled<E>(items: &Vec<UnitChoice<E>>, start: usize, current: bool) -> (at: usize)
    requires
        start <= items@.len(),
    ensures
        at == first_enabled(items@, start as int, current),
        start <= at <= items@.len(),
        choosable(items@, at as int),
{
    proof {
        lemma_first_enabled(items@, start as int, current);
    }
    let mut at = start;
    while at < items.len() && !(items[at].enabled && (!current || items[at].current))
        invariant
            start <= at <= items@.len(),
            first_enabled(items@, start as int, current) == first_enabled(
                items@,
                at as int,
                current,
            ),
        ensures
            at == first_enabled(items@, start as int, current),
        decreases items@.len() - at,
    {
        at = at + 1;
    }
    at
}

fn open_at<E>(items: &Vec<UnitChoice<E>>) -> (at: usize)
    ensures
        at == opening(items@),
        choosable(items@, at as int),
{
    let current = find_enabled(items, 0, true);
    if current < items.len() {
        current
    } else {
        find_enabled(items, 0, false)
    }
}

impl<E: Copy> UiRenderMenuState<E> {
    /// A menu that is closed.
    pub fn new() -> (state: Self)
        ensures
            state@ == (MenuView::<E> {
                key: None,
                title: Seq::empty(),
                items: Seq::empty(),
                cursor: 0,
            }),
            state@.wf(),
    {
        let state = UiRenderMenuState {
            key: None,
            title: String::new(),
            items: Vec::new(),
            cursor: 0,
        };
        assert(state@.items =~= Seq::empty());
        state
    }

    /// Whether the menu has the keys.
    pub fn is_open(&self) -> (open: bool)
        ensures
            open == (self@.key is Some),
    {
        self.key.is_some()
    }

    /// The unit it is open for, if it is open.
    pub fn key(&self) -> (key: Option<AppUnitKey>)
        ensures
            key == self@.key,
    {
        self.key
    }

    /// Lend out the entry buffer to be refilled, keeping its capacity. The
    /// cursor stays where it is, for [`refresh`](Self::refresh) to find.
    pub fn take_items(&mut self) -> (items: Vec<UnitChoice<E>>)
        ensures
            items@ == old(self)@.items,
            final(self)@ == (MenuView { items: Seq::empty(), ..old(self)@ }),
    {
        let mut items: Vec<UnitChoice<E>> = Vec::new();
        std::mem::swap(&mut items, &mut self.items);
        assert(self@.items =~= Seq::empty());
        items
    }

    /// Open it over `key`, titled `title`, listing `items`.
    ///
    /// The cursor never lands on an entry that cannot be chosen, so choosing
    /// is never a press that does nothing.
    pub fn open(&mut self, key: AppUnitKey, title: String, items: Vec<UnitChoice<E>>)
        ensures
            final(self)@ == (MenuView {
                key: Some(key),
                title: title@,
                items: items@,
                cursor: opening(items@),
            }),
            final(self)@.wf(),
    {
        self.cursor = open_at(&items);
        self.items = items;
        self.title = title;
        self.key = Some(key);
    }

    /// Put the entries back, read again, with the cursor where it was if it
    /// can still be there, and where the menu would open otherwise.
    pub fn refresh(&mut self, items: Vec<UnitChoice<E>>)
        ensures
            final(self)@ == (MenuView {
                items: items@,
                cursor: if choosable(items@, old(self)@.cursor) {
                    old(self)@.cursor
                } else {
                    opening(items@)
                },
                ..old(self)@
            }),
            final(self)@.wf(),
    {
        let at = self.cursor;
        if !(at == items.len() || (at < items.len() && items[at].enabled)) {
            self.cursor = open_at(&items);
        }
        self.items = items;
    }

    /// Which row the cursor is on.
    pub fn cursor(&self) -> (cursor: usize)
        ensures
            cursor == self@.cursor,
    {
        self.cursor
    }

    /// Give the keys back, keeping the buffer.
    pub fn close(&mut self)
        ensures
            final(self)@ == (MenuView { key: None, ..old(self)@ }),
    {
        self.key = None;
    }

    /// Move to the next row that can be chosen, stepping over the disabled
    /// ones. Neither end wraps. There is nothing to move back over while the
    /// entries are lent out.
    pub fn select(&mut self, movement: Move)
        requires
            movement is Previous ==> old(self)@.cursor <= old(self)@.items.len() + 1,
        ensures
            final(self)@ == (MenuView { cursor: old(self)@.moved(movement), ..old(self)@ }),
            old(self)@.wf() ==> final(self)@.wf(),
    {
        match movement {
            Move::Next => {
                if self.cursor < self.items.len() {
                    self.cursor = find_enabled(&self.items, self.cursor + 1, false);
                }
            },
            Move::Previous => {
                let mut at = self.cursor;
                while at > 0
                    invariant
                        *self == *old(self),
                        self@.cursor <= self@.items.len() + 1,
                        at <= self.cursor,
                        self@.moved(movement) == last_enabled(
                            self@.items,
                            at as int,
                            self@.cursor,
                        ),
                    decreases at,
                {
                    at = at - 1;
                    if at == self.items.len() || self.items[at].enabled {
                        self.cursor = at;
                        return ;
                    }
                }
            },
        }
    }

    /// What choosing means where the cursor is.
    pub fn chosen(&self) -> (choice: UiMenuChoice<E>)
        ensures
            choice == match self@.key {
                Some(unit) => if 0 <= self@.cursor < self@.items.len()
                    && self@.items[self@.cursor].enabled {
                    UiMenuChoice::Send { unit, event: self@.items[self@.cursor].event }
                } else {
                    UiMenuChoice::Cancel
                },
                None => UiMenuChoice::Cancel,
            },
    {
        match self.key {
            Some(unit) => if self.cursor < self.items.len() && self.items[self.cursor].enabled {
                UiMenuChoice::Send { unit, event: self.items[self.cursor].event }
            } else {
                UiMenuChoice::Cancel
            },
            None => UiMenuChoice::Cancel,
        }
    }
}

/// While the menu is open and its cursor is not on the way out, choosing asks
/// for something: it is never a press that does nothing.
pub proof fn a_choice_always_asks<E>(menu: MenuView<E>)
    requires
        menu.wf(),
        menu.cursor != menu.items.len(),
    ensures
        0 <= menu.cursor < menu.items.len(),
        menu.items[menu.cursor].enabled,
{
}

/// The menu opens on the mode the unit is on, if that can be chosen; and on
/// the way out only if nothing can be.
pub proof fn the_menu_opens_where_it_can<E>(items: Seq<UnitChoice<E>>, at: int)
    requires
        0 <= at < items.len(),
        items[at].enabled,
    ensures
        opening(items) < items.len(),
        items[opening(items)].enabled,
        items[at].current ==> items[opening(items)].current,
{
    lemma_first_found(items, 0, at, true);
    lemma_first_found(items, 0, at, false);
    lemma_first_enabled(items, 0, true);
    lemma_first_enabled(items, 0, false);
    lemma_first_current(items, 0);
}

proof fn lemma_first_found<E>(items: Seq<UnitChoice<E>>, start: int, at: int, current: bool)
    requires
        0 <= start <= at < items.len(),
        items[at].enabled,
    ensures
        !current || items[at].current ==> first_enabled(items, start, current) <= at,
    decreases at - start,
{
    if start < at && !(items[start].enabled && (!current || items[start].current)) {
        lemma_first_found(items, start + 1, at, current);
    }
}

proof fn lemma_first_current<E>(items: Seq<UnitChoice<E>>, start: int)
    requires
        0 <= start <= items.len(),
    ensures
        first_enabled(items, start, true) < items.len() ==> items[first_enabled(
            items,
            start,
            true,
        )].current,
    decreases items.len() - start,
{
    if start < items.len() && !(items[start].enabled && items[start].current) {
        lemma_first_current(items, start + 1);
    }
}

/// How many columns an entry takes.
pub open spec fn entry_columns<E>(item: UnitChoice<E>) -> int {
    draw::columns(item.verb@) + match item.mode {
        Some(mode) => draw::columns(" "@) + draw::columns(mode@),
        None => 0,
    }
}

/// How many columns the widest of the first `count` entries takes.
pub open spec fn widest<E>(items: Seq<UnitChoice<E>>, count: int) -> int
    decreases count,
{
    if count <= 0 {
        0
    } else {
        let before = widest(items, count - 1);
        let columns = entry_columns(items[count - 1]);
        if before < columns {
            columns
        } else {
            before
        }
    }
}

/// The larger of two.
pub open spec fn most(a: int, b: int) -> int {
    if a < b {
        b
    } else {
        a
    }
}

/// How wide a menu is: enough for the longest entry or the title, with
/// padding and border.
pub open spec fn menu_width<E>(menu: MenuView<E>, theme: UiTheme) -> int {
    let entries = most(
        widest(menu.items, menu.items.len() as int),
        draw::columns(theme.texts.cancel@) as int,
    );
    let row = entries + draw::columns(theme.symbols.cursor@) + 1 + 2 * MENU_PAD_X;
    most(most(row, draw::columns(menu.title) + 2), MENU_MIN_WIDTH as int) + 2
}

/// How tall it is: enough for all of the entries and the way out.
pub open spec fn menu_height<E>(menu: MenuView<E>) -> int {
    menu.items.len() + MENU_CANCEL_GAP + 1 + 2 * MENU_PAD_Y + 2
}

impl<E> UiRenderMenuState<E> {
    /// Wide enough for the longest entry or the title, tall enough for all
    /// of them, plus padding and border.
    ///
    /// Takes the theme because the cursor's column is as wide as the theme's
    /// mark, and a box measured without it is a box the entries hang out of.
    pub fn size(&self, theme: &UiTheme) -> (size: (u16, u16))
        ensures
            size.0 == draw::counted(menu_width(self@, *theme)),
            size.1 == draw::counted(menu_height(self@)),
    {
        let gap = columns_of(" ") as u128;
        let mut entries: u128 = 0;
        let mut i: usize = 0;
        while i < self.items.len()
            invariant
                i <= self.items@.len(),
                gap == draw::columns(" "@),
                entries == widest(self.items@, i as int),
                entries <= 3 * (usize::MAX as int),
            decreases self.items@.len() - i,
        {
            let item = &self.items[i];
            let mut columns = columns_of(item.verb.as_str()) as u128;
            if let Some(mode) = &item.mode {
                columns = columns + gap + columns_of(mode.as_str()) as u128;
            }
            if entries < columns {
                entries = columns;
            }
            i = i + 1;
        }
        let cancel = columns_of(theme.texts.cancel.as_str()) as u128;
        if entries < cancel {
            entries = cancel;
        }
        let cursor = columns_of(theme.symbols.cursor.as_str()) as u128;
        let mut width: u128 = entries + cursor + 1 + 2 * (MENU_PAD_X as u128);
        let title = columns_of(self.title.as_str()) as u128 + 2;
        if width < title {
            width = title;
        }
        if width < MENU_MIN_WIDTH as u128 {
            width = MENU_MIN_WIDTH as u128;
        }
        width = width + 2;
        let height: u128 = self.items.len() as u128 + MENU_CANCEL_GAP as u128 + 1 + 2 * (
        MENU_PAD_Y as u128) + 2;
        (
            if width > 0xffff {
                u16::MAX
            } else {
                width as u16
            },
            if height > 0xffff {
                u16::MAX
            } else {
                height as u16
            },
        )
    }
}

/// A row of the menu on the screen: the mark if the cursor is on it, then the
/// verb, then what it applies to.
pub open spec fn with_row(
    pen: PenView,
    theme: UiTheme,
    verb: Seq<char>,
    mode: Option<Seq<char>>,
    area: UiArea,
    style: UiStyle,
    selected: bool,
) -> PenView {
    let style = UiStyle { bold: style.bold || selected, ..style };
    let mark = theme.symbols.cursor@;
    let right = draw::left_of(area.spec_right() as int, MENU_PAD_X as int) as u16;
    let x = draw::counted(area.x + MENU_PAD_X);
    let left = draw::counted(x + draw::columns(mark) + 1);
    let marked = if selected {
        pen.put(
            x,
            area.y,
            mark,
            draw::columns(mark) as int,
            UiStyle::spec_colored(theme.colors.cursor),
        )
    } else {
        pen
    };
    let pieces = match mode {
        None => seq![PieceText { text: verb, style, fit: UiFit::Clip }],
        Some(mode) => seq![
            PieceText { text: verb, style, fit: UiFit::Clip },
            PieceText { text: " "@, style, fit: UiFit::Cut },
            PieceText { text: mode, style, fit: UiFit::Clip },
        ],
    };
    draw::laid(
        marked,
        pieces,
        pieces.len() as int,
        left,
        area.y,
        right,
        theme.symbols.ellipsis@,
    ).pen
}

/// `x` and as many columns on as `text` takes and one more, as far as the
/// screen is counted.
pub(crate) fn past_mark(x: u16, text: &str) -> (left: u16)
    ensures
        left == draw::counted(x + draw::columns(text@) + 1),
{
    let columns = columns_of(text);
    if columns >= 0xffff {
        u16::MAX
    } else {
        x.saturating_add(columns as u16).saturating_add(1)
    }
}

/// A verb, and what it applies to, across one row of the box.
///
/// The selection is the theme's cursor, the same mark the units list uses —
/// one way of saying "here" for both lists.
pub fn draw_row(
    pen: &mut UiPen,
    theme: &UiTheme,
    verb: &str,
    mode: Option<&str>,
    area: UiArea,
    style: UiStyle,
    selected: bool,
)
    ensures
        final(pen)@ == with_row(
            old(pen)@,
            *theme,
            verb@,
            match mode {
                Some(mode) => Some(mode@),
                None => None,
            },
            area,
            style,
            selected,
        ),
{
    let style = UiStyle { bold: style.bold || selected, ..style };
    let right = area.right().saturating_sub(MENU_PAD_X);
    let mark = theme.symbols.cursor.as_str();
    let x = area.x.saturating_add(MENU_PAD_X);
    if selected {
        pen.put(x, area.y, mark, columns_of(mark), UiStyle::colored(theme.colors.cursor));
    }
    let left = past_mark(x, mark);
    let mut pieces: Vec<UiPiece<'_>> = Vec::new();
    pieces.push(UiPiece { text: verb, style, fit: UiFit::Clip });
    if let Some(mode) = mode {
        pieces.push(UiPiece { text: " ", style, fit: UiFit::Cut });
        pieces.push(UiPiece { text: mode, style, fit: UiFit::Clip });
        assert(draw::pieces_text(pieces@) =~= seq![
            PieceText { text: verb@, style, fit: UiFit::Clip },
            PieceText { text: " "@, style, fit: UiFit::Cut },
            PieceText { text: mode@, style, fit: UiFit::Clip },
        ]);
    } else {
        assert(draw::pieces_text(pieces@) =~= seq![
            PieceText { text: verb@, style, fit: UiFit::Clip },
        ]);
    }
    pen.lay(theme, &pieces, left, area.y, right);
}

/// How an entry is written: quietly, one that cannot be chosen.
pub open spec fn choice_style(enabled: bool) -> UiStyle {
    if enabled {
        UiStyle::spec_plain()
    } else {
        UiStyle { color: Some(UiColor::DarkGray), ..UiStyle::spec_dim() }
    }
}

/// An entry on the screen.
pub open spec fn with_choice<E>(
    pen: PenView,
    theme: UiTheme,
    item: UnitChoice<E>,
    area: UiArea,
    selected: bool,
) -> PenView {
    with_row(
        pen,
        theme,
        item.verb@,
        text::opt_text(item.mode),
        area,
        choice_style(item.enabled),
        selected,
    )
}

/// One entry: the mark, the verb, and the mode it applies to.
pub fn draw_choice<E>(
    pen: &mut UiPen,
    theme: &UiTheme,
    item: &UnitChoice<E>,
    area: UiArea,
    selected: bool,
)
    ensures
        final(pen)@ == with_choice(old(pen)@, *theme, *item, area, selected),
{
    let style = if item.enabled {
        UiStyle::plain()
    } else {
        UiStyle { color: Some(UiColor::DarkGray), ..UiStyle::dim() }
    };
    let mode = match &item.mode {
        Some(mode) => Some(mode.as_str()),
        None => None,
    };
    draw_row(pen, theme, item.verb.as_str(), mode, area, style, selected);
}

/// Row `row` of the menu's inside.
pub open spec fn menu_row(inner: UiArea, row: int) -> UiArea {
    UiArea {
        x: inner.x,
        y: draw::counted(inner.y + MENU_PAD_Y + row),
        width: inner.width,
        height: 1,
    }
}

/// The first `count` entries on the screen, a row each.
pub open spec fn with_choices<E>(
    pen: PenView,
    theme: UiTheme,
    menu: MenuView<E>,
    inner: UiArea,
    count: int,
) -> PenView
    decreases count,
{
    if count <= 0 {
        pen
    } else {
        with_choice(
            with_choices(pen, theme, menu, inner, count - 1),
            theme,
            menu.items[count - 1],
            menu_row(inner, count - 1),
            menu.cursor == count - 1,
        )
    }
}

/// The title of a menu, as pieces.
pub open spec fn menu_title(title: Seq<char>) -> Seq<PieceText> {
    let plain = UiStyle::spec_plain();
    seq![
        PieceText { text: " "@, style: plain, fit: UiFit::One },
        PieceText { text: title, style: plain, fit: UiFit::Clip },
        PieceText { text: " "@, style: plain, fit: UiFit::One },
    ]
}

/// A menu on the screen: over whatever was there, its border and title, an
/// entry to a row as far as there is room, and the way out past a gap.
pub open spec fn with_menu<E>(
    pen: PenView,
    theme: UiTheme,
    menu: MenuView<E>,
    area: UiArea,
) -> PenView {
    if menu.key is None {
        pen
    } else {
        let inner = area.spec_inner(true);
        let boxed = pen.with(DrawView::Clear { area }).with(
            DrawView::Border { area, right: true },
        );
        let titled = draw::laid(
            boxed,
            menu_title(menu.title),
            3,
            inner.x,
            area.y,
            inner.spec_right(),
            theme.symbols.ellipsis@,
        ).pen;
        let rows = draw::left_of(inner.height as int, 2 * MENU_PAD_Y);
        let listed = with_choices(
            titled,
            theme,
            menu,
            inner,
            draw::least(menu.items.len() as int, rows),
        );
        let way_out = menu.items.len() + MENU_CANCEL_GAP;
        if way_out < rows {
            with_row(
                listed,
                theme,
                theme.texts.cancel@,
                None,
                menu_row(inner, way_out),
                UiStyle::spec_plain(),
                menu.cursor == menu.items.len(),
            )
        } else {
            listed
        }
    }
}

/// Draw the menu.
pub fn render<E>(pen: &mut UiPen, theme: &UiTheme, state: &UiRenderMenuState<E>, area: UiArea)
    ensures
        final(pen)@ == with_menu(old(pen)@, *theme, state@, area),
{
    if state.key.is_none() {
        return ;
    }
    let inner = area.inner(true);
    // What is underneath is still drawn, and shows through otherwise.
    pen.draw(UiDraw::Clear { area });
    pen.draw(UiDraw::Border { area, right: true });
    let plain = UiStyle::plain();
    let mut pieces: Vec<UiPiece<'_>> = Vec::new();
    pieces.push(UiPiece { text: " ", style: plain, fit: UiFit::One });
    pieces.push(UiPiece { text: state.title.as_str(), style: plain, fit: UiFit::Clip });
    pieces.push(UiPiece { text: " ", style: plain, fit: UiFit::One });
    assert(draw::pieces_text(pieces@) =~= menu_title(state@.title));
    pen.lay(theme, &pieces, inner.x, area.y, inner.right());

    let rows = inner.height.saturating_sub(2 * MENU_PAD_Y) as usize;
    let top = inner.y.saturating_add(MENU_PAD_Y);
    let ghost titled = pen@;
    let mut row: usize = 0;
    while row < state.items.len() && row < rows
        invariant
            rows <= 0xffff,
            row <= state.items@.len(),
            row <= rows,
            state@.items == state.items@,
            top == draw::counted(inner.y + MENU_PAD_Y),
            pen@ == with_choices(titled, *theme, state@, inner, row as int),
        decreases state.items@.len() - row,
    {
        let line = UiArea {
            x: inner.x,
            y: top.saturating_add(row as u16),
            width: inner.width,
            height: 1,
        };
        assert(line == menu_row(inner, row as int));
        draw_choice(pen, theme, &state.items[row], line, row == state.cursor);
        row = row + 1;
    }
    // Past the gap, on the row the cursor calls `items.len()`.
    let count = state.items.len();
    if count < rows && count + (MENU_CANCEL_GAP as usize) < rows {
        let line = UiArea {
            x: inner.x,
            y: top.saturating_add((count + MENU_CANCEL_GAP as usize) as u16),
            width: inner.width,
            height: 1,
        };
        assert(line == menu_row(inner, count + MENU_CANCEL_GAP));
        draw_row(
            pen,
            theme,
            theme.texts.cancel.as_str(),
            None,
            line,
            UiStyle::plain(),
            state.cursor == count,
        );
    }
}

proof fn lemma_none_between<E>(items: Seq<UnitChoice<E>>, at: int)
    requires
        0 <= at <= items.len(),
    ensures
        at <= first_enabled(items, at, false) <= items.len(),
        forall|i: int| at <= i < first_enabled(items, at, false) ==> !(#[trigger] items[i]).enabled,
        first_enabled(items, at, false) < items.len() ==> items[first_enabled(
            items,
            at,
            false,
        )].enabled,
    decreases items.len() - at,
{
    if at < items.len() && !items[at].enabled {
        lemma_none_between(items, at + 1);
    }
}

proof fn lemma_none_since<E>(items: Seq<UnitChoice<E>>, at: int, otherwise: int)
    requires
        0 <= at <= items.len(),
    ensures
        ({
            let to = last_enabled(items, at, otherwise);
            if exists|i: int| 0 <= i < at && (#[trigger] items[i]).enabled {
                &&& 0 <= to < at
                &&& items[to].enabled
                &&& forall|i: int| to < i < at ==> !(#[trigger] items[i]).enabled
            } else {
                to == otherwise
            }
        }),
    decreases at,
{
    if at > 0 && !items[at - 1].enabled {
        lemma_none_since(items, at - 1, otherwise);
        if exists|i: int| 0 <= i < at && (#[trigger] items[i]).enabled {
            let i = choose|i: int| 0 <= i < at && (#[trigger] items[i]).enabled;
            assert(i < at - 1);
        }
    }
}

/// Moving on goes to the nearest entry below that can be chosen, past the last
/// of them to the way out, and no further. Moving back goes to the nearest
/// entry above that can be chosen, and stays where there is none.
pub proof fn a_move_goes_to_the_nearest_that_can_be_chosen<E>(menu: MenuView<E>)
    requires
        0 <= menu.cursor <= menu.items.len(),
    ensures
        ({
            let on = menu.moved(Move::Next);
            &&& on <= menu.items.len()
            &&& menu.cursor < menu.items.len() ==> menu.cursor < on
            &&& menu.cursor == menu.items.len() ==> on == menu.cursor
            &&& on < menu.items.len() ==> menu.items[on].enabled
            &&& forall|i: int| menu.cursor < i < on ==> !(#[trigger] menu.items[i]).enabled
        }),
        ({
            let back = menu.moved(Move::Previous);
            &&& 0 <= back <= menu.cursor
            &&& back < menu.cursor ==> menu.items[back].enabled
            &&& forall|i: int| back < i < menu.cursor ==> !(#[trigger] menu.items[i]).enabled
            &&& back == menu.cursor ==> forall|i: int|
                0 <= i < menu.cursor ==> !(#[trigger] menu.items[i]).enabled
        }),
{
    if menu.cursor < menu.items.len() {
        lemma_none_between(menu.items, menu.cursor + 1);
    }
    lemma_none_since(menu.items, menu.cursor, menu.cursor);
}

/// A menu opens on an entry that can be chosen wherever it has one, on one
/// that is of the mode the unit is on wherever one of those can be, and never
/// past another that would have done.
pub proof fn a_menu_opens_on_the_first_that_will_do<E>(items: Seq<UnitChoice<E>>, other: int)
    requires
        0 <= other < items.len(),
        items[other].enabled,
    ensures
        0 <= opening(items) < items.len(),
        items[opening(items)].enabled,
        items[other].current ==> items[opening(items)].current && opening(items) <= other,
        !items[opening(items)].current ==> opening(items) <= other,
{
    lemma_none_between(items, 0);
    lemma_first_of_mode(items, 0);
}

proof fn lemma_first_of_mode<E>(items: Seq<UnitChoice<E>>, at: int)
    requires
        0 <= at <= items.len(),
    ensures
        ({
            let found = first_enabled(items, at, true);
            &&& at <= found <= items.len()
            &&& forall|i: int|
                at <= i < found ==> !((#[trigger] items[i]).enabled && items[i].current)
            &&& found < items.len() ==> items[found].enabled && items[found].current
        }),
    decreases items.len() - at,
{
    if at < items.len() && !(items[at].enabled && items[at].current) {
        lemma_first_of_mode(items, at + 1);
    }
}

/// Whether a screen has `text` in row `y`, written as a menu writes what can
/// or cannot be chosen, with the cursor on it or not.
pub open spec fn offers(
    pen: PenView,
    y: u16,
    text: Seq<char>,
    enabled: bool,
    live: bool,
) -> bool {
    exists|style: UiStyle|
        style.bold == live && style.dim == !enabled && (style.color is None) == enabled
            && #[trigger] draw::tells(pen, y, text, style)
}

proof fn lemma_offer_stays(
    before: PenView,
    after: PenView,
    y: u16,
    text: Seq<char>,
    enabled: bool,
    live: bool,
)
    requires
        draw::stays(before, after),
        offers(before, y, text, enabled, live),
    ensures
        offers(after, y, text, enabled, live),
{
    let style = choose|style: UiStyle|
        style.bold == live && style.dim == !enabled && (style.color is None) == enabled
            && #[trigger] draw::tells(before, y, text, style);
    draw::what_is_told_stays_told(before, after, y, text, style);
}

/// Whether a screen shows a row of a menu: the verb, the mode it is for if it
/// is for one, and the cursor's mark if the cursor is on it.
pub open spec fn shows_row(
    pen: PenView,
    theme: UiTheme,
    y: u16,
    verb: Seq<char>,
    mode: Option<Seq<char>>,
    enabled: bool,
    live: bool,
) -> bool {
    &&& offers(pen, y, verb, enabled, live)
    &&& mode is Some ==> offers(pen, y, mode->0, enabled, live)
    &&& live ==> draw::tells(
        pen,
        y,
        theme.symbols.cursor@,
        UiStyle::spec_colored(theme.colors.cursor),
    )
}

proof fn lemma_row_stays(
    before: PenView,
    after: PenView,
    theme: UiTheme,
    y: u16,
    verb: Seq<char>,
    mode: Option<Seq<char>>,
    enabled: bool,
    live: bool,
)
    requires
        draw::stays(before, after),
        shows_row(before, theme, y, verb, mode, enabled, live),
    ensures
        shows_row(after, theme, y, verb, mode, enabled, live),
{
    lemma_offer_stays(before, after, y, verb, enabled, live);
    if mode is Some {
        lemma_offer_stays(before, after, y, mode->0, enabled, live);
    }
    if live {
        draw::what_is_told_stays_told(
            before,
            after,
            y,
            theme.symbols.cursor@,
            UiStyle::spec_colored(theme.colors.cursor),
        );
    }
}

proof fn lemma_row_shown(
    pen: PenView,
    theme: UiTheme,
    verb: Seq<char>,
    mode: Option<Seq<char>>,
    area: UiArea,
    enabled: bool,
    live: bool,
)
    ensures
        ({
            let after = with_row(pen, theme, verb, mode, area, choice_style(enabled), live);
            &&& draw::stays(pen, after)
            &&& shows_row(after, theme, area.y, verb, mode, enabled, live)
        }),
{
    let after = with_row(pen, theme, verb, mode, area, choice_style(enabled), live);
    let style = UiStyle { bold: choice_style(enabled).bold || live, ..choice_style(enabled) };
    let mark = theme.symbols.cursor@;
    let marked_style = UiStyle::spec_colored(theme.colors.cursor);
    let right = draw::left_of(area.spec_right() as int, MENU_PAD_X as int) as u16;
    let x = draw::counted(area.x + MENU_PAD_X);
    let left = draw::counted(x + draw::columns(mark) + 1);
    let room = draw::columns(mark) as int;
    let marked = if live {
        pen.put(x, area.y, mark, room, marked_style)
    } else {
        pen
    };
    draw::what_is_put_is_told(pen, x, area.y, mark, room, marked_style);
    let pieces = match mode {
        None => seq![PieceText { text: verb, style, fit: UiFit::Clip }],
        Some(mode) => seq![
            PieceText { text: verb, style, fit: UiFit::Clip },
            PieceText { text: " "@, style, fit: UiFit::Cut },
            PieceText { text: mode, style, fit: UiFit::Clip },
        ],
    };
    draw::every_piece_of_a_line_is_told(
        marked,
        pieces,
        pieces.len() as int,
        left,
        area.y,
        right,
        theme.symbols.ellipsis@,
    );
    assert(draw::tells(after, area.y, pieces[0].text, pieces[0].style));
    if mode is Some {
        assert(draw::tells(after, area.y, pieces[2].text, pieces[2].style));
    }
    if live {
        draw::what_is_told_stays_told(marked, after, area.y, mark, marked_style);
    }
}

proof fn lemma_choices_shown<E>(
    pen: PenView,
    theme: UiTheme,
    menu: MenuView<E>,
    inner: UiArea,
    count: int,
)
    ensures
        draw::stays(pen, with_choices(pen, theme, menu, inner, count)),
        forall|at: int|
            0 <= at < count ==> shows_row(
                with_choices(pen, theme, menu, inner, count),
                theme,
                draw::counted(inner.y + MENU_PAD_Y + at),
                (#[trigger] menu.items[at]).verb@,
                text::opt_text(menu.items[at].mode),
                menu.items[at].enabled,
                menu.cursor == at,
            ),
    decreases count,
{
    if count > 0 {
        let before = with_choices(pen, theme, menu, inner, count - 1);
        let after = with_choices(pen, theme, menu, inner, count);
        lemma_choices_shown(pen, theme, menu, inner, count - 1);
        let last = menu.items[count - 1];
        lemma_row_shown(
            before,
            theme,
            last.verb@,
            text::opt_text(last.mode),
            menu_row(inner, count - 1),
            last.enabled,
            menu.cursor == count - 1,
        );
        assert forall|at: int| 0 <= at < count implies shows_row(
            after,
            theme,
            draw::counted(inner.y + MENU_PAD_Y + at),
            (#[trigger] menu.items[at]).verb@,
            text::opt_text(menu.items[at].mode),
            menu.items[at].enabled,
            menu.cursor == at,
        ) by {
            if at < count - 1 {
                lemma_row_stays(
                    before,
                    after,
                    theme,
                    draw::counted(inner.y + MENU_PAD_Y + at),
                    menu.items[at].verb@,
                    text::opt_text(menu.items[at].mode),
                    menu.items[at].enabled,
                    menu.cursor == at,
                );
            }
        }
    }
}

/// A menu that is as tall as it asks to be is all there: its title on its
/// border, every entry in a row of its own, in order, with the cursor's mark
/// on the one the cursor is on and those that cannot be chosen written
/// quietly, and the way out past a blank row. One that is closed is not there
/// at all.
pub proof fn a_menu_shows_every_entry<E>(
    pen: PenView,
    theme: UiTheme,
    menu: MenuView<E>,
    area: UiArea,
)
    requires
        menu_height(menu) <= area.height,
        area.y + area.height <= u16::MAX,
    ensures
        menu.key is None ==> with_menu(pen, theme, menu, area) == pen,
        menu.key is Some ==> {
            let after = with_menu(pen, theme, menu, area);
            &&& draw::stays(pen, after)
            &&& offers(after, area.y, menu.title, true, false)
            &&& forall|at: int|
                0 <= at < menu.items.len() ==> shows_row(
                    after,
                    theme,
                    (area.y + 2 + at) as u16,
                    (#[trigger] menu.items[at]).verb@,
                    text::opt_text(menu.items[at].mode),
                    menu.items[at].enabled,
                    menu.cursor == at,
                )
            &&& shows_row(
                after,
                theme,
                (area.y + menu.items.len() + 3) as u16,
                theme.texts.cancel@,
                None,
                true,
                menu.cursor == menu.items.len(),
            )
        },
{
    if menu.key is Some {
        let after = with_menu(pen, theme, menu, area);
        let inner = area.spec_inner(true);
        let count = menu.items.len() as int;
        let boxed = pen.with(DrawView::Clear { area }).with(
            DrawView::Border { area, right: true },
        );
        let pieces = menu_title(menu.title);
        draw::every_piece_of_a_line_is_told(
            boxed,
            pieces,
            3,
            inner.x,
            area.y,
            inner.spec_right(),
            theme.symbols.ellipsis@,
        );
        let titled = draw::laid(
            boxed,
            pieces,
            3,
            inner.x,
            area.y,
            inner.spec_right(),
            theme.symbols.ellipsis@,
        ).pen;
        assert(draw::tells(titled, area.y, pieces[1].text, pieces[1].style));
        lemma_choices_shown(titled, theme, menu, inner, count);
        let listed = with_choices(titled, theme, menu, inner, count);
        lemma_row_shown(
            listed,
            theme,
            theme.texts.cancel@,
            None,
            menu_row(inner, count + MENU_CANCEL_GAP),
            true,
            menu.cursor == count,
        );
        assert(draw::stays(listed, after));
        assert(draw::stays(boxed, titled));
        draw::what_is_told_stays_told(titled, after, area.y, menu.title, UiStyle::spec_plain());
        assert forall|at: int| 0 <= at < count implies shows_row(
            after,
            theme,
            (area.y + 2 + at) as u16,
            (#[trigger] menu.items[at]).verb@,
            text::opt_text(menu.items[at].mode),
            menu.items[at].enabled,
            menu.cursor == at,
        ) by {
            lemma_row_stays(
                listed,
                after,
                theme,
                (area.y + 2 + at) as u16,
                menu.items[at].verb@,
                text::opt_text(menu.items[at].mode),
                menu.items[at].enabled,
                menu.cursor == at,
            );
        }
    }
}

proof fn lemma_widest<E>(items: Seq<UnitChoice<E>>, count: int, at: int)
    requires
        0 <= at < count,
    ensures
        entry_columns(items[at]) <= widest(items, count),
    decreases count,
{
    if at < count - 1 {
        lemma_widest(items, count - 1, at);
    }
}

/// A menu as wide as it asks to be has room for any of its entries beside the
/// cursor's mark, for the way out, and for its title, inside the border and
/// the space along it; and is never narrower than the narrowest.
pub proof fn a_menu_is_wide_enough_for_any_entry<E>(
    menu: MenuView<E>,
    theme: UiTheme,
    at: int,
)
    requires
        0 <= at < menu.items.len(),
    ensures
        ({
            let item = menu.items[at];
            let room = menu_width(menu, theme) - 2;
            let beside = room - 2 * MENU_PAD_X - draw::columns(theme.symbols.cursor@) - 1;
            &&& item.mode is None ==> draw::columns(item.verb@) <= beside
            &&& item.mode matches Some(mode) ==> draw::columns(item.verb@) + draw::columns(" "@)
                + draw::columns(mode@) <= beside
            &&& draw::columns(theme.texts.cancel@) <= beside
            &&& draw::columns(menu.title) + 2 <= room
            &&& room >= MENU_MIN_WIDTH
        }),
{
    lemma_widest(menu.items, menu.items.len() as int, at);
}

/// A menu goes over what is on the screen and takes nothing of it away; and
/// one that is open says what it is for, however little room it has.
pub proof fn a_menu_takes_nothing_away<E>(
    pen: PenView,
    theme: UiTheme,
    menu: MenuView<E>,
    area: UiArea,
)
    ensures
        draw::stays(pen, with_menu(pen, theme, menu, area)),
        menu.key is Some ==> offers(
            with_menu(pen, theme, menu, area),
            area.y,
            menu.title,
            true,
            false,
        ),
{
    if menu.key is Some {
        let after = with_menu(pen, theme, menu, area);
        let inner = area.spec_inner(true);
        let boxed = pen.with(DrawView::Clear { area }).with(
            DrawView::Border { area, right: true },
        );
        let pieces = menu_title(menu.title);
        let right = inner.spec_right();
        let mark = theme.symbols.ellipsis@;
        draw::every_piece_of_a_line_is_told(boxed, pieces, 3, inner.x, area.y, right, mark);
        let titled = draw::laid(boxed, pieces, 3, inner.x, area.y, right, mark).pen;
        assert(draw::tells(titled, area.y, pieces[1].text, pieces[1].style));
        let rows = draw::left_of(inner.height as int, 2 * MENU_PAD_Y);
        let count = draw::least(menu.items.len() as int, rows);
        lemma_choices_shown(titled, theme, menu, inner, count);
        let listed = with_choices(titled, theme, menu, inner, count);
        lemma_row_shown(
            listed,
            theme,
            theme.texts.cancel@,
            None,
            menu_row(inner, menu.items.len() + MENU_CANCEL_GAP),
            true,
            menu.cursor == menu.items.len(),
        );
        assert(draw::stays(listed, after));
        assert(draw::stays(boxed, titled));
        assert(draw::stays(titled, after));
        draw::what_is_told_stays_told(titled, after, area.y, menu.title, UiStyle::spec_plain());
    }
}

} // verus!
