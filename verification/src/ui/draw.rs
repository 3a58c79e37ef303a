//! What goes on the screen, as a list of things to put there.

use super::theme::{UiColor, UiTheme};
use crate::util::text;
use ratatui::buffer::Buffer;
use ratatui::layout::Rect;
use ratatui::style::Style;
use unicode_width::UnicodeWidthStr;
use vstd::prelude::*;
use vstd::string::*;

verus! {

/// A rectangle of the screen.
#[derive(Clone, Copy, PartialEq, Eq, Debug, Structural)]
pub struct UiArea {
    pub x: u16,
    pub y: u16,
    pub width: u16,
    pub height: u16,
}

/// How something is written: in which colours, and with which decorations.
#[derive(Clone, Copy, PartialEq, Eq, Debug, Structural)]
pub struct UiStyle {
    pub color: Option<UiColor>,
    pub background: Option<UiColor>,
    pub bold: bool,
    pub dim: bool,
    pub italic: bool,
    pub underline: bool,
    pub reverse: bool,
    pub strike: bool,
}

/// One thing to put on the screen.
#[derive(PartialEq, Eq, Debug)]
pub enum UiDraw {
    /// A box around an area: with a wall on the right, or leaving that one to
    /// the box next to it.
    Border { area: UiArea, right: bool },
    /// Nothing, over whatever was there.
    Clear { area: UiArea },
    /// Text from a place on, in no more than `room` columns.
    Text { x: u16, y: u16, text: String, room: usize, style: UiStyle },
    /// One cell's character, styled if it says how.
    Cell { x: u16, y: u16, symbol: String, painted: Option<UiStyle> },
}

/// One thing to put on the screen.
#[verifier::ext_equal]
pub enum DrawView {
    Border { area: UiArea, right: bool },
    Clear { area: UiArea },
    Text { x: u16, y: u16, text: Seq<char>, room: usize, style: UiStyle },
    Cell { x: u16, y: u16, symbol: Seq<char>, painted: Option<UiStyle> },
}

impl View for UiDraw {
    type V = DrawView;

    open spec fn view(&self) -> DrawView {
        match self {
            UiDraw::Border { area, right } => DrawView::Border { area: *area, right: *right },
            UiDraw::Clear { area } => DrawView::Clear { area: *area },
            UiDraw::Text { x, y, text, room, style } => DrawView::Text {
                x: *x,
                y: *y,
                text: text@,
                room: *room,
                style: *style,
            },
            UiDraw::Cell { x, y, symbol, painted } => DrawView::Cell {
                x: *x,
                y: *y,
                symbol: symbol@,
                painted: *painted,
            },
        }
    }
}

/// `n`, as far as the screen is counted.
pub open spec fn counted(n: int) -> u16 {
    if n > u16::MAX {
        u16::MAX
    } else {
        n as u16
    }
}

/// What is left of `a` once `b` is taken.
pub open spec fn left_of(a: int, b: int) -> int {
    if a > b {
        a - b
    } else {
        0
    }
}

/// The smaller of two.
pub open spec fn least(a: int, b: int) -> int {
    if a < b {
        a
    } else {
        b
    }
}

impl UiArea {
    /// One column past the last.
    pub open spec fn spec_right(self) -> u16 {
        counted(self.x + self.width)
    }

    /// One row past the last.
    pub open spec fn spec_bottom(self) -> u16 {
        counted(self.y + self.height)
    }

    /// One column past the last.
    pub fn right(&self) -> (right: u16)
        ensures
            right == self.spec_right(),
    {
        self.x.saturating_add(self.width)
    }

    /// One row past the last.
    pub fn bottom(&self) -> (bottom: u16)
        ensures
            bottom == self.spec_bottom(),
    {
        self.y.saturating_add(self.height)
    }

    /// What is inside a box around it: one with a wall on the right, or one
    /// that leaves that wall to the box next to it.
    pub open spec fn spec_inner(self, right: bool) -> UiArea {
        let walls: int = if right {
            2
        } else {
            1
        };
        UiArea {
            x: least(self.x + 1, self.spec_right() as int) as u16,
            y: least(self.y + 1, self.spec_bottom() as int) as u16,
            width: left_of(self.width as int, walls) as u16,
            height: left_of(self.height as int, 2) as u16,
        }
    }

    /// What is inside a box around it: one with a wall on the right, or one
    /// that leaves that wall to the box next to it.
    pub fn inner(&self, right: bool) -> (inner: UiArea)
        ensures
            inner == self.spec_inner(right),
    {
        let x = self.x.saturating_add(1);
        let y = self.y.saturating_add(1);
        let walls: u16 = if right {
            2
        } else {
            1
        };
        UiArea {
            x: if x < self.right() {
                x
            } else {
                self.right()
            },
            y: if y < self.bottom() {
                y
            } else {
                self.bottom()
            },
            width: self.width.saturating_sub(walls),
            height: self.height.saturating_sub(2),
        }
    }
}

impl UiStyle {
    /// As the terminal writes by itself.
    pub open spec fn spec_plain() -> UiStyle {
        UiStyle {
            color: None,
            background: None,
            bold: false,
            dim: false,
            italic: false,
            underline: false,
            reverse: false,
            strike: false,
        }
    }

    /// Strongly.
    pub open spec fn spec_bold() -> UiStyle {
        UiStyle { bold: true, ..UiStyle::spec_plain() }
    }

    /// Quietly.
    pub open spec fn spec_dim() -> UiStyle {
        UiStyle { dim: true, ..UiStyle::spec_plain() }
    }

    /// In a colour.
    pub open spec fn spec_colored(color: UiColor) -> UiStyle {
        UiStyle { color: Some(color), ..UiStyle::spec_plain() }
    }

    /// As the terminal writes by itself.
    pub fn plain() -> (style: UiStyle)
        ensures
            style == UiStyle::spec_plain(),
    {
        UiStyle {
            color: None,
            background: None,
            bold: false,
            dim: false,
            italic: false,
            underline: false,
            reverse: false,
            strike: false,
        }
    }

    /// Strongly.
    pub fn bold() -> (style: UiStyle)
        ensures
            style == UiStyle::spec_bold(),
    {
        UiStyle { bold: true, ..UiStyle::plain() }
    }

    /// Quietly.
    pub fn dim() -> (style: UiStyle)
        ensures
            style == UiStyle::spec_dim(),
    {
        UiStyle { dim: true, ..UiStyle::plain() }
    }

    /// In a colour.
    pub fn colored(color: UiColor) -> (style: UiStyle)
        ensures
            style == UiStyle::spec_colored(color),
    {
        UiStyle { color: Some(color), ..UiStyle::plain() }
    }
}

/// How many columns a text takes: the name for what
/// `UnicodeWidthStr::width` answers.
pub uninterp spec fn columns(text: Seq<char>) -> usize;

/// How many of `room` columns a text takes when it is put on the screen: the
/// name for how far `Buffer::set_stringn` gets.
pub uninterp spec fn drawn(text: Seq<char>, room: u16) -> u16;

/// How many columns `text` takes, by
/// `unicode_width::UnicodeWidthStr::width`, whose documentation makes it of
/// the text alone. Which it is is not stated further.
#[verifier::external_body]
pub(crate) fn columns_of(text: &str) -> (taken: usize)
    ensures
        taken == columns(text@),
{
    text.width()
}

/// How many of `room` columns `text` takes when it is put on the screen, by
/// `ratatui::buffer::Buffer::set_stringn` on a row of that many: it puts down
/// whole graphemes for as long as they fit, so it never gets past the room.
#[verifier::external_body]
fn drawn_columns(text: &str, room: u16) -> (taken: u16)
    ensures
        taken == drawn(text@, room),
        taken <= room,
{
    let mut row = Buffer::empty(Rect::new(0, 0, room, 1));
    row.set_stringn(0, 0, text, room as usize, Style::new()).0
}

/// Things to put on a screen of some width, in the order they go there.
pub struct UiPen {
    right: u16,
    draws: Vec<UiDraw>,
}

/// A screen's right edge, and what goes on it.
#[verifier::ext_equal]
pub struct PenView {
    pub right: u16,
    pub draws: Seq<DrawView>,
}

impl View for UiPen {
    type V = PenView;

    closed spec fn view(&self) -> PenView {
        PenView {
            right: self.right,
            draws: Seq::new(self.draws@.len(), |i: int| self.draws@[i]@),
        }
    }
}

impl PenView {
    /// With one more thing on it.
    pub open spec fn with(self, draw: DrawView) -> PenView {
        PenView { draws: self.draws.push(draw), ..self }
    }

    /// With text on it.
    pub open spec fn put(
        self,
        x: u16,
        y: u16,
        text: Seq<char>,
        room: int,
        style: UiStyle,
    ) -> PenView {
        self.with(DrawView::Text { x, y, text, room: room as usize, style })
    }

    /// Where text put at `x` ends: past as much of it as fits in the room and
    /// on the screen.
    pub open spec fn end(self, x: u16, text: Seq<char>, room: int) -> u16 {
        let room = least(left_of(self.right as int, x as int), room) as u16;
        (x + drawn(text, room)) as u16
    }

    /// With text on it, or as much as fits before the mark that says it was
    /// cut.
    pub open spec fn clipped(
        self,
        x: u16,
        y: u16,
        text: Seq<char>,
        room: int,
        style: UiStyle,
        mark: Seq<char>,
    ) -> PenView {
        if columns(text) <= room {
            self.put(x, y, text, room, style)
        } else {
            let cut = left_of(room, columns(mark) as int);
            self.put(x, y, text, cut, style).put(
                self.end(x, text, cut),
                y,
                mark,
                columns(mark) as int,
                style,
            )
        }
    }

    /// Where that ends.
    pub open spec fn clipped_end(
        self,
        x: u16,
        text: Seq<char>,
        room: int,
        mark: Seq<char>,
    ) -> u16 {
        if columns(text) <= room {
            self.end(x, text, room)
        } else {
            let cut = left_of(room, columns(mark) as int);
            self.end(self.end(x, text, cut), mark, columns(mark) as int)
        }
    }
}

/// How many columns are left between `x` and `right`.
pub fn room(x: u16, right: u16) -> (room: usize)
    ensures
        room == left_of(right as int, x as int),
{
    right.saturating_sub(x) as usize
}

/// How a piece of a line takes its room.
#[derive(Clone, Copy, PartialEq, Eq, Debug, Structural)]
pub enum UiFit {
    /// What fits of it.
    Cut,
    /// All of it, or what fits before the mark that says it was cut.
    Clip,
    /// One column, whatever is left.
    One,
}

/// A piece of a line.
pub struct UiPiece<'a> {
    pub text: &'a str,
    pub style: UiStyle,
    pub fit: UiFit,
}

/// A piece of a line.
#[verifier::ext_equal]
pub struct PieceText {
    pub text: Seq<char>,
    pub style: UiStyle,
    pub fit: UiFit,
}

impl<'a> View for UiPiece<'a> {
    type V = PieceText;

    open spec fn view(&self) -> PieceText {
        PieceText { text: self.text@, style: self.style, fit: self.fit }
    }
}

/// What some pieces say.
pub open spec fn pieces_text(pieces: Seq<UiPiece<'_>>) -> Seq<PieceText> {
    Seq::new(pieces.len(), |i: int| pieces[i]@)
}

/// A line being laid: what is on the screen, and where the next piece goes.
pub struct Laid {
    pub pen: PenView,
    pub x: u16,
}

impl Laid {
    /// With one more piece on it.
    pub open spec fn with(self, piece: PieceText, y: u16, right: u16, mark: Seq<char>) -> Laid {
        let room = left_of(right as int, self.x as int);
        match piece.fit {
            UiFit::Cut => Laid {
                pen: self.pen.put(self.x, y, piece.text, room, piece.style),
                x: self.pen.end(self.x, piece.text, room),
            },
            UiFit::Clip => Laid {
                pen: self.pen.clipped(self.x, y, piece.text, room, piece.style, mark),
                x: self.pen.clipped_end(self.x, piece.text, room, mark),
            },
            UiFit::One => Laid {
                pen: self.pen.put(self.x, y, piece.text, 1, piece.style),
                x: self.pen.end(self.x, piece.text, 1),
            },
        }
    }
}

/// A line of the first `count` pieces, each from where the one before it
/// ended.
pub open spec fn laid(
    pen: PenView,
    pieces: Seq<PieceText>,
    count: int,
    x: u16,
    y: u16,
    right: u16,
    mark: Seq<char>,
) -> Laid
    decreases count,
{
    if count <= 0 {
        Laid { pen, x }
    } else {
        laid(pen, pieces, count - 1, x, y, right, mark).with(pieces[count - 1], y, right, mark)
    }
}

impl UiPen {
    /// Nothing yet, on a screen that ends at `right`.
    pub fn new(right: u16) -> (pen: Self)
        ensures
            pen@ == (PenView { right, draws: Seq::empty() }),
    {
        let pen = UiPen { right, draws: Vec::new() };
        assert(pen@.draws =~= Seq::empty());
        pen
    }

    /// What goes on the screen.
    pub fn draws(self) -> (draws: Vec<UiDraw>)
        ensures
            Seq::new(draws@.len(), |i: int| draws@[i]@) == self@.draws,
    {
        self.draws
    }

    /// Put one thing on the screen.
    pub fn draw(&mut self, draw: UiDraw)
        ensures
            final(self)@ == old(self)@.with(draw@),
    {
        let ghost before = self@;
        self.draws.push(draw);
        assert(self@.draws =~= before.draws.push(draw@));
    }

    /// Put text on the screen, and report where it ended.
    pub fn put(&mut self, x: u16, y: u16, text: &str, room: usize, style: UiStyle) -> (end: u16)
        ensures
            final(self)@ == old(self)@.put(x, y, text@, room as int, style),
            end == old(self)@.end(x, text@, room as int),
            x <= end,
            end <= old(self)@.right || end == x,
    {
        let left = self.right.saturating_sub(x);
        let taken = drawn_columns(
            text,
            if room < left as usize {
                room as u16
            } else {
                left
            },
        );
        self.draw(UiDraw::Text { x, y, text: text::owned(text), room, style });
        x + taken
    }

    /// Put `text` down in at most `room` columns, ending in the theme's
    /// ellipsis if it had to be cut, and report where it ended.
    ///
    /// The screen clips on its own but will not say that it clipped.
    pub fn set_clipped(
        &mut self,
        theme: &UiTheme,
        x: u16,
        y: u16,
        text: &str,
        room: usize,
        style: UiStyle,
    ) -> (end: u16)
        ensures
            final(self)@ == old(self)@.clipped(
                x,
                y,
                text@,
                room as int,
                style,
                theme.symbols.ellipsis@,
            ),
            end == old(self)@.clipped_end(x, text@, room as int, theme.symbols.ellipsis@),
    {
        if columns_of(text) <= room {
            return self.put(x, y, text, room, style);
        }
        // The mark takes its own columns, so anything narrower has room for
        // the mark and nothing else.
        let mark = theme.symbols.ellipsis.as_str();
        let width = columns_of(mark);
        let end = self.put(x, y, text, room.saturating_sub(width), style);
        self.put(end, y, mark, width, style)
    }

    /// Put pieces down one after the other, and report where the last ended.
    pub fn lay(
        &mut self,
        theme: &UiTheme,
        pieces: &Vec<UiPiece<'_>>,
        x: u16,
        y: u16,
        right: u16,
    ) -> (end: u16)
        ensures
            ({
                let line = laid(
                    old(self)@,
                    pieces_text(pieces@),
                    pieces@.len() as int,
                    x,
                    y,
                    right,
                    theme.symbols.ellipsis@,
                );
                &&& final(self)@ == line.pen
                &&& end == line.x
            }),
    {
        let ghost before = self@;
        let ghost mark = theme.symbols.ellipsis@;
        let ghost said = pieces_text(pieces@);
        let mut at = x;
        let mut i: usize = 0;
        while i < pieces.len()
            invariant
                i <= pieces@.len(),
                said == pieces_text(pieces@),
                mark == theme.symbols.ellipsis@,
                (Laid { pen: self@, x: at }) == laid(before, said, i as int, x, y, right, mark),
            decreases pieces@.len() - i,
        {
            let piece = &pieces[i];
            let left = room(at, right);
            match piece.fit {
                UiFit::Cut => {
                    at = self.put(at, y, piece.text, left, piece.style);
                },
                UiFit::Clip => {
                    at = self.set_clipped(theme, at, y, piece.text, left, piece.style);
                },
                UiFit::One => {
                    at = self.put(at, y, piece.text, 1, piece.style);
                },
            }
            i = i + 1;
        }
        at
    }
}

/// Whether all that was on one screen is on another, in the same order and
/// before anything else.
pub open spec fn stays(before: PenView, after: PenView) -> bool {
    &&& before.right == after.right
    &&& before.draws.len() <= after.draws.len()
    &&& forall|i: int| 0 <= i < before.draws.len() ==> before.draws[i] == #[trigger] after.draws[i]
}

/// Whether a draw is of `text` somewhere in row `y`, in `style`.
pub open spec fn writes(draw: DrawView, y: u16, text: Seq<char>, style: UiStyle) -> bool {
    &&& draw is Text
    &&& draw->Text_y == y
    &&& draw->Text_text == text
    &&& draw->Text_style == style
}

/// Whether a screen has `text` somewhere in row `y`, in `style`.
pub open spec fn tells(pen: PenView, y: u16, text: Seq<char>, style: UiStyle) -> bool {
    exists|i: int| 0 <= i < pen.draws.len() && writes(#[trigger] pen.draws[i], y, text, style)
}

/// What a screen tells, it goes on telling whatever else is put on it.
pub proof fn what_is_told_stays_told(
    before: PenView,
    after: PenView,
    y: u16,
    text: Seq<char>,
    style: UiStyle,
)
    requires
        stays(before, after),
        tells(before, y, text, style),
    ensures
        tells(after, y, text, style),
{
    let i = choose|i: int|
        0 <= i < before.draws.len() && writes(#[trigger] before.draws[i], y, text, style);
    assert(writes(after.draws[i], y, text, style));
}

/// Text that is put is told, and takes nothing away.
pub proof fn what_is_put_is_told(
    pen: PenView,
    x: u16,
    y: u16,
    text: Seq<char>,
    room: int,
    style: UiStyle,
)
    ensures
        stays(pen, pen.put(x, y, text, room, style)),
        tells(pen.put(x, y, text, room, style), y, text, style),
        pen.put(x, y, text, room, style).draws.len() == pen.draws.len() + 1,
{
    let after = pen.put(x, y, text, room, style);
    assert(writes(after.draws[pen.draws.len() as int], y, text, style));
}

/// Text that fits is put down by itself; text that does not is put down short
/// by what the mark takes, with the mark right after it. Either way it is
/// told, in its own style.
pub proof fn only_what_is_cut_is_marked(
    pen: PenView,
    x: u16,
    y: u16,
    text: Seq<char>,
    room: int,
    style: UiStyle,
    mark: Seq<char>,
)
    requires
        0 <= room <= usize::MAX,
    ensures
        ({
            let after = pen.clipped(x, y, text, room, style, mark);
            let count = pen.draws.len() as int;
            let first = after.draws[count];
            &&& stays(pen, after)
            &&& tells(after, y, text, style)
            &&& writes(first, y, text, style)
            &&& first->Text_x == x
            &&& columns(text) <= room ==> after.draws.len() == count + 1 && first->Text_room == room
            &&& columns(text) > room ==> {
                &&& after.draws.len() == count + 2
                &&& writes(after.draws[count + 1], y, mark, style)
                &&& columns(mark) <= room ==> first->Text_room + columns(mark) == room
                &&& columns(mark) > room ==> first->Text_room == 0
            }
        }),
{
    let after = pen.clipped(x, y, text, room, style, mark);
    assert(writes(after.draws[pen.draws.len() as int], y, text, style));
}

/// Every piece of a line is told, in the line's row and in its own style.
pub proof fn every_piece_of_a_line_is_told(
    pen: PenView,
    pieces: Seq<PieceText>,
    count: int,
    x: u16,
    y: u16,
    right: u16,
    mark: Seq<char>,
)
    requires
        0 <= count <= pieces.len(),
    ensures
        stays(pen, laid(pen, pieces, count, x, y, right, mark).pen),
        forall|i: int|
            0 <= i < count ==> tells(
                laid(pen, pieces, count, x, y, right, mark).pen,
                y,
                (#[trigger] pieces[i]).text,
                pieces[i].style,
            ),
    decreases count,
{
    if count > 0 {
        let before = laid(pen, pieces, count - 1, x, y, right, mark);
        let after = laid(pen, pieces, count, x, y, right, mark);
        let last = pieces[count - 1];
        let room = left_of(right as int, before.x as int);
        every_piece_of_a_line_is_told(pen, pieces, count - 1, x, y, right, mark);
        only_what_is_cut_is_marked(before.pen, before.x, y, last.text, room, last.style, mark);
        what_is_put_is_told(before.pen, before.x, y, last.text, room, last.style);
        what_is_put_is_told(before.pen, before.x, y, last.text, 1, last.style);
        assert(stays(before.pen, after.pen));
        assert forall|i: int| 0 <= i < count implies tells(
            after.pen,
            y,
            (#[trigger] pieces[i]).text,
            pieces[i].style,
        ) by {
            if i < count - 1 {
                what_is_told_stays_told(
                    before.pen,
                    after.pen,
                    y,
                    pieces[i].text,
                    pieces[i].style,
                );
            }
        }
    }
}

/// A box takes a row off the top and the bottom, a column off the left, and
/// one off the right where it has a wall there, and no more.
pub proof fn what_is_inside_a_box(area: UiArea, right: bool)
    requires
        area.width >= 2,
        area.height >= 2,
        area.x + area.width <= u16::MAX,
        area.y + area.height <= u16::MAX,
    ensures
        ({
            let inner = area.spec_inner(right);
            let wall: int = if right {
                1
            } else {
                0
            };
            &&& inner.x == area.x + 1
            &&& inner.y == area.y + 1
            &&& inner.x + inner.width == area.x + area.width - wall
            &&& inner.y + inner.height == area.y + area.height - 1
        }),
{
}

/// What is on a screen stays on it whatever else is put there.
pub proof fn what_is_drawn_stays_drawn(before: PenView, after: PenView, draw: DrawView)
    requires
        stays(before, after),
        before.draws.contains(draw),
    ensures
        after.draws.contains(draw),
{
    let i = before.draws.index_of(draw);
    assert(after.draws[i] == draw);
}

} // verus!
