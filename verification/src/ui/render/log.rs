//! The log pane: a unit's output, under a title that says whose.

use crate::log::{LogColor, LogLine, LogLineView, LogRegion, LogStyle};
use crate::runner::RunnerState;
use crate::ui::draw;
use crate::ui::draw::{
    columns_of, room, DrawView, PenView, PieceText, UiArea, UiDraw, UiFit, UiPen, UiPiece,
    UiStyle,
};
use crate::ui::theme::{UiColor, UiTheme};
use crate::util::text;
use crate::util::text::decimal;
use crate::view::{UnitRow, ViewUnit};
use vstd::prelude::*;
use vstd::string::*;
use vstd::utf8::*;

verus! {

/// How many lines beyond the pane are asked for, on each side.
///
/// The slack that makes a page of scrolling cost no round trip. On both sides
/// because scrolling goes both ways.
pub const LOG_MARGIN: usize = 100;

/// Blank columns at each edge, so the output is not written onto the border.
pub const LOG_PAD_X: u16 = 1;

/// Where the log pane is looking from, and how big it turned out.
///
/// The size is written by the drawing and read by the *next* frame's request,
/// a pane's size not being known until the layout that makes it.
pub struct UiRenderLogState {
    scroll: usize,
    rows: u16,
    columns: u16,
}

/// How many lines back from the newest the pane is showing, and the rows and
/// columns it has to show them in.
pub struct LogStateView {
    pub scroll: usize,
    pub rows: u16,
    pub columns: u16,
}

impl View for UiRenderLogState {
    type V = LogStateView;

    closed spec fn view(&self) -> LogStateView {
        LogStateView { scroll: self.scroll, rows: self.rows, columns: self.columns }
    }
}

/// `scroll`, moved back by `lines` or forward by a negative number of them,
/// as far as it is counted.
pub open spec fn scrolled(scroll: usize, lines: int) -> usize {
    if scroll + lines < 0 {
        0
    } else if scroll + lines > usize::MAX {
        usize::MAX
    } else {
        (scroll + lines) as usize
    }
}

/// `n`, held to what an `isize` counts.
pub open spec fn held_to_isize(n: int) -> int {
    if n < isize::MIN {
        isize::MIN as int
    } else if n > isize::MAX {
        isize::MAX as int
    } else {
        n
    }
}

impl LogStateView {
    /// A page: the pane less one line, so a line just read stays on screen to
    /// land on.
    pub open spec fn page(self) -> int {
        if self.rows <= 1 {
            1
        } else {
            self.rows - 1
        }
    }

    /// The rectangle the pane wants: what it draws, with a margin either side,
    /// and no wider than it is.
    pub open spec fn wants(self) -> LogRegion {
        LogRegion {
            line_start: draw::left_of(self.scroll as int, LOG_MARGIN as int) as usize,
            line_end: (self.scroll + self.rows + LOG_MARGIN) as usize,
            column_start: 0,
            column_end: self.columns as usize,
            parse_ansi: true,
        }
    }
}

impl UiRenderLogState {
    /// A pane following the end of its log, of no size yet.
    pub fn new() -> (state: Self)
        ensures
            state@ == (LogStateView { scroll: 0, rows: 0, columns: 0 }),
    {
        UiRenderLogState { scroll: 0, rows: 0, columns: 0 }
    }

    /// Put the pane back at the end of the log, and follow it again.
    ///
    /// Called when the selection moves — a scroll is a position in one unit's
    /// output and means nothing in another's — and when the user asks,
    /// because getting back to the end should not mean holding a key down.
    pub fn follow(&mut self)
        ensures
            final(self)@ == (LogStateView { scroll: 0, ..old(self)@ }),
    {
        self.scroll = 0;
    }

    /// Whether the pane is showing the end of the log as it arrives.
    pub fn is_following(&self) -> (following: bool)
        ensures
            following == (self@.scroll == 0),
    {
        self.scroll == 0
    }

    /// How many lines back from the newest the pane is showing.
    pub fn scroll(&self) -> (scroll: usize)
        ensures
            scroll == self@.scroll,
    {
        self.scroll
    }

    /// Whether the lines the pane wants are still counted.
    pub fn is_counted(&self) -> (counted: bool)
        ensures
            counted == (self@.scroll + self@.rows + LOG_MARGIN <= usize::MAX),
    {
        self.scroll <= usize::MAX - LOG_MARGIN - self.rows as usize
    }

    /// Scroll back by `lines`, or forward by a negative number of them.
    pub fn scroll_lines(&mut self, lines: isize)
        ensures
            final(self)@ == (LogStateView {
                scroll: scrolled(old(self)@.scroll, lines as int),
                ..old(self)@
            }),
    {
        if lines < 0 {
            let by: usize = if lines == isize::MIN {
                isize::MAX as usize + 1
            } else {
                (-lines) as usize
            };
            self.scroll = self.scroll.saturating_sub(by);
        } else {
            self.scroll = self.scroll.saturating_add(lines as usize);
        }
    }

    /// Scroll back by `pages`, or forward by a negative number of them.
    ///
    /// A page is the pane less one line, so a line you just read stays on
    /// screen to land on.
    pub fn scroll_pages(&mut self, pages: isize)
        ensures
            final(self)@ == (LogStateView {
                scroll: scrolled(
                    old(self)@.scroll,
                    held_to_isize(pages * old(self)@.page()),
                ),
                ..old(self)@
            }),
    {
        let page: i128 = if self.rows <= 1 {
            1
        } else {
            (self.rows - 1) as i128
        };
        assert(-0x1_0000_0000_0000_0000_0000 <= pages * page <= 0x1_0000_0000_0000_0000_0000)
            by (nonlinear_arith)
            requires
                isize::MIN <= pages <= isize::MAX,
                0 < page < 0x1_0000,
                isize::MAX <= 0x7fff_ffff_ffff_ffff,
                -0x8000_0000_0000_0000 <= isize::MIN,
        ;
        let lines: i128 = (pages as i128) * page;
        let lines: isize = if lines < isize::MIN as i128 {
            isize::MIN
        } else if lines > isize::MAX as i128 {
            isize::MAX
        } else {
            lines as isize
        };
        self.scroll_lines(lines);
    }

    /// The rectangle the pane wants: what it draws, plus [`LOG_MARGIN`] lines
    /// either side and clipped to its width.
    pub fn region(&self) -> (region: LogRegion)
        requires
            self@.scroll + self@.rows + LOG_MARGIN <= usize::MAX,
        ensures
            region == self@.wants(),
    {
        let start = self.scroll.saturating_sub(LOG_MARGIN);
        LogRegion::new(
            start..(self.scroll + self.rows as usize + LOG_MARGIN),
            0..(self.columns as usize),
        )
    }

    /// Pull the scroll back to what there is to show.
    ///
    /// `held` is how far back the lines that came in reach. The client never
    /// says how much history it has — coming back with fewer lines than were
    /// asked for is how a view learns it hit the top.
    ///
    /// The limit puts the oldest line at the top of the pane, not the bottom:
    /// past that every further line of scroll buys a blank row, so a log
    /// shorter than the pane does not scroll at all.
    pub fn clamp(&mut self, held: usize)
        ensures
            final(self)@ == (LogStateView {
                scroll: draw::least(
                    old(self)@.scroll as int,
                    draw::left_of(held as int, old(self)@.rows as int),
                ) as usize,
                ..old(self)@
            }),
    {
        let most = held.saturating_sub(self.rows as usize);
        if self.scroll > most {
            self.scroll = most;
        }
    }
}

/// Scrolling back and then forward by as much comes back to where it was, so
/// long as the first is not more than can be counted.
pub proof fn scrolling_there_and_back(scroll: usize, lines: int)
    requires
        0 <= lines,
        scroll + lines <= usize::MAX,
    ensures
        scrolled(scrolled(scroll, lines), -lines) == scroll,
{
}

/// A pane that shows all there is does not scroll: a log no longer than the
/// pane is always followed.
pub proof fn a_log_that_fits_does_not_scroll(state: LogStateView, held: usize)
    requires
        held <= state.rows,
    ensures
        draw::least(
            state.scroll as int,
            draw::left_of(held as int, state.rows as int),
        ) == 0,
{
}

/// What the pane wants takes in every line it shows, and as much again either
/// side as the margin says.
pub proof fn the_pane_wants_what_it_shows(state: LogStateView, line: int)
    requires
        state.scroll + state.rows + LOG_MARGIN <= usize::MAX,
        state.scroll - LOG_MARGIN <= line < state.scroll + state.rows + LOG_MARGIN,
        line >= 0,
    ensures
        state.wants().line_start <= line < state.wants().line_end,
{
}

/// Which of `count` lines are showing: the last row is at distance `scroll`
/// from the newest, and the lines run back from distance `line_start`.
pub open spec fn shown(count: int, line_start: int, scroll: int, rows: int) -> (int, int) {
    let end = draw::left_of(count, draw::left_of(scroll, line_start));
    (draw::left_of(end, rows), end)
}

/// The part of a fetched region the pane is actually showing: from the first
/// line to one past the last.
///
/// The region is wider than the pane on both sides, so the visible rows are a
/// slice out of the middle of it. Everything saturates because the region
/// that came back need not be the one asked for — the pane draws the overlap
/// rather than nothing.
pub fn visible(count: usize, line_start: usize, scroll: usize, rows: usize) -> (range: (
    usize,
    usize,
))
    ensures
        (range.0 as int, range.1 as int) == shown(
            count as int,
            line_start as int,
            scroll as int,
            rows as int,
        ),
        range.0 <= range.1 <= count,
        range.1 - range.0 <= rows,
{
    let end = count.saturating_sub(scroll.saturating_sub(line_start));
    (end.saturating_sub(rows), end)
}

/// Where the region that came back is the one asked for, what is showing is
/// the lines from distance `scroll` on: the last one shown is at that
/// distance, and there are as many above it as fit.
pub proof fn the_last_row_is_at_the_scroll(count: int, line_start: int, scroll: int, rows: int)
    requires
        0 <= line_start <= scroll,
        0 <= rows,
        scroll - line_start < count,
    ensures
        ({
            let (start, end) = shown(count, line_start, scroll, rows);
            &&& count - end + line_start == scroll
            &&& end - start == draw::least(rows, end)
        }),
{
}

/// A code, after the word for it.
pub open spec fn code_text(state: RunnerState) -> Option<Seq<char>> {
    match state {
        RunnerState::ExitError(Some(code)) => Some(text::digits(code.spec_get() as nat)),
        _ => None,
    }
}

/// The title's pieces: the unit, then its state spelled out, then the mode;
/// or the word for a log where there is no unit.
pub open spec fn title_pieces(unit: Option<UnitRow>, theme: UiTheme) -> Seq<PieceText> {
    let blank = PieceText { text: " "@, style: UiStyle::spec_plain(), fit: UiFit::One };
    let dim = UiStyle::spec_dim();
    match unit {
        None => seq![
            blank,
            PieceText { text: theme.texts.log@, style: dim, fit: UiFit::Clip },
            blank,
        ],
        Some(unit) => {
            let colored = UiStyle::spec_colored(theme.colors.color(unit.state));
            let joint = PieceText {
                text: theme.symbols.separator@,
                style: dim,
                fit: UiFit::Cut,
            };
            let code = match code_text(unit.state) {
                Some(code) => seq![PieceText { text: code, style: colored, fit: UiFit::Cut }],
                None => Seq::empty(),
            };
            let mode = match unit.mode {
                Some(mode) => seq![
                    joint,
                    PieceText { text: mode, style: dim, fit: UiFit::Clip },
                ],
                None => Seq::empty(),
            };
            seq![
                blank,
                PieceText { text: unit.name, style: UiStyle::spec_bold(), fit: UiFit::Clip },
                joint,
                PieceText {
                    text: theme.texts.word(unit.state),
                    style: colored,
                    fit: UiFit::Cut,
                },
            ] + code + mode + seq![blank]
        },
    }
}

/// Write the title over the top border: the unit, then its state spelled
/// out, then the mode.
///
/// The words the list gave up to fit on one line live here, where there is
/// room for them and where they are about the unit being looked at.
pub fn draw_title(
    pen: &mut UiPen,
    theme: &UiTheme,
    unit: Option<&ViewUnit>,
    area: UiArea,
    inner: UiArea,
)
    ensures
        final(pen)@ == ({
            let pieces = title_pieces(
                match unit {
                    Some(unit) => Some(unit@),
                    None => None,
                },
                *theme,
            );
            draw::laid(
                old(pen)@,
                pieces,
                pieces.len() as int,
                inner.x,
                area.y,
                inner.spec_right(),
                theme.symbols.ellipsis@,
            ).pen
        }),
{
    let plain = UiStyle::plain();
    let dim = UiStyle::dim();
    let mut pieces: Vec<UiPiece<'_>> = Vec::new();
    pieces.push(UiPiece { text: " ", style: plain, fit: UiFit::One });
    let code: String;
    match unit {
        None => {
            pieces.push(UiPiece { text: theme.texts.log.as_str(), style: dim, fit: UiFit::Clip });
        },
        Some(unit) => {
            pieces.push(
                UiPiece { text: unit.name.as_str(), style: UiStyle::bold(), fit: UiFit::Clip },
            );
            pieces.push(
                UiPiece { text: theme.symbols.separator.as_str(), style: dim, fit: UiFit::Cut },
            );
            let colored = UiStyle::colored(theme.colors.status(unit.state));
            pieces.push(
                UiPiece {
                    text: theme.texts.status(unit.state).as_str(),
                    style: colored,
                    fit: UiFit::Cut,
                },
            );
            if let RunnerState::ExitError(Some(number)) = unit.state {
                code = decimal(number.get() as usize);
                pieces.push(UiPiece { text: code.as_str(), style: colored, fit: UiFit::Cut });
            }
            if let Some(mode) = &unit.mode {
                pieces.push(
                    UiPiece { text: theme.symbols.separator.as_str(), style: dim, fit: UiFit::Cut },
                );
                pieces.push(UiPiece { text: mode.as_str(), style: dim, fit: UiFit::Clip });
            }
        },
    }
    pieces.push(UiPiece { text: " ", style: plain, fit: UiFit::One });
    assert(draw::pieces_text(pieces@) =~= title_pieces(
        match unit {
            Some(unit) => Some(unit@),
            None => None,
        },
        *theme,
    ));
    pen.lay(theme, &pieces, inner.x, area.y, inner.right());
}

/// With how far below the pane the end of the log is, written at the bottom
/// right — where there is room for it, and only while scrolled.
pub open spec fn with_behind(
    pen: PenView,
    theme: UiTheme,
    area: UiArea,
    scroll: usize,
) -> PenView {
    let arrow = theme.symbols.behind@;
    let count = text::digits(scroll as nat);
    // " ↓ 42 ", ending one short of the corner.
    let x = area.spec_right() - (draw::columns(arrow) + draw::columns(count) + 2);
    if scroll == 0 || x <= area.x {
        pen
    } else {
        let x = x as u16;
        let y = draw::left_of(area.spec_bottom() as int, 1) as u16;
        let plain = UiStyle::spec_plain();
        let right = area.spec_right() as int;
        let with_arrow = pen.put(x, y, arrow, draw::columns(arrow) as int, plain);
        let at = pen.end(x, arrow, draw::columns(arrow) as int);
        let with_count = with_arrow.put(at, y, count, draw::left_of(right, at as int), plain);
        let end = with_arrow.end(at, count, draw::left_of(right, at as int));
        with_count.put(end, y, " "@, 1, plain)
    }
}

/// Say how far below the pane the end of the log is, when it is not the pane.
///
/// Scrolled up, a log goes on without you and the pane stops changing — which
/// looks exactly like a process that has gone quiet. Drawn only while
/// scrolled, at the bottom because that is the edge you are away from. The
/// number is exact: the scroll *is* how many lines sit between the last row
/// and the newest line.
pub fn draw_behind(pen: &mut UiPen, theme: &UiTheme, area: UiArea, scroll: usize)
    ensures
        final(pen)@ == with_behind(old(pen)@, *theme, area, scroll),
{
    if scroll == 0 {
        return ;
    }
    let count = decimal(scroll);
    let arrow = theme.symbols.behind.as_str();
    let arrow_width = columns_of(arrow);
    let count_width = columns_of(count.as_str());
    let right = area.right() as usize;
    if arrow_width > right || count_width > right - arrow_width || right - arrow_width
        - count_width < 2 {
        return ;
    }
    let x = (right - arrow_width - count_width - 2) as u16;
    if x <= area.x {
        return ;
    }
    let y = area.bottom().saturating_sub(1);
    let plain = UiStyle::plain();
    let at = pen.put(x, y, arrow, arrow_width, plain);
    let end = pen.put(at, y, count.as_str(), room(at, area.right()), plain);
    pen.put(end, y, " ", 1, plain);
}

/// Where the text goes inside a log pane: indented on both sides.
pub open spec fn text_area(inner: UiArea) -> UiArea {
    UiArea {
        x: draw::counted(inner.x + LOG_PAD_X),
        width: draw::left_of(inner.width as int, 2 * LOG_PAD_X) as u16,
        ..inner
    }
}

/// A colour a sequence named, as a terminal takes it.
pub open spec fn color_of(color: LogColor) -> UiColor {
    match color {
        LogColor::Indexed(index) => UiColor::Indexed(index),
        LogColor::Rgb(red, green, blue) => UiColor::Rgb(red, green, blue),
    }
}

/// A colour a sequence named, as a terminal takes it.
pub fn color(named: LogColor) -> (taken: UiColor)
    ensures
        taken == color_of(named),
{
    match named {
        LogColor::Indexed(index) => UiColor::Indexed(index),
        LogColor::Rgb(red, green, blue) => UiColor::Rgb(red, green, blue),
    }
}

/// A style laid over `base`: its colours in place of those of `base` where it
/// has any, and its decorations beside those of `base`.
pub open spec fn style_over(base: UiStyle, style: LogStyle) -> UiStyle {
    UiStyle {
        color: match style.foreground {
            Some(color) => Some(color_of(color)),
            None => base.color,
        },
        background: match style.background {
            Some(color) => Some(color_of(color)),
            None => base.background,
        },
        bold: base.bold || style.effects.bold,
        dim: base.dim || style.effects.dim,
        italic: base.italic || style.effects.italic,
        underline: base.underline || style.effects.underline,
        reverse: base.reverse || style.effects.reverse,
        strike: base.strike || style.effects.strike,
    }
}

/// What the log found, as the screen draws it.
///
/// Folded onto `base` rather than replacing it, so a note stays dim whatever
/// colour the process asked for.
pub fn styled(base: UiStyle, style: LogStyle) -> (out: UiStyle)
    ensures
        out == style_over(base, style),
{
    UiStyle {
        color: match style.foreground {
            Some(foreground) => Some(color(foreground)),
            None => base.color,
        },
        background: match style.background {
            Some(background) => Some(color(background)),
            None => base.background,
        },
        bold: base.bold || style.effects.bold,
        dim: base.dim || style.effects.dim,
        italic: base.italic || style.effects.italic,
        underline: base.underline || style.effects.underline,
        reverse: base.reverse || style.effects.reverse,
        strike: base.strike || style.effects.strike,
    }
}

/// Where the run at `i` of a line ends: where the next one starts, or with the
/// line.
pub open spec fn run_end(line: LogLineView, i: int) -> int {
    if i + 1 < line.styles.len() {
        line.styles[i + 1].index as int
    } else {
        encode_utf8(line.text).len() as int
    }
}

/// What the run at `i` of a line puts on the screen.
pub open spec fn run_piece(line: LogLineView, i: int, base: UiStyle) -> PieceText {
    PieceText {
        text: decode_utf8(
            encode_utf8(line.text).subrange(line.styles[i].index as int, run_end(line, i)),
        ),
        style: style_over(base, line.styles[i].style),
        fit: UiFit::Cut,
    }
}

/// A line as what is before its first run, in no style of its own, and then
/// run after run. One with no runs is all in one piece.
pub open spec fn run_pieces(line: LogLineView, base: UiStyle) -> Seq<PieceText> {
    if line.styles.len() == 0 {
        if line.text.len() == 0 {
            Seq::empty()
        } else {
            seq![PieceText { text: line.text, style: base, fit: UiFit::Cut }]
        }
    } else {
        let first = line.styles[0].index as int;
        let before = if first > 0 {
            seq![
                PieceText {
                    text: decode_utf8(encode_utf8(line.text).subrange(0, first)),
                    style: base,
                    fit: UiFit::Cut,
                },
            ]
        } else {
            Seq::empty()
        };
        before + Seq::new(line.styles.len(), |i: int| run_piece(line, i, base))
    }
}

/// What is a character's start in a text is one in what is left of it past an
/// earlier one.
proof fn lemma_later_boundary(bytes: Seq<u8>, from: int, to: int)
    requires
        valid_utf8(bytes),
        is_char_boundary(bytes, from),
        is_char_boundary(bytes, to),
        0 <= from <= to <= bytes.len(),
    ensures
        is_char_boundary(bytes.subrange(from, bytes.len() as int), to - from),
{
    let rest = bytes.subrange(from, bytes.len() as int);
    valid_utf8_split(bytes, from);
    if to < bytes.len() {
        is_char_boundary_iff_not_is_continuation_byte(bytes, to);
        is_char_boundary_iff_not_is_continuation_byte(rest, to - from);
    } else {
        is_char_boundary_start_end_of_seq(rest);
    }
}

/// A character's start is within the text.
proof fn lemma_boundary_within(bytes: Seq<u8>, at: int)
    requires
        valid_utf8(bytes),
        is_char_boundary(bytes, at),
    ensures
        0 <= at <= bytes.len(),
{
}

/// What some pieces say, one after the other.
pub open spec fn said(pieces: Seq<PieceText>) -> Seq<char>
    decreases pieces.len(),
{
    if pieces.len() == 0 {
        Seq::empty()
    } else {
        said(pieces.drop_last()) + pieces.last().text
    }
}

/// Two stretches of text that meet at a character say what they are together.
proof fn lemma_stretches_meet(bytes: Seq<u8>, from: int, to: int)
    requires
        valid_utf8(bytes),
        is_char_boundary(bytes, from),
        is_char_boundary(bytes, to),
        0 <= from <= to <= bytes.len(),
    ensures
        decode_utf8(bytes.subrange(0, to)) == decode_utf8(bytes.subrange(0, from)) + decode_utf8(
            bytes.subrange(from, to),
        ),
{
    let head = bytes.subrange(0, to);
    valid_utf8_split(bytes, to);
    if from < to {
        is_char_boundary_iff_not_is_continuation_byte(bytes, from);
        is_char_boundary_iff_not_is_continuation_byte(head, from);
    } else {
        is_char_boundary_start_end_of_seq(head);
    }
    decode_utf8_split(head, from);
    assert(head.subrange(0, from) =~= bytes.subrange(0, from));
    assert(head.subrange(from, head.len() as int) =~= bytes.subrange(from, to));
}

/// Before the first run and the first `count` runs of a line, up to where the
/// last of them ends.
proof fn lemma_runs_said(line: LogLineView, base: UiStyle, count: int)
    requires
        line.wf(),
        line.styles.len() > 0,
        0 <= count <= line.styles.len(),
    ensures
        ({
            let pieces = run_pieces(line, base);
            let before = pieces.len() - line.styles.len();
            let end = if count == 0 {
                line.styles[0].index as int
            } else {
                run_end(line, count - 1)
            };
            said(pieces.take(before + count)) == decode_utf8(
                encode_utf8(line.text).subrange(0, end),
            )
        }),
    decreases count,
{
    broadcast use encode_utf8_valid_utf8;

    let bytes = encode_utf8(line.text);
    let pieces = run_pieces(line, base);
    let before = pieces.len() - line.styles.len();
    if count == 0 {
        let first = line.styles[0].index as int;
        lemma_boundary_within(bytes, first);
        if first > 0 {
            assert(pieces.take(1).drop_last() =~= Seq::empty());
            assert(said(pieces.take(1).drop_last()) =~= Seq::empty());
            assert(said(pieces.take(1)) =~= pieces[0].text);
        } else {
            assert(pieces.take(0) =~= Seq::empty());
            assert(bytes.subrange(0, 0) =~= Seq::empty());
            assert(said(pieces.take(0)) =~= decode_utf8(bytes.subrange(0, 0)));
        }
    } else {
        lemma_runs_said(line, base, count - 1);
        let at = line.styles[count - 1].index as int;
        let end = run_end(line, count - 1);
        lemma_boundary_within(bytes, at);
        if count < line.styles.len() {
            lemma_boundary_within(bytes, end);
        } else {
            is_char_boundary_start_end_of_seq(bytes);
        }
        lemma_stretches_meet(bytes, at, end);
        let sofar = pieces.take(before + count);
        assert(sofar.drop_last() =~= pieces.take(before + count - 1));
        assert(sofar.last() == run_piece(line, count - 1, base));
    }
}

/// Drawn run by run, a line is all there: what its pieces say, one after the
/// other, is what it says.
pub proof fn the_runs_are_the_line(line: LogLineView, base: UiStyle)
    requires
        line.wf(),
    ensures
        said(run_pieces(line, base)) == line.text,
{
    broadcast use {encode_utf8_valid_utf8, encode_utf8_decode_utf8};

    let pieces = run_pieces(line, base);
    let count = line.styles.len() as int;
    if count == 0 {
        if line.text.len() > 0 {
            assert(pieces.drop_last() =~= Seq::empty());
            assert(said(pieces.drop_last()) =~= Seq::empty());
        }
        assert(said(pieces) =~= line.text);
    } else {
        let bytes = encode_utf8(line.text);
        lemma_runs_said(line, base, count);
        assert(pieces.take(pieces.len() as int) =~= pieces);
        assert(bytes.subrange(0, bytes.len() as int) =~= bytes);
    }
}

/// Draw one line as the runs the log found in it.
pub fn draw_runs(
    pen: &mut UiPen,
    theme: &UiTheme,
    line: &LogLine,
    area: UiArea,
    y: u16,
    base: UiStyle,
)
    requires
        line@.wf(),
    ensures
        final(pen)@ == ({
            let pieces = run_pieces(line@, base);
            draw::laid(
                old(pen)@,
                pieces,
                pieces.len() as int,
                area.x,
                y,
                area.spec_right(),
                theme.symbols.ellipsis@,
            ).pen
        }),
{
    broadcast use {encode_utf8_valid_utf8, encode_utf8_decode_utf8};

    let text = line.text.as_str();
    let ghost bytes = encode_utf8(line.text@);
    let count = line.styles.len();
    let mut pieces: Vec<UiPiece<'_>> = Vec::new();
    if count == 0 {
        if !text.is_empty() {
            pieces.push(UiPiece { text, style: base, fit: UiFit::Cut });
        }
    } else {
        // Text before the first run, which is a line that starts in no colour
        // and picks one up part way along.
        let first = line.styles[0].index;
        let halves = text.split_at(first);
        if first > 0 {
            pieces.push(UiPiece { text: halves.0, style: base, fit: UiFit::Cut });
        }
        let ghost before = draw::pieces_text(pieces@);
        let mut rest: &str = halves.1;
        let mut i: usize = 0;
        while i < count
            invariant
                count == line.styles@.len(),
                i <= count,
                line@.wf(),
                bytes == encode_utf8(line.text@),
                i < count ==> rest.spec_bytes() == bytes.subrange(
                    line.styles@[i as int].index as int,
                    bytes.len() as int,
                ),
                draw::pieces_text(pieces@) =~= before + Seq::new(
                    i as nat,
                    |j: int| run_piece(line@, j, base),
                ),
            decreases count - i,
        {
            broadcast use {encode_utf8_valid_utf8, encode_utf8_decode_utf8};

            let run = line.styles[i];
            let style = styled(base, run.style);
            proof {
                lemma_boundary_within(bytes, run.index as int);
            }
            if i + 1 < count {
                let next = line.styles[i + 1].index;
                proof {
                    lemma_boundary_within(bytes, next as int);
                    lemma_later_boundary(bytes, run.index as int, next as int);
                }
                let halves = rest.split_at(next - run.index);
                assert(halves.0.spec_bytes() =~= bytes.subrange(run.index as int, next as int));
                assert(halves.1.spec_bytes() =~= bytes.subrange(next as int, bytes.len() as int));
                assert(halves.0@ == decode_utf8(halves.0.spec_bytes()));
                pieces.push(UiPiece { text: halves.0, style, fit: UiFit::Cut });
                rest = halves.1;
            } else {
                assert(rest@ == decode_utf8(rest.spec_bytes()));
                pieces.push(UiPiece { text: rest, style, fit: UiFit::Cut });
            }
            proof {
                let said = draw::pieces_text(pieces@);
                assert(said.last() == run_piece(line@, i as int, base));
                let sofar = Seq::new(i as nat, |j: int| run_piece(line@, j, base));
                assert(said.drop_last() =~= before + sofar);
                assert(said =~= said.drop_last().push(said.last()));
                assert((before + sofar).push(said.last()) =~= before + sofar.push(said.last()));
                assert(sofar.push(said.last()) =~= Seq::new(
                    (i + 1) as nat,
                    |j: int| run_piece(line@, j, base),
                ));
            }
            i = i + 1;
        }
    }
    assert(draw::pieces_text(pieces@) =~= run_pieces(line@, base));
    pen.lay(theme, &pieces, area.x, y, area.right());
}

/// How a line is written that says nothing else: dimly, if the supervisor
/// wrote it.
pub open spec fn line_style(line: LogLineView) -> UiStyle {
    if line.writer == 1 {
        UiStyle::spec_dim()
    } else {
        UiStyle::spec_plain()
    }
}

/// With one line on it: run by run, or all in one style.
pub open spec fn with_line(
    pen: PenView,
    theme: UiTheme,
    line: LogLineView,
    area: UiArea,
    y: u16,
) -> PenView {
    if theme.log_colors {
        let pieces = run_pieces(line, line_style(line));
        draw::laid(
            pen,
            pieces,
            pieces.len() as int,
            area.x,
            y,
            area.spec_right(),
            theme.symbols.ellipsis@,
        ).pen
    } else {
        pen.put(area.x, y, line.text, area.width as int, line_style(line))
    }
}

/// With the first `count` of some lines on it, one to a row.
pub open spec fn with_lines(
    pen: PenView,
    theme: UiTheme,
    lines: Seq<LogLineView>,
    count: int,
    area: UiArea,
) -> PenView
    decreases count,
{
    if count <= 0 {
        pen
    } else {
        with_line(
            with_lines(pen, theme, lines, count - 1, area),
            theme,
            lines[count - 1],
            area,
            draw::counted(area.y + count - 1),
        )
    }
}

/// What some copied lines say.
pub open spec fn line_views(lines: Seq<LogLine>) -> Seq<LogLineView> {
    Seq::new(lines.len(), |i: int| lines[i]@)
}

/// A log pane on the screen: its border, the title over it, how far behind it
/// is, and the lines it shows — or that there are none.
pub open spec fn with_log(
    pen: PenView,
    theme: UiTheme,
    unit: Option<UnitRow>,
    lines: Seq<LogLineView>,
    line_start: int,
    scroll: usize,
    area: UiArea,
) -> PenView {
    let inner = area.spec_inner(true);
    let inside = text_area(inner);
    let pieces = title_pieces(unit, theme);
    let bordered = pen.with(DrawView::Border { area, right: true });
    let titled = draw::laid(
        bordered,
        pieces,
        pieces.len() as int,
        inner.x,
        area.y,
        inner.spec_right(),
        theme.symbols.ellipsis@,
    ).pen;
    let behind = with_behind(titled, theme, area, scroll);
    let (start, end) = shown(
        lines.len() as int,
        line_start,
        scroll as int,
        inside.height as int,
    );
    if start >= end {
        behind.put(
            inside.x,
            inside.y,
            theme.texts.empty@,
            draw::left_of(inside.spec_right() as int, inside.x as int),
            UiStyle::spec_dim(),
        )
    } else {
        with_lines(behind, theme, lines.subrange(start, end), end - start, inside)
    }
}

/// Draw the log pane, and note how big it came out.
///
/// `lines` are what came back for it, oldest first, the last of them at
/// distance `line_start` from the newest.
pub fn render(
    pen: &mut UiPen,
    theme: &UiTheme,
    unit: Option<&ViewUnit>,
    lines: &Vec<LogLine>,
    line_start: usize,
    area: UiArea,
    state: &mut UiRenderLogState,
)
    requires
        forall|i: int| 0 <= i < lines@.len() ==> (#[trigger] lines@[i])@.wf(),
    ensures
        final(pen)@ == with_log(
            old(pen)@,
            *theme,
            match unit {
                Some(unit) => Some(unit@),
                None => None,
            },
            line_views(lines@),
            line_start as int,
            old(state)@.scroll,
            area,
        ),
        final(state)@ == (LogStateView {
            scroll: old(state)@.scroll,
            rows: text_area(area.spec_inner(true)).height,
            columns: text_area(area.spec_inner(true)).width,
        }),
{
    let inner = area.inner(true);
    pen.draw(UiDraw::Border { area, right: true });
    // Indented on both sides, and the region asked for is the narrower
    // rectangle that leaves — a line clipped to the pane's full width would
    // have its last columns written over the border.
    let inside = UiArea {
        x: inner.x.saturating_add(LOG_PAD_X),
        y: inner.y,
        width: inner.width.saturating_sub(2 * LOG_PAD_X),
        height: inner.height,
    };
    state.rows = inside.height;
    state.columns = inside.width;
    draw_title(pen, theme, unit, area, inner);
    draw_behind(pen, theme, area, state.scroll);
    let (start, end) = visible(lines.len(), line_start, state.scroll, inside.height as usize);
    if start == end {
        pen.put(
            inside.x,
            inside.y,
            theme.texts.empty.as_str(),
            room(inside.x, inside.right()),
            UiStyle::dim(),
        );
        return ;
    }
    let ghost before = pen@;
    let ghost showing = line_views(lines@).subrange(start as int, end as int);
    let mut row: usize = 0;
    while row < end - start
        invariant
            start < end <= lines@.len(),
            end - start <= inside.height,
            forall|i: int| 0 <= i < lines@.len() ==> (#[trigger] lines@[i])@.wf(),
            row <= end - start,
            showing == line_views(lines@).subrange(start as int, end as int),
            pen@ == with_lines(before, *theme, showing, row as int, inside),
        decreases end - start - row,
    {
        let line = &lines[start + row];
        assert(showing[row as int] == line@);
        // A note is the supervisor talking, not the process; dimmed so the
        // output reads first.
        let style = if line.writer.is_note() {
            UiStyle::dim()
        } else {
            UiStyle::plain()
        };
        let y = inside.y.saturating_add(row as u16);
        if theme.log_colors {
            draw_runs(pen, theme, line, inside, y, style);
        } else {
            pen.put(inside.x, y, line.text.as_str(), inside.width as usize, style);
        }
        row = row + 1;
    }
}

/// What the supervisor wrote is dim, and what a process wrote is not.
pub open spec fn quiet_if_noted(style: UiStyle, line: LogLineView) -> bool {
    &&& style.dim == (line.writer == 1)
    &&& style.color is None && style.background is None
    &&& !style.bold && !style.italic && !style.underline && !style.reverse && !style.strike
}

/// Whether a screen has `text` in row `y` as a line of a log by itself is
/// written.
pub open spec fn logs(pen: PenView, y: u16, text: Seq<char>, line: LogLineView) -> bool {
    exists|style: UiStyle| quiet_if_noted(style, line) && #[trigger] draw::tells(
        pen,
        y,
        text,
        style,
    )
}

/// What a run of a line is written in: its own colours where it has any, and
/// its own decorations, over what the line itself is written in.
pub proof fn a_run_is_written_as_it_asks(base: UiStyle, style: LogStyle)
    ensures
        ({
            let out = style_over(base, style);
            &&& style.foreground is None ==> out.color == base.color
            &&& style.background is None ==> out.background == base.background
            &&& style.foreground matches Some(LogColor::Indexed(index)) ==> out.color == Some(
                UiColor::Indexed(index),
            )
            &&& style.background matches Some(LogColor::Indexed(index)) ==> out.background == Some(
                UiColor::Indexed(index),
            )
            &&& style.foreground matches Some(LogColor::Rgb(red, green, blue)) ==> out.color
                == Some(UiColor::Rgb(red, green, blue))
            &&& style.background matches Some(LogColor::Rgb(red, green, blue)) ==> out.background
                == Some(UiColor::Rgb(red, green, blue))
            &&& out.bold <==> base.bold || style.effects.bold
            &&& out.dim <==> base.dim || style.effects.dim
            &&& out.italic <==> base.italic || style.effects.italic
            &&& out.underline <==> base.underline || style.effects.underline
            &&& out.reverse <==> base.reverse || style.effects.reverse
            &&& out.strike <==> base.strike || style.effects.strike
        }),
{
}

/// Whether a screen shows a line in row `y`: whole, where it has no runs or
/// none are drawn, and else every run of it, from where that starts to where
/// the next one does, in a style laid over the line's.
pub open spec fn shows_line(pen: PenView, theme: UiTheme, line: LogLineView, y: u16) -> bool {
    &&& !theme.log_colors || (line.styles.len() == 0 && line.text.len() > 0) ==> logs(
        pen,
        y,
        line.text,
        line,
    )
    &&& theme.log_colors ==> forall|i: int|
        0 <= i < line.styles.len() ==> draw::tells(
            pen,
            y,
            decode_utf8(
                encode_utf8(line.text).subrange(
                    (#[trigger] line.styles[i]).index as int,
                    if i + 1 < line.styles.len() {
                        line.styles[i + 1].index as int
                    } else {
                        encode_utf8(line.text).len() as int
                    },
                ),
            ),
            style_over(line_style(line), line.styles[i].style),
        )
    &&& theme.log_colors && line.styles.len() > 0 && line.styles[0].index > 0 ==> logs(
        pen,
        y,
        decode_utf8(encode_utf8(line.text).subrange(0, line.styles[0].index as int)),
        line,
    )
}

proof fn lemma_logs_stays(
    before: PenView,
    after: PenView,
    y: u16,
    text: Seq<char>,
    line: LogLineView,
)
    requires
        draw::stays(before, after),
        logs(before, y, text, line),
    ensures
        logs(after, y, text, line),
{
    let style = choose|style: UiStyle|
        quiet_if_noted(style, line) && #[trigger] draw::tells(before, y, text, style);
    draw::what_is_told_stays_told(before, after, y, text, style);
}

proof fn lemma_line_stays(
    before: PenView,
    after: PenView,
    theme: UiTheme,
    line: LogLineView,
    y: u16,
)
    requires
        draw::stays(before, after),
        shows_line(before, theme, line, y),
    ensures
        shows_line(after, theme, line, y),
{
    let bytes = encode_utf8(line.text);
    if !theme.log_colors || (line.styles.len() == 0 && line.text.len() > 0) {
        lemma_logs_stays(before, after, y, line.text, line);
    }
    if theme.log_colors {
        if line.styles.len() > 0 && line.styles[0].index > 0 {
            let text = decode_utf8(bytes.subrange(0, line.styles[0].index as int));
            lemma_logs_stays(before, after, y, text, line);
        }
        assert forall|i: int| 0 <= i < line.styles.len() implies draw::tells(
            after,
            y,
            decode_utf8(
                bytes.subrange(
                    (#[trigger] line.styles[i]).index as int,
                    if i + 1 < line.styles.len() {
                        line.styles[i + 1].index as int
                    } else {
                        bytes.len() as int
                    },
                ),
            ),
            style_over(line_style(line), line.styles[i].style),
        ) by {
            draw::what_is_told_stays_told(
                before,
                after,
                y,
                run_piece(line, i, line_style(line)).text,
                style_over(line_style(line), line.styles[i].style),
            );
        }
    }
}

proof fn lemma_line_shown(
    pen: PenView,
    theme: UiTheme,
    line: LogLineView,
    area: UiArea,
    y: u16,
)
    ensures
        draw::stays(pen, with_line(pen, theme, line, area, y)),
        shows_line(with_line(pen, theme, line, area, y), theme, line, y),
{
    let after = with_line(pen, theme, line, area, y);
    let base = line_style(line);
    assert(quiet_if_noted(base, line));
    if theme.log_colors {
        let pieces = run_pieces(line, base);
        draw::every_piece_of_a_line_is_told(
            pen,
            pieces,
            pieces.len() as int,
            area.x,
            y,
            area.spec_right(),
            theme.symbols.ellipsis@,
        );
        if line.styles.len() == 0 {
            if line.text.len() > 0 {
                assert(draw::tells(after, y, pieces[0].text, pieces[0].style));
            }
        } else {
            let before: int = if line.styles[0].index > 0 {
                1
            } else {
                0
            };
            if before == 1 {
                assert(draw::tells(after, y, pieces[0].text, pieces[0].style));
            }
            assert forall|i: int| 0 <= i < line.styles.len() implies draw::tells(
                after,
                y,
                decode_utf8(
                    encode_utf8(line.text).subrange(
                        (#[trigger] line.styles[i]).index as int,
                        if i + 1 < line.styles.len() {
                            line.styles[i + 1].index as int
                        } else {
                            encode_utf8(line.text).len() as int
                        },
                    ),
                ),
                style_over(base, line.styles[i].style),
            ) by {
                assert(pieces[before + i] == run_piece(line, i, base));
                assert(draw::tells(after, y, pieces[before + i].text, pieces[before + i].style));
            }
        }
    } else {
        draw::what_is_put_is_told(pen, area.x, y, line.text, area.width as int, base);
    }
}

proof fn lemma_lines_shown(
    pen: PenView,
    theme: UiTheme,
    lines: Seq<LogLineView>,
    count: int,
    area: UiArea,
)
    ensures
        draw::stays(pen, with_lines(pen, theme, lines, count, area)),
        forall|at: int|
            0 <= at < count ==> shows_line(
                with_lines(pen, theme, lines, count, area),
                theme,
                #[trigger] lines[at],
                draw::counted(area.y + at),
            ),
    decreases count,
{
    if count > 0 {
        let before = with_lines(pen, theme, lines, count - 1, area);
        let after = with_lines(pen, theme, lines, count, area);
        lemma_lines_shown(pen, theme, lines, count - 1, area);
        lemma_line_shown(
            before,
            theme,
            lines[count - 1],
            area,
            draw::counted(area.y + count - 1),
        );
        assert forall|at: int| 0 <= at < count implies shows_line(
            after,
            theme,
            #[trigger] lines[at],
            draw::counted(area.y + at),
        ) by {
            if at < count - 1 {
                lemma_line_stays(before, after, theme, lines[at], draw::counted(area.y + at));
            }
        }
    }
}

proof fn lemma_behind_stays(pen: PenView, theme: UiTheme, area: UiArea, scroll: usize)
    ensures
        draw::stays(pen, with_behind(pen, theme, area, scroll)),
{
}

/// How far behind a pane is is said on its bottom border, as the number of
/// lines below it, wherever there is room; and nothing is said of a pane that
/// follows its log.
pub proof fn how_far_behind_is_said_in_full(
    pen: PenView,
    theme: UiTheme,
    area: UiArea,
    scroll: usize,
)
    requires
        area.x + area.width <= u16::MAX,
        area.y + area.height <= u16::MAX,
        area.height > 0,
    ensures
        scroll == 0 ==> with_behind(pen, theme, area, scroll) == pen,
        scroll > 0 && draw::columns(theme.symbols.behind@) + draw::columns(
            text::digits(scroll as nat),
        ) + 2 < area.width ==> draw::tells(
            with_behind(pen, theme, area, scroll),
            (area.y + area.height - 1) as u16,
            text::digits(scroll as nat),
            UiStyle::spec_plain(),
        ),
{
    let arrow = theme.symbols.behind@;
    let count = text::digits(scroll as nat);
    let after = with_behind(pen, theme, area, scroll);
    if scroll > 0 && draw::columns(arrow) + draw::columns(count) + 2 < area.width {
        let y = (area.y + area.height - 1) as u16;
        assert(draw::writes(
            after.draws[(pen.draws.len() + 1) as int],
            y,
            count,
            UiStyle::spec_plain(),
        ));
    }
}

/// The rows and columns a log pane has for text: all but the border, and a
/// blank column along each side.
pub proof fn a_pane_keeps_its_edges_clear(area: UiArea)
    requires
        area.width >= 4,
        area.height >= 2,
        area.x + area.width <= u16::MAX,
        area.y + area.height <= u16::MAX,
    ensures
        ({
            let inside = text_area(area.spec_inner(true));
            &&& inside.x == area.x + 2
            &&& inside.y == area.y + 1
            &&& inside.width == area.width - 4
            &&& inside.height == area.height - 2
        }),
{
}

/// A log pane shows as many lines as it has rows, or as there are: the last of
/// them is the one at the distance it is scrolled to from the newest, and
/// those before it are above it, in order, with no row between two.
#[verifier::rlimit(60)]
pub proof fn a_log_pane_shows_the_lines_up_to_its_scroll(
    pen: PenView,
    theme: UiTheme,
    unit: Option<UnitRow>,
    lines: Seq<LogLineView>,
    line_start: int,
    scroll: usize,
    area: UiArea,
    above: int,
)
    requires
        0 <= line_start <= scroll < line_start + lines.len(),
        area.height >= 3,
        area.y + area.height <= u16::MAX,
        0 <= above < area.height - 2,
        scroll + above < line_start + lines.len(),
    ensures
        ({
            // The line so many above the one the pane is scrolled to.
            let at = lines.len() - 1 - (scroll - line_start) - above;
            let room = area.height - 2;
            let last = if at + above + 1 < room {
                at + above
            } else {
                room - 1
            };
            shows_line(
                with_log(pen, theme, unit, lines, line_start, scroll, area),
                theme,
                lines[at],
                (area.y + 1 + last - above) as u16,
            )
        }),
{
    let after = with_log(pen, theme, unit, lines, line_start, scroll, area);
    let inner = area.spec_inner(true);
    let inside = text_area(inner);
    let pieces = title_pieces(unit, theme);
    let bordered = pen.with(DrawView::Border { area, right: true });
    let titled = draw::laid(
        bordered,
        pieces,
        pieces.len() as int,
        inner.x,
        area.y,
        inner.spec_right(),
        theme.symbols.ellipsis@,
    ).pen;
    let behind = with_behind(titled, theme, area, scroll);
    let (start, end) = shown(
        lines.len() as int,
        line_start,
        scroll as int,
        inside.height as int,
    );
    let at = lines.len() - 1 - (scroll - line_start) - above;
    let showing = lines.subrange(start, end);
    lemma_lines_shown(behind, theme, showing, end - start, inside);
    assert(showing[at - start] == lines[at]);
}

/// A log pane with nothing to show says so.
pub proof fn an_empty_log_is_said_to_be(
    pen: PenView,
    theme: UiTheme,
    unit: Option<UnitRow>,
    line_start: int,
    scroll: usize,
    area: UiArea,
)
    requires
        0 <= line_start,
        area.height >= 3,
        area.y + area.height <= u16::MAX,
    ensures
        draw::tells(
            with_log(pen, theme, unit, Seq::empty(), line_start, scroll, area),
            (area.y + 1) as u16,
            theme.texts.empty@,
            UiStyle::spec_dim(),
        ),
{
    let after = with_log(pen, theme, unit, Seq::empty(), line_start, scroll, area);
    assert(draw::writes(
        after.draws.last(),
        (area.y + 1) as u16,
        theme.texts.empty@,
        UiStyle::spec_dim(),
    ));
}

/// A log pane says on its border whose log it is: the unit by name, strongly;
/// what it is doing, in the colour of that; the code it failed with, if it
/// did with one; and the mode it is on, if it is on one. Where there is no
/// unit it says it is a log.
#[verifier::rlimit(60)]
pub proof fn a_log_pane_says_whose_log_it_is(
    pen: PenView,
    theme: UiTheme,
    unit: Option<UnitRow>,
    lines: Seq<LogLineView>,
    line_start: int,
    scroll: usize,
    area: UiArea,
)
    ensures
        ({
            let after = with_log(pen, theme, unit, lines, line_start, scroll, area);
            &&& draw::stays(pen, after)
            &&& unit is None ==> draw::tells(
                after,
                area.y,
                theme.texts.log@,
                UiStyle::spec_dim(),
            )
            &&& unit matches Some(unit) ==> {
                let colored = UiStyle::spec_colored(theme.colors.color(unit.state));
                &&& draw::tells(after, area.y, unit.name, UiStyle::spec_bold())
                &&& draw::tells(after, area.y, theme.texts.word(unit.state), colored)
                &&& unit.state matches RunnerState::ExitError(Some(code)) ==> draw::tells(
                    after,
                    area.y,
                    text::digits(code.spec_get() as nat),
                    colored,
                )
                &&& unit.mode matches Some(mode) ==> draw::tells(
                    after,
                    area.y,
                    mode,
                    UiStyle::spec_dim(),
                )
            }
        }),
{
    let after = with_log(pen, theme, unit, lines, line_start, scroll, area);
    let inner = area.spec_inner(true);
    let inside = text_area(inner);
    let pieces = title_pieces(unit, theme);
    let mark = theme.symbols.ellipsis@;
    let right = inner.spec_right();
    let count = pieces.len() as int;
    let bordered = pen.with(DrawView::Border { area, right: true });
    draw::every_piece_of_a_line_is_told(bordered, pieces, count, inner.x, area.y, right, mark);
    let titled = draw::laid(bordered, pieces, count, inner.x, area.y, right, mark).pen;
    lemma_behind_stays(titled, theme, area, scroll);
    let behind = with_behind(titled, theme, area, scroll);
    let (start, end) = shown(
        lines.len() as int,
        line_start,
        scroll as int,
        inside.height as int,
    );
    lemma_lines_shown(behind, theme, lines.subrange(start, end), end - start, inside);
    assert(draw::stays(behind, after));
    assert(draw::stays(titled, after));
    assert forall|i: int| 0 <= i < count implies draw::tells(
        after,
        area.y,
        (#[trigger] pieces[i]).text,
        pieces[i].style,
    ) by {
        draw::what_is_told_stays_told(titled, after, area.y, pieces[i].text, pieces[i].style);
    }
    match unit {
        None => {
            assert(pieces[1].text == theme.texts.log@);
        },
        Some(unit) => {
            assert(pieces[1].text == unit.name);
            assert(pieces[3].text == theme.texts.word(unit.state));
            if code_text(unit.state) is Some {
                assert(pieces[4].text == code_text(unit.state)->0);
            }
            if unit.mode is Some {
                assert(pieces[count - 2].text == unit.mode->0);
            }
        },
    }
}

/// What the pane wants is as wide as it is, from the first column on, and
/// reaches no further past the lines it shows than its margin.
pub proof fn the_pane_wants_no_more_than_its_margin(state: LogStateView)
    requires
        state.scroll + state.rows + LOG_MARGIN <= usize::MAX,
    ensures
        ({
            let wanted = state.wants();
            &&& wanted.column_start == 0
            &&& wanted.column_end == state.columns
            &&& wanted.parse_ansi
            &&& wanted.line_start == 0 || wanted.line_start + LOG_MARGIN == state.scroll
            &&& wanted.line_end == state.scroll + state.rows + LOG_MARGIN
        }),
{
}

} // verus!
