//! Cutting a window out of what a reader already holds.
//!
//! The reader answers which lines; this answers which columns of them. Where a
//! line *ends* is not decided here: the pieces arrive already cut, each saying
//! whether it closed a line.

use super::id::LogWriterId;
use super::style::LogRun;
use anstyle_parse::{Parser, Perform, Utf8Parser};
use std::ops::Range;
use unicode_width::UnicodeWidthChar;
use vstd::prelude::*;
use vstd::slice::slice_subrange;
use vstd::string::*;
use vstd::utf8::*;

verus! {

/// A rectangle of a log: which lines, and which columns of them.
///
/// Shaped like the pane it is for — a window that moves in two directions
/// over text bigger than it in both, and bounded in both so that holding one
/// costs the pane and not the log.
///
/// Both pairs are half open, and both are counted from the edge the log grows
/// from.
#[derive(Clone, Copy, PartialEq, Eq, Debug, Structural)]
pub struct LogRegion {
    /// The first line, counted back from the newest: `0` is the last line,
    /// `1` the one before it.
    pub line_start: usize,
    /// One line past the last, so `2..20` is the eighteen above the last two.
    pub line_end: usize,
    /// The first column of each line to take.
    ///
    /// Columns, not bytes: this is a window onto a terminal, and a byte
    /// offset would cut characters in half. A character straddling either
    /// edge is left out rather than halved.
    pub column_start: usize,
    /// One column past the last.
    pub column_end: usize,
    /// Whether an escape sequence is read as one, and so takes no columns.
    ///
    /// Off, a `\x1b[31m` is four columns of text like any other and comes back
    /// in the line for whatever draws it to show.
    pub parse_ansi: bool,
}

impl LogRegion {
    /// Whether the region takes every column there is.
    pub open spec fn takes_all_columns(self) -> bool {
        self.column_start == 0 && self.column_end == usize::MAX
    }

    /// A region from the two ranges it reads best as:
    /// `LogRegion::new(2..20, 0..512)`. Escape sequences are read unless it is
    /// said otherwise.
    pub fn new(lines: Range<usize>, columns: Range<usize>) -> (region: Self)
        ensures
            region == (LogRegion {
                line_start: lines.start,
                line_end: lines.end,
                column_start: columns.start,
                column_end: columns.end,
                parse_ansi: true,
            }),
    {
        Self {
            line_start: lines.start,
            line_end: lines.end,
            column_start: columns.start,
            column_end: columns.end,
            parse_ansi: true,
        }
    }

    /// The same rectangle, reading escape sequences or not — see
    /// [`parse_ansi`](LogRegion::parse_ansi).
    pub fn with_parse_ansi(self, parse_ansi: bool) -> (region: Self)
        ensures
            region == (LogRegion { parse_ansi, ..self }),
    {
        LogRegion { parse_ansi, ..self }
    }
}

/// One line of a copied region: the text, who wrote it, and in what colours.
///
/// The id rather than an `is_note` flag, though telling a note from output is
/// what wanted it first: the same field answers which *process* a line came
/// from, and that is the other half of what a pane does with colour.
pub struct LogLine {
    /// The clipped text of the line.
    pub text: String,
    /// Who wrote it — [`LogWriterId::notes`] for the supervisor's own lines.
    pub writer: LogWriterId,
    /// The runs of the text that are written in a style of their own, in the
    /// order they start in.
    pub styles: Vec<LogRun>,
}

/// A copied line: its text, the number of the id that wrote it, and its runs.
#[verifier::ext_equal]
pub struct LogLineView {
    pub text: Seq<char>,
    pub writer: u32,
    pub styles: Seq<LogRun>,
}

impl LogLineView {
    /// Every run starts at a character, or at the end of the line, and none
    /// before the one it comes after.
    pub open spec fn wf(self) -> bool {
        &&& forall|i: int|
            0 <= i < self.styles.len() ==> is_char_boundary(
                encode_utf8(self.text),
                (#[trigger] self.styles[i]).index as int,
            )
        &&& forall|i: int, j: int|
            0 <= i < j < self.styles.len() ==> (#[trigger] self.styles[i]).index <= (
            #[trigger] self.styles[j]).index
    }
}

impl View for LogLine {
    type V = LogLineView;

    open spec fn view(&self) -> LogLineView {
        LogLineView { text: self.text@, writer: self.writer.raw(), styles: self.styles@ }
    }
}

/// `String::push` adds one character at the end.
pub assume_specification[ String::push ](string: &mut String, character: char)
    ensures
        final(string)@ == old(string)@.push(character),
;

/// `String::clear` leaves nothing, keeping the allocation.
pub assume_specification[ String::clear ](string: &mut String)
    ensures
        final(string)@ == Seq::<char>::empty(),
;

#[verifier::external_type_specification]
#[verifier::external_body]
pub struct ExUtf8Parser(Utf8Parser);

#[verifier::external_type_specification]
#[verifier::external_body]
#[verifier::reject_recursive_types(C)]
pub struct ExParser<C>(Parser<C>);

/// The bytes an escape sequence parser has been fed since it was made.
pub uninterp spec fn parser_fed(parser: Parser) -> Seq<u8>;

/// What `anstyle_parse::Parser::advance` reports as a character for the
/// screen, once it has been fed `fed` and then `byte`.
pub uninterp spec fn parser_prints(fed: Seq<u8>, byte: u8) -> Option<char>;

/// How many columns a character takes, or `None` for a control character:
/// `unicode_width::UnicodeWidthChar::width`.
pub uninterp spec fn char_columns(character: char) -> Option<usize>;

/// Whether the bytes just fed made a character the screen would show.
///
/// Every other callback is left at its default, which is the whole of what
/// this has to say: anything that is not text is a sequence, and a sequence
/// takes no columns whatever it turns out to mean.
struct LogClipShown(Option<char>);

impl View for LogClipShown {
    type V = Option<char>;

    closed spec fn view(&self) -> Option<char> {
        self.0
    }
}

impl Perform for LogClipShown {
    /// The last character printed is the one shown.
    fn print(&mut self, character: char)
        ensures
            final(self)@ == Some(character),
    {
        self.0 = Some(character);
    }
}

/// A parser that has been fed nothing, from `anstyle_parse::Parser::new`.
#[verifier::external_body]
fn parser_new() -> (parser: Parser)
    ensures
        parser_fed(parser) == Seq::<u8>::empty(),
{
    Parser::<Utf8Parser>::new()
}

/// Feed a parser one byte, by `anstyle_parse::Parser::advance`, and report the
/// character it said to print, if any. What it says is a function of the bytes
/// fed since it was made; which it is is not stated.
#[verifier::external_body]
fn parser_advance(parser: &mut Parser, byte: u8) -> (printed: Option<char>)
    ensures
        parser_fed(*final(parser)) == parser_fed(*old(parser)).push(byte),
        printed == parser_prints(parser_fed(*old(parser)), byte),
{
    let mut shown = LogClipShown(None);
    parser.advance(&mut shown, byte);
    shown.0
}

/// How many columns a character takes, by
/// `unicode_width::UnicodeWidthChar::width`. It is never more than three, and
/// never more than one for ASCII; which it is is not stated further.
#[verifier::external_body]
fn char_width(character: char) -> (columns: Option<usize>)
    ensures
        columns == char_columns(character),
        columns matches Some(columns) ==> columns <= 3,
        columns matches Some(columns) ==> ((character as u32) < 0x80 ==> columns <= 1),
{
    character.width()
}

/// The columns a character advances a line by; a control character by none.
pub open spec fn columns_of(character: char) -> int {
    match char_columns(character) {
        Some(columns) => columns as int,
        None => 0,
    }
}

/// Whether feeding `bytes` to a parser that has been fed `fed` prints
/// anything.
pub open spec fn shows(fed: Seq<u8>, bytes: Seq<u8>) -> bool
    decreases bytes.len(),
{
    bytes.len() > 0 && (parser_prints(fed, bytes[0]) is Some || shows(
        fed.push(bytes[0]),
        bytes.skip(1),
    ))
}

/// How far into a line a clip has got: the column the next character lands
/// in, and the bytes its parser has been fed.
#[verifier::ext_equal]
pub struct ClipView {
    pub column: int,
    pub fed: Seq<u8>,
}

impl ClipView {
    /// The start of a line.
    pub open spec fn start() -> ClipView {
        ClipView { column: 0, fed: Seq::empty() }
    }
}

/// What came of clipping some text: what of it is kept, and how far into the
/// line that got.
#[verifier::ext_equal]
pub struct Clipped {
    pub text: Seq<char>,
    pub clip: ClipView,
}

/// The bytes of a character.
pub open spec fn char_bytes(character: char) -> Seq<u8> {
    encode_scalar(character as u32)
}

/// The part of `text` that falls inside the region's columns.
///
/// A character of an escape sequence takes no columns and is kept wherever it
/// falls — what colours the visible run is usually set before it. A character
/// straddling an edge is dropped, since half of one is not something a
/// terminal can draw, and everything from the first one past the right hand
/// edge is left.
pub open spec fn clipped(text: Seq<char>, clip: ClipView, region: LogRegion) -> Clipped
    decreases text.len(),
{
    if text.len() == 0 {
        Clipped { text: Seq::empty(), clip }
    } else {
        let character = text[0];
        let bytes = char_bytes(character);
        let fed = if region.parse_ansi {
            clip.fed + bytes
        } else {
            clip.fed
        };
        if region.parse_ansi && !shows(clip.fed, bytes) {
            let rest = clipped(text.skip(1), ClipView { fed, ..clip }, region);
            Clipped { text: seq![character] + rest.text, clip: rest.clip }
        } else {
            let start = clip.column;
            let end = start + columns_of(character);
            let after = ClipView { column: end, fed };
            if start >= region.column_end {
                Clipped { text: Seq::empty(), clip: after }
            } else {
                let rest = clipped(text.skip(1), after, region);
                if start >= region.column_start && end <= region.column_end {
                    Clipped { text: seq![character] + rest.text, clip: rest.clip }
                } else {
                    rest
                }
            }
        }
    }
}

/// How far into a line [`clip_into`] has got.
///
/// One value and not two `&mut`s because a line arrives in pieces and both
/// halves have to survive the gap between them: a `\x1b[1;32m` sitting across
/// a chunk boundary is routine rather than a corner, and a walk that forgot it
/// was mid sequence would count the parameters as text and cut the sequence in
/// half.
///
/// Reset per line by the caller, so nothing an unterminated sequence does
/// reaches the line after it.
pub struct LogClip {
    /// The column the next character lands in. A sequence's bytes take none.
    column: usize,
    /// Where the walk is in the escape grammar. Left untouched for a region
    /// that does not read sequences, which has no grammar to be in.
    parser: Parser,
}

impl View for LogClip {
    type V = ClipView;

    closed spec fn view(&self) -> ClipView {
        ClipView { column: self.column as int, fed: parser_fed(self.parser) }
    }
}

impl LogClip {
    /// The start of a line.
    pub fn new() -> (clip: Self)
        ensures
            clip@ == ClipView::start(),
    {
        LogClip { column: 0, parser: parser_new() }
    }
}

/// How many bytes a character takes in UTF-8.
fn char_len(character: char) -> (len: usize)
    ensures
        len == char_bytes(character).len(),
        1 <= len <= 4,
        (character as u32) >= 0x80 ==> len >= 2,
{
    let code = character as u32;
    proof {
        char_is_scalar(character);
    }
    if code < 0x80 {
        1
    } else if code < 0x800 {
        2
    } else if code < 0x10000 {
        3
    } else {
        4
    }
}

/// The bytes of text, one character at a time.
proof fn lemma_encode_at(text: Seq<char>, i: int)
    requires
        0 <= i < text.len(),
    ensures
        ({
            let bytes = encode_utf8(text);
            let at = encode_utf8(text.take(i)).len() as int;
            let width = char_bytes(text[i]).len();
            &&& at + width <= bytes.len()
            &&& bytes.subrange(at, at + width) == char_bytes(text[i])
            &&& encode_utf8(text.take(i + 1)).len() == at + width
        }),
    decreases i,
{
    let bytes = encode_utf8(text);
    let first = char_bytes(text[0]);
    let rest = encode_utf8(text.drop_first());
    assert(bytes =~= first + rest);
    if i == 0 {
        assert(text.take(0) =~= Seq::empty());
        assert(text.take(1).drop_first() =~= Seq::empty());
        assert(encode_utf8(text.take(1)) =~= first + encode_utf8(Seq::empty()));
        assert(bytes.subrange(0, first.len() as int) =~= first);
    } else {
        lemma_encode_at(text.drop_first(), i - 1);
        assert(text.take(i).drop_first() =~= text.drop_first().take(i - 1));
        assert(text.take(i + 1).drop_first() =~= text.drop_first().take(i));
        assert(encode_utf8(text.take(i)) =~= first + encode_utf8(text.drop_first().take(i - 1)));
        assert(encode_utf8(text.take(i + 1)) =~= first + encode_utf8(text.drop_first().take(i)));
        let at = encode_utf8(text.drop_first().take(i - 1)).len() as int;
        let width = char_bytes(text[i]).len();
        assert(bytes.subrange(first.len() + at, first.len() + at + width) =~= rest.subrange(
            at,
            at + width,
        ));
    }
}

/// Feed every byte of a character, and say whether it made something the
/// screen would show.
fn feed_char(clip: &mut LogClip, bytes: &[u8]) -> (shown: bool)
    ensures
        shown == shows(old(clip)@.fed, bytes@),
        final(clip)@ == (ClipView { fed: old(clip)@.fed + bytes@, ..old(clip)@ }),
{
    let mut shown = false;
    let mut i: usize = 0;
    proof {
        assert(bytes@.skip(0) =~= bytes@);
        assert(clip@.fed + bytes@.take(0) =~= clip@.fed);
    }
    while i < bytes.len()
        invariant
            i <= bytes@.len(),
            clip@ == (ClipView { fed: old(clip)@.fed + bytes@.take(i as int), ..old(clip)@ }),
            shows(old(clip)@.fed, bytes@) == (shown || shows(clip@.fed, bytes@.skip(i as int))),
        decreases bytes@.len() - i,
    {
        proof {
            assert(bytes@.skip(i as int).skip(1) =~= bytes@.skip(i + 1));
            assert((old(clip)@.fed + bytes@.take(i as int)).push(bytes@[i as int])
                =~= old(clip)@.fed + bytes@.take(i + 1));
        }
        if parser_advance(&mut clip.parser, bytes[i]).is_some() {
            shown = true;
        }
        i = i + 1;
    }
    assert(bytes@.take(i as int) =~= bytes@);
    shown
}

/// Append the part of `text` that falls inside the region's columns.
///
/// The clip is advanced past all of `text` whether or not any of it was taken
/// — the window is over the line, and a piece entirely to the left of it still
/// moves the position along. A region that takes every column keeps all of a
/// text that ends within them.
pub fn clip_into(out: &mut String, text: &str, clip: &mut LogClip, region: LogRegion)
    requires
        old(clip)@.column + 2 * text.spec_bytes().len() <= usize::MAX,
    ensures
        final(out)@ == old(out)@ + clipped(text@, old(clip)@, region).text,
        final(clip)@ == clipped(text@, old(clip)@, region).clip,
        final(clip)@.column <= old(clip)@.column + 2 * text.spec_bytes().len(),
        region.takes_all_columns() && old(clip)@.column + 2 * text.spec_bytes().len() < usize::MAX
            ==> final(out)@ == old(out)@ + text@,
{
    let bytes = text.as_bytes();
    let ghost whole = clipped(text@, clip@, region);
    let mut at: usize = 0;
    proof {
        assert(text@.skip(0) =~= text@);
        assert(text@.take(0) =~= Seq::empty());
        assert(out@ + whole.text =~= old(out)@ + whole.text);
        assert(out@ =~= old(out)@ + text@.take(0));
    }
    for character in chars: text.chars()
        invariant
            chars.seq() == text@,
            bytes@ == encode_utf8(text@),
            at == encode_utf8(text@.take(chars.index() as int)).len(),
            at <= bytes@.len(),
            clip@.column <= old(clip)@.column + 2 * at,
            old(clip)@.column + 2 * bytes@.len() <= usize::MAX,
            whole == clipped(text@, old(clip)@, region),
            ({
                let rest = clipped(text@.skip(chars.index() as int), clip@, region);
                &&& old(out)@ + whole.text == out@ + rest.text
                &&& whole.clip == rest.clip
            }),
            region.takes_all_columns() && old(clip)@.column + 2 * bytes@.len() < usize::MAX
                ==> out@ == old(out)@ + text@.take(chars.index() as int),
    {
        let ghost i = chars.index() as int;
        let ghost before = clip@;
        let ghost before_out = out@;
        let width = char_len(character);
        proof {
            lemma_encode_at(text@, i);
            assert(text@.skip(i).skip(1) =~= text@.skip(i + 1));
            assert(text@.skip(i)[0] == character);
            assert(old(out)@ + text@.take(i + 1) =~= (old(out)@ + text@.take(i)).push(character));
        }
        // Unparsed, a sequence is text: every character counts a column and
        // the window falls where the bytes fall.
        let sequence = region.parse_ansi && !feed_char(
            clip,
            slice_subrange(bytes, at, at + width),
        );
        at = at + width;
        if sequence {
            // A sequence's own bytes. They take no columns, and are kept
            // wherever they fall — including left of the window, since what
            // colours the visible run is usually set before it.
            out.push(character);
            proof {
                let rest = clipped(text@.skip(i + 1), clip@, region);
                assert(before_out + (seq![character] + rest.text) =~= out@ + rest.text);
            }
        } else {
            let start = clip.column;
            let columns = match char_width(character) {
                Some(columns) => columns,
                None => 0,
            };
            clip.column = start + columns;
            if start >= region.column_end {
                // Past the right hand edge, and so is everything after it.
                assert(before_out + Seq::<char>::empty() =~= out@);
                return ;
            }
            // A character straddling an edge is dropped: half of one is not
            // something a terminal can draw.
            if start >= region.column_start && clip.column <= region.column_end {
                out.push(character);
                proof {
                    let rest = clipped(text@.skip(i + 1), clip@, region);
                    assert(before_out + (seq![character] + rest.text) =~= out@ + rest.text);
                }
            }
        }
    }
    proof {
        assert(text@.skip(text@.len() as int) =~= Seq::empty());
        assert(text@.take(text@.len() as int) =~= text@);
        assert(out@ + Seq::<char>::empty() =~= out@);
    }
}

/// The window is over the line and not over any piece of it: clipping two
/// pieces one after the other keeps what clipping them joined keeps, so long
/// as the first does not run past the right hand edge.
pub proof fn clipping_is_over_the_line(
    first: Seq<char>,
    second: Seq<char>,
    clip: ClipView,
    region: LogRegion,
)
    requires
        inside_edge(first, clip, region),
    ensures
        ({
            let head = clipped(first, clip, region);
            let tail = clipped(second, head.clip, region);
            clipped(first + second, clip, region) == (Clipped {
                text: head.text + tail.text,
                clip: tail.clip,
            })
        }),
    decreases first.len(),
{
    let whole = clipped(first + second, clip, region);
    if first.len() == 0 {
        assert(first + second =~= second);
        assert(whole.text =~= Seq::empty() + whole.text);
    } else {
        let next = clip_step(first[0], clip, region);
        clipping_is_over_the_line(first.skip(1), second, next, region);
        assert((first + second).skip(1) =~= first.skip(1) + second);
        let head = clipped(first.skip(1), next, region);
        let tail = clipped(second, head.clip, region);
        assert(seq![first[0]] + (head.text + tail.text) =~= seq![first[0]] + head.text
            + tail.text);
    }
}

/// Where one character moves a clip to.
pub open spec fn clip_step(character: char, clip: ClipView, region: LogRegion) -> ClipView {
    let bytes = char_bytes(character);
    let fed = if region.parse_ansi {
        clip.fed + bytes
    } else {
        clip.fed
    };
    if region.parse_ansi && !shows(clip.fed, bytes) {
        ClipView { fed, ..clip }
    } else {
        ClipView { column: clip.column + columns_of(character), fed }
    }
}

/// Whether every character of `text` that takes columns starts left of the
/// region's right hand edge.
pub open spec fn inside_edge(text: Seq<char>, clip: ClipView, region: LogRegion) -> bool
    decreases text.len(),
{
    text.len() == 0 || {
        &&& (clip.column < region.column_end || (region.parse_ansi && !shows(
            clip.fed,
            char_bytes(text[0]),
        )))
        &&& inside_edge(text.skip(1), clip_step(text[0], clip, region), region)
    }
}

/// How many columns the characters of `text` that are kept for the screen
/// take between them.
pub open spec fn kept_columns(text: Seq<char>, clip: ClipView, region: LogRegion) -> int
    decreases text.len(),
{
    if text.len() == 0 {
        0
    } else {
        let next = clip_step(text[0], clip, region);
        if region.parse_ansi && !shows(clip.fed, char_bytes(text[0])) {
            kept_columns(text.skip(1), next, region)
        } else if clip.column >= region.column_end {
            0
        } else if clip.column >= region.column_start && next.column <= region.column_end {
            columns_of(text[0]) + kept_columns(text.skip(1), next, region)
        } else {
            kept_columns(text.skip(1), next, region)
        }
    }
}

/// A clip is no wider than its window: what it keeps of a line for the screen
/// takes no more columns than lie between the region's edges, however long
/// the line is.
pub proof fn a_clip_is_no_wider_than_its_window(
    text: Seq<char>,
    clip: ClipView,
    region: LogRegion,
)
    requires
        region.column_start <= region.column_end,
    ensures
        clipped(text, clip, region).text.len() <= text.len(),
        0 <= kept_columns(text, clip, region) <= region.column_end - region.column_start,
        clip.column >= region.column_start ==> kept_columns(text, clip, region) <= if clip.column
            < region.column_end {
            region.column_end - clip.column
        } else {
            0
        },
    decreases text.len(),
{
    if text.len() > 0 {
        a_clip_is_no_wider_than_its_window(
            text.skip(1),
            clip_step(text[0], clip, region),
            region,
        );
    }
}

/// Make sure `out` has an empty line at `line`, reusing the string there.
///
/// Which is what keeps a caller that hands the same `Vec` back on every call
/// from paying for a pane's worth of strings each time.
pub fn open_line(out: &mut Vec<LogLine>, line: usize, writer: LogWriterId)
    requires
        line <= old(out)@.len(),
    ensures
        final(out)@.len() == if line < old(out)@.len() {
            old(out)@.len()
        } else {
            old(out)@.len() + 1
        },
        final(out)@[line as int]@ == (LogLineView {
            text: Seq::empty(),
            writer: writer.raw(),
            styles: Seq::empty(),
        }),
        forall|i: int|
            0 <= i < old(out)@.len() && i != line ==> (#[trigger] final(out)@[i]) == old(out)@[i],
{
    if line < out.len() {
        let mut text = String::new();
        std::mem::swap(&mut text, &mut out[line].text);
        text.clear();
        out.set(line, LogLine { text, writer, styles: Vec::new() });
    } else {
        out.push(LogLine { text: String::new(), writer, styles: Vec::new() });
    }
}

/// One character is kept exactly where it lies between the region's edges,
/// all of it, or takes no columns because it is part of a sequence; and it
/// moves the line on by its columns, unless it is.
pub proof fn a_character_is_kept_inside_the_window(
    character: char,
    clip: ClipView,
    region: LogRegion,
)
    ensures
        ({
            let kept = clipped(seq![character], clip, region);
            let sequence = region.parse_ansi && !shows(clip.fed, char_bytes(character));
            let end = clip.column + columns_of(character);
            &&& clipped(Seq::empty(), clip, region).text.len() == 0
            &&& sequence ==> kept.text == seq![character] && kept.clip.column == clip.column
            &&& !sequence ==> kept.clip.column == end
            &&& !sequence && region.column_start <= clip.column && end <= region.column_end
                && clip.column < region.column_end ==> kept.text == seq![character]
            &&& !sequence && !(region.column_start <= clip.column && end <= region.column_end
                && clip.column < region.column_end) ==> kept.text.len() == 0
        }),
{
    let one = seq![character];
    assert(one.skip(1) =~= Seq::empty());
    reveal_with_fuel(clipped, 2);
    assert(one + Seq::<char>::empty() =~= one);
}

/// Nothing is kept past the right hand edge: once a character that takes
/// columns starts there, whatever follows adds nothing.
pub proof fn nothing_is_kept_past_the_edge(
    first: Seq<char>,
    second: Seq<char>,
    clip: ClipView,
    region: LogRegion,
)
    requires
        !inside_edge(first, clip, region),
    ensures
        clipped(first + second, clip, region).text == clipped(first, clip, region).text,
    decreases first.len(),
{
    if first.len() > 0 {
        let whole = first + second;
        assert(whole[0] == first[0]);
        assert(whole.skip(1) =~= first.skip(1) + second);
        if clip.column < region.column_end || (region.parse_ansi && !shows(
            clip.fed,
            char_bytes(first[0]),
        )) {
            let next = clip_step(first[0], clip, region);
            nothing_is_kept_past_the_edge(first.skip(1), second, next, region);
        }
    }
}

} // verus!
