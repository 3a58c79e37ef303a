//! One line under construction, assembled from whatever the pipe hands over.

use super::chunk;
use crate::util::utf8;
use crate::util::utf8::{is_partial, scalar_width, utf8_str, UTF8_MAX_WIDTH};
use vstd::prelude::*;
use vstd::slice::slice_subrange;
use vstd::string::*;
use vstd::utf8::*;

verus! {

/// How much of a single line is assembled before it has to be handed over.
///
/// Sized from measured output — a median around 45 bytes and a 99th
/// percentile around 170 — so a kibibyte holds essentially every real line
/// whole and the fragment path stays for genuine outliers: a minified bundle,
/// a `--verbose` compiler invocation.
///
/// One of these exists per reader task, not per log, so the room is cheap.
pub const LOG_LINE_SIZE: usize = 1024;

/// Why the line stopped taking bytes.
#[derive(Clone, Copy, PartialEq, Eq, Debug, Structural)]
pub enum LogBufferLineState {
    /// Still taking bytes.
    Open,
    /// A newline closed it, so this is a whole line.
    Complete,
    /// It ran out of room first, so the line goes on in the next one.
    Fragment,
}

/// A line under construction: its text so far, how much of that a chunk has
/// already taken, and why it stopped taking bytes.
#[verifier::ext_equal]
pub struct LineView {
    pub text: Seq<u8>,
    pub taken: int,
    pub state: LogBufferLineState,
}

/// What came of offering bytes to an open line.
#[verifier::ext_equal]
pub struct LineFed {
    /// How many of the bytes were consumed.
    pub taken: int,
    /// What they added to the text.
    pub text: Seq<u8>,
    /// How the line stands afterwards.
    pub state: LogBufferLineState,
}

/// Whether a line holding `len` bytes has room for any character there is.
pub open spec fn line_has_room(len: int) -> bool {
    len <= LOG_LINE_SIZE - UTF8_MAX_WIDTH
}

/// Offer `input` to an open line holding `len` bytes.
///
/// Characters go in one at a time, a byte that is part of none as a
/// replacement, until a newline closes the line, the room for one more runs
/// out, or — while `more` is coming — what is left is a character cut short.
pub open spec fn line_fed(len: int, input: Seq<u8>, more: bool) -> LineFed
    decreases input.len(),
{
    if input.len() > 0 && input[0] == 0x0a {
        LineFed { taken: 1, text: Seq::empty(), state: LogBufferLineState::Complete }
    } else if !line_has_room(len) {
        LineFed { taken: 0, text: Seq::empty(), state: LogBufferLineState::Fragment }
    } else if input.len() == 0 || (more && utf8::is_partial_scalar(input)) {
        LineFed { taken: 0, text: Seq::empty(), state: LogBufferLineState::Open }
    } else {
        proof {
            utf8::lemma_unit(input);
        }
        let width = utf8::unit_width(input);
        let text = utf8::unit_text(input);
        let rest = line_fed(len + text.len(), input.skip(width), more);
        LineFed { taken: width + rest.taken, text: text + rest.text, state: rest.state }
    }
}

impl LineView {
    /// A whole line, none of it placed yet.
    pub open spec fn whole(text: Seq<u8>) -> LineView {
        LineView { text, taken: 0, state: LogBufferLineState::Complete }
    }

    /// A line holding nothing.
    pub open spec fn empty() -> LineView {
        LineView { text: Seq::empty(), taken: 0, state: LogBufferLineState::Open }
    }

    /// The text not yet taken by a chunk.
    pub open spec fn pending(self) -> Seq<u8> {
        self.text.skip(self.taken)
    }

    /// The line once `n` more bytes of it are taken.
    pub open spec fn consumed(self, n: int) -> LineView {
        LineView { taken: self.taken + n, ..self }
    }

    /// The line once it has been offered `input`; a ready one takes nothing.
    pub open spec fn fed(self, input: Seq<u8>, more: bool) -> LineView {
        if self.state != LogBufferLineState::Open {
            self
        } else {
            let fed = line_fed(self.text.len() as int, input, more);
            LineView { text: self.text + fed.text, taken: self.taken, state: fed.state }
        }
    }

    /// How many bytes of `input` the line takes.
    pub open spec fn takes(self, input: Seq<u8>, more: bool) -> int {
        if self.state != LogBufferLineState::Open {
            0
        } else {
            line_fed(self.text.len() as int, input, more).taken
        }
    }

    /// The line once its stream has ended.
    pub open spec fn sealed(self) -> LineView {
        if self.state == LogBufferLineState::Open {
            LineView { state: LogBufferLineState::Complete, ..self }
        } else {
            self
        }
    }

    /// Whether what is left of the line can be placed: it is text, cut
    /// between characters.
    pub open spec fn placeable(self) -> bool {
        &&& valid_utf8(self.text)
        &&& 0 <= self.taken <= self.text.len()
        &&& is_char_boundary(self.text, self.taken)
    }

    /// What holds of every line: its text is text, cut for the chunks on a
    /// character boundary, and an open one has room for another character.
    pub open spec fn wf(self) -> bool {
        &&& self.placeable()
        &&& self.text.len() <= LOG_LINE_SIZE
        &&& (self.state == LogBufferLineState::Open ==> line_has_room(self.text.len() as int))
        &&& (self.state == LogBufferLineState::Fragment ==> !line_has_room(self.text.len() as int))
    }
}

/// A line being built out of raw bytes.
///
/// Sits between the pipe and storage, and owns the two things raw bytes need
/// before they can be stored: they have to be split into lines, and they have
/// to be turned into text.
///
/// [`write`](LogBufferLine::write) takes raw bytes and reports how many it
/// consumed, leaving the caller to advance its reader by that much and
/// re-offer the rest. It stops on a newline, when it runs out of room, or
/// when the input ends mid-character — the only case where it takes nothing
/// without the line being ready, and at most three bytes.
pub struct LogBufferLine {
    buf: Vec<u8>,
    /// How much of the text a chunk has already taken.
    taken: usize,
    state: LogBufferLineState,
}

impl View for LogBufferLine {
    type V = LineView;

    closed spec fn view(&self) -> LineView {
        LineView { text: self.buf@, taken: self.taken as int, state: self.state }
    }
}

impl LogBufferLine {
    /// Build an empty line, with room for a whole one.
    pub fn new() -> (line: Self)
        ensures
            line@ == LineView::empty(),
            line@.wf(),
    {
        proof {
            is_char_boundary_start_end_of_seq(Seq::empty());
        }
        Self { buf: Vec::with_capacity(LOG_LINE_SIZE), taken: 0, state: LogBufferLineState::Open }
    }

    /// Empty it and reopen it for writing, keeping the buffer.
    ///
    /// Called once the content has been handed on. Without the state reset a
    /// reused line comes back already ready, and every later write returns 0
    /// for ever.
    pub fn clear(&mut self)
        ensures
            final(self)@ == LineView::empty(),
            final(self)@.wf(),
    {
        proof {
            is_char_boundary_start_end_of_seq(Seq::empty());
        }
        self.buf.clear();
        self.taken = 0;
        self.state = LogBufferLineState::Open;
    }

    /// The text not yet taken by a chunk.
    pub fn pending(&self) -> (text: &str)
        requires
            self@.wf(),
        ensures
            text.spec_bytes() == self@.pending(),
    {
        proof {
            valid_utf8_split(self.buf@, self.taken as int);
            assert(self.buf@.skip(self.taken as int) =~= self.buf@.subrange(
                self.taken as int,
                self.buf@.len() as int,
            ));
        }
        utf8_str(slice_subrange(self.buf.as_slice(), self.taken, self.buf.len()))
    }

    /// Mark `n` more bytes as taken.
    ///
    /// Called by the chunk that copied them. `n` always lands on a character
    /// boundary, because a chunk never takes half of one.
    pub fn consume(&mut self, n: usize)
        requires
            old(self)@.wf(),
            old(self)@.taken + n <= old(self)@.text.len(),
            is_char_boundary(old(self)@.text, old(self)@.taken + n),
        ensures
            final(self)@ == old(self)@.consumed(n as int),
            final(self)@.wf(),
    {
        self.taken = self.taken + n;
    }

    /// Whether every byte has been placed.
    pub fn is_drained(&self) -> (result: bool)
        ensures
            result == (self@.taken == self@.text.len()),
    {
        self.taken == self.buf.len()
    }

    /// Whether there is something to hand over — a whole line, or as much of
    /// one as fits.
    pub fn is_ready(&self) -> (result: bool)
        ensures
            result == (self@.state != LogBufferLineState::Open),
    {
        self.state != LogBufferLineState::Open
    }

    /// Whether a newline closed it, rather than it being the head of a longer
    /// line whose rest is still coming.
    pub fn is_complete(&self) -> (result: bool)
        ensures
            result == (self@.state == LogBufferLineState::Complete),
    {
        self.state == LogBufferLineState::Complete
    }

    /// The line so far, as text.
    pub fn as_str(&self) -> (text: &str)
        requires
            self@.wf(),
        ensures
            text.spec_bytes() == self@.text,
    {
        utf8_str(self.buf.as_slice())
    }

    /// The line so far, as bytes.
    pub fn as_bytes(&self) -> (bytes: &[u8])
        ensures
            bytes@ == self@.text,
    {
        self.buf.as_slice()
    }

    /// How many bytes of text the line holds.
    ///
    /// Bytes, not characters, and not the number of bytes fed in: the newline
    /// that closed it was consumed without being stored, and every
    /// undecodable byte became three.
    pub fn len(&self) -> (len: usize)
        ensures
            len == self@.text.len(),
    {
        self.buf.len()
    }

    /// Whether the line holds no text.
    pub fn is_empty(&self) -> (result: bool)
        ensures
            result == (self@.text.len() == 0),
    {
        self.buf.len() == 0
    }

    /// Whether another character still fits.
    ///
    /// Holding back the width of the widest character is what keeps the write
    /// loop to a single space test: from here, anything one step can store —
    /// an ASCII byte, a four byte character, a three byte replacement — is
    /// guaranteed to fit.
    fn has_room(&self) -> (result: bool)
        ensures
            result == line_has_room(self@.text.len() as int),
    {
        self.buf.len() <= LOG_LINE_SIZE - UTF8_MAX_WIDTH
    }

    /// Consume bytes, returning how many were taken.
    ///
    /// Stops at the newline that ends the line, when there is no more room,
    /// or when the input ends mid-character.
    ///
    /// The count is bytes taken from `buf`, which is not the same as the
    /// growth in content: a newline is consumed but not stored, and one bad
    /// byte is consumed but stores three.
    pub fn write(&mut self, buf: &[u8]) -> (taken: usize)
        requires
            old(self)@.wf(),
        ensures
            taken == old(self)@.takes(buf@, true),
            taken <= buf@.len(),
            final(self)@ == old(self)@.fed(buf@, true),
            final(self)@.wf(),
    {
        self.write_inner(buf, true)
    }

    /// [`write`](LogBufferLine::write) for the last bytes of a stream.
    ///
    /// Nothing more is coming, so a trailing partial character can never be
    /// completed and becomes replacement characters rather than being held
    /// back. Without this the caller would be stuck re-offering those bytes
    /// to a line that keeps returning 0.
    pub fn write_eof(&mut self, buf: &[u8]) -> (taken: usize)
        requires
            old(self)@.wf(),
        ensures
            taken == old(self)@.takes(buf@, false),
            taken <= buf@.len(),
            final(self)@ == old(self)@.fed(buf@, false),
            final(self)@.wf(),
    {
        self.write_inner(buf, false)
    }

    /// Close a line the stream ended without terminating.
    ///
    /// A process whose last output has no trailing newline still wrote a
    /// line, and it would otherwise sit here unready for ever.
    pub fn seal(&mut self)
        requires
            old(self)@.wf(),
        ensures
            final(self)@ == old(self)@.sealed(),
            final(self)@.wf(),
    {
        if self.state == LogBufferLineState::Open {
            self.state = LogBufferLineState::Complete;
        }
    }

    /// Shared body; `more_coming` says whether a partial tail may be held.
    fn write_inner(&mut self, buf: &[u8], more_coming: bool) -> (taken: usize)
        requires
            old(self)@.wf(),
        ensures
            taken == old(self)@.takes(buf@, more_coming),
            taken <= buf@.len(),
            final(self)@ == old(self)@.fed(buf@, more_coming),
            final(self)@.wf(),
    {
        if self.is_ready() {
            return 0;
        }
        let ghost whole = line_fed(self.buf@.len() as int, buf@, more_coming);
        let mut taken: usize = 0;
        proof {
            assert(buf@.skip(0) =~= buf@);
        }
        while taken < buf.len()
            invariant
                taken <= buf@.len(),
                old(self)@.wf(),
                old(self).state == LogBufferLineState::Open,
                self.state == LogBufferLineState::Open,
                self.taken == old(self).taken,
                valid_utf8(self.buf@),
                self.taken <= self.buf@.len(),
                is_char_boundary(self.buf@, self.taken as int),
                self.buf@.len() <= LOG_LINE_SIZE,
                whole == line_fed(old(self).buf@.len() as int, buf@, more_coming),
                ({
                    let rest = line_fed(self.buf@.len() as int, buf@.skip(taken as int), more_coming);
                    &&& whole.taken == taken + rest.taken
                    &&& whole.text.len() == self.buf@.len() - old(self).buf@.len() + rest.text.len()
                    &&& old(self).buf@ + whole.text == self.buf@ + rest.text
                    &&& whole.state == rest.state
                }),
            decreases buf@.len() - taken,
        {
            let byte = buf[taken];
            let ghost rest_bytes = buf@.skip(taken as int);
            let ghost before = self.buf@;
            proof {
                utf8::lemma_unit(rest_bytes);
            }

            // A newline stores nothing, so it is taken even with no room
            // left — otherwise a maximally long line would be followed by a
            // spurious empty one.
            if byte == 0x0a {
                self.state = LogBufferLineState::Complete;
                return taken + 1;
            }
            if !self.has_room() {
                self.state = LogBufferLineState::Fragment;
                return taken;
            }
            // ASCII is nearly all of it, and needs no decoding.
            if byte < 0x80 {
                proof {
                    if utf8::is_partial_scalar(rest_bytes) {
                        utf8::lemma_partial(rest_bytes);
                    }
                    valid_utf8_concat(self.buf@, utf8::unit_text(rest_bytes));
                    utf8::lemma_boundary_stays(
                        self.buf@,
                        utf8::unit_text(rest_bytes),
                        self.taken as int,
                    );
                    assert(self.buf@ + seq![byte] =~= self.buf@.push(byte));
                    assert(rest_bytes.skip(1) =~= buf@.skip(taken + 1));
                }
                self.buf.push(byte);
                taken = taken + 1;
                proof {
                    let rest = line_fed(self.buf@.len() as int, buf@.skip(taken as int), more_coming);
                    assert(before + (utf8::unit_text(rest_bytes) + rest.text) =~= self.buf@ + rest.text);
                }
                continue;
            }
            let rest = slice_subrange(buf, taken, buf.len());
            assert(rest@ =~= rest_bytes);

            // Not all there yet. Hold it back only while it could still
            // become a real character; past three bytes it cannot.
            if more_coming && is_partial(rest) {
                return taken;
            }
            proof {
                valid_utf8_concat(self.buf@, utf8::unit_text(rest_bytes));
                utf8::lemma_boundary_stays(
                    self.buf@,
                    utf8::unit_text(rest_bytes),
                    self.taken as int,
                );
                assert(rest_bytes.skip(utf8::unit_width(rest_bytes)) =~= buf@.skip(
                    taken + utf8::unit_width(rest_bytes),
                ));
            }
            let width = scalar_width(rest);
            proof {
                reveal(utf8::unit_width);
                reveal(utf8::unit_text);
            }
            if width > 0 {
                let text = slice_subrange(rest, 0, width);
                self.buf.extend_from_slice(text);
                assert(self.buf@ =~= before + utf8::unit_text(rest_bytes));
                taken = taken + width;
            } else {
                // Undecodable. Store a replacement and step over one byte, so
                // a broken sequence can still resynchronise on the next
                // character.
                self.buf.push(0xef);
                self.buf.push(0xbf);
                self.buf.push(0xbd);
                assert(self.buf@ =~= before + utf8::unit_text(rest_bytes));
                taken = taken + 1;
            }
            proof {
                let rest = line_fed(self.buf@.len() as int, buf@.skip(taken as int), more_coming);
                assert(before + (utf8::unit_text(rest_bytes) + rest.text) =~= self.buf@ + rest.text);
            }
        }
        proof {
            assert(self.buf@ + Seq::<u8>::empty() =~= self.buf@);
        }

        // The input ran out just as the room did. Settling it here spares the
        // caller a further `write` that could only come back as 0.
        if !self.has_room() {
            self.state = LogBufferLineState::Fragment;
        }
        taken
    }
}

/// Whatever an open line takes, nothing is lost: what it stored, the newline
/// that closed it, and the decode of what it left are the decode of the whole
/// — and of the whole with whatever comes next, if more was to come.
pub proof fn line_feeding_loses_nothing(len: int, input: Seq<u8>, more: bool, next: Seq<u8>)
    requires
        more || next.len() == 0,
    ensures
        ({
            let fed = line_fed(len, input, more);
            &&& 0 <= fed.taken <= input.len()
            &&& utf8::lossy(input + next) == fed.text + newline_of(fed.state) + utf8::lossy(
                input.skip(fed.taken) + next,
            )
        }),
    decreases input.len(),
{
    let fed = line_fed(len, input, more);
    let whole = input + next;
    if input.len() > 0 && input[0] == 0x0a {
        utf8::lemma_unit(whole);
        assert(whole.skip(1) =~= input.skip(1) + next);
        assert(fed.text + newline_of(fed.state) =~= utf8::unit_text(whole));
    } else if !line_has_room(len) || input.len() == 0 || (more && utf8::is_partial_scalar(input)) {
        assert(input.skip(0) =~= input);
        assert(fed.text + newline_of(fed.state) + utf8::lossy(whole) =~= utf8::lossy(whole));
    } else {
        let width = utf8::unit_width(input);
        let text = utf8::unit_text(input);
        utf8::lemma_unit(input);
        if more {
            utf8::lemma_unit_stable(input, next);
        } else {
            assert(whole =~= input);
        }
        line_feeding_loses_nothing(len + text.len(), input.skip(width), more, next);
        let rest = line_fed(len + text.len(), input.skip(width), more);
        assert(whole.skip(width) =~= input.skip(width) + next);
        assert(input.skip(width).skip(rest.taken) =~= input.skip(fed.taken));
        let tail = utf8::lossy(input.skip(fed.taken) + next);
        let close = newline_of(fed.state);
        assert(text + (rest.text + close + tail) =~= (text + rest.text) + close + tail);
    }
}

/// An open line with room takes something of any last input there is.
pub proof fn lemma_line_takes(len: int, input: Seq<u8>, more: bool)
    requires
        line_has_room(len),
        input.len() > 0,
        !more || !utf8::is_partial_scalar(input),
    ensures
        line_fed(len, input, more).taken > 0,
{
    utf8::lemma_unit(input);
    if input[0] != 0x0a {
        line_feeding_loses_nothing(
            len + utf8::unit_text(input).len(),
            input.skip(utf8::unit_width(input)),
            more,
            Seq::empty(),
        );
    }
}

/// Input that ends in a newline leaves no line open: it closes one, or runs
/// out of room before that newline.
pub proof fn lemma_newline_closes(len: int, input: Seq<u8>, more: bool)
    requires
        input.len() > 0,
        input.last() == 0x0a,
    ensures
        line_fed(len, input, more).state != LogBufferLineState::Open,
        line_fed(len, input, more).state == LogBufferLineState::Fragment ==> line_fed(
            len,
            input,
            more,
        ).taken < input.len(),
    decreases input.len(),
{
    if input[0] != 0x0a && line_has_room(len) {
        utf8::lemma_newline_stands_alone(input);
        utf8::lemma_unit(input);
        let width = utf8::unit_width(input);
        let rest = input.skip(width);
        assert(rest.last() == 0x0a);
        lemma_newline_closes(len + utf8::unit_text(input).len(), rest, more);
    }
}

/// What a line that is still open leaves is a character cut short — at most
/// three bytes — or, at the end of a stream, nothing.
pub proof fn a_line_holds_back_at_most_a_character(len: int, input: Seq<u8>, more: bool)
    ensures
        ({
            let fed = line_fed(len, input, more);
            fed.state == LogBufferLineState::Open ==> {
                let rest = input.skip(fed.taken);
                rest.len() == 0 || (more && utf8::is_partial_scalar(rest) && rest.len() <= 3)
            }
        }),
    decreases input.len(),
{
    if input.len() > 0 && input[0] == 0x0a || !line_has_room(len) {
    } else if input.len() == 0 || (more && utf8::is_partial_scalar(input)) {
        assert(input.skip(0) =~= input);
        if input.len() > 0 {
            utf8::lemma_partial(input);
        }
    } else {
        let width = utf8::unit_width(input);
        utf8::lemma_unit(input);
        let next = len + utf8::unit_text(input).len();
        line_feeding_loses_nothing(next, input.skip(width), more, Seq::empty());
        a_line_holds_back_at_most_a_character(next, input.skip(width), more);
        let rest = line_fed(next, input.skip(width), more);
        assert(input.skip(width).skip(rest.taken) =~= input.skip(width + rest.taken));
    }
}

/// The newline that closing a line consumed without storing.
pub open spec fn newline_of(state: LogBufferLineState) -> Seq<u8> {
    if state == LogBufferLineState::Complete {
        seq![0x0au8]
    } else {
        Seq::empty()
    }
}

/// Lines read out of some bytes: those that ended, the text since the last of
/// them, and the head of a character that is not all there yet.
#[verifier::ext_equal]
pub struct LinesRead {
    pub lines: Seq<Seq<u8>>,
    pub text: Seq<u8>,
    pub left: Seq<u8>,
}

impl LinesRead {
    /// Nothing read yet.
    pub open spec fn none() -> LinesRead {
        LinesRead { lines: Seq::empty(), text: Seq::empty(), left: Seq::empty() }
    }

    /// With `input` read after it, a character at a time.
    pub open spec fn decoding(self, input: Seq<u8>) -> LinesRead
        decreases input.len(),
    {
        if input.len() == 0 || utf8::is_partial_scalar(input) {
            LinesRead { left: input, ..self }
        } else if input[0] == 0x0a {
            LinesRead { lines: self.lines.push(self.text), text: Seq::empty(), ..self }.decoding(
                input.skip(1),
            )
        } else {
            proof {
                utf8::lemma_unit(input);
            }
            LinesRead { text: self.text + utf8::unit_text(input), ..self }.decoding(
                input.skip(utf8::unit_width(input)),
            )
        }
    }
}

/// A line being offered bytes, each ready one read and then cleared: the lines
/// read so far, the fragments since the last of them, the line itself, and the
/// bytes it would not take.
#[verifier::ext_equal]
pub struct LineRun {
    pub lines: Seq<Seq<u8>>,
    pub part: Seq<u8>,
    pub line: LineView,
    pub left: Seq<u8>,
}

impl LineRun {
    /// An empty line that has been offered nothing.
    pub open spec fn start() -> LineRun {
        LineRun {
            lines: Seq::empty(),
            part: Seq::empty(),
            line: LineView::empty(),
            left: Seq::empty(),
        }
    }

    /// The line read and cleared, once it is ready: a fragment goes on, and a
    /// whole line ends what came before it.
    pub open spec fn cleared(self) -> LineRun {
        let part = self.part + self.line.text;
        if self.line.state == LogBufferLineState::Complete {
            LineRun {
                lines: self.lines.push(part),
                part: Seq::empty(),
                line: LineView::empty(),
                ..self
            }
        } else {
            LineRun { part, line: LineView::empty(), ..self }
        }
    }

    /// Offer `input` until the line takes no more of it and is not ready.
    pub open spec fn offering(self, input: Seq<u8>) -> LineRun
        decreases input.len(),
    {
        let rest = input.skip(self.line.takes(input, true));
        let after = LineRun { line: self.line.fed(input, true), left: rest, ..self };
        if after.line.state == LogBufferLineState::Open {
            after
        } else if rest.len() == 0 || rest.len() >= input.len() {
            after.cleared()
        } else {
            after.cleared().offering(rest)
        }
    }

    /// Offer each of `parts` in turn, what was not taken in front of the next.
    pub open spec fn offered(parts: Seq<Seq<u8>>) -> LineRun
        decreases parts.len(),
    {
        if parts.len() == 0 {
            LineRun::start()
        } else {
            let before = LineRun::offered(parts.drop_last());
            before.offering(before.left + parts.last())
        }
    }

    /// What has been read, the fragments joined.
    pub open spec fn read(self) -> LinesRead {
        LinesRead { lines: self.lines, text: self.part + self.line.text, left: self.left }
    }
}

/// An open line with room reads what a decode of the bytes reads, up to where
/// it stops; and where it stops ready it has taken something.
proof fn lemma_fed_decodes(read: LinesRead, len: int, input: Seq<u8>)
    requires
        line_has_room(len),
    ensures
        ({
            let fed = line_fed(len, input, true);
            let rest = input.skip(fed.taken);
            let text = read.text + fed.text;
            &&& 0 <= fed.taken <= input.len()
            &&& match fed.state {
                LogBufferLineState::Open => {
                    &&& line_has_room(len + fed.text.len())
                    &&& read.decoding(input) == (LinesRead { text, left: rest, ..read })
                },
                LogBufferLineState::Complete => {
                    &&& fed.taken > 0
                    &&& read.decoding(input) == (LinesRead {
                        lines: read.lines.push(text),
                        text: Seq::empty(),
                        ..read
                    }).decoding(rest)
                },
                LogBufferLineState::Fragment => {
                    &&& fed.taken > 0
                    &&& read.decoding(input) == (LinesRead { text, ..read }).decoding(rest)
                },
            }
        }),
    decreases input.len(),
{
    let fed = line_fed(len, input, true);
    if input.len() > 0 && input[0] == 0x0a {
        if utf8::is_partial_scalar(input) {
            utf8::lemma_partial(input);
        }
        assert(read.text + fed.text =~= read.text);
    } else if input.len() == 0 || utf8::is_partial_scalar(input) {
        assert(input.skip(0) =~= input);
        assert(read.text + fed.text =~= read.text);
    } else {
        utf8::lemma_unit(input);
        let width = utf8::unit_width(input);
        let unit = utf8::unit_text(input);
        let next = LinesRead { text: read.text + unit, ..read };
        let rest = line_fed(len + unit.len(), input.skip(width), true);
        assert(read.text + (unit + rest.text) =~= read.text + unit + rest.text);
        if line_has_room(len + unit.len()) {
            lemma_fed_decodes(next, len + unit.len(), input.skip(width));
            assert(input.skip(width).skip(rest.taken) =~= input.skip(width + rest.taken));
        } else if input.len() > width && input[width] == 0x0a {
            let after = input.skip(width);
            if utf8::is_partial_scalar(after) {
                utf8::lemma_partial(after);
            }
            assert(after.skip(1) =~= input.skip(width + 1));
            assert(unit + rest.text =~= unit);
            let closed = LinesRead {
                lines: next.lines.push(next.text),
                text: Seq::empty(),
                ..next
            };
            assert(next.decoding(after) == closed.decoding(after.skip(1)));
        } else {
            assert(unit + rest.text =~= unit);
            assert(rest.taken == 0);
        }
        assert(read.decoding(input) == next.decoding(input.skip(width)));
    }
}

/// A line that is offered bytes and read as it gets ready reads what a decode
/// of the bytes reads.
proof fn lemma_offering_decodes(run: LineRun, input: Seq<u8>)
    requires
        run.line.state == LogBufferLineState::Open,
        line_has_room(run.line.text.len() as int),
    ensures
        run.offering(input).read() == run.read().decoding(input),
        run.offering(input).line.state == LogBufferLineState::Open,
        line_has_room(run.offering(input).line.text.len() as int),
    decreases input.len(),
{
    let len = run.line.text.len() as int;
    let fed = line_fed(len, input, true);
    let rest = input.skip(fed.taken);
    let after = LineRun { line: run.line.fed(input, true), left: rest, ..run };
    lemma_fed_decodes(run.read(), len, input);
    assert(run.part + (run.line.text + fed.text) =~= run.part + run.line.text + fed.text);
    if after.line.state != LogBufferLineState::Open {
        let next = after.cleared();
        assert(next.part + Seq::<u8>::empty() =~= next.part);
        if rest.len() == 0 {
            assert(next.read() =~= next.read().decoding(rest));
        } else {
            lemma_offering_decodes(next, rest);
        }
        lemma_left_is_replaced(next.read(), run.read().left, rest);
    }
}

/// What was held back before plays no part in what is read next.
proof fn lemma_left_is_replaced(read: LinesRead, left: Seq<u8>, input: Seq<u8>)
    ensures
        (LinesRead { left, ..read }).decoding(input) == read.decoding(input),
    decreases input.len(),
{
    if input.len() > 0 && !utf8::is_partial_scalar(input) {
        utf8::lemma_unit(input);
        if input[0] == 0x0a {
            let next = LinesRead {
                lines: read.lines.push(read.text),
                text: Seq::empty(),
                ..read
            };
            lemma_left_is_replaced(next, left, input.skip(1));
        } else {
            let next = LinesRead { text: read.text + utf8::unit_text(input), ..read };
            lemma_left_is_replaced(next, left, input.skip(utf8::unit_width(input)));
        }
    }
}

/// Bytes decoded in two goes, what the first left in front of the second, are
/// decoded as in one.
proof fn lemma_decoding_goes_on(read: LinesRead, first: Seq<u8>, second: Seq<u8>)
    ensures
        ({
            let part = read.decoding(first);
            read.decoding(first + second) == part.decoding(part.left + second)
        }),
    decreases first.len(),
{
    let whole = first + second;
    if first.len() == 0 || utf8::is_partial_scalar(first) {
        lemma_left_is_replaced(read, first, whole);
    } else {
        utf8::lemma_unit(first);
        utf8::lemma_unit_stable(first, second);
        if utf8::is_partial_scalar(whole) {
            let tail = choose|tail: Seq<u8>|
                tail.len() > 0 && #[trigger] utf8::is_one_scalar(whole + tail);
            assert(whole + tail =~= first + (second + tail));
            assert(utf8::is_one_scalar(first + (second + tail)));
        }
        if first[0] == 0x0a {
            let next = LinesRead {
                lines: read.lines.push(read.text),
                text: Seq::empty(),
                ..read
            };
            lemma_decoding_goes_on(next, first.skip(1), second);
            assert(whole.skip(1) =~= first.skip(1) + second);
        } else {
            let width = utf8::unit_width(first);
            let next = LinesRead { text: read.text + utf8::unit_text(first), ..read };
            lemma_decoding_goes_on(next, first.skip(width), second);
            assert(whole.skip(width) =~= first.skip(width) + second);
        }
    }
}

/// However bytes are cut up before a line is offered them, what is read is what
/// a decode of all of them in one go reads.
proof fn lemma_offered_decodes(parts: Seq<Seq<u8>>)
    ensures
        LineRun::offered(parts).read() == LinesRead::none().decoding(chunk::joined(parts)),
        LineRun::offered(parts).line.state == LogBufferLineState::Open,
        line_has_room(LineRun::offered(parts).line.text.len() as int),
    decreases parts.len(),
{
    if parts.len() == 0 {
        assert(LineRun::start().read() =~= LinesRead::none());
    } else {
        lemma_offered_decodes(parts.drop_last());
        let before = LineRun::offered(parts.drop_last());
        lemma_offering_decodes(before, before.left + parts.last());
        lemma_decoding_goes_on(
            LinesRead::none(),
            chunk::joined(parts.drop_last()),
            parts.last(),
        );
    }
}

/// Where its input is cut makes no difference to a line: offered the same bytes
/// in any two splittings, what was not taken put in front of the next part and
/// each ready line read and cleared, the lines that come out are the same, and
/// so are the text since the last of them and the bytes held back.
pub proof fn where_input_is_cut_changes_no_line(parts: Seq<Seq<u8>>, others: Seq<Seq<u8>>)
    requires
        chunk::joined(parts) == chunk::joined(others),
    ensures
        LineRun::offered(parts).read() == LineRun::offered(others).read(),
{
    lemma_offered_decodes(parts);
    lemma_offered_decodes(others);
}

/// Of whole text nothing is left untaken, however it is cut.
pub proof fn of_text_nothing_is_left(parts: Seq<Seq<u8>>)
    requires
        valid_utf8(chunk::joined(parts)),
    ensures
        LineRun::offered(parts).left.len() == 0,
{
    lemma_offered_decodes(parts);
    lemma_text_is_decoded(LinesRead::none(), chunk::joined(parts));
}

proof fn lemma_text_is_decoded(read: LinesRead, text: Seq<u8>)
    requires
        valid_utf8(text),
    ensures
        read.decoding(text).left.len() == 0,
    decreases text.len(),
{
    if text.len() > 0 {
        utf8::lemma_unit(text);
        reveal(utf8::unit_width);
        if utf8::is_partial_scalar(text) {
            let tail = choose|tail: Seq<u8>|
                tail.len() > 0 && #[trigger] utf8::is_one_scalar(text + tail);
            utf8::lemma_scalar_extends(text, tail);
        }
        if text[0] == 0x0a {
            assert(text.skip(1) =~= pop_first_scalar(text));
            let next = LinesRead {
                lines: read.lines.push(read.text),
                text: Seq::empty(),
                ..read
            };
            lemma_text_is_decoded(next, text.skip(1));
        } else {
            assert(text.skip(utf8::unit_width(text)) =~= pop_first_scalar(text));
            let next = LinesRead { text: read.text + utf8::unit_text(text), ..read };
            lemma_text_is_decoded(next, text.skip(utf8::unit_width(text)));
        }
    }
}

/// A line ends at its newline, the first there is; it is cut short only where
/// another character might not fit; and it takes in no newline otherwise.
pub proof fn a_line_ends_at_its_first_newline(len: int, input: Seq<u8>, more: bool)
    ensures
        ({
            let fed = line_fed(len, input, more);
            let inside = if fed.state == LogBufferLineState::Complete {
                fed.taken - 1
            } else {
                fed.taken
            };
            &&& 0 <= fed.taken <= input.len()
            &&& fed.state == LogBufferLineState::Complete ==> fed.taken > 0 && input[fed.taken - 1]
                == 0x0a
            &&& forall|i: int| 0 <= i < inside ==> #[trigger] input[i] != 0x0a
            &&& fed.state == LogBufferLineState::Fragment ==> len + fed.text.len() + 4
                > LOG_LINE_SIZE
            &&& fed.state == LogBufferLineState::Open ==> len + fed.text.len() + 4
                <= LOG_LINE_SIZE
        }),
    decreases input.len(),
{
    if input.len() > 0 && input[0] == 0x0a {
    } else if !line_has_room(len) || input.len() == 0 || (more && utf8::is_partial_scalar(input)) {
    } else {
        utf8::lemma_unit(input);
        let width = utf8::unit_width(input);
        let rest = input.skip(width);
        let next = len + utf8::unit_text(input).len();
        a_line_ends_at_its_first_newline(next, rest, more);
        let fed = line_fed(len, input, more);
        let left = line_fed(next, rest, more);
        assert(fed.state == left.state);
        let inside = if fed.state == LogBufferLineState::Complete {
            fed.taken - 1
        } else {
            fed.taken
        };
        assert forall|i: int| 0 <= i < inside implies #[trigger] input[i] != 0x0a by {
            if i >= width {
                assert(input[i] == rest[i - width]);
            } else if i > 0 {
                utf8::lemma_inside_a_character(input, i);
            }
        }
        if fed.state == LogBufferLineState::Complete {
            assert(input[fed.taken - 1] == rest[left.taken - 1]);
        }
    }
}

} // verus!
