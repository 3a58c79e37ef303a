use super::id::LogWriterId;
use super::line::{LogBufferLine, LogBufferLineState};
use crate::util::utf8;
use crate::util::utf8::{floor_char_boundary, utf8_str};
use vstd::prelude::*;
use vstd::slice::slice_subrange;
use vstd::string::*;
use vstd::utf8::*;

verus! {

/// How many bytes of content one chunk holds.
///
/// This is the granularity of the whole log: the ring remembers a number of
/// *chunks*, not a number of lines, so this sets how much text travels
/// together and how much memory a log of a given capacity costs
/// (`capacity * LOG_CHUNK_SIZE`).
pub const LOG_CHUNK_SIZE: usize = 256;

/// How many lines one chunk may hold.
///
/// The brake for degenerate input: a burst of empty or one word lines would
/// never reach [`LOG_CHUNK_LIMIT`], and with no cap a chunk could hold
/// hundreds of them, each needing an end offset.
pub const LOG_CHUNK_MAX_LINES: usize = 2;

/// Content watermark: past this, the chunk starts no further line.
///
/// Not the same as being full. A line already under way runs on to
/// [`LOG_CHUNK_SIZE`], so the gap between the two is the room a last line has
/// to finish in without being split. It also keeps a chunk from taking a line
/// into a handful of leftover bytes, which would split that line for nothing.
pub const LOG_CHUNK_LIMIT: usize = 192;

/// One piece of a chunk's content.
///
/// A chunk packs whole lines, but its last one may have been cut short by the
/// room running out. So a piece either ends a line or it does not, and that
/// is the distinction a reader needs to put the history back together.
///
/// Join pieces until a [`Line`](LogChunkData::Line) closes one — but only
/// pieces of the same [`writer`](LogChunk::writer): a line split across
/// chunks is continued by that writer's *next* chunk, which is not
/// necessarily the next chunk in the ring.
#[derive(Clone, Copy, PartialEq, Eq, Debug)]
pub enum LogChunkData<'a> {
    /// Text that ends a line.
    Line(&'a str),
    /// Text that does not: the line goes on in this writer's next chunk,
    /// wherever in the ring that turns out to be.
    Partial(&'a str),
}

impl<'a> LogChunkData<'a> {
    /// The bytes of the piece, whichever kind it is.
    pub open spec fn bytes(self) -> Seq<u8> {
        match self {
            Self::Line(text) => text.spec_bytes(),
            Self::Partial(text) => text.spec_bytes(),
        }
    }

    /// The text, whichever kind of piece this is.
    pub fn as_str(self) -> (text: &'a str)
        ensures
            text.spec_bytes() == self.bytes(),
    {
        match self {
            Self::Line(text) => text,
            Self::Partial(text) => text,
        }
    }

    /// Whether this piece ends a line.
    pub fn is_line(self) -> (result: bool)
        ensures
            result == (self is Line),
    {
        match self {
            Self::Line(_) => true,
            Self::Partial(_) => false,
        }
    }
}

/// The pieces run together.
pub open spec fn joined(pieces: Seq<Seq<u8>>) -> Seq<u8>
    decreases pieces.len(),
{
    if pieces.len() == 0 {
        Seq::empty()
    } else {
        joined(pieces.drop_last()) + pieces.last()
    }
}

/// What a chunk holds: its pieces, whether the last one's line goes on,
/// whether it takes no more, and who it belongs to.
#[verifier::ext_equal]
pub struct ChunkView {
    pub pieces: Seq<Seq<u8>>,
    pub open: bool,
    pub finished: bool,
    pub writer: u32,
}

impl ChunkView {
    /// A chunk holding nothing, claimed by nobody.
    pub open spec fn empty() -> ChunkView {
        ChunkView { pieces: Seq::empty(), open: false, finished: false, writer: u32::MAX }
    }

    /// How many bytes of text it holds.
    pub open spec fn len(self) -> int {
        joined(self.pieces).len() as int
    }

    /// Whether piece `n` ends a line: only the last one can be unterminated.
    pub open spec fn is_line(self, n: int) -> bool {
        !(n + 1 == self.pieces.len() && self.open)
    }

    /// The text it carries, with a newline after each piece that ends a line.
    pub open spec fn stream(self) -> Seq<u8> {
        pieces_stream(self.pieces, self.open)
    }

    /// How many bytes of `text` the chunk takes: what fits, cut on a
    /// character boundary.
    pub open spec fn takes(self, text: Seq<u8>) -> int {
        if self.finished {
            0
        } else {
            utf8::floor_boundary(text, LOG_CHUNK_SIZE - self.len())
        }
    }

    /// The chunk once it has been offered `text`, which ends a line if it is
    /// `complete`.
    ///
    /// - It all fits and the line is whole: a piece is closed, and the chunk
    ///   stays open for the next line unless the quota or the watermark stops
    ///   it.
    /// - It all fits and the line is not whole: the piece stays open.
    /// - It does not all fit: the chunk takes what it can and finishes.
    pub open spec fn pushed(self, text: Seq<u8>, complete: bool) -> ChunkView {
        let n = self.takes(text);
        if self.finished {
            self
        } else if n == 0 && text.len() > 0 {
            ChunkView { finished: true, ..self }
        } else {
            let pieces = if self.open {
                self.pieces.drop_last().push(self.pieces.last() + text.take(n))
            } else {
                self.pieces.push(text.take(n))
            };
            ChunkView {
                pieces,
                open: n < text.len() || !complete,
                finished: n < text.len() || (complete && (pieces.len() == LOG_CHUNK_MAX_LINES
                    || self.len() + n >= LOG_CHUNK_LIMIT)),
                writer: self.writer,
            }
        }
    }

    /// The same chunk, claimed by writer `writer`.
    pub open spec fn stamped(self, writer: u32) -> ChunkView {
        ChunkView { writer, ..self }
    }

    /// What holds of every chunk. One that neither is finished nor has a line
    /// running on has a slot and room below the watermark for another line.
    pub open spec fn wf(self) -> bool {
        &&& self.pieces.len() <= LOG_CHUNK_MAX_LINES
        &&& self.len() <= LOG_CHUNK_SIZE
        &&& (self.open || self.finished ==> self.pieces.len() > 0)
        &&& (!self.open && !self.finished ==> self.pieces.len() < LOG_CHUNK_MAX_LINES && self.len()
            < LOG_CHUNK_LIMIT)
        &&& forall|n: int|
            0 <= n < self.pieces.len() ==> valid_utf8(#[trigger] self.pieces[n])
    }
}

/// Pieces as text, with a newline after each one that ends a line; the last
/// does not when its line is `open`.
pub open spec fn pieces_stream(pieces: Seq<Seq<u8>>, open: bool) -> Seq<u8>
    decreases pieces.len(),
{
    if pieces.len() == 0 {
        Seq::empty()
    } else {
        let before = pieces_stream(pieces.drop_last(), false) + pieces.last();
        if open {
            before
        } else {
            before.push(0x0a)
        }
    }
}

proof fn lemma_joined_push(pieces: Seq<Seq<u8>>, piece: Seq<u8>)
    ensures
        joined(pieces.push(piece)) == joined(pieces) + piece,
{
    assert(pieces.push(piece).drop_last() =~= pieces);
}

/// Offering a chunk text leaves it well formed, and it never takes more than
/// there is.
pub proof fn lemma_pushed(chunk: ChunkView, text: Seq<u8>, complete: bool)
    requires
        chunk.wf(),
        valid_utf8(text),
    ensures
        chunk.pushed(text, complete).wf(),
        0 <= chunk.takes(text) <= text.len(),
        is_char_boundary(text, chunk.takes(text)),
        chunk.pushed(text, complete).len() == chunk.len() + chunk.takes(text),
        !chunk.finished && (chunk.takes(text) > 0 || text.len() == 0) ==> joined(
            chunk.pushed(text, complete).pieces,
        ) == joined(chunk.pieces) + text.take(chunk.takes(text)),
        chunk.takes(text) < text.len() ==> chunk.pushed(text, complete).finished,
        chunk.pieces.len() == 0 && !chunk.finished && text.len() > 0 ==> chunk.takes(text) > 0,
{
    let n = chunk.takes(text);
    is_char_boundary_start_end_of_seq(text);
    if !chunk.finished {
        utf8::lemma_floor_boundary(text, LOG_CHUNK_SIZE - chunk.len());
        valid_utf8_split(text, n);
        assert(text.take(n) =~= text.subrange(0, n));
        lemma_joined_push(chunk.pieces, text.take(n));
        if chunk.open {
            let extended = chunk.pieces.last() + text.take(n);
            valid_utf8_concat(chunk.pieces.last(), text.take(n));
            lemma_joined_push(chunk.pieces.drop_last(), extended);
            assert(joined(chunk.pieces.drop_last()) + extended =~= joined(chunk.pieces) + text.take(
                n,
            ));
        }
    }
}

/// What a chunk takes of a line is added to the text it carries, with the
/// newline that ends the line exactly when all of a whole line is in.
pub proof fn chunk_carries_what_it_takes(chunk: ChunkView, text: Seq<u8>, complete: bool)
    requires
        chunk.wf(),
        valid_utf8(text),
        !chunk.finished,
    ensures
        ({
            let n = chunk.takes(text);
            let closed = complete && n == text.len();
            chunk.pushed(text, complete).stream() == if n == 0 && text.len() > 0 {
                chunk.stream()
            } else if closed {
                (chunk.stream() + text.take(n)).push(0x0a)
            } else {
                chunk.stream() + text.take(n)
            }
        }),
{
    lemma_pushed(chunk, text, complete);
    let n = chunk.takes(text);
    let after = chunk.pushed(text, complete);
    if n > 0 || text.len() == 0 {
        if chunk.open {
            assert(after.pieces.drop_last() =~= chunk.pieces.drop_last());
            let head = pieces_stream(chunk.pieces.drop_last(), false);
            assert(head + (chunk.pieces.last() + text.take(n)) =~= chunk.stream() + text.take(n));
        } else {
            assert(after.pieces.drop_last() =~= chunk.pieces);
        }
    }
}

/// A slice of the history: a few lines of text, packed.
///
/// Storage, and only storage. It holds text that is already valid and already
/// split into lines — [`LogBufferLine`] does that work — so nothing here
/// decodes, scans or parses. What it owns is a buffer, allocated once and
/// reused for the life of the log.
///
/// A chunk takes lines until the quota or the watermark stops it, and
/// remembers where each one ended. A line that does not fit leaves the chunk
/// finished and itself part drained, for the next chunk to carry on with.
pub struct LogChunk {
    /// The text of every piece, back to back.
    buf: Vec<u8>,
    /// Where each piece ends, counting one still being extended.
    ends: Vec<u16>,
    /// Whether the last piece is still open — the line it belongs to has not
    /// been closed by a newline. The next piece pushed extends it rather than
    /// starting a line of its own.
    trailing_open: bool,
    /// Whether the chunk takes no more and is on its way to the log.
    finished: bool,
    /// Who wrote this. Stamped as the chunk is handed to the log, not as it
    /// is filled, so it cannot drift out of step with the content.
    writer: LogWriterId,
}

impl View for LogChunk {
    type V = ChunkView;

    closed spec fn view(&self) -> ChunkView {
        ChunkView {
            pieces: Seq::new(self.ends@.len(), |n: int| self.piece(n)),
            open: self.trailing_open,
            finished: self.finished,
            writer: self.writer.raw(),
        }
    }
}

impl LogChunk {
    spec fn start(&self, n: int) -> int {
        if n == 0 {
            0
        } else {
            self.ends@[n - 1] as int
        }
    }

    spec fn piece(&self, n: int) -> Seq<u8> {
        self.buf@.subrange(self.start(n), self.ends@[n] as int)
    }

    /// What holds of every chunk, beyond what [`ChunkView::wf`] says: the
    /// offsets are in order and the last is the length.
    pub closed spec fn inv(&self) -> bool {
        &&& forall|n: int|
            #![trigger self.ends@[n]]
            0 <= n < self.ends@.len() ==> self.start(n) <= self.ends@[n] <= self.buf@.len()
        &&& self.start(self.ends@.len() as int) == self.buf@.len()
    }

    /// Whether the chunk is well formed.
    pub open spec fn wf(&self) -> bool {
        self.inv() && self@.wf()
    }

    proof fn lemma_joined_prefix(&self, n: int)
        requires
            self.inv(),
            0 <= n <= self.ends@.len(),
        ensures
            joined(self@.pieces.take(n)) == self.buf@.subrange(0, self.start(n)),
        decreases n,
    {
        if n > 0 {
            self.lemma_joined_prefix(n - 1);
            assert(self@.pieces.take(n).drop_last() =~= self@.pieces.take(n - 1));
            assert(self.start(n - 1) <= self.ends@[n - 1] <= self.buf@.len());
            if n > 1 {
                assert(self.start(n - 2) <= self.ends@[n - 2] <= self.buf@.len());
            }
            assert(self.buf@.subrange(0, self.start(n - 1)) + self.piece(n - 1)
                =~= self.buf@.subrange(0, self.start(n)));
        } else {
            assert(self.buf@.subrange(0, 0) =~= Seq::empty());
        }
    }

    proof fn lemma_joined(&self)
        requires
            self.inv(),
        ensures
            joined(self@.pieces) == self.buf@,
    {
        self.lemma_joined_prefix(self.ends@.len() as int);
        assert(self@.pieces.take(self.ends@.len() as int) =~= self@.pieces);
        assert(self.buf@.subrange(0, self.buf@.len() as int) =~= self.buf@);
    }

    /// Build an empty chunk.
    pub fn new() -> (chunk: Self)
        ensures
            chunk.wf(),
            chunk@ == ChunkView::empty(),
    {
        let chunk = Self {
            buf: Vec::with_capacity(LOG_CHUNK_SIZE),
            ends: Vec::with_capacity(LOG_CHUNK_MAX_LINES),
            trailing_open: false,
            finished: false,
            writer: LogWriterId::unset(),
        };
        assert(chunk@.pieces =~= Seq::empty());
        chunk
    }

    /// Exchange this chunk with `other`, buffers and all.
    ///
    /// How a chunk travels: handing one to the log is a swap, so both sides
    /// keep an allocation and nothing is copied. The offsets travel with the
    /// buffer, which is what lets a stored chunk still be read apart long
    /// after the writer moved on.
    pub fn swap(&mut self, other: &mut LogChunk)
        ensures
            *final(self) == *old(other),
            *final(other) == *old(self),
    {
        std::mem::swap(self, other);
    }

    /// Empty the chunk and reopen it for writing, keeping its buffer.
    pub fn clear(&mut self)
        ensures
            final(self).wf(),
            final(self)@ == ChunkView::empty(),
    {
        self.buf.clear();
        self.ends.clear();
        self.trailing_open = false;
        // Without this a recycled chunk comes back already finished, and
        // every later push returns 0 for ever.
        self.finished = false;
        // A recycled chunk carries the last writer's stamp, which would be a
        // lie the moment a different one filled it.
        self.writer = LogWriterId::unset();
        assert(self@.pieces =~= Seq::empty());
    }

    /// Take a copy of what `other` holds, into the buffer already here.
    pub fn copy_from(&mut self, other: &LogChunk)
        requires
            other.wf(),
        ensures
            final(self).wf(),
            final(self)@ == other@,
    {
        self.buf.clear();
        self.buf.extend_from_slice(other.buf.as_slice());
        self.ends.clear();
        self.ends.extend_from_slice(other.ends.as_slice());
        self.trailing_open = other.trailing_open;
        self.finished = other.finished;
        self.writer = other.writer;
        assert(self.buf@ =~= other.buf@);
        assert(self.ends@ =~= other.ends@);
        assert(self@.pieces =~= other@.pieces);
    }

    /// Who wrote this chunk.
    pub fn writer(&self) -> (writer: LogWriterId)
        ensures
            writer.raw() == self@.writer,
    {
        self.writer
    }

    /// Claim the chunk for `writer`, as it is handed to the log.
    pub fn set_writer(&mut self, writer: LogWriterId)
        requires
            old(self).wf(),
        ensures
            final(self).wf(),
            final(self)@ == old(self)@.stamped(writer.raw()),
    {
        self.writer = writer;
        assert(self@.pieces =~= old(self)@.pieces);
    }

    /// Whether the chunk takes no more: it is on its way to the log.
    pub fn is_finished(&self) -> (result: bool)
        ensures
            result == self@.finished,
    {
        self.finished
    }

    /// Whether the last piece's line goes on in this writer's next chunk.
    pub fn continues(&self) -> (result: bool)
        ensures
            result == self@.open,
    {
        self.trailing_open
    }

    /// How many pieces the chunk holds.
    pub fn count(&self) -> (count: usize)
        ensures
            count == self@.pieces.len(),
    {
        self.ends.len()
    }

    /// How many bytes of text the chunk holds, across all its pieces.
    ///
    /// Bytes, not characters, and not the number of bytes fed in: the
    /// newlines that split the lines were never stored, and every undecodable
    /// byte became three.
    pub fn len(&self) -> (len: usize)
        requires
            self.wf(),
        ensures
            len == self@.len(),
    {
        proof {
            self.lemma_joined();
        }
        self.buf.len()
    }

    /// Whether the chunk holds nothing at all.
    pub fn is_empty(&self) -> (result: bool)
        ensures
            result == (self@.pieces.len() == 0),
    {
        self.ends.len() == 0
    }

    /// Where piece `n` starts and ends, or `None` if there is no such piece.
    ///
    /// Pieces are packed back to back, so one starts where the last ended,
    /// and the final one runs to `len`.
    fn bounds(&self, n: usize) -> (bounds: Option<(usize, usize)>)
        requires
            self.wf(),
        ensures
            bounds is Some <==> n < self@.pieces.len(),
            bounds matches Some((start, end)) ==> start <= end <= self.buf@.len()
                && self.buf@.subrange(start as int, end as int) == self@.pieces[n as int],
    {
        if n >= self.ends.len() {
            return None;
        }
        assert(self.start(n as int) <= self.ends@[n as int] <= self.buf@.len());
        let start: usize = if n == 0 {
            0
        } else {
            self.ends[n - 1] as usize
        };
        Some((start, self.ends[n] as usize))
    }

    /// Piece `n`, with whether it ends a line.
    pub fn get_data(&self, n: usize) -> (data: Option<LogChunkData<'_>>)
        requires
            self.wf(),
        ensures
            data is Some <==> n < self@.pieces.len(),
            data matches Some(data) ==> data.bytes() == self@.pieces[n as int] && (data is Line
                <==> self@.is_line(n as int)),
    {
        let (start, end) = match self.bounds(n) {
            Some(bounds) => bounds,
            None => return None,
        };
        assert(valid_utf8(self@.pieces[n as int]));
        let text = utf8_str(slice_subrange(self.buf.as_slice(), start, end));
        // Only the last piece can be unterminated; everything before it was
        // closed by the newline that started the next one.
        if n + 1 == self.ends.len() && self.trailing_open {
            Some(LogChunkData::Partial(text))
        } else {
            Some(LogChunkData::Line(text))
        }
    }

    /// The text of piece `n`, without saying whether it ends a line.
    pub fn get_str(&self, n: usize) -> (text: Option<&str>)
        requires
            self.wf(),
        ensures
            text is Some <==> n < self@.pieces.len(),
            text matches Some(text) ==> text.spec_bytes() == self@.pieces[n as int],
    {
        match self.get_data(n) {
            Some(data) => Some(data.as_str()),
            None => None,
        }
    }

    /// The raw bytes of piece `n`.
    pub fn piece_bytes(&self, n: usize) -> (bytes: Option<&[u8]>)
        requires
            self.wf(),
        ensures
            bytes is Some <==> n < self@.pieces.len(),
            bytes matches Some(bytes) ==> bytes@ == self@.pieces[n as int],
    {
        match self.bounds(n) {
            Some((start, end)) => Some(slice_subrange(self.buf.as_slice(), start, end)),
            None => None,
        }
    }

    /// Walk the pieces in order.
    pub fn iter_data(&self) -> (iter: LogChunkDataIter<'_>)
        requires
            self.wf(),
        ensures
            iter.wf(),
            iter.chunk() == self@,
            iter.rest() == self@.pieces,
    {
        let iter = LogChunkDataIter { chunk: self, n: 0 };
        assert(iter.rest() =~= self@.pieces);
        iter
    }

    /// Place as much of `line` as fits, reporting how many bytes were taken.
    ///
    /// The text arrives already validated and already split, which is why
    /// this only copies. What it takes it also consumes, so a line too long
    /// for one chunk is simply offered to the next until it is drained; no
    /// caller keeps a cursor.
    ///
    /// Taking a prefix means stopping on a character boundary, never inside
    /// one, so every piece on its own is still valid text.
    pub fn push_line(&mut self, line: &mut LogBufferLine) -> (taken: usize)
        requires
            old(self).wf(),
            old(line)@.wf(),
        ensures
            taken == old(self)@.takes(old(line)@.pending()),
            final(self).wf(),
            final(self)@ == old(self)@.pushed(
                old(line)@.pending(),
                old(line)@.state == LogBufferLineState::Complete,
            ),
            final(line)@ == old(line)@.consumed(taken as int),
            final(line)@.wf(),
    {
        let complete = line.is_complete();
        let text = line.pending();
        proof {
            let view = line@;
            valid_utf8_split(view.text, view.taken);
            assert(view.pending() =~= view.text.subrange(view.taken, view.text.len() as int));
            lemma_pushed(self@, view.pending(), complete);
            lemma_boundary_shifts(view.text, view.taken, self@.takes(view.pending()));
        }
        let taken = self.push_text(text.as_bytes(), complete);
        line.consume(taken);
        taken
    }

    /// Place as much of `text` as fits, as a whole line of its own, reporting
    /// how many bytes were taken.
    pub fn push_line_str(&mut self, text: &str) -> (taken: usize)
        requires
            old(self).wf(),
        ensures
            taken == old(self)@.takes(text.spec_bytes()),
            final(self).wf(),
            final(self)@ == old(self)@.pushed(text.spec_bytes(), true),
    {
        proof {
            encode_utf8_valid_utf8(text@);
        }
        self.push_text(text.as_bytes(), true)
    }

    fn push_text(&mut self, text: &[u8], complete: bool) -> (taken: usize)
        requires
            old(self).wf(),
            valid_utf8(text@),
        ensures
            taken == old(self)@.takes(text@),
            final(self).wf(),
            final(self)@ == old(self)@.pushed(text@, complete),
    {
        if self.finished {
            return 0;
        }
        proof {
            self.lemma_joined();
            lemma_pushed(self@, text@, complete);
        }
        let pending = text.len();
        // The room decides the cut, and it knows nothing about characters, so
        // it lands inside one regularly. Back off to a boundary: a piece
        // holding half a character would be undecodable on its own, and
        // `get_data` promises it is not.
        let taken = floor_char_boundary(text, LOG_CHUNK_SIZE - self.buf.len());

        // There is text to place and no room for any of it. Finish here so
        // the caller hands this chunk on and offers the rest to the next.
        // An empty line places nothing either, but it is a line, so it has to
        // go through the rest of this.
        if taken == 0 && pending > 0 {
            self.finished = true;
            assert(self@.pieces =~= old(self)@.pieces);
            return 0;
        }
        proof {
            utf8::lemma_floor_boundary(text@, LOG_CHUNK_SIZE - self.buf@.len());
        }
        let count = self.ends.len();
        if count > 0 {
            assert(self.start(count - 1) <= self.ends@[count - 1] <= self.buf@.len());
        }
        self.buf.extend_from_slice(slice_subrange(text, 0, taken));
        assert(self.buf@ =~= old(self).buf@ + text@.take(taken as int));
        let len = self.buf.len();
        // Text that does not continue an open piece opens one of its own;
        // extending the open piece moves its end.
        if self.trailing_open {
            self.ends.set(count - 1, len as u16);
        } else {
            self.ends.push(len as u16);
        }
        if taken < pending {
            // Room ran out with the line unfinished. Whatever the line says
            // about itself, what is stored here is only a head.
            self.trailing_open = true;
            self.finished = true;
        } else if complete {
            self.trailing_open = false;
            if self.ends.len() == LOG_CHUNK_MAX_LINES || len >= LOG_CHUNK_LIMIT {
                self.finished = true;
            }
        } else {
            // The whole fragment fit, but its line goes on.
            self.trailing_open = true;
        }
        proof {
            lemma_extended(*old(self), *self, text@.take(taken as int));
            assert(self@ =~= old(self)@.pushed(text@, complete));
        }
        taken
    }
}

/// Text added to the buffer, with its end recorded, is text added to the
/// pieces.
proof fn lemma_extended(before: LogChunk, after: LogChunk, text: Seq<u8>)
    requires
        before.inv(),
        before.trailing_open ==> before.ends@.len() > 0,
        after.buf@ == before.buf@ + text,
        after.buf@.len() <= LOG_CHUNK_SIZE,
        after.ends@ == if before.trailing_open {
            before.ends@.update(before.ends@.len() - 1, after.buf@.len() as u16)
        } else {
            before.ends@.push(after.buf@.len() as u16)
        },
    ensures
        after.inv(),
        after@.pieces == if before.trailing_open {
            before@.pieces.drop_last().push(before@.pieces.last() + text)
        } else {
            before@.pieces.push(text)
        },
{
    let count = before.ends@.len() as int;
    if count > 0 {
        assert(before.start(count - 1) <= before.ends@[count - 1] <= before.buf@.len());
    }
    assert forall|n: int| #![trigger after.ends@[n]] 0 <= n < after.ends@.len() implies after.start(n)
        <= after.ends@[n] <= after.buf@.len() by {
        if n < count {
            assert(before.start(n) <= before.ends@[n] <= before.buf@.len());
        }
        if 0 < n {
            assert(before.start(n - 1) <= before.ends@[n - 1] <= before.buf@.len());
        }
    }
    assert forall|n: int| 0 <= n < after.ends@.len() - 1 implies #[trigger] after.piece(n)
        == before.piece(n) by {
        assert(before.start(n) <= before.ends@[n] <= before.buf@.len());
        assert(after.piece(n) =~= before.piece(n));
    }
    let last = after.ends@.len() - 1;
    if before.trailing_open {
        assert(after.piece(last) =~= before.piece(last) + text);
        assert(after@.pieces =~= before@.pieces.drop_last().push(before@.pieces.last() + text));
    } else {
        assert(after.piece(last) =~= text);
        assert(after@.pieces =~= before@.pieces.push(text));
    }
}

/// A boundary of the text past one boundary is a boundary of the whole.
pub proof fn lemma_boundary_shifts(text: Seq<u8>, at: int, n: int)
    requires
        valid_utf8(text),
        is_char_boundary(text, at),
        0 <= at <= text.len(),
        0 <= n <= text.len() - at,
        is_char_boundary(text.skip(at), n),
    ensures
        is_char_boundary(text, at + n),
    decreases text.len(),
{
    if at == 0 {
        assert(text.skip(0) =~= text);
    } else {
        let width = length_of_first_scalar(text);
        let rest = pop_first_scalar(text);
        utf8::lemma_one_scalar(text);
        reveal_with_fuel(is_char_boundary, 2);
        assert(is_char_boundary(rest, at - width));
        assert(rest.skip(at - width) =~= text.skip(at));
        lemma_boundary_shifts(rest, at - width, n);
    }
}

/// Walks a chunk's pieces, oldest first.
pub struct LogChunkDataIter<'a> {
    /// Borrowed, not copied: a piece hands out a slice of the chunk's buffer,
    /// so the chunk has to outlive the walk.
    chunk: &'a LogChunk,
    /// The next piece to yield.
    n: usize,
}

impl<'a> LogChunkDataIter<'a> {
    /// Whether the walk is over a well formed chunk and not past its end.
    pub closed spec fn wf(&self) -> bool {
        self.chunk.wf() && self.n <= self.chunk@.pieces.len()
    }

    /// The chunk being walked.
    pub closed spec fn chunk(&self) -> ChunkView {
        self.chunk@
    }

    /// The pieces still to come.
    pub closed spec fn rest(&self) -> Seq<Seq<u8>> {
        self.chunk@.pieces.skip(self.n as int)
    }

    /// The next piece, if there is one.
    pub fn next(&mut self) -> (data: Option<LogChunkData<'a>>)
        requires
            old(self).wf(),
        ensures
            final(self).wf(),
            final(self).chunk() == old(self).chunk(),
            data is None <==> old(self).rest().len() == 0,
            data is None ==> final(self).rest() == old(self).rest(),
            data matches Some(data) ==> {
                &&& data.bytes() == old(self).rest()[0]
                &&& (data is Line <==> old(self).rest().len() > 1 || !old(self).chunk().open)
                &&& final(self).rest() == old(self).rest().skip(1)
            },
    {
        let data = self.chunk.get_data(self.n);
        if data.is_some() {
            self.n = self.n + 1;
            assert(self.rest() =~= old(self).rest().skip(1));
        }
        data
    }

    /// How many pieces are still to come, exactly.
    pub fn len(&self) -> (len: usize)
        requires
            self.wf(),
        ensures
            len == self.rest().len(),
    {
        self.chunk.count() - self.n
    }
}

/// A chunk takes all it is offered wherever it has room for it, and where it
/// has not, as much as ends with a character, which leaves less room than one
/// could take. It is done once it had to leave something, or once a line has
/// ended in it and it has no slot left or is past its watermark; and only
/// text that ends a line, and is all in, ends one.
pub proof fn a_chunk_takes_all_it_has_room_for(chunk: ChunkView, text: Seq<u8>, complete: bool)
    requires
        chunk.wf(),
        valid_utf8(text),
        !chunk.finished,
    ensures
        ({
            let room = LOG_CHUNK_SIZE - chunk.len();
            let taken = chunk.takes(text);
            let after = chunk.pushed(text, complete);
            &&& text.len() <= room ==> taken == text.len()
            &&& text.len() > room ==> room - 3 <= taken <= room
            &&& taken < text.len() ==> after.finished
            &&& taken == text.len() && !complete ==> !after.finished && after.open
            &&& taken == text.len() && complete ==> !after.open && (after.finished
                <==> after.pieces.len() == LOG_CHUNK_MAX_LINES || after.len() >= LOG_CHUNK_LIMIT)
            &&& (taken > 0 || text.len() == 0) && chunk.open ==> after.pieces.len()
                == chunk.pieces.len()
            &&& (taken > 0 || text.len() == 0) && !chunk.open ==> after.pieces.len()
                == chunk.pieces.len() + 1
            &&& after.writer == chunk.writer
        }),
{
    lemma_pushed(chunk, text, complete);
    utf8::lemma_floor_boundary(text, LOG_CHUNK_SIZE - chunk.len());
}

} // verus!
