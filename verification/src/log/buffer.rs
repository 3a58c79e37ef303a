use super::chunk;
use super::chunk::{ChunkView, LogChunk};
use super::line;
use super::line::{LineView, LogBufferLine, LogBufferLineState, LOG_LINE_SIZE};
use super::store::LogView;
use crate::util::utf8;
use vstd::prelude::*;
use vstd::slice::slice_subrange;
use vstd::string::*;
use vstd::utf8::*;

verus! {

/// How much one read takes from a pipe at a time.
///
/// Deliberately unrelated to the size of a chunk: this sizes a syscall, that
/// sizes a unit of storage. Bigger means fewer reads for a chatty process,
/// and one read simply fills as many chunks as it turns out to cover.
pub const LOG_BUFFER_SIZE: usize = 4096;

/// One thing asked of a far end.
#[verifier::ext_equal]
pub enum SinkCall {
    /// A chunk to fill was taken.
    Take,
    /// A chunk was given back.
    Return,
    /// A chunk was offered.
    Push(ChunkView),
    /// A line part way through was shown.
    Show(Seq<u8>),
    /// The line part way through was forgotten.
    Clear,
}

/// What a buffer sees of the far end it writes to.
#[verifier::ext_equal]
pub struct SinkView {
    /// The chunks this writer has handed over, oldest first.
    pub handed: Seq<ChunkView>,
    /// How many more chunks will be taken before there is nowhere left to
    /// put anything.
    pub room: nat,
    /// The line this writer is showing as part way through, if any.
    pub partial: Option<Seq<u8>>,
    /// The number of the id stamped onto each chunk.
    pub id: u32,
    /// Everything asked of this end through this writer, in order.
    pub calls: Seq<SinkCall>,
    /// The log at this end, if it is one and it is still there.
    pub log: Option<LogView>,
}

impl SinkView {
    /// Whether the far end is a log that keeps `capacity` chunks, into which
    /// nobody else has written: what was handed over is its history, chunk for
    /// chunk and all under the one id, and there is room until the chunks are
    /// past counting.
    pub open spec fn sound(self, capacity: nat) -> bool {
        &&& self.log matches Some(log) && log.history == self.handed && log.capacity == capacity
        &&& self.room + self.handed.len() == u64::MAX
        &&& forall|i: int|
            0 <= i < self.handed.len() ==> (#[trigger] self.handed[i]).writer == self.id
                && self.handed[i].pieces.len() > 0
    }

    /// The far end once it has been asked one more thing, and nothing has come
    /// of it.
    pub open spec fn called(self, call: SinkCall) -> SinkView {
        SinkView { calls: self.calls.push(call), ..self }
    }

    /// The far end once a chunk has been taken from it.
    pub open spec fn took(self) -> SinkView {
        SinkView {
            log: match self.log {
                Some(log) => Some(log.took()),
                None => None,
            },
            ..self.called(SinkCall::Take)
        }
    }

    /// The far end once a chunk has been given back to it.
    pub open spec fn returned(self) -> SinkView {
        SinkView {
            log: match self.log {
                Some(log) => Some(log.returned()),
                None => None,
            },
            ..self.called(SinkCall::Return)
        }
    }

    /// The far end once `chunk` has been offered to it.
    pub open spec fn pushed(self, chunk: ChunkView) -> SinkView {
        let called = self.called(SinkCall::Push(chunk));
        if self.room == 0 {
            called
        } else {
            SinkView {
                handed: self.handed.push(chunk.stamped(self.id)),
                room: (self.room - 1) as nat,
                log: match self.log {
                    Some(log) => Some(log.pushed(chunk.stamped(self.id))),
                    None => None,
                },
                ..called
            }
        }
    }

    /// The far end once it has been told what line is part way through.
    /// Nothing is shown once there is nowhere left to show it.
    pub open spec fn showing(self, partial: Option<Seq<u8>>) -> SinkView {
        let called = self.called(
            match partial {
                Some(text) => SinkCall::Show(text),
                None => SinkCall::Clear,
            },
        );
        if self.room == 0 {
            called
        } else {
            SinkView {
                partial,
                log: match (self.log, partial) {
                    (Some(log), Some(text)) => Some(log.showing(self.id, text)),
                    (Some(log), None) => Some(log.cleared(self.id)),
                    (None, _) => None,
                },
                ..called
            }
        }
    }
}

/// Where a [`LogBufferAny`] gets its chunks and where it sends them.
///
/// Everything the buffer needs of a log, and nothing else: it never reads the
/// history, never locks anything, never knows how many chunks exist. Naming
/// that narrow surface is what lets the assembling — splitting bytes into
/// lines, packing lines into chunks, carrying a character across a read — be
/// exercised against a stand in.
///
/// [`push_chunk`](LogBufferWriter::push_chunk) takes the chunk's contents and
/// leaves an empty one in its place. It does not take the chunk: the buffer
/// keeps writing into whatever comes back.
///
/// A chunk handed out by [`chunk`](LogBufferWriter::chunk) is expected back
/// through [`recycle`](LogBufferWriter::recycle) when the buffer is done.
pub trait LogBufferWriter {
    /// What the buffer can see of the far end.
    spec fn sink(&self) -> SinkView;

    /// Whether the writer is in a state it can be used in.
    spec fn wf(&self) -> bool;

    /// A chunk for the buffer to fill. There is always one.
    fn chunk(&mut self) -> (chunk: LogChunk)
        requires
            old(self).wf(),
        ensures
            final(self).wf(),
            final(self).sink() == old(self).sink().took(),
            chunk.wf(),
            chunk@ == ChunkView::empty(),
    ;

    /// Take a chunk the buffer has finished with, at the end of its life.
    fn recycle(&mut self, chunk: LogChunk)
        requires
            old(self).wf(),
            chunk.wf(),
        ensures
            final(self).wf(),
            final(self).sink() == old(self).sink().returned(),
    ;

    /// Take what `chunk` holds and leave it empty and open.
    ///
    /// `false` once there is nowhere left to put anything, which is the
    /// buffer's cue to stop rather than to retry; the chunk is then left as
    /// it was.
    fn push_chunk(&mut self, chunk: &mut LogChunk) -> (is_open: bool)
        requires
            old(self).wf(),
            old(chunk).wf(),
            old(chunk)@.pieces.len() > 0,
        ensures
            final(self).wf(),
            is_open == (old(self).sink().room > 0),
            final(self).sink() == old(self).sink().pushed(old(chunk)@),
            final(chunk).wf(),
            final(chunk)@ == if is_open {
                ChunkView::empty()
            } else {
                old(chunk)@
            },
    ;

    /// Take `text` as the line being written, which is not finished yet.
    fn set_partial(&mut self, text: &str)
        requires
            old(self).wf(),
            text.spec_bytes().len() <= LOG_LINE_SIZE,
        ensures
            final(self).wf(),
            final(self).sink() == old(self).sink().showing(Some(text.spec_bytes())),
    ;

    /// Forget the line being written, because it ended or because the reader
    /// did.
    fn clear_partial(&mut self)
        requires
            old(self).wf(),
        ensures
            final(self).wf(),
            final(self).sink() == old(self).sink().showing(None),
    ;
}

/// What came of handing a ready line over.
#[verifier::ext_equal]
pub struct Placed {
    pub line: LineView,
    pub chunk: ChunkView,
    pub sink: SinkView,
    /// Whether there was somewhere to put all of it.
    pub is_open: bool,
}

/// Place a ready line: each pass puts what fits into the chunk, and a chunk
/// that filled up goes over and comes back empty for the rest. Once it is all
/// in, the line is cleared; once a chunk is refused, everything stays where
/// it got to.
pub open spec fn placed(line: LineView, chunk: ChunkView, sink: SinkView) -> Placed
    decreases line.pending().len(), chunk_rank_of(chunk),
{
    let text = line.pending();
    let n = chunk.takes(text);
    let filled = chunk.pushed(text, line.state == LogBufferLineState::Complete);
    let rest = line.consumed(n);
    if filled.finished && sink.room == 0 {
        Placed { line: rest, chunk: filled, sink: sink.pushed(filled), is_open: false }
    } else {
        let chunk_after = if filled.finished {
            ChunkView::empty()
        } else {
            filled
        };
        let sink_after = if filled.finished {
            sink.pushed(filled)
        } else {
            sink
        };
        if rest.taken == rest.text.len() {
            Placed {
                line: LineView::empty(),
                chunk: chunk_after,
                sink: sink_after,
                is_open: true,
            }
        } else if rest.pending().len() < text.len() || (rest.pending().len() == text.len()
            && chunk_rank_of(chunk_after) < chunk_rank_of(chunk)) {
            placed(rest, chunk_after, sink_after)
        } else {
            Placed { line: rest, chunk: filled, sink, is_open: false }
        }
    }
}

/// Zero for a chunk with all its room, one for any other.
pub open spec fn chunk_rank_of(chunk: ChunkView) -> int {
    if chunk.pieces.len() == 0 && !chunk.finished {
        0
    } else {
        1
    }
}

/// Place whole lines one after another, into one chunk for as long as they
/// fit.
pub open spec fn placed_lines(lines: Seq<Seq<u8>>, chunk: ChunkView, sink: SinkView) -> Placed
    decreases lines.len(),
{
    if lines.len() == 0 {
        Placed { line: LineView::empty(), chunk, sink, is_open: true }
    } else {
        let first = placed(LineView::whole(lines[0]), chunk, sink);
        if first.is_open {
            placed_lines(lines.skip(1), first.chunk, first.sink)
        } else {
            first
        }
    }
}

/// The far end once whole lines have been written to it, in a chunk that is
/// taken for them and given back. The last chunk goes whether or not it
/// filled.
pub open spec fn lines_written(lines: Seq<Seq<u8>>, sink: SinkView) -> SinkView {
    let after = placed_lines(lines, ChunkView::empty(), sink.took());
    if after.is_open && after.chunk.pieces.len() > 0 {
        after.sink.pushed(after.chunk).returned()
    } else {
        after.sink.returned()
    }
}

/// The bytes of each line.
pub open spec fn lines_bytes(lines: Seq<&str>) -> Seq<Seq<u8>> {
    lines.map_values(|line: &str| line.spec_bytes())
}

/// What whole lines written to a log add to it: each of them, closed by a
/// newline, in order.
pub proof fn written_lines_come_out(lines: Seq<Seq<u8>>, chunk: ChunkView, sink: SinkView)
    requires
        chunk.wf(),
        !chunk.finished,
        forall|i: int| 0 <= i < lines.len() ==> valid_utf8(#[trigger] lines[i]),
        placed_lines(lines, chunk, sink).is_open,
    ensures
        ({
            let after = placed_lines(lines, chunk, sink);
            chunks_stream(after.sink.handed) + after.chunk.stream() == chunks_stream(sink.handed)
                + chunk.stream() + lines_stream(lines)
        }),
    decreases lines.len(),
{
    let base = chunks_stream(sink.handed) + chunk.stream();
    if lines.len() == 0 {
        assert(base + lines_stream(lines) =~= base);
    } else {
        let whole = LineView::whole(lines[0]);
        let first = placed(whole, chunk, sink);
        is_char_boundary_start_end_of_seq(lines[0]);
        lemma_placed(whole, chunk, sink);
        lemma_placed_stream(whole, chunk, sink);
        written_lines_come_out(lines.skip(1), first.chunk, first.sink);
        assert(whole.pending() =~= lines[0]);
        assert(base + lines[0] + line::newline_of(whole.state) + lines_stream(lines.skip(1))
            =~= base + (lines[0].push(0x0a) + lines_stream(lines.skip(1))));
    }
}

/// Lines as text, each closed by a newline.
pub open spec fn lines_stream(lines: Seq<Seq<u8>>) -> Seq<u8>
    decreases lines.len(),
{
    if lines.len() == 0 {
        Seq::empty()
    } else {
        lines[0].push(0x0a) + lines_stream(lines.skip(1))
    }
}

/// A buffer: the line being assembled, the chunk being filled, the far end,
/// and the head of a character the last read cut in half.
#[verifier::ext_equal]
pub struct BufferView {
    pub line: LineView,
    pub chunk: ChunkView,
    pub sink: SinkView,
    pub held: Seq<u8>,
}

/// What came of feeding a buffer.
#[verifier::ext_equal]
pub struct BufferFed {
    pub buffer: BufferView,
    /// The bytes that were not taken.
    pub rest: Seq<u8>,
    /// Whether there was somewhere to put every line.
    pub is_open: bool,
}

impl BufferView {
    /// A buffer that has taken a chunk to fill, and nothing to put into it.
    pub open spec fn begun(sink: SinkView) -> BufferView {
        BufferView {
            line: LineView::empty(),
            chunk: ChunkView::empty(),
            sink: sink.took(),
            held: Seq::empty(),
        }
    }

    /// What holds of every buffer.
    pub open spec fn wf(self) -> bool {
        &&& self.line.wf()
        &&& (self.line.state == LogBufferLineState::Open ==> self.line.taken == 0)
        &&& self.chunk.wf()
        &&& self.held.len() <= 3
    }

    /// Hand the ready line over. It is on its way into the history, so there
    /// is no longer anything part way through.
    pub open spec fn line_flushed(self) -> BufferView {
        let placed = placed(self.line, self.chunk, self.sink.showing(None));
        BufferView { line: placed.line, chunk: placed.chunk, sink: placed.sink, ..self }
    }

    /// Whether there is somewhere to put all of the ready line.
    pub open spec fn line_goes(self) -> bool {
        placed(self.line, self.chunk, self.sink.showing(None)).is_open
    }

    /// Feed `input` in: every line it completes goes over as it does, until
    /// the input is spent, what is left is a character cut short, or there is
    /// nowhere left to put anything.
    pub open spec fn fed(self, input: Seq<u8>, more: bool) -> BufferFed
        decreases input.len(), self.rank(),
    {
        if input.len() == 0 {
            BufferFed { buffer: self, rest: input, is_open: true }
        } else {
            let line = self.line.fed(input, more);
            let rest = input.skip(self.line.takes(input, more));
            let after = BufferView { line, ..self };
            if line.state == LogBufferLineState::Open {
                BufferFed { buffer: after, rest, is_open: true }
            } else if !after.line_goes() {
                BufferFed { buffer: after.line_flushed(), rest, is_open: false }
            } else {
                proof {
                    lemma_fed_shrinks(self, input, more);
                }
                after.line_flushed().fed(rest, more)
            }
        }
    }

    /// Zero while the line can take a character, one while it cannot.
    pub open spec fn rank(self) -> int {
        if self.line.state == LogBufferLineState::Open && line::line_has_room(
            self.line.text.len() as int,
        ) {
            0
        } else {
            1
        }
    }

    /// Hand over a chunk holding text, whether or not it filled up.
    pub open spec fn chunk_flushed(self) -> BufferView {
        if self.chunk.pieces.len() == 0 {
            self
        } else {
            BufferView {
                chunk: if self.sink.room == 0 {
                    self.chunk
                } else {
                    ChunkView::empty()
                },
                sink: self.sink.pushed(self.chunk),
                ..self
            }
        }
    }

    /// Show the line so far, if there is one and it is not finished.
    pub open spec fn published(self) -> BufferView {
        if self.line.state != LogBufferLineState::Open || self.line.text.len() == 0 {
            self
        } else {
            BufferView { sink: self.sink.showing(Some(self.line.text)), ..self }
        }
    }

    /// The buffer once `input` has been written to it, as a whole message.
    pub open spec fn written(self, input: Seq<u8>) -> BufferView {
        let fed = self.fed(input, false);
        if fed.is_open {
            fed.buffer.chunk_flushed().published()
        } else {
            fed.buffer
        }
    }

    /// The buffer once a read has brought `data`.
    pub open spec fn read(self, data: Seq<u8>) -> BufferView {
        let fed = self.fed(self.held + data, true);
        if fed.is_open {
            BufferView { held: fed.rest, ..fed.buffer.chunk_flushed().published() }
        } else {
            BufferView { held: Seq::empty(), ..fed.buffer }
        }
    }

    /// Whether there was somewhere to put every line the read completed.
    pub open spec fn read_goes(self, data: Seq<u8>) -> bool {
        self.fed(self.held + data, true).is_open
    }

    /// The buffer once its stream has ended: what was held back is broken
    /// rather than unfinished, and a last line with no newline is a line.
    pub open spec fn ended(self) -> BufferView {
        let fed = self.fed(self.held, false);
        if fed.is_open {
            let sealed = BufferView { line: fed.buffer.line.sealed(), ..fed.buffer };
            let flushed = if sealed.line.text.len() > 0 {
                sealed.line_flushed()
            } else {
                sealed
            };
            BufferView { held: Seq::empty(), ..flushed.chunk_flushed() }
        } else {
            BufferView { held: Seq::empty(), ..fed.buffer }
        }
    }

    /// Everything the buffer has taken so far, as text: what it handed over,
    /// then what it still holds, each line closed by a newline.
    pub open spec fn stream(self) -> Seq<u8> {
        chunks_stream(self.sink.handed) + self.chunk.stream() + self.line.pending()
            + line::newline_of(self.line.state)
    }
}

/// The text a run of chunks carries.
pub open spec fn chunks_stream(chunks: Seq<ChunkView>) -> Seq<u8>
    decreases chunks.len(),
{
    if chunks.len() == 0 {
        Seq::empty()
    } else {
        chunks_stream(chunks.drop_last()) + chunks.last().stream()
    }
}

pub proof fn lemma_placed_clears(line: LineView, chunk: ChunkView, sink: SinkView)
    ensures
        placed(line, chunk, sink).is_open ==> placed(line, chunk, sink).line == LineView::empty(),
    decreases line.pending().len(), chunk_rank_of(chunk),
{
    let text = line.pending();
    let filled = chunk.pushed(text, line.state == LogBufferLineState::Complete);
    let rest = line.consumed(chunk.takes(text));
    let chunk_after = if filled.finished {
        ChunkView::empty()
    } else {
        filled
    };
    let sink_after = if filled.finished {
        sink.pushed(filled)
    } else {
        sink
    };
    if !(filled.finished && sink.room == 0) && rest.taken != rest.text.len() && (
    rest.pending().len() < text.len() || (rest.pending().len() == text.len() && chunk_rank_of(
        chunk_after,
    ) < chunk_rank_of(chunk))) {
        lemma_placed_clears(rest, chunk_after, sink_after);
    }
}

pub proof fn lemma_fed_shrinks(buffer: BufferView, input: Seq<u8>, more: bool)
    requires
        input.len() > 0,
    ensures
        ({
            let line = buffer.line.fed(input, more);
            let rest = input.skip(buffer.line.takes(input, more));
            let after = BufferView { line, ..buffer };
            line.state != LogBufferLineState::Open && after.line_goes() ==> (rest.len()
                < input.len() || (rest.len() == input.len() && after.line_flushed().rank()
                < buffer.rank()))
        }),
{
    let line = buffer.line.fed(input, more);
    let after = BufferView { line, ..buffer };
    lemma_placed_clears(line, after.chunk, after.sink.showing(None));
    let len = buffer.line.text.len() as int;
    line::line_feeding_loses_nothing(len, input, more, Seq::empty());
    if buffer.rank() == 0 {
        if !more || !utf8::is_partial_scalar(input) {
            line::lemma_line_takes(len, input, more);
        } else {
            utf8::lemma_partial(input);
        }
    } else {
        assert(input.skip(0) =~= input);
    }
}

/// Why a read brought nothing.
#[derive(Clone, Copy, PartialEq, Eq, Debug, Structural)]
pub enum LogReadError {
    Interrupted,
    BrokenPipe,
    UnexpectedEof,
    ConnectionReset,
    ConnectionAborted,
    /// Anything else, which reading cannot make sense of.
    Other,
}

/// The reading end of one pipe, owned by the task draining it.
///
/// Sits between a child's stdout and whatever stores its output, and exists
/// for the two things a raw read cannot do by itself: a read lands wherever
/// the pipe happened to break, so it may stop in the middle of a character,
/// and it may cover many lines at once. This holds the leftover bytes of an
/// unfinished character between calls and feeds whole characters to a chunk,
/// handing each chunk over as it finishes.
pub struct LogBufferAny<W: LogBufferWriter> {
    /// Where chunks come from and where they go.
    writer: W,
    /// The line being assembled. One per buffer, because a partly built line
    /// belongs to the pipe it is being read from and to nothing else.
    line: LogBufferLine,
    /// The chunk being filled.
    chunk: LogChunk,
    /// The head of a character the last read cut in half. Never more than
    /// three bytes; usually none, since any input ending on a character
    /// boundary — all of ASCII — leaves nothing behind.
    held: Vec<u8>,
}

impl<W: LogBufferWriter> LogBufferAny<W> {
    /// What the buffer holds and what it can see of the far end.
    pub closed spec fn view(&self) -> BufferView {
        BufferView {
            line: self.line@,
            chunk: self.chunk@,
            sink: self.writer.sink(),
            held: self.held@,
        }
    }

    /// Whether the buffer is well formed.
    pub closed spec fn wf(&self) -> bool {
        self@.wf() && self.chunk.wf() && self.writer.wf()
    }

    /// A well formed buffer's view is well formed.
    pub proof fn lemma_wf(&self)
        requires
            self.wf(),
        ensures
            self@.wf(),
    {
    }

    /// Start reading into `writer`'s log.
    ///
    /// Takes the chunk this reader will fill from the writer, so after this
    /// the task allocates nothing however much output it carries.
    pub fn new(writer: W) -> (buffer: Self)
        requires
            writer.wf(),
        ensures
            buffer.wf(),
            buffer@ == BufferView::begun(writer.sink()),
    {
        let mut writer = writer;
        let chunk = writer.chunk();
        Self { writer, line: LogBufferLine::new(), chunk, held: Vec::new() }
    }

    /// Where the chunks go.
    pub fn writer(&self) -> (writer: &W)
        requires
            self.wf(),
        ensures
            writer.wf(),
            writer.sink() == self@.sink,
    {
        &self.writer
    }

    /// Push bytes in directly, without a reader.
    ///
    /// For output that is already in memory and already whole — a
    /// supervisor's own notices ("starting", "exited with 1"), not pipe
    /// traffic. Splits on newlines and hands over every chunk it fills, the
    /// same as [`read`](LogBufferAny::read) does.
    ///
    /// An unfinished line stays for the next call to continue, so writing
    /// `"sta"` then `"rting\n"` logs one line. What does *not* carry over is
    /// a partial character: one call is one whole message, so a trailing
    /// `\xc3` becomes a replacement character rather than being held back for
    /// a call that may never come.
    ///
    /// Returns early, dropping the rest, once the log is gone.
    pub fn write(&mut self, buf: &[u8])
        requires
            old(self).wf(),
        ensures
            final(self).wf(),
            final(self)@ == old(self)@.written(buf@),
    {
        let (_, is_open) = self.feed(buf, false);
        if !is_open {
            return;
        }
        self.flush_chunk();
        self.publish_partial();
    }

    /// Feed `input` in, handing over every line it completes, and report how
    /// much of it was taken and whether there was somewhere to put it.
    fn feed(&mut self, input: &[u8], more_coming: bool) -> (fed: (usize, bool))
        requires
            old(self).wf(),
        ensures
            final(self).wf(),
            ({
                let expected = old(self)@.fed(input@, more_coming);
                &&& final(self)@ == expected.buffer
                &&& fed.0 <= input@.len()
                &&& input@.skip(fed.0 as int) == expected.rest
                &&& fed.1 == expected.is_open
            }),
    {
        let mut start: usize = 0;
        let ghost expected = self@.fed(input@, more_coming);
        proof {
            assert(input@.skip(0) =~= input@);
        }
        while start < input.len()
            invariant
                self.wf(),
                start <= input@.len(),
                self@.held == old(self)@.held,
                expected == old(self)@.fed(input@, more_coming),
                expected == self@.fed(input@.skip(start as int), more_coming),
            decreases input@.len() - start, self@.rank(),
        {
            let rest = slice_subrange(input, start, input.len());
            proof {
                assert(rest@ =~= input@.skip(start as int));
                lemma_line_fed_wf(self.line@, rest@, more_coming);
                lemma_fed_shrinks(self@, rest@, more_coming);
            }
            let ghost before = self@;
            let taken = if more_coming {
                self.line.write(rest)
            } else {
                self.line.write_eof(rest)
            };
            start = start + taken;
            proof {
                assert(rest@.skip(taken as int) =~= input@.skip(start as int));
                assert(self@ =~= (BufferView { line: self.line@, ..before }));
            }
            if !self.line.is_ready() {
                // Either the input is spent, or what is left is the head of a
                // character the next read finishes. Both mean stop here.
                return (start, true);
            }
            if !self.flush_line() {
                return (start, false);
            }
        }
        (start, true)
    }

    /// Show the line so far, if there is one and it is not finished.
    ///
    /// At the end of a read rather than as it goes, because what a reader
    /// wants to see is the line as it stands now.
    fn publish_partial(&mut self)
        requires
            old(self).wf(),
        ensures
            final(self).wf(),
            final(self)@ == old(self)@.published(),
    {
        if self.line.is_ready() || self.line.is_empty() {
            return;
        }
        self.writer.set_partial(self.line.as_str());
    }

    /// Hand over a chunk holding text, whether or not it filled up.
    ///
    /// Packing only pays while output arrives faster than it is read. A chunk
    /// left waiting for company would hold a quiet process's last line out of
    /// the log until it happened to say something else — which for a tailer
    /// is the line that matters most. So a chunk goes at the end of every
    /// read: a burst fills one several times over and packs, a trickle sends
    /// one line at a time and packs nothing, and neither has to be detected.
    fn flush_chunk(&mut self) -> (is_open: bool)
        requires
            old(self).wf(),
        ensures
            final(self).wf(),
            final(self)@ == old(self)@.chunk_flushed(),
            is_open == (old(self)@.chunk.pieces.len() == 0 || old(self)@.sink.room > 0),
    {
        if self.chunk.is_empty() {
            return true;
        }
        self.writer.push_chunk(&mut self.chunk)
    }

    /// Hand the finished line to the log, then clear it.
    ///
    /// A line can outgrow a chunk, so this loops: each pass places what fits,
    /// and a chunk that filled up goes to the log and comes back empty for
    /// the rest. Only the pass that places the last of the text marks the
    /// chunk a finished line, which is what keeps a split line readable as
    /// one afterwards.
    ///
    /// Returns `false` once the log is gone: there is nowhere left to put
    /// anything, and no reason for the caller to carry on.
    fn flush_line(&mut self) -> (is_open: bool)
        requires
            old(self).wf(),
            old(self)@.line.state != LogBufferLineState::Open,
        ensures
            final(self).wf(),
            final(self)@ == old(self)@.line_flushed(),
            is_open == old(self)@.line_goes(),
    {
        // The line is on its way into the history, so there is no longer
        // anything part way through — whether a newline closed it, the room
        // ran out, or the stream ended and sealed it.
        self.writer.clear_partial();
        let ghost expected = placed(self.line@, self.chunk@, self.writer.sink());
        loop
            invariant_except_break
                self.line@.wf(),
                self.chunk.wf(),
                self.writer.wf(),
                self.held == old(self).held,
                self.held@.len() <= 3,
                self.line@.state != LogBufferLineState::Open,
                expected == placed(
                    old(self)@.line,
                    old(self)@.chunk,
                    old(self)@.sink.showing(None),
                ),
                expected == placed(self.line@, self.chunk@, self.writer.sink()),
            ensures
                self.line@.wf(),
                self.chunk.wf(),
                self.writer.wf(),
                self.held == old(self).held,
                self.held@.len() <= 3,
                expected.is_open,
                expected.chunk == self.chunk@,
                expected.sink == self.writer.sink(),
                expected.line == LineView::empty(),
            decreases self.line@.pending().len(), chunk_rank_of(self.chunk@),
        {
            proof {
                lemma_place_step(self.line@, self.chunk@);
            }
            self.chunk.push_line(&mut self.line);
            if self.chunk.is_finished() {
                let is_open = self.writer.push_chunk(&mut self.chunk);
                if !is_open {
                    return false;
                }
            }
            if self.line.is_drained() {
                break;
            }
        }
        self.line.clear();
        true
    }

    /// Take what one read brought and hand every line it completes to the
    /// log. `Ok` of no bytes is the end of the stream.
    ///
    /// - `Ok(true)` — read again.
    /// - `Ok(false)` — stop. Either the stream ended, in which case whatever
    ///   was still held has been flushed, or there is nowhere left to put
    ///   anything; the two are not distinguished, because the caller's move is
    ///   the same for both.
    /// - `Err` — something went wrong that reading cannot make sense of, for
    ///   the caller to decide about. The error comes back untouched.
    ///
    /// A child's output normally ends by the other end disappearing, so a
    /// broken pipe or a reset connection is the end of the stream and not a
    /// failure — the exit status is what carries that news. `Interrupted`
    /// asks for another call. Anything else comes back as `Err` with the
    /// buffer untouched, so a caller that wants to retry can.
    ///
    /// A read lands wherever the pipe breaks, regularly mid character. Those
    /// bytes are held and the next read is taken after them, so the chunk
    /// only ever sees whole characters. At most three are held: past four, an
    /// undecodable sequence is broken rather than unfinished, and becomes
    /// replacement characters.
    pub fn read(&mut self, read: Result<&[u8], LogReadError>) -> (again: Result<bool, LogReadError>)
        requires
            old(self).wf(),
        ensures
            final(self).wf(),
            match read {
                Ok(data) => if data@.len() > 0 {
                    &&& again == Ok::<bool, LogReadError>(old(self)@.read_goes(data@))
                    &&& final(self)@ == old(self)@.read(data@)
                } else {
                    &&& again == Ok::<bool, LogReadError>(false)
                    &&& final(self)@ == old(self)@.ended()
                },
                Err(LogReadError::Interrupted) => {
                    &&& again == Ok::<bool, LogReadError>(true)
                    &&& final(self)@ == old(self)@
                },
                Err(LogReadError::Other) => {
                    &&& again == Err::<bool, LogReadError>(LogReadError::Other)
                    &&& final(self)@ == old(self)@
                },
                Err(_) => {
                    &&& again == Ok::<bool, LogReadError>(false)
                    &&& final(self)@ == old(self)@.ended()
                },
            },
    {
        let data = match read {
            Ok(data) => data,
            // Asks for another call and means nothing else.
            Err(LogReadError::Interrupted) => return Ok(true),
            Err(error) => {
                if !is_disconnected(error) {
                    return Err(error);
                }
                // The far end went away, which is how a child's output ends.
                self.end();
                return Ok(false);
            },
        };
        if data.len() == 0 {
            self.end();
            return Ok(false);
        }
        let mut input: Vec<u8> = Vec::new();
        input.append(&mut self.held);
        input.extend_from_slice(data);
        proof {
            assert(input@ =~= old(self)@.held + data@);
            lemma_fed(old(self)@, input@, true);
            lemma_fed_held(old(self)@, Seq::empty(), input@, true);
        }
        let (start, is_open) = self.feed(input.as_slice(), true);
        if !is_open {
            return Ok(false);
        }
        self.flush_chunk();
        self.publish_partial();

        // Whatever the line would not take is the head of a character the
        // next read will finish — at most three bytes, and usually none.
        let rest = slice_subrange(input.as_slice(), start, input.len());
        assert(rest@ =~= input@.skip(start as int));
        self.held.extend_from_slice(rest);
        assert(self.held@ =~= rest@);
        Ok(true)
    }

    /// The stream is over, so nothing held back can be finished any more.
    fn end(&mut self)
        requires
            old(self).wf(),
        ensures
            final(self).wf(),
            final(self)@ == old(self)@.ended(),
    {
        let mut input: Vec<u8> = Vec::new();
        input.append(&mut self.held);
        proof {
            assert(input@ =~= old(self)@.held);
            lemma_fed(old(self)@, input@, false);
            lemma_fed_held(old(self)@, Seq::empty(), input@, false);
        }
        let (_, is_open) = self.feed(input.as_slice(), false);
        if !is_open {
            return;
        }
        // Nothing more is coming, so a last line with no newline would
        // otherwise sit here for ever.
        self.line.seal();
        if !self.line.is_empty() {
            self.flush_line();
        }
        // And a chunk still holding text has no later line to close it.
        self.flush_chunk();
    }

    /// Hand the reader's chunk back when the task that owned it is done.
    ///
    /// Whatever was part way through goes with the task that was writing it.
    pub fn finish(self) -> (writer: W)
        requires
            self.wf(),
        ensures
            writer.wf(),
            writer.sink() == self@.sink.showing(None).returned(),
    {
        let mut writer = self.writer;
        writer.clear_partial();
        writer.recycle(self.chunk);
        writer
    }
}

/// Errors that mean the other end is gone.
///
/// For a child process this is the ordinary way output stops — the pipe
/// closes when it exits, and a pty reports the same thing as a reset. None
/// of it is a failure of the reading itself.
pub fn is_disconnected(error: LogReadError) -> (result: bool)
    ensures
        result == (error == LogReadError::BrokenPipe || error == LogReadError::UnexpectedEof
            || error == LogReadError::ConnectionReset || error
            == LogReadError::ConnectionAborted),
{
    match error {
        LogReadError::BrokenPipe => true,
        LogReadError::UnexpectedEof => true,
        LogReadError::ConnectionReset => true,
        LogReadError::ConnectionAborted => true,
        LogReadError::Interrupted => false,
        LogReadError::Other => false,
    }
}

/// What is held back plays no part in feeding.
pub proof fn lemma_fed_held(buffer: BufferView, held: Seq<u8>, input: Seq<u8>, more: bool)
    ensures
        ({
            let fed = buffer.fed(input, more);
            BufferView { held, ..buffer }.fed(input, more) == (BufferFed {
                buffer: BufferView { held, ..fed.buffer },
                ..fed
            })
        }),
    decreases input.len(), buffer.rank(),
{
    if input.len() > 0 {
        let line = buffer.line.fed(input, more);
        let rest = input.skip(buffer.line.takes(input, more));
        let after = BufferView { line, ..buffer };
        if line.state != LogBufferLineState::Open && after.line_goes() {
            lemma_fed_shrinks(buffer, input, more);
            lemma_fed_held(after.line_flushed(), held, rest, more);
        }
    }
}

/// One pass of placing a ready line leaves everything well formed, and either
/// shortens what is left or empties the chunk.
pub proof fn lemma_place_step(line: LineView, chunk: ChunkView)
    requires
        line.placeable(),
        line.state != LogBufferLineState::Open,
        chunk.wf(),
    ensures
        ({
            let text = line.pending();
            let n = chunk.takes(text);
            let filled = chunk.pushed(text, line.state == LogBufferLineState::Complete);
            let rest = line.consumed(n);
            &&& valid_utf8(text)
            &&& 0 <= n <= text.len()
            &&& filled.wf()
            &&& rest.placeable()
            &&& (line.wf() ==> rest.wf())
            &&& rest.pending() == text.skip(n)
            &&& (filled.finished ==> filled.pieces.len() > 0)
            &&& (rest.taken != rest.text.len() ==> filled.finished && (n > 0 || chunk_rank_of(chunk)
                == 1))
        }),
{
    let text = line.pending();
    let n = chunk.takes(text);
    let complete = line.state == LogBufferLineState::Complete;
    valid_utf8_split(line.text, line.taken);
    assert(text =~= line.text.subrange(line.taken, line.text.len() as int));
    chunk::lemma_pushed(chunk, text, complete);
    chunk::lemma_boundary_shifts(line.text, line.taken, n);
    assert(line.consumed(n).pending() =~= text.skip(n));
}

/// Placing leaves everything well formed, refuses only when there is no room,
/// and touches nothing of the far end but its chunks.
pub proof fn lemma_placed(line: LineView, chunk: ChunkView, sink: SinkView)
    requires
        line.placeable(),
        line.state != LogBufferLineState::Open,
        chunk.wf(),
    ensures
        ({
            let after = placed(line, chunk, sink);
            &&& (line.wf() ==> after.line.wf())
            &&& after.chunk.wf()
            &&& (after.is_open ==> after.line == LineView::empty() && !after.chunk.finished)
            &&& (!after.is_open ==> after.sink.room == 0 && after.chunk.finished
                && after.line.state == line.state)
            &&& after.sink.partial == sink.partial
            &&& after.sink.id == sink.id
        }),
    decreases line.pending().len(), chunk_rank_of(chunk),
{
    lemma_place_step(line, chunk);
    let text = line.pending();
    let filled = chunk.pushed(text, line.state == LogBufferLineState::Complete);
    let rest = line.consumed(chunk.takes(text));
    is_char_boundary_start_end_of_seq(Seq::empty());
    if !(filled.finished && sink.room == 0) && rest.taken != rest.text.len() {
        lemma_placed(rest, ChunkView::empty(), sink.pushed(filled));
    }
}

proof fn lemma_stream_push(chunks: Seq<ChunkView>, chunk: ChunkView, id: u32)
    ensures
        chunks_stream(chunks.push(chunk.stamped(id))) == chunks_stream(chunks) + chunk.stream(),
{
    assert(chunks.push(chunk.stamped(id)).drop_last() =~= chunks);
}

pub proof fn lemma_placed_stream(line: LineView, chunk: ChunkView, sink: SinkView)
    requires
        line.placeable(),
        line.state != LogBufferLineState::Open,
        chunk.wf(),
        !chunk.finished,
        placed(line, chunk, sink).is_open,
    ensures
        ({
            let after = placed(line, chunk, sink);
            chunks_stream(after.sink.handed) + after.chunk.stream() == chunks_stream(sink.handed)
                + chunk.stream() + line.pending() + line::newline_of(line.state)
        }),
    decreases line.pending().len(), chunk_rank_of(chunk),
{
    lemma_place_step(line, chunk);
    let complete = line.state == LogBufferLineState::Complete;
    let text = line.pending();
    let n = chunk.takes(text);
    let filled = chunk.pushed(text, complete);
    let rest = line.consumed(n);
    let close = line::newline_of(line.state);
    chunk::chunk_carries_what_it_takes(chunk, text, complete);
    let sink_after = if filled.finished {
        sink.pushed(filled)
    } else {
        sink
    };
    let chunk_after = if filled.finished {
        ChunkView::empty()
    } else {
        filled
    };
    if filled.finished {
        lemma_stream_push(sink.handed, filled, sink.id);
    }
    let before = chunks_stream(sink.handed);
    assert(chunks_stream(sink_after.handed) + chunk_after.stream() =~= before + filled.stream());
    if rest.taken == rest.text.len() {
        assert(text.take(n) =~= text);
        assert(before + filled.stream() =~= before + chunk.stream() + text + close);
    } else {
        lemma_placed_stream(rest, chunk_after, sink_after);
        assert(text.take(n) + text.skip(n) =~= text);
        assert(before + filled.stream() + text.skip(n) + close =~= before + chunk.stream() + text
            + close);
    }
}

/// Feeding leaves everything well formed; it refuses only when there is no
/// room, and what it leaves is at most a character cut short.
pub proof fn lemma_fed(buffer: BufferView, input: Seq<u8>, more: bool)
    requires
        buffer.wf(),
    ensures
        ({
            let fed = buffer.fed(input, more);
            &&& fed.buffer.wf()
            &&& fed.buffer.held == buffer.held
            &&& fed.buffer.sink.id == buffer.sink.id
            &&& fed.rest.len() <= input.len()
            &&& fed.rest == input.skip(input.len() - fed.rest.len())
            &&& (!fed.is_open ==> fed.buffer.sink.room == 0)
            &&& (fed.is_open ==> fed.rest.len() == 0 || (more && fed.rest.len() <= 3
                && utf8::is_partial_scalar(fed.rest)))
        }),
    decreases input.len(), buffer.rank(),
{
    if input.len() == 0 {
        assert(input.skip(0) =~= input);
    } else {
        let line = buffer.line.fed(input, more);
        let n = buffer.line.takes(input, more);
        let rest = input.skip(n);
        let after = BufferView { line, ..buffer };
        lemma_line_fed_wf(buffer.line, input, more);
        if buffer.line.state == LogBufferLineState::Open {
            line::a_line_holds_back_at_most_a_character(
                buffer.line.text.len() as int,
                input,
                more,
            );
        }
        if line.state != LogBufferLineState::Open {
            lemma_placed(line, buffer.chunk, buffer.sink.showing(None));
            if after.line_goes() {
                lemma_fed_shrinks(buffer, input, more);
                lemma_fed(after.line_flushed(), rest, more);
                let fed = after.line_flushed().fed(rest, more);
                assert(rest.skip(rest.len() - fed.rest.len()) =~= input.skip(
                    input.len() - fed.rest.len(),
                ));
            }
        }
    }
}

/// Offering a line bytes leaves it well formed.
proof fn lemma_line_fed_wf(line: LineView, input: Seq<u8>, more: bool)
    requires
        line.wf(),
    ensures
        line.fed(input, more).wf(),
        0 <= line.takes(input, more) <= input.len(),
{
    if line.state == LogBufferLineState::Open {
        let len = line.text.len() as int;
        line::line_feeding_loses_nothing(len, input, more, Seq::empty());
        lemma_line_fed_text(line.text, input, more);
        utf8::lemma_boundary_stays(
            line.text,
            line::line_fed(len, input, more).text,
            line.taken,
        );
    }
}

proof fn lemma_line_fed_text(text: Seq<u8>, input: Seq<u8>, more: bool)
    requires
        valid_utf8(text),
        text.len() <= LOG_LINE_SIZE,
    ensures
        ({
            let fed = line::line_fed(text.len() as int, input, more);
            let after = text + fed.text;
            &&& valid_utf8(fed.text)
            &&& valid_utf8(after)
            &&& after.len() <= LOG_LINE_SIZE
            &&& (fed.state == LogBufferLineState::Open ==> line::line_has_room(after.len() as int))
            &&& (fed.state == LogBufferLineState::Fragment ==> !line::line_has_room(
                after.len() as int,
            ))
        }),
    decreases input.len(),
{
    let len = text.len() as int;
    if input.len() > 0 && input[0] == 0x0a || !line::line_has_room(len) || input.len() == 0 || (more
        && utf8::is_partial_scalar(input)) {
        assert(text + Seq::<u8>::empty() =~= text);
    } else {
        let unit = utf8::unit_text(input);
        utf8::lemma_unit(input);
        valid_utf8_concat(text, unit);
        let next = input.skip(utf8::unit_width(input));
        lemma_line_fed_text(text + unit, next, more);
        let rest = line::line_fed((text + unit).len() as int, next, more);
        valid_utf8_concat(unit, rest.text);
        assert(text + (unit + rest.text) =~= text + unit + rest.text);
    }
}

/// Feeding loses nothing: the text the buffer has taken, with the decode of
/// what is left and whatever comes next, is the text it had taken with the
/// decode of the input and whatever comes next.
pub proof fn feeding_loses_nothing(
    buffer: BufferView,
    input: Seq<u8>,
    more: bool,
    next: Seq<u8>,
)
    requires
        buffer.wf(),
        !buffer.chunk.finished,
        buffer.fed(input, more).is_open,
        more || next.len() == 0,
    ensures
        ({
            let fed = buffer.fed(input, more);
            &&& fed.buffer.stream() + utf8::lossy(fed.rest + next) == buffer.stream()
                + utf8::lossy(input + next)
            &&& !fed.buffer.chunk.finished
        }),
    decreases input.len(), buffer.rank(),
{
    if input.len() > 0 {
        let line = buffer.line.fed(input, more);
        let n = buffer.line.takes(input, more);
        let rest = input.skip(n);
        let after = BufferView { line, ..buffer };
        lemma_line_fed_wf(buffer.line, input, more);
        let whole = utf8::lossy(input + next);
        let left = utf8::lossy(rest + next);
        assert(after.stream() + left == buffer.stream() + whole) by {
            let base = chunks_stream(buffer.sink.handed) + buffer.chunk.stream();
            if buffer.line.state == LogBufferLineState::Open {
                let fed = line::line_fed(buffer.line.text.len() as int, input, more);
                line::line_feeding_loses_nothing(
                    buffer.line.text.len() as int,
                    input,
                    more,
                    next,
                );
                assert(after.line.pending() =~= buffer.line.text + fed.text);
                assert(buffer.line.pending() =~= buffer.line.text);
                assert(base + (buffer.line.text + fed.text) + line::newline_of(fed.state) + left
                    =~= base + buffer.line.text + Seq::<u8>::empty() + (fed.text
                    + line::newline_of(fed.state) + left));
            } else {
                assert(input.skip(0) =~= input);
            }
        }
        if line.state != LogBufferLineState::Open {
            lemma_placed(line, buffer.chunk, buffer.sink.showing(None));
            lemma_placed_stream(line, buffer.chunk, buffer.sink.showing(None));
            let flushed = after.line_flushed();
            assert(flushed.stream() =~= after.stream());
            lemma_fed_shrinks(buffer, input, more);
            feeding_loses_nothing(flushed, rest, more, next);
        }
    }
}

/// Handing the chunk over and showing the line so far moves text about and
/// loses none of it.
proof fn lemma_flush_keeps_stream(buffer: BufferView)
    requires
        buffer.wf(),
        !buffer.chunk.finished,
    ensures
        buffer.chunk_flushed().published().stream() == buffer.stream(),
        buffer.chunk_flushed().stream() == buffer.stream(),
        !buffer.chunk_flushed().published().chunk.finished,
{
    let flushed = buffer.chunk_flushed();
    if buffer.chunk.pieces.len() > 0 && buffer.sink.room > 0 {
        lemma_stream_push(buffer.sink.handed, buffer.chunk, buffer.sink.id);
        assert(flushed.stream() =~= buffer.stream());
    }
    assert(flushed.published().stream() =~= flushed.stream());
}

/// What is written is what comes out: with somewhere to put it, a message
/// adds exactly its own text, each undecodable byte replaced, however it is
/// cut into lines, pieces and chunks.
pub proof fn writing_loses_nothing(buffer: BufferView, input: Seq<u8>)
    requires
        buffer.wf(),
        !buffer.chunk.finished,
        buffer.fed(input, false).is_open,
    ensures
        buffer.written(input).stream() == buffer.stream() + utf8::lossy(input),
{
    feeding_loses_nothing(buffer, input, false, Seq::empty());
    lemma_fed(buffer, input, false);
    let fed = buffer.fed(input, false);
    lemma_flush_keeps_stream(fed.buffer);
    assert(input + Seq::<u8>::empty() =~= input);
    assert(fed.rest + Seq::<u8>::empty() =~= Seq::empty());
    assert(fed.buffer.stream() + utf8::lossy(Seq::empty()) =~= fed.buffer.stream());
}

/// Reading loses nothing: whatever arrives next, the text taken so far and
/// the decode of what is held and to come are unchanged by a read.
pub proof fn reading_loses_nothing(buffer: BufferView, data: Seq<u8>, next: Seq<u8>)
    requires
        buffer.wf(),
        !buffer.chunk.finished,
        buffer.read_goes(data),
    ensures
        ({
            let after = buffer.read(data);
            &&& after.wf()
            &&& !after.chunk.finished
            &&& after.stream() + utf8::lossy(after.held + next) == buffer.stream() + utf8::lossy(
                buffer.held + data + next,
            )
        }),
{
    let input = buffer.held + data;
    feeding_loses_nothing(buffer, input, true, next);
    lemma_fed(buffer, input, true);
    let fed = buffer.fed(input, true);
    lemma_flush_keeps_stream(fed.buffer);
    let flushed = fed.buffer.chunk_flushed().published();
    let after = buffer.read(data);
    assert(after.stream() =~= flushed.stream());
}

/// Where the reads are cut makes no difference: two reads and one read of
/// both leave the same text, whatever comes after.
pub proof fn cutting_a_read_in_two_changes_nothing(
    buffer: BufferView,
    first: Seq<u8>,
    second: Seq<u8>,
    next: Seq<u8>,
)
    requires
        buffer.wf(),
        !buffer.chunk.finished,
        buffer.read_goes(first),
        buffer.read(first).read_goes(second),
        buffer.read_goes(first + second),
    ensures
        ({
            let twice = buffer.read(first).read(second);
            let once = buffer.read(first + second);
            twice.stream() + utf8::lossy(twice.held + next) == once.stream() + utf8::lossy(
                once.held + next,
            )
        }),
{
    reading_loses_nothing(buffer, first, second + next);
    reading_loses_nothing(buffer.read(first), second, next);
    reading_loses_nothing(buffer, first + second, next);
    assert(buffer.held + first + (second + next) =~= buffer.held + (first + second) + next);
    assert(buffer.read(first).held + (second + next) =~= buffer.read(first).held + second + next);
}

/// At the end of its stream a buffer has handed over everything it took, the
/// last line closed whether or not a newline did it.
pub proof fn ending_hands_everything_over(buffer: BufferView)
    requires
        buffer.wf(),
        !buffer.chunk.finished,
        buffer.line.state == LogBufferLineState::Open,
        buffer.ended().sink.room > 0,
    ensures
        ({
            let fed = buffer.fed(buffer.held, false).buffer;
            let taken = buffer.stream() + utf8::lossy(buffer.held);
            chunks_stream(buffer.ended().sink.handed) == if fed.line.text.len() > 0 {
                taken.push(0x0a)
            } else {
                taken
            }
        }),
{
    let fed = buffer.fed(buffer.held, false);
    lemma_fed(buffer, buffer.held, false);
    feeding_loses_nothing(buffer, buffer.held, false, Seq::empty());
    assert(buffer.held + Seq::<u8>::empty() =~= buffer.held);
    assert(fed.rest + Seq::<u8>::empty() =~= Seq::empty());
    assert(fed.buffer.stream() + utf8::lossy(Seq::empty()) =~= fed.buffer.stream());
    lemma_fed_open(buffer, buffer.held, false);
    let sealed = BufferView { line: fed.buffer.line.sealed(), ..fed.buffer };
    let open = fed.buffer;
    assert(open.line.pending() =~= open.line.text);
    if sealed.line.text.len() > 0 {
        lemma_placed(sealed.line, sealed.chunk, sealed.sink.showing(None));
        let flushed = sealed.line_flushed();
        assert(sealed.line_goes());
        lemma_placed_stream(sealed.line, sealed.chunk, sealed.sink.showing(None));
        lemma_flush_keeps_stream(flushed);
        assert(sealed.line.pending() =~= open.line.text);
        assert(chunks_stream(flushed.sink.handed) + flushed.chunk.stream() =~= open.stream().push(
            0x0a,
        ));
        lemma_empty_chunk(flushed.chunk_flushed());
    } else {
        lemma_flush_keeps_stream(sealed);
        let flushed = sealed.chunk_flushed();
        lemma_empty_chunk(flushed);
        assert(open.stream() =~= chunks_stream(open.sink.handed) + open.chunk.stream());
        assert(flushed.stream() =~= chunks_stream(flushed.sink.handed).push(0x0a));
        assert(sealed.stream() =~= open.stream().push(0x0a));
        assert(open.stream().push(0x0a).drop_last() =~= open.stream());
        assert(flushed.stream().drop_last() =~= chunks_stream(flushed.sink.handed));
    }
}

/// Placing keeps the log at the far end what the far end says of it.
proof fn lemma_placed_sound(line: LineView, chunk: ChunkView, sink: SinkView, capacity: nat)
    requires
        line.placeable(),
        line.state != LogBufferLineState::Open,
        chunk.wf(),
        sink.sound(capacity),
    ensures
        placed(line, chunk, sink).sink.sound(capacity),
    decreases line.pending().len(), chunk_rank_of(chunk),
{
    lemma_place_step(line, chunk);
    let text = line.pending();
    let filled = chunk.pushed(text, line.state == LogBufferLineState::Complete);
    let rest = line.consumed(chunk.takes(text));
    is_char_boundary_start_end_of_seq(Seq::empty());
    if !(filled.finished && sink.room == 0) && rest.taken != rest.text.len() {
        lemma_placed_sound(rest, ChunkView::empty(), sink.pushed(filled), capacity);
    }
}

/// Feeding keeps the log at the far end what the far end says of it.
pub proof fn lemma_fed_sound(buffer: BufferView, input: Seq<u8>, more: bool, capacity: nat)
    requires
        buffer.wf(),
        buffer.sink.sound(capacity),
    ensures
        buffer.fed(input, more).buffer.sink.sound(capacity),
    decreases input.len(), buffer.rank(),
{
    if input.len() > 0 {
        let line = buffer.line.fed(input, more);
        let rest = input.skip(buffer.line.takes(input, more));
        let after = BufferView { line, ..buffer };
        lemma_line_fed_wf(buffer.line, input, more);
        if line.state != LogBufferLineState::Open {
            let cleared = buffer.sink.showing(None);
            lemma_placed(line, buffer.chunk, cleared);
            lemma_placed_sound(line, buffer.chunk, cleared, capacity);
            if after.line_goes() {
                lemma_fed_shrinks(buffer, input, more);
                lemma_fed_sound(after.line_flushed(), rest, more, capacity);
            }
        }
    }
}

/// Whether the last piece put down, in the chunk being filled or in the last
/// one handed over, ends a line.
pub open spec fn ends_closed(chunk: ChunkView, sink: SinkView) -> bool {
    if chunk.pieces.len() > 0 {
        !chunk.open
    } else {
        sink.handed.len() > 0 && !sink.handed.last().open
    }
}

/// A whole line that was placed ends where it ends.
proof fn lemma_placed_closed(line: LineView, chunk: ChunkView, sink: SinkView)
    requires
        line.placeable(),
        line.state == LogBufferLineState::Complete,
        chunk.wf(),
        !chunk.finished,
        placed(line, chunk, sink).is_open,
    ensures
        ends_closed(placed(line, chunk, sink).chunk, placed(line, chunk, sink).sink),
    decreases line.pending().len(), chunk_rank_of(chunk),
{
    lemma_place_step(line, chunk);
    let text = line.pending();
    let filled = chunk.pushed(text, true);
    let rest = line.consumed(chunk.takes(text));
    is_char_boundary_start_end_of_seq(Seq::empty());
    if !(filled.finished && sink.room == 0) && rest.taken != rest.text.len() {
        lemma_placed_closed(rest, ChunkView::empty(), sink.pushed(filled));
    }
}

/// Input that ends in a newline is taken to its end, and leaves no line part
/// way through.
pub proof fn lemma_fed_closes(buffer: BufferView, input: Seq<u8>, more: bool)
    requires
        buffer.wf(),
        !buffer.chunk.finished,
        input.len() > 0,
        input.last() == 0x0a,
        buffer.fed(input, more).is_open,
    ensures
        buffer.fed(input, more).buffer.line == LineView::empty(),
        buffer.fed(input, more).rest.len() == 0,
        ends_closed(
            buffer.fed(input, more).buffer.chunk,
            buffer.fed(input, more).buffer.sink,
        ),
    decreases input.len(), buffer.rank(),
{
    let line = buffer.line.fed(input, more);
    let rest = input.skip(buffer.line.takes(input, more));
    let after = BufferView { line, ..buffer };
    lemma_line_fed_wf(buffer.line, input, more);
    if buffer.line.state == LogBufferLineState::Open {
        line::lemma_newline_closes(buffer.line.text.len() as int, input, more);
    }
    lemma_placed(line, buffer.chunk, buffer.sink.showing(None));
    // The line does not stay open, since a newline is in sight; and it goes,
    // since the writer is still open when all is done.
    assert(line.state != LogBufferLineState::Open);
    assert(after.line_goes());
    let next = after.line_flushed();
    lemma_fed_shrinks(buffer, input, more);
    assert(buffer.fed(input, more) == next.fed(rest, more));
    assert(next.line == LineView::empty());
    if rest.len() > 0 {
        assert(rest.last() == input.last());
        lemma_fed_closes(next, rest, more);
        assert(next.fed(rest, more).rest.len() == 0);
    } else {
        assert(next.fed(rest, more) == (BufferFed { buffer: next, rest, is_open: true }));
        lemma_placed_closed(line, buffer.chunk, buffer.sink.showing(None));
        assert(ends_closed(next.chunk, next.sink));
    }
}

/// A message that ends in a newline, on a log that holds nothing: every line
/// of it has been handed over, so what the log carries is the message.
pub proof fn lemma_message_handed_over(sink: SinkView, text: Seq<u8>, more: bool, capacity: nat)
    requires
        sink.sound(capacity),
        sink.handed.len() == 0,
        valid_utf8(text),
        text.len() > 0,
        text.last() == 0x0a,
        capacity < u64::MAX,
        ({
            let fed = BufferView::begun(sink).fed(text, more);
            fed.buffer.chunk_flushed().published().sink.handed.len() <= capacity
        }),
    ensures
        ({
            let fed = BufferView::begun(sink).fed(text, more);
            let after = fed.buffer.chunk_flushed().published();
            &&& fed.is_open
            &&& fed.rest.len() == 0
            &&& after.sink.sound(capacity)
            &&& chunks_stream(after.sink.handed) == text
            &&& after.sink.handed.len() > 0
            &&& !after.sink.handed.last().open
        }),
{
    let buffer = BufferView::begun(sink);
    let fed = buffer.fed(text, more);
    is_char_boundary_start_end_of_seq(Seq::empty());
    lemma_fed(buffer, text, more);
    lemma_fed_sound(buffer, text, more, capacity);
    lemma_fed_closes(buffer, text, more);
    feeding_loses_nothing(buffer, text, more, Seq::empty());
    utf8::lossy_keeps_text(text);
    let flushed = fed.buffer.chunk_flushed();
    let after = flushed.published();
    lemma_flush_keeps_stream(fed.buffer);
    assert(text + Seq::<u8>::empty() =~= text);
    assert(fed.rest + Seq::<u8>::empty() =~= Seq::empty());
    assert(buffer.stream() =~= Seq::<u8>::empty());
    assert(fed.buffer.stream() =~= text);
    lemma_empty_chunk(flushed);
    assert(flushed.line.pending() =~= Seq::<u8>::empty());
    assert(after.stream() =~= chunks_stream(after.sink.handed));
}

/// Placing whole lines keeps the log at the far end what the far end says of
/// it, refuses only when there is no room, and ends where the last line ends.
pub proof fn lemma_placed_lines(
    lines: Seq<Seq<u8>>,
    chunk: ChunkView,
    sink: SinkView,
    capacity: nat,
)
    requires
        chunk.wf(),
        !chunk.finished,
        sink.sound(capacity),
        forall|i: int| 0 <= i < lines.len() ==> valid_utf8(#[trigger] lines[i]),
    ensures
        ({
            let after = placed_lines(lines, chunk, sink);
            &&& after.sink.sound(capacity)
            &&& (!after.is_open ==> after.sink.room == 0)
            &&& (after.is_open && lines.len() > 0 ==> ends_closed(after.chunk, after.sink))
        }),
    decreases lines.len(),
{
    if lines.len() > 0 {
        let whole = LineView::whole(lines[0]);
        let first = placed(whole, chunk, sink);
        is_char_boundary_start_end_of_seq(lines[0]);
        lemma_placed(whole, chunk, sink);
        lemma_placed_sound(whole, chunk, sink, capacity);
        if first.is_open {
            lemma_placed_closed(whole, chunk, sink);
            lemma_placed_lines(lines.skip(1), first.chunk, first.sink, capacity);
        }
    }
}

/// Feeding a buffer whose line is open leaves it open, if nothing is refused.
proof fn lemma_fed_open(buffer: BufferView, input: Seq<u8>, more: bool)
    requires
        buffer.wf(),
        buffer.line.state == LogBufferLineState::Open,
        buffer.fed(input, more).is_open,
    ensures
        buffer.fed(input, more).buffer.line.state == LogBufferLineState::Open,
    decreases input.len(), buffer.rank(),
{
    if input.len() > 0 {
        let line = buffer.line.fed(input, more);
        let rest = input.skip(buffer.line.takes(input, more));
        let after = BufferView { line, ..buffer };
        lemma_line_fed_wf(buffer.line, input, more);
        if line.state != LogBufferLineState::Open {
            lemma_placed(line, buffer.chunk, buffer.sink.showing(None));
            lemma_fed_shrinks(buffer, input, more);
            lemma_fed_open(after.line_flushed(), rest, more);
        }
    }
}

proof fn lemma_empty_chunk(buffer: BufferView)
    requires
        buffer.chunk.pieces.len() == 0,
    ensures
        buffer.chunk.stream() == Seq::<u8>::empty(),
        chunks_stream(buffer.sink.handed) + buffer.chunk.stream() == chunks_stream(
            buffer.sink.handed,
        ),
{
    assert(chunks_stream(buffer.sink.handed) + Seq::<u8>::empty() =~= chunks_stream(
        buffer.sink.handed,
    ));
}

/// Whether what a far end shows as part way through is the line so far, where
/// there is one, and nothing where there is none. Once there is nowhere left to
/// put anything, what is shown stays as it is.
pub open spec fn shows_the_line(buffer: BufferView) -> bool {
    ||| buffer.sink.room == 0
    ||| buffer.line.text.len() == 0 && buffer.sink.partial is None
    ||| buffer.line.text.len() > 0 && buffer.sink.partial == Some(buffer.line.text)
}

spec fn shows_no_other(buffer: BufferView) -> bool {
    buffer.sink.room == 0 || (buffer.sink.partial is Some ==> buffer.line.text.len() > 0)
}

proof fn lemma_placed_shows(line: LineView, chunk: ChunkView, sink: SinkView)
    ensures
        placed(line, chunk, sink).sink.partial == sink.partial,
        placed(line, chunk, sink).sink.room <= sink.room,
        placed(line, chunk, sink).is_open ==> placed(line, chunk, sink).line == LineView::empty(),
    decreases line.pending().len(), chunk_rank_of(chunk),
{
    let text = line.pending();
    let filled = chunk.pushed(text, line.state == LogBufferLineState::Complete);
    let rest = line.consumed(chunk.takes(text));
    if !(filled.finished && sink.room == 0) {
        let chunk_after = if filled.finished {
            ChunkView::empty()
        } else {
            filled
        };
        let sink_after = if filled.finished {
            sink.pushed(filled)
        } else {
            sink
        };
        if rest.taken != rest.text.len() && (rest.pending().len() < text.len()
            || (rest.pending().len() == text.len() && chunk_rank_of(chunk_after) < chunk_rank_of(
            chunk,
        ))) {
            lemma_placed_shows(rest, chunk_after, sink_after);
        }
    }
}

proof fn lemma_fed_shows(buffer: BufferView, input: Seq<u8>, more: bool)
    requires
        shows_no_other(buffer),
    ensures
        buffer.fed(input, more).is_open ==> shows_no_other(buffer.fed(input, more).buffer),
    decreases input.len(), buffer.rank(),
{
    if input.len() > 0 {
        let line = buffer.line.fed(input, more);
        let rest = input.skip(buffer.line.takes(input, more));
        let after = BufferView { line, ..buffer };
        if line.state != LogBufferLineState::Open && after.line_goes() {
            lemma_placed_shows(line, buffer.chunk, buffer.sink.showing(None));
            lemma_fed_shrinks(buffer, input, more);
            lemma_fed_shows(after.line_flushed(), rest, more);
        }
    }
}

/// What a log shows as part way through is what is: after a read or a message
/// the line so far, or nothing where the last of them ended one; and nothing
/// once the stream has ended.
pub proof fn what_is_part_way_through_is_shown(buffer: BufferView, data: Seq<u8>)
    requires
        buffer.wf(),
        buffer.line.state == LogBufferLineState::Open,
        shows_the_line(buffer),
    ensures
        buffer.read_goes(data) ==> shows_the_line(buffer.read(data)),
        buffer.fed(data, false).is_open ==> shows_the_line(buffer.written(data)),
        buffer.fed(buffer.held, false).is_open && buffer.ended().sink.room > 0
            ==> buffer.ended().sink.partial is None,
{
    if buffer.read_goes(data) {
        lemma_fed_shows(buffer, buffer.held + data, true);
        lemma_fed_open(buffer, buffer.held + data, true);
    }
    if buffer.fed(data, false).is_open {
        lemma_fed_shows(buffer, data, false);
        lemma_fed_open(buffer, data, false);
    }
    let fed = buffer.fed(buffer.held, false);
    if fed.is_open {
        lemma_fed_shows(buffer, buffer.held, false);
        let sealed = BufferView { line: fed.buffer.line.sealed(), ..fed.buffer };
        lemma_placed_shows(sealed.line, sealed.chunk, sealed.sink.showing(None));
    }
}

/// A chunk with text in it goes over as soon as a read or a message has been
/// taken in: nothing that ended a line waits for more to come, unless there is
/// nowhere left to put it.
pub proof fn no_finished_line_waits(buffer: BufferView, data: Seq<u8>)
    requires
        buffer.wf(),
    ensures
        buffer.read_goes(data) ==> buffer.read(data).chunk.pieces.len() == 0
            || buffer.read(data).sink.room == 0,
        buffer.fed(data, false).is_open ==> buffer.written(data).chunk.pieces.len() == 0
            || buffer.written(data).sink.room == 0,
{
}

} // verus!
