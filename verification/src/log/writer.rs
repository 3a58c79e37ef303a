use super::buffer;
use super::buffer::{LogBufferAny, LogBufferWriter, SinkCall, SinkView};
use super::chunk::{ChunkView, LogChunk};
use super::id::LogWriterId;
use super::line::LineView;
use super::partials;
use super::store::{Log, LogView};
use crate::util::utf8::utf8_str;
use vstd::prelude::*;
use vstd::slice::slice_subrange;
use vstd::string::*;
use vstd::utf8::*;

verus! {

/// A handle for appending to a [`Log`], or to one that is gone.
///
/// Once it is gone there is nowhere left to put a chunk, and a reader stops
/// rather than reading on into a void — see
/// [`read`](super::LogBufferAny::read).
///
/// The id is stamped onto every chunk this writer hands over. Fixed at
/// creation: one writer is one source of output for its whole life, which is
/// what makes the stamp worth anything.
pub struct LogWriterRef<'a> {
    /// The log to append to, if it is still there.
    pub log: Option<&'a mut Log>,
    /// Which writer this is.
    pub id: LogWriterId,
    /// Everything asked of the log through this handle.
    pub calls: Ghost<Seq<SinkCall>>,
}

/// What writer `id` of `log` sees of it, having asked `calls` of it.
pub open spec fn sink_of(log: Option<LogView>, id: u32, calls: Seq<SinkCall>) -> SinkView {
    match log {
        Some(view) => SinkView {
            handed: view.history,
            room: (u64::MAX - view.history.len()) as nat,
            partial: partials::partial_of(view.partials, id),
            id,
            calls,
            log,
        },
        None => SinkView { handed: Seq::empty(), room: 0, partial: None, id, calls, log },
    }
}

impl<'a> LogWriterRef<'a> {
    /// The log as it stands, if it is still there.
    pub open spec fn log(&self) -> Option<LogView> {
        match self.log {
            Some(log) => Some(log@),
            None => None,
        }
    }

    /// The number of the id.
    pub open spec fn raw_id(&self) -> u32 {
        self.id.raw()
    }

    /// Whether the log, if it is still there, is well formed.
    pub open spec fn log_wf(&self) -> bool {
        self.log matches Some(log) ==> log.wf()
    }

    /// A handle onto `log` — or onto one that is gone — for writer `id`.
    pub fn new(log: Option<&'a mut Log>, id: LogWriterId) -> (writer: Self)
        requires
            log matches Some(log) ==> log.wf(),
            id.raw() != u32::MAX,
        ensures
            writer.wf(),
            writer.raw_id() == id.raw(),
            writer.log == log,
            writer.calls@ == Seq::<SinkCall>::empty(),
            writer.log() == match log {
                Some(log) => Some(log@),
                None => None,
            },
    {
        Self { log, id, calls: Ghost(Seq::empty()) }
    }

    /// Share the handle: another onto the same log, writing as the same
    /// writer.
    pub fn share(&mut self) -> (writer: LogWriterRef<'_>)
        requires
            old(self).wf(),
        ensures
            writer.wf(),
            writer.raw_id() == old(self).raw_id(),
            writer.log() == old(self).log(),
            final(self).raw_id() == old(self).raw_id(),
            writer.calls@ == Seq::<SinkCall>::empty(),
            final(self).calls == old(self).calls,
            match old(self).log {
                Some(log) => {
                    &&& writer.log matches Some(inner)
                    &&& final(self).log matches Some(outer)
                    &&& *outer == *final(inner)
                    &&& *final(outer) == *final(log)
                },
                None => writer.log is None && final(self).log is None,
            },
    {
        match &mut self.log {
            Some(log) => LogWriterRef {
                log: Some(&mut **log),
                id: self.id,
                calls: Ghost(Seq::empty()),
            },
            None => LogWriterRef { log: None, id: self.id, calls: Ghost(Seq::empty()) },
        }
    }

    /// Fork the handle: another onto the same log, writing as a new writer.
    pub fn fork(&mut self) -> (writer: LogWriterRef<'_>)
        requires
            old(self).wf(),
            old(self).log() is Some,
            old(self).log()->0.next_writer < u32::MAX,
        ensures
            writer.wf(),
            writer.raw_id() == old(self).log()->0.next_writer,
            writer.log() == Some(
                LogView {
                    next_writer: (old(self).log()->0.next_writer + 1) as u32,
                    ..old(self).log()->0
                },
            ),
            final(self).raw_id() == old(self).raw_id(),
            writer.calls@ == Seq::<SinkCall>::empty(),
            final(self).calls == old(self).calls,
            match old(self).log {
                Some(log) => {
                    &&& writer.log matches Some(inner)
                    &&& final(self).log matches Some(outer)
                    &&& *outer == *final(inner)
                    &&& *final(outer) == *final(log)
                },
                None => writer.log is None && final(self).log is None,
            },
    {
        match &mut self.log {
            Some(log) => {
                let id = log.next_writer_id();
                LogWriterRef { log: Some(&mut **log), id, calls: Ghost(Seq::empty()) }
            },
            None => LogWriterRef { log: None, id: self.id, calls: Ghost(Seq::empty()) },
        }
    }

    /// A writer for notes about this log, rather than output into it.
    ///
    /// The same log, under [`LogWriterId::notes`], and narrowed to the two
    /// ways in that a note has: everything else a writer can do belongs to a
    /// process's output and has no meaning for a line the manager wrote
    /// itself.
    pub fn notes(&mut self) -> (notes: LogWriterNotes<'_>)
        requires
            old(self).wf(),
        ensures
            notes.inner.wf(),
            notes.inner.raw_id() == 1,
            notes.inner.log() == old(self).log(),
            final(self).raw_id() == old(self).raw_id(),
            notes.inner.calls@ == Seq::<SinkCall>::empty(),
            final(self).calls == old(self).calls,
            match old(self).log {
                Some(log) => {
                    &&& notes.inner.log matches Some(inner)
                    &&& final(self).log matches Some(outer)
                    &&& *outer == *final(inner)
                    &&& *final(outer) == *final(log)
                },
                None => notes.inner.log is None && final(self).log is None,
            },
    {
        let id = LogWriterId::notes();
        match &mut self.log {
            Some(log) => LogWriterNotes {
                inner: LogWriterRef {
                    log: Some(&mut **log),
                    id,
                    calls: Ghost(Seq::empty()),
                },
            },
            None => LogWriterNotes {
                inner: LogWriterRef { log: None, id, calls: Ghost(Seq::empty()) },
            },
        }
    }

    /// Write one whole line into the log.
    ///
    /// The other way in reads bytes off a pipe and assembles them into lines.
    /// This is for a caller that already has the line: it goes into a chunk
    /// and the chunk goes into the ring, with nothing in between.
    pub fn write_line(&mut self, text: &str)
        requires
            old(self).wf(),
        ensures
            final(self).wf(),
            final(self).raw_id() == old(self).raw_id(),
            final(self).sink() == buffer::lines_written(
                seq![text.spec_bytes()],
                old(self).sink(),
            ),
            match old(self).log {
                Some(log) => final(self).log matches Some(same) && *final(log) == *final(same),
                None => final(self).log is None,
            },
    {
        let lines = [text];
        self.write_lines(lines.as_slice());
        proof {
            assert(buffer::lines_bytes(lines@) =~= seq![text.spec_bytes()]);
        }
    }

    /// Write several whole lines into the log, packed into as few chunks as
    /// they go into.
    ///
    /// One chunk for as many of them as fit, so lines written together are
    /// stored together — and a fresh one whenever that fills, since a chunk
    /// holds a couple of lines and not a list of them.
    ///
    /// The last chunk goes whether or not it filled: a line nobody can see
    /// until the next one is a line that arrived too late to be read.
    pub fn write_lines(&mut self, lines: &[&str])
        requires
            old(self).wf(),
        ensures
            final(self).wf(),
            final(self).raw_id() == old(self).raw_id(),
            final(self).sink() == buffer::lines_written(
                buffer::lines_bytes(lines@),
                old(self).sink(),
            ),
            match old(self).log {
                Some(log) => final(self).log matches Some(same) && *final(log) == *final(same),
                None => final(self).log is None,
            },
    {
        let ghost all = buffer::lines_bytes(lines@);
        let mut chunk = self.chunk();
        let ghost expected = buffer::placed_lines(all, ChunkView::empty(), old(self).sink().took());
        let mut n: usize = 0;
        proof {
            assert(all.skip(0) =~= all);
        }
        while n < lines.len()
            invariant
                n <= lines@.len(),
                all == buffer::lines_bytes(lines@),
                self.wf(),
                match old(self).log {
                    Some(log) => self.log matches Some(same) && *final(log) == *final(same),
                    None => self.log is None,
                },
                self.raw_id() == old(self).raw_id(),
                chunk.wf(),
                !chunk@.finished,
                expected == buffer::placed_lines(all, ChunkView::empty(), old(self).sink().took()),
                expected == buffer::placed_lines(all.skip(n as int), chunk@, self.sink()),
            decreases lines@.len() - n,
        {
            let text = lines[n];
            proof {
                encode_utf8_valid_utf8(text@);
                is_char_boundary_start_end_of_seq(text.spec_bytes());
                assert(all.skip(n as int)[0] == text.spec_bytes());
                assert(all.skip(n as int).skip(1) =~= all.skip(n + 1));
            }
            let bytes = text.as_bytes();
            let ghost first = buffer::placed(LineView::whole(bytes@), chunk@, self.sink());
            let mut taken: usize = 0;
            loop
                invariant_except_break
                    taken <= bytes@.len(),
                    self.wf(),
                    match old(self).log {
                        Some(log) => self.log matches Some(same) && *final(log) == *final(same),
                        None => self.log is None,
                    },
                    self.raw_id() == old(self).raw_id(),
                    chunk.wf(),
                    !chunk@.finished,
                    LineView::whole(bytes@).consumed(taken as int).placeable(),
                    bytes@ == text.spec_bytes(),
                    all == buffer::lines_bytes(lines@),
                    expected == buffer::placed_lines(all, ChunkView::empty(), old(self).sink().took()),
                    expected == if first.is_open {
                        buffer::placed_lines(all.skip(n + 1), first.chunk, first.sink)
                    } else {
                        first
                    },
                    first == buffer::placed(
                        LineView::whole(bytes@).consumed(taken as int),
                        chunk@,
                        self.sink(),
                    ),
                ensures
                    self.wf(),
                    match old(self).log {
                        Some(log) => self.log matches Some(same) && *final(log) == *final(same),
                        None => self.log is None,
                    },
                    self.raw_id() == old(self).raw_id(),
                    chunk.wf(),
                    !chunk@.finished,
                    first.is_open,
                    first.chunk == chunk@,
                    first.sink == self.sink(),
                decreases bytes@.len() - taken, buffer::chunk_rank_of(chunk@),
            {
                let ghost line = LineView::whole(bytes@).consumed(taken as int);
                proof {
                    buffer::lemma_place_step(line, chunk@);
                    valid_utf8_split(bytes@, taken as int);
                }
                let rest = slice_subrange(bytes, taken, bytes.len());
                assert(rest@ =~= line.pending());
                let more = chunk.push_line_str(utf8_str(rest));
                taken = taken + more;
                proof {
                    assert(line.consumed(more as int) == LineView::whole(bytes@).consumed(
                        taken as int,
                    ));
                }
                // Full, so it goes now and the rest of this line — if there is
                // any — carries on in the one that comes back.
                if chunk.is_finished() {
                    if !self.push_chunk(&mut chunk) {
                        self.recycle(chunk);
                        return ;
                    }
                }
                if taken == bytes.len() {
                    break;
                }
            }
            n = n + 1;
        }
        assert(all.skip(n as int) =~= Seq::empty());
        if !chunk.is_empty() {
            self.push_chunk(&mut chunk);
        }
        self.recycle(chunk);
    }

    /// Which writer this is.
    ///
    /// The same id its chunks carry, so a caller holding the writer can find
    /// that writer's output in the history.
    pub fn id(&self) -> (id: LogWriterId)
        ensures
            id.raw() == self.raw_id(),
    {
        self.id
    }
}

impl<'a> LogBufferWriter for LogWriterRef<'a> {
    open spec fn sink(&self) -> SinkView {
        sink_of(self.log(), self.raw_id(), self.calls@)
    }

    open spec fn wf(&self) -> bool {
        self.log_wf() && self.id.raw() != u32::MAX
    }

    /// Take a chunk for a reader to fill.
    ///
    /// One that has been given back is reused before another is made —
    /// otherwise a unit restarted often would go on making them.
    fn chunk(&mut self) -> (chunk: LogChunk)
        ensures
            final(self).raw_id() == old(self).raw_id(),
            final(self).log() == match old(self).log() {
                Some(log) => Some(log.took()),
                None => None,
            },
            match old(self).log {
                Some(log) => final(self).log matches Some(same) && *final(log) == *final(same),
                None => final(self).log is None,
            },
    {
        self.calls = Ghost(self.calls@.push(SinkCall::Take));
        match &mut self.log {
            Some(log) => log.chunk(),
            // The log is gone, so this reader has nowhere to put anything and
            // will stop at its first push. It still needs somewhere to write
            // until it finds that out.
            None => LogChunk::new(),
        }
    }

    /// Give a reader's chunk back for the next one to use. A log already gone
    /// takes nothing.
    fn recycle(&mut self, chunk: LogChunk)
        ensures
            final(self).raw_id() == old(self).raw_id(),
            final(self).log() == match old(self).log() {
                Some(log) => Some(log.returned()),
                None => None,
            },
            match old(self).log {
                Some(log) => final(self).log matches Some(same) && *final(log) == *final(same),
                None => final(self).log is None,
            },
    {
        self.calls = Ghost(self.calls@.push(SinkCall::Return));
        match &mut self.log {
            Some(log) => log.recycle(chunk),
            None => {},
        }
    }

    /// Hand a finished chunk over to the log and take a recycled one back.
    ///
    /// Returns whether the log was still there to take it. One that is gone
    /// takes nothing and the chunk is left as it was — there is nowhere for
    /// its contents to go, and the caller has no reason to carry on.
    fn push_chunk(&mut self, chunk: &mut LogChunk) -> (is_open: bool)
        ensures
            final(self).raw_id() == old(self).raw_id(),
            final(self).log() == match old(self).log() {
                Some(log) => Some(
                    if is_open {
                        log.pushed(old(chunk)@.stamped(old(self).raw_id()))
                    } else {
                        log
                    },
                ),
                None => None,
            },
            match old(self).log {
                Some(log) => final(self).log matches Some(same) && *final(log) == *final(same),
                None => final(self).log is None,
            },
    {
        self.calls = Ghost(self.calls@.push(SinkCall::Push(chunk@)));
        match &mut self.log {
            Some(log) => {
                if log.pushed() == u64::MAX {
                    return false;
                }
                log.push_chunk(self.id, chunk);
                true
            },
            None => false,
        }
    }

    /// Publish `text` as the line this writer is part way through.
    fn set_partial(&mut self, text: &str)
        ensures
            final(self).raw_id() == old(self).raw_id(),
            final(self).log() == match old(self).log() {
                Some(log) => Some(
                    if log.history.len() < u64::MAX {
                        log.showing(old(self).raw_id(), text.spec_bytes())
                    } else {
                        log
                    },
                ),
                None => None,
            },
            match old(self).log {
                Some(log) => final(self).log matches Some(same) && *final(log) == *final(same),
                None => final(self).log is None,
            },
    {
        self.calls = Ghost(self.calls@.push(SinkCall::Show(text.spec_bytes())));
        match &mut self.log {
            Some(log) => {
                if log.pushed() == u64::MAX {
                    return ;
                }
                proof {
                    encode_utf8_valid_utf8(text@);
                    log.lemma_wf();
                    partials::setting_a_partial_shows_it(
                        log@.partials,
                        self.id.raw(),
                        super::store::bumped(log@.version),
                        text.spec_bytes(),
                    );
                    partials::lemma_partial_text(text.spec_bytes());
                }
                log.set_partial(self.id, text);
            },
            None => {},
        }
    }

    /// Forget whatever this writer was part way through.
    ///
    /// Two callers, and between them every way a partial line can end: the
    /// buffer when the line is finished and handed over, and the buffer's
    /// [`finish`](LogBufferAny::finish) when the reader task ends for any
    /// reason at all.
    fn clear_partial(&mut self)
        ensures
            final(self).raw_id() == old(self).raw_id(),
            final(self).log() == match old(self).log() {
                Some(log) => Some(
                    if log.history.len() < u64::MAX {
                        log.cleared(old(self).raw_id())
                    } else {
                        log
                    },
                ),
                None => None,
            },
            match old(self).log {
                Some(log) => final(self).log matches Some(same) && *final(log) == *final(same),
                None => final(self).log is None,
            },
    {
        self.calls = Ghost(self.calls@.push(SinkCall::Clear));
        match &mut self.log {
            Some(log) => {
                if log.pushed() == u64::MAX {
                    return ;
                }
                proof {
                    log.lemma_wf();
                    partials::clearing_a_partial_hides_it(
                        log@.partials,
                        self.id.raw(),
                        self.id.raw(),
                    );
                }
                log.clear_partial(self.id);
            },
            None => {},
        }
    }
}

/// A way into a log for the manager's own notes.
///
/// A [`LogWriterRef`] with everything but the two line writers taken away —
/// there is no chunk to hand over, no pipe to drain, nothing to fork. What is
/// left is what a note is: a line somebody already has, going into a log among
/// output somebody else wrote.
pub struct LogWriterNotes<'a> {
    pub inner: LogWriterRef<'a>,
}

impl<'a> LogWriterNotes<'a> {
    /// Write one whole line into the log.
    pub fn write_line(&mut self, text: &str)
        requires
            old(self).inner.wf(),
        ensures
            final(self).inner.wf(),
            final(self).inner.sink() == buffer::lines_written(
                seq![text.spec_bytes()],
                old(self).inner.sink(),
            ),
            final(self).inner.raw_id() == old(self).inner.raw_id(),
            match old(self).inner.log {
                Some(log) => final(self).inner.log matches Some(same) && *final(log) == *final(same),
                None => final(self).inner.log is None,
            },
    {
        self.inner.write_line(text);
    }

    /// Write several whole lines into the log.
    pub fn write_lines(&mut self, lines: &[&str])
        requires
            old(self).inner.wf(),
        ensures
            final(self).inner.wf(),
            final(self).inner.sink() == buffer::lines_written(
                buffer::lines_bytes(lines@),
                old(self).inner.sink(),
            ),
            final(self).inner.raw_id() == old(self).inner.raw_id(),
            match old(self).inner.log {
                Some(log) => final(self).inner.log matches Some(same) && *final(log) == *final(same),
                None => final(self).inner.log is None,
            },
    {
        self.inner.write_lines(lines);
    }
}

/// A buffer writing into a real [`Log`].
///
/// What is in the log is known through [`log`](LogBufferAny::log) while the
/// buffer lives, and through the writer that
/// [`finish`](LogBufferAny::finish) hands back after it.
pub type LogBuffer<'a> = LogBufferAny<LogWriterRef<'a>>;

impl<'a> LogBufferAny<LogWriterRef<'a>> {
    /// The log being written to as it stands, if it is still there: what has
    /// been handed over is in it, and what is part way through is shown in it.
    pub fn log(&self) -> (log: Option<&Log>)
        requires
            self.wf(),
        ensures
            match log {
                Some(log) => log.wf() && self@.sink == sink_of(
                    Some(log@),
                    self@.sink.id,
                    self@.sink.calls,
                ),
                None => self@.sink == sink_of(None, self@.sink.id, self@.sink.calls),
            },
    {
        match &self.writer().log {
            Some(log) => Some(&**log),
            None => None,
        }
    }
}

impl Log {
    /// Get a handle that can append to this log, as a writer of its own.
    ///
    /// Chunks land in the order they are handed over, which is not quite the
    /// order the lines were printed: a chunk carries several lines, so one
    /// writer's batch arrives whole before another's. Within a writer the
    /// order is exact. A line split across chunks is continued by that
    /// writer's next chunk and not by whatever sits next in the ring.
    pub fn writer(&mut self) -> (writer: LogWriterRef<'_>)
        requires
            old(self).wf(),
            old(self)@.next_writer < u32::MAX,
        ensures
            writer.wf(),
            writer.raw_id() == old(self)@.next_writer,
            writer.log() == Some(
                LogView { next_writer: (old(self)@.next_writer + 1) as u32, ..old(self)@ },
            ),
            writer.calls@ == Seq::<SinkCall>::empty(),
            writer.log matches Some(log) && *final(log) == *final(self),
    {
        let id = self.next_writer_id();
        LogWriterRef { log: Some(self), id, calls: Ghost(Seq::empty()) }
    }

    /// A writer for notes about this log, rather than output into it.
    pub fn notes(&mut self) -> (notes: LogWriterNotes<'_>)
        requires
            old(self).wf(),
        ensures
            notes.inner.wf(),
            notes.inner.raw_id() == 1,
            notes.inner.log() == Some(old(self)@),
            notes.inner.calls@ == Seq::<SinkCall>::empty(),
            notes.inner.log matches Some(log) && *final(log) == *final(self),
    {
        LogWriterNotes {
            inner: LogWriterRef {
                log: Some(self),
                id: LogWriterId::notes(),
                calls: Ghost(Seq::empty()),
            },
        }
    }
}

} // verus!
