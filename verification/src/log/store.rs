use super::chunk::{ChunkView, LogChunk, LOG_CHUNK_SIZE};
use super::id::LogWriterId;
use super::partials;
use super::partials::{PartialView, Partials};
use crate::util::ring;
use crate::util::ring::LocalRingBuffer;
use vstd::prelude::*;
use vstd::string::*;
use vstd::utf8::*;

verus! {

/// A count of changes one further on; it comes round to zero at its end.
pub open spec fn bumped(version: u64) -> u64 {
    if version == u64::MAX {
        0
    } else {
        (version + 1) as u64
    }
}

/// A log: everything ever pushed to it, how many chunks of that it still
/// keeps, the lines being written, and the counters it hands out.
#[verifier::ext_equal]
pub struct LogView {
    pub history: Seq<ChunkView>,
    pub capacity: nat,
    pub partials: Seq<PartialView>,
    pub version: u64,
    pub next_writer: u32,
    /// How many chunks given back by finished readers are waiting for the
    /// next one.
    pub free: nat,
}

impl LogView {
    /// The chunks still kept: the newest `capacity` of them, oldest first.
    pub open spec fn chunks(self) -> Seq<ChunkView> {
        ring::newest(self.history, self.capacity as int)
    }

    /// The log once a chunk has been taken to be filled: one that was waiting,
    /// if any was.
    pub open spec fn took(self) -> LogView {
        LogView {
            free: if self.free > 0 {
                (self.free - 1) as nat
            } else {
                0
            },
            ..self
        }
    }

    /// The log once a chunk has been given back to it.
    pub open spec fn returned(self) -> LogView {
        LogView { free: self.free + 1, ..self }
    }

    /// The log once `chunk` has been handed to it.
    pub open spec fn pushed(self, chunk: ChunkView) -> LogView {
        LogView { history: self.history.push(chunk), version: bumped(self.version), ..self }
    }

    /// The log once `writer` is part way through `text`. Showing what is
    /// already shown changes nothing.
    pub open spec fn showing(self, writer: u32, text: Seq<u8>) -> LogView {
        if partials::partial_of(self.partials, writer) == Some(text) {
            self
        } else {
            LogView {
                partials: partials::partials_set(
                    self.partials,
                    writer,
                    bumped(self.version),
                    text,
                ),
                version: bumped(self.version),
                ..self
            }
        }
    }

    /// The log once `writer` is part way through nothing. Clearing what was
    /// not there changes nothing.
    pub open spec fn cleared(self, writer: u32) -> LogView {
        if partials::partial_of(self.partials, writer) is None {
            self
        } else {
            LogView {
                partials: partials::partials_clear(self.partials, writer),
                version: bumped(self.version),
                ..self
            }
        }
    }

    /// What holds of every log: it keeps at least one chunk and no more than
    /// memory can, every chunk in it is well formed and holds something, and
    /// the ids it hands out are past the notes'.
    pub open spec fn wf(self) -> bool {
        &&& 0 < self.capacity
        &&& self.capacity * LOG_CHUNK_SIZE <= isize::MAX
        &&& self.history.len() <= u64::MAX
        &&& partials::partials_wf(self.partials)
        &&& 2 <= self.next_writer
        &&& forall|i: int|
            0 <= i < self.history.len() ==> (#[trigger] self.history[i]).wf()
                && self.history[i].pieces.len() > 0
    }
}

/// The recent output of a unit, as a ring of chunks.
///
/// It survives restarts — the unit owns it, not the run — so the history of a
/// command is not lost when it is stopped and started again. Chunks are
/// recycled, so a log at capacity stops allocating — a finished line changes
/// hands by swapping buffers, never by copying.
pub struct Log {
    /// The last `capacity` chunks, oldest first.
    chunks: LocalRingBuffer<LogChunk>,
    /// How many chunks have ever been pushed. Never resets, so it is what a
    /// reader compares its own position against to learn what it has missed.
    pushed: u64,
    /// Every chunk ever pushed, as it was then.
    history: Ghost<Seq<ChunkView>>,
    /// The number of the next [`LogWriterId`]. Only ever incremented, so an
    /// id is never reused even after a writer is gone — a stale stamp in the
    /// ring keeps meaning the writer it always meant.
    next_writer_id: u32,
    /// Chunks handed back by readers that have finished, waiting for the
    /// next reader.
    chunks_free: Vec<LogChunk>,
    /// The lines currently being written, one per writer.
    partials: Partials,
    /// Everything that has happened to this log, counted.
    ///
    /// Bumped by a chunk arriving and by a partial line changing, so a reader
    /// polling one number learns about both.
    version: u64,
}

impl View for Log {
    type V = LogView;

    closed spec fn view(&self) -> LogView {
        LogView {
            history: self.history@,
            capacity: self.chunks.spec_capacity(),
            partials: self.partials@,
            version: self.version,
            next_writer: self.next_writer_id,
            free: self.chunks_free@.len(),
        }
    }
}

impl Log {
    closed spec fn inv(&self) -> bool {
        &&& self.chunks.wf()
        &&& self.pushed == self.history@.len()
        &&& self.chunks@.len() == self@.chunks().len()
        &&& forall|i: int|
            #![trigger self.chunks@[i]]
            #![trigger self@.chunks()[i]]
            0 <= i < self.chunks@.len() ==> self.chunks@[i].wf() && self.chunks@[i]@
                == self@.chunks()[i]
        &&& forall|i: int|
            0 <= i < self.chunks_free@.len() ==> (#[trigger] self.chunks_free@[i]).wf()
                && self.chunks_free@[i]@ == ChunkView::empty()
    }

    /// Whether the log is well formed.
    pub closed spec fn wf(&self) -> bool {
        self.inv() && self@.wf()
    }

    /// A well formed log's view is well formed.
    pub proof fn lemma_wf(&self)
        requires
            self.wf(),
        ensures
            self@.wf(),
    {
    }

    /// Create a log keeping the last `capacity` chunks.
    ///
    /// A chunk is a couple of lines, or one slice of a line too long to fit
    /// in [`LOG_CHUNK_SIZE`] bytes, so a log of long lines remembers fewer of
    /// them than its capacity suggests.
    pub fn new(capacity: usize) -> (log: Self)
        requires
            capacity > 0,
            capacity * LOG_CHUNK_SIZE <= isize::MAX,
        ensures
            log.wf(),
            log@.history == Seq::<ChunkView>::empty(),
            log@.capacity == capacity,
            log@.version == 0,
            log@.next_writer == 2,
            log@.free == 0,
            partials::partials_taken(log@.partials) == Seq::<(u32, Seq<u8>)>::empty(),
            forall|writer: u32|
                writer != u32::MAX ==> partials::partial_of(log@.partials, writer) is None,
    {
        Self {
            chunks: LocalRingBuffer::new(capacity),
            pushed: 0,
            history: Ghost(Seq::empty()),
            // One belongs to the notes; processes start after it.
            next_writer_id: 2,
            chunks_free: Vec::new(),
            partials: Partials::new(),
            version: 0,
        }
    }

    /// A log holding `bytes` of output, rounded down to whole chunks.
    ///
    /// Bytes because that is the figure the ring keeps exactly — how many
    /// lines it buys depends on how long they turn out. One chunk is the
    /// floor, since a config asking for no room meant the smallest log.
    pub fn with_bytes(bytes: usize) -> (log: Self)
        requires
            bytes <= isize::MAX,
        ensures
            log.wf(),
            log@.history == Seq::<ChunkView>::empty(),
            log@.capacity == if bytes < LOG_CHUNK_SIZE {
                1
            } else {
                bytes as int / LOG_CHUNK_SIZE as int
            },
            log@.version == 0,
            log@.next_writer == 2,
            log@.free == 0,
            partials::partials_taken(log@.partials) == Seq::<(u32, Seq<u8>)>::empty(),
    {
        Self::new(Self::capacity_for_bytes(bytes))
    }

    /// How many chunks [`with_bytes`](Log::with_bytes) buys for `bytes`.
    ///
    /// For sizing a reader before there is a log to ask: a reader is held to
    /// the capacity of whatever log it is put on, so one built to stand in
    /// for several has to start at least this long.
    pub fn capacity_for_bytes(bytes: usize) -> (capacity: usize)
        ensures
            capacity == if bytes < LOG_CHUNK_SIZE {
                1
            } else {
                bytes as int / LOG_CHUNK_SIZE as int
            },
            capacity > 0,
            bytes <= isize::MAX ==> capacity * LOG_CHUNK_SIZE <= isize::MAX,
    {
        let capacity = bytes / LOG_CHUNK_SIZE;
        if capacity > 1 {
            capacity
        } else {
            1
        }
    }

    /// Claim the next writer id.
    pub fn next_writer_id(&mut self) -> (id: LogWriterId)
        requires
            old(self).wf(),
            old(self)@.next_writer < u32::MAX,
        ensures
            final(self).wf(),
            id.raw() == old(self)@.next_writer,
            final(self)@ == (LogView {
                next_writer: (old(self)@.next_writer + 1) as u32,
                ..old(self)@
            }),
    {
        let id = LogWriterId::new(self.next_writer_id);
        self.next_writer_id = self.next_writer_id + 1;
        id
    }

    /// Take a chunk for a reader to fill: one that has been given back, or a
    /// new one.
    pub fn chunk(&mut self) -> (chunk: LogChunk)
        requires
            old(self).wf(),
        ensures
            final(self).wf(),
            chunk.wf(),
            chunk@ == ChunkView::empty(),
            final(self)@ == old(self)@.took(),
    {
        match self.chunks_free.pop() {
            Some(chunk) => chunk,
            None => LogChunk::new(),
        }
    }

    /// Take a reader's chunk back for the next one to use.
    ///
    /// Cleared on the way in, so nothing of the run that finished can show up
    /// in the run that follows.
    pub fn recycle(&mut self, chunk: LogChunk)
        requires
            old(self).wf(),
        ensures
            final(self).wf(),
            final(self)@ == old(self)@.returned(),
    {
        let mut chunk = chunk;
        chunk.clear();
        self.chunks_free.push(chunk);
    }

    /// Take a finished chunk from writer `id` and leave a recycled one in its
    /// place.
    ///
    /// Nothing is copied: the chunk comes back owning the buffer of whichever
    /// one the ring had to let go of, once it is full.
    ///
    /// The chunk is cleared before it comes back, so the caller can go
    /// straight on writing. Forgetting that step would leave it marked
    /// finished and every later push would place nothing, which is why it
    /// happens here rather than at the call site.
    pub fn push_chunk(&mut self, id: LogWriterId, chunk: &mut LogChunk)
        requires
            old(self).wf(),
            old(self)@.history.len() < u64::MAX,
            old(chunk).wf(),
            old(chunk)@.pieces.len() > 0,
        ensures
            final(self).wf(),
            final(self)@ == old(self)@.pushed(old(chunk)@.stamped(id.raw())),
            final(chunk).wf(),
            final(chunk)@ == ChunkView::empty(),
    {
        let ghost before = *self;
        // Stamp before the hand-off: after the swap this chunk is the
        // recycled one, and the stamp belongs to the content going in.
        chunk.set_writer(id);
        let ghost stamped = chunk@;
        let mut taken = LogChunk::new();
        taken.swap(chunk);
        if let Some(mut displaced) = self.chunks.push(taken) {
            displaced.swap(chunk);
        }
        self.pushed = self.pushed + 1;
        self.history = Ghost(self.history@.push(stamped));
        self.version = self.version.wrapping_add(1);
        chunk.clear();
        proof {
            let kept = self@.chunks();
            assert(self@.history =~= before@.history.push(stamped));
            assert forall|i: int|
                #![trigger self.chunks@[i]]
                #![trigger kept[i]]
                0 <= i < self.chunks@.len() implies self.chunks@[i].wf() && self.chunks@[i]@
                == kept[i] by {
                let full = before.chunks@.len() == before.chunks.spec_capacity();
                let j = if full {
                    i + 1
                } else {
                    i
                };
                if j < before.chunks@.len() {
                    assert(before.chunks@[j]@ == before@.chunks()[j]);
                }
            }
            assert forall|i: int| 0 <= i < self@.history.len() implies (
            #[trigger] self@.history[i]).wf() && self@.history[i].pieces.len() > 0 by {
                if i < before@.history.len() {
                    assert(before@.history[i].wf());
                }
            }
        }
    }

    /// Publish `text` as the line writer `id` is part way through.
    ///
    /// Called at the end of a read that did not finish a line, so that a
    /// process printing a prompt, a progress bar or a `Compiling ...` is
    /// visible while it is doing it rather than only once it says something
    /// else.
    pub fn set_partial(&mut self, id: LogWriterId, text: &str)
        requires
            old(self).wf(),
            id.raw() != u32::MAX,
        ensures
            final(self).wf(),
            final(self)@ == old(self)@.showing(id.raw(), text.spec_bytes()),
    {
        if self.partials.is(id, text) {
            return;
        }
        let version = self.version.wrapping_add(1);
        self.version = version;
        self.partials.set(id, version, text);
    }

    /// Forget whatever writer `id` was part way through.
    pub fn clear_partial(&mut self, id: LogWriterId)
        requires
            old(self).wf(),
            id.raw() != u32::MAX,
        ensures
            final(self).wf(),
            final(self)@ == old(self)@.cleared(id.raw()),
    {
        if self.partials.clear(id) {
            self.version = self.version.wrapping_add(1);
        }
    }

    /// How many chunks have ever been pushed.
    pub fn pushed(&self) -> (pushed: u64)
        requires
            self.wf(),
        ensures
            pushed == self@.history.len(),
    {
        self.pushed
    }

    /// How many chunks the log keeps.
    pub fn capacity(&self) -> (capacity: usize)
        ensures
            capacity == self@.capacity,
    {
        self.chunks.capacity()
    }

    /// Everything that has happened to the log, counted.
    pub fn version(&self) -> (version: u64)
        ensures
            version == self@.version,
    {
        self.version
    }

    /// How many chunks the log holds.
    pub fn len(&self) -> (len: usize)
        requires
            self.wf(),
        ensures
            len == self@.chunks().len(),
    {
        self.chunks.len()
    }

    /// Chunk `n` of those the log holds, counting from the oldest.
    pub fn get(&self, n: usize) -> (chunk: &LogChunk)
        requires
            self.wf(),
            n < self@.chunks().len(),
        ensures
            chunk.wf(),
            chunk@ == self@.chunks()[n as int],
    {
        assert(self.chunks@[n as int]@ == self@.chunks()[n as int]);
        self.chunks.get(n)
    }

    /// The lines being written.
    pub fn partials(&self) -> (lines: &Partials)
        requires
            self.wf(),
        ensures
            lines@ == self@.partials,
    {
        &self.partials
    }
}

/// Ids are handed out in order and never twice: nothing that happens to a log
/// takes its next id back, so one claimed later is past one claimed earlier —
/// and past the notes'.
pub proof fn nothing_takes_an_id_back(log: LogView, chunk: ChunkView, writer: u32, text: Seq<u8>)
    requires
        log.wf(),
    ensures
        log.next_writer > 1,
        log.pushed(chunk).next_writer == log.next_writer,
        log.showing(writer, text).next_writer == log.next_writer,
        log.cleared(writer).next_writer == log.next_writer,
{
}

/// A log changes its version exactly when something has happened to it.
pub proof fn the_version_moves_with_the_log(
    log: LogView,
    chunk: ChunkView,
    writer: u32,
    text: Seq<u8>,
)
    requires
        log.wf(),
        writer != u32::MAX,
        valid_utf8(text),
        text.len() <= super::line::LOG_LINE_SIZE,
    ensures
        log.pushed(chunk).version != log.version,
        log.showing(writer, text).version == log.version <==> log.showing(writer, text) == log,
        log.cleared(writer).version == log.version <==> log.cleared(writer) == log,
{
}

/// A log is a tail: what is handed to it last is what it keeps longest, and it
/// only ever drops its oldest chunk, and that only when it is full.
pub proof fn a_log_drops_only_its_oldest(log: LogView, chunk: ChunkView)
    requires
        log.wf(),
    ensures
        log.pushed(chunk).chunks().len() <= log.capacity,
        log.chunks().len() < log.capacity ==> log.pushed(chunk).chunks() == log.chunks().push(
            chunk,
        ),
        log.chunks().len() == log.capacity ==> log.pushed(chunk).chunks() == log.chunks().skip(
            1,
        ).push(chunk),
        log.showing(chunk.writer, Seq::empty()).chunks() == log.chunks(),
        log.cleared(chunk.writer).chunks() == log.chunks(),
        log.took().chunks() == log.chunks(),
        log.returned().chunks() == log.chunks(),
{
    let after = log.pushed(chunk).chunks();
    if log.chunks().len() < log.capacity {
        assert(after =~= log.chunks().push(chunk));
    } else {
        assert(after =~= log.chunks().skip(1).push(chunk));
    }
}

/// A chunk that was given back is the next one taken: giving one back and
/// taking one leaves a log as it was, and taking one where none waits leaves
/// none.
pub proof fn a_chunk_given_back_is_taken_again(log: LogView)
    ensures
        log.returned().took() == log,
        log.free == 0 ==> log.took() == log,
        log.free > 0 ==> log.took().returned() == log,
{
}

} // verus!
