//! A plain history of lines, and snapshots of it.

use crate::util::ring;
use crate::util::ring::LocalRingBuffer;
use vstd::prelude::*;

verus! {

/// The lines of a ring, as text.
pub open spec fn lines_view(lines: Seq<String>) -> Seq<Seq<char>> {
    lines.map_values(|line: String| line@)
}

/// A history of lines: everything ever written, and how much of it is kept.
#[verifier::ext_equal]
pub struct LogView {
    pub written: Seq<Seq<char>>,
    pub capacity: nat,
}

impl LogView {
    /// The lines still kept, oldest first.
    pub open spec fn lines(self) -> Seq<Seq<char>> {
        ring::newest(self.written, self.capacity as int)
    }
}

/// A snapshot: the lines it holds, how many it keeps, and how many had been
/// written when it was taken.
#[verifier::ext_equal]
pub struct LogBufferView {
    pub lines: Seq<Seq<char>>,
    pub capacity: nat,
    pub seen: nat,
}

impl LogBufferView {
    /// The snapshot once it has been advanced to `log`.
    pub open spec fn updated(self, log: LogView) -> LogBufferView {
        let behind = log.written.len() - self.seen;
        let take = if behind <= log.lines().len() {
            behind
        } else {
            log.lines().len() as int
        };
        LogBufferView {
            lines: ring::newest(
                self.lines + ring::newest(log.lines(), take),
                self.capacity as int,
            ),
            seen: log.written.len(),
            ..self
        }
    }

    /// Whether the snapshot came from `log`: what it holds is the newest of
    /// what had been written when it was taken.
    pub open spec fn follows(self, log: LogView) -> bool {
        &&& self.seen <= log.written.len()
        &&& self.capacity <= log.capacity
        &&& self.lines == ring::newest(log.written.take(self.seen as int), self.capacity as int)
    }
}

/// A snapshot of the most recent lines of a [`Log`].
///
/// A private copy of the contents, so iterating over it never gets in the way
/// of the writers. It only moves forward when it is explicitly refreshed with
/// [`Log::update_buffer`].
pub struct LogBuffer {
    storage: LocalRingBuffer<String>,
    seen: u64,
}

impl View for LogBuffer {
    type V = LogBufferView;

    closed spec fn view(&self) -> LogBufferView {
        LogBufferView {
            lines: lines_view(self.storage@),
            capacity: self.storage.spec_capacity(),
            seen: self.seen as nat,
        }
    }
}

impl LogBuffer {
    /// Whether the snapshot is well formed.
    pub closed spec fn wf(&self) -> bool {
        self.storage.wf()
    }

    /// How many lines the last refresh captured.
    pub fn len(&self) -> (len: usize)
        ensures
            len == self@.lines.len(),
    {
        self.storage.len()
    }

    /// Line `n` of those the last refresh captured, counting from the oldest.
    pub fn line(&self, n: usize) -> (line: &str)
        requires
            n < self@.lines.len(),
        ensures
            line@ == self@.lines[n as int],
    {
        self.storage.get(n).as_str()
    }

    /// The lines captured by the last refresh, oldest first.
    pub fn lines(&self) -> (lines: Vec<String>)
        ensures
            lines_view(lines@) == self@.lines,
    {
        let mut lines: Vec<String> = Vec::new();
        let mut n: usize = 0;
        while n < self.storage.len()
            invariant
                n <= self@.lines.len(),
                n == lines@.len(),
                self@.lines.len() == self.storage@.len(),
                forall|i: int| 0 <= i < n ==> (#[trigger] lines@[i])@ == self@.lines[i],
            decreases self@.lines.len() - n,
        {
            lines.push(self.storage.get(n).clone());
            n = n + 1;
        }
        assert(lines_view(lines@) =~= self@.lines);
        lines
    }
}

/// The output history of a single process.
///
/// A fixed capacity ring of lines: once it is full, writing a new line drops
/// the oldest one.
pub struct Log {
    lines: LocalRingBuffer<String>,
    count: u64,
    written: Ghost<Seq<Seq<char>>>,
}

impl View for Log {
    type V = LogView;

    closed spec fn view(&self) -> LogView {
        LogView { written: self.written@, capacity: self.lines.spec_capacity() }
    }
}

impl Log {
    /// Whether the log is well formed.
    pub closed spec fn wf(&self) -> bool {
        &&& self.lines.wf()
        &&& self.count == self.written@.len()
        &&& lines_view(self.lines@) == self@.lines()
    }

    /// Create a log that retains at most `capacity` lines.
    pub fn new(capacity: usize) -> (log: Self)
        requires
            capacity > 0,
        ensures
            log.wf(),
            log@ == (LogView { written: Seq::empty(), capacity: capacity as nat }),
    {
        let log = Log {
            lines: LocalRingBuffer::new(capacity),
            count: 0,
            written: Ghost(Seq::empty()),
        };
        assert(lines_view(log.lines@) =~= Seq::empty());
        log
    }

    /// Append one line.
    pub fn write_line(&mut self, line: &str)
        requires
            old(self).wf(),
            old(self)@.written.len() < u64::MAX,
        ensures
            final(self).wf(),
            final(self)@ == (LogView { written: old(self)@.written.push(line@), ..old(self)@ }),
    {
        let ghost before = self.lines@;
        let line = line.to_owned();
        let ghost text = line@;
        let ghost item = line;
        self.lines.push(line);
        self.count = self.count + 1;
        self.written = Ghost(self.written@.push(text));
        proof {
            let kept = self.lines.spec_capacity() as int;
            assert(lines_view(self.lines@) =~= ring::newest(lines_view(before).push(text), kept));
            assert(lines_view(self.lines@) =~= self@.lines());
        }
    }

    /// Create a fresh buffer already synced with the current contents.
    pub fn new_buffer(&self) -> (buffer: LogBuffer)
        requires
            self.wf(),
        ensures
            buffer.wf(),
            buffer@ == (LogBufferView {
                lines: self@.lines(),
                capacity: self@.capacity,
                seen: self@.written.len(),
            }),
    {
        let mut buffer = LogBuffer {
            storage: LocalRingBuffer::new(self.lines.capacity()),
            seen: 0,
        };
        assert(buffer@.lines =~= Seq::empty());
        self.update_buffer(&mut buffer);
        proof {
            let all = self@.lines();
            let behind = self@.written.len();
            let take = if behind <= all.len() {
                behind as int
            } else {
                all.len() as int
            };
            assert(ring::newest(all, take) =~= all);
            assert(Seq::<Seq<char>>::empty() + all =~= all);
            assert(ring::newest(all, self@.capacity as int) =~= all);
        }
        buffer
    }

    /// Advance an existing buffer to the current contents.
    ///
    /// Only the lines written since the last sync are copied; if the buffer
    /// fell behind by more than the capacity, it is refilled from scratch.
    ///
    /// `buffer` must have come from this log — see
    /// [`force_update_buffer`](Log::force_update_buffer) for moving one
    /// between logs.
    pub fn update_buffer(&self, buffer: &mut LogBuffer)
        requires
            self.wf(),
            old(buffer).wf(),
            old(buffer)@.seen <= self@.written.len(),
        ensures
            final(buffer).wf(),
            final(buffer)@ == old(buffer)@.updated(self@),
    {
        let behind = self.count - buffer.seen;
        let len = self.lines.len();
        let take: usize = if behind <= len as u64 {
            behind as usize
        } else {
            len
        };
        let ghost before = *buffer;
        let ghost fresh = ring::newest(self@.lines(), take as int);
        let mut n: usize = 0;
        proof {
            let kept = before.storage.spec_capacity() as int;
            assert(before@.lines + fresh.take(0) =~= before@.lines);
            assert(ring::newest(before@.lines, kept) =~= before@.lines);
        }
        while n < take
            invariant
                n <= take <= len,
                self.wf(),
                len == self.lines@.len(),
                fresh == ring::newest(self@.lines(), take as int),
                fresh.len() == take,
                buffer.storage.wf(),
                buffer.seen == before.seen,
                buffer.storage.spec_capacity() == before.storage.spec_capacity(),
                buffer@.lines == ring::newest(
                    before@.lines + fresh.take(n as int),
                    before.storage.spec_capacity() as int,
                ),
            decreases take - n,
        {
            let line = self.lines.get(len - take + n).clone();
            let ghost held = buffer.storage@;
            let ghost item = line;
            proof {
                assert(lines_view(self.lines@)[len - take + n] == line@);
                assert(line@ == fresh[n as int]);
            }
            buffer.storage.push(line);
            proof {
                let kept = before.storage.spec_capacity() as int;
                assert(buffer@.lines =~= ring::newest(lines_view(held).push(item@), kept));
                assert(before@.lines + fresh.take(n + 1) =~= (before@.lines + fresh.take(
                    n as int,
                )).push(fresh[n as int]));
                assert(buffer@.lines =~= ring::newest(before@.lines + fresh.take(n + 1), kept));
            }
            n = n + 1;
        }
        buffer.seen = self.count;
        assert(fresh.take(take as int) =~= fresh);
    }

    /// Re-point an existing buffer at this log, discarding what it held.
    ///
    /// [`update_buffer`](Log::update_buffer) only works on a buffer this log
    /// issued: what it counted is meaningless across logs. This is the
    /// deliberate way across.
    ///
    /// The buffer keeps the size it was created with, so moving onto a log
    /// with a longer history yields only the newest lines that fit.
    pub fn force_update_buffer(&self, buffer: &mut LogBuffer)
        requires
            self.wf(),
            old(buffer).wf(),
        ensures
            final(buffer).wf(),
            final(buffer)@ == (LogBufferView {
                lines: ring::newest(self@.lines(), old(buffer)@.capacity as int),
                capacity: old(buffer)@.capacity,
                seen: self@.written.len(),
            }),
    {
        buffer.storage.clear();
        buffer.seen = 0;
        assert(buffer@.lines =~= Seq::empty());
        self.update_buffer(buffer);
        proof {
            let all = self@.lines();
            let behind = self@.written.len();
            let take = if behind <= all.len() {
                behind as int
            } else {
                all.len() as int
            };
            assert(ring::newest(all, take) =~= all);
            assert(Seq::<Seq<char>>::empty() + all =~= all);
        }
    }
}

/// A handle used to append lines to a [`Log`], or to one that is gone.
///
/// Writes are silently discarded once the log is gone, so a background task
/// pumping output does not need to be cancelled to be made harmless.
pub struct LogWriterRef<'a> {
    pub inner: Option<&'a mut Log>,
}

impl<'a> LogWriterRef<'a> {
    /// Append one line, or do nothing if the log is gone.
    pub fn write_line(&mut self, line: &str)
        requires
            old(self).inner matches Some(log) ==> log.wf() && log@.written.len() < u64::MAX,
        ensures
            match old(self).inner {
                Some(log) => {
                    &&& final(self).inner matches Some(after)
                    &&& after.wf()
                    &&& after@.written == log@.written.push(line@)
                    &&& after@.capacity == log@.capacity
                    &&& *final(after) == *final(log)
                },
                None => final(self).inner is None,
            },
    {
        match &mut self.inner {
            Some(log) => log.write_line(line),
            None => {},
        }
    }
}

impl Log {
    /// Get a handle that can append lines to this log.
    pub fn writer(&mut self) -> (writer: LogWriterRef<'_>)
        ensures
            writer.inner matches Some(log) && *log == *old(self) && *final(log) == *final(self),
    {
        LogWriterRef { inner: Some(self) }
    }
}

/// Refreshed, a snapshot holds the newest of what was written, however far
/// behind it had fallen.
pub proof fn a_refreshed_buffer_holds_the_newest(buffer: LogBufferView, log: LogView)
    requires
        buffer.follows(log),
    ensures
        buffer.updated(log).lines == ring::newest(log.written, buffer.capacity as int),
        buffer.updated(log).follows(log),
{
    let after = buffer.updated(log);
    let behind = log.written.len() - buffer.seen;
    let take = if behind <= log.lines().len() {
        behind
    } else {
        log.lines().len() as int
    };
    let fresh = ring::newest(log.lines(), take);
    if behind <= log.lines().len() {
        assert(fresh =~= log.written.skip(buffer.seen as int));
    } else {
        assert(fresh =~= log.lines());
    }
    assert(after.lines =~= ring::newest(log.written, buffer.capacity as int));
    assert(log.written.take(log.written.len() as int) =~= log.written);
}

} // verus!
