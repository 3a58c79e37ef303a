use super::buffer;
use super::buffer::{BufferView, SinkCall};
use super::chunk::{ChunkView, LogChunk, LOG_CHUNK_SIZE};
use super::id::LogWriterId;
use super::line::LOG_LINE_SIZE;
use super::partials;
use super::partials::{PartialText, PARTIALS_MAX};
use super::region;
use super::region::{clip_into, open_line, LogClip, LogLine, LogLineView, LogRegion};
use super::store::{Log, LogView};
use super::writer;
use crate::util::ring;
use crate::util::ring::LocalRingBuffer;
use crate::util::small;
use std::ops::Range;
use vstd::prelude::*;
use vstd::string::*;
use vstd::utf8::*;

verus! {

/// One step of a walk: the text of a piece, whether a line ends after it,
/// which chunk it came from and who wrote it.
#[verifier::ext_equal]
pub struct PieceView {
    pub text: Seq<u8>,
    pub newline: bool,
    pub index: int,
    pub writer: u32,
}

/// Whether a line ends after piece `piece` of chunk `index`.
///
/// It carries on only if the room cut that chunk short *and* the next chunk
/// is the same writer's — another writer's chunk can land between the halves
/// of a split line, and breaking the line is better than running a stranger's
/// into the middle of it.
pub open spec fn ends_line(chunks: Seq<ChunkView>, index: int, piece: int) -> bool {
    !(piece + 1 == chunks[index].pieces.len() && chunks[index].open && index + 1 < chunks.len()
        && chunks[index + 1].writer == chunks[index].writer)
}

/// The pieces of chunk `index`.
pub open spec fn chunk_walk(chunks: Seq<ChunkView>, index: int) -> Seq<PieceView> {
    Seq::new(
        chunks[index].pieces.len(),
        |piece: int|
            PieceView {
                text: chunks[index].pieces[piece],
                newline: ends_line(chunks, index, piece),
                index,
                writer: chunks[index].writer,
            },
    )
}

/// The pieces of the first `n` chunks, oldest first.
pub open spec fn walk_to(chunks: Seq<ChunkView>, n: int) -> Seq<PieceView>
    decreases n,
{
    if n <= 0 {
        Seq::empty()
    } else {
        walk_to(chunks, n - 1) + chunk_walk(chunks, n - 1)
    }
}

/// Every piece held, oldest first.
pub open spec fn walk(chunks: Seq<ChunkView>) -> Seq<PieceView> {
    walk_to(chunks, chunks.len() as int)
}

/// How many lines end in `pieces` from `from` on.
pub open spec fn lines_from(pieces: Seq<PieceView>, from: int) -> int
    decreases pieces.len() - from,
{
    if from >= pieces.len() {
        0
    } else {
        lines_from(pieces, from + 1) + if pieces[from].newline {
            1int
        } else {
            0
        }
    }
}

/// The first position from `from` on with no more than `lines` lines from it
/// to the end.
pub open spec fn tail_from(pieces: Seq<PieceView>, from: int, lines: int) -> int
    decreases pieces.len() - from,
{
    if from >= pieces.len() || lines_from(pieces, from) <= lines {
        from
    } else {
        tail_from(pieces, from + 1, lines)
    }
}

/// The pieces of the lines at distances `start..end` from the last one,
/// looking no further back than the newest `max_chunks` chunks.
pub open spec fn window(
    chunks: Seq<ChunkView>,
    start: int,
    end: int,
    max_chunks: int,
) -> Seq<PieceView> {
    let pieces = walk(chunks);
    let floor = if max_chunks >= chunks.len() {
        0
    } else {
        walk_to(chunks, chunks.len() - max_chunks).len() as int
    };
    if start >= end {
        Seq::empty()
    } else {
        pieces.subrange(tail_from(pieces, floor, end), tail_from(pieces, floor, start))
    }
}

/// Chunks a reader can walk: as many as memory holds, each of them well
/// formed and holding something.
pub open spec fn walkable(chunks: Seq<ChunkView>) -> bool {
    forall|i: int|
        0 <= i < chunks.len() ==> (#[trigger] chunks[i]).wf() && chunks[i].pieces.len() > 0
}

pub proof fn lemma_walk_to(chunks: Seq<ChunkView>, n: int, m: int)
    requires
        0 <= n <= m <= chunks.len(),
    ensures
        walk_to(chunks, n).len() <= walk_to(chunks, m).len(),
        walk_to(chunks, m).take(walk_to(chunks, n).len() as int) == walk_to(chunks, n),
    decreases m,
{
    if n < m {
        lemma_walk_to(chunks, n, m - 1);
        let before = walk_to(chunks, m - 1);
        let len = walk_to(chunks, n).len() as int;
        assert((before + chunk_walk(chunks, m - 1)).take(len) =~= before.take(len));
    } else {
        assert(walk_to(chunks, m).take(walk_to(chunks, m).len() as int) =~= walk_to(chunks, m));
    }
}

/// Piece `piece` of chunk `index` stands in the walk after every piece of the
/// chunks before it.
proof fn lemma_walk_at(chunks: Seq<ChunkView>, index: int, piece: int)
    requires
        0 <= index < chunks.len(),
        0 <= piece < chunks[index].pieces.len(),
    ensures
        ({
            let at = walk_to(chunks, index).len() + piece;
            &&& at < walk(chunks).len()
            &&& walk(chunks)[at as int] == chunk_walk(chunks, index)[piece]
        }),
{
    lemma_walk_to(chunks, index + 1, chunks.len() as int);
    let at = walk_to(chunks, index).len() + piece;
    let upto = walk_to(chunks, index + 1);
    assert(upto == walk_to(chunks, index) + chunk_walk(chunks, index));
    assert(walk(chunks).take(upto.len() as int)[at as int] == upto[at as int]);
}

/// The last piece there is always ends a line: there is no next chunk to
/// carry it on.
pub proof fn the_last_piece_ends_a_line(chunks: Seq<ChunkView>)
    requires
        walkable(chunks),
        chunks.len() > 0,
    ensures
        walk(chunks).len() > 0,
        walk(chunks).last().newline,
{
    let index = chunks.len() - 1;
    let piece = chunks[index].pieces.len() - 1;
    lemma_walk_at(chunks, index, piece);
    assert(walk(chunks) == walk_to(chunks, index) + chunk_walk(chunks, index));
}

proof fn lemma_lines_from(pieces: Seq<PieceView>, from: int, to: int)
    requires
        0 <= from <= to,
    ensures
        lines_from(pieces, from) >= lines_from(pieces, to) >= 0,
        to < pieces.len() && pieces.last().newline ==> lines_from(pieces, to) > 0,
    decreases pieces.len() - from,
{
    if from < to && from < pieces.len() {
        lemma_lines_from(pieces, from + 1, to);
    } else if from < pieces.len() {
        lemma_lines_from(pieces, from + 1, from + 1);
    }
}

proof fn lemma_tail_from(pieces: Seq<PieceView>, from: int, lines: int)
    requires
        0 <= from <= pieces.len(),
        0 <= lines,
    ensures
        from <= tail_from(pieces, from, lines) <= pieces.len(),
        lines_from(pieces, tail_from(pieces, from, lines)) <= lines,
        forall|i: int|
            from <= i < tail_from(pieces, from, lines) ==> #[trigger] lines_from(pieces, i) > lines,
    decreases pieces.len() - from,
{
    if from < pieces.len() && lines_from(pieces, from) > lines {
        lemma_tail_from(pieces, from + 1, lines);
    }
}

/// A position is where the tail begins if it has no more than `lines` lines
/// from it and, unless it is as far back as may be looked, the one before has.
proof fn lemma_tail_is(pieces: Seq<PieceView>, from: int, lines: int, at: int)
    requires
        0 <= from <= at <= pieces.len(),
        0 <= lines,
        lines_from(pieces, at) <= lines,
        at > from ==> lines_from(pieces, at - 1) > lines,
    ensures
        tail_from(pieces, from, lines) == at,
{
    lemma_tail_from(pieces, from, lines);
    let found = tail_from(pieces, from, lines);
    if found < at {
        lemma_lines_from(pieces, found, at - 1);
    }
    if found > at {
        assert(lines_from(pieces, at) > lines);
    }
}

/// Walks a [`LogReader`]'s pieces, oldest first.
pub struct LogReaderIter<'a> {
    chunks: &'a LocalRingBuffer<LogChunk>,
    /// Where the walk is: which chunk, and which piece of it.
    pos: (usize, usize),
    /// Where it stops, exclusive.
    ///
    /// A walk needs an end as well as a start, because a window of the
    /// history can stop short of the newest line — a view scrolled up is why
    /// it exists. For a walk of everything it is one past the last chunk.
    end: (usize, usize),
}

/// What a ring of chunks holds.
pub open spec fn ring_chunks(ring: Seq<LogChunk>) -> Seq<ChunkView> {
    ring.map_values(|chunk: LogChunk| chunk@)
}

/// Whether every chunk of a ring is well formed and holds something.
pub open spec fn ring_wf(ring: Seq<LogChunk>) -> bool {
    forall|i: int|
        0 <= i < ring.len() ==> (#[trigger] ring[i]).wf() && ring[i]@.pieces.len() > 0
}

impl<'a> LogReaderIter<'a> {
    /// The chunks being walked.
    pub closed spec fn held(&self) -> Seq<ChunkView> {
        ring_chunks(self.chunks@)
    }

    spec fn flat(&self, pos: (usize, usize)) -> int {
        walk_to(self.held(), pos.0 as int).len() + pos.1
    }

    spec fn pos_wf(&self, pos: (usize, usize)) -> bool {
        &&& pos.0 <= self.held().len()
        &&& (pos.0 < self.held().len() ==> pos.1 <= self.held()[pos.0 as int].pieces.len())
        &&& (pos.0 == self.held().len() ==> pos.1 == 0)
    }

    /// Whether the walk is over well formed chunks and within them.
    pub closed spec fn wf(&self) -> bool {
        &&& ring_wf(self.chunks@)
        &&& self.pos_wf(self.pos)
        &&& self.pos_wf(self.end)
        &&& self.flat(self.pos) <= self.flat(self.end)
    }

    /// The pieces still to come.
    pub closed spec fn rest(&self) -> Seq<PieceView> {
        walk(self.held()).subrange(self.flat(self.pos), self.flat(self.end))
    }

    proof fn lemma_flat(&self, pos: (usize, usize))
        requires
            ring_wf(self.chunks@),
            self.pos_wf(pos),
        ensures
            0 <= self.flat(pos) <= walk(self.held()).len(),
    {
        let held = self.held();
        lemma_walk_to(held, pos.0 as int, held.len() as int);
        if pos.0 < held.len() {
            lemma_walk_to(held, pos.0 + 1, held.len() as int);
        }
    }

    /// Positions come in the order their pieces do.
    proof fn lemma_flat_order(&self, a: (usize, usize), b: (usize, usize))
        requires
            ring_wf(self.chunks@),
            self.pos_wf(a),
            self.pos_wf(b),
        ensures
            a.0 < b.0 ==> self.flat(a) <= self.flat(b),
            a.0 == b.0 ==> (self.flat(a) < self.flat(b) <==> a.1 < b.1),
            a.0 < b.0 && a.1 < self.held()[a.0 as int].pieces.len() ==> self.flat(a) < self.flat(b),
    {
        let held = self.held();
        if a.0 < b.0 {
            lemma_walk_to(held, a.0 + 1, b.0 as int);
        }
    }

    /// How many chunks there are to walk across.
    fn chunks(&self) -> (chunks: usize)
        ensures
            chunks == self.held().len(),
    {
        self.chunks.len()
    }

    /// Whether a line ends after piece `piece` of chunk `index`.
    ///
    /// The one question both directions have to answer the same way — the
    /// forward walk reports it, and the backward one counts it to find where a
    /// line began. Two copies of the rule would be two chances for the windows
    /// to disagree with the render.
    fn ends_line(&self, index: usize, piece: usize) -> (result: bool)
        requires
            ring_wf(self.chunks@),
            index < self.held().len(),
            piece < self.held()[index as int].pieces.len(),
        ensures
            result == ends_line(self.held(), index as int, piece as int),
    {
        let chunk = self.chunks.get(index);
        if piece + 1 != chunk.count() || !chunk.continues() || self.chunks.len() - index == 1 {
            return true;
        }
        let next = self.chunks.get(index + 1);
        let (writer, other) = (chunk.writer(), next.writer());
        proof {
            writer.same_number_same_id(other);
        }
        writer != other
    }

    /// Narrow the walk to a window of the newest lines, counted back from the
    /// last one.
    ///
    /// `lines` is a range of *distances from the end*, not positions: `0` is
    /// the last line, `1` the one before it. So `0..20` is the last twenty
    /// lines and `10..20` the ten before those, which is what a view scrolled
    /// ten lines up wants. What comes out is still oldest first.
    ///
    /// `max_chunks` is a ceiling on how far back it will look. Finding where a
    /// line begins means walking backwards counting newlines, and unbounded
    /// that walk is the whole ring. Hitting it truncates rather than fails,
    /// starting at the oldest chunk it was allowed to reach — so the first
    /// line may come out as its tail, exactly as if the log had discarded the
    /// rest. [`usize::MAX`] for no ceiling.
    ///
    /// Fewer lines than asked for is not an error: three lines asked for
    /// twenty gives three. A range starting past everything held comes back
    /// empty rather than clamped — scrolled above the top, a view is showing
    /// nothing, not showing the oldest lines twice.
    pub fn tail_range(self, lines: Range<usize>, max_chunks: usize) -> (narrowed: Self)
        requires
            self.wf(),
        ensures
            narrowed.wf(),
            narrowed.held() == self.held(),
            narrowed.rest() == window(
                self.held(),
                lines.start as int,
                lines.end as int,
                max_chunks as int,
            ),
    {
        let chunks = self.chunks();
        if lines.start >= lines.end {
            return self.empty();
        }
        let floor: usize = if max_chunks >= chunks {
            0
        } else {
            chunks - max_chunks
        };
        let ghost held = self.held();
        let ghost pieces = walk(held);
        let ghost from = walk_to(held, floor as int).len() as int;
        // Where the window begins. Left at the oldest piece the ceiling
        // allows, which is what a log holding fewer lines than were asked for
        // falls back to: give what there is rather than nothing.
        let mut start: (usize, usize) = (floor, 0);
        // Where it ends, and unknown until the walk finds it — unless nothing
        // is being skipped, in which case it ends at the newest piece there
        // is, and no position the walk could reach would say so.
        let mut end: Option<(usize, usize)> = if lines.start == 0 {
            Some((chunks, 0))
        } else {
            None
        };
        let mut count: usize = 0;
        let mut index: usize = chunks;
        let mut piece: usize = 0;
        let mut past: bool = false;
        proof {
            lemma_walk_to(held, floor as int, chunks as int);
            if chunks > 0 {
                assert forall|i: int| 0 <= i < held.len() implies (#[trigger] held[i]).wf()
                    && held[i].pieces.len() > 0 by {
                    assert(self.chunks@[i].wf());
                }
                the_last_piece_ends_a_line(held);
            }
            assert(walk_to(held, 0).len() == 0);
        }
        // Walking backwards and counting the pieces that end a line, every
        // position from here to the end spans exactly `count` whole lines.
        while !past && (index > floor || piece > 0)
            invariant
                self.wf(),
                held == self.held(),
                pieces == walk(held),
                chunks == held.len(),
                floor <= index <= chunks,
                self.pos_wf((index, piece)),
                index == chunks ==> piece == 0,
                lines.start < lines.end,
                from == walk_to(held, floor as int).len(),
                from <= self.flat((index, piece)) <= pieces.len(),
                !past ==> count == lines_from(pieces, self.flat((index, piece))),
                chunks > 0 ==> pieces.len() > 0 && pieces.last().newline,
                count <= lines.end,
                past ==> count == lines.end,
                self.pos_wf(start),
                start.0 >= floor,
                from <= self.flat(start) <= pieces.len(),
                start.0 < chunks || floor == chunks,
                // The start is where the tail begins as far as has been seen.
                count < lines.end ==> start == (floor, 0usize),
                !past && count == lines.end ==> start == (index, piece),
                past ==> lines_from(pieces, self.flat(start)) == lines.end && lines_from(
                    pieces,
                    self.flat(start) - 1,
                ) > lines.end && self.flat(start) > from,
                // And so is the end.
                lines.start == 0 ==> end == Some((chunks, 0usize)),
                lines.start > 0 && count < lines.start ==> end is None,
                lines.start > 0 && count >= lines.start ==> end is Some && self.pos_wf(end->0)
                    && (end->0).0 >= floor,
                lines.start > 0 && count == lines.start ==> end == Some((index, piece)),
                lines.start > 0 && count > lines.start ==> lines_from(pieces, self.flat(end->0))
                    == lines.start && lines_from(pieces, self.flat(end->0) - 1) > lines.start
                    && self.flat(end->0) > from,
            decreases index, piece,
        {
            let ghost here = self.flat((index, piece));
            if piece == 0 {
                proof {
                    assert(walk_to(held, index as int) == walk_to(held, index - 1) + chunk_walk(
                        held,
                        index - 1,
                    ));
                    assert(self.chunks@[index - 1].wf());
                }
                index = index - 1;
                piece = self.chunks.get(index).count();
            }
            piece = piece - 1;
            proof {
                lemma_walk_at(held, index as int, piece as int);
                assert(self.flat((index, piece)) == here - 1);
                lemma_walk_to(held, floor as int, index as int);
                lemma_lines_from(pieces, here - 1, here);
                self.lemma_flat((index, piece));
            }
            let ends = self.ends_line(index, piece);
            if ends && count == lines.end {
                past = true;
            } else {
                if ends {
                    count = count + 1;
                }
                if count == lines.end {
                    start = (index, piece);
                }
                if lines.start > 0 && count == lines.start {
                    end = Some((index, piece));
                }
            }
        }
        proof {
            self.lemma_flat((chunks, 0));
            if lines.start == 0 {
                if chunks > 0 {
                    if from < pieces.len() {
                        lemma_lines_from(pieces, pieces.len() - 1, pieces.len() - 1);
                    }
                }
                lemma_tail_is(pieces, from, 0, pieces.len() as int);
            } else if end is None {
                lemma_tail_is(pieces, from, lines.start as int, from);
                lemma_tail_is(pieces, from, lines.end as int, from);
            } else {
                lemma_tail_is(pieces, from, lines.start as int, self.flat(end->0));
            }
            lemma_tail_is(pieces, from, lines.end as int, self.flat(start));
            lemma_tail_from(pieces, from, lines.start as int);
            lemma_tail_from(pieces, from, lines.end as int);
            let lo = tail_from(pieces, from, lines.end as int);
            let hi = tail_from(pieces, from, lines.start as int);
            if lo > hi {
                assert(lines_from(pieces, hi) > lines.end);
            }
            if end is None {
                assert(pieces.subrange(lo, hi) =~= Seq::empty());
            }
        }
        // Never reached the line the window ends at, so the whole window is
        // older than anything the reader holds. Which is not the same as the
        // *start* going unfound, where part of the window is still here and
        // gets truncated to it — hence one of them clamps and the other does
        // not.
        match end {
            Some(end) => LogReaderIter { chunks: self.chunks, pos: start, end },
            None => self.empty(),
        }
    }

    /// The last `lines` lines: [`tail_range`](LogReaderIter::tail_range) over
    /// `0..lines`.
    pub fn tail(self, lines: usize, max_chunks: usize) -> (narrowed: Self)
        requires
            self.wf(),
        ensures
            narrowed.wf(),
            narrowed.held() == self.held(),
            narrowed.rest() == window(self.held(), 0, lines as int, max_chunks as int),
    {
        self.tail_range(0..lines, max_chunks)
    }

    /// Park the walk on its own end, so it yields nothing.
    fn empty(self) -> (parked: Self)
        requires
            self.wf(),
        ensures
            parked.wf(),
            parked.held() == self.held(),
            parked.rest() == Seq::<PieceView>::empty(),
    {
        let end = (self.chunks(), 0);
        proof {
            self.lemma_flat(end);
        }
        let parked = LogReaderIter { chunks: self.chunks, pos: end, end };
        assert(parked.rest() =~= Seq::empty());
        parked
    }

    /// The next piece, if there is one.
    pub fn next(&mut self) -> (piece: Option<LogReaderRef<'a>>)
        requires
            old(self).wf(),
        ensures
            final(self).wf(),
            final(self).held() == old(self).held(),
            piece is None <==> old(self).rest().len() == 0,
            piece is None ==> final(self).rest() == old(self).rest(),
            piece matches Some(piece) ==> piece@ == old(self).rest()[0] && final(self).rest()
                == old(self).rest().skip(1),
    {
        proof {
            self.lemma_flat(self.pos);
            self.lemma_flat(self.end);
        }
        loop
            invariant
                self.wf(),
                old(self).wf(),
                self.chunks == old(self).chunks,
                self.end == old(self).end,
                self.flat(self.pos) == old(self).flat(old(self).pos),
                0 <= self.flat(self.pos),
                self.flat(self.end) <= walk(self.held()).len(),
            decreases self.held().len() - self.pos.0,
        {
            let (index, piece) = self.pos;
            proof {
                self.lemma_flat_order(self.pos, self.end);
                self.lemma_flat_order(self.end, self.pos);
            }
            if index > self.end.0 || (index == self.end.0 && piece >= self.end.1) {
                assert(self.rest() =~= Seq::empty());
                assert(old(self).rest() =~= Seq::empty());
                return None;
            }
            assert(self.chunks@[index as int].wf());
            let chunk = self.chunks.get(index);
            // A chunk with nothing left to give; move on.
            if piece >= chunk.count() {
                assert(walk_to(self.held(), index + 1) == walk_to(self.held(), index as int)
                    + chunk_walk(self.held(), index as int));
                self.pos = (index + 1, 0);
                continue;
            }
            let text = match chunk.get_str(piece) {
                Some(text) => text,
                None => return None,
            };
            let newline = self.ends_line(index, piece);
            proof {
                lemma_walk_at(self.held(), index as int, piece as int);
                self.lemma_flat_order((index, (piece + 1) as usize), self.end);
            }
            let writer = chunk.writer();
            self.pos = (index, piece + 1);
            let piece = LogReaderRef { data: text, newline, index, writer };
            assert(piece@ =~= old(self).rest()[0]);
            assert(self.rest() =~= old(self).rest().skip(1));
            return Some(piece);
        }
    }
}

/// One step of a walk: some text, whether a line ends after it, and which
/// chunk it came from.
pub struct LogReaderRef<'a> {
    /// The text of this piece. Never owns anything: it borrows the reader's
    /// copy, which is why rendering allocates nothing.
    data: &'a str,
    newline: bool,
    /// Which chunk it came from, counted from the oldest the reader holds.
    ///
    /// A position in the window, not an identity: the window slides as older
    /// chunks fall out, so the same chunk answers a smaller number after the
    /// next sync. A view that needs a handle that survives that can build one
    /// from [`seen`](LogReader::seen) — `seen - len + index` counts from the
    /// beginning of the log instead, and never repeats.
    index: usize,
    writer: LogWriterId,
}

impl<'a> View for LogReaderRef<'a> {
    type V = PieceView;

    closed spec fn view(&self) -> PieceView {
        PieceView {
            text: self.data.spec_bytes(),
            newline: self.newline,
            index: self.index as int,
            writer: self.writer.raw(),
        }
    }
}

impl<'a> LogReaderRef<'a> {
    /// The text of this piece.
    pub fn as_str(&self) -> (text: &'a str)
        ensures
            text.spec_bytes() == self@.text,
    {
        self.data
    }

    /// Whether a line ends after it.
    pub fn newline(&self) -> (newline: bool)
        ensures
            newline == self@.newline,
    {
        self.newline
    }

    /// Who wrote it.
    pub fn writer(&self) -> (writer: LogWriterId)
        ensures
            writer.raw() == self@.writer,
    {
        self.writer
    }

    /// Which chunk it came from, counted from the oldest held.
    pub fn index(&self) -> (index: usize)
        ensures
            index == self@.index,
    {
        self.index
    }
}

/// A reader's copy of a log, as of its last sync.
#[verifier::ext_equal]
pub struct ReaderView {
    /// Whether it is on a log at all.
    pub attached: bool,
    pub chunks: Seq<ChunkView>,
    /// How many chunks it keeps, and how many it was built to.
    pub capacity: nat,
    pub max_capacity: nat,
    /// How many chunks the log had pushed.
    pub seen: u64,
    /// The lines that were being written, oldest first.
    pub partials: Seq<(u32, Seq<u8>)>,
    /// The log's version.
    pub version: u64,
}

/// How many chunks a reader that has seen `seen` takes out of `log`: what it
/// has missed, or all there is if that is more than the log still has.
pub open spec fn sync_takes(seen: u64, log: LogView) -> int {
    let behind = log.history.len() - seen;
    if behind <= log.chunks().len() {
        behind
    } else {
        log.chunks().len() as int
    }
}

impl ReaderView {
    /// A reader on a log that keeps `capacity` chunks, which has not looked at
    /// it yet.
    pub open spec fn fresh(capacity: nat) -> ReaderView {
        ReaderView {
            attached: true,
            chunks: Seq::empty(),
            capacity,
            max_capacity: capacity,
            seen: 0,
            partials: Seq::empty(),
            version: 0,
        }
    }

    /// The reader once it has copied across whatever `log` has that it has
    /// not. A log whose version has not moved has nothing new.
    pub open spec fn synced(self, log: LogView) -> ReaderView {
        if !self.attached || log.version == self.version {
            self
        } else {
            let take = sync_takes(self.seen, log);
            ReaderView {
                chunks: ring::newest(
                    self.chunks + ring::newest(log.chunks(), take),
                    self.capacity as int,
                ),
                seen: log.history.len() as u64,
                partials: partials::partials_taken(log.partials),
                version: log.version,
                ..self
            }
        }
    }

    /// How many chunks that took.
    pub open spec fn sync_count(self, log: LogView) -> int {
        if !self.attached || log.version == self.version {
            0
        } else {
            sync_takes(self.seen, log)
        }
    }

    /// What holds of every reader.
    pub open spec fn wf(self) -> bool {
        &&& 0 < self.capacity <= self.max_capacity
        &&& self.max_capacity * LOG_CHUNK_SIZE <= isize::MAX
        &&& self.chunks.len() <= self.capacity
        &&& walkable(self.chunks)
        &&& self.partials.len() <= PARTIALS_MAX
        &&& forall|i: int|
            0 <= i < self.partials.len() ==> valid_utf8((#[trigger] self.partials[i]).1)
                && self.partials[i].1.len() <= LOG_LINE_SIZE
    }

    /// Whether the reader is on `log`: what it holds is the newest of what the
    /// log had pushed when it last looked, and one at the log's version has
    /// seen everything there is.
    pub open spec fn follows(self, log: LogView) -> bool {
        &&& self.attached
        &&& self.seen <= log.history.len()
        &&& self.capacity <= log.capacity
        &&& self.chunks == ring::newest(log.history.take(self.seen as int), self.capacity as int)
        &&& (self.version == log.version ==> self.seen == log.history.len() && self.partials
            == partials::partials_taken(log.partials))
    }
}

/// Caught up, a reader holds exactly what the log holds: its newest chunks —
/// all of them, if the reader keeps as many — and the lines being written.
/// However far behind it was, there is no hole.
pub proof fn caught_up_it_mirrors_the_log(reader: ReaderView, log: LogView)
    requires
        reader.wf(),
        log.wf(),
        reader.follows(log),
    ensures
        ({
            let after = reader.synced(log);
            &&& after.chunks == ring::newest(log.history, reader.capacity as int)
            &&& (reader.capacity == log.capacity ==> after.chunks == log.chunks())
            &&& after.seen == log.history.len()
            &&& after.partials == partials::partials_taken(log.partials)
            &&& after.version == log.version
            &&& after.follows(log)
        }),
{
    let after = reader.synced(log);
    let history = log.history;
    let c = reader.capacity as int;
    if log.version == reader.version {
        assert(history.take(reader.seen as int) =~= history);
    } else {
        let take = sync_takes(reader.seen, log);
        let behind = history.len() - reader.seen;
        let old_part = reader.chunks;
        let new_part = ring::newest(log.chunks(), take);
        if behind <= log.chunks().len() {
            assert(new_part =~= history.skip(reader.seen as int));
        } else {
            assert(new_part =~= log.chunks());
        }
        assert(after.chunks =~= ring::newest(history, c));
    }
    assert(history.take(history.len() as int) =~= history);
}

/// With nothing new there is nothing to do: a second sync of the same log
/// takes no chunks and changes nothing.
pub proof fn syncing_twice_over_takes_nothing(reader: ReaderView, log: LogView)
    ensures
        reader.synced(log).synced(log) == reader.synced(log),
        reader.synced(log).sync_count(log) == 0,
{
}

/// A reader follows its log through whatever happens to it, caught up or not,
/// as long as the log's version has not come round to the one the reader is
/// at; one that is caught up sees that something happened.
pub proof fn a_reader_follows_its_log(
    reader: ReaderView,
    log: LogView,
    chunk: ChunkView,
    writer: u32,
    text: Seq<u8>,
)
    requires
        reader.follows(log),
    ensures
        reader.version != log.pushed(chunk).version ==> reader.follows(log.pushed(chunk)),
        reader.version != log.showing(writer, text).version || log.showing(writer, text) == log
            ==> reader.follows(log.showing(writer, text)),
        reader.version != log.cleared(writer).version || log.cleared(writer) == log
            ==> reader.follows(log.cleared(writer)),
        reader.version == log.version ==> {
            &&& reader.version != log.pushed(chunk).version
            &&& reader.version != log.showing(writer, text).version || log.showing(writer, text)
                == log
            &&& reader.version != log.cleared(writer).version || log.cleared(writer) == log
        },
{
    let pushed = log.pushed(chunk);
    assert(pushed.history.take(reader.seen as int) =~= log.history.take(reader.seen as int));
}

/// Pieces gathered into lines, each ending where a piece says so; a last run
/// that nothing closed is a line too.
pub open spec fn split_lines(pieces: Seq<PieceView>) -> Seq<Seq<PieceView>>
    decreases pieces.len(),
{
    if pieces.len() == 0 {
        Seq::empty()
    } else {
        let before = pieces.drop_last();
        let lines = split_lines(before);
        if before.len() > 0 && !before.last().newline {
            lines.drop_last().push(lines.last().push(pieces.last()))
        } else {
            lines.push(seq![pieces.last()])
        }
    }
}

/// A line clipped to the region's columns, a piece at a time.
pub open spec fn clip_pieces(pieces: Seq<PieceView>, region: LogRegion) -> region::Clipped
    decreases pieces.len(),
{
    if pieces.len() == 0 {
        region::Clipped { text: Seq::empty(), clip: region::ClipView::start() }
    } else {
        let before = clip_pieces(pieces.drop_last(), region);
        let last = region::clipped(decode_utf8(pieces.last().text), before.clip, region);
        region::Clipped { text: before.text + last.text, clip: last.clip }
    }
}

/// A line of the history as a region shows it. The whole line is one
/// writer's: a split one is continued by that writer's next chunk, never by
/// whatever sits next.
pub open spec fn shown_line(pieces: Seq<PieceView>, region: LogRegion) -> LogLineView {
    LogLineView {
        text: clip_pieces(pieces, region).text,
        writer: pieces[0].writer,
        styles: Seq::empty(),
    }
}

/// A line still being written as a region shows it.
pub open spec fn shown_partial(partial: (u32, Seq<u8>), region: LogRegion) -> LogLineView {
    LogLineView {
        text: region::clipped(
            decode_utf8(partial.1),
            region::ClipView::start(),
            region,
        ).text,
        writer: partial.0,
        styles: Seq::empty(),
    }
}

/// How much of `n` is past `held`.
pub open spec fn past(n: usize, held: nat) -> int {
    if n > held {
        n - held
    } else {
        0
    }
}

/// The lines of the history that `region` reaches, oldest first, in pieces.
/// The lines still being written sit at the end of the log, so a region
/// counted back from the end runs into them first, and the history starts
/// after them.
pub open spec fn reached(reader: ReaderView, region: LogRegion) -> Seq<Seq<PieceView>> {
    let held = reader.partials.len();
    split_lines(
        window(
            reader.chunks,
            past(region.line_start, held),
            past(region.line_end, held),
            usize::MAX as int,
        ),
    )
}

/// The lines still being written that `region` reaches, oldest first.
pub open spec fn reached_partials(reader: ReaderView, region: LogRegion) -> Seq<(u32, Seq<u8>)> {
    let held = reader.partials.len();
    let nearest = if region.line_end <= held {
        region.line_end as int
    } else {
        held as int
    };
    if region.line_start < nearest {
        reader.partials.subrange(held - nearest, held - region.line_start)
    } else {
        Seq::empty()
    }
}

/// The lines of `region`, oldest first: those of the history, and then those
/// still being written.
pub open spec fn region_lines(reader: ReaderView, region: LogRegion) -> Seq<LogLineView> {
    reached(reader, region).map_values(|line: Seq<PieceView>| shown_line(line, region))
        + reached_partials(reader, region).map_values(
        |partial: (u32, Seq<u8>)| shown_partial(partial, region),
    )
}

/// A line's pieces joined, as text.
pub open spec fn line_text(pieces: Seq<PieceView>) -> Seq<char>
    decreases pieces.len(),
{
    if pieces.len() == 0 {
        Seq::empty()
    } else {
        line_text(pieces.drop_last()) + decode_utf8(pieces.last().text)
    }
}

/// A whole line of the history, nothing of it cut off.
pub open spec fn whole_line(pieces: Seq<PieceView>) -> LogLineView {
    LogLineView { text: line_text(pieces), writer: pieces[0].writer, styles: Seq::empty() }
}

/// The whole of a line still being written.
pub open spec fn whole_partial(partial: (u32, Seq<u8>)) -> LogLineView {
    LogLineView { text: decode_utf8(partial.1), writer: partial.0, styles: Seq::empty() }
}

/// The lines that `region` reaches, oldest first, nothing of any of them cut
/// off.
pub open spec fn whole_lines(reader: ReaderView, region: LogRegion) -> Seq<LogLineView> {
    reached(reader, region).map_values(|line: Seq<PieceView>| whole_line(line))
        + reached_partials(reader, region).map_values(
        |partial: (u32, Seq<u8>)| whole_partial(partial),
    )
}

/// How many bytes of text some pieces hold between them.
spec fn pieces_len(pieces: Seq<PieceView>) -> int
    decreases pieces.len(),
{
    if pieces.len() == 0 {
        0
    } else {
        pieces_len(pieces.drop_last()) + pieces.last().text.len()
    }
}

proof fn lemma_pieces_len_add(a: Seq<PieceView>, b: Seq<PieceView>)
    ensures
        pieces_len(a + b) == pieces_len(a) + pieces_len(b),
        pieces_len(b) >= 0,
    decreases b.len(),
{
    if b.len() == 0 {
        assert(a + b =~= a);
    } else {
        lemma_pieces_len_add(a, b.drop_last());
        assert((a + b).drop_last() =~= a + b.drop_last());
    }
}

proof fn lemma_pieces_len_part(pieces: Seq<PieceView>, from: int, to: int)
    requires
        0 <= from <= to <= pieces.len(),
    ensures
        0 <= pieces_len(pieces.subrange(from, to)) <= pieces_len(pieces),
{
    let head = pieces.subrange(0, from);
    let middle = pieces.subrange(from, to);
    let tail = pieces.subrange(to, pieces.len() as int);
    lemma_pieces_len_add(head, middle);
    lemma_pieces_len_add(head + middle, tail);
    lemma_pieces_len_add(Seq::empty(), head);
    assert(head + middle + tail =~= pieces);
    assert(Seq::<PieceView>::empty() + head =~= head);
}

proof fn lemma_chunk_walk_len(chunks: Seq<ChunkView>, index: int, n: int)
    requires
        0 <= index < chunks.len(),
        0 <= n <= chunks[index].pieces.len(),
    ensures
        pieces_len(chunk_walk(chunks, index).take(n)) == super::chunk::joined(
            chunks[index].pieces.take(n),
        ).len(),
    decreases n,
{
    let pieces = chunk_walk(chunks, index);
    if n > 0 {
        lemma_chunk_walk_len(chunks, index, n - 1);
        assert(pieces.take(n).drop_last() =~= pieces.take(n - 1));
        assert(chunks[index].pieces.take(n).drop_last() =~= chunks[index].pieces.take(n - 1));
    }
}

proof fn lemma_walk_len(chunks: Seq<ChunkView>, n: int)
    requires
        walkable(chunks),
        0 <= n <= chunks.len(),
    ensures
        pieces_len(walk_to(chunks, n)) <= n * LOG_CHUNK_SIZE,
    decreases n,
{
    if n > 0 {
        lemma_walk_len(chunks, n - 1);
        let last = chunk_walk(chunks, n - 1);
        let count = chunks[n - 1].pieces.len() as int;
        lemma_pieces_len_add(walk_to(chunks, n - 1), last);
        lemma_chunk_walk_len(chunks, n - 1, count);
        assert(last.take(count) =~= last);
        assert(chunks[n - 1].pieces.take(count) =~= chunks[n - 1].pieces);
        assert(chunks[n - 1].wf());
    }
}

proof fn lemma_split_lines(pieces: Seq<PieceView>)
    ensures
        pieces.len() > 0 ==> split_lines(pieces).len() > 0,
        forall|i: int|
            0 <= i < split_lines(pieces).len() ==> (#[trigger] split_lines(pieces)[i]).len() > 0,
    decreases pieces.len(),
{
    if pieces.len() > 0 {
        let before = pieces.drop_last();
        let lines = split_lines(before);
        lemma_split_lines(before);
        assert forall|i: int| 0 <= i < split_lines(pieces).len() implies (
        #[trigger] split_lines(pieces)[i]).len() > 0 by {
            if i < lines.len() {
                assert(lines[i].len() > 0);
            }
        }
    }
}

/// One more piece is one more on the end of a line nothing has closed, or the
/// first of a new one.
proof fn lemma_next_piece(
    before: Seq<PieceView>,
    piece: PieceView,
    rest: Seq<PieceView>,
    region: LogRegion,
)
    ensures
        ({
            let after = before.push(piece);
            let lines = split_lines(before);
            let open = before.len() > 0 && !before.last().newline;
            let last = split_lines(after).last();
            let head = if open {
                lines.last()
            } else {
                Seq::empty()
            };
            let kept = clip_pieces(head, region);
            let added = region::clipped(decode_utf8(piece.text), kept.clip, region);
            &&& split_lines(after).len() == if open {
                lines.len()
            } else {
                lines.len() + 1
            }
            &&& (open ==> lines.len() > 0 && lines.last().len() > 0)
            &&& split_lines(after).len() > 0
            &&& forall|i: int|
                0 <= i < split_lines(after).len() - 1 ==> (#[trigger] split_lines(after)[i])
                    == lines[i]
            &&& last == head.push(piece)
            &&& clip_pieces(last, region).text == kept.text + added.text
            &&& clip_pieces(last, region).clip == added.clip
            &&& pieces_len(after) == pieces_len(before) + piece.text.len()
            &&& pieces_len(after) <= pieces_len(after + rest)
            &&& 0 <= pieces_len(before)
        }),
{
    let after = before.push(piece);
    let lines = split_lines(before);
    assert(after.drop_last() =~= before);
    lemma_split_lines(before);
    lemma_pieces_len_add(after, rest);
    lemma_pieces_len_add(Seq::empty(), before);
    assert(Seq::<PieceView>::empty() + before =~= before);
    let open = before.len() > 0 && !before.last().newline;
    let head = if open {
        lines.last()
    } else {
        Seq::empty()
    };
    assert(seq![piece] =~= Seq::<PieceView>::empty().push(piece));
    assert(head.push(piece).drop_last() =~= head);
}

/// A partial line as a reader keeps it.
///
/// Carries its writer for the same reason a chunk does: a region reports one
/// per line, and a line still being typed is a line like any other to
/// whatever draws it.
struct LogReaderPartial {
    writer: LogWriterId,
    text: PartialText,
}

/// A private copy of a log's recent output, synced on demand.
///
/// A reader keeps its own copy and only goes to the log for what it has not
/// seen. As many chunks as the log and no more, whatever its own ring was
/// built with: **caught up, a reader holds exactly what the log holds**.
///
/// Behind by the log's capacity or less, the sync copies what is missing and
/// the reader mirrors the log again. Behind by more, the log has already
/// discarded what the reader never saw, so the sync simply takes the whole
/// ring and the reader mirrors it once more.
///
/// A ring *shorter* than the log's is sound and simply a shorter tail — but
/// see what [`sync`](LogReader::sync) then returns.
pub struct LogReader {
    /// Whether it has been put on a log.
    attached: bool,
    /// The copy. Held to the log's capacity and built at whatever size the
    /// reader was asked for.
    chunks: LocalRingBuffer<LogChunk>,
    /// How many chunks the log had pushed when this last synced.
    ///
    /// Starts at zero rather than at the log's current count, so a new
    /// reader's first sync picks up the history that is already there.
    seen: u64,
    /// The lines that were still being written at the last sync.
    partials: Vec<LogReaderPartial>,
    /// The log's version at the last sync.
    version: u64,
}

impl View for LogReader {
    type V = ReaderView;

    closed spec fn view(&self) -> ReaderView {
        ReaderView {
            attached: self.attached,
            chunks: ring_chunks(self.chunks@),
            capacity: self.chunks.spec_capacity(),
            max_capacity: self.chunks.spec_max_capacity(),
            seen: self.seen,
            partials: self.partials@.map_values(
                |partial: LogReaderPartial| (partial.writer.raw(), partial.text@),
            ),
            version: self.version,
        }
    }
}

impl LogReader {
    /// Whether the reader is well formed.
    pub closed spec fn wf(&self) -> bool {
        self@.wf() && self.chunks.wf() && ring_wf(self.chunks@)
    }

    /// A well formed reader's view is well formed.
    pub proof fn lemma_wf(&self)
        requires
            self.wf(),
        ensures
            self@.wf(),
    {
    }

    /// Every reader is built here, with or without a log to follow.
    fn new_inner(attached: bool, capacity: usize) -> (reader: Self)
        requires
            capacity > 0,
            capacity * LOG_CHUNK_SIZE <= isize::MAX,
        ensures
            reader.wf(),
            reader@ == (ReaderView {
                attached,
                chunks: Seq::empty(),
                capacity: capacity as nat,
                max_capacity: capacity as nat,
                seen: 0,
                partials: Seq::empty(),
                version: 0,
            }),
    {
        let reader = Self {
            attached,
            chunks: LocalRingBuffer::new(capacity),
            seen: 0,
            partials: Vec::new(),
            version: 0,
        };
        assert(reader@.chunks =~= Seq::empty());
        assert(reader@.partials =~= Seq::empty());
        reader
    }

    /// A reader of `capacity` chunks that is not on a log yet.
    ///
    /// The allocation a caller makes once and then hands to
    /// [`reader_into`](Log::reader_into) for each log in turn. `capacity` is
    /// the ceiling for all of them, since a reader is held to the log it is
    /// on but never grown past its own slots.
    ///
    /// Until it is given a log it behaves as one whose log is gone: empty,
    /// and a [`sync`](LogReader::sync) that does nothing.
    pub fn empty(capacity: usize) -> (reader: Self)
        requires
            capacity > 0,
            capacity * LOG_CHUNK_SIZE <= isize::MAX,
        ensures
            reader.wf(),
            reader@ == (ReaderView {
                attached: false,
                chunks: Seq::empty(),
                capacity: capacity as nat,
                max_capacity: capacity as nat,
                seen: 0,
                partials: Seq::empty(),
                version: 0,
            }),
    {
        Self::new_inner(false, capacity)
    }

    /// Whether it is on no log at all — `true` straight out of
    /// [`empty`](LogReader::empty), and what a caller keeping a reader per
    /// unit tests before reading one for the first time.
    pub fn is_detached(&self) -> (result: bool)
        ensures
            result == !self@.attached,
    {
        !self.attached
    }

    /// Point this reader at a log keeping `capacity` chunks, keeping its
    /// memory.
    ///
    /// Everything counted here is counted against one log's chunks and means
    /// nothing against another's, so all of it goes back to the start.
    /// `version` especially: it is a token and not a clock, so leaving one
    /// log's value against another's is a first sync that decides nothing has
    /// changed and a pane still showing the unit it was on.
    ///
    /// The ring is held to `capacity` rather than rebuilt at it, so a reader
    /// moving to a smaller log gives no memory back, and one moving to a
    /// larger log than it was built for follows its newest chunks.
    ///
    /// Put back on the `same` log it is already on it keeps everything,
    /// because everything it counted was counted against that same log and
    /// still means what it said.
    fn reset(&mut self, same: bool, capacity: usize)
        requires
            old(self).wf(),
            capacity > 0,
        ensures
            final(self).wf(),
            final(self)@ == old(self)@.reset(same, capacity as nat),
    {
        if !(same && self.attached) {
            self.attached = true;
            self.chunks.clear();
            self.seen = 0;
            self.partials.clear();
            self.version = 0;
        }
        let ghost before = self.chunks@;
        self.chunks.set_capacity(capacity);
        proof {
            let kept = self.chunks.spec_capacity() as int;
            assert(self.partials@ =~= old(self).partials@ || self.partials@.len() == 0);
            assert(self@.chunks =~= ring::newest(ring_chunks(before), kept));
            assert(self@ =~= old(self)@.reset(same, capacity as nat));
            assert forall|i: int| 0 <= i < self@.chunks.len() implies (
            #[trigger] self@.chunks[i]).wf() && self@.chunks[i].pieces.len() > 0 by {
                assert(self.chunks@[i].wf());
            }
        }
    }

    /// Copy across whatever `log` has that this has not; `None` for a log that
    /// is gone, which has nothing.
    ///
    /// Returns how many chunks were taken, which is zero whenever there was
    /// nothing new. Taken out of the log, which is not always kept: a reader
    /// whose ring is shorter than the log keeps the newest of them, so this
    /// can come back larger than [`len`](LogReader::len).
    pub fn sync(&mut self, log: Option<&Log>) -> (taken: usize)
        requires
            old(self).wf(),
            log matches Some(log) ==> log.wf() && old(self)@.seen <= log@.history.len(),
        ensures
            final(self).wf(),
            match log {
                Some(log) => {
                    &&& taken == old(self)@.sync_count(log@)
                    &&& final(self)@ == old(self)@.synced(log@)
                },
                None => {
                    &&& taken == 0
                    &&& final(self)@ == old(self)@
                },
            },
    {
        let log = match log {
            Some(log) => log,
            None => return 0,
        };
        if !self.attached || log.version() == self.version {
            return 0;
        }
        proof {
            log.lemma_wf();
        }
        self.version = log.version();

        // The lines still being written, which change far more often than
        // chunks arrive and are far cheaper to take.
        self.take_partials(log);

        let behind = log.pushed() - self.seen;
        // Further behind than the ring is long means the rest is gone from
        // the log too, so the newest chunks are everything there is.
        let len = log.len();
        let take: usize = if behind <= len as u64 {
            behind as usize
        } else {
            len
        };
        let ghost before = *self;
        let ghost fresh = ring::newest(log@.chunks(), take as int);
        let mut spare = LogChunk::new();
        let mut n: usize = 0;
        proof {
            let kept = before.chunks.spec_capacity() as int;
            assert(before@.chunks + fresh.take(0) =~= before@.chunks);
            assert(ring::newest(before@.chunks, kept) =~= before@.chunks);
        }
        // The newest `take`, oldest first.
        while n < take
            invariant
                n <= take <= len,
                log.wf(),
                log@.wf(),
                len == log@.chunks().len(),
                fresh == ring::newest(log@.chunks(), take as int),
                fresh.len() == take,
                self.chunks.wf(),
                ring_wf(self.chunks@),
                before.chunks.wf(),
                self.chunks.spec_capacity() == before.chunks.spec_capacity(),
                self.chunks.spec_max_capacity() == before.chunks.spec_max_capacity(),
                self.attached == before.attached,
                self.seen == before.seen,
                self.partials == before.partials,
                self.version == before.version,
                self@.chunks == ring::newest(
                    before@.chunks + fresh.take(n as int),
                    before.chunks.spec_capacity() as int,
                ),
            decreases take - n,
        {
            let chunk = log.get(len - take + n);
            proof {
                assert(chunk@ == fresh[n as int]);
                let i = log@.history.len() - take + n;
                assert(chunk@ == log@.history[i]);
            }
            let ghost held = self.chunks@;
            spare.copy_from(chunk);
            let ghost copied = spare;
            match self.chunks.push(spare) {
                Some(displaced) => {
                    spare = displaced;
                },
                None => {
                    spare = LogChunk::new();
                },
            }
            proof {
                let kept = before.chunks.spec_capacity() as int;
                assert(self@.chunks =~= ring::newest(ring_chunks(held).push(copied@), kept));
                assert(before@.chunks + fresh.take(n + 1) =~= (before@.chunks + fresh.take(
                    n as int,
                )).push(fresh[n as int]));
                assert(self@.chunks =~= ring::newest(before@.chunks + fresh.take(n + 1), kept));
            }
            n = n + 1;
        }
        self.seen = log.pushed();
        proof {
            assert(fresh.take(take as int) =~= fresh);
            assert(self@ =~= old(self)@.synced(log@));
            assert forall|i: int| 0 <= i < self@.chunks.len() implies (
            #[trigger] self@.chunks[i]).wf() && self@.chunks[i].pieces.len() > 0 by {
                assert(self.chunks@[i].wf());
            }
        }
        take
    }

    /// Copy the lines `log` has being written.
    fn take_partials(&mut self, log: &Log)
        requires
            log.wf(),
        ensures
            final(self)@.partials == partials::partials_taken(log@.partials),
            final(self).attached == old(self).attached,
            final(self).chunks == old(self).chunks,
            final(self).seen == old(self).seen,
            final(self).version == old(self).version,
            final(self)@.partials.len() <= PARTIALS_MAX,
            forall|i: int|
                0 <= i < final(self)@.partials.len() ==> valid_utf8(
                    (#[trigger] final(self)@.partials[i]).1,
                ) && final(self)@.partials[i].1.len() <= LOG_LINE_SIZE,
    {
        let lines = log.partials();
        proof {
            log.lemma_wf();
            partials::partials_come_oldest_first(lines@, lines@.len() as int);
        }
        let order = lines.taken();
        let ghost slots = small::small_items(order);
        self.partials.clear();
        let mut n: usize = 0;
        while n < order.len()
            invariant
                n <= slots.len(),
                n == self.partials@.len(),
                slots == small::small_items(order),
                slots == partials::taken_order(lines@, lines@.len() as int),
                partials::partials_wf(lines@),
                self.attached == old(self).attached,
                self.chunks == old(self).chunks,
                self.seen == old(self).seen,
                self.version == old(self).version,
                forall|i: int| 0 <= i < slots.len() ==> (#[trigger] slots[i]) < lines@.len(),
                forall|i: int|
                    0 <= i < n ==> (#[trigger] self.partials@[i]).writer.raw()
                        == lines@[slots[i] as int].writer && self.partials@[i].text@
                        == lines@[slots[i] as int].text,
            decreases slots.len() - n,
        {
            let line = lines.get(order.get(n));
            proof {
                let slot = slots[n as int] as int;
                assert(valid_utf8(lines@[slot].text));
                partials::lemma_partial_text(lines@[slot].text);
            }
            let mut text = PartialText::new();
            text.set(line.as_str());
            self.partials.push(LogReaderPartial { writer: line.writer(), text });
            n = n + 1;
        }
        proof {
            assert(self@.partials =~= partials::partials_taken(lines@));
            assert forall|i: int| 0 <= i < self@.partials.len() implies valid_utf8(
                (#[trigger] self@.partials[i]).1,
            ) && self@.partials[i].1.len() <= LOG_LINE_SIZE by {
                assert(valid_utf8(lines@[slots[i] as int].text));
            }
        }
    }

    /// Walk the history a piece at a time, oldest first, fetching first.
    ///
    /// Nothing has to be joined, buffered or allocated to render — a line the
    /// chunk size cut in two arrives as two pieces, the first saying "no
    /// newline", and the terminal puts it back together by not breaking.
    pub fn iter_sync(&mut self, log: Option<&Log>) -> (iter: LogReaderIter<'_>)
        requires
            old(self).wf(),
            log matches Some(log) ==> log.wf() && old(self)@.seen <= log@.history.len(),
        ensures
            iter.wf(),
            iter.held() == match log {
                Some(log) => old(self)@.synced(log@).chunks,
                None => old(self)@.chunks,
            },
            iter.rest() == walk(iter.held()),
            final(self).wf(),
            final(self)@ == match log {
                Some(log) => old(self)@.synced(log@),
                None => old(self)@,
            },
    {
        self.sync(log);
        self.iter_unsync()
    }

    /// Walk what the reader already holds, without going to the log.
    ///
    /// The same walk over the same pieces as
    /// [`iter_sync`](LogReader::iter_sync); the only difference is that it
    /// fetches nothing first, so it takes `&self` and any number of walks may
    /// be alive at once.
    pub fn iter_unsync(&self) -> (iter: LogReaderIter<'_>)
        requires
            self.wf(),
        ensures
            iter.wf(),
            iter.held() == self@.chunks,
            iter.rest() == walk(self@.chunks),
    {
        let iter = LogReaderIter {
            chunks: &self.chunks,
            pos: (0, 0),
            end: (self.chunks.len(), 0),
        };
        proof {
            iter.lemma_flat(iter.end);
            assert(iter.rest() =~= walk(self@.chunks));
        }
        iter
    }

    /// Copy a rectangle of the history into `out`, one line per entry.
    ///
    /// Bounded in both directions, so this costs the size of what will be
    /// drawn and not the size of what is held. Both ranges are half open and
    /// counted back from the newest line, through
    /// [`tail_range`](LogReaderIter::tail_range) so that one place decides
    /// where a line begins. What comes back is oldest first.
    ///
    /// Fewer lines than asked for is not an error: three lines asked for
    /// twenty gives three, and a range beginning past everything held gives
    /// none. `out.len()` is how many there were, which is how a caller
    /// scrolling up finds the top.
    ///
    /// `out` is filled from the start and truncated, so the same `Vec` handed
    /// back each call reuses its strings rather than allocating a pane's
    /// worth every time.
    ///
    /// A region that takes every column cuts nothing off.
    pub fn copy_region(&self, region: LogRegion, out: &mut Vec<LogLine>)
        requires
            self.wf(),
        ensures
            final(out)@.map_values(|line: LogLine| line@) == region_lines(self@, region),
            region.takes_all_columns() ==> final(out)@.map_values(|line: LogLine| line@)
                == whole_lines(self@, region),
    {
        let held = self.partials.len();
        let from = region.line_start.saturating_sub(held);
        let to = region.line_end.saturating_sub(held);
        let lines = self.copy_history(region, from, to, out);
        let ghost count = lines as int;

        // Then the partials the region reaches. The newest is at distance
        // zero, so distance `d` is the one `d` from the end of the list, and
        // they come out oldest first like everything else here.
        let nearest = if region.line_end <= held {
            region.line_end
        } else {
            held
        };
        let lines = if region.line_start < nearest {
            self.copy_partials(region, held - nearest, held - region.line_start, lines, out)
        } else {
            lines
        };
        out.truncate(lines);
        proof {
            let ghost history = reached(self@, region);
            let ghost partials = reached_partials(self@, region);
            assert(history.len() == count);
            assert(out@.len() == count + partials.len());
            let shown = out@.map_values(|line: LogLine| line@);
            assert(shown =~= region_lines(self@, region));
            if region.takes_all_columns() {
                assert(shown =~= whole_lines(self@, region));
            }
        }
    }

    /// Copy the lines of the history at distances `from..to` to the front of
    /// `out`, and report how many there were.
    fn copy_history(
        &self,
        region: LogRegion,
        from: usize,
        to: usize,
        out: &mut Vec<LogLine>,
    ) -> (lines: usize)
        requires
            self.wf(),
        ensures
            ({
                let shown = split_lines(
                    window(self@.chunks, from as int, to as int, usize::MAX as int),
                );
                &&& lines == shown.len()
                &&& lines <= final(out)@.len()
                &&& forall|i: int|
                    0 <= i < lines ==> (#[trigger] final(out)@[i])@ == shown_line(shown[i], region)
                &&& region.takes_all_columns() ==> forall|i: int|
                    0 <= i < lines ==> (#[trigger] final(out)@[i])@ == whole_line(shown[i])
            }),
    {
        let mut iter = self.iter_unsync().tail_range(from..to, usize::MAX);
        let ghost shown = iter.rest();
        let ghost total = pieces_len(walk(self@.chunks));
        let ghost mut done: Seq<PieceView> = Seq::empty();
        let mut lines: usize = 0;
        // How far into the line the pieces so far have reached. Kept across
        // pieces because a line the chunk size split arrives as several, and
        // the window is over the line rather than over any one of them.
        let mut clip = LogClip::new();
        let mut open = false;
        proof {
            assert(done + iter.rest() =~= shown);
            lemma_walk_len(self@.chunks, self@.chunks.len() as int);
            assert(self@.chunks.len() * LOG_CHUNK_SIZE <= self@.max_capacity * LOG_CHUNK_SIZE)
                by (nonlinear_arith)
                requires
                    self@.chunks.len() <= self@.max_capacity,
            ;
            lemma_window_len(self@.chunks, from as int, to as int, usize::MAX as int);
        }
        loop
            invariant_except_break
                iter.wf(),
                done + iter.rest() == shown,
                open <==> (done.len() > 0 && !done.last().newline),
                lines <= out@.len(),
                2 * total < usize::MAX,
                pieces_len(shown) <= total,
                clip@.column <= 2 * pieces_len(done),
                open ==> {
                    let all = split_lines(done);
                    &&& all.len() == lines + 1
                    &&& lines < out@.len()
                    &&& all.last().len() > 0
                    &&& out@[lines as int]@ == shown_line(all.last(), region)
                    &&& clip@ == clip_pieces(all.last(), region).clip
                    &&& region.takes_all_columns() ==> out@[lines as int]@ == whole_line(all.last())
                },
                !open ==> split_lines(done).len() == lines && clip@ == region::ClipView::start(),
                forall|i: int|
                    0 <= i < lines ==> (#[trigger] out@[i])@ == shown_line(
                        split_lines(done)[i],
                        region,
                    ),
                region.takes_all_columns() ==> forall|i: int|
                    0 <= i < lines ==> (#[trigger] out@[i])@ == whole_line(split_lines(done)[i]),
            ensures
                done == shown,
                lines <= out@.len(),
                open ==> {
                    let all = split_lines(done);
                    &&& all.len() == lines + 1
                    &&& lines < out@.len()
                    &&& out@[lines as int]@ == shown_line(all.last(), region)
                    &&& region.takes_all_columns() ==> out@[lines as int]@ == whole_line(all.last())
                },
                !open ==> split_lines(done).len() == lines,
                forall|i: int|
                    0 <= i < lines ==> (#[trigger] out@[i])@ == shown_line(
                        split_lines(done)[i],
                        region,
                    ),
                region.takes_all_columns() ==> forall|i: int|
                    0 <= i < lines ==> (#[trigger] out@[i])@ == whole_line(split_lines(done)[i]),
            decreases iter.rest().len(),
        {
            let piece = match iter.next() {
                Some(piece) => piece,
                None => {
                    assert(done =~= shown);
                    break;
                },
            };
            let ghost before = done;
            let ghost rest = iter.rest();
            proof {
                done = before.push(piece@);
                assert(done + rest =~= shown);
                lemma_next_piece(before, piece@, rest, region);
            }
            let text = piece.as_str();
            proof {
                encode_utf8_decode_utf8(text@);
            }
            if !open {
                // The whole line is one writer's: a split one is continued by
                // that writer's next chunk, never by whatever sits next.
                open_line(out, lines, piece.writer());
                open = true;
            }
            let ghost head = if before.len() > 0 && !before.last().newline {
                split_lines(before).last()
            } else {
                Seq::empty()
            };
            assert(region.takes_all_columns() ==> out@[lines as int]@.text =~= line_text(head));
            clip_into(&mut out[lines].text, text, &mut clip, region);
            assert(lines < out.len());
            proof {
                let line = split_lines(done).last();
                assert(line.drop_last() =~= head);
                assert(out@[lines as int]@ =~= shown_line(line, region));
                if region.takes_all_columns() {
                    assert(out@[lines as int]@ =~= whole_line(line));
                }
            }
            if piece.newline() {
                lines = lines + 1;
                clip = LogClip::new();
                open = false;
            }
        }
        // A run the region cut short is still a line, and showing its head
        // beats dropping it.
        if open {
            assert(lines < out.len());
            lines = lines + 1;
        }
        lines
    }

    /// Copy the partial lines in slots `first..last` into `out` from line
    /// `lines` on, and report how many lines there then are.
    fn copy_partials(
        &self,
        region: LogRegion,
        first: usize,
        last: usize,
        lines: usize,
        out: &mut Vec<LogLine>,
    ) -> (after: usize)
        requires
            self.wf(),
            first <= last <= self@.partials.len(),
            lines <= old(out)@.len(),
        ensures
            after == lines + (last - first),
            after <= final(out)@.len(),
            forall|i: int|
                0 <= i < lines ==> (#[trigger] final(out)@[i])@ == old(out)@[i]@,
            forall|i: int|
                lines <= i < after ==> (#[trigger] final(out)@[i])@ == shown_partial(
                    self@.partials[first + (i - lines)],
                    region,
                ),
            region.takes_all_columns() ==> forall|i: int|
                lines <= i < after ==> (#[trigger] final(out)@[i])@ == whole_partial(
                    self@.partials[first + (i - lines)],
                ),
    {
        let mut after: usize = lines;
        let mut n: usize = first;
        while n < last
            invariant
                first <= n <= last <= self.partials@.len(),
                self.wf(),
                after == lines + (n - first),
                after <= out@.len(),
                forall|i: int| 0 <= i < lines ==> (#[trigger] out@[i])@ == old(out)@[i]@,
                forall|i: int|
                    lines <= i < after ==> (#[trigger] out@[i])@ == shown_partial(
                        self@.partials[first + (i - lines)],
                        region,
                    ),
                region.takes_all_columns() ==> forall|i: int|
                    lines <= i < after ==> (#[trigger] out@[i])@ == whole_partial(
                        self@.partials[first + (i - lines)],
                    ),
            decreases last - n,
        {
            let partial = &self.partials[n];
            proof {
                assert(self@.partials[n as int] == (partial.writer.raw(), partial.text@));
                assert(valid_utf8(self@.partials[n as int].1));
            }
            let text = partial.text.as_str();
            proof {
                encode_utf8_decode_utf8(text@);
            }
            open_line(out, after, partial.writer);
            let mut clip = LogClip::new();
            clip_into(&mut out[after].text, text, &mut clip, region);
            proof {
                assert(out@[after as int]@ =~= shown_partial(self@.partials[n as int], region));
                if region.takes_all_columns() {
                    assert(out@[after as int]@ =~= whole_partial(self@.partials[n as int]));
                }
                assert(after < out.len());
            }
            after = after + 1;
            n = n + 1;
        }
        after
    }

    /// How many chunks the reader holds.
    pub fn len(&self) -> (len: usize)
        ensures
            len == self@.chunks.len(),
    {
        self.chunks.len()
    }

    /// Whether it holds nothing — a reader that has never synced, or one for
    /// a log that never had anything.
    pub fn is_empty(&self) -> (result: bool)
        ensures
            result == (self@.chunks.len() == 0),
    {
        self.chunks.is_empty()
    }

    /// How many chunks it can hold: what the log holds, or the ring it was
    /// built with when that is the smaller of the two.
    pub fn capacity(&self) -> (capacity: usize)
        ensures
            capacity == self@.capacity,
    {
        self.chunks.capacity()
    }

    /// How many chunks it was built to hold.
    pub fn max_capacity(&self) -> (capacity: usize)
        ensures
            capacity == self@.max_capacity,
    {
        self.chunks.max_capacity()
    }

    /// How many chunks the log had pushed as of the last sync.
    ///
    /// Not how many this holds: a reader that has been running longer than
    /// the ring is long has seen far more than it kept.
    pub fn seen(&self) -> (seen: u64)
        ensures
            seen == self@.seen,
    {
        self.seen
    }

    /// Everything that had happened to the log as of the last sync.
    ///
    /// A change token and nothing more: two of these differing means the log
    /// moved, whether that was a chunk arriving or a line being typed.
    pub fn version(&self) -> (version: u64)
        ensures
            version == self@.version,
    {
        self.version
    }

    /// How many lines are being written right now.
    ///
    /// They sit at the end of the log, so they are the first lines a region
    /// counted back from the end runs into.
    pub fn partials(&self) -> (partials: usize)
        ensures
            partials == self@.partials.len(),
    {
        self.partials.len()
    }

    /// Chunk `n` of those it holds, counting from the oldest.
    pub fn get(&self, n: usize) -> (chunk: &LogChunk)
        requires
            self.wf(),
            n < self@.chunks.len(),
        ensures
            chunk.wf(),
            chunk@ == self@.chunks[n as int],
    {
        assert(self.chunks@[n as int].wf());
        self.chunks.get(n)
    }
}

impl ReaderView {
    /// The reader once it has been pointed at a log keeping `capacity` chunks,
    /// the `same` one it was on or another.
    pub open spec fn reset(self, same: bool, capacity: nat) -> ReaderView {
        let kept = if capacity <= self.max_capacity {
            capacity
        } else {
            self.max_capacity
        };
        if same && self.attached {
            ReaderView {
                chunks: ring::newest(self.chunks, kept as int),
                capacity: kept,
                ..self
            }
        } else {
            ReaderView {
                attached: true,
                chunks: Seq::empty(),
                capacity: kept,
                seen: 0,
                partials: Seq::empty(),
                version: 0,
                ..self
            }
        }
    }
}

proof fn lemma_window_len(chunks: Seq<ChunkView>, start: int, end: int, max_chunks: int)
    requires
        0 <= start,
        0 <= end,
        chunks.len() <= max_chunks,
    ensures
        pieces_len(window(chunks, start, end, max_chunks)) <= pieces_len(walk(chunks)),
{
    let pieces = walk(chunks);
    lemma_pieces_len_part(pieces, 0, pieces.len() as int);
    assert(pieces.subrange(0, pieces.len() as int) =~= pieces);
    if start < end {
        lemma_tail_from(pieces, 0, start);
        lemma_tail_from(pieces, 0, end);
        let lo = tail_from(pieces, 0, end);
        let hi = tail_from(pieces, 0, start);
        if lo > hi {
            assert(lines_from(pieces, hi) > end);
        }
        lemma_pieces_len_part(pieces, lo, hi);
    }
}

impl Log {
    /// Open a view onto this log.
    ///
    /// The reader starts empty and behind: its first
    /// [`sync`](LogReader::sync) picks up whatever history is already there,
    /// and every one after that only what has arrived since.
    pub fn reader(&self) -> (reader: LogReader)
        requires
            self.wf(),
        ensures
            reader.wf(),
            reader@ == ReaderView::fresh(self@.capacity),
    {
        proof {
            self.lemma_wf();
        }
        LogReader::new_inner(true, self.capacity())
    }

    /// Open a view onto this log in a reader that already exists; `same` says
    /// it is on this log already.
    ///
    /// [`reader`](Log::reader) without the allocation, for a screen that
    /// follows one log at a time and moves between them.
    ///
    /// The reader forgets the log it was on entirely. It keeps its memory, so
    /// one whose ring is shorter than this log's follows a shorter tail rather
    /// than growing.
    pub fn reader_into(&self, reader: &mut LogReader, same: bool)
        requires
            self.wf(),
            old(reader).wf(),
        ensures
            final(reader).wf(),
            final(reader)@ == old(reader)@.reset(same, self@.capacity),
    {
        proof {
            self.lemma_wf();
        }
        reader.reset(same, self.capacity());
    }
}

/// A reader just opened on a log that has had something happen to it follows
/// that log, so its first sync takes what was already there.
pub proof fn a_new_reader_follows_its_log(reader: ReaderView, log: LogView)
    requires
        reader.attached,
        reader.chunks.len() == 0,
        reader.seen == 0,
        reader.version == 0,
        reader.partials.len() == 0,
        reader.capacity <= log.capacity,
        log.version == 0 ==> log.history.len() == 0 && partials::partials_taken(
            log.partials,
        ).len() == 0,
    ensures
        reader.follows(log),
{
    assert(log.history.take(0) =~= Seq::empty());
    assert(reader.chunks =~= ring::newest(log.history.take(0), reader.capacity as int));
    assert(reader.partials =~= Seq::empty());
    if log.version == 0 {
        assert(partials::partials_taken(log.partials) =~= Seq::empty());
    }
}

/// An unbounded window is the plain walk.
pub proof fn an_unbounded_window_is_the_plain_walk(
    chunks: Seq<ChunkView>,
    lines: int,
    max_chunks: int,
)
    requires
        walkable(chunks),
        max_chunks >= chunks.len(),
        lines > 0,
        lines >= lines_from(walk(chunks), 0),
    ensures
        window(chunks, 0, lines, max_chunks) == walk(chunks),
{
    let pieces = walk(chunks);
    lemma_tail_is(pieces, 0, lines, 0);
    if chunks.len() > 0 {
        the_last_piece_ends_a_line(chunks);
        lemma_lines_from(pieces, pieces.len() - 1, pieces.len() - 1);
    }
    lemma_tail_is(pieces, 0, 0, pieces.len() as int);
    assert(pieces.subrange(0, pieces.len() as int) =~= pieces);
}

/// Windows that meet make one window: the lines at distances `a..b` come right
/// after those at `b..c`, with nothing between and nothing twice.
pub proof fn windows_that_meet_make_one(
    chunks: Seq<ChunkView>,
    a: int,
    b: int,
    c: int,
    max_chunks: int,
)
    requires
        0 <= a < b < c,
        0 <= max_chunks,
    ensures
        window(chunks, a, c, max_chunks) == window(chunks, b, c, max_chunks) + window(
            chunks,
            a,
            b,
            max_chunks,
        ),
{
    let pieces = walk(chunks);
    let floor = if max_chunks >= chunks.len() {
        0
    } else {
        walk_to(chunks, chunks.len() - max_chunks).len() as int
    };
    if max_chunks < chunks.len() {
        lemma_walk_to(chunks, chunks.len() - max_chunks, chunks.len() as int);
    }
    lemma_tail_from(pieces, floor, a);
    lemma_tail_from(pieces, floor, b);
    lemma_tail_from(pieces, floor, c);
    let at_a = tail_from(pieces, floor, a);
    let at_b = tail_from(pieces, floor, b);
    let at_c = tail_from(pieces, floor, c);
    if at_c > at_b {
        assert(lines_from(pieces, at_b) > c);
    }
    if at_b > at_a {
        assert(lines_from(pieces, at_a) > b);
    }
    assert(pieces.subrange(at_c, at_b) + pieces.subrange(at_b, at_a) =~= pieces.subrange(
        at_c,
        at_a,
    ));
}

/// A walk of one writer's chunks, each piece followed by a newline where a
/// line ends, is the text they carry — with the last line closed even if
/// nothing has closed it yet.
pub proof fn a_walk_is_the_text(chunks: Seq<ChunkView>, n: int)
    requires
        0 <= n <= chunks.len(),
        forall|i: int| 0 <= i < n ==> (#[trigger] chunks[i]).pieces.len() > 0,
        forall|i: int, j: int|
            0 <= i < n && 0 <= j < chunks.len() ==> (#[trigger] chunks[i]).writer == (
            #[trigger] chunks[j]).writer,
    ensures
        rendered(walk_to(chunks, n)) == if n == chunks.len() && n > 0 && chunks[n - 1].open {
            buffer::chunks_stream(chunks.take(n)).push(0x0a)
        } else {
            buffer::chunks_stream(chunks.take(n))
        },
    decreases n,
{
    if n > 0 {
        a_walk_is_the_text(chunks, n - 1);
        let last = chunk_walk(chunks, n - 1);
        let chunk = chunks[n - 1];
        let count = chunk.pieces.len() as int;
        lemma_rendered_add(walk_to(chunks, n - 1), last);
        lemma_rendered_chunk(chunks, n - 1, count);
        assert(last.take(count) =~= last);
        assert(chunk.pieces.take(count) =~= chunk.pieces);
        assert(chunks.take(n).drop_last() =~= chunks.take(n - 1));
        let before = buffer::chunks_stream(chunks.take(n - 1));
        if n < chunks.len() {
            assert(chunks[n - 1].writer == chunks[n].writer);
        } else {
            if chunk.open {
                assert(before + chunk.stream().push(0x0a) =~= (before + chunk.stream()).push(0x0a));
            }
        }
    }
}

/// A reader that has not looked yet, brought up to date with a log that never
/// had more than it keeps, holds all of it.
proof fn lemma_first_look(log: LogView)
    requires
        log.history.len() <= log.capacity,
        log.history.len() <= u64::MAX,
        log.version == 0 ==> log.history.len() == 0,
    ensures
        ReaderView::fresh(log.capacity).synced(log).chunks == log.history,
{
    let after = ReaderView::fresh(log.capacity).synced(log);
    assert(log.chunks() =~= log.history);
    assert(after.chunks =~= log.history);
}

/// Lines fed to a log that holds nothing, by one writer and with room in the
/// log for all of them, are what a reader of it walks.
proof fn lemma_read_back(log: LogView, id: u32, calls: Seq<SinkCall>, text: Seq<u8>, more: bool)
    requires
        log.wf(),
        log.history.len() == 0,
        valid_utf8(text),
        text.len() > 0 ==> text.last() == 0x0a,
        ({
            let fed = BufferView::begun(writer::sink_of(Some(log), id, calls)).fed(text, more);
            let after = fed.buffer.chunk_flushed().published().sink.log->0;
            &&& after.history.len() <= log.capacity
            &&& (after.version == 0 ==> after.history.len() == 0)
        }),
    ensures
        ({
            let fed = BufferView::begun(writer::sink_of(Some(log), id, calls)).fed(text, more);
            let after = fed.buffer.chunk_flushed().published().sink.log->0;
            &&& fed.is_open
            &&& fed.rest.len() == 0
            &&& rendered(walk(ReaderView::fresh(log.capacity).synced(after).chunks)) == text
        }),
{
    let sink = writer::sink_of(Some(log), id, calls);
    let fed = BufferView::begun(sink).fed(text, more);
    let end = fed.buffer.chunk_flushed().published();
    let after = end.sink.log->0;
    assert(log.capacity * LOG_CHUNK_SIZE >= log.capacity) by (nonlinear_arith);
    if text.len() > 0 {
        is_char_boundary_start_end_of_seq(Seq::empty());
        buffer::lemma_fed(BufferView::begun(sink), text, more);
        buffer::lemma_fed_sound(BufferView::begun(sink), text, more, log.capacity);
        assert(end.sink.sound(log.capacity));
        buffer::lemma_message_handed_over(sink, text, more, log.capacity);
        let chunks = after.history;
        lemma_first_look(after);
        a_walk_is_the_text(chunks, chunks.len() as int);
        assert(chunks.take(chunks.len() as int) =~= chunks);
    } else {
        assert(after.history =~= Seq::empty());
        lemma_first_look(after);
        assert(rendered(walk(after.history)) =~= Seq::<u8>::empty());
        assert(text =~= Seq::<u8>::empty());
    }
}

/// What goes in comes out: lines [`written`](buffer::LogBufferAny::write) to a
/// log that holds nothing, by one writer and with room in the log for all of
/// them, are what a reader of that log walks, to the byte.
///
/// A count of changes that came round to zero would read as a log to which
/// nothing has happened, so the log is one whose count has not.
pub proof fn what_is_written_is_read_back(
    log: LogView,
    id: u32,
    calls: Seq<SinkCall>,
    text: Seq<u8>,
)
    requires
        log.wf(),
        log.history.len() == 0,
        valid_utf8(text),
        text.len() > 0 ==> text.last() == 0x0a,
        ({
            let after = BufferView::begun(writer::sink_of(Some(log), id, calls)).written(text);
            &&& after.sink.handed.len() <= log.capacity
            &&& after.sink.log->0.version == 0 ==> text.len() == 0
        }),
    ensures
        ({
            let after = BufferView::begun(writer::sink_of(Some(log), id, calls)).written(text);
            let reader = ReaderView::fresh(log.capacity).synced(after.sink.log->0);
            rendered(walk(reader.chunks)) == text
        }),
{
    lemma_open_read_back(log, id, calls, text, false);
    lemma_read_back(log, id, calls, text, false);
}

/// What a pipe brings comes out: lines that one [`read`](buffer::LogBufferAny::read)
/// brought to a log that holds nothing, with one writer and with room in the
/// log for all of them, are what a reader of that log walks, to the byte.
pub proof fn what_is_brought_is_read_back(
    log: LogView,
    id: u32,
    calls: Seq<SinkCall>,
    text: Seq<u8>,
)
    requires
        log.wf(),
        log.history.len() == 0,
        valid_utf8(text),
        text.len() > 0,
        text.last() == 0x0a,
        ({
            let after = BufferView::begun(writer::sink_of(Some(log), id, calls)).read(text);
            &&& after.sink.handed.len() <= log.capacity
            &&& after.sink.log->0.version != 0
        }),
    ensures
        ({
            let after = BufferView::begun(writer::sink_of(Some(log), id, calls)).read(text);
            let reader = ReaderView::fresh(log.capacity).synced(after.sink.log->0);
            &&& after.held.len() == 0
            &&& rendered(walk(reader.chunks)) == text
        }),
{
    assert(Seq::<u8>::empty() + text =~= text);
    lemma_open_read_back(log, id, calls, text, true);
    lemma_read_back(log, id, calls, text, true);
}

/// What is noted comes out: whole lines
/// [written](super::LogWriterRef::write_lines) to a log that holds nothing, by
/// one writer and with room in the log for all of them, are what a reader of
/// that log walks, each closed by a newline.
pub proof fn what_is_noted_is_read_back(
    log: LogView,
    id: u32,
    calls: Seq<SinkCall>,
    lines: Seq<Seq<u8>>,
)
    requires
        log.wf(),
        log.history.len() == 0,
        lines.len() > 0,
        forall|i: int| 0 <= i < lines.len() ==> valid_utf8(#[trigger] lines[i]),
        ({
            let after = buffer::lines_written(lines, writer::sink_of(Some(log), id, calls));
            &&& after.handed.len() <= log.capacity
            &&& after.log->0.version != 0
        }),
    ensures
        ({
            let after = buffer::lines_written(lines, writer::sink_of(Some(log), id, calls));
            let reader = ReaderView::fresh(log.capacity).synced(after.log->0);
            rendered(walk(reader.chunks)) == buffer::lines_stream(lines)
        }),
{
    let sink = writer::sink_of(Some(log), id, calls).took();
    let placed = buffer::placed_lines(lines, ChunkView::empty(), sink);
    let after = buffer::lines_written(lines, writer::sink_of(Some(log), id, calls));
    assert(log.capacity * LOG_CHUNK_SIZE >= log.capacity) by (nonlinear_arith);
    buffer::lemma_placed_lines(lines, ChunkView::empty(), sink, log.capacity);
    assert(after.sound(log.capacity));
    assert(placed.is_open);
    buffer::written_lines_come_out(lines, ChunkView::empty(), sink);
    let chunks = after.handed;
    let base = buffer::chunks_stream(sink.handed) + ChunkView::empty().stream();
    assert(base =~= Seq::<u8>::empty());
    assert(base + buffer::lines_stream(lines) =~= buffer::lines_stream(lines));
    if placed.chunk.pieces.len() > 0 {
        assert(chunks.drop_last() =~= placed.sink.handed);
        assert(buffer::chunks_stream(chunks) =~= buffer::lines_stream(lines));
    } else {
        assert(buffer::chunks_stream(chunks) + placed.chunk.stream() =~= buffer::chunks_stream(
            chunks,
        ));
    }
    lemma_first_look(after.log->0);
    a_walk_is_the_text(chunks, chunks.len() as int);
    assert(chunks.take(chunks.len() as int) =~= chunks);
}

/// A log that holds nothing refuses nothing, until the chunks are past
/// counting.
proof fn lemma_open_read_back(
    log: LogView,
    id: u32,
    calls: Seq<SinkCall>,
    text: Seq<u8>,
    more: bool,
)
    requires
        log.wf(),
        log.history.len() == 0,
        ({
            let fed = BufferView::begun(writer::sink_of(Some(log), id, calls)).fed(text, more);
            fed.buffer.sink.handed.len() <= log.capacity || fed.is_open
        }),
    ensures
        ({
            let fed = BufferView::begun(writer::sink_of(Some(log), id, calls)).fed(text, more);
            let after = fed.buffer.chunk_flushed().published();
            &&& fed.is_open
            &&& after.sink.sound(log.capacity)
        }),
{
    let begun = BufferView::begun(writer::sink_of(Some(log), id, calls));
    let fed = begun.fed(text, more);
    assert(log.capacity * LOG_CHUNK_SIZE >= log.capacity) by (nonlinear_arith);
    is_char_boundary_start_end_of_seq(Seq::empty());
    buffer::lemma_fed(begun, text, more);
    buffer::lemma_fed_sound(begun, text, more, log.capacity);
    assert(fed.buffer.chunk_flushed().sink.sound(log.capacity));
}

/// Pieces as text, with a newline after each that ends a line.
pub open spec fn rendered(pieces: Seq<PieceView>) -> Seq<u8>
    decreases pieces.len(),
{
    if pieces.len() == 0 {
        Seq::empty()
    } else {
        let text = rendered(pieces.drop_last()) + pieces.last().text;
        if pieces.last().newline {
            text.push(0x0a)
        } else {
            text
        }
    }
}

proof fn lemma_rendered_add(a: Seq<PieceView>, b: Seq<PieceView>)
    ensures
        rendered(a + b) == rendered(a) + rendered(b),
    decreases b.len(),
{
    if b.len() == 0 {
        assert(a + b =~= a);
        assert(rendered(a) + rendered(b) =~= rendered(a));
    } else {
        lemma_rendered_add(a, b.drop_last());
        assert((a + b).drop_last() =~= a + b.drop_last());
        assert(rendered(a + b) =~= rendered(a) + rendered(b));
    }
}

proof fn lemma_rendered_chunk(chunks: Seq<ChunkView>, index: int, n: int)
    requires
        0 <= index < chunks.len(),
        0 <= n <= chunks[index].pieces.len(),
        index + 1 < chunks.len() ==> chunks[index + 1].writer == chunks[index].writer,
    ensures
        ({
            let chunk = chunks[index];
            let open = n == chunk.pieces.len() && chunk.open && index + 1 < chunks.len();
            rendered(chunk_walk(chunks, index).take(n)) == super::chunk::pieces_stream(
                chunk.pieces.take(n),
                n > 0 && open,
            )
        }),
    decreases n,
{
    let pieces = chunk_walk(chunks, index);
    let chunk = chunks[index];
    if n > 0 {
        lemma_rendered_chunk(chunks, index, n - 1);
        assert(pieces.take(n).drop_last() =~= pieces.take(n - 1));
        assert(chunk.pieces.take(n).drop_last() =~= chunk.pieces.take(n - 1));
        assert(pieces.take(n).last() == pieces[n - 1]);
    }
}

proof fn lemma_lines_push(pieces: Seq<PieceView>, piece: PieceView, from: int)
    requires
        0 <= from <= pieces.len(),
    ensures
        lines_from(pieces.push(piece), from) == lines_from(pieces, from) + if piece.newline {
            1int
        } else {
            0
        },
    decreases pieces.len() - from,
{
    if from < pieces.len() {
        lemma_lines_push(pieces, piece, from + 1);
    } else {
        assert(lines_from(pieces.push(piece), from + 1) == 0);
    }
}

/// There are as many lines as pieces that end one, and one more if the last
/// does not.
proof fn lemma_count_lines(pieces: Seq<PieceView>)
    ensures
        split_lines(pieces).len() == lines_from(pieces, 0) + if pieces.len() > 0
            && !pieces.last().newline {
            1int
        } else {
            0
        },
    decreases pieces.len(),
{
    if pieces.len() > 0 {
        let before = pieces.drop_last();
        lemma_count_lines(before);
        lemma_lines_push(before, pieces.last(), 0);
        assert(before.push(pieces.last()) =~= pieces);
        lemma_split_lines(before);
    }
}

proof fn lemma_lines_between(pieces: Seq<PieceView>, from: int, to: int)
    requires
        0 <= from <= to <= pieces.len(),
    ensures
        lines_from(pieces.subrange(from, to), 0) == lines_from(pieces, from) - lines_from(
            pieces,
            to,
        ),
    decreases to - from,
{
    let part = pieces.subrange(from, to);
    if from < to {
        lemma_lines_between(pieces, from, to - 1);
        let before = pieces.subrange(from, to - 1);
        lemma_lines_push(before, pieces[to - 1], 0);
        assert(before.push(pieces[to - 1]) =~= part);
    }
}

/// The tail of `lines` lines has that many, or all there are.
proof fn lemma_tail_count(pieces: Seq<PieceView>, lines: int)
    requires
        0 <= lines,
    ensures
        ({
            let held = lines_from(pieces, 0);
            let at = tail_from(pieces, 0, lines);
            &&& 0 <= at <= pieces.len()
            &&& lines_from(pieces, at) == if lines < held {
                lines
            } else {
                held
            }
            &&& at > 0 ==> pieces[at - 1].newline
        }),
{
    lemma_tail_from(pieces, 0, lines);
    let at = tail_from(pieces, 0, lines);
    if at > 0 {
        assert(lines_from(pieces, at - 1) > lines);
        lemma_lines_from(pieces, 0, at - 1);
    }
}

/// A region reaches as many lines as there are: with nothing part way
/// through, one over the lines at distances `a..b` has the lines there are up
/// to `b`, less the `a` newest — those of the window at those distances, in
/// their order. Over all columns each is that line's pieces joined.
pub proof fn a_region_has_the_lines_it_reaches(reader: ReaderView, region: LogRegion)
    requires
        reader.wf(),
        reader.partials.len() == 0,
    ensures
        whole_lines(reader, region) == split_lines(
            window(
                reader.chunks,
                region.line_start as int,
                region.line_end as int,
                usize::MAX as int,
            ),
        ).map_values(|line: Seq<PieceView>| whole_line(line)),
        region_lines(reader, region).len() == whole_lines(reader, region).len(),
        ({
            let held = lines_from(walk(reader.chunks), 0);
            let reach = if region.line_end < held {
                region.line_end as int
            } else {
                held
            };
            region_lines(reader, region).len() == if region.line_start < reach {
                reach - region.line_start
            } else {
                0
            }
        }),
{
    let chunks = reader.chunks;
    let a = region.line_start as int;
    let b = region.line_end as int;
    let pieces = walk(chunks);
    let part = window(chunks, a, b, usize::MAX as int);
    assert(chunks.len() * LOG_CHUNK_SIZE <= reader.max_capacity * LOG_CHUNK_SIZE)
        by (nonlinear_arith)
        requires
            chunks.len() <= reader.max_capacity,
    ;
    assert(chunks.len() <= usize::MAX) by (nonlinear_arith)
        requires
            chunks.len() * LOG_CHUNK_SIZE <= isize::MAX,
            isize::MAX <= usize::MAX,
            LOG_CHUNK_SIZE >= 1,
    ;
    lemma_tail_count(pieces, a);
    lemma_tail_count(pieces, b);
    lemma_lines_from(pieces, 0, 0);
    if a < b {
        let lo = tail_from(pieces, 0, b);
        let hi = tail_from(pieces, 0, a);
        lemma_tail_from(pieces, 0, a);
        lemma_tail_from(pieces, 0, b);
        if lo > hi {
            assert(lines_from(pieces, hi) > b);
        }
        assert(part == pieces.subrange(lo, hi));
        lemma_count_lines(part);
        lemma_lines_between(pieces, lo, hi);
    }
    assert(whole_lines(reader, region) =~= split_lines(part).map_values(
        |line: Seq<PieceView>| whole_line(line),
    ));
}

/// A line carries on past a piece exactly where its writer's next words do: it
/// is the last piece of a chunk that the room cut short, and the next chunk is
/// that writer's too. A stranger's chunk never runs on from it.
pub proof fn a_line_carries_on_only_into_its_writers_next_chunk(
    chunks: Seq<ChunkView>,
    index: int,
    piece: int,
)
    requires
        0 <= index < chunks.len(),
        0 <= piece < chunks[index].pieces.len(),
    ensures
        ({
            let walked = chunk_walk(chunks, index)[piece];
            &&& walked.text == chunks[index].pieces[piece]
            &&& walked.writer == chunks[index].writer
            &&& walked.index == index
            &&& piece + 1 < chunks[index].pieces.len() ==> walked.newline
            &&& !chunks[index].open ==> walked.newline
            &&& index + 1 == chunks.len() ==> walked.newline
            &&& index + 1 < chunks.len() && chunks[index + 1].writer != chunks[index].writer
                ==> walked.newline
            &&& piece + 1 == chunks[index].pieces.len() && chunks[index].open && index + 1
                < chunks.len() && chunks[index + 1].writer == chunks[index].writer
                ==> !walked.newline
        }),
{
}

/// Lines strung together again, a piece after the other.
pub open spec fn strung(lines: Seq<Seq<PieceView>>) -> Seq<PieceView>
    decreases lines.len(),
{
    if lines.len() == 0 {
        Seq::empty()
    } else {
        strung(lines.drop_last()) + lines.last()
    }
}

/// Lines are cut where they end and nowhere else: every piece but the last of
/// a line leaves it open, the last of every line but the newest closes it, and
/// strung together again they are all the pieces there were.
pub proof fn lines_are_cut_where_they_end(pieces: Seq<PieceView>)
    ensures
        strung(split_lines(pieces)) == pieces,
        forall|i: int, j: int|
            0 <= i < split_lines(pieces).len() && 0 <= j < split_lines(pieces)[i].len() - 1
                ==> !(#[trigger] split_lines(pieces)[i][j]).newline,
        forall|i: int|
            0 <= i < split_lines(pieces).len() ==> (#[trigger] split_lines(pieces)[i]).len() > 0
                && (i < split_lines(pieces).len() - 1 ==> split_lines(pieces)[i].last().newline),
        pieces.len() > 0 ==> split_lines(pieces).len() > 0 && split_lines(pieces).last().last()
            == pieces.last(),
    decreases pieces.len(),
{
    if pieces.len() > 0 {
        let before = pieces.drop_last();
        let last = pieces.last();
        let lines = split_lines(before);
        let after = split_lines(pieces);
        lines_are_cut_where_they_end(before);
        if before.len() > 0 && !before.last().newline {
            assert(after.drop_last() =~= lines.drop_last());
            assert(strung(after) =~= strung(lines).push(last));
            assert forall|i: int, j: int|
                0 <= i < after.len() && 0 <= j < after[i].len() - 1 implies !(
            #[trigger] after[i][j]).newline by {
                if i == after.len() - 1 {
                    if j == lines.last().len() - 1 {
                        assert(lines.last().last() == before.last());
                    } else {
                        assert(after[i][j] == lines[i][j]);
                    }
                } else {
                    assert(after[i][j] == lines[i][j]);
                }
            }
            assert forall|i: int| 0 <= i < after.len() implies (#[trigger] after[i]).len() > 0 && (i
                < after.len() - 1 ==> after[i].last().newline) by {
                assert(i < after.len() - 1 ==> after[i] == lines[i]);
            }
        } else {
            assert(after.drop_last() =~= lines);
            assert(strung(after) =~= strung(lines).push(last));
            assert forall|i: int, j: int|
                0 <= i < after.len() && 0 <= j < after[i].len() - 1 implies !(
            #[trigger] after[i][j]).newline by {
                assert(after[i][j] == lines[i][j]);
            }
            assert forall|i: int| 0 <= i < after.len() implies (#[trigger] after[i]).len() > 0 && (i
                < after.len() - 1 ==> after[i].last().newline) by {
                if i < lines.len() - 1 {
                    assert(after[i] == lines[i]);
                } else if i < lines.len() {
                    assert(after[i] == lines.last());
                }
            }
        }
        assert(pieces =~= before.push(last));
    }
}

proof fn lemma_split_add(first: Seq<PieceView>, second: Seq<PieceView>)
    requires
        first.len() > 0 ==> first.last().newline,
    ensures
        split_lines(first + second) == split_lines(first) + split_lines(second),
    decreases second.len(),
{
    if second.len() == 0 {
        assert(first + second =~= first);
        assert(split_lines(first) + split_lines(second) =~= split_lines(first));
    } else {
        let before = second.drop_last();
        lemma_split_add(first, before);
        lemma_split_lines(before);
        assert((first + second).drop_last() =~= first + before);
        let lines = split_lines(before);
        let last = second.last();
        if before.len() > 0 {
            assert((first + before).last() == before.last());
            assert(split_lines(first + second) =~= split_lines(first) + split_lines(second));
        } else {
            assert(first + before =~= first);
            assert(lines =~= Seq::empty());
            assert(split_lines(first + second) =~= split_lines(first).push(seq![last]));
            assert(split_lines(second) =~= seq![seq![last]]);
            assert(split_lines(first + second) =~= split_lines(first) + split_lines(second));
        }
    }
}

/// `wanted`, or `count` if that is fewer.
pub open spec fn at_most(wanted: int, count: int) -> int {
    if wanted < count {
        wanted
    } else {
        count
    }
}

proof fn lemma_window_lines(chunks: Seq<ChunkView>, start: int, end: int)
    requires
        walkable(chunks),
        chunks.len() <= usize::MAX,
        0 <= start < end,
    ensures
        ({
            let lines = split_lines(walk(chunks));
            let count = lines.len() as int;
            split_lines(window(chunks, start, end, usize::MAX as int)) == lines.subrange(
                count - at_most(end, count),
                count - at_most(start, count),
            )
        }),
{
    let pieces = walk(chunks);
    let lines = split_lines(pieces);
    let count = lines.len() as int;
    let lo = tail_from(pieces, 0, end);
    let hi = tail_from(pieces, 0, start);
    if chunks.len() > 0 {
        the_last_piece_ends_a_line(chunks);
    } else {
        assert(pieces =~= Seq::empty());
    }
    lemma_tail_count(pieces, start);
    lemma_tail_count(pieces, end);
    lemma_tail_from(pieces, 0, start);
    lemma_tail_from(pieces, 0, end);
    lemma_count_lines(pieces);
    lemma_lines_from(pieces, 0, 0);
    if lo > hi {
        assert(lines_from(pieces, hi) > end);
    }
    let before = pieces.take(lo);
    let part = pieces.subrange(lo, hi);
    let after = pieces.skip(hi);
    assert(window(chunks, start, end, usize::MAX as int) == part);
    assert(pieces =~= before + part + after);
    assert(before =~= pieces.subrange(0, lo));
    assert(after =~= pieces.subrange(hi, pieces.len() as int));
    lemma_split_add(before, part);
    lemma_split_add(before + part, after);
    lemma_lines_between(pieces, 0, lo);
    lemma_lines_between(pieces, hi, pieces.len() as int);
    lemma_count_lines(before);
    lemma_count_lines(after);
    assert(split_lines(part) =~= lines.subrange(
        count - at_most(end, count),
        count - at_most(start, count),
    ));
}

/// Every line a reader has: those of the history, and then those still being
/// written, nothing of any of them cut off.
pub open spec fn every_line(reader: ReaderView) -> Seq<LogLineView> {
    split_lines(walk(reader.chunks)).map_values(|line: Seq<PieceView>| whole_line(line))
        + reader.partials.map_values(|partial: (u32, Seq<u8>)| whole_partial(partial))
}

/// A region is a stretch of the log: the lines whose distance from the end is
/// in it, as far as there are any, in their order, with those still being
/// written counted among them and nearest the end. Each is its writer's.
pub proof fn a_region_is_a_stretch_of_the_log(reader: ReaderView, region: LogRegion)
    requires
        reader.wf(),
    ensures
        ({
            let all = every_line(reader);
            let count = all.len() as int;
            let lines = whole_lines(reader, region);
            &&& region.line_start >= region.line_end ==> lines.len() == 0
            &&& region.line_start < region.line_end ==> lines == all.subrange(
                count - at_most(region.line_end as int, count),
                count - at_most(region.line_start as int, count),
            )
            &&& region_lines(reader, region).len() == lines.len()
            &&& forall|i: int|
                0 <= i < lines.len() ==> (#[trigger] region_lines(reader, region)[i]).writer
                    == lines[i].writer
        }),
{
    let chunks = reader.chunks;
    assert(chunks.len() * LOG_CHUNK_SIZE <= reader.max_capacity * LOG_CHUNK_SIZE)
        by (nonlinear_arith)
        requires
            chunks.len() <= reader.max_capacity,
    ;
    assert(chunks.len() <= usize::MAX) by (nonlinear_arith)
        requires
            chunks.len() * LOG_CHUNK_SIZE <= isize::MAX,
            isize::MAX <= usize::MAX,
            LOG_CHUNK_SIZE >= 1,
    ;
    let held = reader.partials.len();
    let a = past(region.line_start, held);
    let b = past(region.line_end, held);
    let all = every_line(reader);
    let count = all.len() as int;
    let history = split_lines(walk(chunks));
    if a < b {
        lemma_window_lines(chunks, a, b);
    } else {
        assert(reached(reader, region) =~= Seq::empty());
    }
    if region.line_start < region.line_end {
        assert(whole_lines(reader, region) =~= all.subrange(
            count - at_most(region.line_end as int, count),
            count - at_most(region.line_start as int, count),
        ));
    }
}

/// Whether `text` is what stands between a region's columns of a line that
/// runs `whole`.
pub open spec fn cut_from(text: Seq<char>, whole: Seq<char>, region: LogRegion) -> bool {
    text == region::clipped(whole, region::ClipView::start(), region).text
}

proof fn lemma_pieces_clip(pieces: Seq<PieceView>, region: LogRegion)
    requires
        pieces.len() > 0 ==> region::inside_edge(
            line_text(pieces.drop_last()),
            region::ClipView::start(),
            region,
        ),
    ensures
        clip_pieces(pieces, region) == region::clipped(
            line_text(pieces),
            region::ClipView::start(),
            region,
        ),
    decreases pieces.len(),
{
    let start = region::ClipView::start();
    if pieces.len() > 0 {
        let before = pieces.drop_last();
        if before.len() > 0 {
            let head = line_text(before.drop_last());
            let tail = decode_utf8(before.last().text);
            lemma_inside_prefix(head, tail, start, region);
        }
        lemma_pieces_clip(before, region);
        region::clipping_is_over_the_line(
            line_text(before),
            decode_utf8(pieces.last().text),
            start,
            region,
        );
    } else {
        assert(line_text(pieces) =~= Seq::empty());
    }
}

proof fn lemma_inside_prefix(
    first: Seq<char>,
    second: Seq<char>,
    clip: region::ClipView,
    region: LogRegion,
)
    requires
        region::inside_edge(first + second, clip, region),
    ensures
        region::inside_edge(first, clip, region),
    decreases first.len(),
{
    if first.len() > 0 {
        assert((first + second).skip(1) =~= first.skip(1) + second);
        assert((first + second)[0] == first[0]);
        lemma_inside_prefix(
            first.skip(1),
            second,
            region::clip_step(first[0], clip, region),
            region,
        );
    }
}

/// What a region shows of a line is what of it lies between the region's
/// columns, however the line was cut into pieces: of one still being written
/// always, and of one of the history wherever all but its last piece starts
/// left of the right hand edge.
pub proof fn a_region_shows_a_line_between_its_columns(
    reader: ReaderView,
    region: LogRegion,
    i: int,
)
    requires
        0 <= i < whole_lines(reader, region).len(),
        i < reached(reader, region).len() ==> reached(reader, region)[i].len() > 0
            && region::inside_edge(
            line_text(reached(reader, region)[i].drop_last()),
            region::ClipView::start(),
            region,
        ),
    ensures
        cut_from(
            region_lines(reader, region)[i].text,
            whole_lines(reader, region)[i].text,
            region,
        ),
{
    if i < reached(reader, region).len() {
        lemma_pieces_clip(reached(reader, region)[i], region);
    }
}

} // verus!
