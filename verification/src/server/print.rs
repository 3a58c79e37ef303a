//! The session's output, as lines that say whose they are.

use crate::log::reader;
use crate::log::reader::{PieceView, ReaderView};
use crate::log::{ChunkView, Log, LogReader};
use crate::util::text;
use vstd::prelude::*;
use vstd::string::*;
use vstd::utf8::*;

verus! {

/// One unit's log, and where its last line got to.
///
/// Chunks only, so a line is printed once and when it is finished — the
/// screen shows a line as it is being typed, and a stream that did the same
/// would print its beginning twice.
pub struct ServerPrinterUnit {
    /// What goes in front of each line. Taken once, a proc not being renamed.
    name: String,
    /// This printer's own view of the log — one reader per view, like any
    /// other.
    reader: LogReader,
    /// Whether the next piece begins a line, and so needs the prefix.
    ///
    /// A line longer than a chunk arrives in several pieces, and only the
    /// last of them ends a line; prefixing each would cut one line into
    /// several that look whole.
    at_line_start: bool,
}

/// A printer: the name it prints under, what it has of the log, and whether
/// the next piece begins a line.
#[verifier::ext_equal]
pub struct PrinterView {
    pub name: Seq<char>,
    pub reader: ReaderView,
    pub at_line_start: bool,
}

impl View for ServerPrinterUnit {
    type V = PrinterView;

    closed spec fn view(&self) -> PrinterView {
        PrinterView {
            name: self.name@,
            reader: self.reader@,
            at_line_start: self.at_line_start,
        }
    }
}

/// What goes in front of a line: the name, in brackets.
pub open spec fn prefix(name: Seq<char>) -> Seq<u8> {
    encode_utf8("["@ + name + "] "@)
}

/// Whether the piece after `pieces` begins a line, where the first of them
/// does if `start`.
pub open spec fn starts_line(pieces: Seq<PieceView>, start: bool) -> bool {
    if pieces.len() == 0 {
        start
    } else {
        pieces.last().newline
    }
}

/// A piece as it is printed: after the prefix if it begins a line, and before
/// a newline if it ends one.
pub open spec fn piece_printed(name: Seq<char>, piece: PieceView, start: bool) -> Seq<u8> {
    (if start {
        prefix(name)
    } else {
        Seq::empty()
    }) + piece.text + (if piece.newline {
        seq![0x0au8]
    } else {
        Seq::empty()
    })
}

/// Pieces as they are printed.
pub open spec fn printed(name: Seq<char>, pieces: Seq<PieceView>, start: bool) -> Seq<u8>
    decreases pieces.len(),
{
    if pieces.len() == 0 {
        Seq::empty()
    } else {
        let before = pieces.drop_last();
        printed(name, before, start) + piece_printed(
            name,
            pieces.last(),
            starts_line(before, start),
        )
    }
}

/// The pieces of the newest `fresh` chunks.
pub open spec fn fresh_pieces(chunks: Seq<ChunkView>, fresh: int) -> Seq<PieceView> {
    reader::walk(chunks).skip(reader::walk_to(chunks, chunks.len() - fresh).len() as int)
}

/// Printing pieces in two goes prints what one would have.
pub proof fn printing_in_two_goes_is_printing_in_one(
    name: Seq<char>,
    a: Seq<PieceView>,
    b: Seq<PieceView>,
    start: bool,
)
    ensures
        printed(name, a + b, start) == printed(name, a, start) + printed(
            name,
            b,
            starts_line(a, start),
        ),
        starts_line(a + b, start) == starts_line(b, starts_line(a, start)),
    decreases b.len(),
{
    if b.len() == 0 {
        assert(a + b =~= a);
        assert(printed(name, a, start) + Seq::<u8>::empty() =~= printed(name, a, start));
    } else {
        printing_in_two_goes_is_printing_in_one(name, a, b.drop_last(), start);
        assert((a + b).drop_last() =~= a + b.drop_last());
        let first = printed(name, a, start);
        let middle = printed(name, b.drop_last(), starts_line(a, start));
        let last = piece_printed(
            name,
            b.last(),
            starts_line(b.drop_last(), starts_line(a, start)),
        );
        assert((first + middle) + last =~= first + (middle + last));
    }
}

/// A line printed from its start is the prefix and then the line, however many
/// pieces it came in.
pub proof fn a_prefix_is_all_that_is_added(name: Seq<char>, pieces: Seq<PieceView>)
    requires
        pieces.len() > 0,
        forall|i: int| 0 <= i < pieces.len() - 1 ==> !(#[trigger] pieces[i]).newline,
    ensures
        printed(name, pieces, true) == prefix(name) + reader::rendered(pieces),
    decreases pieces.len(),
{
    if pieces.len() > 1 {
        let before = pieces.drop_last();
        assert forall|i: int| 0 <= i < before.len() - 1 implies !(#[trigger] before[i]).newline by {
            assert(before[i] == pieces[i]);
        }
        a_prefix_is_all_that_is_added(name, before);
        assert(before.last() == pieces[pieces.len() - 2]);
        assert(printed(name, pieces, true) =~= prefix(name) + reader::rendered(pieces));
    } else {
        assert(pieces.drop_last() =~= Seq::empty());
        reveal_with_fuel(printed, 2);
        reveal_with_fuel(reader::rendered, 2);
        assert(printed(name, pieces, true) =~= prefix(name) + reader::rendered(pieces));
    }
}

/// The pieces of the chunks before `first` come before every other, and are
/// the ones with a lower number.
proof fn lemma_indices(chunks: Seq<ChunkView>, n: int, first: int, at: int)
    requires
        0 <= first <= n <= chunks.len(),
        0 <= at < reader::walk_to(chunks, n).len(),
    ensures
        reader::walk_to(chunks, first).len() <= reader::walk_to(chunks, n).len(),
        reader::walk_to(chunks, n)[at].index >= first <==> at >= reader::walk_to(
            chunks,
            first,
        ).len(),
        0 <= reader::walk_to(chunks, n)[at].index < n,
    decreases n,
{
    let before = reader::walk_to(chunks, n - 1);
    let last = reader::chunk_walk(chunks, n - 1);
    assert(reader::walk_to(chunks, n) == before + last);
    if first == n {
        if at < before.len() {
            lemma_indices(chunks, n - 1, n - 1, at);
        }
    } else {
        lemma_lengths(chunks, first, n - 1);
        if at < before.len() {
            lemma_indices(chunks, n - 1, first, at);
        }
    }
}

proof fn lemma_lengths(chunks: Seq<ChunkView>, first: int, n: int)
    requires
        0 <= first <= n <= chunks.len(),
    ensures
        reader::walk_to(chunks, first).len() <= reader::walk_to(chunks, n).len(),
    decreases n,
{
    if first < n {
        lemma_lengths(chunks, first, n - 1);
    }
}

fn append(out: &mut Vec<u8>, bytes: &[u8])
    ensures
        final(out)@ == old(out)@ + bytes@,
{
    let mut i: usize = 0;
    while i < bytes.len()
        invariant
            i <= bytes@.len(),
            out@ == old(out)@ + bytes@.take(i as int),
        decreases bytes@.len() - i,
    {
        out.push(bytes[i]);
        assert(bytes@.take(i + 1) =~= bytes@.take(i as int).push(bytes@[i as int]));
        i = i + 1;
    }
    assert(bytes@.take(i as int) =~= bytes@);
}

impl ServerPrinterUnit {
    /// Whether its reader is sound.
    pub closed spec fn wf(self) -> bool {
        self.reader.wf()
    }

    /// Follow `log` from the start, printing it under `name`.
    pub fn new(name: String, log: &Log) -> (printer: Self)
        requires
            log.wf(),
        ensures
            printer.wf(),
            printer@ == (PrinterView {
                name: name@,
                reader: ReaderView::fresh(log@.capacity),
                at_line_start: true,
            }),
    {
        ServerPrinterUnit { name, reader: log.reader(), at_line_start: true }
    }

    /// Print the pieces the log gained since the last look, after what is in
    /// `out` already.
    pub fn drain(&mut self, log: Option<&Log>, out: &mut Vec<u8>)
        requires
            old(self).wf(),
            log matches Some(log) ==> {
                &&& log.wf()
                &&& old(self)@.reader.seen <= log@.history.len()
                &&& old(self)@.reader.capacity == log@.capacity
            },
        ensures
            final(self).wf(),
            match log {
                None => final(self)@ == old(self)@ && final(out)@ == old(out)@,
                Some(log) => {
                    let after = old(self)@.reader.synced(log@);
                    let pieces = fresh_pieces(after.chunks, old(self)@.reader.sync_count(log@));
                    &&& final(out)@ == old(out)@ + printed(
                        old(self)@.name,
                        pieces,
                        old(self)@.at_line_start,
                    )
                    &&& final(self)@ == (PrinterView {
                        name: old(self)@.name,
                        reader: after,
                        at_line_start: starts_line(pieces, old(self)@.at_line_start),
                    })
                },
            },
    {
        let ghost before = self@;
        let ghost had = out@;
        proof {
            self.reader.lemma_wf();
        }
        let fresh = self.reader.sync(log);
        proof {
            if let Some(log) = log {
                log.lemma_wf();
                let after = before.reader.synced(log@);
                assert(fresh <= log@.chunks().len());
                assert(fresh <= after.chunks.len());
                if fresh == 0 {
                    assert(fresh_pieces(after.chunks, 0) =~= Seq::<PieceView>::empty());
                    assert(had + Seq::<u8>::empty() =~= had);
                }
            }
        }
        if fresh == 0 {
            return ;
        }
        let mut head = text::owned("[");
        head.append(self.name.as_str());
        head.append("] ");
        let first = self.reader.len() - fresh;
        let ghost chunks = self.reader@.chunks;
        let ghost all = reader::walk(chunks);
        let ghost skipped = reader::walk_to(chunks, first as int).len() as int;
        proof {
            lemma_lengths(chunks, first as int, chunks.len() as int);
        }
        let mut iter = self.reader.iter_unsync();
        let mut start = self.at_line_start;
        let ghost mut at: int = 0;
        assert(all.skip(0) =~= all);
        loop
            invariant
                iter.wf(),
                all == reader::walk(chunks),
                0 <= at <= all.len(),
                iter.rest() == all.skip(at),
                first <= chunks.len(),
                skipped == reader::walk_to(chunks, first as int).len(),
                skipped <= all.len(),
                head@ == "["@ + before.name + "] "@,
                at <= skipped ==> out@ == had && start == before.at_line_start,
                at > skipped ==> ({
                    let done = all.subrange(skipped, at);
                    &&& out@ == had + printed(before.name, done, before.at_line_start)
                    &&& start == starts_line(done, before.at_line_start)
                }),
            ensures
                at == all.len(),
            decreases all.len() - at,
        {
            let piece = match iter.next() {
                Some(piece) => piece,
                None => {
                    break ;
                },
            };
            proof {
                assert(piece@ == all[at]);
                lemma_indices(chunks, chunks.len() as int, first as int, at);
                assert(all.skip(at).skip(1) =~= all.skip(at + 1));
            }
            if piece.index() >= first {
                let ghost done = all.subrange(skipped, at);
                let ghost out_before = out@;
                proof {
                    assert(at >= skipped);
                    if at == skipped {
                        assert(done =~= Seq::<PieceView>::empty());
                        assert(had + printed(before.name, done, before.at_line_start) =~= had);
                    }
                    assert(all.subrange(skipped, at + 1).drop_last() =~= done);
                    assert(all.subrange(skipped, at + 1).last() == all[at]);
                }
                if start {
                    append(out, head.as_str().as_bytes());
                }
                append(out, piece.as_str().as_bytes());
                start = piece.newline();
                if piece.newline() {
                    out.push(0x0a);
                }
                assert(out@ =~= had + printed(
                    before.name,
                    all.subrange(skipped, at + 1),
                    before.at_line_start,
                ));
            }
            proof {
                at = at + 1;
            }
        }
        self.at_line_start = start;
        proof {
            assert(all.subrange(skipped, all.len() as int) =~= all.skip(skipped));
            if all.len() <= skipped {
                assert(all.skip(skipped) =~= Seq::<PieceView>::empty());
                assert(had + Seq::<u8>::empty() =~= had);
            }
        }
    }
}

/// Everything is printed once: what is printed of a log now is what comes
/// after the pieces of the chunks that were there before, and nothing of those.
pub proof fn what_is_new_comes_after_what_was_there(chunks: Seq<ChunkView>, fresh: int)
    requires
        0 <= fresh <= chunks.len(),
    ensures
        reader::walk(chunks) == reader::walk_to(chunks, chunks.len() - fresh) + fresh_pieces(
            chunks,
            fresh,
        ),
        fresh == 0 ==> fresh_pieces(chunks, fresh).len() == 0,
        fresh == chunks.len() ==> fresh_pieces(chunks, fresh) == reader::walk(chunks),
{
    reader::lemma_walk_to(chunks, chunks.len() - fresh, chunks.len() as int);
    let before = reader::walk_to(chunks, chunks.len() - fresh);
    let all = reader::walk(chunks);
    assert(all.take(before.len() as int) == before);
    assert(before + fresh_pieces(chunks, fresh) =~= all);
    if fresh == chunks.len() {
        assert(before.len() == 0);
        assert(fresh_pieces(chunks, fresh) =~= all);
    }
}

/// What goes in front of a line is the name between brackets, and a space.
pub proof fn a_prefix_is_the_name_in_brackets(name: Seq<char>)
    ensures
        prefix(name) == encode_utf8(seq!['['] + name + seq![']', ' ']),
{
    reveal_strlit("[");
    reveal_strlit("] ");
    assert("["@ =~= seq!['[']);
    assert("] "@ =~= seq![']', ' ']);
}

} // verus!
