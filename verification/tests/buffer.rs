use std::cell::RefCell;
use std::rc::Rc;
use tush::log::{
    is_disconnected, LogBufferAny, LogBufferLine, LogBufferWriter, LogChunk, LogChunkData,
    LogReadError, LogWriterId, SinkView, LOG_BUFFER_SIZE, LOG_CHUNK_LIMIT, LOG_CHUNK_SIZE, LOG_LINE_SIZE,
};

/// What a buffer handed over, and what it was given to fill.
#[derive(Default)]
struct Handed {
    /// Every chunk pushed, in order.
    chunks: Vec<LogChunk>,
    /// The chunks given back, for the next one asked for.
    spare: Vec<LogChunk>,
    /// How many chunks were made rather than reused.
    minted: usize,
    /// Whether pushes still land. Set to false to play the log going
    /// away under a reader still holding one.
    open: bool,
    /// The line the buffer says is part way through, if any.
    partial: Option<String>,
}

impl Handed {
    /// Shared from the start, since both the writer and the test that
    /// inspects it need a hold.
    fn new() -> Rc<RefCell<Self>> {
        Rc::new(RefCell::new(Self {
            open: true,
            ..Default::default()
        }))
    }
}

/// A [`LogBufferWriter`] with nothing behind it: pushed chunks are simply
/// kept, which is all a test needs to see.
struct Fake {
    /// Stamped onto every chunk, so a test with two of these can tell
    /// their output apart the way a real log does.
    id: LogWriterId,
    /// Shared with the test, which is the only way to see what a buffer
    /// handed over: the buffer owns its writer until it is finished.
    handed: Rc<RefCell<Handed>>,
}

impl Fake {
    /// The first process id, for the tests that only have one writer.
    fn new(handed: &Rc<RefCell<Handed>>) -> Self {
        Self::with_id(handed, 2)
    }

    /// A writer with a stamp of its own, sharing one record with the
    /// others — which is how a log with several processes behaves.
    fn with_id(handed: &Rc<RefCell<Handed>>, id: u32) -> Self {
        Self {
            id: LogWriterId::new(id),
            handed: handed.clone(),
        }
    }
}

impl LogBufferWriter for Fake {
    fn sink(&self) -> SinkView {
        unreachable!()
    }

    fn wf(&self) -> bool {
        true
    }

    fn set_partial(&mut self, text: &str) {
        let mut handed = self.handed.borrow_mut();
        if handed.open {
            handed.partial = Some(text.to_owned());
        }
    }

    fn clear_partial(&mut self) {
        let mut handed = self.handed.borrow_mut();
        if handed.open {
            handed.partial = None;
        }
    }

    fn chunk(&mut self) -> LogChunk {
        let mut handed = self.handed.borrow_mut();
        handed.spare.pop().unwrap_or_else(|| {
            handed.minted += 1;
            LogChunk::new()
        })
    }

    fn recycle(&mut self, mut chunk: LogChunk) {
        chunk.clear();
        self.handed.borrow_mut().spare.push(chunk);
    }

    fn push_chunk(&mut self, chunk: &mut LogChunk) -> bool {
        let mut handed = self.handed.borrow_mut();
        if !handed.open {
            return false;
        }
        // The same order the real writer uses: stamp, swap the contents
        // out, hand back something empty and open.
        chunk.set_writer(self.id);
        let mut taken = LogChunk::new();
        handed.minted += 1;
        taken.swap(chunk);
        chunk.clear();
        handed.chunks.push(taken);
        true
    }
}

/// A buffer on one writer, for the tests that do not care which.
fn buffer(handed: &Rc<RefCell<Handed>>) -> LogBufferAny<Fake> {
    LogBufferAny::new(Fake::new(handed))
}

/// Write `bytes` through a buffer of its own, and be done with it.
fn write(handed: &Rc<RefCell<Handed>>, bytes: &[u8]) {
    let mut buffer = buffer(handed);
    buffer.write(bytes);
    buffer.finish();
}

/// Read all of `src` into `buffer`, a read at a time, to the end of it.
fn read_all(buffer: &mut LogBufferAny<Fake>, src: &[u8]) {
    let mut src = src;
    loop {
        let taken = src.len().min(LOG_BUFFER_SIZE);
        let (read, rest) = src.split_at(taken);
        src = rest;
        if !buffer.read(Ok(read)).unwrap() {
            return;
        }
    }
}

fn data_of(chunk: &LogChunk) -> Vec<(String, bool)> {
    let mut out = Vec::new();
    let mut iter = chunk.iter_data();
    while let Some(data) = iter.next() {
        out.push((data.as_str().to_string(), data.is_line()));
    }
    out
}

/// The pieces of every chunk pushed: `(text, ends a line)`, by chunk.
///
/// Shows the packing itself rather than the history it adds up to, which
/// is the only way to tell whether lines shared a chunk.
fn pieces(handed: &Rc<RefCell<Handed>>) -> Vec<Vec<(String, bool)>> {
    handed.borrow().chunks.iter().map(data_of).collect()
}

/// The pushed chunks read back as whole lines, each with its writer.
///
/// Joins per writer, not by position: another process's chunk can sit
/// between two pieces of the same split line, and joining on position
/// swallows it.
fn lines(handed: &Rc<RefCell<Handed>>) -> Vec<(LogWriterId, String)> {
    let handed = handed.borrow();
    let mut lines = Vec::new();
    let mut pending: Vec<(LogWriterId, String)> = Vec::new();

    for chunk in &handed.chunks {
        let writer = chunk.writer();
        let slot = match pending.iter().position(|(id, _)| *id == writer) {
            Some(at) => at,
            None => {
                pending.push((writer, String::new()));
                pending.len() - 1
            }
        };
        for (text, is_line) in data_of(chunk) {
            pending[slot].1.push_str(&text);
            if is_line {
                lines.push((writer, std::mem::take(&mut pending[slot].1)));
            }
        }
    }
    lines.extend(pending.into_iter().filter(|(_, text)| !text.is_empty()));
    lines
}

/// [`lines`] without the stamps, for the tests that only assert content.
fn texts(handed: &Rc<RefCell<Handed>>) -> Vec<String> {
    lines(handed).into_iter().map(|(_, text)| text).collect()
}

// ---- write ----------------------------------------------------------

#[test]
fn write_keeps_every_line_in_the_buffer() {
    let handed = Handed::new();
    write(&handed, b"um\ndois\ntres\n");
    assert_eq!(texts(&handed), ["um", "dois", "tres"]);
}

#[test]
fn write_carries_an_unfinished_line_between_calls() {
    let handed = Handed::new();
    let mut buffer = buffer(&handed);
    buffer.write(b"sta");
    buffer.write(b"rting\nup\n");
    assert_eq!(texts(&handed), ["starting", "up"]);
}

/// A partial character at the end of a `write` has no next call to
/// complete it. It has to become a replacement character — holding it
/// back would take no bytes and spin the loop for ever.
#[test]
fn write_terminates_on_a_partial_character() {
    let handed = Handed::new();
    let mut buffer = buffer(&handed);
    buffer.write("olá".as_bytes());
    buffer.write(b"ol\xc3");
    buffer.write(b"\n");
    assert_eq!(texts(&handed), ["oláol\u{fffd}"]);
}

/// The other spin: with nowhere to push, the chunk is never swapped, so
/// it stays finished and takes nothing while the failed push never
/// yields.
#[test]
fn write_terminates_once_the_writer_refuses() {
    let handed = Handed::new();
    handed.borrow_mut().open = false;
    write(&handed, &b"linha\n".repeat(500));
    assert!(handed.borrow().chunks.is_empty());
}

#[test]
fn empty_lines_are_kept() {
    let handed = Handed::new();
    write(&handed, b"\n\na\n");
    assert_eq!(texts(&handed), ["", "", "a"]);
}

// ---- packing --------------------------------------------------------

/// The point of packing: lines that arrive together travel together, so
/// a chunk carries several.
#[test]
fn lines_arriving_together_share_a_chunk() {
    let handed = Handed::new();
    write(&handed, b"um\ndois\ntres\nquatro\n");

    assert_eq!(
        pieces(&handed),
        [
            vec![("um".to_string(), true), ("dois".to_string(), true)],
            vec![("tres".to_string(), true), ("quatro".to_string(), true)],
        ]
    );
    assert_eq!(texts(&handed), ["um", "dois", "tres", "quatro"]);
}

/// And the other half of that bargain: a line with nobody to share with
/// must not wait. A chunk held back for company would keep a quiet
/// process's last line out of the log until it spoke again.
#[test]
fn a_line_arriving_alone_does_not_wait_for_company() {
    let handed = Handed::new();
    write(&handed, b"sozinha\n");
    assert_eq!(pieces(&handed), [vec![("sozinha".to_string(), true)]]);
}

/// Past the watermark the chunk starts no further line, even with a slot
/// still free — otherwise the next line would be split across two chunks
/// to use up a handful of leftover bytes.
#[test]
fn a_chunk_past_the_watermark_takes_no_new_line() {
    let handed = Handed::new();
    let longa = "x".repeat(LOG_CHUNK_LIMIT + 8);
    write(&handed, format!("{longa}\ncurta\n").as_bytes());

    assert_eq!(
        pieces(&handed),
        [vec![(longa, true)], vec![("curta".to_string(), true)]]
    );
}

/// A line cut by the room running out reads as `Partial`, and the piece
/// that finishes it reads as a `Line` — that pair is what a reader joins
/// on.
#[test]
fn a_split_line_is_a_partial_then_a_line() {
    let handed = Handed::new();
    let longa = "y".repeat(LOG_CHUNK_SIZE + 40);
    write(&handed, format!("{longa}\n").as_bytes());

    let pieces = pieces(&handed);
    assert_eq!(pieces.len(), 2, "expected the line to span two chunks");
    assert_eq!(pieces[0], [("y".repeat(LOG_CHUNK_SIZE), false)]);
    assert_eq!(pieces[1], [("y".repeat(40), true)]);
    assert_eq!(texts(&handed), [longa]);
}

// ---- attribution ----------------------------------------------------

#[test]
fn a_split_line_carries_one_stamp() {
    let handed = Handed::new();
    let longa = "z".repeat(LOG_CHUNK_SIZE * 3);
    write(&handed, format!("{longa}\n").as_bytes());

    assert_eq!(lines(&handed), [(LogWriterId::new(2), longa)]);
}

/// The point of the stamp: two processes writing into one log stay
/// tellable apart once their chunks are interleaved.
#[test]
fn interleaved_writers_keep_their_lines_apart() {
    let handed = Handed::new();
    let mut um = LogBufferAny::new(Fake::with_id(&handed, 2));
    let mut dois = LogBufferAny::new(Fake::with_id(&handed, 3));

    um.write(b"um-a\n");
    dois.write(b"dois-a\n");
    um.write(b"um-b\n");
    dois.write(b"dois-b\n");

    let (a, b) = (LogWriterId::new(2), LogWriterId::new(3));
    assert_eq!(
        lines(&handed),
        [
            (a, "um-a".to_string()),
            (b, "dois-a".to_string()),
            (a, "um-b".to_string()),
            (b, "dois-b".to_string()),
        ]
    );
}

// ---- recycling ------------------------------------------------------

/// A unit makes a new reader for every run, so a reader that kept its chunk
/// would cost one per restart. Handing it back at the end is what keeps that
/// cost at zero.
#[test]
fn a_reader_gives_its_chunk_back_when_it_ends() {
    let handed = Handed::new();
    {
        let buffer = buffer(&handed);
        assert_eq!(handed.borrow().minted, 1, "one chunk to fill");
        assert!(handed.borrow().spare.is_empty());
        buffer.finish();
    }
    assert_eq!(
        handed.borrow().spare.len(),
        1,
        "the chunk was not given back"
    );

    // And the next reader takes that one rather than making another.
    let before = handed.borrow().minted;
    let _next = buffer(&handed);
    assert_eq!(handed.borrow().minted, before, "a spare block was ignored");
}

/// A line the writer never finished dies with its reader, and the reader
/// that follows starts clean.
///
/// The unterminated text is held by the line, not the chunk — a line with
/// no newline is never ready, so it is never placed — which is why it
/// goes rather than turning up in the middle of the next run's output.
#[test]
fn an_unfinished_line_does_not_survive_its_reader() {
    let handed = Handed::new();
    write(&handed, b"inacabada");
    write(&handed, b"nova\n");

    assert_eq!(texts(&handed), ["nova"]);
}

// ---- read -----------------------------------------------------------

#[test]
fn read_splits_a_line_longer_than_a_chunk() {
    let handed = Handed::new();
    let long = "a".repeat(LOG_CHUNK_SIZE * 3);
    let src = format!("{long}\ncurta\n").into_bytes();

    let mut buffer = buffer(&handed);
    read_all(&mut buffer, &src);
    assert_eq!(texts(&handed), [long, "curta".to_string()]);
}

/// A character straddling the boundary between two reads must survive.
#[test]
fn read_rejoins_a_character_split_across_reads() {
    let handed = Handed::new();
    let mut buffer = buffer(&handed);
    let text = "coração\n".as_bytes();
    // Hand it over one byte at a time: every multi-byte character is
    // guaranteed to be cut.
    for i in 0..text.len() {
        let one = &text[i..i + 1];
        buffer.read(Ok(one)).unwrap();
    }
    assert_eq!(texts(&handed), ["coração"]);
}

/// A line too long even for the line buffer leaves it in fragments, and
/// each fragment is then spread over chunks. Both boundaries are crossed
/// at once, and the line still has to come back whole.
#[test]
fn a_line_longer_than_the_line_buffer_survives_both_splits() {
    let handed = Handed::new();
    // Not a multiple of either size, so no boundary lines up.
    let longa = "abcdefghij".repeat(937);
    assert!(longa.len() > LOG_CHUNK_SIZE * 4);

    let src = format!("{longa}\ndepois\n").into_bytes();
    let mut buffer = buffer(&handed);
    read_all(&mut buffer, &src);

    let a = LogWriterId::new(2);
    assert_eq!(lines(&handed), [(a, longa), (a, "depois".to_string())]);
}

/// The same with the cuts falling wherever the reads land, on text where
/// that regularly means inside a character.
#[test]
fn a_very_long_line_survives_arbitrary_read_boundaries() {
    let handed = Handed::new();
    let longa = "0123456789áé".repeat(311);
    let src = format!("{longa}\ncurta\n").into_bytes();

    let mut buffer = buffer(&handed);
    read_all(&mut buffer, &src);
    assert_eq!(texts(&handed), [longa, "curta".to_string()]);
}

/// Two processes, one printing a line too long for a chunk, the other
/// writing between its pieces.
///
/// A split line is continued by *that writer's* next chunk, which is not
/// the next chunk pushed when something else got there first. A reader
/// joining on position alone would swallow the other process's line into the
/// middle of the long one and lose it — and blame the wrong writer.
#[test]
fn a_split_line_is_not_spliced_with_another_writers() {
    let handed = Handed::new();
    let mut longo = LogBufferAny::new(Fake::with_id(&handed, 2));
    let mut curto = LogBufferAny::new(Fake::with_id(&handed, 3));

    // One read brings more than the line buffer holds without closing the
    // line, so it leaves as a fragment and the last chunk stays Partial.
    let parte1 = "L".repeat(LOG_LINE_SIZE + 64);
    longo.read(Ok(parte1.as_bytes())).unwrap();

    // The other process writes in between.
    curto.write(b"do outro\n");

    // And the long one finishes its line.
    longo.read(Ok(&b"FIM\n"[..])).unwrap();

    let (a, b) = (LogWriterId::new(2), LogWriterId::new(3));
    let lines = lines(&handed);
    assert!(
        lines.contains(&(b, "do outro".to_string())),
        "the second writer's line was swallowed: {:?}",
        lines.iter().map(|(w, t)| (w, t.len())).collect::<Vec<_>>()
    );
    let (writer, longa) = lines.iter().find(|(_, t)| t.len() > 200).unwrap();
    assert_eq!(*writer, a);
    assert_eq!(*longa, format!("{parte1}FIM"));
}

// ---- what each piece is ---------------------------------------------

/// Every piece must be valid UTF-8 **on its own**.
///
/// The line guarantees its own content is valid, but it is not the line
/// that chooses where a chunk cuts — the chunk takes whatever its
/// remaining room allows, and that offset knows nothing about character
/// boundaries. Here the first chunk fills to one byte short of a two byte
/// character, so a cut at the raw capacity would slice it in half.
///
/// Note the joined history stays correct either way: the two halves
/// concatenate back to the same bytes. That is exactly why this asserts
/// per piece — the damage is invisible from the joined output and only
/// shows in a renderer that reads one chunk.
#[test]
fn every_piece_is_valid_utf8_on_its_own() {
    let handed = Handed::new();
    // 255 ASCII bytes leave a single byte of room, and the next character
    // needs two.
    let linha = format!("{}{}", "a".repeat(LOG_CHUNK_SIZE - 1), "á".repeat(64));
    write(&handed, format!("{linha}\n").as_bytes());

    for (c, chunk) in handed.borrow().chunks.iter().enumerate() {
        for n in 0..chunk.count() {
            let bytes = chunk.piece_bytes(n).unwrap();
            assert!(
                std::str::from_utf8(bytes).is_ok(),
                "chunk {c} piece {n} is not valid UTF-8 on its own"
            );
        }
    }
    assert_eq!(texts(&handed), [linha]);
}

/// `LogChunkData` says whether a piece ends a line and nothing about how
/// it starts — the tail of a split line reads as a `Line`, because it
/// does end one.
#[test]
fn a_tail_piece_reads_as_a_line() {
    let handed = Handed::new();
    write(
        &handed,
        format!("{}\n", "w".repeat(LOG_CHUNK_SIZE + 4)).as_bytes(),
    );

    let handed = handed.borrow();
    assert!(matches!(
        handed.chunks[0].get_data(0),
        Some(LogChunkData::Partial(_))
    ));
    assert!(matches!(
        handed.chunks[1].get_data(0),
        Some(LogChunkData::Line(_))
    ));
}

// ---- the line being written -----------------------------------------

/// A line part way through is shown while it is, and hidden once it ended or
/// its reader did.
#[test]
fn an_unfinished_line_is_shown_until_it_ends() {
    let handed = Handed::new();
    let mut buffer = buffer(&handed);
    buffer.write(b"sta");
    assert_eq!(handed.borrow().partial.as_deref(), Some("sta"));
    buffer.write(b"rting");
    assert_eq!(handed.borrow().partial.as_deref(), Some("starting"));
    buffer.write(b"\n");
    assert_eq!(handed.borrow().partial, None);
    buffer.write(b"mais");
    buffer.finish();
    assert_eq!(handed.borrow().partial, None);
    assert_eq!(texts(&handed), ["starting"]);
}

/// A line with no newline is handed over when the stream ends.
#[test]
fn the_end_of_a_stream_closes_its_last_line() {
    let handed = Handed::new();
    let mut buffer = buffer(&handed);
    assert_eq!(buffer.read(Ok(b"ultima \xc3")), Ok(true));
    assert!(handed.borrow().chunks.is_empty());
    assert_eq!(buffer.read(Ok(b"")), Ok(false));
    assert_eq!(pieces(&handed), [vec![("ultima \u{fffd}".to_string(), true)]]);
}

/// The far end going away is how output ends; being interrupted means
/// nothing, and anything else is for the caller.
#[test]
fn a_read_that_fails_says_what_to_do_next() {
    for gone in [
        LogReadError::BrokenPipe,
        LogReadError::UnexpectedEof,
        LogReadError::ConnectionReset,
        LogReadError::ConnectionAborted,
    ] {
        assert!(is_disconnected(gone));
        let handed = Handed::new();
        let mut buffer = buffer(&handed);
        buffer.read(Ok(b"fim")).unwrap();
        assert_eq!(buffer.read(Err(gone)), Ok(false));
        assert_eq!(texts(&handed), ["fim"]);
    }
    let handed = Handed::new();
    let mut buffer = buffer(&handed);
    buffer.read(Ok(b"fim")).unwrap();
    assert_eq!(buffer.read(Err(LogReadError::Interrupted)), Ok(true));
    assert_eq!(
        buffer.read(Err(LogReadError::Other)),
        Err(LogReadError::Other)
    );
    assert!(handed.borrow().chunks.is_empty());
    assert!(!is_disconnected(LogReadError::Interrupted));
    assert!(!is_disconnected(LogReadError::Other));
}

/// A reader whose log has gone stops rather than reading on.
#[test]
fn a_read_stops_once_the_writer_refuses() {
    let handed = Handed::new();
    let mut buffer = buffer(&handed);
    handed.borrow_mut().open = false;
    assert_eq!(buffer.read(Ok(&b"linha\n".repeat(500))), Ok(false));
    assert!(handed.borrow().chunks.is_empty());
}

/// A line that nothing has closed can be placed as far as it has got, and the
/// piece stays open: there is one byte of room after it, and a character of two
/// is not cut to fit.
#[test]
fn an_open_line_is_placed_as_far_as_it_goes() {
    let mut chunk = LogChunk::new();
    let mut open = LogBufferLine::new();
    assert_eq!(open.write(&[b'a'; 255]), 255);
    assert!(!open.is_ready());
    assert_eq!(chunk.push_line(&mut open), 255);
    assert!(open.is_drained());
    assert!(!chunk.is_finished());

    let mut next = LogBufferLine::new();
    assert_eq!(next.write("\u{e1}\n".as_bytes()), 3);
    assert_eq!(chunk.push_line(&mut next), 0);
    assert!(chunk.is_finished());
    assert_eq!(chunk.count(), 1);
    let text = "a".repeat(255);
    assert_eq!(chunk.get_data(0), Some(LogChunkData::Partial(text.as_str())));
    assert_eq!(next.pending(), "\u{e1}");

    // What is written to the open line later is pending on its own.
    assert_eq!(open.write(b"bc\n"), 3);
    assert_eq!(open.pending(), "bc");
    assert_eq!(open.as_str().len(), 257);
}

/// A walk of a chunk yields the pieces it would hand out one by one, and knows
/// how many are left.
#[test]
fn a_walk_of_a_chunk_is_its_pieces() {
    let mut chunk = LogChunk::new();
    let mut line = LogBufferLine::new();
    line.write(b"um\n");
    chunk.push_line(&mut line);
    let mut line = LogBufferLine::new();
    line.write(b"do");
    chunk.push_line(&mut line);
    let mut walk = chunk.iter_data();
    assert_eq!(walk.len(), 2);
    assert_eq!(walk.next(), Some(LogChunkData::Line("um")));
    assert_eq!(walk.next(), Some(LogChunkData::Partial("do")));
    assert_eq!((walk.len(), walk.next()), (0, None));
}

/// A buffer shows the log it writes to, and each writer of a log is another.
#[test]
fn a_buffer_shows_its_log() {
    let mut log = tush::log::Log::new(16);
    assert_eq!(log.writer().id().index(), 1);
    let writer = log.writer();
    assert_eq!(writer.id().index(), 2);
    let mut buffer = LogBufferAny::new(writer);
    buffer.write(b"um\ndois\ntres\n");
    let shown = buffer.log().unwrap();
    let mut reader = shown.reader();
    assert_eq!(reader.sync(Some(shown)), 2);
    assert_eq!(buffer.writer().id().index(), 2);
    let mut text = String::new();
    let mut walk = reader.iter_unsync();
    while let Some(piece) = walk.next() {
        text.push_str(piece.as_str());
        if piece.newline() {
            text.push('\n');
        }
    }
    assert_eq!(text, "um\ndois\ntres\n");
    buffer.finish();
    assert_eq!(log.len(), 2);
}
