use anstyle_parse::{Parser, Perform};
use std::cell::RefCell;
use std::ops::Range;
use std::rc::Rc;
use tush::log::{
    LogBufferAny, LogBufferWriter, LogChunk, LogReader, LogReaderIter, LogRegion, LogWriterId,
    LogWriterRef, SinkView, LOG_CHUNK_SIZE, LOG_LINE_SIZE,
};

/// A log shared between the writers and readers of one test.
#[derive(Clone)]
struct Log(Rc<RefCell<tush::log::Log>>);

impl Log {
    fn new(capacity: usize) -> Self {
        Log(Rc::new(RefCell::new(tush::log::Log::new(capacity))))
    }

    /// A writer of its own onto this log.
    fn writer(&self) -> Writer {
        Writer {
            id: self.0.borrow_mut().next_writer_id(),
            log: self.clone(),
        }
    }

    fn reader(&self) -> Reader {
        Reader {
            reader: self.0.borrow().reader(),
            log: Some(self.clone()),
        }
    }

    fn reader_into(&self, reader: &mut Reader) {
        let same = reader
            .log
            .as_ref()
            .is_some_and(|log| Rc::ptr_eq(&log.0, &self.0));
        self.0.borrow().reader_into(&mut reader.reader, same);
        reader.log = Some(self.clone());
    }
}

/// A writer that takes hold of the log for as long as one call.
struct Writer {
    log: Log,
    id: LogWriterId,
}

impl LogBufferWriter for Writer {
    fn sink(&self) -> SinkView {
        unreachable!()
    }

    fn wf(&self) -> bool {
        true
    }

    fn chunk(&mut self) -> LogChunk {
        LogWriterRef::new(Some(&mut self.log.0.borrow_mut()), self.id).chunk()
    }

    fn recycle(&mut self, chunk: LogChunk) {
        LogWriterRef::new(Some(&mut self.log.0.borrow_mut()), self.id).recycle(chunk)
    }

    fn push_chunk(&mut self, chunk: &mut LogChunk) -> bool {
        LogWriterRef::new(Some(&mut self.log.0.borrow_mut()), self.id).push_chunk(chunk)
    }

    fn set_partial(&mut self, text: &str) {
        LogWriterRef::new(Some(&mut self.log.0.borrow_mut()), self.id).set_partial(text)
    }

    fn clear_partial(&mut self) {
        LogWriterRef::new(Some(&mut self.log.0.borrow_mut()), self.id).clear_partial()
    }
}

/// A buffer writing into a shared log.
type LogBuffer = LogBufferAny<Writer>;

/// A reader and the log it follows.
struct Reader {
    reader: LogReader,
    log: Option<Log>,
}

impl Reader {
    fn sync(&mut self) -> usize {
        match &self.log {
            Some(log) => self.reader.sync(Some(&log.0.borrow())),
            None => self.reader.sync(None),
        }
    }

    /// Let go of the log, as if it had been dropped.
    fn forget(&mut self) {
        self.log = None;
    }
}

/// A piece of output, as a walk gives it.
#[derive(Clone, PartialEq, Debug)]
struct Piece {
    text: String,
    newline: bool,
    index: usize,
}

/// Everything a walk has to give.
fn walk(mut iter: LogReaderIter<'_>) -> Vec<Piece> {
    let mut out = Vec::new();
    while let Some(piece) = iter.next() {
        out.push(Piece {
            text: piece.as_str().to_string(),
            newline: piece.newline(),
            index: piece.index(),
        });
    }
    out
}

/// Fetch, then walk.
fn walk_synced(reader: &mut Reader) -> Vec<Piece> {
    let log = reader.log.clone();
    match log {
        Some(log) => walk(reader.reader.iter_sync(Some(&log.0.borrow()))),
        None => walk(reader.reader.iter_sync(None)),
    }
}

fn walk_unsynced(reader: &Reader) -> Vec<Piece> {
    walk(reader.reader.iter_unsync())
}

/// A log with `lines` lines already in it.
///
/// Written in one go on purpose: a buffer hands its chunk over at the end
/// of every call, so writing line by line would put each on a chunk of
/// its own and there would be no packing to see. One call is the burst
/// case, and two lines to a chunk makes the counts below predictable.
fn log_with(capacity: usize, lines: usize) -> Log {
    let log = Log::new(capacity);
    let mut buffer = LogBuffer::new(log.writer());
    let text: String = (0..lines).map(|n| format!("linha {n}\n")).collect();
    buffer.write(text.as_bytes());
    buffer.finish();
    log
}

/// What each chunk a reader holds is: who wrote it and how long it is.
fn texts(reader: &Reader) -> Vec<String> {
    (0..reader.reader.len())
        .map(|n| reader.reader.get(n))
        .filter(|chunk| !chunk.is_empty())
        .map(|chunk| format!("{}:{}", chunk.writer().index(), chunk.len()))
        .collect()
}

/// What a renderer does, collected instead of printed.
fn render(reader: &Reader) -> String {
    let mut out = String::new();
    for piece in walk_unsynced(reader) {
        out.push_str(&piece.text);
        if piece.newline {
            out.push('\n');
        }
    }
    out
}

#[test]
fn iter_gives_back_the_lines_that_went_in() {
    let log = Log::new(16);
    let mut buffer = LogBuffer::new(log.writer());
    buffer.write(b"um\ndois\ntres\n");

    let mut reader = log.reader();
    reader.sync();
    assert_eq!(render(&reader), "um\ndois\ntres\n");
}

/// A line the chunk size cut in two arrives as two pieces, and the first
/// says not to break — so a `print!` puts it back together with nothing
/// buffered.
#[test]
fn iter_does_not_break_a_line_the_room_cut() {
    let log = Log::new(16);
    let mut buffer = LogBuffer::new(log.writer());
    let longa = "L".repeat(LOG_CHUNK_SIZE + 40);
    buffer.write(format!("{longa}\ndepois\n").as_bytes());

    let mut reader = log.reader();
    reader.sync();

    // More pieces than lines, and still the same text.
    assert!(walk_unsynced(&reader).len() > 2);
    assert_eq!(render(&reader), format!("{longa}\ndepois\n"));
    // Exactly one piece says "carry on".
    assert_eq!(
        walk_unsynced(&reader).iter().filter(|p| !p.newline).count(),
        1
    );
}

/// With another process's chunk between the halves of a split line, a
/// sequential render cannot have both. It breaks the split line rather
/// than letting the stranger's line run into the middle of it — the
/// second would lose a line, the first only wraps one.
#[test]
fn iter_breaks_a_split_line_rather_than_splicing_another_writers_into_it() {
    let log = Log::new(16);
    let mut longo = LogBuffer::new(log.writer());
    let mut curto = LogBuffer::new(log.writer());

    let grande = "L".repeat(LOG_CHUNK_SIZE + 40);
    // Written in pieces so the other writer can land between them.
    longo.write(grande.as_bytes());
    curto.write(b"do outro\n");
    longo.write(b"FIM\n");

    let mut reader = log.reader();
    reader.sync();

    let saida = render(&reader);
    assert!(
        saida.contains("do outro\n"),
        "the other writer's line was swallowed: {saida:?}"
    );
    assert!(
        !saida.contains("Ldo outro"),
        "another writer's line ran into the middle of a split one"
    );
}

/// The last piece of the newest chunk has nothing after it to carry the
/// line on, so it ends one — a line still being written shows rather than
/// waiting for its newline.
///
/// It takes more than the line buffer to get here: a shorter unterminated
/// line never leaves the buffer at all, so the log would have nothing.
#[test]
fn iter_closes_the_line_at_the_end_of_what_it_has() {
    let log = Log::new(64);
    let mut buffer = LogBuffer::new(log.writer());
    buffer.write(&"m".repeat(LOG_LINE_SIZE + 8).into_bytes());

    let mut reader = log.reader();
    reader.sync();
    assert!(!reader.reader.is_empty(), "nothing reached the log");
    assert!(
        walk_unsynced(&reader)
            .last()
            .is_some_and(|piece| piece.newline),
        "the last piece left the line hanging"
    );
}

/// The index says which chunk a piece came from, so a view can group them
/// — pieces of one chunk share it, and it only ever goes up.
#[test]
fn iter_reports_which_chunk_each_piece_came_from() {
    let log = Log::new(16);
    let mut buffer = LogBuffer::new(log.writer());
    // Four lines pack two to a chunk.
    buffer.write(b"um\ndois\ntres\nquatro\n");

    let mut reader = log.reader();
    reader.sync();

    let seen: Vec<_> = walk_unsynced(&reader)
        .into_iter()
        .map(|piece| (piece.index, piece.text))
        .collect();
    assert_eq!(
        seen,
        [
            (0, "um".to_string()),
            (0, "dois".to_string()),
            (1, "tres".to_string()),
            (1, "quatro".to_string()),
        ]
    );
}

/// `iter_unsync` shows only what has been fetched, so a reader that never
/// synced has nothing — which is the whole difference between the two.
#[test]
fn iter_unsync_shows_only_what_was_already_fetched() {
    let log = Log::new(16);
    let mut buffer = LogBuffer::new(log.writer());
    buffer.write(b"algo\n");
    assert_eq!(walk_unsynced(&log.reader()).len(), 0);
}

/// And `iter_sync` fetches first, so it never needs syncing by hand.
#[test]
fn iter_sync_fetches_before_it_walks() {
    let log = Log::new(16);
    let mut buffer = LogBuffer::new(log.writer());
    buffer.write(b"um\ndois\n");

    let mut reader = log.reader();
    assert_eq!(
        walk_synced(&mut reader).len(),
        2,
        "it walked without fetching"
    );

    // And it keeps up without being asked again.
    buffer.write(b"tres\n");
    assert_eq!(walk_synced(&mut reader).len(), 3);
    assert_eq!(render(&reader), "um\ndois\ntres\n");
}

#[test]
fn a_new_reader_is_empty_and_behind() {
    let log = log_with(16, 4);
    let reader = log.reader();
    assert_eq!(reader.reader.seen(), 0);
    assert!(texts(&reader).is_empty(), "it looked before being asked");
}

/// The first sync picks up the history that was already there — a view
/// opened on a process that has been running shows what it has said.
#[test]
fn the_first_sync_takes_what_was_already_there() {
    let log = log_with(16, 4);
    let mut reader = log.reader();

    // Two lines per chunk, so four lines is two chunks.
    assert_eq!(reader.sync(), 2);
    assert_eq!(reader.reader.len(), 2);
    assert_eq!(reader.reader.seen(), 2);
}

/// And nothing costs nothing: with no change there is no lock and no
/// copy, which is what makes polling a quiet log cheap.
#[test]
fn syncing_twice_over_takes_nothing_the_second_time() {
    let log = log_with(16, 4);
    let mut reader = log.reader();
    reader.sync();

    assert_eq!(reader.sync(), 0);
    assert_eq!(reader.sync(), 0);
    assert_eq!(reader.reader.len(), 2, "it copied something anyway");
}

/// Only the delta crosses, not the whole ring.
#[test]
fn a_later_sync_takes_only_what_arrived_since() {
    let log = log_with(16, 8);
    let mut reader = log.reader();
    assert_eq!(reader.sync(), 4);

    let mut buffer = LogBuffer::new(log.writer());
    buffer.write(b"nova\noutra\n");

    assert_eq!(reader.sync(), 1, "it re-copied chunks it already had");
    assert_eq!(reader.reader.len(), 5);
}

/// Caught up, a reader holds exactly what the log holds. That is the
/// whole point of the two rings being the same size.
#[test]
fn caught_up_it_mirrors_the_log() {
    let log = log_with(8, 6);
    let mut reader = log.reader();
    reader.sync();

    // Six lines is three chunks, all of which fit — so what it holds is
    // everything the log ever pushed, which is what mirroring means while
    // nothing has been evicted yet.
    assert_eq!(reader.reader.seen(), 3);
    assert_eq!(reader.reader.len(), reader.reader.seen() as usize);
    assert_eq!(reader.reader.capacity(), 8);
}

/// Behind by more than the ring is long, the rest is gone from the log
/// too — so the sync takes the whole ring and the reader mirrors it
/// again. There is no hole, because there is nothing the log still has
/// that the reader lacks.
#[test]
fn falling_far_behind_leaves_it_mirroring_the_newest() {
    let log = Log::new(4);
    let mut reader = log.reader();

    let mut buffer = LogBuffer::new(log.writer());
    // Far more lines than the ring can hold, in one burst.
    let text: String = (0..200).map(|n| format!("linha {n}\n")).collect();
    buffer.write(text.as_bytes());

    let taken = reader.sync();
    assert_eq!(taken, 4, "it should take the ring, not the backlog");
    assert_eq!(reader.reader.len(), 4);
    assert_eq!(reader.reader.seen(), 100, "the count is of what the log pushed");
}

#[test]
fn an_empty_reader_is_one_whose_log_is_not_there() {
    let mut reader = Reader {
        reader: LogReader::empty(4),
        log: None,
    };
    assert!(reader.reader.is_empty());
    assert_eq!(reader.reader.capacity(), 4);
    assert_eq!(reader.sync(), 0, "there is nothing to sync from");
}

#[test]
fn a_reused_reader_picks_up_the_log_it_is_given() {
    let mut reader = Reader {
        reader: LogReader::empty(16),
        log: None,
    };
    let log = log_with(8, 6);
    log.reader_into(&mut reader);
    reader.sync();

    assert_eq!(
        render(&reader),
        (0..6).map(|n| format!("linha {n}\n")).collect::<String>()
    );
    assert_eq!(reader.reader.seen(), 3);
}

/// A version is a token and not a clock: two logs reach the same value by
/// having had the same amount happen to them. A reader carrying one log's
/// value onto another would decide its first sync had nothing to do.
#[test]
fn a_reused_reader_does_not_trust_the_old_logs_version() {
    let um = Log::new(8);
    let mut escritor = LogBuffer::new(um.writer());
    escritor.write(b"aaa\n");
    let dois = Log::new(8);
    let mut outro = LogBuffer::new(dois.writer());
    outro.write(b"bbb\n");

    let mut reader = um.reader();
    reader.sync();
    let mut probe = dois.reader();
    probe.sync();
    assert_eq!(
        reader.reader.version(),
        probe.reader.version(),
        "the premise: the two logs are at the same version"
    );

    dois.reader_into(&mut reader);
    assert_eq!(reader.sync(), 1, "it took the new log to be unchanged");
    assert_eq!(render(&reader), "bbb\n");
}

/// It follows the log it is on and keeps the memory it built: a reader
/// moved to a smaller log holds less and gives nothing back, which is the
/// whole point of reusing one.
#[test]
fn a_reused_reader_takes_the_logs_size_and_keeps_its_own() {
    let grande = Log::new(16);
    let mut reader = grande.reader();
    assert_eq!(reader.reader.capacity(), 16);

    let pequeno = Log::new(4);
    pequeno.reader_into(&mut reader);
    assert_eq!(reader.reader.capacity(), 4);
    assert_eq!(reader.reader.max_capacity(), 16, "it gave its slots back");

    let mut buffer = LogBuffer::new(pequeno.writer());
    let text: String = (0..200).map(|n| format!("linha {n}\n")).collect();
    buffer.write(text.as_bytes());
    reader.sync();

    // Against a reader that only ever saw this log: same contents means
    // nothing of the old one survived and there is no gap in the new.
    let mut fresh = pequeno.reader();
    fresh.sync();
    assert_eq!(reader.reader.len(), 4);
    assert_eq!(render(&reader), render(&fresh));
}

/// The copy carries the shape, not just the bytes: how many pieces, how
/// long, and who wrote them.
#[test]
fn the_copy_carries_the_shape() {
    let log = Log::new(16);
    let mut um = LogBuffer::new(log.writer());
    let mut dois = LogBuffer::new(log.writer());
    um.write(b"aa\nbb\n");
    dois.write(b"cccc\n");

    let mut reader = log.reader();
    reader.sync();

    let chunks: Vec<_> = (0..reader.reader.len())
        .map(|n| reader.reader.get(n))
        .filter(|c| !c.is_empty())
        .collect();
    assert_eq!(chunks.len(), 2);
    assert_eq!((chunks[0].count(), chunks[0].len()), (2, 4));
    // Numbered from one: zero is the notes.
    assert_eq!(chunks[0].writer().index(), 1);
    assert_eq!((chunks[1].count(), chunks[1].len()), (1, 4));
    assert_eq!(chunks[1].writer().index(), 2);
}

/// A reader does not hold its log open: a view left behind on a unit that
/// is gone stops changing instead of keeping its memory alive.
#[test]
fn a_reader_does_not_keep_the_log_alive() {
    let log = log_with(16, 4);
    let mut reader = log.reader();
    reader.sync();
    let before = reader.reader.len();

    drop(log);
    reader.forget();
    assert_eq!(reader.sync(), 0);
    assert_eq!(reader.reader.len(), before, "it lost what it had already copied");
}

/// The lines a window gives back, joined out of its pieces.
///
/// A split line arrives as several pieces and is one line here, which is
/// the whole point of counting by `newline` rather than by piece. A
/// trailing run with no newline is kept too — a window the ceiling cut
/// part way through a line is supposed to show the tail of it.
fn window(reader: &Reader, lines: Range<usize>, max_chunks: usize) -> Vec<String> {
    let mut out = Vec::new();
    let mut line = String::new();
    for piece in walk(reader.reader.iter_unsync().tail_range(lines, max_chunks)) {
        line.push_str(&piece.text);
        if piece.newline {
            out.push(std::mem::take(&mut line));
        }
    }
    if !line.is_empty() {
        out.push(line);
    }
    out
}

/// The lines of a region, copied into a fresh buffer.
fn region(reader: &Reader, lines: Range<usize>) -> Vec<String> {
    columns(reader, lines, 0..usize::MAX)
}

/// The lines of a region, windowed to `columns`.
///
/// Text alone: what a line is stamped with has its own tests, and every
/// assertion here is about where the window landed.
fn columns(reader: &Reader, lines: Range<usize>, columns: Range<usize>) -> Vec<String> {
    let mut out = Vec::new();
    reader.reader.copy_region(LogRegion::new(lines, columns), &mut out);
    out.into_iter().map(|line| line.text).collect()
}

/// The lines are counted back from the newest, and come out oldest first
/// — the order a pane draws them in.
#[test]
fn copy_region_takes_the_lines_it_is_given() {
    let log = log_with(64, 10);
    let mut reader = log.reader();
    reader.sync();

    assert_eq!(region(&reader, 0..3), ["linha 7", "linha 8", "linha 9"]);
    assert_eq!(region(&reader, 2..4), ["linha 6", "linha 7"]);
    assert_eq!(region(&reader, 2..20).len(), 8, "it stops at what there is");
}

/// The same window the walk it is built on gives, so the two cannot
/// disagree about where a line begins.
#[test]
fn copy_region_is_the_tail_walk_with_the_columns_taken_off() {
    let log = log_with(64, 10);
    let mut reader = log.reader();
    reader.sync();

    assert_eq!(region(&reader, 1..5), window(&reader, 1..5, usize::MAX));
}

/// The window is over the line, in columns, and reaching past either end
/// of the text simply gets what is there.
#[test]
fn copy_region_windows_the_columns() {
    let log = log_with(64, 2);
    let mut reader = log.reader();
    reader.sync();

    assert_eq!(columns(&reader, 0..2, 0..5), ["linha", "linha"]);
    assert_eq!(columns(&reader, 0..2, 6..11), ["0", "1"]);
    assert_eq!(columns(&reader, 0..2, 99..104), ["", ""]);
}

/// Columns, not bytes — a byte offset would cut characters in half, and a
/// character straddling an edge is left out rather than halved.
#[test]
fn the_column_window_counts_columns() {
    let log = Log::new(64);
    let mut buffer = LogBuffer::new(log.writer());
    buffer.write("coração\n".as_bytes());
    let mut reader = log.reader();
    reader.sync();

    assert_eq!(columns(&reader, 0..1, 0..4), ["cora"]);
    assert_eq!(columns(&reader, 0..1, 4..7), ["ção"]);
}

/// Whatever a terminal reads as a command rather than as text takes no
/// columns: a window of ten is ten visible characters, however many bytes
/// of colour are threaded through them.
#[test]
fn an_escape_sequence_takes_no_columns() {
    let log = Log::new(64);
    let mut buffer = LogBuffer::new(log.writer());
    buffer.write("\u{1b}[31mvermelho\u{1b}[0m normal\n".as_bytes());
    let mut reader = log.reader();
    reader.sync();

    let line = &columns(&reader, 0..1, 0..10)[0];
    assert_eq!(visible(line), "vermelho n");
}

/// Half a sequence is worse than none: a terminal handed one would read
/// the parameters of the next as text, or sit in a colour nothing closes.
#[test]
fn a_window_never_cuts_a_sequence_in_half() {
    let log = Log::new(64);
    let mut buffer = LogBuffer::new(log.writer());
    buffer.write("ab\u{1b}[1;32mcd\n".as_bytes());
    let mut reader = log.reader();
    reader.sync();

    // The window ends inside the run the sequence sits in.
    let line = &columns(&reader, 0..1, 0..3)[0];
    assert!(line.contains("\u{1b}[1;32m"), "{line:?}");
    assert_eq!(visible(line), "abc");
}

/// What colours the window is usually to the left of it, so a sequence
/// before `column_start` is kept while the text there is dropped —
/// otherwise scrolling right hands the pane the wrong colour.
#[test]
fn a_sequence_left_of_the_window_is_kept() {
    let log = Log::new(64);
    let mut buffer = LogBuffer::new(log.writer());
    buffer.write("\u{1b}[31mabcdef\n".as_bytes());
    let mut reader = log.reader();
    reader.sync();

    let line = &columns(&reader, 0..1, 3..6)[0];
    assert_eq!(line, "\u{1b}[31mdef");
}

/// The state that matters most, because a chunk is [`LOG_CHUNK_SIZE`] and
/// a coloured line runs past one constantly: a walk that forgot it was
/// mid sequence at the boundary would count `31m` as three columns of
/// text.
#[test]
fn a_sequence_split_across_chunks_is_still_one_sequence() {
    let log = Log::new(4096);
    let mut buffer = LogBuffer::new(log.writer());
    let head = "a".repeat(LOG_CHUNK_SIZE - 2);
    let line = format!("{head}\u{1b}[31mbbb\n");
    buffer.write(line.as_bytes());
    let mut reader = log.reader();
    reader.sync();

    let back = &columns(&reader, 0..1, 0..usize::MAX)[0];
    assert!(back.contains("\u{1b}[31m"), "the sequence arrived broken");
    assert_eq!(visible(back).len(), head.len() + 3);
}

/// A device control string carries a payload that is not text either —
/// sixel, a `tmux` passthrough — and the whole of it takes no columns.
///
/// This is what walking the real grammar buys over knowing `CSI` and
/// `OSC`: `ESC P` opens a string, and a walk that read it as a two
/// character sequence would count the payload as six columns of text.
#[test]
fn a_device_control_string_takes_no_columns() {
    let log = Log::new(64);
    let mut buffer = LogBuffer::new(log.writer());
    buffer.write("ab\u{1b}Pq#0;2\u{1b}\\cd\n".as_bytes());
    let mut reader = log.reader();
    reader.sync();

    assert_eq!(visible(&columns(&reader, 0..1, 0..usize::MAX)[0]), "abcd");
}

/// A sequence nothing closed is the line's own problem and not the next
/// line's — the walk starts each one over.
#[test]
fn an_unterminated_sequence_does_not_reach_the_next_line() {
    let log = Log::new(64);
    let mut buffer = LogBuffer::new(log.writer());
    buffer.write("\u{1b}[31maberto\nseguinte\n".as_bytes());
    let mut reader = log.reader();
    reader.sync();

    assert_eq!(columns(&reader, 0..2, 0..4), ["\u{1b}[31maber", "segu"]);
}

/// Whether a terminal would show what it was fed.
#[derive(Default)]
struct Shown(Option<char>);

impl Perform for Shown {
    fn print(&mut self, character: char) {
        self.0 = Some(character);
    }
}

/// The text a terminal would actually show, for the assertions above.
fn visible(line: &str) -> String {
    let mut parser: Parser = Parser::default();
    let mut out = String::new();
    let bytes = line.as_bytes();
    for (index, character) in line.char_indices() {
        let mut shown = Shown::default();
        for byte in &bytes[index..index + character.len_utf8()] {
            parser.advance(&mut shown, *byte);
        }
        if shown.0.is_some() {
            out.push(character);
        }
    }
    out
}

/// A line the chunk size split arrives as several pieces, so the column
/// window has to be over the line rather than over each piece of it.
#[test]
fn the_column_window_spans_a_split_line() {
    let log = Log::new(64);
    let mut buffer = LogBuffer::new(log.writer());
    let longa: String = (0..LOG_CHUNK_SIZE * 2)
        .map(|n| char::from(b'a' + (n % 26) as u8))
        .collect();
    buffer.write(format!("{longa}\n").as_bytes());
    let mut reader = log.reader();
    reader.sync();

    // Far past the first chunk, so only a later piece can answer it.
    let from = LOG_CHUNK_SIZE + 10;
    assert_eq!(
        columns(&reader, 0..1, from..from + 4),
        [&longa[from..from + 4]]
    );
}

/// A rectangle is bounded in both directions, which is the whole reason
/// for asking in one: this is what a pane costs, whatever is behind it.
#[test]
fn a_region_costs_its_own_size_and_not_the_logs() {
    let log = Log::new(4096);
    let mut buffer = LogBuffer::new(log.writer());
    let wide = "z".repeat(4000);
    let text: String = (0..500).map(|_| format!("{wide}\n")).collect();
    buffer.write(text.as_bytes());
    let mut reader = log.reader();
    reader.sync();

    let mut out = Vec::new();
    reader.reader.copy_region(LogRegion::new(2..20, 0..512), &mut out);
    assert_eq!(out.len(), 18);
    let bytes: usize = out.iter().map(|line| line.text.len()).sum();
    assert!(bytes <= 18 * 512, "a pane's worth, not a log's: {bytes}");
}

/// A range beginning past everything held gives nothing rather than
/// clamping back onto the oldest lines.
#[test]
fn a_region_past_the_oldest_line_is_empty() {
    let log = log_with(64, 4);
    let mut reader = log.reader();
    reader.sync();
    assert!(region(&reader, 10..20).is_empty());
}

/// The buffer is filled from the start and truncated, so a caller that
/// keeps it does not pay for a pane's worth of strings on every call.
#[test]
fn copy_region_refills_the_buffer_it_is_given() {
    let log = log_with(64, 10);
    let mut reader = log.reader();
    reader.sync();

    let mut out = Vec::new();
    reader.reader.copy_region(LogRegion::new(0..6, 0..usize::MAX), &mut out);
    assert_eq!(out.len(), 6);

    reader.reader.copy_region(LogRegion::new(0..2, 0..usize::MAX), &mut out);
    let texts: Vec<&str> = out.iter().map(|line| line.text.as_str()).collect();
    assert_eq!(
        texts,
        ["linha 8", "linha 9"],
        "the old lines are gone, not appended"
    );
}

/// A reader holding `lines` numbered lines, all of them still in the ring.
fn tail_reader(lines: usize) -> Reader {
    let log = log_with(64, lines);
    let mut reader = log.reader();
    reader.sync();
    reader
}

#[test]
fn tail_gives_back_the_newest_lines_oldest_first() {
    let reader = tail_reader(10);
    assert_eq!(
        window(&reader, 0..3, usize::MAX),
        ["linha 7", "linha 8", "linha 9"]
    );
}

/// `tail` is the range starting at zero, and has to stay that way rather
/// than becoming a second implementation of the same walk.
#[test]
fn tail_is_tail_range_from_zero() {
    let reader = tail_reader(10);
    let by_range: Vec<_> = walk(reader.reader.iter_unsync().tail_range(0..4, 8))
        .into_iter()
        .map(|p| p.text)
        .collect();
    let by_tail: Vec<_> = walk(reader.reader.iter_unsync().tail(4, 8))
        .into_iter()
        .map(|p| p.text)
        .collect();
    assert_eq!(by_range, by_tail);
}

/// Narrowing composes with the fetching walk too — which is the reason
/// these live on the iterator rather than on the reader.
#[test]
fn a_window_composes_with_the_syncing_walk() {
    let log = log_with(64, 6);
    let mut reader = log.reader();

    // Never synced, so the unsynced walk has nothing while the syncing
    // one fetches first and then narrows.
    assert_eq!(walk(reader.reader.iter_unsync().tail(2, usize::MAX)).len(), 0);
    let held = log.0.borrow();
    let lines: Vec<String> = walk(reader.reader.iter_sync(Some(&held)).tail(2, usize::MAX))
        .into_iter()
        .map(|p| p.text)
        .collect();
    assert_eq!(lines, ["linha 4", "linha 5"]);
}

/// The range counts distance from the end, so a start past zero is a view
/// scrolled up: the lines before the ones `0..n` would have given.
#[test]
fn a_range_that_starts_past_zero_skips_the_newest_lines() {
    let reader = tail_reader(10);
    assert_eq!(window(&reader, 0..2, usize::MAX), ["linha 8", "linha 9"]);
    assert_eq!(window(&reader, 2..4, usize::MAX), ["linha 6", "linha 7"]);
    assert_eq!(window(&reader, 1..3, usize::MAX), ["linha 7", "linha 8"]);
}

/// Asking for more than there is gives what there is. A view cannot know
/// how much a log holds before it asks, so this is the ordinary case for
/// a process that has just started, not an edge one.
#[test]
fn asking_for_more_lines_than_exist_gives_all_of_them() {
    let reader = tail_reader(3);
    assert_eq!(
        window(&reader, 0..50, usize::MAX),
        ["linha 0", "linha 1", "linha 2"]
    );
}

/// And a range that begins past everything held gives nothing, rather
/// than clamping back onto the oldest lines — a view scrolled above the
/// top of the history is showing nothing.
#[test]
fn a_range_that_starts_past_the_oldest_line_is_empty() {
    let reader = tail_reader(3);
    assert!(window(&reader, 10..20, usize::MAX).is_empty());
}

#[test]
fn an_empty_range_walks_nothing() {
    let reader = tail_reader(10);
    assert_eq!(walk(reader.reader.iter_unsync().tail_range(0..0, usize::MAX)).len(), 0);
    assert_eq!(walk(reader.reader.iter_unsync().tail_range(5..5, usize::MAX)).len(), 0);
    assert_eq!(walk(reader.reader.iter_unsync().tail(0, usize::MAX)).len(), 0);
}

/// An unbounded window is the plain walk — the narrowing must not be a
/// second way of reading the same chunks.
#[test]
fn an_unbounded_window_is_the_plain_walk() {
    let reader = tail_reader(10);
    let whole = walk_unsynced(&reader);
    let tail = walk(reader.reader.iter_unsync().tail(usize::MAX, usize::MAX));
    assert_eq!(whole, tail);
}

/// The ceiling bounds the backwards walk, so a window can come back short
/// — which is the point: it is a render budget, not a request that can
/// fail. Two lines to a chunk here, so two chunks is four lines.
#[test]
fn the_chunk_ceiling_truncates_the_window() {
    let reader = tail_reader(20);
    assert_eq!(
        window(&reader, 0..10, 2),
        ["linha 16", "linha 17", "linha 18", "linha 19"]
    );
    // Without the ceiling the same ask reaches all ten.
    assert_eq!(window(&reader, 0..10, usize::MAX).len(), 10);
}

/// A line the chunk size cut in two is still one line to count back over,
/// and the window hands back every piece of it.
#[test]
fn a_split_line_counts_once_and_comes_back_whole() {
    let log = Log::new(64);
    let mut buffer = LogBuffer::new(log.writer());
    let longa = "L".repeat(LOG_CHUNK_SIZE + 40);
    buffer.write(format!("antes\n{longa}\ndepois\n").as_bytes());

    let mut reader = log.reader();
    reader.sync();

    assert_eq!(
        window(&reader, 0..2, usize::MAX),
        [longa.clone(), "depois".to_owned()]
    );
    assert_eq!(window(&reader, 1..2, usize::MAX), [longa]);
    assert_eq!(window(&reader, 2..3, usize::MAX), ["antes"]);
}

/// Hitting the ceiling part way through a line gives the tail of it, the
/// same shape a log that had discarded the rest would give.
#[test]
fn the_ceiling_can_land_inside_a_line() {
    let log = Log::new(64);
    let mut buffer = LogBuffer::new(log.writer());
    let longa = "L".repeat(LOG_CHUNK_SIZE * 3);
    buffer.write(format!("{longa}\n").as_bytes());

    let mut reader = log.reader();
    reader.sync();

    let cortada = window(&reader, 0..1, 2);
    assert_eq!(cortada.len(), 1);
    let cortada = &cortada[0];
    assert!(
        cortada.len() < longa.len() && longa.ends_with(cortada.as_str()),
        "expected the tail of the line, got {} of {}",
        cortada.len(),
        longa.len()
    );
}

/// The index a piece reports is its place in the reader's window, so a
/// narrowed walk has to report the same numbers the plain one does rather
/// than counting from wherever it happened to start.
#[test]
fn a_window_reports_the_indexes_of_the_whole_reader() {
    let reader = tail_reader(10);
    let last = walk_unsynced(&reader)
        .last()
        .expect("there is output")
        .index;
    assert_eq!(
        walk(reader.reader.iter_unsync().tail(1, usize::MAX))
            .into_iter()
            .map(|p| p.index)
            .last(),
        Some(last)
    );
}

// ---- what is being written ------------------------------------------

/// Lines still being written come after the history, the one written to
/// longest ago first, and go once they end.
#[test]
fn lines_being_written_come_last() {
    let log = Log::new(16);
    let mut um = LogBuffer::new(log.writer());
    let mut dois = LogBuffer::new(log.writer());
    let mut tres = LogBuffer::new(log.writer());
    um.write(b"pronta\n");
    dois.write(b"dois...");
    um.write(b"um...");
    tres.write(b"tres...");
    dois.write(b"mais");

    let mut reader = log.reader();
    reader.sync();
    assert_eq!(reader.reader.partials(), 3);
    assert_eq!(
        region(&reader, 0..10),
        ["pronta", "um...", "tres...", "dois...mais"]
    );
    assert_eq!(region(&reader, 0..1), ["dois...mais"]);
    assert_eq!(region(&reader, 1..3), ["um...", "tres..."]);

    um.write(b"\n");
    tres.finish();
    reader.sync();
    assert_eq!(region(&reader, 0..10), ["pronta", "um...", "dois...mais"]);
}

/// Only so many lines at once are shown as being written: a further writer
/// takes the place of the one that was written to longest ago.
#[test]
fn only_so_many_lines_are_being_written() {
    let log = Log::new(16);
    let mut buffers: Vec<LogBuffer> = (0..9).map(|_| LogBuffer::new(log.writer())).collect();
    for (n, buffer) in buffers.iter_mut().enumerate() {
        buffer.write(format!("{n}").as_bytes());
    }
    let mut reader = log.reader();
    reader.sync();
    assert_eq!(
        region(&reader, 0..20),
        ["1", "2", "3", "4", "5", "6", "7", "8"]
    );
}

/// A version moves with everything that happens to a log, and with nothing
/// else.
#[test]
fn a_version_moves_with_the_log() {
    let log = Log::new(16);
    let mut reader = log.reader();
    reader.sync();
    assert_eq!(reader.reader.version(), 0);
    let mut buffer = LogBuffer::new(log.writer());
    buffer.write(b"algo");
    reader.sync();
    let typed = reader.reader.version();
    assert!(typed > 0);
    reader.sync();
    assert_eq!(reader.reader.version(), typed);
    buffer.write(b"\n");
    reader.sync();
    assert!(reader.reader.version() > typed);
}

// ---- whole lines ----------------------------------------------------

/// A line somebody already has goes straight in, packed with the others.
#[test]
fn whole_lines_are_packed_as_they_come() {
    let log = Log::new(16);
    {
        let mut held = log.0.borrow_mut();
        held.notes().write_line("iniciando");
        held.writer().write_lines(&["a", "b", "c"]);
    }
    let mut reader = log.reader();
    reader.sync();
    assert_eq!(render(&reader), "iniciando\na\nb\nc\n");
    assert_eq!(texts(&reader), ["0:9", "1:2", "1:1"]);
    let mut out = Vec::new();
    reader
        .reader
        .copy_region(LogRegion::new(0..9, 0..99), &mut out);
    assert!(out[0].writer.is_note());
    assert!(!out[1].writer.is_note());
}

/// A writer is shared as itself and forked as another.
#[test]
fn a_writer_is_shared_or_forked() {
    let mut log = tush::log::Log::new(4);
    let mut writer = log.writer();
    assert_eq!(writer.id().index(), 1);
    assert_eq!(writer.share().id().index(), 1);
    assert_eq!(writer.fork().id().index(), 2);
    writer.fork().write_line("do outro");
    writer.notes().write_line("nota");
    assert_eq!(log.pushed(), 2);
    assert_eq!(log.get(0).writer().index(), 3);
    assert_eq!(log.get(1).writer(), LogWriterId::notes());
    assert_eq!((log.len(), log.capacity()), (2, 4));
}

/// A log is sized in bytes, by whole chunks, and is never of none.
#[test]
fn a_log_is_sized_in_chunks() {
    assert_eq!(tush::log::Log::capacity_for_bytes(0), 1);
    assert_eq!(tush::log::Log::capacity_for_bytes(1023), 3);
    assert_eq!(tush::log::Log::with_bytes(4096).capacity(), 16);
}

/// A log that does not read escape sequences counts them as they stand.
#[test]
fn sequences_may_be_taken_as_text() {
    let log = Log::new(16);
    let mut buffer = LogBuffer::new(log.writer());
    buffer.write("\u{1b}[31mabc\n".as_bytes());
    let mut reader = log.reader();
    reader.sync();
    let mut out = Vec::new();
    let region = LogRegion::new(0..1, 4..6).with_parse_ansi(false);
    reader.reader.copy_region(region, &mut out);
    assert_eq!(out[0].text, "ab");
}

/// A wide character takes two columns, and one that would straddle the edge
/// is left out.
#[test]
fn a_wide_character_takes_two_columns() {
    let log = Log::new(16);
    let mut buffer = LogBuffer::new(log.writer());
    buffer.write("a漢b\n".as_bytes());
    let mut reader = log.reader();
    reader.sync();
    assert_eq!(columns(&reader, 0..1, 0..2), ["a"]);
    assert_eq!(columns(&reader, 0..1, 0..3), ["a漢"]);
    assert_eq!(columns(&reader, 0..1, 3..9), ["b"]);
}

/// Over all columns nothing is cut off: every line comes back whole, however
/// many chunks it was split over and whatever is in it, and nothing of what
/// was there before survives.
#[test]
fn over_all_columns_every_line_is_whole() {
    let log = Log::new(64);
    let mut buffer = LogBuffer::new(log.writer());
    let long = "漢字 ".repeat(LOG_CHUNK_SIZE);
    let lines = ["first", "a\u{1b}[31mred\u{1b}[0m漢", long.as_str(), ""];
    for line in lines {
        buffer.write(line.as_bytes());
        buffer.write(b"\n");
    }
    buffer.write(b"still being writ");
    let mut reader = log.reader();
    reader.sync();
    let mut out = Vec::new();
    for parse_ansi in [true, false] {
        let region = LogRegion::new(1..9, 0..usize::MAX).with_parse_ansi(parse_ansi);
        reader.reader.copy_region(region, &mut out);
        let texts: Vec<&str> = out.iter().map(|line| line.text.as_str()).collect();
        assert_eq!(texts, lines);
        let region = LogRegion::new(0..2, 0..usize::MAX).with_parse_ansi(parse_ansi);
        reader.reader.copy_region(region, &mut out);
        let texts: Vec<&str> = out.iter().map(|line| line.text.as_str()).collect();
        assert_eq!(texts, ["", "still being writ"]);
    }
}
