use tush::log::{LogBufferLine, LOG_LINE_SIZE};

/// Feed a line everything it will take, collecting what comes out of it.
fn drain(input: &[u8], eof: bool) -> Vec<(String, bool)> {
    let mut line = LogBufferLine::new();
    let mut out = Vec::new();
    let mut start = 0;
    loop {
        let taken = if eof {
            line.write_eof(&input[start..])
        } else {
            line.write(&input[start..])
        };
        start += taken;
        if line.is_ready() {
            out.push((line.as_str().to_string(), line.is_complete()));
            line.clear();
            continue;
        }
        // Not ready and taking nothing means the input is spent.
        if taken == 0 {
            // What is left over is a line the stream never terminated.
            line.seal();
            if !line.is_empty() {
                out.push((line.as_str().to_string(), line.is_complete()));
            }
            break;
        }
    }
    out
}

fn lines(input: &[u8]) -> Vec<(String, bool)> {
    drain(input, true)
}

#[test]
fn splits_on_newlines_without_storing_them() {
    assert_eq!(
        lines(b"um\ndois\ntres\n"),
        [
            ("um".into(), true),
            ("dois".into(), true),
            ("tres".into(), true)
        ]
    );
}

#[test]
fn an_empty_line_is_still_a_line() {
    assert_eq!(lines(b"\n\n"), [("".into(), true), ("".into(), true)]);
}

/// The bytes of a character that straddles two reads are held back, not
/// guessed at, so the character survives the boundary.
#[test]
fn holds_a_partial_character_back_until_it_is_whole() {
    let mut line = LogBufferLine::new();
    assert_eq!(line.write(b"ol\xc3"), 2, "the lead byte should be held");
    assert!(!line.is_ready());
    assert_eq!(line.as_str(), "ol");

    // The next read brings the rest of the character.
    assert_eq!(line.write("\u{e1}\n".as_bytes()), 3);
    assert!(line.is_complete());
    assert_eq!(line.as_str(), "olá");
}

/// At end of stream there is no next read, so a partial tail is broken
/// rather than unfinished.
#[test]
fn a_partial_character_at_eof_becomes_a_replacement() {
    assert_eq!(lines(b"ol\xc3"), [("ol\u{fffd}".into(), true)]);
}

#[test]
fn undecodable_bytes_resynchronise_on_the_next_character() {
    assert_eq!(
        lines(b"a\xff\xfeb\n"),
        [("a\u{fffd}\u{fffd}b".into(), true)]
    );
}

/// A line too long to hold whole leaves as a fragment, and the rest
/// follows as its own piece — that is the signal the packer needs.
#[test]
fn a_line_past_capacity_leaves_as_a_fragment() {
    let longa = "z".repeat(LOG_LINE_SIZE + 32);
    let out = lines(format!("{longa}\ncurta\n").as_bytes());

    assert!(out.len() >= 3, "expected a fragment, a tail and a line");
    assert!(!out[0].1, "the first piece should not read as complete");
    assert!(out.last().unwrap().1, "the last line is whole");
    assert_eq!(out.last().unwrap().0, "curta");

    // Nothing is lost or invented in the splitting.
    let rebuilt: String = out[..out.len() - 1].iter().map(|(t, _)| t.as_str()).collect();
    assert_eq!(rebuilt, longa);
}

/// A process whose last output has no trailing newline still wrote a
/// line; without sealing it would sit here unready for ever.
#[test]
fn seal_closes_an_unterminated_line() {
    let mut line = LogBufferLine::new();
    line.write(b"sem newline");
    assert!(!line.is_ready());

    line.seal();
    assert!(line.is_complete());
    assert_eq!(line.as_str(), "sem newline");
}

#[test]
fn seal_leaves_a_fragment_a_fragment() {
    let mut line = LogBufferLine::new();
    line.write("z".repeat(LOG_LINE_SIZE + 8).as_bytes());
    assert!(line.is_ready() && !line.is_complete());

    line.seal();
    assert!(!line.is_complete(), "sealing must not fake a whole line");
}

/// Bytes arriving one at a time must produce the same lines as bytes
/// arriving all at once — every multi-byte character gets cut.
///
/// Note what the caller has to do: `write` reports what it took, and
/// whatever it did not take is the head of a character it is waiting to
/// finish. Re-offering those bytes with the next one is the contract —
/// dropping them is how a caller silently mangles every accented
/// character that lands on a read boundary.
#[test]
fn byte_at_a_time_matches_all_at_once() {
    let input = "coração\nàéîõü\nplain\n".as_bytes();

    let mut line = LogBufferLine::new();
    let mut out = Vec::new();
    let mut pending: Vec<u8> = Vec::new();
    for byte in input {
        pending.push(*byte);
        let taken = line.write(&pending);
        pending.drain(..taken);
        if line.is_ready() {
            out.push(line.as_str().to_string());
            line.clear();
        }
    }
    assert!(pending.is_empty(), "bytes left unconsumed: {pending:?}");
    assert_eq!(out, ["coração", "àéîõü", "plain"]);
    assert_eq!(
        out,
        lines(input)
            .into_iter()
            .map(|(t, _)| t)
            .collect::<Vec<_>>()
    );
}

#[test]
fn clear_makes_it_writable_again() {
    let mut line = LogBufferLine::new();
    line.write(b"primeira\n");
    assert!(line.is_ready());

    line.clear();
    assert!(!line.is_ready() && line.is_empty());
    assert_eq!(line.write(b"segunda\n"), 8);
    assert_eq!(line.as_str(), "segunda");
}

/// A ready line takes nothing more: the caller has to hand it on and
/// clear it, and a loop that forgets must not silently lose bytes.
#[test]
fn a_ready_line_refuses_further_bytes() {
    let mut line = LogBufferLine::new();
    line.write(b"cheia\n");
    assert_eq!(line.write(b"mais"), 0);
    assert_eq!(line.as_str(), "cheia");
}

/// What is handed on is gone from what is pending, and the rest is not.
#[test]
fn a_line_is_consumed_from_the_front() {
    let mut line = LogBufferLine::new();
    line.write("olá mundo\n".as_bytes());
    assert_eq!(line.pending(), "olá mundo");
    line.consume("olá ".len());
    assert_eq!(line.pending(), "mundo");
    assert!(!line.is_drained());
    line.consume("mundo".len());
    assert!(line.is_drained());
    assert_eq!(line.as_str(), "olá mundo");
    assert_eq!(line.as_bytes(), "olá mundo".as_bytes());
    assert_eq!(line.len(), 10);
}
