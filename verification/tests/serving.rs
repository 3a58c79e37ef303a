use tush::app::{AppDispatch, AppUnitKey, AppUnitMap};
use tush::config::{Config, ConfigPanel, ConfigProc, ConfigUi};
use tush::error::AppError;
use tush::log::{Log, LogRegion, LOG_CHUNK_SIZE};
use tush::runner::RunnerState;
use tush::server::http::{
    decimal, dispatch_status, drawn_revision, etag, log_status, parse_number, units_status,
    unquote,
};
use tush::server::socket::SOCKET_MODE;
use tush::server::{
    default_socket_path, BindAction, BindEvent, ServerLog, ServerLogResult, ServerPrinterUnit,
    ServerState, ServerUnitResult, ServerUnits,
};
use tush::view::UnitNow;

fn proc(key: &str) -> ConfigProc {
    ConfigProc {
        key: key.to_string(),
        name: None,
        name_short: None,
        groups: vec![],
        depends: vec![],
        working_dir: None,
        log_size: None,
        parse_ansi: None,
        panel: ConfigPanel::Main,
        run: None,
        modes: None,
    }
}

fn map() -> AppUnitMap {
    AppUnitMap::new(&Config {
        log_size: None,
        parse_ansi: None,
        ui: ConfigUi::default(),
        procs: vec![proc("api"), proc("web")],
    })
    .unwrap()
}

fn now(states: &[RunnerState]) -> Vec<UnitNow> {
    states
        .iter()
        .map(|state| UnitNow {
            state: *state,
            mode: None,
            mode_short: None,
        })
        .collect()
}

fn key(index: usize) -> AppUnitKey {
    AppUnitKey::from_index(index).unwrap()
}

// ---- printing --------------------------------------------------------

fn drained(printer: &mut ServerPrinterUnit, log: Option<&Log>) -> String {
    let mut out = Vec::new();
    printer.drain(log, &mut out);
    String::from_utf8(out).unwrap()
}

#[test]
fn every_line_is_printed_with_its_unit() {
    let mut log = Log::new(64);
    let mut printer = ServerPrinterUnit::new("api".to_string(), &log);
    assert_eq!(drained(&mut printer, Some(&log)), "");
    log.writer().write_lines(&["listening", "GET /"]);
    assert_eq!(
        drained(&mut printer, Some(&log)),
        "[api] listening\n[api] GET /\n"
    );
    assert_eq!(drained(&mut printer, Some(&log)), "", "it was printed");
    log.writer().write_line("bye");
    assert_eq!(drained(&mut printer, Some(&log)), "[api] bye\n");
    assert_eq!(drained(&mut printer, None), "", "its log is gone");
}

/// A line in several pieces has its prefix once.
#[test]
fn a_long_line_has_one_prefix() {
    let mut log = Log::new(64);
    let mut printer = ServerPrinterUnit::new("api".to_string(), &log);
    let long = "x".repeat(LOG_CHUNK_SIZE * 2 + 9);
    log.writer().write_lines(&[long.as_str(), "fim"]);
    assert_eq!(
        drained(&mut printer, Some(&log)),
        format!("[api] {long}\n[api] fim\n")
    );
}

// ---- the rows --------------------------------------------------------

/// The revision moves when a row does, and a client that has it is told so.
#[test]
fn rows_are_answered_with_a_revision() {
    let mut units = ServerUnits::new(&map());
    let still = now(&[RunnerState::Stopped, RunnerState::Stopped]);
    let moved = now(&[RunnerState::Running, RunnerState::Stopped]);
    let read = |revision: u64, moved: bool| ServerUnitResult::Read { revision, moved };
    assert_eq!(units.read_units(&still, None), read(1, true));
    assert_eq!(
        units.read_units(&still, Some(1)),
        ServerUnitResult::NotModified
    );
    assert_eq!(units.read_units(&still, None), read(1, false));
    assert_eq!(units.read_units(&still, Some(9)), read(1, false));
    assert_eq!(units.read_units(&moved, Some(1)), read(2, true));
    assert_eq!(
        units.read_units(&moved, Some(2)),
        ServerUnitResult::NotModified
    );
    assert_eq!(units.rows()[0].state, RunnerState::Running);
    assert_eq!(units_status(read(1, true), true), 200);
    assert_eq!(units_status(read(1, true), false), 500);
    assert_eq!(units_status(ServerUnitResult::NotModified, true), 304);
}

// ---- the logs --------------------------------------------------------

#[test]
fn a_log_is_answered_with_a_revision() {
    let mut log = Log::new(8);
    log.writer().write_lines(&["um", "dois", "tres"]);
    let mut followed = ServerLog::new(&log);
    let region = LogRegion::new(0..2, 0..80);
    let ServerLogResult::Read(revision) = followed.read_log(Some(&log), None, region) else {
        panic!("nothing was read");
    };
    assert_eq!(revision, log.version());
    let texts: Vec<&str> = followed.lines().iter().map(|l| l.text.as_str()).collect();
    assert_eq!(texts, ["dois", "tres"]);
    assert_eq!(
        followed.read_log(Some(&log), Some(revision), region),
        ServerLogResult::NotModified
    );
    assert_eq!(
        followed.read_log(None, None, region),
        ServerLogResult::Read(revision),
        "a log that is gone reads as what was copied"
    );
    log.writer().write_line("quatro");
    assert!(matches!(
        followed.read_log(Some(&log), Some(revision), region),
        ServerLogResult::Read(_)
    ));
    assert_eq!(log_status(ServerLogResult::NotFound, true), 404);
    assert_eq!(log_status(ServerLogResult::NotModified, true), 304);
    assert_eq!(log_status(ServerLogResult::Read(1), true), 200);
    assert_eq!(log_status(ServerLogResult::Read(1), false), 500);
}

#[test]
fn a_session_is_read_by_unit() {
    let mut logs = vec![Log::new(8), Log::new(4)];
    logs[1].writer().write_line("oi");
    let slots = logs.iter().map(ServerLog::new).collect();
    let mut state = ServerState::new(&map(), slots);
    let region = LogRegion::new(0..9, 0..80);
    assert_eq!(
        state.read_log(key(1), Some(&logs[1]), None, region),
        ServerLogResult::Read(logs[1].version())
    );
    assert_eq!(state.lines(key(1)).unwrap()[0].text, "oi");
    assert!(state.lines(key(0)).unwrap().is_empty());
    assert_eq!(
        state.read_log(key(7), None, None, region),
        ServerLogResult::NotFound
    );
    assert!(state.lines(key(7)).is_none());
    let still = now(&[RunnerState::Stopped, RunnerState::Stopped]);
    assert_eq!(
        state.read_units(&still, None),
        ServerUnitResult::Read {
            revision: 1,
            moved: true
        }
    );
    assert_eq!(state.rows().len(), 2);
}

// ---- headers ---------------------------------------------------------

/// The revision an answer carries is the one read back from it.
#[test]
fn a_revision_is_read_back() {
    for revision in [0, 7, 10, 4096, u64::MAX] {
        let tag = etag(revision);
        assert_eq!(tag, format!("\"{revision}\""));
        assert_eq!(drawn_revision(&tag), Some(revision));
        assert_eq!(decimal(revision), revision.to_string());
    }
}

#[test]
fn a_header_is_a_number_with_or_without_quotes() {
    assert_eq!(drawn_revision("42"), Some(42));
    assert_eq!(drawn_revision("\"\"42\""), Some(42));
    assert_eq!(drawn_revision("+42"), Some(42));
    assert_eq!(drawn_revision("\"\""), None);
    assert_eq!(drawn_revision(""), None);
    assert_eq!(drawn_revision("-1"), None);
    assert_eq!(drawn_revision("+"), None);
    assert_eq!(drawn_revision("4 2"), None);
    assert_eq!(drawn_revision("W/\"42\""), None);
    assert_eq!(parse_number("18446744073709551615"), Some(u64::MAX));
    assert_eq!(parse_number("18446744073709551616"), None);
    assert_eq!(parse_number("99999999999999999999999"), None);
    assert_eq!(parse_number("٤"), None);
    assert_eq!(unquote("\"a\"b\""), "a\"b");
    assert_eq!(unquote("\"\"\""), "");
    for text in ["", "+", "+1", "++1", "-0", "007", "1_0", " 1", "1 "] {
        assert_eq!(parse_number(text), text.parse::<u64>().ok(), "{text:?}");
    }
}

#[test]
fn a_command_is_accepted_or_not_found() {
    assert_eq!(dispatch_status(Ok(AppDispatch::Nothing)), 202);
    assert_eq!(dispatch_status(Ok(AppDispatch::Stop)), 202);
    assert_eq!(dispatch_status(Err(AppError::NotFound)), 404);
}

// ---- the socket ------------------------------------------------------

#[test]
fn a_socket_has_one_place() {
    assert_eq!(
        default_socket_path(Some("/run/user/1000")),
        "/run/user/1000/tush.sock"
    );
    assert_eq!(default_socket_path(Some("/run/")), "/run/tush.sock");
    assert_eq!(default_socket_path(Some("")), "tush.sock");
    assert_eq!(default_socket_path(None), "/var/run/tush.sock");
    assert_eq!(SOCKET_MODE, 0o600);
    for runtime in ["/run/user/1000", "/run/", "", "a", "/"] {
        assert_eq!(
            default_socket_path(Some(runtime)),
            std::path::PathBuf::from(runtime)
                .join("tush.sock")
                .to_str()
                .unwrap()
        );
    }
}

fn bind(events: &[BindEvent]) -> Vec<BindAction> {
    let mut action = BindAction::start();
    let mut actions = vec![action];
    for event in events {
        action = action.next(*event);
        actions.push(action);
    }
    actions
}

/// A path nobody has is simply taken.
#[test]
fn a_free_path_is_taken() {
    assert_eq!(
        bind(&[BindEvent::Done, BindEvent::Failed]),
        [BindAction::Bind, BindAction::Restrict, BindAction::Done]
    );
    assert_eq!(
        bind(&[BindEvent::Failed]),
        [BindAction::Bind, BindAction::Failed]
    );
}

/// A socket left behind is taken over, and one somebody answers on is not.
#[test]
fn a_stale_socket_is_taken_over() {
    assert_eq!(
        bind(&[
            BindEvent::InUse,
            BindEvent::Failed,
            BindEvent::Done,
            BindEvent::Done,
            BindEvent::Done
        ]),
        [
            BindAction::Bind,
            BindAction::Connect,
            BindAction::Remove,
            BindAction::BindAgain,
            BindAction::Restrict,
            BindAction::Done
        ]
    );
    assert_eq!(
        bind(&[BindEvent::InUse, BindEvent::Done]),
        [
            BindAction::Bind,
            BindAction::Connect,
            BindAction::AlreadyRunning
        ]
    );
    assert_eq!(
        bind(&[BindEvent::InUse, BindEvent::Failed, BindEvent::Failed]).last(),
        Some(&BindAction::Failed)
    );
    assert_eq!(
        bind(&[
            BindEvent::InUse,
            BindEvent::Failed,
            BindEvent::Done,
            BindEvent::InUse
        ])
        .last(),
        Some(&BindAction::Failed)
    );
}
