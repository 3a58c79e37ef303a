use tush::app::error::AppError as Problem;
use tush::app::AppErrors;
use tush::error::{
    AppConfigError, AppError, Lines, ProcessError, Quoted, RunnerError, ServerError, UiError,
    UnitError, ViewDispatchError, ViewSocketError,
};

fn owned(words: &[&str]) -> Vec<String> {
    words.iter().map(|word| word.to_string()).collect()
}

#[test]
fn each_process_error_says_what_it_is() {
    for (error, message) in [
        (ProcessError::Empty, "empty process"),
        (ProcessError::SpawnError, "error spawning process: no such file"),
        (ProcessError::InvalidStdout, "invalid stdout"),
        (ProcessError::InvalidStderr, "invalid stderr"),
        (ProcessError::NotRunning, "process was not running"),
        (ProcessError::KillError, "error killing process: no such file"),
    ] {
        assert_eq!(error.message("no such file"), message);
        assert_eq!(RunnerError::Process(error).message("no such file"), message);
        assert_eq!(
            UnitError::Runner(RunnerError::Process(error)).message("no such file"),
            message
        );
    }
    assert_eq!(
        UnitError::Invalid.message(""),
        "a command with no program in it"
    );
    assert_eq!(UnitError::AlreadyStarted.message(""), "unit already started");
}

#[test]
fn each_session_error_says_what_it_is() {
    assert_eq!(AppError::NotFound.message(""), "unit not found");
    assert_eq!(
        AppError::UnitStart(UnitError::Invalid).message(""),
        "could not start the unit: a command with no program in it"
    );
    assert_eq!(
        AppError::UnitError(UnitError::AlreadyStarted).message(""),
        "error with the unit: unit already started"
    );
    assert_eq!(
        UiError::DrawError.message("gone"),
        "could not draw to the terminal: gone"
    );
    assert_eq!(
        UiError::EventError.message("gone"),
        "could not read from the terminal: gone"
    );
    assert_eq!(
        UiError::Unknown.message("gone"),
        "the screen stopped for a reason it did not name"
    );
}

#[test]
fn each_config_error_says_what_it_is() {
    let api = || "api".to_string();
    let all = [
        (AppConfigError::Unknown("odd".to_string()), "odd"),
        (AppConfigError::LogicErrorKey(api()), "key `api` should exist"),
        (
            AppConfigError::RunAndModes(api()),
            "`api` declares both `run` and `modes`",
        ),
        (
            AppConfigError::ReservedCharacter {
                name: "a:b".to_string(),
                character: ':',
            },
            "`a:b` contains reserved `:`",
        ),
        (
            AppConfigError::UnknownDependency {
                proc: api(),
                depends: "db".to_string(),
            },
            "`api` depends on `db`, which is not a proc",
        ),
        (
            AppConfigError::Cycle(owned(&["api", "db"])),
            "`api`, `db` depend on each other in a circle",
        ),
    ];
    for (error, message) in all {
        assert_eq!(error.message(), message);
    }
    let errors = AppConfigError::Errors(vec![
        AppConfigError::RunAndModes(api()),
        AppConfigError::Cycle(owned(&["api"])),
    ]);
    assert_eq!(
        errors.message(),
        "there were problems with the configuration:\n  \
         - `api` declares both `run` and `modes`\n  \
         - `api` depend on each other in a circle"
    );
}

#[test]
fn a_report_counts_its_problems() {
    let one = AppErrors::new(vec![Problem::Cycle {
        procs: owned(&["api"]),
    }]);
    assert_eq!(one.errors().len(), 1);
    assert_eq!(
        one.message(),
        "1 problem with the configuration:\n  - `api` depends on itself"
    );
    let three = AppErrors::new(vec![
        Problem::RunAndModes {
            proc: "api".to_string(),
        },
        Problem::UnknownDependency {
            proc: "api".to_string(),
            depends: "db".to_string(),
        },
        Problem::Cycle {
            procs: owned(&["a", "b"]),
        },
    ]);
    assert_eq!(
        three.message(),
        "3 problems with the configuration:\n  \
         - `api` declares both `run` and `modes`\n  \
         - `api` depends on `db`, which is not a proc\n  \
         - `a`, `b` depend on each other in a circle"
    );
    assert_eq!(
        AppErrors::new(vec![]).message(),
        "0 problems with the configuration:"
    );
}

#[test]
fn each_server_error_says_what_it_is() {
    let path = || "/run/tush.sock".to_string();
    assert_eq!(
        ServerError::AlreadyRunning(path()).message(),
        "a server is already listening on /run/tush.sock"
    );
    assert_eq!(
        ServerError::Bind(path(), "denied".to_string()).message(),
        "could not listen on /run/tush.sock: denied"
    );
    assert_eq!(
        ServerError::Accept("denied".to_string()).message(),
        "stopped accepting connections: denied"
    );
}

#[test]
fn each_client_error_says_what_it_is() {
    let why = || "why".to_string();
    for (error, message) in [
        (
            ViewSocketError::Connect(why()),
            "could not reach the session: why",
        ),
        (
            ViewSocketError::Http(why()),
            "the session answered badly: why",
        ),
        (
            ViewSocketError::Request(why()),
            "could not build the request: why",
        ),
        (ViewSocketError::Status(404), "the session answered 404"),
        (
            ViewSocketError::Body(why()),
            "could not read what the session said: why",
        ),
    ] {
        assert_eq!(error.message(), message);
        assert_eq!(ViewDispatchError::Socket(error).message(), message);
    }
    let api = || "api".to_string();
    assert_eq!(
        ViewDispatchError::UnknownUnit(api()).message(),
        "no proc is declared as `api`"
    );
    assert_eq!(
        ViewDispatchError::NoModes(api()).message(),
        "`api` runs one way and has no mode to pick"
    );
    assert_eq!(
        ViewDispatchError::UnknownMode {
            unit: api(),
            mode: "wach".to_string(),
            modes: owned(&["build", "watch"]),
        }
        .message(),
        "`api` has no mode `wach`; it has `build`, `watch`"
    );
}

#[test]
fn a_list_is_written_out() {
    assert_eq!(Quoted(&owned(&[])).message(), "");
    assert_eq!(Quoted(&owned(&["a"])).message(), "`a`");
    assert_eq!(Quoted(&owned(&["a", "b", "c"])).message(), "`a`, `b`, `c`");
    assert_eq!(Lines(&owned(&[]), "top").message(), "top");
    assert_eq!(
        Lines(&owned(&["a", "b"]), "top").message(),
        "top\n  - a\n  - b"
    );
}
