use tush::app::{App, AppDispatch, AppSchedule, AppUnitKey, AppUnitMap, ScheduledStart, Target};
use tush::config::{
    Config, ConfigPanel, ConfigProc, ConfigSize, ConfigUi, ConfigUnitMode, ConfigUnitRun,
};
use tush::error::{AppConfigError, AppError};
use tush::runner::RunnerState;
use tush::unit::{pick_mode, UnitAction, UnitBehavior, UnitEvent, UnitStart, UnitType};

fn owned(words: &[&str]) -> Vec<String> {
    words.iter().map(|word| word.to_string()).collect()
}

fn run(words: &[&str]) -> ConfigUnitRun {
    ConfigUnitRun {
        commands: vec![owned(words)],
    }
}

fn proc(key: &str, depends: &[&str]) -> ConfigProc {
    ConfigProc {
        key: key.to_string(),
        name: None,
        name_short: None,
        groups: vec![],
        depends: owned(depends),
        working_dir: None,
        log_size: None,
        parse_ansi: None,
        panel: ConfigPanel::Main,
        run: Some(run(&["true"])),
        modes: None,
    }
}

fn config(procs: Vec<ConfigProc>) -> Config {
    Config {
        log_size: None,
        parse_ansi: None,
        ui: ConfigUi { colors: false },
        procs,
    }
}

fn start(key: usize, force: bool) -> ScheduledStart {
    ScheduledStart { key, force }
}

fn sorted(mut starts: Vec<ScheduledStart>) -> Vec<ScheduledStart> {
    starts.sort_by_key(|start| start.key);
    starts
}

fn problems(config: &Config) -> Vec<String> {
    match App::new(config) {
        Err(AppConfigError::Errors(errors)) => {
            errors.iter().map(|error| error.message()).collect()
        }
        Err(error) => vec![error.message()],
        Ok(_) => vec![],
    }
}

/// Every problem of a config comes back at once, per proc as it is declared,
/// then the dependencies, then the circles.
#[test]
fn every_problem_is_reported() {
    let mut both = proc("api", &["db", "nada"]);
    both.modes = Some(vec![]);
    both.groups = owned(&["back:end"]);
    let config = config(vec![both, proc("a:b", &[]), proc("db", &["api"])]);
    assert_eq!(
        problems(&config),
        [
            "`back:end` contains reserved `:`",
            "`api` declares both `run` and `modes`",
            "`a:b` contains reserved `:`",
            "`api` depends on `nada`, which is not a proc",
            "`api`, `db` depend on each other in a circle",
        ]
    );
}

#[test]
fn a_proc_may_not_depend_on_itself() {
    assert_eq!(
        problems(&config(vec![proc("api", &["api"]), proc("web", &["api"])])),
        ["`api` depend on each other in a circle"]
    );
    assert!(problems(&config(vec![proc("api", &[]), proc("web", &["api"])])).is_empty());
}

#[test]
fn a_unit_is_found_by_its_name_and_its_key() {
    let mut api = proc("api", &[]);
    api.name = Some("API server".to_string());
    api.name_short = Some("API".to_string());
    api.panel = ConfigPanel::Minor;
    api.parse_ansi = Some(false);
    api.groups = owned(&["backend", "all"]);
    let mut web = proc("web", &["api", "api"]);
    web.groups = owned(&["all"]);
    web.log_size = Some(ConfigSize(4 * 1024 * 1024));
    let map = AppUnitMap::new(&config(vec![api, web])).unwrap();

    let key = map.key("api").unwrap();
    assert_eq!(key.index(), 0);
    assert_eq!(map.key_str(key), Some("api"));
    assert_eq!(map.name(key).unwrap(), "API server");
    assert_eq!(map.name_short(key).unwrap().as_deref(), Some("API"));
    assert_eq!(map.panel(key), ConfigPanel::Minor);
    assert!(!map.parse_ansi(key));
    let web = map.key("web").unwrap();
    assert_eq!(map.name(web).unwrap(), "web");
    assert_eq!(map.keys(), [key, web]);
    assert_eq!(map.direct_dependencies(web.index()), Some(&vec![0]));
    assert_eq!(map.direct_dependencies(key.index()), None);
    assert_eq!(map.group("all"), Some(vec![0, 1]));
    assert_eq!(map.group("backend"), Some(vec![0]));
    assert_eq!(map.group("nada"), None);
    assert_eq!(map.log_capacity(), 4 * 1024 * 1024 / 256);
    assert_eq!(map.resolve_dependency_chain(&[1]).order(), &[0, 1]);
    assert_eq!(map.entry(web).unwrap().log_size, 4 * 1024 * 1024);

    assert_eq!(map.key("nada"), None);
    let gone = AppUnitKey::from_index(9).unwrap();
    assert_eq!(map.key_str(gone), None);
    assert_eq!(map.name(gone), Err(AppError::NotFound));
    assert_eq!(map.name_short(gone), Err(AppError::NotFound));
    assert!(matches!(map.entry(gone), Err(AppError::NotFound)));
    assert_eq!(map.panel(gone), ConfigPanel::Main);
    assert!(map.parse_ansi(gone));
    assert_eq!(map.direct_dependencies(9), None);
}

#[test]
fn a_key_travels_as_its_index() {
    let key = AppUnitKey::from_index(3).unwrap();
    assert_eq!(key.index(), 3);
    assert_eq!(AppUnitKey::from_index(3), Some(key));
    assert_eq!(AppUnitKey::from_index(u32::MAX as usize), None);
    assert_eq!(AppUnitKey::from_index((1 << 32) + 3), Some(key));
}

/// Where each run happens is settled once: a mode's own place wins, and the
/// proc's stands in for one that named none.
#[test]
fn a_behavior_is_built_from_a_proc() {
    let mut web = proc("web", &[]);
    web.run = None;
    web.working_dir = Some("/srv".to_string());
    web.name_short = Some("w".to_string());
    web.modes = Some(vec![
        ConfigUnitMode {
            name: "Build".to_string(),
            name_short: Some("b".to_string()),
            working_dir: None,
            run: run(&["npm", "run", "build"]),
        },
        ConfigUnitMode {
            name: "Watch".to_string(),
            name_short: None,
            working_dir: Some("/tmp".to_string()),
            run: run(&["npm", "run", "dev"]),
        },
    ]);
    let behavior = AppUnitMap::build_behavior(&web);
    assert_eq!(behavior.name, "web");
    assert_eq!(behavior.short.as_deref(), Some("w"));
    let UnitType::Modes(modes) = &behavior.kind else {
        panic!("no modes");
    };
    assert_eq!(modes[0].name, "Build");
    assert_eq!(modes[0].short.as_deref(), Some("b"));
    assert_eq!(modes[0].run.working_dir.as_deref(), Some("/srv"));
    assert_eq!(modes[1].run.working_dir.as_deref(), Some("/tmp"));
    assert_eq!(modes[1].run.commands, [owned(&["npm", "run", "dev"])]);

    let UnitType::Run(one) = AppUnitMap::build_behavior(&proc("api", &[])).kind else {
        panic!("no run");
    };
    assert_eq!(one.commands, [owned(&["true"])]);
    let mut nothing = proc("nada", &[]);
    nothing.run = None;
    assert_eq!(AppUnitMap::build_behavior(&nothing).kind, UnitType::Noop);
}

/// A start brings what it depends on, and nothing starts before that is done.
#[test]
fn a_start_waits_for_what_it_depends_on() {
    let mut app = App::new(&config(vec![
        proc("api", &["db"]),
        proc("db", &[]),
        proc("web", &["api"]),
        proc("docs", &[]),
    ]))
    .unwrap();
    assert!(!app.ui().colors);
    let web = app.unit_map().key("web").unwrap();
    app.schedule(web);
    assert_eq!(app.run(&vec![false; 4]), [start(1, false)]);
    assert_eq!(app.run(&vec![false; 4]), []);
    assert_eq!(
        app.run(&vec![false, true, false, false]),
        [start(0, false)]
    );
    assert_eq!(app.run(&vec![true, true, false, false]), [start(2, true)]);
    assert_eq!(app.run(&vec![true; 4]), []);
}

#[test]
fn targets_are_procs_and_groups() {
    let mut api = proc("api", &[]);
    api.groups = owned(&["backend"]);
    let mut db = proc("db", &[]);
    db.groups = owned(&["backend"]);
    let mut app = App::new(&config(vec![api, db, proc("web", &[])])).unwrap();
    app.schedule_targets(&vec![
        Target::Group("backend".to_string()),
        Target::Unit("nada".to_string()),
        Target::Group("nada".to_string()),
    ]);
    assert_eq!(
        sorted(app.run(&vec![false; 3])),
        [start(0, true), start(1, true)]
    );
    app.schedule_group("backend");
    app.schedule_targets(&vec![Target::Unit("web".to_string())]);
    assert_eq!(
        sorted(app.run(&vec![false; 3])),
        [start(0, true), start(1, true), start(2, true)]
    );
}

/// Naming a unit that is already on the schedule as a dependency makes it a
/// named one, and never the other way round.
#[test]
fn being_named_is_not_forgotten() {
    let map = AppUnitMap::new(&config(vec![proc("db", &[]), proc("web", &["db"])])).unwrap();
    let mut schedule = AppSchedule::new();
    let (db, web) = (map.key("db").unwrap(), map.key("web").unwrap());
    schedule.schedule(&map, db);
    schedule.schedule(&map, web);
    assert_eq!(schedule.run(&map, &vec![false, false]), [start(0, true)]);
    schedule.schedule_inner(&vec![0], &[]);
    schedule.schedule_inner(&vec![], &[0]);
    assert_eq!(schedule.run(&map, &vec![false, false]), [start(0, true)]);
}

#[test]
fn what_a_unit_asks_for_is_carried_out() {
    let mut app = App::new(&config(vec![proc("api", &[])])).unwrap();
    let api = app.unit_map().key("api").unwrap();
    assert_eq!(app.dispatch(api, None), Ok(AppDispatch::Nothing));
    assert_eq!(
        app.dispatch(api, Some(UnitAction::Stop)),
        Ok(AppDispatch::Stop)
    );
    assert_eq!(app.run(&vec![false]), []);
    assert_eq!(
        app.dispatch(api, Some(UnitAction::Start)),
        Ok(AppDispatch::Scheduled)
    );
    assert_eq!(app.run(&vec![false]), [start(0, true)]);
    let gone = AppUnitKey::from_index(5).unwrap();
    assert_eq!(
        app.dispatch(gone, Some(UnitAction::Start)),
        Err(AppError::NotFound)
    );
}

fn two_modes() -> UnitBehavior {
    let mode = |name: &str, short: Option<&str>| ConfigUnitMode {
        name: name.to_string(),
        name_short: short.map(|short| short.to_string()),
        working_dir: None,
        run: run(&["npm"]),
    };
    let mut web = proc("web", &[]);
    web.run = None;
    web.modes = Some(vec![mode("Build", None), mode("Watch", Some("w"))]);
    AppUnitMap::build_behavior(&web)
}

/// Each entry says what it will do: `Restart` on the mode that is up, `Start`
/// on the others.
#[test]
fn the_choices_of_a_unit_say_what_they_do() {
    let web = two_modes();
    assert_eq!(web.mode(1).map(|name| name.as_str()), Some("Watch"));
    assert_eq!(web.mode_short(1).map(|name| name.as_str()), Some("w"));
    assert_eq!(web.mode_short(0), None);
    assert_eq!(web.mode(2), None);
    let list = |on: usize, state: RunnerState| -> Vec<(String, Option<String>, bool, bool)> {
        web.choices(on, state)
            .into_iter()
            .map(|c| (c.verb, c.mode, c.enabled, c.current))
            .collect()
    };
    let entry = |verb: &str, mode: Option<&str>, enabled: bool, current: bool| {
        (
            verb.to_string(),
            mode.map(|mode| mode.to_string()),
            enabled,
            current,
        )
    };
    assert_eq!(
        list(1, RunnerState::Running),
        [
            entry("Start", Some("Build"), true, false),
            entry("Restart", Some("Watch"), true, true),
            entry("Stop", None, true, false),
        ]
    );
    assert_eq!(
        list(1, RunnerState::ExitSuccess),
        [
            entry("Start", Some("Build"), true, false),
            entry("Start", Some("Watch"), true, true),
            entry("Stop", None, false, false),
        ]
    );
    let api = AppUnitMap::build_behavior(&proc("api", &[]));
    let choices = api.choices(0, RunnerState::Waiting);
    assert_eq!(choices[0].verb, "Restart");
    assert_eq!(choices[0].event, UnitEvent::Start);
    assert_eq!(choices[1].event, UnitEvent::Stop);
    assert_eq!(choices.len(), 2);
}

/// Every entry that is handed back is heeded.
#[test]
fn a_unit_heeds_what_it_is_told() {
    let web = two_modes();
    for choice in web.choices(0, RunnerState::Running) {
        let (on, action) = web.dispatch(0, choice.event);
        match choice.mode {
            Some(mode) => {
                assert_eq!(web.mode(on), Some(&mode));
                assert_eq!(action, Some(UnitAction::Start));
            }
            None => assert_eq!((on, action), (0, Some(UnitAction::Stop))),
        }
    }
    assert_eq!(
        web.dispatch(1, UnitEvent::Start),
        (1, Some(UnitAction::Start))
    );
    assert_eq!(web.dispatch(1, UnitEvent::StartMode(7)), (1, None));
}

#[test]
fn a_unit_is_started_by_where_its_run_is() {
    let none = None;
    let waiting = Some(RunnerState::Waiting);
    let running = Some(RunnerState::Running);
    let over = Some(RunnerState::ExitSuccess);
    let all = [
        (none, UnitStart::Begin, UnitStart::Create, UnitStart::Begin, UnitStart::Begin),
        (waiting, UnitStart::Restart, UnitStart::Leave, UnitStart::Release, UnitStart::Release),
        (running, UnitStart::Restart, UnitStart::Leave, UnitStart::Restart, UnitStart::Leave),
        (over, UnitStart::Restart, UnitStart::Leave, UnitStart::Restart, UnitStart::Leave),
    ];
    let map = AppUnitMap::new(&config(vec![proc("api", &[])])).unwrap();
    let api = map.key("api").unwrap();
    for (run, start, created, resumed, once) in all {
        assert_eq!(map.start(api, run), Ok(start));
        assert_eq!(map.ensure_created(api, run), Ok(created));
        assert_eq!(map.start_or_resume(api, run), Ok(resumed));
        assert_eq!(map.ensure_started(api, run), Ok(once));
        assert_eq!(
            map.state(api, run),
            Ok(run.unwrap_or(RunnerState::Stopped))
        );
    }
    let gone = AppUnitKey::from_index(5).unwrap();
    assert_eq!(map.start(gone, None), Err(AppError::NotFound));
    assert_eq!(map.ensure_created(gone, None), Err(AppError::NotFound));
    assert_eq!(map.start_or_resume(gone, None), Err(AppError::NotFound));
    assert_eq!(map.ensure_started(gone, None), Err(AppError::NotFound));
    assert_eq!(map.state(gone, None), Err(AppError::NotFound));
    assert_eq!(map.mode(gone, 0), Err(AppError::NotFound));
    assert_eq!(map.mode_short(gone, 0), Err(AppError::NotFound));
    assert!(map.choices(gone, 0, RunnerState::Stopped).is_err());
    assert_eq!(
        map.dispatch(gone, 0, UnitEvent::Stop),
        Err(AppError::NotFound)
    );
    assert_eq!(map.mode(api, 0), Ok(None));
    assert_eq!(map.mode_short(api, 0), Ok(None));
    assert_eq!(map.choices(api, 0, RunnerState::Stopped).unwrap().len(), 2);
    assert_eq!(
        map.dispatch(api, 0, UnitEvent::Start),
        Ok((0, Some(UnitAction::Start)))
    );
}

/// A mode is given by its name or its position in the list, and the name goes
/// first.
#[test]
fn a_mode_is_picked_by_name_and_then_by_position() {
    let modes = owned(&["build", "watch", "0", "watch"]);
    assert_eq!(pick_mode(&modes, "watch"), Some(1), "the first of the name");
    assert_eq!(pick_mode(&modes, "0"), Some(2), "a name that is a number");
    assert_eq!(pick_mode(&modes, "1"), Some(1));
    assert_eq!(pick_mode(&modes, "3"), Some(3));
    assert_eq!(pick_mode(&modes, "4"), None);
    assert_eq!(pick_mode(&modes, "-1"), None);
    assert_eq!(pick_mode(&modes, "99999999999999999999"), None);
    assert_eq!(pick_mode(&modes, "Build"), None);
    assert_eq!(pick_mode(&modes, ""), None);
    assert_eq!(pick_mode(&[].to_vec(), "0"), None);
}
