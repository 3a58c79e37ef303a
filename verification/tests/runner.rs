use tush::base::{ExitCode, ExitReason};
use tush::runner::{
    RunnerHandle, RunnerPhase, RunnerPolicy, RunnerProcessDescription, RunnerSerial, RunnerState,
    RunnerUnit, RunnerUnitRun, SerialStep,
};

fn failure(code: u8) -> ExitReason {
    ExitReason::Error(ExitCode::new(code))
}

/// A state only ever moves on: a report that arrives late is dropped.
#[test]
fn a_late_report_never_rewinds_a_run() {
    let mut state = RunnerState::Stopped;
    state.set_running();
    assert_eq!(state, RunnerState::Running);
    state.set_started();
    assert_eq!(state, RunnerState::Running);
    state.set_killing();
    assert_eq!(state, RunnerState::Killing);
    state.set_running();
    assert_eq!(state, RunnerState::Killing);
    let mut over = RunnerState::ExitSuccess;
    over.set_killing();
    assert_eq!(over, RunnerState::ExitSuccess);
}

#[test]
fn a_state_says_how_far_on_it_is() {
    let all = [
        (RunnerState::Stopped, false, false, true),
        (RunnerState::Waiting, false, false, false),
        (RunnerState::Started, true, false, false),
        (RunnerState::Running, true, false, false),
        (RunnerState::Killing, true, false, false),
        (RunnerState::ExitSuccess, true, true, true),
        (RunnerState::ExitError(None), true, true, true),
        (RunnerState::Killed(None), true, true, true),
    ];
    for (state, started, finished, stopped) in all {
        assert_eq!(state.is_started(), started, "{state:?}");
        assert_eq!(state.is_finished(), finished, "{state:?}");
        assert_eq!(state.is_stopped(), stopped, "{state:?}");
        let terminated = matches!(state, RunnerState::Killed(_));
        assert_eq!(state.has_exited(), finished && !terminated, "{state:?}");
    }
}

/// How a process finished goes into a state and comes back out.
#[test]
fn a_finish_survives_the_round_trip() {
    for reason in [
        ExitReason::Success,
        ExitReason::Error(None),
        failure(9),
        ExitReason::Killed(ExitCode::new(3)),
    ] {
        assert_eq!(
            ExitReason::try_from(RunnerState::from(reason)).unwrap(),
            reason
        );
    }
    assert!(ExitReason::try_from(RunnerState::Running).is_err());
}

#[test]
fn a_policy_aborts_on_a_failure_or_goes_on() {
    assert!(!RunnerPolicy::Abort.is_abort(ExitReason::Success));
    assert!(RunnerPolicy::Abort.is_abort(failure(1)));
    assert!(!RunnerPolicy::Continue.is_abort(failure(1)));
}

/// Run a sequence of three whose runners come to `results`.
fn sequence(policy: RunnerPolicy, results: &[Option<ExitReason>]) -> Vec<SerialStep> {
    let mut serial = RunnerSerial::with_policy(policy);
    for name in ["a", "b", "c"] {
        serial.add(name);
    }
    let mut steps = vec![serial.run()];
    for result in results {
        steps.push(serial.ran(*result));
    }
    steps
}

#[test]
fn a_sequence_runs_in_order() {
    let ok = Some(ExitReason::Success);
    assert_eq!(
        sequence(RunnerPolicy::Abort, &[ok, ok, ok]),
        [
            SerialStep::Run(0),
            SerialStep::Run(1),
            SerialStep::Run(2),
            SerialStep::Done(ExitReason::Success),
        ]
    );
    assert_eq!(
        RunnerSerial::<&str>::new().run(),
        SerialStep::Done(ExitReason::Success)
    );
}

/// The default is an `&&`; the other is a `;` whose first failure is the one
/// reported.
#[test]
fn a_failure_ends_a_sequence_or_is_remembered() {
    let ok = Some(ExitReason::Success);
    assert_eq!(
        sequence(RunnerPolicy::Abort, &[ok, Some(failure(2))]),
        [
            SerialStep::Run(0),
            SerialStep::Run(1),
            SerialStep::Done(failure(2)),
        ]
    );
    assert_eq!(
        sequence(
            RunnerPolicy::Continue,
            &[Some(failure(2)), Some(failure(3)), ok]
        ),
        [
            SerialStep::Run(0),
            SerialStep::Run(1),
            SerialStep::Run(2),
            SerialStep::Done(failure(2)),
        ]
    );
    assert_eq!(
        sequence(RunnerPolicy::Continue, &[None]),
        [SerialStep::Run(0), SerialStep::Failed]
    );
}

/// An abort knows which runner was in flight.
#[test]
fn a_sequence_shuts_down_what_was_running() {
    let mut serial = RunnerSerial::new();
    serial.add("a");
    serial.add("b");
    assert_eq!(serial.shutdown(), None);
    serial.run();
    serial.ran(Some(ExitReason::Success));
    assert_eq!(*serial.runner(1), "b");
    assert_eq!(serial.shutdown(), Some(1));
    assert_eq!(serial.shutdown_reason(), ExitReason::Killed(None));
}

#[test]
fn a_run_is_held_at_its_gate() {
    let mut handle = RunnerHandle::new();
    assert_eq!(handle.state(), RunnerState::Waiting);
    assert!(handle.released(false));
    assert_eq!(handle.state(), RunnerState::Started);
    handle.running();
    assert_eq!(handle.state(), RunnerState::Running);
    handle.ended(Some(failure(5)));
    assert_eq!(handle.state(), RunnerState::ExitError(ExitCode::new(5)));
    assert_eq!(handle.phase(), RunnerPhase::Over);
    // Once terminal it stays terminal.
    assert!(!handle.aborted());
    assert!(!handle.released(false));
    assert_eq!(handle.state(), RunnerState::ExitError(ExitCode::new(5)));
}

#[test]
fn an_abort_before_the_gate_opens_is_honoured() {
    let mut handle = RunnerHandle::new();
    assert!(!handle.released(true));
    assert_eq!(handle.state(), RunnerState::Killed(None));
}

#[test]
fn an_abort_while_running_shuts_down() {
    let mut handle = RunnerHandle::new();
    handle.released(false);
    handle.running();
    assert!(handle.aborted());
    assert_eq!(handle.state(), RunnerState::Killing);
    handle.ended(Some(ExitReason::Success));
    assert_eq!(handle.state(), RunnerState::Killing, "it ended too late");
    handle.shut_down(None);
    assert_eq!(handle.state(), RunnerState::Killed(None));
    let mut handle = RunnerHandle::new();
    handle.released(false);
    handle.ended(None);
    assert_eq!(handle.state(), RunnerState::ExitError(None));
}

#[test]
fn a_unit_is_run_and_run_again() {
    let done = || Ok::<(), String>(());
    let failed = || Err("no such program".to_string());
    let mut unit = RunnerUnit::new();
    assert_eq!(unit.state(), RunnerState::Stopped);
    assert!(!unit.stop(), "there is nothing to stop");
    assert!(unit.is_stopped());
    assert_eq!(unit.start(failed()), failed());
    assert_eq!(unit.state(), RunnerState::Stopped, "nothing was spawned");
    assert_eq!(unit.start(done()), Ok(()));
    assert_eq!(unit.state(), RunnerState::Started);
    assert_eq!(unit.start(failed()), Ok(()), "one is in flight");
    assert!(unit.stop());
    assert_eq!(unit.state(), RunnerState::Killing, "at once");
    assert!(!unit.stop(), "it has been told");
    unit.run.as_mut().unwrap().state = RunnerState::Killed(None);
    assert!(!unit.stop());
    assert_eq!(unit.state(), RunnerState::Killed(None));
    assert!(unit.is_stopped());
    assert_eq!(unit.start(failed()), failed());
    assert_eq!(unit.state(), RunnerState::Killed(None), "the old run stays");
    assert_eq!(unit.start(done()), Ok(()));
    assert_eq!(unit.state(), RunnerState::Started);
}

#[test]
fn restarting_replaces_the_run_unless_it_cannot() {
    let mut unit = RunnerUnit::new();
    assert_eq!(unit.restart(Ok::<(), String>(())), Ok(()));
    unit.run.as_mut().unwrap().state = RunnerState::Running;
    assert!(unit.stop());
    assert_eq!(
        unit.restart(Err("no such program".to_string())),
        Err("no such program".to_string())
    );
    assert_eq!(unit.state(), RunnerState::Killing, "the old run stays");
    assert_eq!(unit.restart(Ok::<(), String>(())), Ok(()));
    assert_eq!(unit.run, Some(RunnerUnitRun::new()));
    let spawned = unit.spawn(Ok::<(), String>(())).unwrap();
    assert_eq!(spawned.state, RunnerState::Started);
    assert_eq!(spawned.wait(), ExitReason::Error(None), "it has not ended");
    let ended = RunnerUnitRun {
        state: RunnerState::ExitSuccess,
        aborted: false,
    };
    assert_eq!(ended.wait(), ExitReason::Success);
}

#[test]
fn a_command_is_its_program_and_the_rest() {
    let words = vec!["npm".to_string(), "run".to_string(), "dev".to_string()];
    let description = RunnerProcessDescription::new(words);
    let (program, args) = description.exec().unwrap();
    assert_eq!(program, "npm");
    assert_eq!(args, ["run", "dev"]);
    assert!(RunnerProcessDescription::new(vec![]).exec().is_none());
}
