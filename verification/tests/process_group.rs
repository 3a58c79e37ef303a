use tush::base::exit_reason::{exited_reason, killed_reason, waited_reason};
use tush::base::group::{is_alive, is_signalled, GroupWait, GroupWaitStep};
use tush::base::process::SHUTDOWN_TIMER;
use tush::base::{
    Exit, ExitCode, ExitReason, KillAction, KillEvent, ProcessKill, ProcessStage,
};
use tush::error::ProcessError;

fn exit(code: i32) -> Exit {
    Exit {
        success: code == 0,
        code: Some(code),
    }
}

const SIGNALLED: Exit = Exit {
    success: false,
    code: None,
};

fn code(code: u8) -> Option<ExitCode> {
    ExitCode::new(code)
}

#[test]
fn a_failure_code_is_never_zero() {
    assert_eq!(ExitCode::new(0), None);
    assert_eq!(ExitCode::new(7).unwrap().get(), 7);
}

#[test]
fn an_exit_is_read_by_who_ended_it() {
    assert_eq!(exited_reason(exit(0)), ExitReason::Success);
    assert_eq!(exited_reason(exit(3)), ExitReason::Error(code(3)));
    assert_eq!(exited_reason(SIGNALLED), ExitReason::Error(None));
    // Only the low byte is a code.
    assert_eq!(exited_reason(exit(256)), ExitReason::Error(None));
    assert_eq!(exited_reason(exit(257)), ExitReason::Error(code(1)));

    assert_eq!(killed_reason(Some(exit(0))), ExitReason::Success);
    assert_eq!(killed_reason(Some(exit(3))), ExitReason::Killed(code(3)));
    assert_eq!(killed_reason(None), ExitReason::Killed(None));

    assert_eq!(waited_reason(Some(exit(0))), ExitReason::Success);
    assert_eq!(waited_reason(Some(exit(3))), ExitReason::Error(code(3)));
    assert_eq!(waited_reason(None), ExitReason::Error(None));
}

#[test]
fn a_group_is_signalled_only_while_somebody_is_in_it() {
    assert!(is_signalled(Some(1), true));
    assert!(!is_signalled(Some(1), false));
    assert!(!is_signalled(None, true));
    assert!(is_alive(true, false));
    assert!(is_alive(false, false), "not allowed to signal is still alive");
    assert!(!is_alive(false, true));
}

/// Each wait is twice the last, up to a bound, and never past the deadline.
#[test]
fn waiting_for_a_group_backs_off() {
    let mut wait = GroupWait::new();
    let mut slept = Vec::new();
    let mut now = 0;
    loop {
        match wait.step(Some(1), true, now, 1000) {
            GroupWaitStep::Sleep(time) => {
                slept.push(time);
                now += time;
            }
            step => {
                assert_eq!(step, GroupWaitStep::TimedOut);
                break;
            }
        }
    }
    assert_eq!(slept, [20, 40, 80, 160, 320, 380]);
    assert_eq!(now, 1000);
    let mut wait = GroupWait::new();
    assert_eq!(wait.step(Some(1), false, 0, 1000), GroupWaitStep::Gone);
    assert_eq!(wait.step(None, true, 0, 1000), GroupWaitStep::Gone);
}

#[test]
fn a_process_is_started_once() {
    assert_eq!(ProcessStage::Setup.start(), Ok(true));
    assert_eq!(ProcessStage::Running.start(), Ok(false));
    assert_eq!(ProcessStage::Empty.start(), Err(ProcessError::Empty));
    assert_eq!(ProcessStage::Setup.spawned(Ok(())), ProcessStage::Running);
    assert_eq!(
        ProcessStage::Setup.spawned(Err(ProcessError::SpawnError)),
        ProcessStage::Empty
    );
    assert_eq!(ProcessStage::Running.reachable(), Ok(()));
    assert_eq!(
        ProcessStage::Setup.reachable(),
        Err(ProcessError::NotRunning)
    );
}

/// Drive a kill through `events`, collecting what it asked for.
fn kill(graceful: bool, events: &[KillEvent]) -> Vec<KillAction> {
    let mut kill = ProcessKill::new(graceful);
    let mut actions = vec![kill.action()];
    for event in events {
        actions.push(kill.step(*event));
    }
    actions
}

/// A process that listens is asked once, and its group waited for.
#[test]
fn a_shutdown_that_is_heeded_stops_there() {
    assert_eq!(
        kill(
            true,
            &[
                KillEvent::Tried(None),
                KillEvent::Signalled(true),
                KillEvent::Waited(Some(exit(0))),
                KillEvent::GroupGone(true),
            ]
        ),
        [
            KillAction::TryWait,
            KillAction::Terminate,
            KillAction::WaitLeader,
            KillAction::WaitGroup,
            KillAction::Done(Ok(ExitReason::Success)),
        ]
    );
    assert_eq!(SHUTDOWN_TIMER, 10_000);
}

/// What ignores being asked is made to.
#[test]
fn a_shutdown_that_is_ignored_is_forced() {
    assert_eq!(
        kill(
            true,
            &[
                KillEvent::Tried(None),
                KillEvent::Signalled(true),
                KillEvent::TimedOut,
                KillEvent::Signalled(true),
                KillEvent::Waited(Some(SIGNALLED)),
                KillEvent::GroupGone(true),
            ]
        ),
        [
            KillAction::TryWait,
            KillAction::Terminate,
            KillAction::WaitLeader,
            KillAction::Kill,
            KillAction::WaitLeaderForever,
            KillAction::WaitGroupAgain,
            KillAction::Done(Ok(ExitReason::Killed(None))),
        ]
    );
}

/// A leader that had already exited keeps its own status, and what it left
/// behind is still signalled.
#[test]
fn a_leader_that_was_gone_keeps_its_status() {
    assert_eq!(
        kill(
            true,
            &[
                KillEvent::Tried(Some(exit(4))),
                KillEvent::Signalled(true),
                KillEvent::GroupGone(false),
                KillEvent::Signalled(true),
                KillEvent::GroupGone(true),
            ]
        ),
        [
            KillAction::TryWait,
            KillAction::Terminate,
            KillAction::WaitGroup,
            KillAction::Kill,
            KillAction::WaitGroupAgain,
            KillAction::Done(Ok(ExitReason::Error(code(4)))),
        ]
    );
}

/// With no group to signal only the leader can be reached, and failing at
/// that is the one way to fail.
#[test]
fn a_kill_falls_back_to_the_leader() {
    let events = [
        KillEvent::Tried(None),
        KillEvent::Signalled(false),
        KillEvent::LeaderSignalled(false),
    ];
    assert_eq!(
        kill(false, &events),
        [
            KillAction::TryWait,
            KillAction::Kill,
            KillAction::KillLeader,
            KillAction::Done(Err(ProcessError::KillError)),
        ]
    );
    let events = [
        KillEvent::Tried(None),
        KillEvent::Signalled(false),
        KillEvent::LeaderSignalled(true),
        KillEvent::Waited(None),
        KillEvent::GroupGone(false),
    ];
    assert_eq!(
        kill(false, &events).last(),
        Some(&KillAction::Done(Ok(ExitReason::Killed(None))))
    );
}

/// An event about something else changes nothing.
#[test]
fn a_stray_event_is_ignored() {
    assert_eq!(
        kill(true, &[KillEvent::GroupGone(true), KillEvent::TimedOut]),
        [KillAction::TryWait, KillAction::TryWait, KillAction::TryWait]
    );
}

/// Where there are no groups there is nothing to signal, and nothing to wait
/// for.
#[test]
fn without_groups_every_group_is_gone() {
    assert!(!tush::base::group::terminate(Some(1)));
    assert!(!tush::base::group::kill(Some(1)));
    assert!(!tush::base::group::alive(1));
    assert!(tush::base::group::wait(Some(1)));
}
