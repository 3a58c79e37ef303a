use super::exit_reason;
use super::exit_reason::{exited_reason, killed_reason, Exit, ExitReason};
use crate::error::ProcessError;
use vstd::prelude::*;

verus! {

/// How long a graceful shutdown waits after the polite signal before
/// escalating to the one that cannot be ignored, in milliseconds. The same
/// budget bounds the wait after that, so a process stuck in an uninterruptible
/// wait cannot hang us.
pub const SHUTDOWN_TIMER: u64 = 10_000;

/// Where a process is: `Setup -> Running`.
#[derive(Clone, Copy, PartialEq, Eq, Debug, Structural)]
pub enum ProcessStage {
    /// Consumed or failed to spawn: nothing left to run or signal.
    Empty,
    /// Built but not spawned yet.
    Setup,
    /// Spawned.
    Running,
}

impl ProcessStage {
    /// Whether starting it spawns anything: only one that is built and not
    /// spawned has something to spawn. Starting one that runs is a no-op;
    /// starting a consumed one is an error.
    pub fn start(&self) -> (spawns: Result<bool, ProcessError>)
        ensures
            spawns == match *self {
                ProcessStage::Empty => Err::<bool, ProcessError>(ProcessError::Empty),
                ProcessStage::Setup => Ok::<bool, ProcessError>(true),
                ProcessStage::Running => Ok::<bool, ProcessError>(false),
            },
    {
        match *self {
            ProcessStage::Empty => Err(ProcessError::Empty),
            ProcessStage::Setup => Ok(true),
            ProcessStage::Running => Ok(false),
        }
    }

    /// Where a process ends up once its spawn has come to something. One that
    /// fails is consumed by it.
    pub fn spawned(&self, result: Result<(), ProcessError>) -> (after: ProcessStage)
        ensures
            after == if result is Ok {
                ProcessStage::Running
            } else {
                ProcessStage::Empty
            },
    {
        match result {
            Ok(()) => ProcessStage::Running,
            Err(_) => ProcessStage::Empty,
        }
    }

    /// Whether there is something to wait for or to signal.
    pub fn reachable(&self) -> (result: Result<(), ProcessError>)
        ensures
            result == if *self == ProcessStage::Running {
                Ok::<(), ProcessError>(())
            } else {
                Err::<(), ProcessError>(ProcessError::NotRunning)
            },
    {
        match *self {
            ProcessStage::Running => Ok(()),
            ProcessStage::Empty => Err(ProcessError::NotRunning),
            ProcessStage::Setup => Err(ProcessError::NotRunning),
        }
    }
}

/// What a kill asks to be done next, or how it ended.
#[derive(Clone, Copy, PartialEq, Eq, Debug)]
pub enum KillAction {
    /// See whether the leader has exited already, without waiting.
    TryWait,
    /// Signal the group politely.
    Terminate,
    /// Wait for the leader, until the deadline.
    WaitLeader,
    /// Wait for the group to empty, until the deadline.
    WaitGroup,
    /// Signal the group so that it cannot be ignored.
    Kill,
    /// Signal the leader alone.
    KillLeader,
    /// Wait for the leader however long it takes.
    WaitLeaderForever,
    /// Wait for the group to empty, until a deadline of its own.
    WaitGroupAgain,
    /// It is over.
    Done(Result<ExitReason, ProcessError>),
}

/// What came of an action.
#[derive(Clone, Copy, PartialEq, Eq, Debug, Structural)]
pub enum KillEvent {
    /// The leader's status, if it had exited.
    Tried(Option<Exit>),
    /// Whether there was a live group to signal.
    Signalled(bool),
    /// The wait for the leader ended in time, with its status if it could be
    /// had.
    Waited(Option<Exit>),
    /// The wait for the leader ran out of time.
    TimedOut,
    /// Whether the group emptied in time.
    GroupGone(bool),
    /// Whether the leader could be signalled.
    LeaderSignalled(bool),
}

/// The ending of a process and everything in its group.
///
/// Both phases act on the whole group, and both wait for the whole group: the
/// leader exiting says nothing about the children it spawned, which are
/// exactly the processes a manager must not leak. What is reported is the
/// leader's exit, since that is the one shown — a leader that had already
/// exited keeps its real status, so a clean exit stays a success.
pub struct ProcessKill {
    graceful: bool,
    /// What is being done.
    action: KillAction,
    /// How the leader ended, once it has been reaped.
    reason: Option<ExitReason>,
}

/// A kill: whether it is graceful, what is being done, and how the leader
/// ended.
pub struct KillView {
    pub graceful: bool,
    pub action: KillAction,
    pub reason: Option<ExitReason>,
}

impl KillView {
    /// What is done next, once `event` has come of the action being done and
    /// the leader's end is known to be `reason`, if it is.
    ///
    /// The polite signal goes out even when the leader is already gone,
    /// because that is precisely when children are left behind. What was
    /// polite and did not empty the group is done again by force.
    pub open spec fn next(self, event: KillEvent, reason: Option<ExitReason>) -> KillAction {
        match (self.action, event) {
            (KillAction::TryWait, KillEvent::Tried(_)) => if self.graceful {
                KillAction::Terminate
            } else {
                KillAction::Kill
            },
            (KillAction::Terminate, KillEvent::Signalled(signalled)) => if !signalled {
                KillAction::Kill
            } else if reason is None {
                KillAction::WaitLeader
            } else {
                KillAction::WaitGroup
            },
            (KillAction::WaitLeader, KillEvent::Waited(_)) => KillAction::WaitGroup,
            (KillAction::WaitLeader, KillEvent::TimedOut) => KillAction::Kill,
            (KillAction::WaitGroup, KillEvent::GroupGone(gone)) => if gone && reason is Some {
                KillAction::Done(Ok(reason->0))
            } else {
                KillAction::Kill
            },
            (KillAction::Kill, KillEvent::Signalled(signalled)) => if reason is Some {
                KillAction::WaitGroupAgain
            } else if signalled {
                KillAction::WaitLeaderForever
            } else {
                KillAction::KillLeader
            },
            (KillAction::KillLeader, KillEvent::LeaderSignalled(signalled)) => if signalled {
                KillAction::WaitLeaderForever
            } else {
                KillAction::Done(Err(ProcessError::KillError))
            },
            (KillAction::WaitLeaderForever, KillEvent::Waited(_)) => KillAction::WaitGroupAgain,
            (KillAction::WaitGroupAgain, KillEvent::GroupGone(_)) => if reason is Some {
                KillAction::Done(Ok(reason->0))
            } else {
                KillAction::Done(Err(ProcessError::NotRunning))
            },
            (action, _) => action,
        }
    }

    /// Whether `reason` is how the leader is known to have ended once `event`
    /// has come: by itself if it was found gone, by us if it was waited for
    /// after a signal, and as it was if it was known already.
    pub open spec fn reaped(self, event: KillEvent, reason: Option<ExitReason>) -> bool {
        match (self.action, event) {
            (KillAction::TryWait, KillEvent::Tried(Some(exit))) => reason matches Some(reason) && (
            if exit.success {
                reason is Success
            } else {
                reason matches ExitReason::Error(code) && exit_reason::failure_code(exit, code)
            }),
            (KillAction::WaitLeader, KillEvent::Waited(exit)) => reason matches Some(reason)
                && killed_by_us(exit, reason),
            (KillAction::WaitLeaderForever, KillEvent::Waited(exit)) => reason matches Some(reason)
                && killed_by_us(exit, reason),
            _ => reason == self.reason,
        }
    }

    /// What holds of every kill: the leader's end is known exactly where it
    /// has been waited for or is not waited for any more.
    pub open spec fn wf(self) -> bool {
        match self.action {
            KillAction::TryWait => self.reason is None,
            KillAction::WaitLeader => self.reason is None && self.graceful,
            KillAction::WaitGroup => self.reason is Some && self.graceful,
            KillAction::Terminate => self.graceful,
            KillAction::KillLeader => self.reason is None,
            KillAction::WaitLeaderForever => self.reason is None,
            KillAction::WaitGroupAgain => self.reason is Some,
            KillAction::Kill => true,
            KillAction::Done(result) => match result {
                Ok(reason) => self.reason == Some(reason),
                Err(error) => error == ProcessError::KillError && self.reason is None,
            },
        }
    }
}

/// Whether `reason` is the end of a process that was signalled and then waited
/// for.
pub open spec fn killed_by_us(exit: Option<Exit>, reason: ExitReason) -> bool {
    match exit {
        Some(exit) => if exit.success {
            reason is Success
        } else {
            reason matches ExitReason::Killed(code) && exit_reason::failure_code(exit, code)
        },
        None => reason == ExitReason::Killed(None),
    }
}

impl View for ProcessKill {
    type V = KillView;

    closed spec fn view(&self) -> KillView {
        KillView { graceful: self.graceful, action: self.action, reason: self.reason }
    }
}

impl ProcessKill {
    /// End a process, giving it a chance to end itself first or not.
    pub fn new(graceful: bool) -> (kill: Self)
        ensures
            kill@.wf(),
            kill@ == (KillView { graceful, action: KillAction::TryWait, reason: None }),
    {
        ProcessKill { graceful, action: KillAction::TryWait, reason: None }
    }

    /// What to do now.
    pub fn action(&self) -> (action: KillAction)
        ensures
            action == self@.action,
    {
        self.action
    }

    /// Take what came of the action, and say what to do next. An event that is
    /// not about the action changes nothing.
    pub fn step(&mut self, event: KillEvent) -> (action: KillAction)
        requires
            old(self)@.wf(),
        ensures
            final(self)@.wf(),
            final(self)@.graceful == old(self)@.graceful,
            old(self)@.reaped(event, final(self)@.reason),
            final(self)@.action == old(self)@.next(event, final(self)@.reason),
            action == final(self)@.action,
    {
        match (self.action, event) {
            (KillAction::TryWait, KillEvent::Tried(exit)) => {
                if let Some(exit) = exit {
                    self.reason = Some(exited_reason(exit));
                }
                self.action = if self.graceful {
                    KillAction::Terminate
                } else {
                    KillAction::Kill
                };
            },
            (KillAction::Terminate, KillEvent::Signalled(signalled)) => {
                self.action = if !signalled {
                    KillAction::Kill
                } else if self.reason.is_none() {
                    KillAction::WaitLeader
                } else {
                    // A zombie still answers a probe, so the group can only
                    // read as empty once the leader has been reaped.
                    KillAction::WaitGroup
                };
            },
            (KillAction::WaitLeader, KillEvent::Waited(exit)) => {
                self.reason = Some(killed_reason(exit));
                self.action = KillAction::WaitGroup;
            },
            (KillAction::WaitLeader, KillEvent::TimedOut) => {
                self.action = KillAction::Kill;
            },
            (KillAction::WaitGroup, KillEvent::GroupGone(gone)) => {
                self.action = match self.reason {
                    Some(reason) => {
                        if gone {
                            KillAction::Done(Ok(reason))
                        } else {
                            KillAction::Kill
                        }
                    },
                    None => KillAction::Kill,
                };
            },
            (KillAction::Kill, KillEvent::Signalled(signalled)) => {
                self.action = if self.reason.is_some() {
                    KillAction::WaitGroupAgain
                } else if signalled {
                    KillAction::WaitLeaderForever
                } else {
                    // There is no group to signal, and only the leader can be
                    // reached.
                    KillAction::KillLeader
                };
            },
            (KillAction::KillLeader, KillEvent::LeaderSignalled(signalled)) => {
                self.action = if signalled {
                    KillAction::WaitLeaderForever
                } else {
                    KillAction::Done(Err(ProcessError::KillError))
                };
            },
            (KillAction::WaitLeaderForever, KillEvent::Waited(exit)) => {
                self.reason = Some(killed_reason(exit));
                self.action = KillAction::WaitGroupAgain;
            },
            (KillAction::WaitGroupAgain, KillEvent::GroupGone(_)) => {
                self.action = match self.reason {
                    Some(reason) => KillAction::Done(Ok(reason)),
                    None => KillAction::Done(Err(ProcessError::NotRunning)),
                };
            },
            _ => {},
        }
        self.action
    }
}

/// A leader that had already exited keeps its own status: whatever happens to
/// the rest of the group, what is reported once its end is known is that end.
pub proof fn a_known_end_is_kept(kill: KillView, event: KillEvent, reason: Option<ExitReason>)
    requires
        kill.wf(),
        kill.reason is Some,
        kill.reaped(event, reason),
    ensures
        reason == kill.reason,
        kill.next(event, reason) matches KillAction::Done(result) ==> result
            == Ok::<ExitReason, ProcessError>(kill.reason->0),
{
}

/// Nothing is reported before everything has been tried: a kill is over only
/// once the group has emptied for a polite signal, or a forced one has gone
/// out — and it fails only if the leader could not be signalled at all.
pub proof fn a_kill_ends_only_when_everything_was_tried(
    kill: KillView,
    event: KillEvent,
    reason: Option<ExitReason>,
)
    requires
        kill.wf(),
        kill.reaped(event, reason),
        !(kill.action is Done),
        kill.next(event, reason) is Done,
    ensures
        (kill.action == KillAction::WaitGroup && event == KillEvent::GroupGone(true))
            || kill.action == KillAction::WaitGroupAgain || (kill.action
            == KillAction::KillLeader && event == KillEvent::LeaderSignalled(false)),
        kill.next(event, reason) == KillAction::Done(
            Err::<ExitReason, ProcessError>(ProcessError::KillError),
        ) <==> kill.action == KillAction::KillLeader,
{
}

/// How many actions a kill can still take.
pub open spec fn kill_steps_left(action: KillAction) -> int {
    match action {
        KillAction::TryWait => 8,
        KillAction::Terminate => 7,
        KillAction::WaitLeader => 6,
        KillAction::WaitGroup => 5,
        KillAction::Kill => 4,
        KillAction::KillLeader => 3,
        KillAction::WaitLeaderForever => 2,
        KillAction::WaitGroupAgain => 1,
        KillAction::Done(_) => 0,
    }
}

/// A kill comes to an end: every event it was waiting for takes it to an
/// action it had not come to yet.
pub proof fn a_kill_never_goes_back(kill: KillView, event: KillEvent, reason: Option<ExitReason>)
    requires
        kill.wf(),
        kill.reaped(event, reason),
    ensures
        kill.next(event, reason) == kill.action || kill_steps_left(kill.next(event, reason))
            < kill_steps_left(kill.action),
{
}

/// Whether `kills` is a kill from its beginning, one `events` after the other.
pub open spec fn kill_runs(graceful: bool, kills: Seq<KillView>, events: Seq<KillEvent>) -> bool {
    &&& kills.len() == events.len() + 1
    &&& kills[0] == (KillView { graceful, action: KillAction::TryWait, reason: None })
    &&& forall|i: int|
        #![trigger events[i]]
        0 <= i < events.len() ==> {
            &&& kills[i + 1].graceful == kills[i].graceful
            &&& kills[i].reaped(events[i], kills[i + 1].reason)
            &&& kills[i + 1].action == kills[i].next(events[i], kills[i + 1].reason)
        }
}

/// Whether the leader was found gone at `k`, before anything was signalled.
pub open spec fn found_gone(
    kills: Seq<KillView>,
    events: Seq<KillEvent>,
    k: int,
    exit: Exit,
) -> bool {
    kills[k].action == KillAction::TryWait && events[k] == KillEvent::Tried(Some(exit))
}

/// Whether the leader was waited for at `k`, which is after a signal, and
/// came to `exit`.
pub open spec fn waited_out(
    kills: Seq<KillView>,
    events: Seq<KillEvent>,
    k: int,
    exit: Option<Exit>,
) -> bool {
    &&& kills[k].action == KillAction::WaitLeader || kills[k].action
        == KillAction::WaitLeaderForever
    &&& events[k] == KillEvent::Waited(exit)
}

/// Where a kill has got to after the first `i` events, and when it learnt how
/// the leader ended.
proof fn lemma_kill_runs(graceful: bool, kills: Seq<KillView>, events: Seq<KillEvent>, i: int)
    requires
        kill_runs(graceful, kills, events),
        0 <= i < kills.len(),
    ensures
        kills[i].wf(),
        kills[i].graceful == graceful,
        kills[i].action == KillAction::TryWait ==> kills[i].reason is None && forall|k: int|
            0 <= k < i ==> (#[trigger] kills[k]).action == KillAction::TryWait && !(
            events[k] is Tried),
        forall|k: int, exit: Exit|
            0 <= k < i && #[trigger] found_gone(kills, events, k, exit) ==> {
                &&& kills[i].action != KillAction::TryWait
                &&& kills[i].reason matches Some(reason) && if exit.success {
                    reason is Success
                } else {
                    reason matches ExitReason::Error(code) && exit_reason::failure_code(exit, code)
                }
            },
        kills[i].reason matches Some(reason) ==> (exists|k: int, exit: Exit|
            0 <= k < i && #[trigger] found_gone(kills, events, k, exit)) || (exists|
            k: int,
            exit: Option<Exit>,
        |
            0 <= k < i && #[trigger] waited_out(kills, events, k, exit) && killed_by_us(
                exit,
                reason,
            )),
    decreases i,
{
    if i > 0 {
        lemma_kill_runs(graceful, kills, events, i - 1);
        let before = kills[i - 1];
        let event = events[i - 1];
        let after = kills[i];
        assert(before.reaped(event, after.reason));
        assert(after.action == before.next(event, after.reason));
        if let KillEvent::Tried(Some(exit)) = event {
            if before.action == KillAction::TryWait {
                assert(found_gone(kills, events, i - 1, exit));
            }
        }
        if let KillEvent::Waited(exit) = event {
            if before.action == KillAction::WaitLeader || before.action
                == KillAction::WaitLeaderForever {
                assert(waited_out(kills, events, i - 1, exit));
            }
        }
        assert forall|k: int, exit: Exit|
            0 <= k < i && #[trigger] found_gone(kills, events, k, exit) implies {
            &&& after.action != KillAction::TryWait
            &&& after.reason matches Some(reason) && if exit.success {
                reason is Success
            } else {
                reason matches ExitReason::Error(code) && exit_reason::failure_code(exit, code)
            }
        } by {
            if k < i - 1 {
                assert(before.reason is Some);
            }
        }
    }
}

/// A leader that is found gone keeps its own status, and only such a one does:
/// from its beginning to its end, a kill reports success for a leader that
/// ended well, a failure of its own for one that had ended badly before
/// anything was signalled, and having been killed — with the code of the exit
/// that was waited for — for any other. One that was still running when the
/// kill began is never reported as having failed by itself.
pub proof fn what_a_kill_reports(
    graceful: bool,
    kills: Seq<KillView>,
    events: Seq<KillEvent>,
    i: int,
    reason: ExitReason,
)
    requires
        kill_runs(graceful, kills, events),
        0 <= i < kills.len(),
        kills[i].action == KillAction::Done(Ok::<ExitReason, ProcessError>(reason)),
    ensures
        forall|k: int, exit: Exit|
            0 <= k < i && #[trigger] found_gone(kills, events, k, exit) ==> if exit.success {
                reason == ExitReason::Success
            } else {
                reason is Error && exit_reason::carries(exit, reason->Error_0)
            },
        (forall|k: int, exit: Exit| 0 <= k < i ==> !#[trigger] found_gone(kills, events, k, exit))
            ==> !(reason is Error) && exists|k: int, exit: Option<Exit>|
            0 <= k < i && #[trigger] waited_out(kills, events, k, exit) && match exit {
                Some(exit) => if exit.success {
                    reason == ExitReason::Success
                } else {
                    reason is Killed && exit_reason::carries(exit, reason->Killed_0)
                },
                None => reason == ExitReason::Killed(None),
            },
{
    lemma_kill_runs(graceful, kills, events, i);
    assert forall|k: int, exit: Exit|
        0 <= k < i && #[trigger] found_gone(kills, events, k, exit) implies if exit.success {
        reason == ExitReason::Success
    } else {
        reason is Error && exit_reason::carries(exit, reason->Error_0)
    } by {
        if !exit.success {
            exit_reason::a_failure_keeps_its_number(exit, reason->Error_0);
        }
    }
    if forall|k: int, exit: Exit| 0 <= k < i ==> !#[trigger] found_gone(kills, events, k, exit) {
        let (k, exit) = choose|k: int, exit: Option<Exit>|
            0 <= k < i && #[trigger] waited_out(kills, events, k, exit) && killed_by_us(
                exit,
                reason,
            );
        assert(waited_out(kills, events, k, exit));
        if let Some(exit) = exit {
            if !exit.success {
                exit_reason::a_failure_keeps_its_number(exit, reason->Killed_0);
            }
        }
    }
}

/// Whether `event` is what came of `action`, rather than of another.
pub open spec fn answers(action: KillAction, event: KillEvent) -> bool {
    match event {
        KillEvent::Tried(_) => action == KillAction::TryWait,
        KillEvent::Signalled(_) => action == KillAction::Terminate || action == KillAction::Kill,
        KillEvent::Waited(_) => action == KillAction::WaitLeader || action
            == KillAction::WaitLeaderForever,
        KillEvent::TimedOut => action == KillAction::WaitLeader,
        KillEvent::GroupGone(_) => action == KillAction::WaitGroup || action
            == KillAction::WaitGroupAgain,
        KillEvent::LeaderSignalled(_) => action == KillAction::KillLeader,
    }
}

/// A kill never hangs on an answer: what came of an action always takes it to
/// another one.
pub proof fn a_kill_goes_on_from_every_answer(
    kill: KillView,
    event: KillEvent,
    reason: Option<ExitReason>,
)
    requires
        kill.wf(),
        kill.reaped(event, reason),
        answers(kill.action, event),
    ensures
        kill.next(event, reason) != kill.action,
{
}

/// The polite signal goes out first, and only where politeness was asked for;
/// the one that cannot be ignored follows exactly where the polite one found
/// nobody, was not heeded in time, or left somebody behind.
pub proof fn force_follows_politeness(
    graceful: bool,
    kills: Seq<KillView>,
    events: Seq<KillEvent>,
    i: int,
)
    requires
        kill_runs(graceful, kills, events),
        0 <= i < events.len(),
    ensures
        kills[i].action == KillAction::TryWait && events[i] is Tried ==> kills[i + 1].action
            == if graceful {
            KillAction::Terminate
        } else {
            KillAction::Kill
        },
        !graceful ==> kills[i].action != KillAction::Terminate && kills[i].action
            != KillAction::WaitLeader && kills[i].action != KillAction::WaitGroup,
        kills[i].action == KillAction::Terminate && events[i] == KillEvent::Signalled(false)
            ==> kills[i + 1].action == KillAction::Kill,
        kills[i].action == KillAction::Terminate && events[i] == KillEvent::Signalled(true)
            ==> kills[i + 1].action != KillAction::Kill && !(kills[i + 1].action is Done),
        kills[i].action == KillAction::WaitLeader && events[i] == KillEvent::TimedOut
            ==> kills[i + 1].action == KillAction::Kill,
        kills[i].action == KillAction::WaitLeader && events[i] is Waited ==> kills[i + 1].action
            == KillAction::WaitGroup,
        kills[i].action == KillAction::WaitGroup && events[i] == KillEvent::GroupGone(false)
            ==> kills[i + 1].action == KillAction::Kill,
        kills[i].action == KillAction::WaitGroup && events[i] == KillEvent::GroupGone(true)
            ==> kills[i + 1].action is Done,
        kills[i + 1].action == KillAction::Kill && kills[i].action != KillAction::Kill && graceful
            ==> {
            ||| kills[i].action == KillAction::Terminate && events[i] == KillEvent::Signalled(false)
            ||| kills[i].action == KillAction::WaitLeader && events[i] == KillEvent::TimedOut
            ||| kills[i].action == KillAction::WaitGroup && events[i] == KillEvent::GroupGone(
                false,
            )
        },
        kills[i].action == KillAction::Kill && events[i] == KillEvent::Signalled(false)
            && kills[i].reason is None ==> kills[i + 1].action == KillAction::KillLeader,
        kills[i + 1].action == KillAction::KillLeader && kills[i].action != KillAction::KillLeader
            ==> events[i] == KillEvent::Signalled(false),
{
    lemma_kill_runs(graceful, kills, events, i);
    lemma_kill_runs(graceful, kills, events, i + 1);
    assert(kills[i].reaped(events[i], kills[i + 1].reason));
}

} // verus!
