//! Where a server listens, and what happens to the socket a crashed one left
//! behind.

use crate::util::text;
use vstd::prelude::*;
use vstd::string::*;

verus! {

/// The socket is for its owner alone.
pub const SOCKET_MODE: u32 = 0o600;

/// Where a server listens when nothing says: under the runtime directory, or
/// under the system's where there is none.
pub open spec fn default_path(runtime: Option<Seq<char>>) -> Seq<char> {
    match runtime {
        Some(runtime) => if runtime.len() == 0 || runtime.last() == '/' {
            runtime + "tush.sock"@
        } else {
            runtime + "/tush.sock"@
        },
        None => "/var/run/tush.sock"@,
    }
}

/// Where a server listens when the command line did not say: one fixed name
/// under the runtime directory, so that both ends can say it from memory.
pub fn default_socket_path(runtime: Option<&str>) -> (path: String)
    ensures
        path@ == default_path(
            match runtime {
                Some(runtime) => Some(runtime@),
                None => None,
            },
        ),
{
    match runtime {
        Some(runtime) => {
            let len = runtime.unicode_len();
            if len == 0 || runtime.get_char(len - 1) == '/' {
                text::owned(runtime).concat("tush.sock")
            } else {
                text::owned(runtime).concat("/tush.sock")
            }
        },
        None => text::owned("/var/run/tush.sock"),
    }
}

/// What taking a socket asks to be done next, or how it ended.
#[derive(Clone, Copy, PartialEq, Eq, Debug, Structural)]
pub enum BindAction {
    /// Listen on the path.
    Bind,
    /// See whether anybody answers on it.
    Connect,
    /// Remove the file nobody answers on.
    Remove,
    /// Listen on the path, now that it is free.
    BindAgain,
    /// It is listening: close the socket off to everybody else.
    Restrict,
    /// A live server has the path.
    AlreadyRunning,
    /// The path cannot be listened on.
    Failed,
    /// It is done.
    Done,
}

/// What came of an action.
#[derive(Clone, Copy, PartialEq, Eq, Debug, Structural)]
pub enum BindEvent {
    /// It worked.
    Done,
    /// The path is taken.
    InUse,
    /// It did not work.
    Failed,
}

/// What is done next.
///
/// A socket file whose server died looks exactly like a live one, so this
/// asks instead: a connection that is refused means nobody is accepting and
/// the file is debris, and one that succeeds means a real server. Closing the
/// socket off is a best effort, and failing at it is no failure.
pub open spec fn bind_next(action: BindAction, event: BindEvent) -> BindAction {
    match (action, event) {
        (BindAction::Bind, BindEvent::Done) => BindAction::Restrict,
        (BindAction::Bind, BindEvent::InUse) => BindAction::Connect,
        (BindAction::Bind, BindEvent::Failed) => BindAction::Failed,
        (BindAction::Connect, BindEvent::Done) => BindAction::AlreadyRunning,
        (BindAction::Connect, _) => BindAction::Remove,
        (BindAction::Remove, BindEvent::Done) => BindAction::BindAgain,
        (BindAction::Remove, _) => BindAction::Failed,
        (BindAction::BindAgain, BindEvent::Done) => BindAction::Restrict,
        (BindAction::BindAgain, _) => BindAction::Failed,
        (BindAction::Restrict, _) => BindAction::Done,
        (BindAction::AlreadyRunning, _) => BindAction::AlreadyRunning,
        (BindAction::Failed, _) => BindAction::Failed,
        (BindAction::Done, _) => BindAction::Done,
    }
}

impl BindAction {
    /// What taking a path starts with.
    pub fn start() -> (action: Self)
        ensures
            action == BindAction::Bind,
    {
        BindAction::Bind
    }

    /// What is done next, once `event` has come of this.
    pub fn next(self, event: BindEvent) -> (next: Self)
        ensures
            next == bind_next(self, event),
    {
        match (self, event) {
            (BindAction::Bind, BindEvent::Done) => BindAction::Restrict,
            (BindAction::Bind, BindEvent::InUse) => BindAction::Connect,
            (BindAction::Bind, BindEvent::Failed) => BindAction::Failed,
            (BindAction::Connect, BindEvent::Done) => BindAction::AlreadyRunning,
            (BindAction::Connect, _) => BindAction::Remove,
            (BindAction::Remove, BindEvent::Done) => BindAction::BindAgain,
            (BindAction::Remove, _) => BindAction::Failed,
            (BindAction::BindAgain, BindEvent::Done) => BindAction::Restrict,
            (BindAction::BindAgain, _) => BindAction::Failed,
            (BindAction::Restrict, _) => BindAction::Done,
            (BindAction::AlreadyRunning, _) => BindAction::AlreadyRunning,
            (BindAction::Failed, _) => BindAction::Failed,
            (BindAction::Done, _) => BindAction::Done,
        }
    }
}

/// A socket is removed if, and only if, nobody answered on it: a live server
/// never loses its path to another, and one that is gone never keeps it.
pub proof fn a_live_server_keeps_its_socket(action: BindAction, event: BindEvent)
    ensures
        bind_next(action, event) == BindAction::Remove <==> action == BindAction::Connect && event
            != BindEvent::Done,
        bind_next(BindAction::Connect, BindEvent::Done) == BindAction::AlreadyRunning,
{
}

/// How many actions are left at most.
pub open spec fn steps_left(action: BindAction) -> nat {
    match action {
        BindAction::Bind => 5,
        BindAction::Connect => 4,
        BindAction::Remove => 3,
        BindAction::BindAgain => 2,
        BindAction::Restrict => 1,
        _ => 0,
    }
}

/// Taking a socket always comes to an end: every step leaves fewer.
pub proof fn taking_a_socket_ends(action: BindAction, event: BindEvent)
    requires
        steps_left(action) > 0,
    ensures
        steps_left(bind_next(action, event)) < steps_left(action),
{
}

/// A path is taken as soon as it can be listened on, and closed off to others
/// before anything else is done, whether or not that can be. One that is taken
/// is asked before anything is removed, and what cannot be listened on even
/// then is given up.
pub proof fn how_a_path_is_taken(action: BindAction, event: BindEvent)
    ensures
        event == BindEvent::Done && (action == BindAction::Bind || action == BindAction::BindAgain)
            ==> bind_next(action, event) == BindAction::Restrict,
        bind_next(action, event) == BindAction::Restrict ==> event == BindEvent::Done && (action
            == BindAction::Bind || action == BindAction::BindAgain),
        action == BindAction::Restrict ==> bind_next(action, event) == BindAction::Done,
        bind_next(action, event) == BindAction::Done ==> action == BindAction::Restrict || action
            == BindAction::Done,
        action == BindAction::Bind && event == BindEvent::InUse ==> bind_next(action, event)
            == BindAction::Connect,
        action == BindAction::Bind && event == BindEvent::Failed ==> bind_next(action, event)
            == BindAction::Failed,
        action == BindAction::Remove ==> bind_next(action, event) == if event == BindEvent::Done {
            BindAction::BindAgain
        } else {
            BindAction::Failed
        },
        action == BindAction::BindAgain && event != BindEvent::Done ==> bind_next(action, event)
            == BindAction::Failed,
        bind_next(action, event) == BindAction::AlreadyRunning ==> action
            == BindAction::AlreadyRunning || (action == BindAction::Connect && event
            == BindEvent::Done),
{
}

/// The path nobody named is one file name under the runtime directory, with
/// one slash between the two, however the directory is written.
pub proof fn the_default_path_is_under_the_runtime_directory(runtime: Seq<char>)
    requires
        runtime.len() > 0,
    ensures
        ({
            let name = seq!['t', 'u', 's', 'h', '.', 's', 'o', 'c', 'k'];
            let path = default_path(Some(runtime));
            &&& runtime.last() == '/' ==> path == runtime + name
            &&& runtime.last() != '/' ==> path == runtime + seq!['/'] + name
        }),
        default_path(None) == default_path(
            Some(seq!['/', 'v', 'a', 'r', '/', 'r', 'u', 'n']),
        ),
{
    reveal_strlit("tush.sock");
    reveal_strlit("/tush.sock");
    reveal_strlit("/var/run/tush.sock");
    assert("tush.sock"@ =~= seq!['t', 'u', 's', 'h', '.', 's', 'o', 'c', 'k']);
    assert("/tush.sock"@ =~= seq!['/', 't', 'u', 's', 'h', '.', 's', 'o', 'c', 'k']);
    assert(runtime + "/tush.sock"@ =~= runtime + seq!['/'] + seq![
        't',
        'u',
        's',
        'h',
        '.',
        's',
        'o',
        'c',
        'k',
    ]);
    let run = seq!['/', 'v', 'a', 'r', '/', 'r', 'u', 'n'];
    assert("/var/run/tush.sock"@ =~= run + "/tush.sock"@);
}

} // verus!
