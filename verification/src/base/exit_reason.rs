use vstd::prelude::*;

verus! {

/// A failure code: any byte but zero, which is not one.
#[derive(Clone, Copy, PartialEq, Eq, Debug, Hash, Structural)]
pub struct ExitCode {
    code: u8,
}

impl ExitCode {
    #[verifier::type_invariant]
    spec fn inv(self) -> bool {
        self.code > 0
    }

    /// The code.
    pub closed spec fn spec_get(self) -> u8 {
        self.code
    }

    /// Two codes are the same one when they are the same number.
    pub proof fn same_number_same_code(self, other: ExitCode)
        ensures
            self.spec_get() == other.spec_get() <==> self == other,
    {
    }

    /// The code numbered `code`, or nothing for zero.
    pub fn new(code: u8) -> (exit_code: Option<Self>)
        ensures
            code == 0 ==> exit_code is None,
            code > 0 ==> exit_code is Some && exit_code->0.spec_get() == code,
    {
        if code == 0 {
            None
        } else {
            Some(Self { code })
        }
    }

    /// The code.
    pub fn get(&self) -> (code: u8)
        ensures
            code == self.spec_get(),
            code > 0,
    {
        proof {
            use_type_invariant(&*self);
        }
        self.code
    }
}

/// How a process finished.
///
/// A zero code is already represented by [`ExitReason::Success`]. A `None`
/// code means the process died without reporting one (killed by a signal, or
/// the wait itself failed).
#[derive(Clone, Copy, PartialEq, Eq, Debug, Structural)]
pub enum ExitReason {
    /// The process exited on its own with a zero status.
    Success,
    /// The process exited on its own with a non zero status.
    Error(Option<ExitCode>),
    /// The process was terminated by us (`shutdown` or `kill`).
    Killed(Option<ExitCode>),
}

/// What the system reports of a process that is gone: whether it succeeded,
/// and the code it exited with, if it exited and was not ended by a signal.
#[derive(Clone, Copy, PartialEq, Eq, Debug, Structural)]
pub struct Exit {
    pub success: bool,
    pub code: Option<i32>,
}

/// The failure code in `exit`: the low byte of what it reports, if that says
/// anything.
pub open spec fn failure_code(exit: Exit, code: Option<ExitCode>) -> bool {
    match exit.code {
        Some(raw) => if (raw as u8) == 0 {
            code is None
        } else {
            code is Some && code->0.spec_get() == raw as u8
        },
        None => code is None,
    }
}

fn exit_code(exit: Exit) -> (code: Option<ExitCode>)
    ensures
        failure_code(exit, code),
{
    match exit.code {
        Some(raw) => ExitCode::new(raw as u8),
        None => None,
    }
}

/// The status a process reports for itself, as opposed to one we ended.
pub fn exited_reason(exit: Exit) -> (reason: ExitReason)
    ensures
        exit.success ==> reason is Success,
        !exit.success ==> (reason matches ExitReason::Error(code) && failure_code(exit, code)),
{
    if exit.success {
        ExitReason::Success
    } else {
        ExitReason::Error(exit_code(exit))
    }
}

/// The status of a process we signalled. A failed wait — `None` — still means
/// gone.
pub fn killed_reason(exit: Option<Exit>) -> (reason: ExitReason)
    ensures
        match exit {
            Some(exit) => if exit.success {
                reason is Success
            } else {
                reason matches ExitReason::Killed(code) && failure_code(exit, code)
            },
            None => reason == ExitReason::Killed(None),
        },
{
    match exit {
        Some(exit) => {
            if exit.success {
                ExitReason::Success
            } else {
                ExitReason::Killed(exit_code(exit))
            }
        },
        None => ExitReason::Killed(None),
    }
}

/// How a process that was waited for ended. A failed wait — `None` — is
/// reported as a failure rather than as an error of its own, since the process
/// is gone either way.
pub fn waited_reason(exit: Option<Exit>) -> (reason: ExitReason)
    ensures
        match exit {
            Some(exit) => if exit.success {
                reason is Success
            } else {
                reason matches ExitReason::Error(code) && failure_code(exit, code)
            },
            None => reason == ExitReason::Error(None),
        },
{
    match exit {
        Some(exit) => exited_reason(exit),
        None => ExitReason::Error(None),
    }
}

/// Whether `code` is the number `exit` reports: none where it reports none,
/// or zero, and that very number where it is one that fits in a byte.
pub open spec fn carries(exit: Exit, code: Option<ExitCode>) -> bool {
    match exit.code {
        Some(raw) => {
            &&& raw == 0 ==> code is None
            &&& 0 < raw < 256 ==> code is Some && code->0.spec_get() == raw
        },
        None => code is None,
    }
}

/// A failure code is the number the system reports: a process that exits with
/// a number from one to what fits in a byte failed with exactly that one, and
/// one that was ended by a signal reports none.
pub proof fn a_failure_keeps_its_number(exit: Exit, code: Option<ExitCode>)
    requires
        failure_code(exit, code),
    ensures
        carries(exit, code),
{
    if let Some(raw) = exit.code {
        if 0 <= raw < 256 {
            assert(raw as u8 == raw) by (bit_vector)
                requires
                    0 <= raw < 256,
            ;
        }
    }
}

} // verus!
