//! Low level building blocks shared by the rest of the library.
//!
//! Nothing in here knows about units or supervision policy: how a process
//! finished, what ending one takes, and a plain history of lines.

pub mod exit_reason;
pub mod group;
pub mod log;
pub mod process;

pub use exit_reason::{Exit, ExitCode, ExitReason};
pub use process::{KillAction, KillEvent, ProcessKill, ProcessStage};
