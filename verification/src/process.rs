//! Processes by name: each with its command, its history and its run.
//!
//! - [`ProcessState`] — where one run is.
//! - [`ProcessChild`] — whether there is a child to wait for.
//! - [`ProcessHandle`] — one run, from its start to its end.
//! - [`Process`] — a command that is run and run again.
//! - [`ProcessPool`] — processes by name.

pub mod child;
pub mod handle;
pub mod pool;
pub mod single;
pub mod state;

pub use child::ProcessChild;
pub use handle::ProcessHandle;
pub use pool::ProcessPool;
pub use single::Process;
pub use state::{ProcessFault, ProcessState};
