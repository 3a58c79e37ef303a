//! Supervision of a single runnable thing.
//!
//! [`RunnerState`] is where a run is in its lifecycle, [`RunnerHandle`] the
//! supervising of one run, and [`RunnerSerial`] several things run one after
//! the other as one. Running, waiting and stopping happen elsewhere; here is
//! what each of them means and what is done next.

pub mod handle;
pub mod policy;
pub mod process;
pub mod serial;
pub mod state;
pub mod unit;

pub use handle::{RunnerHandle, RunnerHandleView, RunnerPhase};
pub use policy::RunnerPolicy;
pub use process::RunnerProcessDescription;
pub use serial::{RunnerSerial, SerialStep, SerialView};
pub use state::RunnerState;
pub use unit::{RunnerUnit, RunnerUnitRun};
