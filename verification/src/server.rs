//! A session with no screen, listening for something to attach to it.
//!
//! Here the session is the process: it outlives every connection, nothing a
//! client does can end it, and the only thing that stops it is a signal.
//!
//! - [`ServerState`] — what a connection reads the session through.
//! - [`ServerPrinterUnit`] — the session's output, as lines.
//! - [`http`] — what a request says and what an answer comes to.
//! - [`socket`] — where the socket lives, and what happens to the one a
//!   crashed server left behind.

pub mod http;
pub mod print;
pub mod socket;
pub mod state;

pub use print::ServerPrinterUnit;
pub use socket::{default_socket_path, BindAction, BindEvent};
pub use state::{ServerLog, ServerLogResult, ServerState, ServerUnitResult, ServerUnits};
