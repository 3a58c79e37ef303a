//! The session: a config that has been checked, and what is built from it.
//!
//! [`Config`](crate::config::Config) is whatever the file said. [`App`] is
//! that config once it has been found sound — every `depends` naming a proc
//! that exists, no proc ambiguous about how it runs, nothing waiting on
//! itself. The conversion is [`App::new`], and it is the only way to get one,
//! so holding an `App` is holding the answer to those questions.
//!
//! When it is not sound, what comes back is every problem found, not the
//! first one, because a config with three mistakes in it is about to be fixed
//! and one mistake per run is three runs of the same discovery.

pub mod error;
pub mod lifecycle;
pub mod promises;
pub mod schedule;
pub mod session;
pub mod target;
pub mod unit_map;

pub use error::AppErrors;
pub use schedule::{AppSchedule, ScheduledStart};
pub use session::{App, AppDispatch, AppView};
pub use target::{Target, TargetError, TargetView, TARGET_SEPARATOR};
pub use unit_map::{AppUnitEntry, AppUnitKey, AppUnitMap, UnitMapView};
