//! What a screen is handed to draw.

use crate::log::{LogLine, LogRegion};
use vstd::prelude::*;

verus! {

/// What a client has for the log pane: some lines, and what they are.
pub struct UiLog<'a> {
    /// Which region these lines actually are.
    ///
    /// The answer's region, not the question's, and the two can differ: a
    /// client that has not caught up with a scroll holds the region from
    /// before it. Reporting it is what lets the pane draw what came back, at
    /// the offset it belongs at, rather than blanking for as long as a round
    /// trip takes.
    pub region: LogRegion,
    /// What the log these came from had written when they were taken.
    ///
    /// A change token and nothing more: compare two, and different means the
    /// log moved under the region. Only comparable within one unit.
    pub revision: u64,
    /// The lines, oldest first.
    pub lines: &'a Vec<LogLine>,
}

} // verus!
