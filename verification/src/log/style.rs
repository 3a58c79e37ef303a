//! The colours and decorations a line is written in.

use vstd::prelude::*;

verus! {

/// A colour a sequence named.
///
/// An index stays an index: the sixteen named colours and the 256 palette are
/// one table, and which of its cells is which is the terminal's business.
#[derive(Clone, Copy, PartialEq, Eq, Debug, Structural)]
pub enum LogColor {
    Indexed(u8),
    Rgb(u8, u8, u8),
}

/// Which decorations are on.
#[derive(Clone, Copy, PartialEq, Eq, Debug, Structural)]
pub struct LogEffects {
    pub bold: bool,
    pub dim: bool,
    pub italic: bool,
    pub underline: bool,
    pub reverse: bool,
    pub strike: bool,
}

/// How a stretch of a line is written.
#[derive(Clone, Copy, PartialEq, Eq, Debug, Structural)]
pub struct LogStyle {
    pub foreground: Option<LogColor>,
    pub background: Option<LogColor>,
    pub effects: LogEffects,
}

/// Where a line starts being written in some style, which it is until the
/// next run, or until it ends.
#[derive(Clone, Copy, PartialEq, Eq, Debug, Structural)]
pub struct LogRun {
    /// The byte of the line it starts at.
    pub index: usize,
    pub style: LogStyle,
}

} // verus!
