//! The screen's panes, each drawn from what it remembers and what it is
//! handed, and the frame they sit in.

pub mod frame;
pub mod log;
pub mod menu;
pub mod units;

pub use frame::UiRender;
pub use log::UiRenderLogState;
pub use menu::{UiMenuChoice, UiRenderMenuState};
pub use units::{minor_start, Move, UiRenderUnitsState};
