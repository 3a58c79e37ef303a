//! The terminal screen: what is drawn where, and what the keys do.
//!
//! - [`Ui`] — the keys, and the panes they act on.
//! - [`render`] — the panes, and the frame they sit in.
//! - [`UiTheme`] — every fixed character and colour the panes draw with.
//!
//! Nothing here touches a terminal: a frame is a list of [`UiDraw`]s for
//! whatever has one.

pub mod app;
pub mod client;
pub mod draw;
pub mod keys;
pub mod render;
pub mod theme;

pub use app::{AppLog, UiApp};
pub use client::UiLog;
pub use draw::{UiArea, UiDraw, UiFit, UiPen, UiPiece, UiStyle};
pub use keys::{Ui, UiAsk, UiKey, UiPress, UiVerb};
pub use theme::{
    UiBorder, UiColor, UiTheme, UiThemeColors, UiThemeMenuLayout, UiThemeSymbols, UiThemeTexts,
};
