//! A process manager's verified core: capturing output, keeping its recent
//! history, and deciding what runs when.

pub mod app;
pub mod base;
pub mod cli;
pub mod config;
pub mod error;
pub mod log;
pub mod process;
pub mod runner;
pub mod server;
pub mod ui;
pub mod unit;
pub mod util;
pub mod view;
