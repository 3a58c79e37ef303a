//! Small pieces the rest of the library is built from.

pub mod bytes;
pub mod graph;
pub mod interner;
pub mod ring;
pub mod small;
pub mod text;
pub mod utf8;
