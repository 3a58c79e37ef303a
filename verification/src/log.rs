//! Capture of a process's output, from raw bytes to a bounded history.
//!
//! Bytes go into a [`LogBuffer`], which cuts them into lines of text and
//! packs those into [`LogChunk`]s; chunks go into a [`Log`], which keeps the
//! newest of them and drops the oldest; and a [`LogReader`] is a copy of that
//! history of its own, brought up to date when it is asked to be. What is
//! still being written, a line with no end yet, is shown and not kept: a
//! [`Partials`](partials::Partials) holds it until the line is over.

pub mod buffer;
pub mod chunk;
pub mod id;
pub mod line;
pub mod partials;
pub mod reader;
pub mod region;
pub mod store;
pub mod style;
pub mod writer;

pub use buffer::{
    is_disconnected, BufferView, LogBufferAny, LogBufferWriter, LogReadError, SinkCall, SinkView,
    LOG_BUFFER_SIZE,
};
pub use chunk::{
    ChunkView, LogChunk, LogChunkData, LogChunkDataIter, LOG_CHUNK_LIMIT, LOG_CHUNK_MAX_LINES,
    LOG_CHUNK_SIZE,
};
pub use id::LogWriterId;
pub use line::{LineFed, LineView, LogBufferLine, LogBufferLineState, LOG_LINE_SIZE};
pub use reader::{LogReader, LogReaderIter, LogReaderRef, PieceView, ReaderView};
pub use region::{clip_into, open_line, LogClip, LogLine, LogLineView, LogRegion};
pub use store::{Log, LogView};
pub use style::{LogColor, LogEffects, LogRun, LogStyle};
pub use writer::{LogBuffer, LogWriterNotes, LogWriterRef};
