//! Durability for the vector indices.
//!
//! Persistence follows the append-log-plus-snapshot shape: every mutation is
//! appended to a log and flushed, so a crash loses nothing committed; a snapshot
//! periodically captures the full live state and lets the log be truncated so
//! replay stays bounded. On startup the registry is rebuilt from the snapshot and
//! the log is then replayed on top; what a crash left half written is cut off the
//! log before anything is appended to it again.
//!
//! This module frames and reads the bytes of both files and says what they mean;
//! the files themselves are the caller's.

pub mod durability;
pub mod log_end;
pub mod op;
pub mod recovery;
pub mod replay;
pub mod room;
pub mod snapshot;
pub mod wal;
