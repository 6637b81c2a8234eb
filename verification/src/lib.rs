//! An append-only, offset-addressed commit log.
//!
//! The log is a sequence of opaque byte records. Each appended record is
//! assigned a dense, monotonically increasing 64-bit offset and can be read
//! back by that offset. Records live in segments; each segment pairs a
//! length-prefixed record store with a fixed-width offset index. The log
//! rotates to a fresh segment when the active one reaches its capacity caps
//! and truncates by dropping whole segments below a cutoff.
//!
//! This crate holds the engine itself: the on-disk byte formats, the
//! torn-write recovery scan, offset assignment, segment rotation and read
//! dispatch, all with verified contracts. File handling (memory maps, file
//! creation and deletion, directory listing) is left to the embedding
//! application, which feeds file contents in and writes them back out.

use vstd::prelude::*;

pub mod errors;
pub mod filenames;
pub mod index;
pub mod segment;
pub mod log;
pub mod store;

verus! {

/// Result of a top-level operation.
pub type ProglogResult<T> = Result<T, crate::errors::ProglogError>;

/// Result of a store operation.
pub type StorageResult<T> = Result<T, crate::errors::StorageError>;

/// Result of an index operation.
pub type IndexResult<T> = Result<T, crate::errors::IndexError>;

/// Result of a segment operation.
pub type SegmentResult<T> = Result<T, crate::errors::SegmentError>;

/// Result of a log operation.
pub type LogResult<T> = Result<T, crate::errors::LogError>;

} // verus!
