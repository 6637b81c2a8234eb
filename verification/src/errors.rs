//! Error taxonomy of the commit log.
//!
//! Errors bubble upward wrapped at layer boundaries: store and index errors
//! are wrapped into segment errors, segment errors into log errors. The
//! variants that stem from file handling (`OpenFailed`, `MmapFailed`, ...)
//! are constructed by the embedding application when its I/O fails; the
//! engine itself only produces the structural ones (`ReadBeyondEnd`,
//! `CorruptedRecord`, `OffsetNotFound`, `SegmentFull`, `OffsetOutOfRange`).

use vstd::prelude::*;

verus! {

/// Top-level error of the crate.
#[derive(Debug)]
pub enum ProglogError {
    Storage(StorageError),
    Index(IndexError),
    Network(NetworkError),
    Consensus(ConsensusError),
    Config { message: String },
    Internal { message: String },
}

/// Errors of the record store.
#[derive(Debug)]
pub enum StorageError {
    OpenFailed { path: String },
    WriteFailed { position: u64 },
    ReadFailed { position: u64 },
    ReadBeyondEnd { position: u64, size: u64 },
    CorruptedRecord { position: u64, reason: String },
    GrowFailed { current_size: u64, target_size: u64 },
    MmapFailed { size: u64 },
    ReadOnly,
}

/// Errors of the offset index.
#[derive(Debug)]
pub enum IndexError {
    OpenFailed { path: String },
    WriteFailed { position: u64 },
    OffsetNotFound { offset: u64 },
    CorruptedEntry { position: u64 },
    CorruptedFile { reason: String },
    GrowFailed { current_size: u64, target_size: u64 },
    MmapFailed { size: u64 },
    IndexFull,
    InvalidOffset { offset: u64, min_offset: u64 },
}

/// Errors of a segment: its own range and capacity errors, plus wrapped
/// store and index errors.
#[derive(Debug)]
pub enum SegmentError {
    SegmentFull { base_offset: u64, max_size: u64, current_size: u64 },
    OffsetOutOfRange { offset: u64, base_offset: u64, next_offset: u64 },
    Storage(StorageError),
    Index(IndexError),
}

/// Errors of the log: directory and cleanup failures (raised by the
/// embedding application), offsets outside every segment, and wrapped
/// segment errors.
#[derive(Debug)]
pub enum LogError {
    DirectoryError { path: String },
    OffsetNotFound { offset: u64, base_offset: u64, next_offset: u64 },
    CleanupError { base_offset: u64 },
    Segment(SegmentError),
}

/// Errors of the network adapter around the log.
#[derive(Debug)]
pub enum NetworkError {
    ConnectionFailed { address: String },
    Timeout { timeout_ms: u64 },
    InvalidRequest { reason: String },
    AuthenticationFailed,
    ServerUnavailable,
}

/// Errors of a (future) consensus layer above the log.
#[derive(Debug)]
pub enum ConsensusError {
    NotLeader { leader_id: Option<String> },
    NoLeader,
    Timeout,
    InsufficientReplicas { required: usize, available: usize },
    LogDivergence { index: u64 },
}

impl StorageError {
    /// Which storage errors denote a transient condition worth retrying.
    pub open spec fn is_recoverable_spec(&self) -> bool {
        match self {
            StorageError::WriteFailed { .. } => true,
            StorageError::ReadFailed { .. } => true,
            StorageError::GrowFailed { .. } => true,
            _ => false,
        }
    }

    /// Whether the error is recoverable: transient I/O may be retried,
    /// while corruption, out-of-bounds reads and read-only stores are not.
    pub fn is_recoverable(&self) -> (r: bool)
        ensures
            r == self.is_recoverable_spec(),
    {
        match self {
            StorageError::WriteFailed { .. } => true,
            StorageError::ReadFailed { .. } => true,
            StorageError::GrowFailed { .. } => true,
            StorageError::ReadBeyondEnd { .. } => false,
            StorageError::CorruptedRecord { .. } => false,
            StorageError::ReadOnly => false,
            _ => false,
        }
    }
}

impl ProglogError {
    /// Which top-level errors denote a condition worth retrying.
    pub open spec fn is_recoverable_spec(&self) -> bool {
        match self {
            ProglogError::Storage(e) => e.is_recoverable_spec(),
            ProglogError::Network(NetworkError::Timeout { .. }) => true,
            ProglogError::Network(NetworkError::ServerUnavailable) => true,
            ProglogError::Consensus(ConsensusError::Timeout) => true,
            ProglogError::Consensus(ConsensusError::NotLeader { .. }) => true,
            _ => false,
        }
    }

    /// Whether the error is recoverable (the caller may retry).
    pub fn is_recoverable(&self) -> (r: bool)
        ensures
            r == self.is_recoverable_spec(),
    {
        match self {
            ProglogError::Storage(e) => e.is_recoverable(),
            ProglogError::Network(NetworkError::Timeout { .. }) => true,
            ProglogError::Network(NetworkError::ServerUnavailable) => true,
            ProglogError::Consensus(ConsensusError::Timeout) => true,
            ProglogError::Consensus(ConsensusError::NotLeader { .. }) => true,
            _ => false,
        }
    }

    /// Which top-level errors denote a temporary condition.
    pub open spec fn is_temporary_spec(&self) -> bool {
        ||| self matches ProglogError::Storage(StorageError::WriteFailed { .. })
        ||| self matches ProglogError::Storage(StorageError::ReadFailed { .. })
        ||| self matches ProglogError::Network(NetworkError::Timeout { .. })
        ||| self matches ProglogError::Network(NetworkError::ServerUnavailable)
        ||| self matches ProglogError::Consensus(ConsensusError::NoLeader)
    }

    /// Whether the error indicates a temporary condition that may clear on
    /// its own.
    pub fn is_temporary(&self) -> (r: bool)
        ensures
            r == self.is_temporary_spec(),
    {
        match self {
            ProglogError::Storage(StorageError::WriteFailed { .. }) => true,
            ProglogError::Storage(StorageError::ReadFailed { .. }) => true,
            ProglogError::Network(NetworkError::Timeout { .. }) => true,
            ProglogError::Network(NetworkError::ServerUnavailable) => true,
            ProglogError::Consensus(ConsensusError::NoLeader) => true,
            _ => false,
        }
    }
}

} // verus!
