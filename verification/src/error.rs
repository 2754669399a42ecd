//! Error taxonomy for the whole ingestion pipeline.

use vstd::prelude::*;

verus! {

/// Failure conditions reported by the parser.
///
/// `FileNotFound` is raised by callers that resolve a path before handing
/// bytes to the library; the remaining variants are raised by the library
/// itself. The `String` payloads carry human-readable detail and play no
/// role in any contract.
#[derive(Debug, Clone)]
pub enum AnkiError {
    /// The source path does not exist.
    FileNotFound(String),
    /// The container is corrupt, or none of the recognized record-store
    /// entries is present.
    InvalidArchive,
    /// The record store could not be opened or queried.
    DatabaseError(String),
    /// A zstd frame failed to decompress.
    DecompressionError(String),
    /// A media asset could not be processed.
    MediaError(String),
    /// A JSON payload was malformed where one was required.
    JsonError(String),
    /// Any other I/O failure.
    IoError(String),
}

} // verus!
