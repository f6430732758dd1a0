//! Error taxonomy of the synchronization engine.

use vstd::prelude::*;

verus! {

/// Why a file's synchronization failed (or was interrupted).
#[derive(Clone, Copy, Debug, PartialEq, Eq, Structural)]
pub enum SyncError {
    /// Network or HTTP failure; retried up to the policy's attempt count,
    /// then surfaced.
    Transport,
    /// Unparsable or inconsistent archive header / descriptor table; fatal,
    /// never retried.
    MalformedArchive,
    /// A fetched chunk decompressed to bytes whose hash differs from its
    /// descriptor; fatal, the bytes are never written.
    Integrity,
    /// The chunk codec failed to decompress; fatal for that chunk's file.
    Decode,
    /// Local filesystem failure; fatal for that file.
    Io,
    /// Cooperative shutdown was requested; not a failure exit condition.
    Cancelled,
}

impl SyncError {
    /// A short human-readable description of the error.
    pub fn describe(&self) -> String {
        match self {
            SyncError::Transport => "transport failure".to_owned(),
            SyncError::MalformedArchive => "malformed archive".to_owned(),
            SyncError::Integrity => "chunk integrity mismatch".to_owned(),
            SyncError::Decode => "chunk decompression failure".to_owned(),
            SyncError::Io => "local i/o failure".to_owned(),
            SyncError::Cancelled => "cancelled".to_owned(),
        }
    }
}

/// Top-level error reported by an updater front-end.
#[derive(Debug)]
pub enum UpdaterError {
    UpdateError(String),
    CommandError(String),
    NewsError(String),
}

impl UpdaterError {
    /// The message carried by the error.
    pub fn message(&self) -> (r: String)
        ensures
            r@ == match self {
                UpdaterError::UpdateError(m) => m@,
                UpdaterError::CommandError(m) => m@,
                UpdaterError::NewsError(m) => m@,
            },
    {
        match self {
            UpdaterError::UpdateError(m) => m.clone(),
            UpdaterError::CommandError(m) => m.clone(),
            UpdaterError::NewsError(m) => m.clone(),
        }
    }
}

} // verus!
