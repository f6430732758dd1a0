//! Delta-synchronization core for an incremental updater.
//!
//! A local file tree is kept in step with a remote content-addressed archive
//! store by transferring only the byte ranges (chunks) that changed and by
//! reusing any bytes that are already present locally, wherever they sit in
//! the file.  The modules below cover the engine itself: content chunking,
//! chunk-index construction and diffing, in-place reordering of a destination
//! file, integrity checking of fetched chunks, manifest comparison, retry
//! policy, progress bookkeeping and the self-update rename dance.  Network and
//! disk access stay with the caller; the library works on plain values.

use vstd::prelude::*;

pub mod archive;
pub mod chunker;
pub mod clone;
pub mod errors;
pub mod fetch;
pub mod hash;
pub mod index;
pub mod laws;
pub mod manifest;
pub mod progress;
pub mod retry;
pub mod selfupdate;
pub mod sync;

verus! {

/// Default chunk size used when building archives.
pub const CHUNK_SIZE_BYTES: usize = 1_000_000;

} // verus!
