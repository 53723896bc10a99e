use vstd::prelude::*;

verus! {

/// Why a single chunk fetch failed: the transport broke, the server answered
/// with a non-success status, or the payload could not be read to the end.
#[derive(Clone, Copy, Debug, PartialEq, Eq, Structural)]
pub enum FetchFailure {
    Transport,
    BadStatus(u16),
    PayloadRead,
}

/// One failed chunk, tagged with the ordinal position of its range.
#[derive(Clone, Copy, Debug, PartialEq, Eq, Structural)]
pub struct ChunkFailure {
    pub index: usize,
    pub reason: FetchFailure,
}

/// A terminal error of one download.
#[derive(Debug, PartialEq, Eq)]
pub enum DownloadError {
    /// The total size was zero, or the requested part count was zero.
    InvalidInput,
    /// The size of the resource could not be obtained or parsed.
    MissingSizeInfo,
    /// At least one chunk fetch failed; all failed chunks are listed.
    DownloadFailed(Vec<ChunkFailure>),
    /// The destination could not be created or a write failed mid-assembly.
    WriteFailed,
}

} // verus!
