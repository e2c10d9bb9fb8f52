use crate::chunk_id::ChunkId;
use vstd::prelude::*;

verus! {

/// A field of the container that a decode error points at.
#[derive(Debug, Clone, Copy, PartialEq, Eq, Structural)]
pub enum Field {
    RiffChunkId,
    RiffChunkSize,
    RiffFormType,
    FmtChunkId,
    FmtChunkSize,
    FmtFormatTag,
    FmtChannels,
    FmtSamplesPerSec,
    FmtAvgBytesPerSec,
    FmtBlockAlign,
    FmtBitsPerSample,
    FmtExtensionSize,
    CuePointId,
    CuePointDataChunkId,
    CuePointChunkStart,
    CuePointBlockStart,
    CuePointSampleStart,
    DataPadding,
    BytesRead,
}

/// Why a timestamp cannot become a sample offset.
#[derive(Debug, Clone, Copy, PartialEq, Eq, Structural)]
pub enum TimestampError {
    Infinite,
    NotANumber,
    Negative,
    TooLarge,
}

/// Every way decoding, encoding or converting can fail. Offsets (`at`) are byte positions.
#[derive(Debug, Clone, Copy, PartialEq, Eq)]
pub enum WaveError {
    /// Fewer bytes remain than the field being read needs.
    UnexpectedEof { at: u32 },
    /// The input is longer than a 32-bit size can describe.
    FileTooLarge,
    /// A tag field holds another tag than the one required.
    WrongChunkId { field: Field, expected: ChunkId, actual: ChunkId, at: u32 },
    /// A numeric field holds another value than the one required.
    WrongValue { field: Field, expected: u32, actual: u32, at: u32 },
    /// A numeric field holds a value outside the supported set.
    UnsupportedValue { field: Field, actual: u32, at: u32 },
    /// A cue chunk too small to hold its count and one cue point.
    CueChunkTooSmall { size: u32, at: u32 },
    /// A cue chunk whose size is not four plus 24 bytes per cue point.
    CueSizeMismatch { size: u32, count: u32, at: u32 },
    DuplicateChunk { id: ChunkId, at: u32 },
    UnknownChunk { id: ChunkId, at: u32 },
    /// The cue chunk would not fit a 32-bit size.
    TooManyCuePoints,
    /// The data chunk would not fit a 32-bit size.
    DataTooLarge,
    /// Extraction from a file without a cue chunk.
    NoCuePoints,
    /// The timestamp at `index` cannot be converted.
    InvalidTimestamp { index: usize, kind: TimestampError },
}

} // verus!
