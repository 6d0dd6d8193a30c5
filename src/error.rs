//! Errors surfaced by the segment store.
use vstd::prelude::*;

use crate::key::SegmentKey;

verus! {

/// What could not be decoded.
#[derive(Debug, Clone, Copy, PartialEq, Eq, Structural)]
pub enum DecodeError {
    /// A segment key string is not two digit fields joined by `-`.
    InvalidKeyFormat,
    /// An index object is not a sorted index map.
    InvalidIndex,
}

#[derive(Debug, Clone, PartialEq, Eq)]
pub enum StorageError {
    /// The bucket could not be created and did not exist already.
    Configuration(String),
    /// No segment was located for the frame.
    FrameNotFound(u64),
    /// A segment was located, but its range does not hold the frame.
    SegmentGap { frame_no: u64, segment: SegmentKey },
    Decode(DecodeError),
    /// A failure of the object store, with its description.
    UnhandledBackend(String),
}

} // verus!
