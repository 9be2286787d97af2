//! Error taxonomy of the store, the codecs and the pools.

use vstd::prelude::*;

verus! {

/// What went wrong while decoding a framed message or record.
#[derive(Debug, Clone, Copy, PartialEq, Eq, Structural)]
pub enum DecodeKind {
    /// The input ended before the frame was complete.
    ShortRead,
    /// The leading tag byte names no known alternative.
    BadTag,
    /// A string field held bytes that are not valid UTF-8.
    BadUtf8,
    /// A length prefix exceeded the defensive cap.
    LengthCap,
}

/// Crate-level error.
#[derive(Debug, Clone, PartialEq, Eq)]
pub enum Error {
    /// Remove was called on a key that is not present.
    RemoveNonexistKey,
    /// A wire message could not be decoded.
    DecodeError(DecodeKind),
    /// A log segment held bytes that do not parse as records.
    Corruption,
    /// A stored value was not valid UTF-8.
    NonUtf8,
    /// A record larger than one segment can hold was requested.
    OversizedRecord,
    /// The segment id space is used up; no further segment can be named.
    SegmentIdExhausted,
    /// A worker pool cannot have zero workers.
    ZeroSizedPool,
    /// The embedded backend reported a failure, rendered as text.
    BackendError(String),
}

impl Error {
    /// A short, stable description of the error.
    pub fn message(&self) -> (m: &'static str) {
        match self {
            Error::RemoveNonexistKey => "Key not found",
            Error::DecodeError(_) => "Decode error",
            Error::Corruption => "Corrupt log segment",
            Error::NonUtf8 => "Invalid UTF-8 in stored value",
            Error::OversizedRecord => "Record exceeds segment capacity",
            Error::SegmentIdExhausted => "Segment id space exhausted",
            Error::ZeroSizedPool => "Thread pool cannot be zero size",
            Error::BackendError(_) => "Backend error",
        }
    }
}

/// Crate-level result type.
pub type Result<T, E = Error> = core::result::Result<T, E>;

} // verus!
