use vstd::prelude::*;

verus! {

/// Errors surfaced by the storage engine and the wire layer.
#[derive(Clone, Copy, Debug, PartialEq, Eq, Structural)]
pub enum Error {
    InvalidCommand,
    InvalidOffset,
    InvalidStreamName,
    SegmentNotFound,
    SegmentClosed,
    Io,
    Corrupt,
    NotFound,
}

impl Error {
    /// The one-byte status carried in a wire reply; `0` is reserved for OK,
    /// so every error maps to a distinct non-zero byte.
    pub fn status_byte(&self) -> (b: u8)
        ensures
            b != 0,
            b == self.spec_status_byte(),
    {
        match self {
            Error::InvalidCommand => 1,
            Error::InvalidOffset => 2,
            Error::InvalidStreamName => 3,
            Error::SegmentNotFound => 4,
            Error::SegmentClosed => 5,
            Error::Io => 6,
            Error::Corrupt => 7,
            Error::NotFound => 8,
        }
    }

    pub open spec fn spec_status_byte(self) -> u8 {
        match self {
            Error::InvalidCommand => 1,
            Error::InvalidOffset => 2,
            Error::InvalidStreamName => 3,
            Error::SegmentNotFound => 4,
            Error::SegmentClosed => 5,
            Error::Io => 6,
            Error::Corrupt => 7,
            Error::NotFound => 8,
        }
    }
}

} // verus!
