//! Errors reported by the codec.
use vstd::prelude::*;

verus! {

/// An error of compression or decompression.
#[derive(Debug, Clone, Copy, PartialEq, Eq, Structural)]
pub enum Error {
    /// The compressed stream ends before a required field.
    InputTooShort,
    /// The destination buffer cannot hold the output.
    OutputTooSmall { need: usize, have: usize },
    /// The compressed stream is malformed.
    CorruptInput,
    /// A size field does not fit the platform address space.
    SizeOverflow { size: u64 },
    /// The caller's expected size differs from the stream's size.
    SizeMismatch { expected: usize, actual: usize },
    /// The compression level is outside `-1..=4`.
    InvalidLevel { level: i8 },
}

} // verus!
