//! Errors produced by the inference engine.

use vstd::prelude::*;

verus! {

/// All errors produced by the inference engine.
#[derive(Debug, Clone, PartialEq, Eq)]
#[non_exhaustive]
pub enum NnError {
    /// Operand shapes did not match the operation's contract.
    ShapeMismatch { expected: String, got: String },
    /// Axis index is out of range for the tensor's rank.
    InvalidAxis { axis: usize, ndim: u8 },
    /// Operation requires a contiguous layout but the input is not contiguous.
    NonContiguous,
    /// Tensor rank is not supported (must be 2, 3, or 4).
    UnsupportedRank { rank: u8 },
    /// Element count does not match the requested shape.
    ElementCountMismatch { provided: usize, required: usize },
    /// Divisibility constraint failed (e.g. `embed_dim % num_heads != 0`).
    DivisibilityError { what: String, numerator: usize, denominator: usize },
    /// Architecture identifier in metadata is unknown.
    UnknownArchitecture(String),
    /// CRC32 mismatch when validating a tensor blob.
    ChecksumMismatch { name: String, expected: u32, got: u32 },
    /// I/O error while reading a model file.
    Io(String),
    /// Generic format error (corrupt file, bad magic, unknown version, ...).
    Format(String),
}

/// Standard result type of the engine.
pub type NnResult<T> = core::result::Result<T, NnError>;

} // verus!
