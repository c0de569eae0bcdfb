//! The ways in which building, parsing or editing a PNG container can fail.

use vstd::prelude::*;

verus! {

/// Every failure the codec reports. None of them is recovered from internally:
/// an operation that meets one returns it and changes nothing.
#[derive(Debug, Clone, Copy, PartialEq, Eq, Structural)]
pub enum Error {
    /// The first eight bytes of a buffer are not the PNG signature.
    InvalidSignature,
    /// A buffer is too short to hold the eight signature bytes.
    TooShort,
    /// A chunk record ends before its declared length is satisfied.
    Truncated,
    /// Bytes remain that do not frame a whole chunk.
    TrailingGarbage,
    /// A type string is not exactly four ASCII letters.
    InvalidTypeCode,
    /// The bytes of a type code are not valid UTF-8, so it has no string form.
    InvalidEncoding,
    /// The stored checksum of a chunk differs from the computed one.
    CrcMismatch,
    /// No chunk of the requested type is present.
    NotFound,
    /// Chunk data is longer than a 32-bit length field can declare.
    DataTooLarge,
    /// Chunk data is not valid UTF-8.
    EncodingError,
    /// A chunk was to be inserted before the last chunk of a container that has none.
    EmptyContainer,
}

} // verus!
