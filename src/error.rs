use vstd::prelude::*;

verus! {

/// Failures of the bit stream and of the block codecs.
#[derive(Debug, Clone, Copy, PartialEq, Eq, Structural)]
pub enum CompressionError {
    /// A bit width outside `0..=64` was asked for.
    InvalidBitLength(usize),
    /// The stream has grown as far as the machine allows.
    BufferOverflow,
    /// The stream ended in the middle of a read.
    InsufficientData,
    /// An input the codec cannot represent (a delta-of-delta outside 32 bits).
    InvalidInput,
    /// A decoded field does not describe a valid value (or an input cannot be encoded).
    InvalidFormat,
}

} // verus!

verus! {

/// Failures of the store and of its queries.
#[derive(Debug, Clone)]
pub enum StorageError {
    /// No series of that name.
    KeyNotFound(String),
    /// A sealed block cannot take more points.
    BlockSealed,
    /// A range whose start lies after its end.
    InvalidTimeRange(u64, u64),
    /// A block could not be encoded or decoded.
    CompressionError(CompressionError),
    /// The underlying disk or archive failed.
    IoError,
}

} // verus!
