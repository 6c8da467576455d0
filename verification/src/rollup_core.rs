//! Fixed sizes and raw value kinds of the host capability surface.
//!
//! The host exposes its primitive operations over byte buffers with fixed
//! per-call limits; this module holds those limits and the small tag types
//! that cross that boundary.

use vstd::prelude::*;

verus! {

/// The maximum size of input that can be read in one go from a slot chunk.
pub const MAX_INPUT_SLOT_DATA_CHUNK_SIZE: usize = 4096;

/// The maximum size of input that can be read in one go from an inbox
/// message.
pub const MAX_INPUT_MESSAGE_SIZE: usize = 4096;

/// The maximum size that may be written to output in one go.
pub const MAX_OUTPUT_SIZE: usize = 4096;

/// The maximum size that may be written to, or read from, storage in one go.
pub const MAX_FILE_CHUNK_SIZE: usize = 4096;

/// The size of a preimage hash in bytes.
pub const PREIMAGE_HASH_SIZE: usize = 32;

/// Defines whether a given input came from a slot, or an inbox message.
#[derive(Debug, Copy, Clone, PartialEq, Eq, Structural)]
pub enum Input {
    /// An input which came from an inbox message.
    MessageData,
    /// An input which is part of a slot.
    SlotDataChunk,
}

/// Returned by output-writing operations, which have limits on the amount
/// that may be written in one call.
#[derive(Debug, Copy, Clone, PartialEq, Eq, Structural)]
pub enum WriteResult {
    /// The bytes have been written in full.
    Accepted,
    /// The bytes had a size greater than that allowed by the called function.
    TooLarge,
}

/// Returned by the raw `store_has` operation: whether a path has a value,
/// and/or is a prefix of further keys.
#[derive(Debug, Copy, Clone, PartialEq, Eq, Structural)]
pub enum ValueType {
    /// The path has no matching value or subtree.
    Missing,
    /// The path has a value, but is not a prefix to further values.
    Value,
    /// The path is a prefix to further values, but has no value.
    Subtree,
    /// The path has a value, and is a prefix to further values.
    ValueWithSubtree,
}

} // verus!
