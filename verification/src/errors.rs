//! The store's error kinds.
//!
//! Absence of an optional record is never an error; these variants cover
//! malformed inputs and invariant violations that indicate store corruption
//! or caller misuse, surfaced as values rather than panics so that callers
//! can shut down gracefully.

use vstd::prelude::*;

verus! {

#[derive(Clone, Copy, Debug, PartialEq, Eq, Structural)]
pub enum StoreError {
    /// A transaction was inserted whose `seq` is not strictly greater than
    /// every sequence number already recorded for its content root.
    OutOfOrderTx,
    /// A sequence number below the counter had no record during a rebuild
    /// scan; data below the counter is expected to be contiguous.
    MissingTransaction,
    /// During a rebuild, a straddling transaction's subtrees never landed
    /// exactly on the chunk boundary although data was already collected.
    ChunkBoundary,
    /// A subtree depth of zero, or one too large for any addressable store.
    BadSubtreeDepth,
    /// A subtree was appended at a leaf count that is not a multiple of the
    /// subtree's span.
    MisalignedSubtree,
    /// Appending would push the leaf count beyond what a 64-bit counter
    /// can hold.
    TooManyLeaves,
    /// Content bytes that do not form a whole number of entries where a
    /// whole number is required.
    PartialEntry,
    /// A transaction whose recorded subtree-digest list is empty where at
    /// least one subtree is required.
    EmptySubtreeList,
    /// A running entry index that left the range a 64-bit counter can hold.
    EntryIndexOverflow,
    /// A stored sequence-number key whose byte length is not eight.
    InvalidKeyLength,
    /// A stored status byte that names no known status.
    InvalidStatusByte(u8),
}

} // verus!
