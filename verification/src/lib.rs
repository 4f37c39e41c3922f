//! Transaction-indexing and chunk-Merkle-reconstruction layer of an
//! append-only data-availability log store.
//!
//! The store tracks submitted data transactions (content blobs addressed by a
//! Merkle root and a monotonic sequence number), maintains a reverse index
//! from content root to sequence numbers, records per-transaction
//! finalization/pruning status, tracks chain-sync progress, and reconstructs
//! the partial Merkle tree of the most recent storage chunk from recorded
//! per-transaction subtree digests.

use vstd::prelude::*;

pub mod digest;
pub mod errors;
pub mod index;
pub mod laws;
pub mod merkle;
pub mod rebuild;
pub mod store;
pub mod tx;

verus! {

/// Byte length of one storage entry; content is padded to whole entries.
pub const ENTRY_SIZE: usize = 256;

/// Number of entries in one PoRA chunk; chunk `i` covers the global entries
/// `[i * PORA_CHUNK_SIZE, (i + 1) * PORA_CHUNK_SIZE)`.
pub const PORA_CHUNK_SIZE: u64 = 1024;

/// Depth of a full chunk tree: one more than the base-two logarithm of
/// `PORA_CHUNK_SIZE`.
pub const PORA_CHUNK_DEPTH: u64 = 11;

} // verus!
