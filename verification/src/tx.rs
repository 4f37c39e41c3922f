//! Transaction records and their per-transaction completion status.

use vstd::prelude::*;

use crate::digest::DataRoot;
use crate::errors::StoreError;

verus! {

/// Completion status of a stored transaction; absence means pending, and a
/// stored status is terminal (overwriting is allowed but means nothing new).
#[derive(Clone, Copy, Debug, PartialEq, Eq, Structural)]
pub enum TxStatus {
    Finalized,
    Pruned,
}

/// The byte under which a status is durably recorded.
pub open spec fn spec_status_byte(s: TxStatus) -> u8 {
    match s {
        TxStatus::Finalized => 0,
        TxStatus::Pruned => 1,
    }
}

impl TxStatus {
    /// Encode the status as its storage byte.
    pub fn to_u8(self) -> (r: u8)
        ensures
            r == spec_status_byte(self),
    {
        match self {
            TxStatus::Finalized => 0,
            TxStatus::Pruned => 1,
        }
    }

    /// Decode a storage byte; any byte that names no status is refused.
    pub fn from_u8(v: u8) -> (r: Result<TxStatus, StoreError>)
        ensures
            v == 0 ==> r == Ok::<TxStatus, StoreError>(TxStatus::Finalized),
            v == 1 ==> r == Ok::<TxStatus, StoreError>(TxStatus::Pruned),
            v >= 2 ==> r == Err::<TxStatus, StoreError>(StoreError::InvalidStatusByte(v)),
    {
        match v {
            0 => Ok(TxStatus::Finalized),
            1 => Ok(TxStatus::Pruned),
            _ => Err(StoreError::InvalidStatusByte(v)),
        }
    }
}

/// The mathematical content of a [`Transaction`].
pub ghost struct TxView {
    pub seq: u64,
    pub data_merkle_root: Seq<u8>,
    pub merkle_nodes: Seq<(u64, Seq<u8>)>,
    pub start_entry_index: u64,
    pub size: u64,
    pub data: Seq<u8>,
}

/// A submitted data transaction: a content blob addressed by a Merkle root
/// and assigned a monotonic sequence number.
///
/// `merkle_nodes` decomposes the transaction's data Merkle tree into maximal
/// complete subtrees, left to right; the node at position `i` has shape
/// `(depth, digest)` and covers `2^(depth-1)` entries. It is the sole
/// artifact needed to graft the transaction's data into a larger tree
/// without rehashing.
pub struct Transaction {
    pub seq: u64,
    pub data_merkle_root: DataRoot,
    pub merkle_nodes: Vec<(u64, DataRoot)>,
    pub start_entry_index: u64,
    pub size: u64,
    /// Inline content bytes, empty when the content is not supplied inline.
    pub data: Vec<u8>,
}

impl View for Transaction {
    type V = TxView;

    open spec fn view(&self) -> TxView {
        TxView {
            seq: self.seq,
            data_merkle_root: self.data_merkle_root@,
            merkle_nodes: crate::merkle::stack_view(self.merkle_nodes@),
            start_entry_index: self.start_entry_index,
            size: self.size,
            data: self.data@,
        }
    }
}

/// Copy a vector of sequence numbers.
pub fn copy_u64s(v: &Vec<u64>) -> (r: Vec<u64>)
    ensures
        r@ == v@,
{
    let mut r: Vec<u64> = Vec::new();
    let mut i: usize = 0;
    while i < v.len()
        invariant
            i <= v@.len(),
            r@ == v@.take(i as int),
        decreases v@.len() - i,
    {
        r.push(v[i]);
        i += 1;
    }
    proof {
        assert(v@.take(v@.len() as int) =~= v@);
    }
    r
}

/// Copy a byte vector.
pub fn copy_bytes(v: &Vec<u8>) -> (r: Vec<u8>)
    ensures
        r@ == v@,
{
    let mut r: Vec<u8> = Vec::new();
    let mut i: usize = 0;
    while i < v.len()
        invariant
            i <= v@.len(),
            r@ == v@.take(i as int),
        decreases v@.len() - i,
    {
        r.push(v[i]);
        i += 1;
    }
    proof {
        assert(v@.take(v@.len() as int) =~= v@);
    }
    r
}

/// Copy a subtree-digest list.
pub fn copy_nodes(v: &Vec<(u64, DataRoot)>) -> (r: Vec<(u64, DataRoot)>)
    ensures
        r@ == v@,
{
    let mut r: Vec<(u64, DataRoot)> = Vec::new();
    let mut i: usize = 0;
    while i < v.len()
        invariant
            i <= v@.len(),
            r@ == v@.take(i as int),
        decreases v@.len() - i,
    {
        r.push(v[i]);
        i += 1;
    }
    proof {
        assert(v@.take(v@.len() as int) =~= v@);
    }
    r
}

impl Transaction {
    /// An owned copy with the same content.
    pub fn duplicate(&self) -> (r: Transaction)
        ensures
            r@ == self@,
    {
        Transaction {
            seq: self.seq,
            data_merkle_root: self.data_merkle_root,
            merkle_nodes: copy_nodes(&self.merkle_nodes),
            start_entry_index: self.start_entry_index,
            size: self.size,
            data: copy_bytes(&self.data),
        }
    }
}

/// A block's hash together with the first transaction-submission index
/// observed while that block was processed, for reorg detection.
#[derive(Clone, Copy, Debug)]
pub struct BlockHashAndSubmissionIndex {
    pub block_hash: DataRoot,
    pub first_submission_index: Option<u64>,
}

/// The value of a big-endian byte string.
pub open spec fn spec_be_u64(s: Seq<u8>) -> nat
    decreases s.len(),
{
    if s.len() == 0 {
        0
    } else {
        (spec_be_u64(s.drop_last()) * 256 + s.last()) as nat
    }
}

proof fn lemma_be_u64_bound(s: Seq<u8>)
    ensures
        spec_be_u64(s) < vstd::arithmetic::power2::pow2(8 * s.len()),
    decreases s.len(),
{
    vstd::arithmetic::power2::lemma_pow2_pos(8 * s.len());
    if s.len() > 0 {
        lemma_be_u64_bound(s.drop_last());
        vstd::arithmetic::power2::lemma_pow2_adds(8 * (s.len() - 1) as nat, 8);
        vstd::arithmetic::power2::lemma2_to64();
    }
}

/// Decode a stored sequence-number key: exactly eight big-endian bytes.
pub fn decode_tx_seq(data: &[u8]) -> (r: Result<u64, StoreError>)
    ensures
        data@.len() == 8 ==> r == Ok::<u64, StoreError>(spec_be_u64(data@) as u64),
        data@.len() != 8 ==> r == Err::<u64, StoreError>(StoreError::InvalidKeyLength),
{
    if data.len() != 8 {
        return Err(StoreError::InvalidKeyLength);
    }
    let mut r: u64 = 0;
    proof {
        vstd::arithmetic::power2::lemma2_to64();
        assert(data@.take(0) =~= Seq::<u8>::empty());
    }
    let mut i: usize = 0;
    while i < 8
        invariant
            i <= 8,
            data@.len() == 8,
            r as nat == spec_be_u64(data@.take(i as int)),
            (r as nat) < vstd::arithmetic::power2::pow2((8 * i) as nat),
        decreases 8 - i,
    {
        proof {
            lemma_be_u64_bound(data@.take(i as int));
            vstd::arithmetic::power2::lemma_pow2_adds((8 * i) as nat, 8);
            vstd::arithmetic::power2::lemma2_to64();
            vstd::arithmetic::power2::lemma2_to64_rest();
            if 8 * i + 8 < 64 {
                vstd::arithmetic::power2::lemma_pow2_strictly_increases((8 * i + 8) as nat, 64);
            }
            assert(data@.take(i as int + 1).drop_last() =~= data@.take(i as int));
            assert(data@.take(i as int + 1).last() == data@[i as int]);
        }
        r = r * 256 + (data[i] as u64);
        i += 1;
    }
    proof {
        assert(data@.take(8) =~= data@);
    }
    Ok(r)
}

} // verus!
