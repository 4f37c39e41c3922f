//! 256-bit content digests and the hash primitives the Merkle logic is
//! built from.
//!
//! A digest is a plain 32-byte array. Leaf and inner-node hashes are
//! domain-separated applications of keccak-256; the hash itself comes from
//! an outside crate and is only named here, never restated.

use vstd::prelude::*;
use tiny_keccak::{Hasher, Keccak};

verus! {

/// A 256-bit digest: the root of a transaction's data Merkle tree, a block
/// hash, or an internal Merkle node.
pub type DataRoot = [u8; 32];

/// What keccak-256 returns on a byte string. The digest depends on the
/// input bytes alone, so it can be given a name without a body.
pub uninterp spec fn keccak_of(bytes: Seq<u8>) -> Seq<u8>;

/// Relies on `tiny_keccak::Keccak::v256` (`update` then `finalize`): the
/// 32-byte keccak-256 digest of the input, a function of the bytes alone.
#[verifier::external_body]
fn keccak256(bytes: &[u8]) -> (r: DataRoot)
    ensures
        r@ == keccak_of(bytes@),
{
    let mut hasher = Keccak::v256();
    hasher.update(bytes);
    let mut out = [0u8; 32];
    hasher.finalize(&mut out);
    out
}

/// Domain tag for leaf hashes.
pub const LEAF_TAG: u8 = 0;

/// Domain tag for inner-node hashes.
pub const NODE_TAG: u8 = 1;

/// The digest of one leaf holding `entry` as its content.
pub open spec fn spec_leaf_hash(entry: Seq<u8>) -> Seq<u8> {
    keccak_of(seq![LEAF_TAG] + entry)
}

/// The digest of an inner node whose children have digests `l` and `r`.
pub open spec fn spec_node_hash(l: Seq<u8>, r: Seq<u8>) -> Seq<u8> {
    keccak_of(seq![NODE_TAG] + l + r)
}

/// The all-zero digest, used as the reserved first entry of the global tree
/// and as structural padding when a partial tree's root is folded.
pub open spec fn spec_zero_root() -> Seq<u8> {
    Seq::new(32, |i: int| 0u8)
}

pub fn zero_root() -> (r: DataRoot)
    ensures
        r@ == spec_zero_root(),
{
    let r = [0u8; 32];
    proof {
        assert(r@ =~= spec_zero_root());
    }
    r
}

/// True exactly when the two digests hold the same bytes.
pub fn root_eq(a: &DataRoot, b: &DataRoot) -> (r: bool)
    ensures
        r == (a@ == b@),
{
    let mut i: usize = 0;
    while i < 32
        invariant
            i <= 32,
            forall|j: int| 0 <= j < i ==> a@[j] == b@[j],
        decreases 32 - i,
    {
        if a[i] != b[i] {
            return false;
        }
        i += 1;
    }
    proof {
        assert(a@ =~= b@);
    }
    true
}

/// Hash one entry's bytes into a leaf digest.
pub fn leaf_hash(entry: &[u8]) -> (r: DataRoot)
    ensures
        r@ == spec_leaf_hash(entry@),
{
    let mut buf: Vec<u8> = Vec::new();
    buf.push(LEAF_TAG);
    let mut i: usize = 0;
    while i < entry.len()
        invariant
            i <= entry@.len(),
            buf@ == seq![LEAF_TAG] + entry@.take(i as int),
        decreases entry@.len() - i,
    {
        let b: u8 = entry[i];
        buf.push(b);
        i += 1;
    }
    proof {
        assert(entry@.take(entry@.len() as int) =~= entry@);
    }
    keccak256(buf.as_slice())
}

/// Hash two child digests into their parent's digest.
pub fn node_hash(l: &DataRoot, r: &DataRoot) -> (out: DataRoot)
    ensures
        out@ == spec_node_hash(l@, r@),
{
    let mut buf: Vec<u8> = Vec::new();
    buf.push(NODE_TAG);
    let mut i: usize = 0;
    while i < 32
        invariant
            i <= 32,
            buf@ == seq![NODE_TAG] + l@.take(i as int),
        decreases 32 - i,
    {
        buf.push(l[i]);
        i += 1;
    }
    let mut j: usize = 0;
    while j < 32
        invariant
            j <= 32,
            buf@ == seq![NODE_TAG] + l@.take(32) + r@.take(j as int),
        decreases 32 - j,
    {
        buf.push(r[j]);
        j += 1;
    }
    proof {
        assert(l@.take(32) =~= l@);
        assert(r@.take(32) =~= r@);
        assert(seq![NODE_TAG] + l@ + r@ =~= seq![NODE_TAG] + l@.take(32) + r@.take(32));
    }
    keccak256(buf.as_slice())
}

} // verus!
