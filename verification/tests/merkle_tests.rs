use tx_store::merkle::{AppendMerkleTree, sub_merkle_tree, data_to_merkle_leaves};
use tx_store::digest::{DataRoot, leaf_hash, node_hash};
use tx_store::errors::StoreError;
use tx_store::store::TransactionStore;
use tx_store::tx::Transaction;
use tx_store::{ENTRY_SIZE, PORA_CHUNK_SIZE, PORA_CHUNK_DEPTH};

fn root_of(b: u8) -> DataRoot {
    [b; 32]
}

fn plain_tx(seq: u64, root: DataRoot, start: u64, nodes: Vec<(u64, DataRoot)>) -> Transaction {
    Transaction {
        seq,
        data_merkle_root: root,
        merkle_nodes: nodes,
        start_entry_index: start,
        size: 0,
        data: Vec::new(),
    }
}

#[test]
fn leaves_of_data_are_per_entry_hashes() {
    let mut data = vec![3u8; ENTRY_SIZE * 2];
    data[ENTRY_SIZE] = 4;
    let leaves = data_to_merkle_leaves(&data).unwrap();
    assert_eq!(leaves.len(), 2);
    assert_eq!(leaves[0], leaf_hash(&data[..ENTRY_SIZE]));
    assert_eq!(leaves[1], leaf_hash(&data[ENTRY_SIZE..]));
    assert_eq!(data_to_merkle_leaves(&vec![1u8; 100]).unwrap_err(), StoreError::PartialEntry);
}

#[test]
fn small_tree_roots_compose_by_node_hash() {
    let data = vec![9u8; ENTRY_SIZE * 2];
    let t = sub_merkle_tree(&data).unwrap();
    assert_eq!(t.leaves(), 2);
    let l = leaf_hash(&data[..ENTRY_SIZE]);
    let r = leaf_hash(&data[ENTRY_SIZE..]);
    assert_eq!(t.root(), node_hash(&l, &r));
    let one = sub_merkle_tree(&data[..ENTRY_SIZE].to_vec()).unwrap();
    assert_eq!(one.root(), l);
}

#[test]
fn append_subtree_checks_depth_and_alignment() {
    let mut t = AppendMerkleTree::new_with_depth(vec![root_of(1)], 1);
    assert_eq!(t.append_subtree(0, root_of(2)).unwrap_err(), StoreError::BadSubtreeDepth);
    assert_eq!(t.append_subtree(2, root_of(2)).unwrap_err(), StoreError::MisalignedSubtree);
    t.append_subtree(1, root_of(2)).unwrap();
    assert_eq!(t.leaves(), 2);
    t.append_subtree(2, root_of(3)).unwrap();
    assert_eq!(t.leaves(), 4);
}

#[test]
fn full_chunk_rebuild_matches_direct_hashing() {
    // one transaction fills the whole chunk after the first; its recorded
    // subtree digest is the direct Merkle root of its padded data
    let entries = PORA_CHUNK_SIZE as usize;
    let mut data = vec![0u8; entries * ENTRY_SIZE];
    for (i, b) in data.iter_mut().enumerate() {
        *b = (i % 251) as u8;
    }
    let direct = sub_merkle_tree(&data).unwrap();
    assert_eq!(direct.leaves(), PORA_CHUNK_SIZE);
    let direct_root = direct.root();

    let mut store = TransactionStore::new();
    let tx = plain_tx(0, root_of(1), PORA_CHUNK_SIZE, vec![(PORA_CHUNK_DEPTH, direct_root)]);
    store.put_tx(tx).unwrap();
    let rebuilt = store.rebuild_last_chunk_merkle(1, 0).unwrap();
    assert_eq!(rebuilt.leaves(), PORA_CHUNK_SIZE);
    assert_eq!(rebuilt.root(), direct_root);
    assert_eq!(rebuilt.versions().len(), 1);
    assert_eq!(rebuilt.versions()[0].0, 0);
}

#[test]
fn straddling_rebuild_takes_exact_suffix() {
    // A starts before the chunk boundary and its last subtree crosses into
    // the chunk; B follows it inside the chunk. Rebuilding the chunk takes
    // all of B and exactly A's suffix from the boundary on.
    let boundary = PORA_CHUNK_SIZE;  // chunk 1 starts here
    let a_nodes = vec![(8, root_of(10)), (9, root_of(11)), (7, root_of(12))];
    // spans 128 + 256 starting at 640 land exactly on 1024; 64 entries spill over
    let a = plain_tx(0, root_of(1), 640, a_nodes);
    let b = plain_tx(1, root_of(2), 1088, vec![(7, root_of(13))]);
    let mut store = TransactionStore::new();
    store.put_tx(a).unwrap();
    store.put_tx(b).unwrap();
    let rebuilt = store.rebuild_last_chunk_merkle(1, 1).unwrap();
    assert_eq!(rebuilt.leaves(), 128);
    assert_eq!(rebuilt.versions().len(), 2);
    assert_eq!(rebuilt.versions()[0].0, 0);
    assert_eq!(rebuilt.versions()[0].1, 64);
    assert_eq!(rebuilt.versions()[1].0, 1);
    assert_eq!(rebuilt.versions()[1].1, 128);

    // the same tree built by hand from the collected digests
    let mut expected = AppendMerkleTree::new_with_depth(Vec::new(), PORA_CHUNK_DEPTH);
    expected.append_subtree(7, root_of(12)).unwrap();
    expected.append_subtree(7, root_of(13)).unwrap();
    assert_eq!(rebuilt.root(), expected.root());
    assert_eq!(boundary, 1024);
}

#[test]
fn straddling_without_exact_landing_is_corruption() {
    // A's spans hop over the boundary without landing on it; since B was
    // already collected, the rebuild reports an impossible boundary
    let a = plain_tx(0, root_of(1), 1016, vec![(5, root_of(10))]);
    let b = plain_tx(1, root_of(2), 1032, vec![(4, root_of(11))]);
    let mut store = TransactionStore::new();
    store.put_tx(a).unwrap();
    store.put_tx(b).unwrap();
    let e = match store.rebuild_last_chunk_merkle(1, 1) {
        Err(e) => e,
        Ok(_) => panic!("expected a boundary error"),
    };
    assert_eq!(e, StoreError::ChunkBoundary);
}

#[test]
fn rebuild_on_missing_record_is_refused() {
    let store = TransactionStore::new();
    let e = match store.rebuild_last_chunk_merkle(0, 0) {
        Err(e) => e,
        Ok(_) => panic!("expected a missing-record error"),
    };
    assert_eq!(e, StoreError::MissingTransaction);
}

#[test]
fn first_chunk_starts_with_reserved_zero_leaf() {
    // chunk zero's tree holds the reserved all-zero first entry; a
    // transaction aligned to span 2 sits right after alignment padding
    let mut store = TransactionStore::new();
    let tx = plain_tx(0, root_of(1), 2, vec![(2, root_of(9))]);
    store.put_tx(tx).unwrap();
    let rebuilt = store.rebuild_last_chunk_merkle(0, 0).unwrap();
    // zero leaf + one padding leaf + a span-2 subtree
    assert_eq!(rebuilt.leaves(), 4);
}

#[test]
fn alignment_padding_between_transactions() {
    // two in-chunk transactions whose second needs padding to align
    let a = plain_tx(0, root_of(1), 1024, vec![(1, root_of(7))]);
    let b = plain_tx(1, root_of(2), 1028, vec![(3, root_of(8))]);
    let mut store = TransactionStore::new();
    store.put_tx(a).unwrap();
    store.put_tx(b).unwrap();
    let rebuilt = store.rebuild_last_chunk_merkle(1, 1).unwrap();
    // 1 leaf from A, 3 padding leaves to align to span 4, 4 from B
    assert_eq!(rebuilt.leaves(), 8);
}
