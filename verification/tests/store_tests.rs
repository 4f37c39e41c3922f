use tx_store::store::TransactionStore;
use tx_store::tx::{Transaction, TxStatus, decode_tx_seq};
use tx_store::errors::StoreError;
use tx_store::digest::DataRoot;

fn root_of(b: u8) -> DataRoot {
    [b; 32]
}

fn plain_tx(seq: u64, root: DataRoot, start: u64, nodes: Vec<(u64, DataRoot)>) -> Transaction {
    Transaction {
        seq,
        data_merkle_root: root,
        merkle_nodes: nodes,
        start_entry_index: start,
        size: 0,
        data: Vec::new(),
    }
}

#[test]
fn increasing_inserts_advance_counter_and_index() {
    let mut store = TransactionStore::new();
    let r = root_of(1);
    for seq in 0..3u64 {
        let prev = store.put_tx(plain_tx(seq, r, seq * 4, vec![(3, root_of(9))])).unwrap();
        assert_eq!(prev.len() as u64, seq);
        assert_eq!(store.next_tx_seq(), seq + 1);
        let list = store.get_tx_seq_list_by_data_root(&r);
        assert_eq!(*list.last().unwrap(), seq);
    }
    assert_eq!(store.get_tx_seq_list_by_data_root(&r), vec![0, 1, 2]);
}

#[test]
fn replayed_last_insert_only_advances_counter() {
    let mut store = TransactionStore::new();
    let r = root_of(2);
    store.put_tx(plain_tx(4, r, 0, vec![])).unwrap();
    let before = store.get_tx_seq_list_by_data_root(&r);
    let prev = store.put_tx(plain_tx(4, r, 0, vec![])).unwrap();
    assert_eq!(prev, vec![4]);
    assert_eq!(store.get_tx_seq_list_by_data_root(&r), before);
    assert_eq!(store.next_tx_seq(), 5);
}

#[test]
fn out_of_order_insert_is_refused() {
    let mut store = TransactionStore::new();
    let r = root_of(3);
    store.put_tx(plain_tx(5, r, 0, vec![])).unwrap();
    let e = store.put_tx(plain_tx(3, r, 0, vec![])).unwrap_err();
    assert_eq!(e, StoreError::OutOfOrderTx);
}

#[test]
fn inline_content_overrides_caller_root() {
    let mut store = TransactionStore::new();
    let mut tx = plain_tx(0, root_of(7), 0, vec![]);
    tx.data = vec![0xABu8; 300];
    store.put_tx(tx).unwrap();
    let stored = store.get_tx_by_seq_number(0).unwrap();
    // the root is recomputed from the content padded to whole entries
    let mut padded = vec![0xABu8; 300];
    padded.resize(512, 0u8);
    let expected = tx_store::merkle::sub_merkle_tree(&padded).unwrap().root();
    assert_eq!(stored.data_merkle_root, expected);
    assert_ne!(stored.data_merkle_root, root_of(7));
    assert_eq!(stored.size, 300);
}

#[test]
fn lookup_respects_counter_and_records() {
    let mut store = TransactionStore::new();
    store.put_tx(plain_tx(0, root_of(1), 0, vec![])).unwrap();
    assert!(store.get_tx_by_seq_number(0).is_some());
    assert!(store.get_tx_by_seq_number(1).is_none());
}

#[test]
fn rollback_removes_tail_and_resets_counter() {
    let mut store = TransactionStore::new();
    let ra = root_of(1);
    let rb = root_of(2);
    store.put_tx(plain_tx(0, ra, 0, vec![])).unwrap();
    store.put_tx(plain_tx(1, rb, 8, vec![])).unwrap();
    store.put_tx(plain_tx(2, ra, 16, vec![])).unwrap();
    store.finalize_tx(2);
    let removed = store.remove_tx_after(1);
    assert_eq!(removed.len(), 2);
    assert_eq!(removed[0].seq, 1);
    assert_eq!(removed[1].seq, 2);
    assert_eq!(store.next_tx_seq(), 1);
    assert!(store.get_tx_by_seq_number(0).is_some());
    assert!(store.get_tx_by_seq_number(1).is_none());
    assert!(store.get_tx_by_seq_number(2).is_none());
    assert_eq!(store.get_tx_seq_list_by_data_root(&ra), vec![0]);
    assert!(store.get_tx_seq_list_by_data_root(&rb).is_empty());
    assert_eq!(store.get_tx_status(2), None);
}

#[test]
fn rollback_then_reinsert_reproduces_state() {
    let mut store = TransactionStore::new();
    let ra = root_of(1);
    let rb = root_of(2);
    store.put_tx(plain_tx(0, ra, 0, vec![(2, root_of(5))])).unwrap();
    store.put_tx(plain_tx(1, rb, 2, vec![])).unwrap();
    store.put_tx(plain_tx(2, ra, 4, vec![])).unwrap();
    let list_a = store.get_tx_seq_list_by_data_root(&ra);
    let list_b = store.get_tx_seq_list_by_data_root(&rb);
    let next = store.next_tx_seq();
    let removed = store.remove_tx_after(1);
    for tx in removed {
        store.put_tx(tx).unwrap();
    }
    assert_eq!(store.next_tx_seq(), next);
    assert_eq!(store.get_tx_seq_list_by_data_root(&ra), list_a);
    assert_eq!(store.get_tx_seq_list_by_data_root(&rb), list_b);
    for seq in 0..3u64 {
        let t = store.get_tx_by_seq_number(seq).unwrap();
        assert_eq!(t.seq, seq);
    }
}

#[test]
fn rollback_to_counter_or_above_keeps_records() {
    let mut store = TransactionStore::new();
    store.put_tx(plain_tx(0, root_of(1), 0, vec![])).unwrap();
    let removed = store.remove_tx_after(1);
    assert!(removed.is_empty());
    assert_eq!(store.next_tx_seq(), 1);
    assert!(store.get_tx_by_seq_number(0).is_some());
}

#[test]
fn prune_and_finalize_are_terminal_and_exclusive() {
    let mut store = TransactionStore::new();
    store.put_tx(plain_tx(0, root_of(1), 0, vec![])).unwrap();
    store.prune_tx(0);
    assert_eq!(store.get_tx_status(0), Some(TxStatus::Pruned));
    assert!(!store.check_tx_completed(0));
    assert!(store.check_tx_pruned(0));
    store.prune_tx(0);
    assert_eq!(store.get_tx_status(0), Some(TxStatus::Pruned));
    store.finalize_tx(0);
    assert_eq!(store.get_tx_status(0), Some(TxStatus::Finalized));
    assert!(store.check_tx_completed(0));
    assert!(!store.check_tx_pruned(0));
    assert_eq!(store.get_tx_status(3), None);
    assert!(!store.check_tx_completed(3));
}

#[test]
fn status_bytes_round_trip() {
    assert_eq!(TxStatus::Finalized.to_u8(), 0);
    assert_eq!(TxStatus::Pruned.to_u8(), 1);
    assert_eq!(TxStatus::from_u8(0).unwrap(), TxStatus::Finalized);
    assert_eq!(TxStatus::from_u8(1).unwrap(), TxStatus::Pruned);
    assert_eq!(TxStatus::from_u8(7).unwrap_err(), StoreError::InvalidStatusByte(7));
}

#[test]
fn progress_and_block_hashes_track_writes_and_deletes() {
    let mut store = TransactionStore::new();
    assert_eq!(store.get_progress(), None);
    assert_eq!(store.get_log_latest_block_number(), None);
    store.put_progress((10, root_of(1), Some(Some(100))));
    store.put_progress((11, root_of(2), None));
    store.put_progress((12, root_of(3), Some(None)));
    assert_eq!(store.get_progress(), Some((12, root_of(3))));
    assert_eq!(store.get_block_hash_by_number(10), Some((root_of(1), Some(100))));
    assert_eq!(store.get_block_hash_by_number(11), None);
    assert_eq!(store.get_block_hash_by_number(12), Some((root_of(3), None)));
    let hashes = store.get_block_hashes();
    let mut numbers: Vec<u64> = hashes.iter().map(|p| p.0).collect();
    numbers.sort();
    assert_eq!(numbers, vec![10, 12]);
    for (bn, entry) in &hashes {
        if *bn == 10 {
            assert_eq!(entry.block_hash, root_of(1));
            assert_eq!(entry.first_submission_index, Some(100));
        } else {
            assert_eq!(entry.block_hash, root_of(3));
            assert_eq!(entry.first_submission_index, None);
        }
    }
    store.delete_block_hash_by_number(10);
    let hashes = store.get_block_hashes();
    assert_eq!(hashes.len(), 1);
    assert_eq!(hashes[0].0, 12);
    store.put_log_latest_block_number(55);
    assert_eq!(store.get_log_latest_block_number(), Some(55));
}

#[test]
fn decode_tx_seq_reads_big_endian_keys() {
    assert_eq!(decode_tx_seq(&[0, 0, 0, 0, 0, 0, 1, 2]).unwrap(), 258);
    assert_eq!(decode_tx_seq(&[0xFF; 8]).unwrap(), u64::MAX);
    assert_eq!(decode_tx_seq(&[1, 2, 3]).unwrap_err(), StoreError::InvalidKeyLength);
}
