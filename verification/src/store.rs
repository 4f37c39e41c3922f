//! The transaction store: sequence counter, transaction ledger, data-root
//! reverse index, completion ledger and sync-progress ledger.
//!
//! Every mutating operation's contract equates the store's new view with a
//! spec transition function over [`StoreView`]; the laws module proves the
//! store's global properties over those transitions.

use vstd::prelude::*;

use crate::digest::DataRoot;
use crate::errors::StoreError;
use crate::index::{UMap, RootIndex};
use crate::merkle::{sub_merkle_tree, spec_sub_root};
use crate::tx::{Transaction, TxView, TxStatus, BlockHashAndSubmissionIndex, copy_bytes, copy_u64s};
use crate::ENTRY_SIZE;

verus! {

/// Zero bytes appended to content so that it fills whole entries.
pub open spec fn spec_pad_len(n: nat) -> nat {
    if n % (ENTRY_SIZE as nat) == 0 {
        0
    } else {
        ((ENTRY_SIZE as nat) - n % (ENTRY_SIZE as nat)) as nat
    }
}

/// Content zero-padded to a whole number of entries.
pub open spec fn spec_pad(d: Seq<u8>) -> Seq<u8> {
    d + Seq::new(spec_pad_len(d.len()), |i: int| 0u8)
}

/// The Merkle root of content after zero-padding to entry granularity.
pub open spec fn spec_padded_root(d: Seq<u8>) -> Seq<u8> {
    spec_sub_root(spec_pad(d))
}

/// The mathematical state of a [`TransactionStore`].
pub ghost struct StoreView {
    /// One plus the highest recorded sequence number, or the rollback floor.
    pub next_tx_seq: u64,
    /// Sequence number to transaction record.
    pub ledger: Map<u64, TxView>,
    /// Content root to the ordered list of sequence numbers sharing it.
    pub root_index: Map<Seq<u8>, Seq<u64>>,
    /// Sequence number to terminal status; absence means pending.
    pub completion: Map<u64, TxStatus>,
    /// Last processed `(block number, block hash)`.
    pub progress: Option<(u64, DataRoot)>,
    /// Per-block `(hash, first submission index)` records.
    pub blocks: Map<u64, (DataRoot, Option<u64>)>,
    /// High-water mark for log synchronization.
    pub latest_block: Option<u64>,
}

/// Transaction views of a ledger of transaction records.
pub open spec fn lview(m: Map<u64, Transaction>) -> Map<u64, TxView> {
    Map::new(|k: u64| m.contains_key(k), |k: u64| m[k]@)
}

/// The stored list for a root, reading an absent root as the empty list.
pub open spec fn spec_index_list(index: Map<Seq<u8>, Seq<u64>>, root: Seq<u8>) -> Seq<u64> {
    if index.contains_key(root) {
        index[root]
    } else {
        Seq::empty()
    }
}

/// The in-place correction applied when content arrives inline: the size is
/// the unpadded length and the root is recomputed from the padded content,
/// overriding whatever the caller supplied.
pub open spec fn spec_apply_inline(tx: TxView) -> TxView {
    if tx.data.len() > 0 {
        TxView {
            data_merkle_root: spec_padded_root(tx.data),
            size: tx.data.len() as u64,
            ..tx
        }
    } else {
        tx
    }
}

/// The insert transition: replay of the last entry advances only the
/// counter; an out-of-order sequence number is refused; otherwise the
/// record, the counter and the reverse index advance together.
pub open spec fn spec_put_tx(s: StoreView, tx: TxView) -> (StoreView, Result<Seq<u64>, StoreError>) {
    let old_list = spec_index_list(s.root_index, tx.data_merkle_root);
    if old_list.len() > 0 && old_list.last() == tx.seq {
        (StoreView { next_tx_seq: (tx.seq + 1) as u64, ..s }, Ok(old_list))
    } else if old_list.len() > 0 && old_list.last() > tx.seq {
        (s, Err(StoreError::OutOfOrderTx))
    } else {
        let tx2 = spec_apply_inline(tx);
        (
            StoreView {
                next_tx_seq: (tx.seq + 1) as u64,
                ledger: s.ledger.insert(tx.seq, tx2),
                root_index: s.root_index.insert(tx2.data_merkle_root, old_list.push(tx.seq)),
                ..s
            },
            Ok(old_list),
        )
    }
}

/// The entries of a sequence list strictly below a bound, in order.
pub open spec fn filter_less(s: Seq<u64>, b: u64) -> Seq<u64>
    decreases s.len(),
{
    if s.len() == 0 {
        Seq::empty()
    } else if s.last() < b {
        filter_less(s.drop_last(), b).push(s.last())
    } else {
        filter_less(s.drop_last(), b)
    }
}

/// What one rollback pass leaves behind.
pub ghost struct DrainOut {
    pub ledger: Map<u64, TxView>,
    pub root_index: Map<Seq<u8>, Seq<u64>>,
    pub completion: Map<u64, TxStatus>,
    pub removed: Seq<TxView>,
}

/// Remove transactions at `seq, seq+1, ...` up to (excluding) `max`,
/// stopping early at the first missing record; each removal deletes the
/// record and its status and filters its root's sequence list down to
/// entries below the removed sequence number, dropping the root entirely
/// when nothing is left.
pub open spec fn spec_drain(
    ledger: Map<u64, TxView>,
    index: Map<Seq<u8>, Seq<u64>>,
    completion: Map<u64, TxStatus>,
    seq: u64,
    max: u64,
) -> DrainOut
    decreases max - seq,
{
    if seq >= max || !ledger.contains_key(seq) {
        DrainOut { ledger, root_index: index, completion, removed: Seq::empty() }
    } else {
        let tx = ledger[seq];
        let root = tx.data_merkle_root;
        let lst = spec_index_list(index, root);
        let f = filter_less(lst, seq);
        let i2 = if f.len() == 0 {
            index.remove(root)
        } else {
            index.insert(root, f)
        };
        let rest = spec_drain(ledger.remove(seq), i2, completion.remove(seq), (seq + 1) as u64, max);
        DrainOut {
            ledger: rest.ledger,
            root_index: rest.root_index,
            completion: rest.completion,
            removed: seq![tx] + rest.removed,
        }
    }
}

/// The rollback transition: drain `[min_seq, next)` and reset the counter
/// to `min_seq`.
pub open spec fn spec_remove_after(s: StoreView, min_seq: u64) -> (StoreView, Seq<TxView>) {
    let d = spec_drain(s.ledger, s.root_index, s.completion, min_seq, s.next_tx_seq);
    (
        StoreView {
            next_tx_seq: min_seq,
            ledger: d.ledger,
            root_index: d.root_index,
            completion: d.completion,
            ..s
        },
        d.removed,
    )
}

/// A transaction is visible exactly when its sequence number is below the
/// counter and its record exists.
pub open spec fn spec_lookup(s: StoreView, seq: u64) -> Option<TxView> {
    if seq < s.next_tx_seq && s.ledger.contains_key(seq) {
        Some(s.ledger[seq])
    } else {
        None
    }
}

/// The transaction-indexing store over two in-memory namespaces: the
/// ledger/index state and the completion state, plus sync progress.
pub struct TransactionStore {
    pub(crate) next_tx_seq: u64,
    pub(crate) ledger: UMap<Transaction>,
    pub(crate) root_index: RootIndex,
    pub(crate) completion: UMap<TxStatus>,
    pub(crate) progress: Option<(u64, DataRoot)>,
    pub(crate) blocks: UMap<(DataRoot, Option<u64>)>,
    pub(crate) latest_block: Option<u64>,
}

impl View for TransactionStore {
    type V = StoreView;

    closed spec fn view(&self) -> StoreView {
        StoreView {
            next_tx_seq: self.next_tx_seq,
            ledger: lview(self.ledger@),
            root_index: self.root_index@,
            completion: self.completion@,
            progress: self.progress,
            blocks: self.blocks@,
            latest_block: self.latest_block,
        }
    }
}

/// The state of a store that has recorded nothing.
pub open spec fn spec_empty_store() -> StoreView {
    StoreView {
        next_tx_seq: 0,
        ledger: Map::empty(),
        root_index: Map::empty(),
        completion: Map::empty(),
        progress: None,
        blocks: Map::empty(),
        latest_block: None,
    }
}

proof fn lemma_lview_insert(m: Map<u64, Transaction>, k: u64, t: Transaction)
    ensures
        lview(m.insert(k, t)) == lview(m).insert(k, t@),
{
    assert(lview(m.insert(k, t)) =~= lview(m).insert(k, t@));
}

proof fn lemma_lview_remove(m: Map<u64, Transaction>, k: u64)
    ensures
        lview(m.remove(k)) == lview(m).remove(k),
{
    assert(lview(m.remove(k)) =~= lview(m).remove(k));
}

impl TransactionStore {
    /// All tables hold their representation invariants.
    pub closed spec fn wf(&self) -> bool {
        self.ledger.wf() && self.root_index.wf() && self.completion.wf() && self.blocks.wf()
    }

    /// A fresh, empty store with the counter at zero.
    pub fn new() -> (r: Self)
        ensures
            r.wf(),
            r@ == spec_empty_store(),
    {
        let r = TransactionStore {
            next_tx_seq: 0,
            ledger: UMap::new(),
            root_index: RootIndex::new(),
            completion: UMap::new(),
            progress: None,
            blocks: UMap::new(),
            latest_block: None,
        };
        proof {
            assert(lview(r.ledger@) =~= Map::<u64, TxView>::empty());
        }
        r
    }

    /// The next assignable sequence number.
    pub fn next_tx_seq(&self) -> (r: u64)
        ensures
            r == self@.next_tx_seq,
    {
        self.next_tx_seq
    }

    /// Record a transaction. Returns the list of sequence numbers that
    /// previously shared the (caller-supplied) content root. Re-inserting
    /// the pair that is already last under that root only advances the
    /// counter; a sequence number at or below another one recorded for the
    /// root is refused as store corruption or caller misuse.
    pub fn put_tx(&mut self, tx: Transaction) -> (r: Result<Vec<u64>, StoreError>)
        requires
            old(self).wf(),
            tx.seq < u64::MAX,
        ensures
            final(self).wf(),
            final(self)@ == spec_put_tx(old(self)@, tx@).0,
            r is Ok <==> spec_put_tx(old(self)@, tx@).1 is Ok,
            r matches Ok(v) ==> spec_put_tx(old(self)@, tx@).1 == Ok::<Seq<u64>, StoreError>(v@),
            r matches Err(e) ==> spec_put_tx(old(self)@, tx@).1 == Err::<Seq<u64>, StoreError>(e),
    {
        let mut tx = tx;
        let ghost txv = tx@;
        let old_list = self.root_index.get_list(&tx.data_merkle_root);
        if old_list.len() > 0 && old_list[old_list.len() - 1] == tx.seq {
            self.next_tx_seq = tx.seq + 1;
            return Ok(old_list);
        }
        if old_list.len() > 0 && old_list[old_list.len() - 1] > tx.seq {
            return Err(StoreError::OutOfOrderTx);
        }
        if tx.data.len() > 0 {
            tx.size = tx.data.len() as u64;
            let mut padded = copy_bytes(&tx.data);
            let rem = tx.data.len() % ENTRY_SIZE;
            if rem != 0 {
                let pad = ENTRY_SIZE - rem;
                let mut p: usize = 0;
                while p < pad
                    invariant
                        p <= pad,
                        pad == spec_pad_len(tx.data@.len()),
                        padded@ == tx.data@ + Seq::new(p as nat, |i: int| 0u8),
                    decreases pad - p,
                {
                    let ghost before = padded@;
                    padded.push(0u8);
                    proof {
                        assert(padded@ =~= tx.data@ + Seq::new((p + 1) as nat, |i: int| 0u8));
                    }
                    p += 1;
                }
            }
            proof {
                assert(padded@ =~= spec_pad(tx.data@));
            }
            let t = match sub_merkle_tree(&padded) {
                Ok(t) => t,
                Err(e) => {
                    proof {
                        assert(false);
                    }
                    return Err(e);
                },
            };
            let root = t.root();
            tx.data_merkle_root = root;
            proof {
                assert(tx@ == spec_apply_inline(txv));
            }
        } else {
            proof {
                assert(tx@ == spec_apply_inline(txv));
            }
        }
        let seq = tx.seq;
        let root2 = tx.data_merkle_root;
        let mut new_list = copy_u64s(&old_list);
        new_list.push(seq);
        let ghost tx2v = tx@;
        proof {
            lemma_lview_insert(self.ledger@, seq, tx);
        }
        self.ledger.insert(seq, tx);
        self.root_index.set_list(root2, new_list);
        self.next_tx_seq = seq + 1;
        Ok(old_list)
    }

    /// The transaction visible at a sequence number, if any.
    pub fn get_tx_by_seq_number(&self, seq: u64) -> (r: Option<Transaction>)
        requires
            self.wf(),
        ensures
            r is Some <==> spec_lookup(self@, seq) is Some,
            r matches Some(t) ==> spec_lookup(self@, seq) == Some(t@),
    {
        if seq >= self.next_tx_seq {
            return None;
        }
        match self.ledger.get(seq) {
            Some(t) => Some(t.duplicate()),
            None => None,
        }
    }

    /// Remove every transaction with `seq in [min_seq, next_tx_seq)`,
    /// stopping early if a record below the counter is missing — data below
    /// the counter is expected to be contiguous, so a gap means corruption
    /// and the caller sees it as a short result. Returns the removed
    /// transactions in ascending order; the counter is reset to `min_seq`
    /// in every case.
    pub fn remove_tx_after(&mut self, min_seq: u64) -> (r: Vec<Transaction>)
        requires
            old(self).wf(),
        ensures
            final(self).wf(),
            final(self)@ == spec_remove_after(old(self)@, min_seq).0,
            r@.len() == spec_remove_after(old(self)@, min_seq).1.len(),
            forall|i: int| 0 <= i < r@.len() ==> (#[trigger] r@[i])@ == spec_remove_after(
                old(self)@,
                min_seq,
            ).1[i],
    {
        let ghost d = spec_drain(
            lview(self.ledger@),
            self.root_index@,
            self.completion@,
            min_seq,
            self.next_tx_seq,
        );
        let max = self.next_tx_seq;
        let mut removed: Vec<Transaction> = Vec::new();
        let mut seq = min_seq;
        proof {
            assert(d.removed.skip(0) =~= d.removed);
        }
        loop
            invariant
                self.wf(),
                min_seq <= seq,
                seq <= max || seq == min_seq,
                max == old(self).next_tx_seq,
                self.next_tx_seq == old(self)@.next_tx_seq,
                self.progress == old(self)@.progress,
                self.blocks@ == old(self)@.blocks,
                self.latest_block == old(self)@.latest_block,
                removed@.len() <= d.removed.len(),
                forall|i: int| 0 <= i < removed@.len() ==> (#[trigger] removed@[i])@ == d.removed[i],
                spec_drain(lview(self.ledger@), self.root_index@, self.completion@, seq, max)
                    == (DrainOut {
                    ledger: d.ledger,
                    root_index: d.root_index,
                    completion: d.completion,
                    removed: d.removed.skip(removed@.len() as int),
                }),
            ensures
                self.wf(),
                self.next_tx_seq == old(self)@.next_tx_seq,
                self.progress == old(self)@.progress,
                self.blocks@ == old(self)@.blocks,
                self.latest_block == old(self)@.latest_block,
                lview(self.ledger@) == d.ledger,
                self.root_index@ == d.root_index,
                self.completion@ == d.completion,
                removed@.len() == d.removed.len(),
                forall|i: int| 0 <= i < removed@.len() ==> (#[trigger] removed@[i])@ == d.removed[i],
            decreases max - seq,
        {
            if seq >= max {
                proof {
                    assert(d.removed.skip(removed@.len() as int) =~= Seq::<TxView>::empty());
                }
                break;
            }
            let ghost lv0 = lview(self.ledger@);
            let ghost ri0 = self.root_index@;
            let ghost co0 = self.completion@;
            proof {
                lemma_lview_remove(self.ledger@, seq);
            }
            let got = self.ledger.remove(seq);
            match got {
                None => {
                    proof {
                        assert(!lv0.contains_key(seq));
                        assert(lview(self.ledger@) =~= lv0);
                        assert(spec_drain(lv0, ri0, co0, seq, max).removed =~= Seq::<TxView>::empty());
                        assert(d.removed.skip(removed@.len() as int).len() == 0);
                    }
                    break;
                },
                Some(t) => {
                    proof {
                        assert(lv0.contains_key(seq) && lv0[seq] == t@);
                    }
                    self.completion.remove(seq);
                    let lst = self.root_index.get_list(&t.data_merkle_root);
                    let f = filter_less_exec(&lst, seq);
                    if f.len() == 0 {
                        self.root_index.remove_root(&t.data_merkle_root);
                    } else {
                        self.root_index.set_list(t.data_merkle_root, f);
                    }
                    removed.push(t);
                    proof {
                        let k = removed@.len() as int - 1;
                        let rest = spec_drain(
                            lview(self.ledger@),
                            self.root_index@,
                            self.completion@,
                            (seq + 1) as u64,
                            max,
                        );
                        assert(lview(self.ledger@) == lv0.remove(seq));
                        assert(spec_drain(lv0, ri0, co0, seq, max) == (DrainOut {
                            ledger: rest.ledger,
                            root_index: rest.root_index,
                            completion: rest.completion,
                            removed: seq![t@] + rest.removed,
                        }));
                        assert(d.removed.skip(k) == seq![t@] + rest.removed);
                        assert(d.removed.skip(k)[0] == t@);
                        assert(d.removed[k] == d.removed.skip(k)[0]);
                        assert(rest.removed =~= d.removed.skip(k).drop_first());
                        assert(d.removed.skip(k).drop_first() =~= d.removed.skip(k + 1));
                    }
                    seq += 1;
                },
            }
        }
        self.next_tx_seq = min_seq;
        removed
    }

    /// The ordered sequence list recorded for a content root; empty if the
    /// root is unknown.
    pub fn get_tx_seq_list_by_data_root(&self, data_root: &DataRoot) -> (r: Vec<u64>)
        requires
            self.wf(),
        ensures
            r@ == spec_index_list(self@.root_index, data_root@),
    {
        self.root_index.get_list(data_root)
    }

    /// Mark a transaction finalized, overwriting any previous status.
    pub fn finalize_tx(&mut self, tx_seq: u64)
        requires
            old(self).wf(),
        ensures
            final(self).wf(),
            final(self)@ == (StoreView {
                completion: old(self)@.completion.insert(tx_seq, TxStatus::Finalized),
                ..old(self)@
            }),
    {
        self.completion.insert(tx_seq, TxStatus::Finalized);
    }

    /// Mark a transaction pruned, overwriting any previous status.
    pub fn prune_tx(&mut self, tx_seq: u64)
        requires
            old(self).wf(),
        ensures
            final(self).wf(),
            final(self)@ == (StoreView {
                completion: old(self)@.completion.insert(tx_seq, TxStatus::Pruned),
                ..old(self)@
            }),
    {
        self.completion.insert(tx_seq, TxStatus::Pruned);
    }

    /// The stored status of a transaction, or absent while it is pending.
    pub fn get_tx_status(&self, tx_seq: u64) -> (r: Option<TxStatus>)
        requires
            self.wf(),
        ensures
            r == (if self@.completion.contains_key(tx_seq) {
                Some(self@.completion[tx_seq])
            } else {
                None::<TxStatus>
            }),
    {
        match self.completion.get(tx_seq) {
            Some(s) => Some(*s),
            None => None,
        }
    }

    /// Whether a transaction has been finalized.
    pub fn check_tx_completed(&self, tx_seq: u64) -> (r: bool)
        requires
            self.wf(),
        ensures
            r == (self@.completion.contains_key(tx_seq) && self@.completion[tx_seq]
                == TxStatus::Finalized),
    {
        match self.get_tx_status(tx_seq) {
            Some(TxStatus::Finalized) => true,
            _ => false,
        }
    }

    /// Whether a transaction has been pruned.
    pub fn check_tx_pruned(&self, tx_seq: u64) -> (r: bool)
        requires
            self.wf(),
        ensures
            r == (self@.completion.contains_key(tx_seq) && self@.completion[tx_seq]
                == TxStatus::Pruned),
    {
        match self.get_tx_status(tx_seq) {
            Some(TxStatus::Pruned) => true,
            _ => false,
        }
    }

    /// Record sync progress: the scalar `(block number, hash)` pair always,
    /// and, when a first-submission index is supplied, the per-block record
    /// keyed by block number as well.
    pub fn put_progress(&mut self, progress: (u64, DataRoot, Option<Option<u64>>))
        requires
            old(self).wf(),
        ensures
            final(self).wf(),
            final(self)@ == (StoreView {
                progress: Some((progress.0, progress.1)),
                blocks: (match progress.2 {
                    Some(p) => old(self)@.blocks.insert(progress.0, (progress.1, p)),
                    None => old(self)@.blocks,
                }),
                ..old(self)@
            }),
    {
        self.progress = Some((progress.0, progress.1));
        if let Some(p) = progress.2 {
            self.blocks.insert(progress.0, (progress.1, p));
        }
    }

    /// The last recorded `(block number, hash)` pair, or absent if progress
    /// was never recorded.
    pub fn get_progress(&self) -> (r: Option<(u64, DataRoot)>)
        ensures
            r == self@.progress,
    {
        self.progress
    }

    /// Record the log-synchronization high-water mark.
    pub fn put_log_latest_block_number(&mut self, block_number: u64)
        requires
            old(self).wf(),
        ensures
            final(self).wf(),
            final(self)@ == (StoreView { latest_block: Some(block_number), ..old(self)@ }),
    {
        self.latest_block = Some(block_number);
    }

    /// The log-synchronization high-water mark, if one was recorded.
    pub fn get_log_latest_block_number(&self) -> (r: Option<u64>)
        ensures
            r == self@.latest_block,
    {
        self.latest_block
    }

    /// The per-block record for a block number, if one was written.
    pub fn get_block_hash_by_number(&self, block_number: u64) -> (r: Option<(DataRoot, Option<u64>)>)
        requires
            self.wf(),
        ensures
            r == (if self@.blocks.contains_key(block_number) {
                Some(self@.blocks[block_number])
            } else {
                None::<(DataRoot, Option<u64>)>
            }),
    {
        match self.blocks.get(block_number) {
            Some(v) => Some(*v),
            None => None,
        }
    }

    /// Every per-block record currently stored: exactly the entries written
    /// by `put_progress`'s per-block path and not since deleted, each block
    /// number once.
    pub fn get_block_hashes(&self) -> (r: Vec<(u64, BlockHashAndSubmissionIndex)>)
        requires
            self.wf(),
        ensures
            forall|i: int, j: int| 0 <= i < j < r@.len() ==> (#[trigger] r@[i]).0 != (#[trigger] r@[j]).0,
            forall|i: int| 0 <= i < r@.len() ==> self@.blocks.contains_key((#[trigger] r@[i]).0)
                && self@.blocks[r@[i].0] == (r@[i].1.block_hash, r@[i].1.first_submission_index),
            forall|k: u64| #[trigger] self@.blocks.contains_key(k) ==> exists|i: int|
                0 <= i < r@.len() && (#[trigger] r@[i]).0 == k,
    {
        let entries = self.blocks.entries();
        let n = entries.len();
        let mut out: Vec<(u64, BlockHashAndSubmissionIndex)> = Vec::new();
        let mut i: usize = 0;
        while i < n
            invariant
                i <= n == entries@.len(),
                entries@ == self.blocks.entries_seq(),
                self.wf(),
                out@.len() == i,
                forall|j: int| 0 <= j < i ==> (#[trigger] out@[j]).0 == entries@[j].0
                    && out@[j].1.block_hash == entries@[j].1.0
                    && out@[j].1.first_submission_index == entries@[j].1.1,
            decreases n - i,
        {
            let e = &entries[i];
            out.push(
                (
                    e.0,
                    BlockHashAndSubmissionIndex {
                        block_hash: e.1.0,
                        first_submission_index: e.1.1,
                    },
                ),
            );
            i += 1;
        }
        proof {
            assert forall|a: int, b: int| 0 <= a < b < out@.len() implies (#[trigger] out@[a]).0
                != (#[trigger] out@[b]).0 by {
                assert(crate::index::unique_keys(entries@));
            }
            assert forall|a: int| 0 <= a < out@.len() implies self@.blocks.contains_key(
                (#[trigger] out@[a]).0,
            ) && self@.blocks[out@[a].0] == (out@[a].1.block_hash, out@[a].1.first_submission_index) by {
                crate::index::lemma_as_map_value(entries@, a);
            }
            assert forall|k: u64| #[trigger] self@.blocks.contains_key(k) implies exists|i2: int|
                0 <= i2 < out@.len() && (#[trigger] out@[i2]).0 == k by {
                crate::index::lemma_as_map_contains(entries@, k);
                let w = choose|w: int| 0 <= w < entries@.len() && (#[trigger] entries@[w]).0 == k;
                assert(out@[w].0 == k);
            }
        }
        out
    }

    /// Delete the per-block record for a block number; deleting an absent
    /// record changes nothing.
    pub fn delete_block_hash_by_number(&mut self, block_number: u64)
        requires
            old(self).wf(),
        ensures
            final(self).wf(),
            final(self)@ == (StoreView {
                blocks: old(self)@.blocks.remove(block_number),
                ..old(self)@
            }),
    {
        self.blocks.remove(block_number);
        proof {
            if !old(self)@.blocks.contains_key(block_number) {
                assert(old(self)@.blocks.remove(block_number) =~= old(self)@.blocks);
            }
        }
    }
}

/// The entries of a list strictly below a bound, kept in order.
pub fn filter_less_exec(v: &Vec<u64>, b: u64) -> (r: Vec<u64>)
    ensures
        r@ == filter_less(v@, b),
{
    let mut r: Vec<u64> = Vec::new();
    let mut i: usize = 0;
    proof {
        assert(v@.take(0) =~= Seq::<u64>::empty());
    }
    while i < v.len()
        invariant
            i <= v@.len(),
            r@ == filter_less(v@.take(i as int), b),
        decreases v@.len() - i,
    {
        proof {
            assert(v@.take(i as int + 1).drop_last() =~= v@.take(i as int));
            assert(v@.take(i as int + 1).last() == v@[i as int]);
        }
        if v[i] < b {
            r.push(v[i]);
        }
        i += 1;
    }
    proof {
        assert(v@.take(v@.len() as int) =~= v@);
    }
    r
}

} // verus!
