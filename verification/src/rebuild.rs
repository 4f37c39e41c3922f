//! Chunk Merkle rebuilder: reconstruct the Merkle tree of the tail chunk
//! from the per-transaction subtree digests already recorded in the ledger.
//!
//! The scan walks the ledger backward from a given sequence number,
//! collecting for each transaction the slice of its subtree digests that
//! falls inside the chunk; the replay feeds the collected slices, oldest
//! first, into a fresh tree using digest-level appends, with alignment
//! padding between transactions and a commit point per transaction.

use vstd::prelude::*;
use vstd::arithmetic::power2::pow2;

use crate::digest::{DataRoot, spec_leaf_hash, spec_zero_root, leaf_hash, zero_root};
use crate::errors::StoreError;
use crate::merkle::{
    AppendMerkleTree, TreeView, stack_view, roots_view, stack_after_leaves,
    spec_append_subtree_list, spec_root, merge_push, pow2_exec,
};
use crate::store::{TransactionStore, StoreView};
use crate::tx::TxView;
use crate::{ENTRY_SIZE, PORA_CHUNK_SIZE, PORA_CHUNK_DEPTH};

verus! {

/// One collected transaction: its sequence number and the subtree slice
/// that belongs to the chunk.
pub ghost struct ScanItem {
    pub seq: u64,
    pub nodes: Seq<(u64, Seq<u8>)>,
}

/// Walk a subtree list left to right, accumulating spans onto the
/// transaction's start index. `Ok(Some(i))` means the running offset lands
/// exactly on the boundary after `i` subtrees; `Ok(None)` means it never
/// does.
pub open spec fn spec_split(nodes: Seq<(u64, Seq<u8>)>, start: nat, boundary: nat) -> Result<
    Option<int>,
    StoreError,
>
    decreases nodes.len(),
{
    if nodes.len() == 0 {
        Ok(None)
    } else if nodes.first().0 < 1 || nodes.first().0 > 48 {
        Err(StoreError::BadSubtreeDepth)
    } else {
        let s2 = start + pow2((nodes.first().0 - 1) as nat);
        if s2 > u64::MAX as nat {
            Err(StoreError::EntryIndexOverflow)
        } else if s2 == boundary {
            Ok(Some(1))
        } else {
            match spec_split(nodes.drop_first(), s2, boundary) {
                Ok(Some(i)) => Ok(Some(i + 1)),
                Ok(None) => Ok(None),
                Err(e) => Err(e),
            }
        }
    }
}

/// The backward scan from `seq`: the collected items, newest first, or the
/// corruption it ran into. `has_acc` records whether anything was collected
/// by the newer transactions already visited.
pub open spec fn spec_scan(
    ledger: Map<u64, TxView>,
    next: u64,
    seq: u64,
    chunk_start: u64,
    has_acc: bool,
) -> Result<Seq<ScanItem>, StoreError>
    decreases seq,
{
    if !(seq < next && ledger.contains_key(seq)) {
        Err(StoreError::MissingTransaction)
    } else {
        let tx = ledger[seq];
        if tx.start_entry_index > chunk_start {
            let item = ScanItem { seq, nodes: tx.merkle_nodes };
            if tx.start_entry_index >= chunk_start + PORA_CHUNK_SIZE {
                Ok(seq![item])
            } else if seq == 0 {
                Ok(seq![item])
            } else {
                match spec_scan(ledger, next, (seq - 1) as u64, chunk_start, true) {
                    Ok(rest) => Ok(seq![item] + rest),
                    Err(e) => Err(e),
                }
            }
        } else if tx.start_entry_index == chunk_start {
            Ok(seq![ScanItem { seq, nodes: tx.merkle_nodes }])
        } else {
            match spec_split(tx.merkle_nodes, tx.start_entry_index as nat, chunk_start as nat) {
                Err(e) => Err(e),
                Ok(Some(fi)) => {
                    if fi < tx.merkle_nodes.len() {
                        Ok(seq![ScanItem { seq, nodes: tx.merkle_nodes.skip(fi) }])
                    } else {
                        Ok(Seq::empty())
                    }
                },
                Ok(None) => {
                    if has_acc {
                        Err(StoreError::ChunkBoundary)
                    } else {
                        Ok(Seq::empty())
                    }
                },
            }
        }
    }
}

/// One stored entry's worth of zero bytes.
pub open spec fn spec_zero_entry() -> Seq<u8> {
    Seq::new(ENTRY_SIZE as nat, |i: int| 0u8)
}

/// The leaf digest used for alignment padding.
pub open spec fn spec_pad_leaf() -> Seq<u8> {
    spec_leaf_hash(spec_zero_entry())
}

/// Replay one collected transaction: pad the tree to the alignment of the
/// slice's first subtree, append the slice, and commit under the
/// transaction's sequence number.
pub open spec fn spec_replay_step(tv: TreeView, item: ScanItem) -> Result<TreeView, StoreError> {
    if item.nodes.len() == 0 {
        Err(StoreError::EmptySubtreeList)
    } else if item.nodes.first().0 < 1 || item.nodes.first().0 > 48 {
        Err(StoreError::BadSubtreeDepth)
    } else {
        let span = pow2((item.nodes.first().0 - 1) as nat);
        let md = tv.leaf_count as nat % span;
        let lim: nat = if span <= (PORA_CHUNK_SIZE as nat) {
            span
        } else {
            PORA_CHUNK_SIZE as nat
        };
        if md != 0 && lim < md {
            Err(StoreError::ChunkBoundary)
        } else {
            let pad: nat = if md != 0 {
                (lim - md) as nat
            } else {
                0
            };
            if tv.leaf_count + pad > u64::MAX {
                Err(StoreError::TooManyLeaves)
            } else {
                let tv1 = TreeView {
                    stack: stack_after_leaves(tv.stack, Seq::new(pad, |i: int| spec_pad_leaf())),
                    leaf_count: (tv.leaf_count + pad) as u64,
                    min_depth: tv.min_depth,
                    versions: tv.versions,
                };
                match spec_append_subtree_list(tv1, item.nodes) {
                    Err(e) => Err(e),
                    Ok(tv2) => Ok(
                        TreeView {
                            versions: tv2.versions.push((item.seq, tv2.leaf_count, spec_root(tv2))),
                            ..tv2
                        },
                    ),
                }
            }
        }
    }
}

/// Replay the collected items oldest first (they are collected newest
/// first, so from the back).
pub open spec fn spec_replay(tv: TreeView, items: Seq<ScanItem>) -> Result<TreeView, StoreError>
    decreases items.len(),
{
    if items.len() == 0 {
        Ok(tv)
    } else {
        match spec_replay_step(tv, items.last()) {
            Ok(t2) => spec_replay(t2, items.drop_last()),
            Err(e) => Err(e),
        }
    }
}

/// The fresh working tree: for the first chunk a single reserved zero leaf
/// at depth one, otherwise empty at the full chunk depth.
pub open spec fn spec_init_tree(chunk_start: u64) -> TreeView {
    if chunk_start == 0 {
        TreeView {
            stack: seq![(1u64, spec_zero_root())],
            leaf_count: 1,
            min_depth: 1,
            versions: Seq::empty(),
        }
    } else {
        TreeView {
            stack: Seq::empty(),
            leaf_count: 0,
            min_depth: PORA_CHUNK_DEPTH,
            versions: Seq::empty(),
        }
    }
}

/// The whole rebuild: scan backward, then replay forward.
pub open spec fn spec_rebuild(s: StoreView, chunk_start: u64, tx_seq: u64) -> Result<
    TreeView,
    StoreError,
> {
    match spec_scan(s.ledger, s.next_tx_seq, tx_seq, chunk_start, false) {
        Err(e) => Err(e),
        Ok(items) => spec_replay(spec_init_tree(chunk_start), items),
    }
}

/// A vector holding one entry of zero bytes.
fn zero_entry_exec() -> (r: Vec<u8>)
    ensures
        r@ == spec_zero_entry(),
{
    let mut r: Vec<u8> = Vec::new();
    let mut i: usize = 0;
    while i < ENTRY_SIZE
        invariant
            i <= ENTRY_SIZE,
            r@ == Seq::new(i as nat, |j: int| 0u8),
        decreases ENTRY_SIZE - i,
    {
        r.push(0u8);
        proof {
            assert(r@ =~= Seq::new((i + 1) as nat, |j: int| 0u8));
        }
        i += 1;
    }
    proof {
        assert(r@ =~= spec_zero_entry());
    }
    r
}

/// Copy the tail of a subtree list, from an index on.
fn copy_nodes_from(v: &Vec<(u64, DataRoot)>, from: usize) -> (r: Vec<(u64, DataRoot)>)
    requires
        from <= v@.len(),
    ensures
        r@ == v@.skip(from as int),
{
    let mut r: Vec<(u64, DataRoot)> = Vec::new();
    let mut i: usize = from;
    proof {
        assert(v@.subrange(from as int, from as int) =~= Seq::<(u64, DataRoot)>::empty());
    }
    while i < v.len()
        invariant
            from <= i <= v@.len(),
            r@ == v@.subrange(from as int, i as int),
        decreases v@.len() - i,
    {
        r.push(v[i]);
        proof {
            assert(r@ =~= v@.subrange(from as int, i as int + 1));
        }
        i += 1;
    }
    proof {
        assert(v@.subrange(from as int, v@.len() as int) =~= v@.skip(from as int));
    }
    r
}

impl TransactionStore {
    /// Rebuild the Merkle tree of the chunk at `pora_chunk_index` from the
    /// transactions committed at or before `tx_seq`, without rehashing raw
    /// data. Any missing record, subtree-shape corruption or impossible
    /// boundary case aborts with the matching error rather than producing a
    /// plausibly wrong tree.
    pub fn rebuild_last_chunk_merkle(&self, pora_chunk_index: usize, tx_seq: u64) -> (r: Result<
        AppendMerkleTree,
        StoreError,
    >)
        requires
            self.wf(),
            pora_chunk_index as u64 <= 0xFFFF_FFFF,
        ensures
            r is Ok <==> spec_rebuild(self@, ((pora_chunk_index as u64) * PORA_CHUNK_SIZE) as u64, tx_seq) is Ok,
            r matches Ok(t) ==> spec_rebuild(self@, ((pora_chunk_index as u64) * PORA_CHUNK_SIZE) as u64, tx_seq)
                == Ok::<TreeView, StoreError>(t@),
            r matches Err(e) ==> spec_rebuild(self@, ((pora_chunk_index as u64) * PORA_CHUNK_SIZE) as u64, tx_seq)
                == Err::<TreeView, StoreError>(e),
    {
        let chunk_start: u64 = (pora_chunk_index as u64) * PORA_CHUNK_SIZE;
        proof {
            assert(chunk_start == ((pora_chunk_index as u64) * PORA_CHUNK_SIZE) as u64);
        }
        let ghost target = spec_scan(self@.ledger, self@.next_tx_seq, tx_seq, chunk_start, false);
        let ghost cspec = spec_rebuild(self@, chunk_start, tx_seq);
        proof {
            assert(cspec == (match target {
                Ok(its) => spec_replay(spec_init_tree(chunk_start), its),
                Err(e) => Err::<TreeView, StoreError>(e),
            }));
        }
        let mut tx_list: Vec<(u64, Vec<(u64, DataRoot)>)> = Vec::new();
        let ghost mut items: Seq<ScanItem> = Seq::empty();
        let mut seq = tx_seq;
        proof {
            assert(items + Seq::<ScanItem>::empty() =~= items);
        }
        loop
            invariant_except_break
                target == (match spec_scan(
                    self@.ledger,
                    self@.next_tx_seq,
                    seq,
                    chunk_start,
                    items.len() > 0,
                ) {
                    Ok(rest) => Ok::<Seq<ScanItem>, StoreError>(items + rest),
                    Err(e) => Err::<Seq<ScanItem>, StoreError>(e),
                }),
            invariant
                self.wf(),
                chunk_start == ((pora_chunk_index as u64) * PORA_CHUNK_SIZE) as u64,
                chunk_start <= 0xFFFF_FFFF * PORA_CHUNK_SIZE,
                target == spec_scan(self@.ledger, self@.next_tx_seq, tx_seq, chunk_start, false),
                cspec == spec_rebuild(self@, chunk_start, tx_seq),
                items.len() == tx_list@.len(),
                forall|j: int| 0 <= j < items.len() ==> items[j] == (ScanItem {
                    seq: (#[trigger] tx_list@[j]).0,
                    nodes: stack_view(tx_list@[j].1@),
                }),
            ensures
                chunk_start == ((pora_chunk_index as u64) * PORA_CHUNK_SIZE) as u64,
                target == spec_scan(self@.ledger, self@.next_tx_seq, tx_seq, chunk_start, false),
                cspec == spec_rebuild(self@, chunk_start, tx_seq),
                target == Ok::<Seq<ScanItem>, StoreError>(items),
                items.len() == tx_list@.len(),
                forall|j: int| 0 <= j < items.len() ==> items[j] == (ScanItem {
                    seq: (#[trigger] tx_list@[j]).0,
                    nodes: stack_view(tx_list@[j].1@),
                }),
            decreases seq,
        {
            let ghost flag = items.len() > 0;
            let ghost snow = spec_scan(self@.ledger, self@.next_tx_seq, seq, chunk_start, flag);
            let tx = match self.get_tx_by_seq_number(seq) {
                Some(t) => t,
                None => {
                    proof {
                        assert(snow == Err::<Seq<ScanItem>, StoreError>(StoreError::MissingTransaction));
                        assert(target == Err::<Seq<ScanItem>, StoreError>(StoreError::MissingTransaction));
                    }
                    return Err(StoreError::MissingTransaction);
                },
            };
            let ghost txv = tx@;
            proof {
                assert(self@.ledger[seq] == txv);
            }
            if tx.start_entry_index > chunk_start {
                let stop = tx.start_entry_index >= chunk_start + PORA_CHUNK_SIZE;
                let ghost item = ScanItem { seq, nodes: stack_view(tx.merkle_nodes@) };
                proof {
                    assert(item == (ScanItem { seq, nodes: txv.merkle_nodes }));
                }
                let ghost olditems = items;
                tx_list.push((seq, tx.merkle_nodes));
                proof {
                    items = items.push(item);
                }
                if stop {
                    proof {
                        assert(snow == Ok::<Seq<ScanItem>, StoreError>(seq![item]));
                        assert(olditems + seq![item] =~= items);
                    }
                    break;
                }
                if seq == 0 {
                    proof {
                        assert(snow == Ok::<Seq<ScanItem>, StoreError>(seq![item]));
                        assert(olditems + seq![item] =~= items);
                    }
                    break;
                }
                proof {
                    let s1 = spec_scan(self@.ledger, self@.next_tx_seq, (seq - 1) as u64, chunk_start, true);
                    assert(snow == (match s1 {
                        Ok(rest) => Ok::<Seq<ScanItem>, StoreError>(seq![item] + rest),
                        Err(e) => Err::<Seq<ScanItem>, StoreError>(e),
                    }));
                    if s1 is Ok {
                        let rest = s1->Ok_0;
                        assert(olditems + (seq![item] + rest) =~= items + rest);
                    }
                }
                seq = seq - 1;
            } else if tx.start_entry_index == chunk_start {
                let ghost item = ScanItem { seq, nodes: stack_view(tx.merkle_nodes@) };
                proof {
                    assert(item == (ScanItem { seq, nodes: txv.merkle_nodes }));
                    assert(snow == Ok::<Seq<ScanItem>, StoreError>(seq![item]));
                }
                let ghost olditems = items;
                tx_list.push((seq, tx.merkle_nodes));
                proof {
                    items = items.push(item);
                    assert(olditems + seq![item] =~= items);
                }
                break;
            } else {
                // The transaction straddles the chunk boundary: walk its
                // subtrees for an exact landing on the boundary.
                let tx_start = tx.start_entry_index;
                let nodes = tx.merkle_nodes;
                proof {
                    assert(txv.merkle_nodes == stack_view(nodes@));
                    assert(txv.start_entry_index == tx_start);
                }
                let n = nodes.len();
                let mut start: u64 = tx_start;
                let mut fi: usize = 0;
                let mut found = false;
                let ghost full = spec_split(stack_view(nodes@), tx_start as nat, chunk_start as nat);
                proof {
                    assert(spec_split(txv.merkle_nodes, txv.start_entry_index as nat, chunk_start as nat) == full);
                    assert(txv.start_entry_index < chunk_start);
                    assert(snow == (match full {
                        Err(e) => Err::<Seq<ScanItem>, StoreError>(e),
                        Ok(Some(fi2)) => (if fi2 < txv.merkle_nodes.len() {
                            Ok::<Seq<ScanItem>, StoreError>(seq![ScanItem { seq, nodes: txv.merkle_nodes.skip(fi2) }])
                        } else {
                            Ok::<Seq<ScanItem>, StoreError>(Seq::empty())
                        }),
                        Ok(None) => (if flag {
                            Err::<Seq<ScanItem>, StoreError>(StoreError::ChunkBoundary)
                        } else {
                            Ok::<Seq<ScanItem>, StoreError>(Seq::empty())
                        }),
                    }));
                }
                let mut i: usize = 0;
                proof {
                    assert(stack_view(nodes@).skip(0) =~= stack_view(nodes@));
                }
                while i < n && !found
                    invariant
                        i <= n == nodes@.len(),
                        chunk_start == ((pora_chunk_index as u64) * PORA_CHUNK_SIZE) as u64,
                        cspec == spec_rebuild(self@, chunk_start, tx_seq),
                        target == spec_scan(self@.ledger, self@.next_tx_seq, tx_seq, chunk_start, false),
                        items.len() == tx_list@.len(),
                        flag == (items.len() > 0),
                        snow == (match full {
                            Err(e) => Err::<Seq<ScanItem>, StoreError>(e),
                            Ok(Some(fi2)) => (if fi2 < txv.merkle_nodes.len() {
                                Ok::<Seq<ScanItem>, StoreError>(seq![ScanItem { seq, nodes: txv.merkle_nodes.skip(fi2) }])
                            } else {
                                Ok::<Seq<ScanItem>, StoreError>(Seq::empty())
                            }),
                            Ok(None) => (if flag {
                                Err::<Seq<ScanItem>, StoreError>(StoreError::ChunkBoundary)
                            } else {
                                Ok::<Seq<ScanItem>, StoreError>(Seq::empty())
                            }),
                        }),
                        target == (match snow {
                            Ok(rest) => Ok::<Seq<ScanItem>, StoreError>(items + rest),
                            Err(e) => Err::<Seq<ScanItem>, StoreError>(e),
                        }),
                        !found ==> full == (match spec_split(
                            stack_view(nodes@).skip(i as int),
                            start as nat,
                            chunk_start as nat,
                        ) {
                            Ok(Some(x)) => Ok::<Option<int>, StoreError>(Some(x + i)),
                            Ok(None) => Ok::<Option<int>, StoreError>(None),
                            Err(e) => Err::<Option<int>, StoreError>(e),
                        }),
                        found ==> 0 < fi <= n && full == Ok::<Option<int>, StoreError>(Some(fi as int)),
                    decreases n - i,
                {
                    let pair = nodes[i];
                    let dep = pair.0;
                    proof {
                        assert(stack_view(nodes@).skip(i as int)[0] == stack_view(nodes@)[i as int]);
                        assert(stack_view(nodes@)[i as int] == (nodes@[i as int].0, nodes@[i as int].1@));
                        assert(stack_view(nodes@).skip(i as int).drop_first() =~= stack_view(nodes@).skip(i as int + 1));
                    }
                    if dep < 1 || dep > 48 {
                        proof {
                            assert(full == Err::<Option<int>, StoreError>(StoreError::BadSubtreeDepth));
                            assert(snow == Err::<Seq<ScanItem>, StoreError>(StoreError::BadSubtreeDepth));
                            assert(target == Err::<Seq<ScanItem>, StoreError>(StoreError::BadSubtreeDepth));
                        }
                        return Err(StoreError::BadSubtreeDepth);
                    }
                    let span = pow2_exec(dep - 1);
                    if start > u64::MAX - span {
                        proof {
                            assert(full == Err::<Option<int>, StoreError>(StoreError::EntryIndexOverflow));
                            assert(snow == Err::<Seq<ScanItem>, StoreError>(StoreError::EntryIndexOverflow));
                            assert(target == Err::<Seq<ScanItem>, StoreError>(StoreError::EntryIndexOverflow));
                        }
                        return Err(StoreError::EntryIndexOverflow);
                    }
                    start = start + span;
                    if start == chunk_start {
                        fi = i + 1;
                        found = true;
                    }
                    i += 1;
                }
                if found {
                    if fi < n {
                        let slice = copy_nodes_from(&nodes, fi);
                        let ghost item = ScanItem { seq, nodes: txv.merkle_nodes.skip(fi as int) };
                        proof {
                            assert forall|a: int| 0 <= a < slice@.len() implies stack_view(slice@)[a]
                                == stack_view(nodes@).skip(fi as int)[a] by {
                                assert(stack_view(slice@)[a] == (slice@[a].0, slice@[a].1@));
                                assert(slice@[a] == nodes@[a + fi]);
                                assert(stack_view(nodes@)[a + fi] == (nodes@[a + fi].0, nodes@[a + fi].1@));
                            }
                            assert(stack_view(slice@) =~= stack_view(nodes@).skip(fi as int));
                            assert(snow == Ok::<Seq<ScanItem>, StoreError>(seq![item]));
                        }
                        let ghost olditems = items;
                        tx_list.push((seq, slice));
                        proof {
                            items = items.push(item);
                            assert(olditems + seq![item] =~= items);
                        }
                        break;
                    } else {
                        proof {
                            assert(snow == Ok::<Seq<ScanItem>, StoreError>(Seq::<ScanItem>::empty()));
                            assert(items + Seq::<ScanItem>::empty() =~= items);
                        }
                        break;
                    }
                } else {
                    proof {
                        assert(stack_view(nodes@).skip(n as int) =~= Seq::<(u64, Seq<u8>)>::empty());
                        assert(full == Ok::<Option<int>, StoreError>(None));
                    }
                    if tx_list.len() > 0 {
                        proof {
                            assert(snow == Err::<Seq<ScanItem>, StoreError>(StoreError::ChunkBoundary));
                            assert(target == Err::<Seq<ScanItem>, StoreError>(StoreError::ChunkBoundary));
                        }
                        return Err(StoreError::ChunkBoundary);
                    }
                    proof {
                        assert(snow == Ok::<Seq<ScanItem>, StoreError>(Seq::<ScanItem>::empty()));
                        assert(items + Seq::<ScanItem>::empty() =~= items);
                    }
                    break;
                }
            }
        }
        // Replay, oldest collected transaction first.
        let mut merkle = if chunk_start == 0 {
            let mut initial: Vec<DataRoot> = Vec::new();
            let z = zero_root();
            initial.push(z);
            let ghost iv = initial@;
            let t = AppendMerkleTree::new_with_depth(initial, 1);
            proof {
                assert(roots_view(iv) =~= seq![spec_zero_root()]);
                assert(t@.stack == stack_after_leaves(Seq::<(u64, Seq<u8>)>::empty(), seq![spec_zero_root()]));
                assert(seq![spec_zero_root()].first() == spec_zero_root());
                assert(seq![spec_zero_root()].drop_first() =~= Seq::<Seq<u8>>::empty());
                let mp0 = merge_push(Seq::<(u64, Seq<u8>)>::empty(), 1, spec_zero_root());
                assert(mp0 =~= Seq::<(u64, Seq<u8>)>::empty().push((1u64, spec_zero_root())));
                assert(stack_after_leaves(Seq::<(u64, Seq<u8>)>::empty(), seq![spec_zero_root()])
                    == stack_after_leaves(mp0, Seq::<Seq<u8>>::empty()));
                assert(stack_after_leaves(mp0, Seq::<Seq<u8>>::empty()) == mp0);
                assert(t@.stack =~= seq![(1u64, spec_zero_root())]);
                assert(t@ == spec_init_tree(chunk_start));
            }
            t
        } else {
            let t = AppendMerkleTree::new_with_depth(Vec::new(), PORA_CHUNK_DEPTH);
            proof {
                assert(roots_view(Seq::<DataRoot>::empty()) =~= Seq::<Seq<u8>>::empty());
                assert(t@ == spec_init_tree(chunk_start));
            }
            t
        };
        let ghost rtarget = spec_replay(spec_init_tree(chunk_start), items);
        proof {
            assert(cspec == rtarget);
            assert(items.take(items.len() as int) =~= items);
        }
        let n = tx_list.len();
        let mut k: usize = 0;
        while k < n
            invariant
                k <= n == tx_list@.len() == items.len(),
                chunk_start == ((pora_chunk_index as u64) * PORA_CHUNK_SIZE) as u64,
                cspec == spec_rebuild(self@, chunk_start, tx_seq),
                cspec == rtarget,
                forall|j: int| 0 <= j < items.len() ==> items[j] == (ScanItem {
                    seq: (#[trigger] tx_list@[j]).0,
                    nodes: stack_view(tx_list@[j].1@),
                }),
                spec_replay(merkle@, items.take((n - k) as int)) == rtarget,
            decreases n - k,
        {
            let idx = n - 1 - k;
            proof {
                assert(items.take((n - k) as int).last() == items[idx as int]);
                assert(items.take((n - k) as int).drop_last() =~= items.take((n - k - 1) as int));
            }
            let e = &tx_list[idx];
            let ghost tv0 = merkle@;
            let ghost item = items[idx as int];
            let ghost step = spec_replay_step(tv0, item);
            proof {
                assert(item.nodes == stack_view(e.1@));
                assert(spec_replay(tv0, items.take((n - k) as int)) == (match step {
                    Ok(t2) => spec_replay(t2, items.take((n - k - 1) as int)),
                    Err(er) => Err::<TreeView, StoreError>(er),
                }));
            }
            if e.1.len() == 0 {
                proof {
                    assert(step == Err::<TreeView, StoreError>(StoreError::EmptySubtreeList));
                    assert(rtarget == Err::<TreeView, StoreError>(StoreError::EmptySubtreeList));
                }
                return Err(StoreError::EmptySubtreeList);
            }
            let d0 = e.1[0].0;
            proof {
                assert(stack_view(e.1@)[0] == (e.1@[0].0, e.1@[0].1@));
                assert(item.nodes.first() == (d0, e.1@[0].1@));
            }
            if d0 < 1 || d0 > 48 {
                proof {
                    assert(step == Err::<TreeView, StoreError>(StoreError::BadSubtreeDepth));
                    assert(rtarget == Err::<TreeView, StoreError>(StoreError::BadSubtreeDepth));
                }
                return Err(StoreError::BadSubtreeDepth);
            }
            let span = pow2_exec(d0 - 1);
            let lv = merkle.leaves();
            let md = lv % span;
            if md != 0 {
                let lim = if span <= PORA_CHUNK_SIZE {
                    span
                } else {
                    PORA_CHUNK_SIZE
                };
                if lim < md {
                    proof {
                        assert(step == Err::<TreeView, StoreError>(StoreError::ChunkBoundary));
                        assert(rtarget == Err::<TreeView, StoreError>(StoreError::ChunkBoundary));
                    }
                    return Err(StoreError::ChunkBoundary);
                }
                let pad = lim - md;
                let zentry = zero_entry_exec();
                let pl = leaf_hash(zentry.as_slice());
                let mut pv: Vec<DataRoot> = Vec::new();
                let mut q: u64 = 0;
                proof {
                    assert(roots_view(pv@) =~= Seq::new(0, |j: int| spec_pad_leaf()));
                }
                while q < pad
                    invariant
                        q <= pad,
                        pl@ == spec_pad_leaf(),
                        roots_view(pv@) == Seq::new(q as nat, |j: int| spec_pad_leaf()),
                        pv@.len() == q,
                    decreases pad - q,
                {
                    let ghost prev = pv@;
                    pv.push(pl);
                    proof {
                        assert forall|a: int| 0 <= a < pv@.len() implies roots_view(pv@)[a]
                            == spec_pad_leaf() by {
                            assert(roots_view(pv@)[a] == pv@[a]@);
                            if a < prev.len() {
                                assert(pv@[a] == prev[a]);
                                assert(roots_view(prev)[a] == prev[a]@);
                            } else {
                                assert(pv@[a] == pl);
                            }
                        }
                        assert(roots_view(pv@) =~= Seq::new((q + 1) as nat, |j: int| spec_pad_leaf()));
                    }
                    q += 1;
                }
                match merkle.append_list(&pv) {
                    Ok(()) => (),
                    Err(e2) => {
                        proof {
                            assert(step == Err::<TreeView, StoreError>(StoreError::TooManyLeaves));
                            assert(rtarget == Err::<TreeView, StoreError>(StoreError::TooManyLeaves));
                        }
                        return Err(e2);
                    },
                }
            }
            match merkle.append_subtree_list(&e.1) {
                Ok(()) => (),
                Err(e2) => {
                    proof {
                        assert(step == Err::<TreeView, StoreError>(e2));
                        assert(rtarget == Err::<TreeView, StoreError>(e2));
                    }
                    return Err(e2);
                },
            }
            merkle.commit(Some(e.0));
            proof {
                assert(item.seq == e.0);
                assert(step == Ok::<TreeView, StoreError>(merkle@));
                assert(spec_replay(merkle@, items.take((n - k - 1) as int)) == rtarget);
            }
            k += 1;
        }
        proof {
            assert(items.take(0) =~= Seq::<ScanItem>::empty());
            assert(rtarget == Ok::<TreeView, StoreError>(merkle@));
        }
        Ok(merkle)
    }
}

} // verus!
