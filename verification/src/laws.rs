//! Global properties of the store, proved over the spec transitions that
//! the executable methods are contracted against.

use vstd::prelude::*;

use crate::digest::DataRoot;
use crate::store::{
    StoreView, spec_put_tx, spec_remove_after, spec_drain, spec_lookup, spec_index_list,
    spec_apply_inline, spec_padded_root,
};
use crate::tx::{TxView, TxStatus};

verus! {

/// Consistency of a store state: every record sits below the counter under
/// its own sequence number, and the reverse index holds, for each root,
/// a strictly increasing, non-empty list of exactly the recorded sequence
/// numbers bearing that root.
pub open spec fn wf_view(s: StoreView) -> bool {
    &&& forall|k: u64| s.ledger.contains_key(k) ==> k < s.next_tx_seq && (#[trigger] s.ledger[k]).seq
        == k
    &&& forall|r: Seq<u8>| #[trigger] s.root_index.contains_key(r) ==> {
        let l = s.root_index[r];
        &&& l.len() > 0
        &&& forall|i: int, j: int| 0 <= i < j < l.len() ==> l[i] < l[j]
        &&& forall|i: int| 0 <= i < l.len() ==> s.ledger.contains_key(#[trigger] l[i])
            && s.ledger[l[i]].data_merkle_root == r
    }
    &&& forall|k: u64| s.ledger.contains_key(k) ==> s.root_index.contains_key(
        (#[trigger] s.ledger[k]).data_merkle_root,
    ) && s.root_index[s.ledger[k].data_merkle_root].contains(k)
}

/// Inserting at a sequence number at or above the counter always succeeds,
/// advances the counter to one past it, and leaves the stored root's list
/// ending in the new sequence number.
pub proof fn lemma_put_tx_advances(s: StoreView, tx: TxView)
    requires
        wf_view(s),
        tx.seq >= s.next_tx_seq,
        tx.seq < u64::MAX,
    ensures
        spec_put_tx(s, tx).1 == Ok::<Seq<u64>, crate::errors::StoreError>(
            spec_index_list(s.root_index, tx.data_merkle_root),
        ),
        spec_put_tx(s, tx).0.next_tx_seq == tx.seq + 1,
        spec_index_list(
            spec_put_tx(s, tx).0.root_index,
            spec_apply_inline(tx).data_merkle_root,
        ).len() > 0,
        spec_index_list(
            spec_put_tx(s, tx).0.root_index,
            spec_apply_inline(tx).data_merkle_root,
        ).last() == tx.seq,
        spec_put_tx(s, tx).0.ledger.contains_key(tx.seq),
        spec_put_tx(s, tx).0.ledger[tx.seq] == spec_apply_inline(tx),
{
    let l = spec_index_list(s.root_index, tx.data_merkle_root);
    if l.len() > 0 {
        assert(s.root_index.contains_key(tx.data_merkle_root));
        assert(s.ledger.contains_key(l[l.len() - 1]));
        assert(l.last() < s.next_tx_seq);
    }
}

/// Re-inserting the pair that is already the last entry for its root
/// leaves everything but the counter unchanged and still returns the list.
pub proof fn lemma_put_tx_replay(s: StoreView, tx: TxView)
    requires
        spec_index_list(s.root_index, tx.data_merkle_root).len() > 0,
        spec_index_list(s.root_index, tx.data_merkle_root).last() == tx.seq,
        tx.seq < u64::MAX,
    ensures
        spec_put_tx(s, tx).0 == (StoreView { next_tx_seq: (tx.seq + 1) as u64, ..s }),
        spec_put_tx(s, tx).0.root_index == s.root_index,
        spec_put_tx(s, tx).0.ledger == s.ledger,
        spec_put_tx(s, tx).1 == Ok::<Seq<u64>, crate::errors::StoreError>(
            spec_index_list(s.root_index, tx.data_merkle_root),
        ),
{
}

/// When inline content is supplied and the insert is accepted as a new
/// record, the stored root is the Merkle root of the zero-padded content
/// and the stored size is the unpadded length, whatever root the caller
/// supplied.
pub proof fn lemma_put_tx_inline_root(s: StoreView, tx: TxView)
    requires
        tx.data.len() > 0,
        !(spec_index_list(s.root_index, tx.data_merkle_root).len() > 0 && spec_index_list(
            s.root_index,
            tx.data_merkle_root,
        ).last() >= tx.seq),
    ensures
        spec_put_tx(s, tx).1 is Ok,
        spec_put_tx(s, tx).0.ledger.contains_key(tx.seq),
        spec_put_tx(s, tx).0.ledger[tx.seq].data_merkle_root == spec_padded_root(tx.data),
        spec_put_tx(s, tx).0.ledger[tx.seq].size == tx.data.len() as u64,
{
}

/// The drained ledger is a sub-map of the original that agrees with it
/// below the first drained sequence number and beyond the bound.
proof fn lemma_drain_frame(
    ledger: Map<u64, TxView>,
    index: Map<Seq<u8>, Seq<u64>>,
    completion: Map<u64, TxStatus>,
    seq: u64,
    max: u64,
    q: u64,
)
    ensures
        spec_drain(ledger, index, completion, seq, max).ledger.contains_key(q)
            ==> ledger.contains_key(q) && spec_drain(ledger, index, completion, seq, max).ledger[q]
            == ledger[q],
        (q < seq || q >= max) ==> spec_drain(ledger, index, completion, seq, max).ledger.contains_key(
            q,
        ) == ledger.contains_key(q),
        spec_drain(ledger, index, completion, seq, max).completion.contains_key(q)
            ==> completion.contains_key(q) && spec_drain(
            ledger,
            index,
            completion,
            seq,
            max,
        ).completion[q] == completion[q],
        (q < seq || q >= max) ==> spec_drain(
            ledger,
            index,
            completion,
            seq,
            max,
        ).completion.contains_key(q) == completion.contains_key(q),
    decreases max - seq,
{
    if seq >= max || !ledger.contains_key(seq) {
    } else {
        let tx = ledger[seq];
        let root = tx.data_merkle_root;
        let lst = spec_index_list(index, root);
        let f = crate::store::filter_less(lst, seq);
        let i2 = if f.len() == 0 {
            index.remove(root)
        } else {
            index.insert(root, f)
        };
        lemma_drain_frame(ledger.remove(seq), i2, completion.remove(seq), (seq + 1) as u64, max, q);
    }
}

/// After a rollback to `min_seq`, the counter is `min_seq`, every lookup at
/// or above it is absent, and every lookup below it is unchanged.
pub proof fn lemma_remove_after_lookup(s: StoreView, min_seq: u64, q: u64)
    requires
        wf_view(s),
    ensures
        spec_remove_after(s, min_seq).0.next_tx_seq == min_seq,
        q >= min_seq ==> spec_lookup(spec_remove_after(s, min_seq).0, q) is None,
        q < min_seq ==> spec_lookup(spec_remove_after(s, min_seq).0, q) == spec_lookup(s, q),
{
    let s2 = spec_remove_after(s, min_seq).0;
    lemma_drain_frame(s.ledger, s.root_index, s.completion, min_seq, s.next_tx_seq, q);
    if q < min_seq {
        if q >= s.next_tx_seq {
            assert(!s.ledger.contains_key(q));
            assert(!s2.ledger.contains_key(q));
        }
    }
}

/// Elements all below the bound pass the filter unchanged.
proof fn lemma_filter_less_all(s: Seq<u64>, b: u64)
    requires
        forall|i: int| 0 <= i < s.len() ==> s[i] < b,
    ensures
        crate::store::filter_less(s, b) == s,
    decreases s.len(),
{
    if s.len() > 0 {
        lemma_filter_less_all(s.drop_last(), b);
        assert(crate::store::filter_less(s, b) =~= s);
    }
}

/// A status write is terminal in the observed sense: after `Prune`, the
/// status reads `Pruned` and not `Finalized`; the symmetric claim holds for
/// `Finalize`; and repeating the same write changes nothing.
pub proof fn lemma_status_terminal(s: StoreView, seq: u64)
    ensures
        s.completion.insert(seq, TxStatus::Pruned)[seq] == TxStatus::Pruned,
        s.completion.insert(seq, TxStatus::Pruned)[seq] != TxStatus::Finalized,
        s.completion.insert(seq, TxStatus::Finalized)[seq] == TxStatus::Finalized,
        s.completion.insert(seq, TxStatus::Pruned).insert(seq, TxStatus::Pruned)
            == s.completion.insert(seq, TxStatus::Pruned),
        s.completion.insert(seq, TxStatus::Finalized).insert(seq, TxStatus::Finalized)
            == s.completion.insert(seq, TxStatus::Finalized),
{
    assert(s.completion.insert(seq, TxStatus::Pruned).insert(seq, TxStatus::Pruned)
        =~= s.completion.insert(seq, TxStatus::Pruned));
    assert(s.completion.insert(seq, TxStatus::Finalized).insert(seq, TxStatus::Finalized)
        =~= s.completion.insert(seq, TxStatus::Finalized));
}

/// The per-block records hold exactly what the per-block path of
/// `PutProgress` wrote and `DeleteBlockHashByNumber` has not since removed:
/// a write is visible, a delete removes it, and neither touches any other
/// block number.
pub proof fn lemma_block_hashes_track(
    s: StoreView,
    bn: u64,
    hash: DataRoot,
    fsi: Option<u64>,
    other: u64,
)
    ensures
        s.blocks.insert(bn, (hash, fsi)).contains_key(bn),
        s.blocks.insert(bn, (hash, fsi))[bn] == (hash, fsi),
        !s.blocks.remove(bn).contains_key(bn),
        other != bn ==> s.blocks.insert(bn, (hash, fsi)).contains_key(other)
            == s.blocks.contains_key(other),
        other != bn ==> s.blocks.remove(bn).contains_key(other) == s.blocks.contains_key(other),
        other != bn && s.blocks.contains_key(other) ==> s.blocks.insert(bn, (hash, fsi))[other]
            == s.blocks[other] && s.blocks.remove(bn)[other] == s.blocks[other],
{
}


/// Filtering keeps exactly the elements below the bound, in their order.
proof fn lemma_filter_less_elems(l: Seq<u64>, b: u64)
    ensures
        forall|j: int| 0 <= j < crate::store::filter_less(l, b).len() ==> #[trigger] crate::store::filter_less(l, b)[j] < b
            && l.contains(crate::store::filter_less(l, b)[j]),
    decreases l.len(),
{
    let f = crate::store::filter_less(l, b);
    if l.len() > 0 {
        lemma_filter_less_elems(l.drop_last(), b);
        assert(forall|j: int| 0 <= j < l.drop_last().len() ==> l.contains(#[trigger] l.drop_last()[j])) by {
            assert(forall|j: int| 0 <= j < l.drop_last().len() ==> l.drop_last()[j] == l[j]);
        }
        assert forall|j: int| 0 <= j < f.len() implies #[trigger] f[j] < b && l.contains(f[j]) by {
            let fd = crate::store::filter_less(l.drop_last(), b);
            if l.last() < b {
                if j < f.len() - 1 {
                    assert(f[j] == fd[j]);
                } else {
                    assert(f[j] == l.last());
                    assert(l[l.len() - 1] == l.last());
                }
            } else {
                assert(f[j] == fd[j]);
            }
        }
    }
}

/// Two bounds with no list element between them filter alike.
proof fn lemma_filter_less_gap(l: Seq<u64>, a: u64, b: u64)
    requires
        a <= b,
        forall|i: int| 0 <= i < l.len() ==> l[i] < a || l[i] >= b,
    ensures
        crate::store::filter_less(l, b) == crate::store::filter_less(l, a),
    decreases l.len(),
{
    if l.len() > 0 {
        assert(forall|i: int| 0 <= i < l.drop_last().len() ==> #[trigger] l.drop_last()[i] == l[i]);
        lemma_filter_less_gap(l.drop_last(), a, b);
        assert(l[l.len() - 1] == l.last());
    }
}

/// Raising the bound just past a present element appends that element.
proof fn lemma_filter_less_succ(l: Seq<u64>, q: u64)
    requires
        q < u64::MAX,
        forall|i: int, j: int| 0 <= i < j < l.len() ==> l[i] < l[j],
        l.contains(q),
    ensures
        crate::store::filter_less(l, (q + 1) as u64) == crate::store::filter_less(l, q).push(q),
    decreases l.len(),
{
    let w = choose|w: int| 0 <= w < l.len() && l[w] == q;
    assert(l[l.len() - 1] == l.last());
    if l.last() == q {
        assert(forall|i: int| 0 <= i < l.drop_last().len() ==> #[trigger] l.drop_last()[i] == l[i]
            && l[i] < q);
        lemma_filter_less_all(l.drop_last(), q);
        lemma_filter_less_all(l.drop_last(), (q + 1) as u64);
    } else {
        assert(w < l.len() - 1);
        assert(l.last() > q);
        assert(forall|i: int, j: int| 0 <= i < j < l.drop_last().len() ==> #[trigger] l.drop_last()[i]
            < #[trigger] l.drop_last()[j]) by {
            assert(forall|i: int| 0 <= i < l.drop_last().len() ==> l.drop_last()[i] == l[i]);
        }
        assert(l.drop_last()[w] == q);
        assert(l.drop_last().contains(q));
        lemma_filter_less_succ(l.drop_last(), q);
    }
}

/// Re-insertion of a list of records, oldest first.
pub open spec fn spec_reinsert(s: StoreView, txs: Seq<TxView>) -> StoreView
    decreases txs.len(),
{
    if txs.len() == 0 {
        s
    } else {
        spec_reinsert(spec_put_tx(s, txs.first()).0, txs.drop_first())
    }
}

/// The ledger after rolling the store back to `q`.
pub open spec fn rolled_ledger(s: StoreView, q: u64) -> Map<u64, TxView> {
    s.ledger.remove_keys(Set::new(|k: u64| q <= k < s.next_tx_seq))
}

/// The reverse index after rolling the store back to `q`: each list
/// filtered to entries below `q`, emptied roots dropped.
pub open spec fn rolled_index(s: StoreView, q: u64) -> Map<Seq<u8>, Seq<u64>> {
    Map::new(
        |r: Seq<u8>| s.root_index.contains_key(r) && crate::store::filter_less(s.root_index[r], q).len() > 0,
        |r: Seq<u8>| crate::store::filter_less(s.root_index[r], q),
    )
}

/// The records a rollback to `q` hands back, ascending.
pub open spec fn rolled_removed(s: StoreView, q: u64) -> Seq<TxView> {
    Seq::new((s.next_tx_seq - q) as nat, |i: int| s.ledger[(q + i) as u64])
}

/// Some record in `[min, q)` bears this root.
pub open spec fn touched(s: StoreView, min: u64, q: u64, r: Seq<u8>) -> bool {
    exists|k: u64| min <= k < q && s.ledger.contains_key(k) && (#[trigger] s.ledger[k]).data_merkle_root == r
}

/// The ledger with `[min, q)` already drained.
pub open spec fn mid_ledger(s: StoreView, min: u64, q: u64) -> Map<u64, TxView> {
    s.ledger.remove_keys(Set::new(|k: u64| min <= k < q))
}

/// Continuing a drain from the middle lands exactly on the rolled state:
/// already-touched roots are already fully filtered, untouched roots are
/// still original.
proof fn lemma_drain_shape(s: StoreView, min: u64, q: u64, ix: Map<Seq<u8>, Seq<u64>>, c: Map<u64, TxStatus>)
    requires
        wf_view(s),
        min <= q <= s.next_tx_seq,
        forall|k: u64| min <= k < s.next_tx_seq ==> s.ledger.contains_key(k),
        forall|r: Seq<u8>| touched(s, min, q, r) ==> #[trigger] ix.contains_key(r) == rolled_index(s, min).contains_key(r),
        forall|r: Seq<u8>| touched(s, min, q, r) && #[trigger] ix.contains_key(r) ==> ix[r] == rolled_index(s, min)[r],
        forall|r: Seq<u8>| !touched(s, min, q, r) ==> #[trigger] ix.contains_key(r) == s.root_index.contains_key(r),
        forall|r: Seq<u8>| !touched(s, min, q, r) && #[trigger] ix.contains_key(r) ==> ix[r] == s.root_index[r],
    ensures
        spec_drain(mid_ledger(s, min, q), ix, c, q, s.next_tx_seq).ledger == rolled_ledger(s, min),
        spec_drain(mid_ledger(s, min, q), ix, c, q, s.next_tx_seq).root_index == rolled_index(s, min),
        spec_drain(mid_ledger(s, min, q), ix, c, q, s.next_tx_seq).removed == rolled_removed(s, q),
    decreases s.next_tx_seq - q,
{
    let max = s.next_tx_seq;
    let ml = mid_ledger(s, min, q);
    if q >= max {
        assert(ml =~= rolled_ledger(s, min));
        assert forall|r: Seq<u8>| #[trigger] ix.contains_key(r) == rolled_index(s, min).contains_key(r)
            && (ix.contains_key(r) ==> ix[r] == rolled_index(s, min)[r]) by {
            if touched(s, min, q, r) {
            } else {
                if s.root_index.contains_key(r) {
                    assert forall|i: int| 0 <= i < s.root_index[r].len() implies #[trigger] s.root_index[r][i] < min by {
                        let e = s.root_index[r][i];
                        assert(s.ledger.contains_key(e) && s.ledger[e].data_merkle_root == r);
                        assert(e < s.next_tx_seq);
                        if e >= min {
                            assert(touched(s, min, q, r));
                        }
                    }
                    lemma_filter_less_all(s.root_index[r], min);
                    assert(s.root_index[r].len() > 0);
                }
            }
        }
        assert(ix =~= rolled_index(s, min));
        assert(rolled_removed(s, q) =~= Seq::<TxView>::empty());
    } else {
        assert(s.ledger.contains_key(q));
        assert(ml.contains_key(q) && ml[q] == s.ledger[q]);
        let tx = ml[q];
        let root = tx.data_merkle_root;
        assert(s.root_index.contains_key(root) && s.root_index[root].contains(q));
        let orig = s.root_index[root];
        let lst = spec_index_list(ix, root);
        let f = crate::store::filter_less(lst, q);
        let i2 = if f.len() == 0 {
            ix.remove(root)
        } else {
            ix.insert(root, f)
        };
        let rolled_f = crate::store::filter_less(orig, min);
        lemma_filter_less_elems(orig, min);
        if touched(s, min, q, root) {
            if ix.contains_key(root) {
                assert(lst == rolled_f);
                lemma_filter_less_all(lst, q);
                assert(f == lst);
            } else {
                assert(lst =~= Seq::<u64>::empty());
                assert(f =~= Seq::<u64>::empty());
                assert(rolled_f.len() == 0);
            }
        } else {
            assert(ix.contains_key(root) && lst == orig);
            assert forall|i: int| 0 <= i < orig.len() implies #[trigger] orig[i] < min || orig[i] >= q by {
                let e = orig[i];
                assert(s.ledger.contains_key(e) && s.ledger[e].data_merkle_root == root);
                if min <= e < q {
                    assert(touched(s, min, q, root));
                }
            }
            lemma_filter_less_gap(orig, min, q);
            assert(f == rolled_f);
        }
        // in every case the new entry for this root is the fully rolled
        // list, dropped when empty
        assert(f == rolled_f || (f.len() == 0 && rolled_f.len() == 0));
        // hypotheses for the next step
        assert forall|r: Seq<u8>| touched(s, min, (q + 1) as u64, r) implies #[trigger] i2.contains_key(r)
            == rolled_index(s, min).contains_key(r) && (i2.contains_key(r) ==> i2[r] == rolled_index(
            s,
            min,
        )[r]) by {
            if r == root {
                assert(i2.contains_key(root) == (f.len() > 0));
                assert(rolled_index(s, min).contains_key(root) == (rolled_f.len() > 0));
            } else {
                assert(i2.contains_key(r) == ix.contains_key(r));
                assert(i2.contains_key(r) ==> i2[r] == ix[r]);
                assert(touched(s, min, q, r)) by {
                    let k = choose|k: u64| min <= k < (q + 1) as u64 && s.ledger.contains_key(k)
                        && (#[trigger] s.ledger[k]).data_merkle_root == r;
                    assert(k != q);
                }
            }
        }
        assert forall|r: Seq<u8>| !touched(s, min, (q + 1) as u64, r) implies #[trigger] i2.contains_key(r)
            == s.root_index.contains_key(r) && (i2.contains_key(r) ==> i2[r] == s.root_index[r]) by {
            assert(r != root) by {
                assert(min <= q < (q + 1) as u64 && s.ledger.contains_key(q)
                    && s.ledger[q].data_merkle_root == root);
            }
            assert(!touched(s, min, q, r)) by {
                if touched(s, min, q, r) {
                    let k = choose|k: u64| min <= k < q && s.ledger.contains_key(k)
                        && (#[trigger] s.ledger[k]).data_merkle_root == r;
                    assert(min <= k < (q + 1) as u64);
                }
            }
            assert(i2.contains_key(r) == ix.contains_key(r));
        }
        lemma_drain_shape(s, min, (q + 1) as u64, i2, c.remove(q));
        assert(ml.remove(q) =~= mid_ledger(s, min, (q + 1) as u64));
        let rest = spec_drain(mid_ledger(s, min, (q + 1) as u64), i2, c.remove(q), (q + 1) as u64, max);
        assert(spec_drain(ml, ix, c, q, max).removed == seq![tx] + rest.removed);
        assert(seq![tx] + rolled_removed(s, (q + 1) as u64) =~= rolled_removed(s, q));
    }
}


/// Re-inserting the rolled-back records, oldest first, walks the store
/// forward through exactly the rolled states and ends at the original
/// ledger, reverse index and counter.
proof fn lemma_reinsert_restores(s: StoreView, q: u64, cur: StoreView)
    requires
        wf_view(s),
        q <= s.next_tx_seq,
        forall|k: u64| q <= k < s.next_tx_seq ==> s.ledger.contains_key(k),
        forall|k: u64| s.ledger.contains_key(k) && (#[trigger] s.ledger[k]).data.len() > 0
            ==> s.ledger[k].data_merkle_root == spec_padded_root(s.ledger[k].data)
            && s.ledger[k].size == s.ledger[k].data.len() as u64,
        cur.next_tx_seq == q,
        cur.ledger == rolled_ledger(s, q),
        cur.root_index == rolled_index(s, q),
    ensures
        spec_reinsert(cur, rolled_removed(s, q)).ledger == s.ledger,
        spec_reinsert(cur, rolled_removed(s, q)).root_index == s.root_index,
        spec_reinsert(cur, rolled_removed(s, q)).next_tx_seq == s.next_tx_seq,
    decreases s.next_tx_seq - q,
{
    let txs = rolled_removed(s, q);
    if q == s.next_tx_seq {
        assert(rolled_ledger(s, q) =~= s.ledger);
        assert forall|r: Seq<u8>| #[trigger] rolled_index(s, q).contains_key(r)
            == s.root_index.contains_key(r) && (s.root_index.contains_key(r) ==> rolled_index(
            s,
            q,
        )[r] == s.root_index[r]) by {
            if s.root_index.contains_key(r) {
                assert forall|i: int| 0 <= i < s.root_index[r].len() implies #[trigger] s.root_index[r][i]
                    < q by {
                    assert(s.ledger.contains_key(s.root_index[r][i]));
                }
                lemma_filter_less_all(s.root_index[r], q);
                assert(s.root_index[r].len() > 0);
            }
        }
        assert(rolled_index(s, q) =~= s.root_index);
        assert(txs.len() == 0);
    } else {
        let tx = s.ledger[q];
        assert(txs.first() == tx);
        assert(tx.seq == q);
        let root = tx.data_merkle_root;
        assert(s.root_index.contains_key(root) && s.root_index[root].contains(q));
        let orig = s.root_index[root];
        let old_list = spec_index_list(cur.root_index, root);
        let rolled_f = crate::store::filter_less(orig, q);
        assert(old_list == rolled_f || (old_list.len() == 0 && rolled_f.len() == 0)) by {
            if cur.root_index.contains_key(root) {
            } else {
                assert(rolled_f.len() == 0);
            }
        }
        lemma_filter_less_elems(orig, q);
        // the filtered list never reaches q, so this is a fresh insert
        if old_list.len() > 0 {
            assert(old_list.last() < q);
        }
        assert(spec_apply_inline(tx) == tx) by {
            if tx.data.len() > 0 {
                assert(spec_apply_inline(tx).data_merkle_root == tx.data_merkle_root);
                assert(spec_apply_inline(tx).size == tx.size);
            }
        }
        let nxt = spec_put_tx(cur, tx).0;
        assert(nxt.next_tx_seq == q + 1);
        assert(nxt.ledger == cur.ledger.insert(q, tx));
        assert(nxt.ledger =~= rolled_ledger(s, (q + 1) as u64));
        // the index advances to the next rolled state
        assert(q < u64::MAX);
        assert forall|i: int, j: int| 0 <= i < j < orig.len() implies orig[i] < orig[j] by {}
        lemma_filter_less_succ(orig, q);
        assert(nxt.root_index == cur.root_index.insert(root, old_list.push(q)));
        assert forall|r: Seq<u8>| #[trigger] nxt.root_index.contains_key(r) == rolled_index(
            s,
            (q + 1) as u64,
        ).contains_key(r) && (nxt.root_index.contains_key(r) ==> nxt.root_index[r] == rolled_index(
            s,
            (q + 1) as u64,
        )[r]) by {
            if r == root {
                assert(old_list.push(q) == crate::store::filter_less(orig, (q + 1) as u64)) by {
                    if old_list.len() == 0 {
                        assert(old_list =~= rolled_f);
                    }
                }
            } else {
                if s.root_index.contains_key(r) {
                    assert forall|i: int| 0 <= i < s.root_index[r].len() implies
                        #[trigger] s.root_index[r][i] < q || s.root_index[r][i] >= (q + 1) as u64 by {
                        let e = s.root_index[r][i];
                        assert(s.ledger.contains_key(e) && s.ledger[e].data_merkle_root == r);
                        if e == q {
                            assert(s.ledger[q].data_merkle_root == root);
                        }
                    }
                    lemma_filter_less_gap(s.root_index[r], q, (q + 1) as u64);
                }
            }
        }
        assert(nxt.root_index =~= rolled_index(s, (q + 1) as u64));
        assert(txs.drop_first() =~= rolled_removed(s, (q + 1) as u64));
        lemma_reinsert_restores(s, (q + 1) as u64, nxt);
    }
}

/// Rolling back to `min_seq` and re-inserting exactly the removed records,
/// in ascending order, reproduces the original transaction ledger, reverse
/// index and sequence counter.
pub proof fn lemma_rollback_reinsert(s: StoreView, min_seq: u64)
    requires
        wf_view(s),
        min_seq <= s.next_tx_seq,
        forall|k: u64| min_seq <= k < s.next_tx_seq ==> s.ledger.contains_key(k),
        forall|k: u64| s.ledger.contains_key(k) && (#[trigger] s.ledger[k]).data.len() > 0
            ==> s.ledger[k].data_merkle_root == spec_padded_root(s.ledger[k].data)
            && s.ledger[k].size == s.ledger[k].data.len() as u64,
    ensures
        spec_reinsert(spec_remove_after(s, min_seq).0, spec_remove_after(s, min_seq).1).ledger
            == s.ledger,
        spec_reinsert(spec_remove_after(s, min_seq).0, spec_remove_after(s, min_seq).1).root_index
            == s.root_index,
        spec_reinsert(spec_remove_after(s, min_seq).0, spec_remove_after(s, min_seq).1).next_tx_seq
            == s.next_tx_seq,
{
    assert(mid_ledger(s, min_seq, min_seq) =~= s.ledger);
    assert forall|r: Seq<u8>| !touched(s, min_seq, min_seq, r) by {
        if touched(s, min_seq, min_seq, r) {
            let k = choose|k: u64| min_seq <= k < min_seq && s.ledger.contains_key(k)
                && (#[trigger] s.ledger[k]).data_merkle_root == r;
        }
    }
    lemma_drain_shape(s, min_seq, min_seq, s.root_index, s.completion);
    let s2 = spec_remove_after(s, min_seq).0;
    assert(s2.ledger == rolled_ledger(s, min_seq));
    assert(s2.root_index == rolled_index(s, min_seq));
    assert(spec_remove_after(s, min_seq).1 == rolled_removed(s, min_seq));
    lemma_reinsert_restores(s, min_seq, s2);
}


/// Membership survives filtering when the element is below the bound, and
/// the filtered list stays strictly increasing.
proof fn lemma_filter_less_keeps(l: Seq<u64>, b: u64, e: u64)
    requires
        l.contains(e),
        e < b,
    ensures
        crate::store::filter_less(l, b).contains(e),
    decreases l.len(),
{
    let w = choose|w: int| 0 <= w < l.len() && l[w] == e;
    assert(l[l.len() - 1] == l.last());
    if l.last() == e {
        let f = crate::store::filter_less(l, b);
        assert(f.last() == e);
        assert(f[f.len() - 1] == e);
    } else {
        assert(w < l.len() - 1);
        assert(l.drop_last()[w] == e);
        assert(l.drop_last().contains(e));
        lemma_filter_less_keeps(l.drop_last(), b, e);
        let fd = crate::store::filter_less(l.drop_last(), b);
        let v = choose|v: int| 0 <= v < fd.len() && fd[v] == e;
        if l.last() < b {
            assert(crate::store::filter_less(l, b)[v] == e);
        }
    }
}

/// The filtered list of a strictly increasing list is strictly increasing.
proof fn lemma_filter_less_sorted(l: Seq<u64>, b: u64)
    requires
        forall|i: int, j: int| 0 <= i < j < l.len() ==> l[i] < l[j],
    ensures
        forall|i: int, j: int| 0 <= i < j < crate::store::filter_less(l, b).len()
            ==> #[trigger] crate::store::filter_less(l, b)[i] < #[trigger] crate::store::filter_less(l, b)[j],
    decreases l.len(),
{
    if l.len() > 0 {
        assert(forall|i: int, j: int| 0 <= i < j < l.drop_last().len() ==> #[trigger] l.drop_last()[i]
            < #[trigger] l.drop_last()[j]) by {
            assert(forall|i: int| 0 <= i < l.drop_last().len() ==> l.drop_last()[i] == l[i]);
        }
        lemma_filter_less_sorted(l.drop_last(), b);
        let f = crate::store::filter_less(l, b);
        let fd = crate::store::filter_less(l.drop_last(), b);
        lemma_filter_less_elems(l.drop_last(), b);
        if l.last() < b {
            assert forall|i: int, j: int| 0 <= i < j < f.len() implies #[trigger] f[i] < #[trigger] f[j] by {
                if j < f.len() - 1 {
                    assert(f[i] == fd[i] && f[j] == fd[j]);
                } else {
                    assert(f[i] == fd[i]);
                    assert(f[j] == l.last());
                    let e = fd[i];
                    assert(l.drop_last().contains(e));
                    let w = choose|w: int| 0 <= w < l.drop_last().len() && l.drop_last()[w] == e;
                    assert(l[w] == e && l[l.len() - 1] == l.last());
                }
            }
        }
    }
}

/// Consistency is an invariant of insertion at or above the counter, when
/// inline content comes with its own recomputed root (the insert path
/// recomputes it anyway; a mismatched caller root would file the new entry
/// under a different index key than the list that was read).
pub proof fn lemma_put_tx_preserves_wf(s: StoreView, tx: TxView)
    requires
        wf_view(s),
        tx.seq >= s.next_tx_seq,
        tx.seq < u64::MAX,
        tx.data.len() > 0 ==> tx.data_merkle_root == spec_padded_root(tx.data),
    ensures
        wf_view(spec_put_tx(s, tx).0),
{
    lemma_put_tx_advances(s, tx);
    let s2 = spec_put_tx(s, tx).0;
    let tx2 = spec_apply_inline(tx);
    assert(tx2.data_merkle_root == tx.data_merkle_root);
    let newr = tx.data_merkle_root;
    let old_list = spec_index_list(s.root_index, newr);
    assert(tx2.seq == tx.seq) by {
        if tx.data.len() > 0 {
            assert(tx2 == (TxView {
                data_merkle_root: spec_padded_root(tx.data),
                size: tx.data.len() as u64,
                ..tx
            }));
        }
    }
    assert forall|k: u64| s2.ledger.contains_key(k) implies k < s2.next_tx_seq
        && (#[trigger] s2.ledger[k]).seq == k by {
        if k != tx.seq {
            assert(s.ledger.contains_key(k));
            let v = s.ledger[k];
            assert(v.seq == k);
            assert(k < s.next_tx_seq);
        }
    }
    assert forall|r: Seq<u8>| #[trigger] s2.root_index.contains_key(r) implies {
        let l = s2.root_index[r];
        &&& l.len() > 0
        &&& forall|i: int, j: int| 0 <= i < j < l.len() ==> l[i] < l[j]
        &&& forall|i: int| 0 <= i < l.len() ==> s2.ledger.contains_key(#[trigger] l[i])
            && s2.ledger[l[i]].data_merkle_root == r
    } by {
        let l = s2.root_index[r];
        if r == newr {
            assert(l == old_list.push(tx.seq));
            assert forall|i: int, j: int| 0 <= i < j < l.len() implies l[i] < l[j] by {
                if j < l.len() - 1 {
                    assert(old_list[i] < old_list[j]);
                } else if i < l.len() - 1 {
                    assert(s.ledger.contains_key(old_list[i]));
                    assert(old_list[i] < s.next_tx_seq);
                }
            }
            assert forall|i: int| 0 <= i < l.len() implies s2.ledger.contains_key(#[trigger] l[i])
                && s2.ledger[l[i]].data_merkle_root == r by {
                if i < l.len() - 1 {
                    assert(s.ledger.contains_key(old_list[i]));
                    assert(old_list[i] < s.next_tx_seq);
                    assert(s.ledger[old_list[i]].data_merkle_root == newr);
                }
            }
        } else {
            assert(s.root_index.contains_key(r) && l == s.root_index[r]);
            assert forall|i: int| 0 <= i < l.len() implies s2.ledger.contains_key(#[trigger] l[i])
                && s2.ledger[l[i]].data_merkle_root == r by {
                assert(s.ledger.contains_key(l[i]));
                assert(l[i] < s.next_tx_seq);
            }
        }
    }
    assert forall|k: u64| s2.ledger.contains_key(k) implies s2.root_index.contains_key(
        (#[trigger] s2.ledger[k]).data_merkle_root,
    ) && s2.root_index[s2.ledger[k].data_merkle_root].contains(k) by {
        if k == tx.seq {
            assert(s2.root_index[newr] == old_list.push(tx.seq));
            assert(old_list.push(tx.seq)[old_list.len() as int] == tx.seq);
        } else {
            assert(s.ledger.contains_key(k));
            let r = s.ledger[k].data_merkle_root;
            assert(s.root_index[r].contains(k));
            if r == newr {
                let w = choose|w: int| 0 <= w < s.root_index[r].len() && s.root_index[r][w] == k;
                assert(old_list.push(tx.seq)[w] == k);
            }
        }
    }
    assert forall|k: u64| #[trigger] s2.ledger.contains_key(k) implies k < s2.next_tx_seq
        && s2.ledger[k].seq == k by {
        if k != tx.seq {
            assert(s.ledger.contains_key(k));
            let v = s.ledger[k];
            assert(v.seq == k);
        }
    }
}


/// Consistency is an invariant of rollback: the state it leaves behind is
/// consistent again.
pub proof fn lemma_remove_after_preserves_wf(s: StoreView, min_seq: u64)
    requires
        wf_view(s),
        min_seq <= s.next_tx_seq,
        forall|k: u64| min_seq <= k < s.next_tx_seq ==> s.ledger.contains_key(k),
    ensures
        wf_view(spec_remove_after(s, min_seq).0),
{
    assert(mid_ledger(s, min_seq, min_seq) =~= s.ledger);
    assert forall|r: Seq<u8>| !touched(s, min_seq, min_seq, r) by {
        if touched(s, min_seq, min_seq, r) {
            let k = choose|k: u64| min_seq <= k < min_seq && s.ledger.contains_key(k)
                && (#[trigger] s.ledger[k]).data_merkle_root == r;
        }
    }
    lemma_drain_shape(s, min_seq, min_seq, s.root_index, s.completion);
    let s2 = spec_remove_after(s, min_seq).0;
    assert(s2.ledger == rolled_ledger(s, min_seq));
    assert(s2.root_index == rolled_index(s, min_seq));
    assert forall|k: u64| #[trigger] s2.ledger.contains_key(k) implies k < s2.next_tx_seq
        && s2.ledger[k].seq == k by {
        assert(s.ledger.contains_key(k));
        let v = s.ledger[k];
        assert(v.seq == k);
        assert(s2.ledger[k] == v);
    }
    assert forall|r: Seq<u8>| #[trigger] s2.root_index.contains_key(r) implies {
        let l = s2.root_index[r];
        &&& l.len() > 0
        &&& forall|i: int, j: int| 0 <= i < j < l.len() ==> l[i] < l[j]
        &&& forall|i: int| 0 <= i < l.len() ==> s2.ledger.contains_key(#[trigger] l[i])
            && s2.ledger[l[i]].data_merkle_root == r
    } by {
        assert(s.root_index.contains_key(r));
        let orig = s.root_index[r];
        let l = s2.root_index[r];
        assert(l == crate::store::filter_less(orig, min_seq));
        lemma_filter_less_sorted(orig, min_seq);
        lemma_filter_less_elems(orig, min_seq);
        assert forall|i: int| 0 <= i < l.len() implies s2.ledger.contains_key(#[trigger] l[i])
            && s2.ledger[l[i]].data_merkle_root == r by {
            let e = l[i];
            assert(e < min_seq && orig.contains(e));
            let w = choose|w: int| 0 <= w < orig.len() && orig[w] == e;
            assert(s.ledger.contains_key(orig[w]) && s.ledger[orig[w]].data_merkle_root == r);
        }
    }
    assert forall|k: u64| #[trigger] s2.ledger.contains_key(k) implies s2.root_index.contains_key(
        s2.ledger[k].data_merkle_root,
    ) && s2.root_index[s2.ledger[k].data_merkle_root].contains(k) by {
        assert(s.ledger.contains_key(k));
        let v = s.ledger[k];
        assert(v.seq == k);
        let r = v.data_merkle_root;
        assert(s.root_index.contains_key(r) && s.root_index[r].contains(k));
        assert(k < min_seq);
        lemma_filter_less_keeps(s.root_index[r], min_seq, k);
        assert(s2.root_index.contains_key(r));
        assert(s2.root_index[r].contains(k));
    }
}

} // verus!
