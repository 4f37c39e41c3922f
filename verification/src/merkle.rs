//! An append-only Merkle tree over precomputed digests.
//!
//! The tree never re-hashes raw leaves that arrive as subtree digests: its
//! state is the frontier of maximal complete subtrees, kept as a stack of
//! `(depth, digest)` pairs. A subtree of depth `d` covers `2^(d-1)` leaves
//! and may only be appended when the current leaf count is a multiple of its
//! span. The root folds the frontier right-to-left, padding incomplete
//! positions with all-zero subtrees, up to at least `min_depth`.

use vstd::prelude::*;
use vstd::arithmetic::power2::{pow2, lemma_pow2_strictly_increases, lemma_pow2_unfold, lemma2_to64, lemma2_to64_rest};

use crate::digest::{DataRoot, spec_node_hash, spec_zero_root, spec_leaf_hash, node_hash, zero_root, leaf_hash};
use crate::errors::StoreError;

verus! {

/// The mathematical state of an [`AppendMerkleTree`].
pub ghost struct TreeView {
    /// Frontier of appended subtrees, left to right: `(depth, digest)`.
    pub stack: Seq<(u64, Seq<u8>)>,
    /// Number of leaves covered by the frontier.
    pub leaf_count: u64,
    /// The root is folded up to at least this depth.
    pub min_depth: u64,
    /// Committed versions: `(tag, leaf_count, root)` at each commit.
    pub versions: Seq<(u64, u64, Seq<u8>)>,
}

pub open spec fn stack_view(s: Seq<(u64, DataRoot)>) -> Seq<(u64, Seq<u8>)> {
    s.map_values(|p: (u64, DataRoot)| (p.0, p.1@))
}

pub open spec fn roots_view(s: Seq<DataRoot>) -> Seq<Seq<u8>> {
    s.map_values(|a: DataRoot| a@)
}

pub open spec fn versions_view(s: Seq<(u64, u64, DataRoot)>) -> Seq<(u64, u64, Seq<u8>)> {
    s.map_values(|p: (u64, u64, DataRoot)| (p.0, p.1, p.2@))
}

/// Append one subtree digest to a frontier: equal-depth neighbours are
/// hashed together and carried, as in binary addition.
pub open spec fn merge_push(stack: Seq<(u64, Seq<u8>)>, d: u64, h: Seq<u8>) -> Seq<(u64, Seq<u8>)>
    decreases stack.len(),
{
    if stack.len() > 0 && stack.last().0 == d && d < 64 {
        merge_push(stack.drop_last(), (d + 1) as u64, spec_node_hash(stack.last().1, h))
    } else {
        stack.push((d, h))
    }
}

/// Frontier after appending a list of leaf digests, one by one.
pub open spec fn stack_after_leaves(stack: Seq<(u64, Seq<u8>)>, leaves: Seq<Seq<u8>>) -> Seq<(u64, Seq<u8>)>
    decreases leaves.len(),
{
    if leaves.len() == 0 {
        stack
    } else {
        stack_after_leaves(merge_push(stack, 1, leaves.first()), leaves.drop_first())
    }
}

/// Digest of the all-zero subtree of depth `d`.
pub open spec fn zero_at(d: nat) -> Seq<u8>
    decreases d,
{
    if d <= 1 {
        spec_zero_root()
    } else {
        spec_node_hash(zero_at((d - 1) as nat), zero_at((d - 1) as nat))
    }
}

/// Raise a digest from depth `from` to depth `to` by pairing it with
/// all-zero subtrees on the right.
pub open spec fn lift_digest(h: Seq<u8>, from: nat, to: nat) -> Seq<u8>
    decreases to - from,
{
    if from >= to {
        h
    } else {
        lift_digest(spec_node_hash(h, zero_at(from)), (from + 1) as nat, to)
    }
}

/// Depths saturate at 64 while folding; no aligned frontier ever reaches it.
pub open spec fn bump(d: nat) -> nat {
    if d < 64 {
        (d + 1) as nat
    } else {
        64
    }
}

/// Fold the remaining frontier (to the left of the accumulator) into a
/// single digest, right to left.
pub open spec fn fold_stack(stack: Seq<(u64, Seq<u8>)>, acc_d: nat, acc: Seq<u8>) -> (nat, Seq<u8>)
    decreases stack.len(),
{
    if stack.len() == 0 {
        (acc_d, acc)
    } else {
        let d = stack.last().0 as nat;
        let lifted = lift_digest(acc, acc_d, d);
        let m: nat = if d >= acc_d {
            d
        } else {
            acc_d
        };
        fold_stack(stack.drop_last(), bump(m), spec_node_hash(stack.last().1, lifted))
    }
}

/// The root of a tree state: fold the frontier, then lift the result to at
/// least `min_depth`. An empty tree's root is the all-zero subtree.
pub open spec fn spec_root(tv: TreeView) -> Seq<u8> {
    if tv.stack.len() == 0 {
        zero_at(tv.min_depth as nat)
    } else {
        let start = tv.stack.last();
        let folded = fold_stack(tv.stack.drop_last(), start.0 as nat, start.1);
        lift_digest(folded.1, folded.0, tv.min_depth as nat)
    }
}

/// One subtree append as a total transition: the exact conditions under
/// which it is refused, and the state it yields when it is not.
pub open spec fn spec_append_subtree(tv: TreeView, d: u64, h: Seq<u8>) -> Result<TreeView, StoreError> {
    if d < 1 || d > 48 {
        Err(StoreError::BadSubtreeDepth)
    } else if tv.leaf_count as nat % pow2((d - 1) as nat) != 0 {
        Err(StoreError::MisalignedSubtree)
    } else if tv.leaf_count as nat + pow2((d - 1) as nat) > u64::MAX as nat {
        Err(StoreError::TooManyLeaves)
    } else {
        Ok(TreeView {
            stack: merge_push(tv.stack, d, h),
            leaf_count: (tv.leaf_count + pow2((d - 1) as nat)) as u64,
            min_depth: tv.min_depth,
            versions: tv.versions,
        })
    }
}

/// A whole subtree list appended left to right; the first refusal wins and
/// leaves the state unchanged.
pub open spec fn spec_append_subtree_list(tv: TreeView, list: Seq<(u64, Seq<u8>)>) -> Result<TreeView, StoreError>
    decreases list.len(),
{
    if list.len() == 0 {
        Ok(tv)
    } else {
        match spec_append_subtree(tv, list.first().0, list.first().1) {
            Ok(t2) => spec_append_subtree_list(t2, list.drop_first()),
            Err(e) => Err(e),
        }
    }
}

/// An append-only Merkle tree fed with digests: leaf digests one by one, or
/// whole precomputed subtree digests, with per-transaction commit points.
pub struct AppendMerkleTree {
    stack: Vec<(u64, DataRoot)>,
    leaf_count: u64,
    min_depth: u64,
    versions: Vec<(u64, u64, DataRoot)>,
}

impl View for AppendMerkleTree {
    type V = TreeView;

    closed spec fn view(&self) -> TreeView {
        TreeView {
            stack: stack_view(self.stack@),
            leaf_count: self.leaf_count,
            min_depth: self.min_depth,
            versions: versions_view(self.versions@),
        }
    }
}

/// `2^k` for `k <= 63`.
pub(crate) fn pow2_exec(k: u64) -> (r: u64)
    requires
        k <= 63,
    ensures
        r as nat == pow2(k as nat),
        r >= 1,
{
    proof {
        lemma2_to64();
    }
    let mut r: u64 = 1;
    let mut i: u64 = 0;
    while i < k
        invariant
            i <= k <= 63,
            r as nat == pow2(i as nat),
        decreases k - i,
    {
        proof {
            lemma_pow2_unfold((i + 1) as nat);
            if i + 1 < 63 {
                lemma_pow2_strictly_increases((i + 1) as nat, 63);
            }
            lemma2_to64_rest();
        }
        r = r * 2;
        i = i + 1;
    }
    proof {
        vstd::arithmetic::power2::lemma_pow2_pos(k as nat);
    }
    r
}

/// The all-zero subtree digest of depth `d`.
pub fn zero_at_exec(d: u64) -> (r: DataRoot)
    ensures
        r@ == zero_at(d as nat),
{
    let mut r = zero_root();
    let mut i: u64 = 1;
    while i < d
        invariant
            1 <= i,
            i <= d || i == 1,
            r@ == zero_at(i as nat),
        decreases d - i,
    {
        r = node_hash(&r, &r);
        i = i + 1;
    }
    proof {
        if d <= 1 {
            assert(zero_at(d as nat) == spec_zero_root());
        }
    }
    r
}

impl AppendMerkleTree {
    /// A fresh tree holding `initial` as its first leaf digests, whose root
    /// will be folded up to at least `depth`.
    pub fn new_with_depth(initial: Vec<DataRoot>, depth: u64) -> (t: Self)
        requires
            1 <= depth <= 48,
        ensures
            t@ == (TreeView {
                stack: stack_after_leaves(Seq::empty(), roots_view(initial@)),
                leaf_count: initial@.len() as u64,
                min_depth: depth,
                versions: Seq::empty(),
            }),
    {
        let mut t = AppendMerkleTree {
            stack: Vec::new(),
            leaf_count: 0,
            min_depth: depth,
            versions: Vec::new(),
        };
        proof {
            assert(stack_view(t.stack@) =~= Seq::<(u64, Seq<u8>)>::empty());
            assert(versions_view(t.versions@) =~= Seq::<(u64, u64, Seq<u8>)>::empty());
        }
        let n = initial.len();
        let mut i: usize = 0;
        while i < n
            invariant
                i <= n == initial@.len(),
                stack_view(t.stack@) == stack_after_leaves(Seq::empty(), roots_view(initial@).take(i as int)),
                t.leaf_count == i as u64,
                t.min_depth == depth,
                versions_view(t.versions@) == Seq::<(u64, u64, Seq<u8>)>::empty(),
            decreases n - i,
        {
            proof {
                lemma_stack_after_leaves_step(Seq::empty(), roots_view(initial@), i as int);
            }
            t.push_node(1, initial[i]);
            t.leaf_count = t.leaf_count + 1;
            i = i + 1;
        }
        proof {
            assert(roots_view(initial@).take(n as int) =~= roots_view(initial@));
        }
        t
    }

    /// Number of leaves the frontier covers.
    pub fn leaves(&self) -> (r: u64)
        ensures
            r == self@.leaf_count,
    {
        self.leaf_count
    }

    /// The committed versions, as `(tag, leaf count, root)` triples.
    pub fn versions(&self) -> (r: &Vec<(u64, u64, DataRoot)>)
        ensures
            versions_view(r@) == self@.versions,
    {
        &self.versions
    }

    /// Merge one `(depth, digest)` node into the frontier.
    fn push_node(&mut self, d: u64, h: DataRoot)
        ensures
            final(self)@.stack == merge_push(old(self)@.stack, d, h@),
            final(self)@.leaf_count == old(self)@.leaf_count,
            final(self)@.min_depth == old(self)@.min_depth,
            final(self)@.versions == old(self)@.versions,
    {
        let ghost target = merge_push(stack_view(self.stack@), d, h@);
        let mut d = d;
        let mut h = h;
        while self.stack.len() > 0 && self.stack[self.stack.len() - 1].0 == d && d < 64
            invariant
                merge_push(stack_view(self.stack@), d, h@) == target,
                self.leaf_count == old(self).leaf_count,
                self.min_depth == old(self).min_depth,
                self.versions@ == old(self).versions@,
            decreases self.stack@.len(),
        {
            let n = self.stack.len();
            let (pd, ph) = self.stack[n - 1];
            let ghost prev = self.stack@;
            self.stack.pop();
            proof {
                assert(stack_view(prev).last() == (pd, ph@));
                assert(stack_view(prev).drop_last() =~= stack_view(self.stack@));
            }
            h = node_hash(&ph, &h);
            d = d + 1;
        }
        let ghost before_push = self.stack@;
        proof {
            if stack_view(before_push).len() > 0 {
                assert(stack_view(before_push).last() == (before_push.last().0, before_push.last().1@));
            }
        }
        self.stack.push((d, h));
        proof {
            assert(stack_view(self.stack@) =~= stack_view(before_push).push((d, h@)));
        }
    }

    /// Append one precomputed subtree digest of the given depth.
    ///
    /// Refused exactly when the depth is out of range, the frontier is not
    /// aligned to the subtree's span, or the leaf counter would overflow;
    /// a refusal leaves the tree unchanged.
    pub fn append_subtree(&mut self, d: u64, h: DataRoot) -> (r: Result<(), StoreError>)
        ensures
            final(self)@ == (match spec_append_subtree(old(self)@, d, h@) {
                Ok(tv) => tv,
                Err(_) => old(self)@,
            }),
            r == (match spec_append_subtree(old(self)@, d, h@) {
                Ok(tv) => Ok::<(), StoreError>(()),
                Err(e) => Err::<(), StoreError>(e),
            }),
    {
        if d < 1 || d > 48 {
            return Err(StoreError::BadSubtreeDepth);
        }
        let span = pow2_exec(d - 1);
        if self.leaf_count % span != 0 {
            return Err(StoreError::MisalignedSubtree);
        }
        if self.leaf_count > u64::MAX - span {
            return Err(StoreError::TooManyLeaves);
        }
        self.push_node(d, h);
        self.leaf_count = self.leaf_count + span;
        Ok(())
    }

    /// Append a whole subtree list, left to right. Validation happens before
    /// any mutation: a refused list leaves the tree unchanged.
    pub fn append_subtree_list(&mut self, list: &Vec<(u64, DataRoot)>) -> (r: Result<(), StoreError>)
        ensures
            final(self)@ == (match spec_append_subtree_list(old(self)@, stack_view(list@)) {
                Ok(tv) => tv,
                Err(_) => old(self)@,
            }),
            r == (match spec_append_subtree_list(old(self)@, stack_view(list@)) {
                Ok(tv) => Ok::<(), StoreError>(()),
                Err(e) => Err::<(), StoreError>(e),
            }),
    {
        let n = list.len();
        // Validation pass: depths, alignment and overflow depend only on the
        // leaf count, never on the frontier digests.
        let mut count: u64 = self.leaf_count;
        let ghost mut cur: TreeView = self@;
        proof {
            assert(stack_view(list@).skip(0) =~= stack_view(list@));
        }
        let mut i: usize = 0;
        while i < n
            invariant
                i <= n == list@.len(),
                cur.leaf_count == count,
                spec_append_subtree_list(self@, stack_view(list@)) == spec_append_subtree_list(cur, stack_view(list@).skip(i as int)),
            decreases n - i,
        {
            let (d, h) = list[i];
            proof {
                assert(stack_view(list@).skip(i as int).first() == (d, h@));
                assert(stack_view(list@).skip(i as int).drop_first() =~= stack_view(list@).skip(i as int + 1));
            }
            if d < 1 || d > 48 {
                return Err(StoreError::BadSubtreeDepth);
            }
            let span = pow2_exec(d - 1);
            if count % span != 0 {
                return Err(StoreError::MisalignedSubtree);
            }
            if count > u64::MAX - span {
                return Err(StoreError::TooManyLeaves);
            }
            count = count + span;
            proof {
                cur = spec_append_subtree(cur, d, h@)->Ok_0;
            }
            i = i + 1;
        }
        proof {
            assert(stack_view(list@).skip(n as int) =~= Seq::<(u64, Seq<u8>)>::empty());
        }
        // Apply pass: every step is now known to be accepted.
        let ghost final_tv = spec_append_subtree_list(self@, stack_view(list@))->Ok_0;
        proof {
            assert(stack_view(list@).skip(0) =~= stack_view(list@));
        }
        let mut j: usize = 0;
        while j < n
            invariant
                j <= n == list@.len(),
                spec_append_subtree_list(self@, stack_view(list@).skip(j as int)) == Ok::<TreeView, StoreError>(final_tv),
            decreases n - j,
        {
            let (d, h) = list[j];
            proof {
                assert(stack_view(list@).skip(j as int).first() == (d, h@));
                assert(stack_view(list@).skip(j as int).drop_first() =~= stack_view(list@).skip(j as int + 1));
            }
            let res = self.append_subtree(d, h);
            proof {
                assert(res is Ok);
            }
            j = j + 1;
        }
        proof {
            assert(stack_view(list@).skip(n as int) =~= Seq::<(u64, Seq<u8>)>::empty());
        }
        Ok(())
    }

    /// Append a list of leaf digests. Refused, before any mutation, exactly
    /// when the leaf counter would overflow.
    pub fn append_list(&mut self, leaves: &Vec<DataRoot>) -> (r: Result<(), StoreError>)
        ensures
            r is Ok <==> old(self)@.leaf_count + leaves@.len() <= u64::MAX,
            r is Err ==> final(self)@ == old(self)@ && r == Err::<(), StoreError>(StoreError::TooManyLeaves),
            r is Ok ==> final(self)@ == (TreeView {
                stack: stack_after_leaves(old(self)@.stack, roots_view(leaves@)),
                leaf_count: (old(self)@.leaf_count + leaves@.len()) as u64,
                min_depth: old(self)@.min_depth,
                versions: old(self)@.versions,
            }),
    {
        let n = leaves.len();
        if n as u64 > u64::MAX - self.leaf_count {
            return Err(StoreError::TooManyLeaves);
        }
        let mut i: usize = 0;
        while i < n
            invariant
                i <= n == leaves@.len(),
                old(self)@.leaf_count + n <= u64::MAX,
                self.leaf_count == old(self)@.leaf_count + i,
                stack_view(self.stack@) == stack_after_leaves(old(self)@.stack, roots_view(leaves@).take(i as int)),
                self@.min_depth == old(self)@.min_depth,
                self@.versions == old(self)@.versions,
            decreases n - i,
        {
            proof {
                lemma_stack_after_leaves_step(old(self)@.stack, roots_view(leaves@), i as int);
            }
            self.push_node(1, leaves[i]);
            self.leaf_count = self.leaf_count + 1;
            i = i + 1;
        }
        proof {
            assert(roots_view(leaves@).take(n as int) =~= roots_view(leaves@));
        }
        Ok(())
    }

    /// The current root digest.
    pub fn root(&self) -> (r: DataRoot)
        ensures
            r@ == spec_root(self@),
    {
        let n = self.stack.len();
        if n == 0 {
            return zero_at_exec(self.min_depth);
        }
        let (d0, h0) = self.stack[n - 1];
        let mut acc: DataRoot = h0;
        let mut acc_d: u64 = d0;
        let ghost folded = fold_stack(stack_view(self.stack@).drop_last(), d0 as nat, h0@);
        proof {
            assert(stack_view(self.stack@).drop_last() =~= stack_view(self.stack@).take(n as int - 1));
        }
        let mut idx: usize = n - 1;
        while idx > 0
            invariant
                idx < n == self.stack@.len(),
                fold_stack(stack_view(self.stack@).take(idx as int), acc_d as nat, acc@) == folded,
            decreases idx,
        {
            idx = idx - 1;
            let (d, h) = self.stack[idx];
            proof {
                assert(stack_view(self.stack@).take(idx as int + 1).last() == (d, h@));
                assert(stack_view(self.stack@).take(idx as int + 1).drop_last() =~= stack_view(self.stack@).take(idx as int));
            }
            // lift the accumulator up to this node's depth
            let ghost acc0 = acc@;
            let ghost accd0 = acc_d;
            while acc_d < d
                invariant
                    accd0 <= acc_d,
                    acc_d <= d || acc_d == accd0,
                    lift_digest(acc@, acc_d as nat, d as nat) == lift_digest(acc0, accd0 as nat, d as nat),
                decreases d - acc_d,
            {
                let z = zero_at_exec(acc_d);
                acc = node_hash(&acc, &z);
                acc_d = acc_d + 1;
            }
            proof {
                assert(acc@ == lift_digest(acc0, accd0 as nat, d as nat));
                if accd0 >= d {
                    assert(acc_d == accd0);
                } else {
                    assert(acc_d == d);
                }
            }
            acc = node_hash(&h, &acc);
            acc_d = if acc_d < 64 {
                acc_d + 1
            } else {
                64
            };
        }
        proof {
            assert(stack_view(self.stack@).take(0) =~= Seq::<(u64, Seq<u8>)>::empty());
            assert((acc_d as nat, acc@) == folded);
        }
        // lift to the tree's minimum depth
        let target = self.min_depth;
        let ghost acc1 = acc@;
        let ghost accd1 = acc_d;
        while acc_d < target
            invariant
                lift_digest(acc@, acc_d as nat, target as nat) == lift_digest(acc1, accd1 as nat, target as nat),
            decreases target - acc_d,
        {
            let z = zero_at_exec(acc_d);
            acc = node_hash(&acc, &z);
            acc_d = acc_d + 1;
        }
        acc
    }

    /// Record the current state as a committed version with the given tag.
    pub fn commit(&mut self, tx_seq: Option<u64>)
        ensures
            final(self)@.stack == old(self)@.stack,
            final(self)@.leaf_count == old(self)@.leaf_count,
            final(self)@.min_depth == old(self)@.min_depth,
            final(self)@.versions == (match tx_seq {
                Some(t) => old(self)@.versions.push((t, old(self)@.leaf_count, spec_root(old(self)@))),
                None => old(self)@.versions,
            }),
    {
        if let Some(t) = tx_seq {
            let r = self.root();
            let c = self.leaf_count;
            self.versions.push((t, c, r));
            proof {
                assert(versions_view(self.versions@) =~= versions_view(self.versions@.drop_last()).push((t, c, r@)));
            }
        }
    }
}

/// The leaf digests of a byte string that is a whole number of entries.
pub open spec fn spec_entry_leaves(data: Seq<u8>) -> Seq<Seq<u8>> {
    Seq::new(
        data.len() / (crate::ENTRY_SIZE as nat),
        |i: int| spec_leaf_hash(
            data.subrange(i * (crate::ENTRY_SIZE as int), (i + 1) * (crate::ENTRY_SIZE as int)),
        ),
    )
}

/// Hash a whole number of entries into their leaf digests, in entry order.
/// Refused exactly when the bytes do not form whole entries.
pub fn data_to_merkle_leaves(data: &Vec<u8>) -> (r: Result<Vec<DataRoot>, StoreError>)
    ensures
        r is Ok <==> data@.len() % (crate::ENTRY_SIZE as nat) == 0,
        r matches Ok(v) ==> roots_view(v@) == spec_entry_leaves(data@),
        r is Err ==> r == Err::<Vec<DataRoot>, StoreError>(StoreError::PartialEntry),
{
    let len = data.len();
    if len % crate::ENTRY_SIZE != 0 {
        return Err(StoreError::PartialEntry);
    }
    let n = len / crate::ENTRY_SIZE;
    proof {
        vstd::arithmetic::div_mod::lemma_fundamental_div_mod(len as int, crate::ENTRY_SIZE as int);
    }
    let mut out: Vec<DataRoot> = Vec::new();
    let mut i: usize = 0;
    while i < n
        invariant
            i <= n,
            len == data@.len(),
            len == n * (crate::ENTRY_SIZE as int),
            roots_view(out@) == spec_entry_leaves(data@).take(i as int),
        decreases n - i,
    {
        let start = i * crate::ENTRY_SIZE;
        let entry = vstd::slice::slice_subrange(data.as_slice(), start, start + crate::ENTRY_SIZE);
        let h = leaf_hash(entry);
        let ghost prev = out@;
        out.push(h);
        proof {
            assert(out@.drop_last() =~= prev);
            assert(entry@ == data@.subrange(start as int, start as int + crate::ENTRY_SIZE as int));
            assert(start as int == i * (crate::ENTRY_SIZE as int));
            assert(h@ == spec_entry_leaves(data@)[i as int]);
            assert(out@.last() == h);
            assert(roots_view(out@).last() == h@);
            assert(roots_view(out@).drop_last() =~= roots_view(out@.drop_last()));
            assert(roots_view(out@) =~= spec_entry_leaves(data@).take(i as int + 1));
        }
        i += 1;
    }
    proof {
        assert(spec_entry_leaves(data@).take(n as int) =~= spec_entry_leaves(data@));
    }
    Ok(out)
}

/// The tree state holding exactly the entries of `data`, padded by nothing.
pub open spec fn spec_sub_tree(data: Seq<u8>) -> TreeView {
    TreeView {
        stack: stack_after_leaves(Seq::empty(), spec_entry_leaves(data)),
        leaf_count: (data.len() / (crate::ENTRY_SIZE as nat)) as u64,
        min_depth: 1,
        versions: Seq::empty(),
    }
}

/// The Merkle root of a whole number of entries.
pub open spec fn spec_sub_root(data: Seq<u8>) -> Seq<u8> {
    spec_root(spec_sub_tree(data))
}

/// Build the Merkle tree over a whole number of entries from their bytes.
/// Refused exactly when the bytes do not form whole entries.
pub fn sub_merkle_tree(data: &Vec<u8>) -> (r: Result<AppendMerkleTree, StoreError>)
    ensures
        r is Ok <==> data@.len() % (crate::ENTRY_SIZE as nat) == 0,
        r matches Ok(t) ==> t@ == spec_sub_tree(data@),
        r is Err ==> r == Err::<AppendMerkleTree, StoreError>(StoreError::PartialEntry),
{
    let leaves = match data_to_merkle_leaves(data) {
        Ok(v) => v,
        Err(e) => {
            return Err(e);
        },
    };
    let t = AppendMerkleTree::new_with_depth(leaves, 1);
    proof {
        vstd::arithmetic::div_mod::lemma_fundamental_div_mod(data@.len() as int, crate::ENTRY_SIZE as int);
    }
    Ok(t)
}

proof fn lemma_stack_after_leaves_step(stack: Seq<(u64, Seq<u8>)>, leaves: Seq<Seq<u8>>, i: int)
    requires
        0 <= i < leaves.len(),
    ensures
        merge_push(stack_after_leaves(stack, leaves.take(i)), 1, leaves[i])
            == stack_after_leaves(stack, leaves.take(i + 1)),
{
    lemma_stack_after_leaves_snoc(stack, leaves.take(i + 1));
    assert(leaves.take(i + 1).drop_last() =~= leaves.take(i));
    assert(leaves.take(i + 1).last() == leaves[i]);
}

/// Appending one more leaf after a prefix equals recursing on the longer
/// prefix.
proof fn lemma_stack_after_leaves_snoc(stack: Seq<(u64, Seq<u8>)>, leaves: Seq<Seq<u8>>)
    requires
        leaves.len() > 0,
    ensures
        stack_after_leaves(stack, leaves) == merge_push(stack_after_leaves(stack, leaves.drop_last()), 1, leaves.last()),
    decreases leaves.len(),
{
    if leaves.len() == 1 {
        assert(leaves.drop_last() =~= Seq::<Seq<u8>>::empty());
        assert(leaves.drop_first() =~= Seq::<Seq<u8>>::empty());
        assert(leaves.first() == leaves.last());
        assert(stack_after_leaves(stack, leaves.drop_last()) == stack);
        assert(stack_after_leaves(merge_push(stack, 1, leaves.first()), leaves.drop_first())
            == merge_push(stack, 1, leaves.first()));
        assert(stack_after_leaves(stack, leaves) == merge_push(stack, 1, leaves.first()));
    } else {
        let s2 = merge_push(stack, 1, leaves.first());
        let t = leaves.drop_first();
        lemma_stack_after_leaves_snoc(s2, t);
        assert(t.drop_last() =~= leaves.drop_last().drop_first());
        assert(t.last() == leaves.last());
        assert(leaves.drop_last().first() == leaves.first());
        assert(leaves.drop_last().len() > 0);
        assert(stack_after_leaves(stack, leaves) == stack_after_leaves(s2, t));
        assert(stack_after_leaves(stack, leaves.drop_last()) == stack_after_leaves(s2, leaves.drop_last().drop_first()));
        assert(stack_after_leaves(s2, t) == merge_push(stack_after_leaves(s2, t.drop_last()), 1, t.last()));
    }
}

} // verus!
