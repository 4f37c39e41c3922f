//! In-memory key-value tables with mathematical `Map` views.
//!
//! Each storage column the store uses is modelled by one of these tables: an
//! association list with unique keys, read through `as_map`. The reverse
//! index keys by content root; every other column keys by a 64-bit integer.

use vstd::prelude::*;

use crate::digest::{DataRoot, root_eq};
use crate::tx::copy_u64s;

verus! {

/// The map an association list denotes; a later entry for the same key wins,
/// and with unique keys the order does not matter.
pub open spec fn as_map<K, V>(s: Seq<(K, V)>) -> Map<K, V>
    decreases s.len(),
{
    if s.len() == 0 {
        Map::empty()
    } else {
        as_map(s.drop_last()).insert(s.last().0, s.last().1)
    }
}

/// No key occurs twice.
pub open spec fn unique_keys<K, V>(s: Seq<(K, V)>) -> bool {
    forall|i: int, j: int| 0 <= i < j < s.len() ==> (#[trigger] s[i]).0 != (#[trigger] s[j]).0
}

/// Some entry carries this key.
pub open spec fn has_key<K, V>(s: Seq<(K, V)>, k: K) -> bool {
    exists|i: int| 0 <= i < s.len() && (#[trigger] s[i]).0 == k
}

pub proof fn lemma_as_map_contains<K, V>(s: Seq<(K, V)>, k: K)
    ensures
        as_map(s).contains_key(k) <==> has_key(s, k),
    decreases s.len(),
{
    if s.len() > 0 {
        lemma_as_map_contains(s.drop_last(), k);
        if s.last().0 == k {
            assert((s[s.len() - 1]).0 == k);
        } else if has_key(s.drop_last(), k) {
            let i = choose|i: int| 0 <= i < s.drop_last().len() && (#[trigger] s.drop_last()[i]).0 == k;
            assert((s[i]).0 == k);
        } else if has_key(s, k) {
            let i = choose|i: int| 0 <= i < s.len() && (#[trigger] s[i]).0 == k;
            if i < s.len() - 1 {
                assert((s.drop_last()[i]).0 == k);
            }
        }
    }
}

pub proof fn lemma_as_map_value<K, V>(s: Seq<(K, V)>, i: int)
    requires
        unique_keys(s),
        0 <= i < s.len(),
    ensures
        as_map(s).contains_key(s[i].0),
        as_map(s)[s[i].0] == s[i].1,
    decreases s.len(),
{
    if i == s.len() - 1 {
    } else {
        assert(s.drop_last()[i] == s[i]);
        assert(unique_keys(s.drop_last())) by {
            assert(forall|a: int, b: int| 0 <= a < b < s.drop_last().len() ==> s.drop_last()[a] == s[a] && s.drop_last()[b] == s[b]);
        }
        lemma_as_map_value(s.drop_last(), i);
        assert(s[i].0 != s.last().0);
    }
}

pub proof fn lemma_as_map_update<K, V>(s: Seq<(K, V)>, i: int, v: V)
    requires
        unique_keys(s),
        0 <= i < s.len(),
    ensures
        as_map(s.update(i, (s[i].0, v))) == as_map(s).insert(s[i].0, v),
        unique_keys(s.update(i, (s[i].0, v))),
    decreases s.len(),
{
    let s2 = s.update(i, (s[i].0, v));
    assert(unique_keys(s2)) by {
        assert(forall|a: int| 0 <= a < s2.len() ==> (#[trigger] s2[a]).0 == s[a].0);
    }
    if i == s.len() - 1 {
        assert(s2.drop_last() =~= s.drop_last());
        assert(as_map(s2) == as_map(s.drop_last()).insert(s[i].0, v));
        assert(as_map(s.drop_last()).insert(s[i].0, v) =~= as_map(s).insert(s[i].0, v));
    } else {
        assert(s2.drop_last() =~= s.drop_last().update(i, (s[i].0, v)));
        assert(s.drop_last()[i] == s[i]);
        assert(unique_keys(s.drop_last())) by {
            assert(forall|a: int, b: int| 0 <= a < b < s.drop_last().len() ==> s.drop_last()[a] == s[a] && s.drop_last()[b] == s[b]);
        }
        lemma_as_map_update(s.drop_last(), i, v);
        assert(s2.last() == s.last());
        assert(s[i].0 != s.last().0);
        assert(as_map(s2) == as_map(s.drop_last()).insert(s[i].0, v).insert(s.last().0, s.last().1));
        assert(as_map(s.drop_last()).insert(s[i].0, v).insert(s.last().0, s.last().1)
            =~= as_map(s.drop_last()).insert(s.last().0, s.last().1).insert(s[i].0, v));
    }
}

pub proof fn lemma_as_map_remove<K, V>(s: Seq<(K, V)>, i: int)
    requires
        unique_keys(s),
        0 <= i < s.len(),
    ensures
        as_map(s.remove(i)) == as_map(s).remove(s[i].0),
        unique_keys(s.remove(i)),
    decreases s.len(),
{
    let s2 = s.remove(i);
    assert(unique_keys(s2)) by {
        assert(forall|a: int| 0 <= a < s2.len() ==> s2[a] == (if a < i { s[a] } else { s[a + 1] }));
    }
    if i == s.len() - 1 {
        assert(s2 =~= s.drop_last());
        lemma_as_map_contains(s.drop_last(), s[i].0);
        assert(!has_key(s.drop_last(), s[i].0)) by {
            assert(forall|a: int| 0 <= a < s.drop_last().len() ==> (#[trigger] s.drop_last()[a]) == s[a]);
        }
        assert(as_map(s.drop_last()).insert(s.last().0, s.last().1).remove(s[i].0) =~= as_map(s.drop_last()));
    } else {
        assert(s2.drop_last() =~= s.drop_last().remove(i));
        assert(s.drop_last()[i] == s[i]);
        assert(unique_keys(s.drop_last())) by {
            assert(forall|a: int, b: int| 0 <= a < b < s.drop_last().len() ==> s.drop_last()[a] == s[a] && s.drop_last()[b] == s[b]);
        }
        lemma_as_map_remove(s.drop_last(), i);
        assert(s2.last() == s.last());
        assert(s[i].0 != s.last().0);
        assert(as_map(s2) == as_map(s.drop_last()).remove(s[i].0).insert(s.last().0, s.last().1));
        assert(as_map(s.drop_last()).remove(s[i].0).insert(s.last().0, s.last().1)
            =~= as_map(s.drop_last()).insert(s.last().0, s.last().1).remove(s[i].0));
    }
}

pub proof fn lemma_as_map_push<K, V>(s: Seq<(K, V)>, k: K, v: V)
    requires
        !has_key(s, k),
    ensures
        as_map(s.push((k, v))) == as_map(s).insert(k, v),
        unique_keys(s) ==> unique_keys(s.push((k, v))),
{
    assert(s.push((k, v)).drop_last() =~= s);
    if unique_keys(s) {
        assert(forall|a: int| 0 <= a < s.len() ==> (#[trigger] s.push((k, v))[a]) == s[a]);
        assert(s.push((k, v))[s.len() as int].0 == k);
        assert(unique_keys(s.push((k, v)))) by {
            assert(forall|a: int, b: int| 0 <= a < b < s.push((k, v)).len() && b == s.len() ==> (#[trigger] s.push((k, v))[a]).0 != (#[trigger] s.push((k, v))[b]).0);
        }
    }
}

/// A table keyed by a 64-bit integer.
pub struct UMap<V> {
    entries: Vec<(u64, V)>,
}

impl<V> UMap<V> {
    /// The map this table holds.
    pub closed spec fn view(&self) -> Map<u64, V> {
        as_map(self.entries@)
    }

    /// The table's entries in storage order.
    pub closed spec fn entries_seq(&self) -> Seq<(u64, V)> {
        self.entries@
    }

    pub closed spec fn wf(&self) -> bool {
        unique_keys(self.entries@)
    }

    pub fn new() -> (r: Self)
        ensures
            r.wf(),
            r@ == Map::<u64, V>::empty(),
            r.entries_seq() == Seq::<(u64, V)>::empty(),
    {
        UMap { entries: Vec::new() }
    }

    pub fn get(&self, k: u64) -> (r: Option<&V>)
        requires
            self.wf(),
        ensures
            match r {
                Some(v) => self@.contains_key(k) && *v == self@[k],
                None => !self@.contains_key(k),
            },
    {
        let n = self.entries.len();
        let mut i: usize = 0;
        while i < n
            invariant
                i <= n == self.entries@.len(),
                self.wf(),
                forall|j: int| 0 <= j < i ==> (#[trigger] self.entries@[j]).0 != k,
            decreases n - i,
        {
            let e = &self.entries[i];
            if e.0 == k {
                proof {
                    lemma_as_map_value(self.entries@, i as int);
                }
                return Some(&e.1);
            }
            i += 1;
        }
        proof {
            lemma_as_map_contains(self.entries@, k);
        }
        None
    }

    pub fn insert(&mut self, k: u64, v: V)
        requires
            old(self).wf(),
        ensures
            final(self).wf(),
            final(self)@ == old(self)@.insert(k, v),
    {
        let n = self.entries.len();
        let mut i: usize = 0;
        while i < n
            invariant
                i <= n == self.entries@.len(),
                self.wf(),
                self.entries@ == old(self).entries_seq(),
                forall|j: int| 0 <= j < i ==> (#[trigger] self.entries@[j]).0 != k,
            decreases n - i,
        {
            if self.entries[i].0 == k {
                proof {
                    lemma_as_map_update(self.entries@, i as int, v);
                }
                self.entries.set(i, (k, v));
                return ;
            }
            i += 1;
        }
        proof {
            lemma_as_map_push(self.entries@, k, v);
        }
        self.entries.push((k, v));
    }

    pub fn remove(&mut self, k: u64) -> (r: Option<V>)
        requires
            old(self).wf(),
        ensures
            final(self).wf(),
            final(self)@ == old(self)@.remove(k),
            match r {
                Some(v) => old(self)@.contains_key(k) && v == old(self)@[k],
                None => !old(self)@.contains_key(k) && final(self)@ == old(self)@,
            },
    {
        let n = self.entries.len();
        let mut i: usize = 0;
        while i < n
            invariant
                i <= n == self.entries@.len(),
                self.wf(),
                self.entries@ == old(self).entries_seq(),
                forall|j: int| 0 <= j < i ==> (#[trigger] self.entries@[j]).0 != k,
            decreases n - i,
        {
            if self.entries[i].0 == k {
                proof {
                    lemma_as_map_value(self.entries@, i as int);
                    lemma_as_map_remove(self.entries@, i as int);
                }
                let (_, v) = self.entries.remove(i);
                return Some(v);
            }
            i += 1;
        }
        proof {
            lemma_as_map_contains(self.entries@, k);
            assert(self@.remove(k) =~= self@);
        }
        None
    }

    /// Borrow the entries in storage order; their keys are unique and the
    /// map they denote is the table's view.
    pub fn entries(&self) -> (r: &Vec<(u64, V)>)
        ensures
            r@ == self.entries_seq(),
            as_map(r@) == self@,
            self.wf() ==> unique_keys(r@),
    {
        &self.entries
    }
}

/// The map a reverse-index association list denotes: content root bytes to
/// the stored sequence list.
pub open spec fn ri_as_map(s: Seq<(DataRoot, Vec<u64>)>) -> Map<Seq<u8>, Seq<u64>>
    decreases s.len(),
{
    if s.len() == 0 {
        Map::empty()
    } else {
        ri_as_map(s.drop_last()).insert(s.last().0@, s.last().1@)
    }
}

/// Some entry carries this root.
pub open spec fn ri_has_key(s: Seq<(DataRoot, Vec<u64>)>, k: Seq<u8>) -> bool {
    exists|i: int| 0 <= i < s.len() && (#[trigger] s[i]).0@ == k
}

/// No root occurs twice.
pub open spec fn ri_unique(s: Seq<(DataRoot, Vec<u64>)>) -> bool {
    forall|i: int, j: int| 0 <= i < j < s.len() ==> (#[trigger] s[i]).0@ != (#[trigger] s[j]).0@
}

proof fn lemma_ri_contains(s: Seq<(DataRoot, Vec<u64>)>, k: Seq<u8>)
    ensures
        ri_as_map(s).contains_key(k) <==> ri_has_key(s, k),
    decreases s.len(),
{
    if s.len() > 0 {
        lemma_ri_contains(s.drop_last(), k);
        if s.last().0@ == k {
            assert((s[s.len() - 1]).0@ == k);
        } else if ri_has_key(s.drop_last(), k) {
            let i = choose|i: int| 0 <= i < s.drop_last().len() && (#[trigger] s.drop_last()[i]).0@ == k;
            assert((s[i]).0@ == k);
        } else if ri_has_key(s, k) {
            let i = choose|i: int| 0 <= i < s.len() && (#[trigger] s[i]).0@ == k;
            if i < s.len() - 1 {
                assert((s.drop_last()[i]).0@ == k);
            }
        }
    }
}

proof fn lemma_ri_value(s: Seq<(DataRoot, Vec<u64>)>, i: int)
    requires
        ri_unique(s),
        0 <= i < s.len(),
    ensures
        ri_as_map(s).contains_key(s[i].0@),
        ri_as_map(s)[s[i].0@] == s[i].1@,
    decreases s.len(),
{
    if i == s.len() - 1 {
    } else {
        assert(s.drop_last()[i] == s[i]);
        assert(ri_unique(s.drop_last())) by {
            assert(forall|a: int, b: int| 0 <= a < b < s.drop_last().len() ==> s.drop_last()[a] == s[a] && s.drop_last()[b] == s[b]);
        }
        lemma_ri_value(s.drop_last(), i);
        assert(s[i].0@ != s.last().0@);
    }
}

proof fn lemma_ri_update(s: Seq<(DataRoot, Vec<u64>)>, i: int, p: (DataRoot, Vec<u64>))
    requires
        ri_unique(s),
        0 <= i < s.len(),
        p.0@ == s[i].0@,
    ensures
        ri_as_map(s.update(i, p)) == ri_as_map(s).insert(s[i].0@, p.1@),
        ri_unique(s.update(i, p)),
    decreases s.len(),
{
    let s2 = s.update(i, p);
    assert(ri_unique(s2)) by {
        assert(forall|a: int| 0 <= a < s2.len() ==> (#[trigger] s2[a]).0@ == s[a].0@);
    }
    if i == s.len() - 1 {
        assert(s2.drop_last() =~= s.drop_last());
        assert(ri_as_map(s2) == ri_as_map(s.drop_last()).insert(s[i].0@, p.1@));
        assert(ri_as_map(s.drop_last()).insert(s[i].0@, p.1@) =~= ri_as_map(s).insert(s[i].0@, p.1@));
    } else {
        assert(s2.drop_last() =~= s.drop_last().update(i, p));
        assert(s.drop_last()[i] == s[i]);
        assert(ri_unique(s.drop_last())) by {
            assert(forall|a: int, b: int| 0 <= a < b < s.drop_last().len() ==> s.drop_last()[a] == s[a] && s.drop_last()[b] == s[b]);
        }
        lemma_ri_update(s.drop_last(), i, p);
        assert(s2.last() == s.last());
        assert(s[i].0@ != s.last().0@);
        assert(ri_as_map(s2) == ri_as_map(s.drop_last()).insert(s[i].0@, p.1@).insert(s.last().0@, s.last().1@));
        assert(ri_as_map(s.drop_last()).insert(s[i].0@, p.1@).insert(s.last().0@, s.last().1@)
            =~= ri_as_map(s.drop_last()).insert(s.last().0@, s.last().1@).insert(s[i].0@, p.1@));
    }
}

proof fn lemma_ri_remove(s: Seq<(DataRoot, Vec<u64>)>, i: int)
    requires
        ri_unique(s),
        0 <= i < s.len(),
    ensures
        ri_as_map(s.remove(i)) == ri_as_map(s).remove(s[i].0@),
        ri_unique(s.remove(i)),
    decreases s.len(),
{
    let s2 = s.remove(i);
    assert(ri_unique(s2)) by {
        assert(forall|a: int| 0 <= a < s2.len() ==> s2[a] == (if a < i { s[a] } else { s[a + 1] }));
    }
    if i == s.len() - 1 {
        assert(s2 =~= s.drop_last());
        lemma_ri_contains(s.drop_last(), s[i].0@);
        assert(!ri_has_key(s.drop_last(), s[i].0@)) by {
            assert(forall|a: int| 0 <= a < s.drop_last().len() ==> (#[trigger] s.drop_last()[a]) == s[a]);
        }
        assert(ri_as_map(s.drop_last()).insert(s.last().0@, s.last().1@).remove(s[i].0@) =~= ri_as_map(s.drop_last()));
    } else {
        assert(s2.drop_last() =~= s.drop_last().remove(i));
        assert(s.drop_last()[i] == s[i]);
        assert(ri_unique(s.drop_last())) by {
            assert(forall|a: int, b: int| 0 <= a < b < s.drop_last().len() ==> s.drop_last()[a] == s[a] && s.drop_last()[b] == s[b]);
        }
        lemma_ri_remove(s.drop_last(), i);
        assert(s2.last() == s.last());
        assert(s[i].0@ != s.last().0@);
        assert(ri_as_map(s2) == ri_as_map(s.drop_last()).remove(s[i].0@).insert(s.last().0@, s.last().1@));
        assert(ri_as_map(s.drop_last()).remove(s[i].0@).insert(s.last().0@, s.last().1@)
            =~= ri_as_map(s.drop_last()).insert(s.last().0@, s.last().1@).remove(s[i].0@));
    }
}

proof fn lemma_ri_push(s: Seq<(DataRoot, Vec<u64>)>, p: (DataRoot, Vec<u64>))
    requires
        !ri_has_key(s, p.0@),
    ensures
        ri_as_map(s.push(p)) == ri_as_map(s).insert(p.0@, p.1@),
        ri_unique(s) ==> ri_unique(s.push(p)),
{
    assert(s.push(p).drop_last() =~= s);
    if ri_unique(s) {
        assert(forall|a: int| 0 <= a < s.len() ==> (#[trigger] s.push(p)[a]) == s[a]);
        assert(s.push(p)[s.len() as int].0@ == p.0@);
        assert(ri_unique(s.push(p))) by {
            assert(forall|a: int, b: int| 0 <= a < b < s.push(p).len() && b == s.len() ==> (#[trigger] s.push(p)[a]).0@ != (#[trigger] s.push(p)[b]).0@);
        }
    }
}

/// The reverse index from content root to the ordered list of sequence
/// numbers sharing that root.
pub struct RootIndex {
    entries: Vec<(DataRoot, Vec<u64>)>,
}

impl RootIndex {
    pub closed spec fn view(&self) -> Map<Seq<u8>, Seq<u64>> {
        ri_as_map(self.entries@)
    }

    pub closed spec fn wf(&self) -> bool {
        ri_unique(self.entries@)
    }

    pub fn new() -> (r: Self)
        ensures
            r.wf(),
            r@ == Map::<Seq<u8>, Seq<u64>>::empty(),
    {
        RootIndex { entries: Vec::new() }
    }

    /// The sequence list stored for a root; an absent root has the empty
    /// list.
    pub fn get_list(&self, root: &DataRoot) -> (r: Vec<u64>)
        requires
            self.wf(),
        ensures
            r@ == (if self@.contains_key(root@) {
                self@[root@]
            } else {
                Seq::<u64>::empty()
            }),
    {
        let n = self.entries.len();
        let mut i: usize = 0;
        while i < n
            invariant
                i <= n == self.entries@.len(),
                self.wf(),
                forall|j: int| 0 <= j < i ==> (#[trigger] self.entries@[j]).0@ != root@,
            decreases n - i,
        {
            let e = &self.entries[i];
            if root_eq(&e.0, root) {
                proof {
                    lemma_ri_value(self.entries@, i as int);
                }
                return copy_u64s(&e.1);
            }
            i += 1;
        }
        proof {
            lemma_ri_contains(self.entries@, root@);
        }
        Vec::new()
    }

    /// Store a list under a root, replacing any previous list.
    pub fn set_list(&mut self, root: DataRoot, list: Vec<u64>)
        requires
            old(self).wf(),
        ensures
            final(self).wf(),
            final(self)@ == old(self)@.insert(root@, list@),
    {
        let ghost lv = list@;
        let n = self.entries.len();
        let mut i: usize = 0;
        while i < n
            invariant
                i <= n == self.entries@.len(),
                self.wf(),
                self.entries@ == old(self).entries@,
                forall|j: int| 0 <= j < i ==> (#[trigger] self.entries@[j]).0@ != root@,
            decreases n - i,
        {
            if root_eq(&self.entries[i].0, &root) {
                proof {
                    lemma_ri_update(self.entries@, i as int, (root, list));
                }
                self.entries.set(i, (root, list));
                return ;
            }
            i += 1;
        }
        proof {
            lemma_ri_contains(self.entries@, root@);
            lemma_ri_push(self.entries@, (root, list));
        }
        self.entries.push((root, list));
    }

    /// Delete a root entry entirely; deleting an absent root changes
    /// nothing.
    pub fn remove_root(&mut self, root: &DataRoot)
        requires
            old(self).wf(),
        ensures
            final(self).wf(),
            final(self)@ == old(self)@.remove(root@),
    {
        let n = self.entries.len();
        let mut i: usize = 0;
        while i < n
            invariant
                i <= n == self.entries@.len(),
                self.wf(),
                self.entries@ == old(self).entries@,
                forall|j: int| 0 <= j < i ==> (#[trigger] self.entries@[j]).0@ != root@,
            decreases n - i,
        {
            if root_eq(&self.entries[i].0, root) {
                proof {
                    lemma_ri_remove(self.entries@, i as int);
                }
                self.entries.remove(i);
                return ;
            }
            i += 1;
        }
        proof {
            lemma_ri_contains(self.entries@, root@);
            assert(self@.remove(root@) =~= self@);
        }
    }
}

} // verus!
