//! The in-memory index: a mapping from key bytes to the byte offset of
//! the key's most recent record in the log.
//!
//! The index is held as a list of entries with pairwise-distinct keys;
//! its abstract value is the finite map from key bytes to offsets.

use vstd::prelude::*;
use crate::codec::slices_eq;
use crate::codec::copy_bytes;

verus! {

/// The finite map described by a list of key/offset entries; a later
/// entry for the same key overrides an earlier one.
pub open spec fn map_of(s: Seq<(Vec<u8>, u64)>) -> Map<Seq<u8>, u64>
    decreases s.len(),
{
    if s.len() == 0 {
        Map::empty()
    } else {
        map_of(s.drop_last()).insert(s.last().0@, s.last().1)
    }
}

/// Whether the entries of a list carry pairwise-distinct keys.
pub open spec fn distinct_keys(s: Seq<(Vec<u8>, u64)>) -> bool {
    forall|i: int, j: int| 0 <= i < j < s.len() ==> s[i].0@ != s[j].0@
}

proof fn lemma_map_of_absent(s: Seq<(Vec<u8>, u64)>, key: Seq<u8>)
    requires
        forall|i: int| 0 <= i < s.len() ==> s[i].0@ != key,
    ensures
        !map_of(s).contains_key(key),
    decreases s.len(),
{
    if s.len() > 0 {
        lemma_map_of_absent(s.drop_last(), key);
    }
}

proof fn lemma_map_of_entry(s: Seq<(Vec<u8>, u64)>, i: int)
    requires
        distinct_keys(s),
        0 <= i < s.len(),
    ensures
        map_of(s).contains_key(s[i].0@),
        map_of(s)[s[i].0@] == s[i].1,
    decreases s.len(),
{
    if i < s.len() - 1 {
        lemma_map_of_entry(s.drop_last(), i);
    }
}

proof fn lemma_map_of_remove(s: Seq<(Vec<u8>, u64)>, i: int)
    requires
        distinct_keys(s),
        0 <= i < s.len(),
    ensures
        map_of(s.remove(i)) == map_of(s).remove(s[i].0@),
    decreases s.len(),
{
    let key = s[i].0@;
    if i == s.len() - 1 {
        assert(s.remove(i) =~= s.drop_last());
        lemma_map_of_absent(s.drop_last(), key);
        assert(map_of(s.drop_last()) =~= map_of(s).remove(key));
    } else {
        assert(s.remove(i).drop_last() =~= s.drop_last().remove(i));
        lemma_map_of_remove(s.drop_last(), i);
        assert(map_of(s.remove(i)) == map_of(s.drop_last().remove(i)).insert(
            s.last().0@,
            s.last().1,
        ));
        assert(map_of(s.remove(i)) =~= map_of(s).remove(key));
    }
}

/// Whether two entry lists agree element by element on key bytes and
/// offsets.
pub open spec fn entries_match(a: Seq<(Vec<u8>, u64)>, b: Seq<(Vec<u8>, u64)>) -> bool {
    &&& a.len() == b.len()
    &&& forall|i: int| 0 <= i < a.len() ==> a[i].0@ == b[i].0@ && a[i].1 == b[i].1
}

proof fn lemma_map_of_congruent(a: Seq<(Vec<u8>, u64)>, b: Seq<(Vec<u8>, u64)>)
    requires
        entries_match(a, b),
    ensures
        map_of(a) == map_of(b),
    decreases a.len(),
{
    if a.len() > 0 {
        assert(entries_match(a.drop_last(), b.drop_last()));
        lemma_map_of_congruent(a.drop_last(), b.drop_last());
    }
}

/// The key-to-offset mapping, rebuilt by replay and updated by writes.
pub struct Index {
    entries: Vec<(Vec<u8>, u64)>,
}

impl View for Index {
    type V = Map<Seq<u8>, u64>;

    closed spec fn view(&self) -> Map<Seq<u8>, u64> {
        map_of(self.entries@)
    }
}

impl Index {
    /// The index's internal invariant: no key occurs twice.
    pub closed spec fn wf(self) -> bool {
        distinct_keys(self.entries@)
    }

    /// An empty index.
    pub fn new() -> (r: Index)
        ensures
            r@ == Map::<Seq<u8>, u64>::empty(),
            r.wf(),
    {
        Index { entries: Vec::new() }
    }

    /// Looks the key up, returning the offset of its most recent
    /// record, or `None` for a key the index does not hold.
    pub fn lookup(&self, key: &[u8]) -> (r: Option<u64>)
        requires
            self.wf(),
        ensures
            r is Some <==> self@.contains_key(key@),
            r is Some ==> r->Some_0 == self@[key@],
    {
        let n = self.entries.len();
        let mut i: usize = 0;
        while i < n
            invariant
                i <= n,
                n == self.entries@.len(),
                self.wf(),
                forall|j: int| 0 <= j < i ==> self.entries@[j].0@ != key@,
            decreases n - i,
        {
            if slices_eq(self.entries[i].0.as_slice(), key) {
                proof {
                    lemma_map_of_entry(self.entries@, i as int);
                }
                return Some(self.entries[i].1);
            }
            i = i + 1;
        }
        proof {
            lemma_map_of_absent(self.entries@, key@);
        }
        None
    }

    /// Records `offset` as the key's current offset, overwriting any
    /// prior offset for that key.
    pub fn upsert(&mut self, key: Vec<u8>, offset: u64)
        requires
            old(self).wf(),
        ensures
            final(self).wf(),
            final(self)@ == old(self)@.insert(key@, offset),
    {
        let n = self.entries.len();
        let mut i: usize = 0;
        while i < n
            invariant
                i <= n,
                n == self.entries@.len(),
                self.wf(),
                self.entries@ == old(self).entries@,
                forall|j: int| 0 <= j < i ==> self.entries@[j].0@ != key@,
            decreases n - i,
        {
            if slices_eq(self.entries[i].0.as_slice(), key.as_slice()) {
                let ghost s = self.entries@;
                self.entries.remove(i);
                self.entries.push((key, offset));
                proof {
                    lemma_map_of_remove(s, i as int);
                    assert(self.entries@.drop_last() =~= s.remove(i as int));
                    assert(map_of(self.entries@) =~= map_of(s).insert(
                        self.entries@.last().0@,
                        offset,
                    ));
                    assert forall|p: int, q: int|
                        0 <= p < q < self.entries@.len() implies self.entries@[p].0@
                        != self.entries@[q].0@ by {
                        if q == self.entries@.len() - 1 {
                            if p < i {
                                assert(self.entries@[p].0@ == s[p].0@);
                            } else {
                                assert(self.entries@[p].0@ == s[p + 1].0@);
                            }
                        }
                    }
                }
                return ;
            }
            i = i + 1;
        }
        let ghost s = self.entries@;
        self.entries.push((key, offset));
        proof {
            assert(self.entries@.drop_last() =~= s);
            assert(map_of(self.entries@) =~= map_of(s).insert(self.entries@.last().0@, offset));
        }
    }

    /// An owned copy of the index's entries: distinct keys, and as a
    /// mapping exactly the index's current contents.
    pub fn pairs(&self) -> (r: Vec<(Vec<u8>, u64)>)
        requires
            self.wf(),
        ensures
            distinct_keys(r@),
            map_of(r@) == self@,
    {
        let n = self.entries.len();
        let mut r: Vec<(Vec<u8>, u64)> = Vec::new();
        let mut i: usize = 0;
        while i < n
            invariant
                i <= n,
                n == self.entries@.len(),
                self.wf(),
                r@.len() == i,
                forall|j: int|
                    0 <= j < i ==> r@[j].0@ == self.entries@[j].0@ && r@[j].1
                        == self.entries@[j].1,
            decreases n - i,
        {
            let k = copy_bytes(self.entries[i].0.as_slice());
            let off = self.entries[i].1;
            r.push((k, off));
            i = i + 1;
        }
        proof {
            assert(entries_match(r@, self.entries@));
            lemma_map_of_congruent(r@, self.entries@);
        }
        r
    }
}

} // verus!
