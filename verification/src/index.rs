//! The in-memory index: a map from each live key to the position of the
//! `Put` record that last wrote it.
//!
//! The index is a flat list of entries with pairwise-distinct keys; its
//! mathematical view is the finite map those entries spell out, with a
//! later entry winning (which never matters, since the keys are
//! distinct).

use vstd::prelude::*;
use vstd::pervasive::VecAdditionalExecFns;

verus! {

/// Where in the log a record begins: a segment generation and the byte
/// offset of the record's first byte inside that segment.
#[derive(Debug, Clone, Copy, PartialEq, Eq, Structural)]
pub struct LogPointer {
    pub generation: u64,
    pub offset: usize,
}

/// One key with the position of its latest `Put` record.
#[derive(Debug, Clone)]
pub struct IndexEntry {
    pub key: String,
    pub ptr: LogPointer,
}

/// The finite map spelled out by a list of entries.
pub open spec fn entries_map(s: Seq<IndexEntry>) -> Map<Seq<char>, LogPointer>
    decreases s.len(),
{
    if s.len() == 0 {
        Map::empty()
    } else {
        entries_map(s.drop_last()).insert(s.last().key@, s.last().ptr)
    }
}

/// No two entries name the same key.
pub open spec fn keys_distinct(s: Seq<IndexEntry>) -> bool {
    forall|i: int, j: int| 0 <= i < j < s.len() ==> s[i].key@ != s[j].key@
}

/// A key is in the map exactly when some entry names it.
pub proof fn lemma_entries_map_contains(s: Seq<IndexEntry>, k: Seq<char>)
    ensures
        entries_map(s).contains_key(k) <==> exists|i: int| 0 <= i < s.len() && s[i].key@ == k,
    decreases s.len(),
{
    if s.len() == 0 {
    } else {
        let t = s.drop_last();
        lemma_entries_map_contains(t, k);
        if s.last().key@ == k {
            assert(s[s.len() - 1].key@ == k);
        } else if entries_map(t).contains_key(k) {
            let i = choose|i: int| 0 <= i < t.len() && t[i].key@ == k;
            assert(s[i].key@ == k);
        } else if exists|i: int| 0 <= i < s.len() && s[i].key@ == k {
            let i = choose|i: int| 0 <= i < s.len() && s[i].key@ == k;
            assert(i < s.len() - 1);
            assert(t[i].key@ == k);
        }
    }
}

/// With distinct keys, the entry that names a key gives its map value.
pub proof fn lemma_entries_map_value(s: Seq<IndexEntry>, i: int)
    requires
        keys_distinct(s),
        0 <= i < s.len(),
    ensures
        entries_map(s).contains_key(s[i].key@),
        entries_map(s)[s[i].key@] == s[i].ptr,
    decreases s.len(),
{
    if i == s.len() - 1 {
    } else {
        let t = s.drop_last();
        assert(t[i] == s[i]);
        lemma_entries_map_value(t, i);
        assert(s.last().key@ != s[i].key@);
    }
}

/// Appending an entry inserts its key.
pub proof fn lemma_entries_map_push(s: Seq<IndexEntry>, e: IndexEntry)
    ensures
        entries_map(s.push(e)) == entries_map(s).insert(e.key@, e.ptr),
{
    assert(s.push(e).drop_last() =~= s);
    assert(s.push(e).last() == e);
}

/// Overwriting the entry that names a key re-inserts that key.
pub proof fn lemma_entries_map_update(s: Seq<IndexEntry>, i: int, e: IndexEntry)
    requires
        keys_distinct(s),
        0 <= i < s.len(),
        e.key@ == s[i].key@,
    ensures
        entries_map(s.update(i, e)) == entries_map(s).insert(e.key@, e.ptr),
        keys_distinct(s.update(i, e)),
    decreases s.len(),
{
    let u = s.update(i, e);
    if i == s.len() - 1 {
        assert(u.drop_last() =~= s.drop_last());
        assert(u.last() == e);
        lemma_entries_map_contains(s.drop_last(), e.key@);
        assert(entries_map(u) =~= entries_map(s).insert(e.key@, e.ptr));
    } else {
        assert(u.drop_last() =~= s.drop_last().update(i, e));
        assert(u.last() == s.last());
        assert(s.drop_last()[i] == s[i]);
        lemma_entries_map_update(s.drop_last(), i, e);
        assert(s.last().key@ != e.key@);
        assert(entries_map(u) =~= entries_map(s).insert(e.key@, e.ptr));
    }
}

/// Removing the entry that names a key removes that key from the map.
pub proof fn lemma_entries_map_remove(s: Seq<IndexEntry>, i: int)
    requires
        keys_distinct(s),
        0 <= i < s.len(),
    ensures
        entries_map(s.remove(i)) == entries_map(s).remove(s[i].key@),
        keys_distinct(s.remove(i)),
    decreases s.len(),
{
    let k = s[i].key@;
    let r = s.remove(i);
    assert(keys_distinct(r)) by {
        assert forall|a: int, b: int| 0 <= a < b < r.len() implies r[a].key@ != r[b].key@ by {
            let a0 = if a < i { a } else { a + 1 };
            let b0 = if b < i { b } else { b + 1 };
            assert(r[a] == s[a0] && r[b] == s[b0]);
        }
    }
    if i == s.len() - 1 {
        assert(r =~= s.drop_last());
        lemma_entries_map_contains(r, k);
        assert(entries_map(r) =~= entries_map(s).remove(k));
    } else {
        assert(r.last() == s.last());
        assert(r.drop_last() =~= s.drop_last().remove(i));
        assert(s.drop_last()[i] == s[i]);
        lemma_entries_map_remove(s.drop_last(), i);
        assert(s.last().key@ != k);
        assert(entries_map(r) =~= entries_map(s).remove(k));
    }
}

/// The in-memory key index.
pub struct Index {
    pub entries: Vec<IndexEntry>,
}

impl View for Index {
    type V = Map<Seq<char>, LogPointer>;

    open spec fn view(&self) -> Map<Seq<char>, LogPointer> {
        entries_map(self.entries@)
    }
}

impl Index {
    /// Internal consistency: every key appears at most once.
    pub open spec fn wf(self) -> bool {
        keys_distinct(self.entries@)
    }

    /// An empty index.
    pub fn new() -> (r: Index)
        ensures
            r.wf(),
            r@ == Map::<Seq<char>, LogPointer>::empty(),
            r.entries@ == Seq::<IndexEntry>::empty(),
    {
        Index { entries: Vec::new() }
    }

    /// The position of the latest `Put` record for a key, if the key is
    /// live.
    pub fn lookup(&self, key: &String) -> (r: Option<LogPointer>)
        requires
            self.wf(),
        ensures
            r matches Some(p) ==> self@.contains_key(key@) && self@[key@] == p,
            r is None ==> !self@.contains_key(key@),
    {
        let n = self.entries.len();
        let mut i: usize = 0;
        while i < n
            invariant
                i <= n,
                n == self.entries@.len(),
                self.wf(),
                forall|j: int| 0 <= j < i ==> self.entries@[j].key@ != key@,
            decreases n - i,
        {
            if self.entries[i].key == *key {
                proof {
                    lemma_entries_map_value(self.entries@, i as int);
                }
                return Some(self.entries[i].ptr);
            }
            i = i + 1;
        }
        proof {
            lemma_entries_map_contains(self.entries@, key@);
        }
        None
    }

    /// Point a key at a record position, overwriting any prior entry.
    pub fn upsert(&mut self, key: String, ptr: LogPointer)
        requires
            old(self).wf(),
        ensures
            final(self).wf(),
            final(self)@ == old(self)@.insert(key@, ptr),
            !old(self)@.contains_key(key@) ==> final(self).entries@ == old(self).entries@.push(
                (IndexEntry { key: key, ptr: ptr }),
            ),
            old(self)@.contains_key(key@) ==> (exists|i: int|
                0 <= i < old(self).entries@.len() && old(self).entries@[i].key@ == key@
                    && final(self).entries@ == old(self).entries@.update(
                    i,
                    (IndexEntry { key: key, ptr: ptr }),
                )),
    {
        let n = self.entries.len();
        let mut i: usize = 0;
        while i < n
            invariant
                i <= n,
                n == self.entries@.len(),
                self.wf(),
                *self == *old(self),
                forall|j: int| 0 <= j < i ==> self.entries@[j].key@ != key@,
            decreases n - i,
        {
            if self.entries[i].key == key {
                proof {
                    lemma_entries_map_value(self.entries@, i as int);
                    lemma_entries_map_update(
                        self.entries@,
                        i as int,
                        IndexEntry { key: key, ptr: ptr },
                    );
                }
                self.entries.set(i, IndexEntry { key, ptr });
                proof {
                    assert(exists|j: int|
                        0 <= j < old(self).entries@.len() && old(self).entries@[j].key@ == key@
                            && self.entries@ == old(self).entries@.update(
                            j,
                            (IndexEntry { key: key, ptr: ptr }),
                        )) by {
                        assert(0 <= i < old(self).entries@.len() && old(self).entries@[
                            i as int
                        ].key@ == key@ && self.entries@ == old(self).entries@.update(
                            i as int,
                            (IndexEntry { key: key, ptr: ptr }),
                        ));
                    }
                }
                return ;
            }
            i = i + 1;
        }
        proof {
            lemma_entries_map_push(self.entries@, IndexEntry { key: key, ptr: ptr });
            lemma_entries_map_contains(self.entries@, key@);
        }
        self.entries.push(IndexEntry { key, ptr });
    }

    /// Evict a key; reports whether it was present.
    pub fn remove(&mut self, key: &String) -> (was: bool)
        requires
            old(self).wf(),
        ensures
            final(self).wf(),
            final(self)@ == old(self)@.remove(key@),
            was == old(self)@.contains_key(key@),
            !old(self)@.contains_key(key@) ==> final(self).entries@ == old(self).entries@,
            old(self)@.contains_key(key@) ==> (exists|i: int|
                0 <= i < old(self).entries@.len() && old(self).entries@[i].key@ == key@
                    && final(self).entries@ == old(self).entries@.remove(i)),
    {
        let n = self.entries.len();
        let mut i: usize = 0;
        while i < n
            invariant
                i <= n,
                n == self.entries@.len(),
                self.wf(),
                *self == *old(self),
                forall|j: int| 0 <= j < i ==> self.entries@[j].key@ != key@,
            decreases n - i,
        {
            if self.entries[i].key == *key {
                proof {
                    lemma_entries_map_value(self.entries@, i as int);
                    lemma_entries_map_remove(self.entries@, i as int);
                }
                self.entries.remove(i);
                proof {
                    assert(exists|j: int|
                        0 <= j < old(self).entries@.len() && old(self).entries@[j].key@ == key@
                            && self.entries@ == old(self).entries@.remove(j)) by {
                        assert(0 <= i < old(self).entries@.len() && old(self).entries@[
                            i as int
                        ].key@ == key@ && self.entries@ == old(self).entries@.remove(i as int));
                    }
                }
                return true;
            }
            i = i + 1;
        }
        proof {
            lemma_entries_map_contains(self.entries@, key@);
            assert(entries_map(self.entries@) =~= entries_map(self.entries@).remove(key@));
        }
        false
    }

    /// The number of live keys.
    pub fn len(&self) -> (n: usize)
        requires
            self.wf(),
        ensures
            n == self.entries@.len(),
    {
        self.entries.len()
    }

    /// The entries as a list, for walking all live keys.
    pub fn iterate(&self) -> (r: &Vec<IndexEntry>)
        ensures
            r@ == self.entries@,
    {
        &self.entries
    }
}

} // verus!
