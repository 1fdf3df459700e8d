//! A fixed-capacity cache that evicts the least recently used entry.
//!
//! Entries are kept in recency order, most recent first, so lookup and
//! insertion both move the touched key to the front, and eviction drops
//! the last entry.

use vstd::laws_eq::obeys_concrete_eq;
use vstd::prelude::*;

verus! {

/// A least-recently-used cache: at most `capacity` entries, most
/// recently used first.
pub struct LRUCache<K, V> {
    capacity: usize,
    entries: Vec<(K, V)>,
}

/// Whether some entry carries the key `k`.
pub open spec fn has_key<K, V>(s: Seq<(K, V)>, k: K) -> bool {
    exists|i: int| 0 <= i < s.len() && (#[trigger] s[i]).0 == k
}

/// The index of the entry carrying `k` (unique when keys are distinct).
pub open spec fn key_index<K, V>(s: Seq<(K, V)>, k: K) -> int {
    choose|i: int| 0 <= i < s.len() && (#[trigger] s[i]).0 == k
}

impl<K: PartialEq, V: Copy> LRUCache<K, V> {
    /// The entries in recency order, most recently used first.
    pub closed spec fn entries_spec(&self) -> Seq<(K, V)> {
        self.entries@
    }

    /// The fixed capacity.
    pub closed spec fn cap_spec(&self) -> int {
        self.capacity as int
    }

    /// At least one slot, never more entries than the capacity, and no
    /// two entries with one key.
    pub open spec fn wf(&self) -> bool {
        &&& self.cap_spec() >= 1
        &&& self.entries_spec().len() <= self.cap_spec()
        &&& forall|i: int, j: int|
            0 <= i < j < self.entries_spec().len() ==> (#[trigger] self.entries_spec()[i]).0 != (
            #[trigger] self.entries_spec()[j]).0
    }

    /// An empty cache with the given capacity, which must be at least 1.
    pub fn new(capacity: usize) -> (c: LRUCache<K, V>)
        requires
            capacity >= 1,
        ensures
            c.wf(),
            c.cap_spec() == capacity,
            c.entries_spec().len() == 0,
    {
        LRUCache { capacity, entries: Vec::new() }
    }

    /// Scan for a key, front to back.
    #[verifier::loop_isolation(false)]
    fn find(&self, key: &K) -> (r: Option<usize>)
        requires
            obeys_concrete_eq::<K>(),
        ensures
            match r {
                Some(i) => (i as int) < self.entries_spec().len() && self.entries_spec()[
                    i as int
                ].0 == *key,
                None => !has_key(self.entries_spec(), *key),
            },
    {
        proof {
            reveal(vstd::laws_eq::obeys_concrete_eq);
        }
        let n = self.entries.len();
        let mut i: usize = 0;
        while i < n
            invariant
                i <= n,
                forall|j: int| 0 <= j < i ==> (#[trigger] self.entries_spec()[j]).0 != *key,
            decreases n - i,
        {
            if self.entries[i].0 == *key {
                return Some(i);
            }
            i += 1;
        }
        None
    }

    /// Look a key up; on a hit, return its value and move the entry to
    /// the front, on a miss return `None` and change nothing.
    pub fn get(&mut self, key: &K) -> (r: Option<V>)
        requires
            old(self).wf(),
            obeys_concrete_eq::<K>(),
        ensures
            final(self).wf(),
            final(self).cap_spec() == old(self).cap_spec(),
            has_key(old(self).entries_spec(), *key) ==> {
                let i = key_index(old(self).entries_spec(), *key);
                &&& r == Some(old(self).entries_spec()[i].1)
                &&& final(self).entries_spec() == seq![old(self).entries_spec()[i]] + old(self).entries_spec().remove(i)
            },
            !has_key(old(self).entries_spec(), *key) ==> r == Option::<V>::None && final(self).entries_spec() == old(self).entries_spec(),
    {
        let found = self.find(key);
        match found {
            Some(i) => {
                proof {
                    assert(has_key(self.entries_spec(), *key));
                    let w = key_index(self.entries_spec(), *key);
                    assert(0 <= w < self.entries_spec().len() && self.entries_spec()[w].0
                        == *key);
                    assert(w == i as int);
                }
                let e = self.entries.remove(i);
                let v = e.1;
                self.entries.insert(0, e);
                proof {
                    let pre = old(self).entries_spec();
                    let i0 = i as int;
                    assert(self.entries_spec() =~= seq![pre[i0]] + pre.remove(i0));
                    assert forall|a: int, b: int|
                        0 <= a < b < self.entries_spec().len() implies (
                    #[trigger] self.entries_spec()[a]).0 != (#[trigger] self.entries_spec()[b]).0
                        by {
                        assert(pre.remove(i0).len() == pre.len() - 1);
                    }
                }
                Some(v)
            },
            None => None,
        }
    }

    /// Insert or update a key: an existing entry is rewritten and moved
    /// to the front; a new entry is pushed at the front, evicting the
    /// least recently used entry when the cache is full.
    pub fn put(&mut self, key: K, value: V)
        requires
            old(self).wf(),
            obeys_concrete_eq::<K>(),
        ensures
            final(self).wf(),
            final(self).cap_spec() == old(self).cap_spec(),
            has_key(old(self).entries_spec(), key) ==> final(self).entries_spec() == seq![
                (key, value),
            ] + old(self).entries_spec().remove(key_index(old(self).entries_spec(), key)),
            !has_key(old(self).entries_spec(), key) && old(self).entries_spec().len() < old(self).cap_spec() ==> final(self).entries_spec() == seq![(key, value)] + old(self).entries_spec(),
            !has_key(old(self).entries_spec(), key) && old(self).entries_spec().len() == old(self).cap_spec() ==> final(self).entries_spec() == seq![(key, value)] + old(self).entries_spec().drop_last(),
    {
        let found = self.find(&key);
        match found {
            Some(i) => {
                proof {
                    assert(has_key(self.entries_spec(), key));
                    let w = key_index(self.entries_spec(), key);
                    assert(0 <= w < self.entries_spec().len() && self.entries_spec()[w].0 == key);
                    assert(w == i as int);
                }
                let _ = self.entries.remove(i);
                self.entries.insert(0, (key, value));
                proof {
                    let pre = old(self).entries_spec();
                    let i0 = i as int;
                    assert(self.entries_spec() =~= seq![(key, value)] + pre.remove(i0));
                    assert forall|a: int, b: int|
                        0 <= a < b < self.entries_spec().len() implies (
                    #[trigger] self.entries_spec()[a]).0 != (#[trigger] self.entries_spec()[b]).0
                        by {}
                }
            },
            None => {
                if self.entries.len() == self.capacity {
                    let _ = self.entries.pop();
                }
                self.entries.insert(0, (key, value));
                proof {
                    let pre = old(self).entries_spec();
                    if pre.len() == self.cap_spec() {
                        assert(self.entries_spec() =~= seq![(key, value)] + pre.drop_last());
                    } else {
                        assert(self.entries_spec() =~= seq![(key, value)] + pre);
                    }
                    assert forall|a: int, b: int|
                        0 <= a < b < self.entries_spec().len() implies (
                    #[trigger] self.entries_spec()[a]).0 != (#[trigger] self.entries_spec()[b]).0
                        by {}
                }
            },
        }
    }

    /// Number of entries held.
    pub fn len(&self) -> (r: usize)
        ensures
            r == self.entries_spec().len(),
    {
        self.entries.len()
    }

    /// Whether the cache holds nothing.
    pub fn is_empty(&self) -> (r: bool)
        ensures
            r == (self.entries_spec().len() == 0),
    {
        self.entries.is_empty()
    }
}

} // verus!
