//! Size-bounded in-memory buffer of recent writes.
//!
//! A `MemTable` wraps one skip list and tracks an approximate byte count:
//! every put adds the entry's accounted cost (encoded key length, value
//! length, and a fixed per-entry overhead), including puts that overwrite
//! an existing exact key; a delete of a live entry subtracts that entry's
//! accounted cost once. The table is considered full once the count
//! reaches its configured threshold; replacing a full table with a fresh
//! one is the surrounding layer's responsibility. The table carries no
//! internal synchronization: it expects a single mutator at a time, with
//! exclusive-mutation access enforced by the embedding system.

use vstd::prelude::*;

use crate::internal_key::{key_model_lt, InternalKey, KeyModel};
use crate::skiplist::{entry_cost, lemma_total_cost_bounds, SkipList};
use crate::storage_errors::StorageError;

verus! {

pub struct MemTable {
    list: SkipList,
    size_bytes: usize,
    max_size: usize,
}

impl View for MemTable {
    type V = Map<KeyModel, Seq<u8>>;

    closed spec fn view(&self) -> Map<KeyModel, Seq<u8>> {
        self.list@
    }
}

impl MemTable {
    /// Structural invariant: the list is well formed and the byte count
    /// covers at least the accounted cost of the live entries (overwritten
    /// puts add headroom on top).
    pub closed spec fn wf(self) -> bool {
        &&& self.list.wf()
        &&& self.size_bytes >= self.list.total_cost()
    }

    /// The tracked approximate byte count.
    pub closed spec fn spec_size_bytes(self) -> int {
        self.size_bytes as int
    }

    /// The configured flush threshold.
    pub closed spec fn spec_max_size(self) -> int {
        self.max_size as int
    }

    /// Creates an empty table with the given flush threshold.
    pub fn new(max_size: usize) -> (r: MemTable)
        ensures
            r.wf(),
            r@ == Map::<KeyModel, Seq<u8>>::empty(),
            r.spec_size_bytes() == 0,
            r.spec_max_size() == max_size,
    {
        MemTable { list: SkipList::new(), size_bytes: 0, max_size }
    }

    /// Inserts an entry and adds its accounted cost to the byte count,
    /// whether or not the exact key was already live.
    pub fn put(&mut self, key: InternalKey, value: Vec<u8>) -> (r: Result<(), StorageError>)
        requires
            old(self).wf(),
            old(self).spec_size_bytes() + entry_cost(key@, value@) <= usize::MAX,
        ensures
            final(self).wf(),
            final(self)@ == old(self)@.insert(key@, value@),
            final(self).spec_size_bytes() == old(self).spec_size_bytes() + entry_cost(
                key@,
                value@,
            ),
            final(self).spec_max_size() == old(self).spec_max_size(),
            r is Ok,
    {
        let ghost k = key@;
        let ghost v = value@;
        proof {
            lemma_total_cost_bounds(self.list, k);
        }
        let encoded = key.encode();
        let cost = encoded.len() + value.len() + 64;
        let r = self.list.insert(key, value);
        self.size_bytes = self.size_bytes + cost;
        proof {
            lemma_total_cost_bounds(self.list, k);
        }
        r
    }

    /// Looks up the value stored under an exact key.
    pub fn get(&self, key: &InternalKey) -> (r: Option<Vec<u8>>)
        requires
            self.wf(),
        ensures
            match r {
                Some(v) => self@.contains_key(key@) && v@ == self@[key@],
                None => !self@.contains_key(key@),
            },
    {
        self.list.get(key)
    }

    /// Removes the entry under an exact key, if one is live, and
    /// subtracts its accounted cost. An absent key leaves the table
    /// untouched.
    pub fn delete(&mut self, key: &InternalKey) -> (r: bool)
        requires
            old(self).wf(),
        ensures
            final(self).wf(),
            r == old(self)@.contains_key(key@),
            final(self)@ == old(self)@.remove(key@),
            final(self).spec_size_bytes() == old(self).spec_size_bytes() - (if old(
                self,
            )@.contains_key(key@) {
                entry_cost(key@, old(self)@[key@])
            } else {
                0
            }),
            final(self).spec_max_size() == old(self).spec_max_size(),
    {
        let ghost k = key@;
        match self.list.get(key) {
            Some(current) => {
                proof {
                    lemma_total_cost_bounds(self.list, k);
                }
                let encoded = key.encode();
                let cost = encoded.len() + current.len() + 64;
                self.size_bytes = self.size_bytes - cost;
                let r = self.list.delete(key);
                proof {
                    lemma_total_cost_bounds(self.list, k);
                }
                r
            },
            None => {
                proof {
                    assert(old(self)@.remove(k) =~= old(self)@);
                }
                false
            },
        }
    }

    /// True iff the tracked byte count has reached the flush threshold.
    pub fn is_full(&self) -> (r: bool)
        ensures
            r == (self.spec_size_bytes() >= self.spec_max_size()),
    {
        self.size_bytes >= self.max_size
    }

    /// The tracked approximate byte count.
    pub fn size_bytes(&self) -> (r: usize)
        ensures
            r == self.spec_size_bytes(),
    {
        self.size_bytes
    }

    /// Returns every live entry in key order: a finite, restartable
    /// snapshot of the table at the time of the call.
    pub fn iter(&self) -> (r: Vec<(InternalKey, Vec<u8>)>)
        requires
            self.wf(),
        ensures
            r@.len() == self@.dom().len(),
            forall|i: int|
                0 <= i < r@.len() ==> self@.contains_key((#[trigger] r@[i]).0@) && r@[i].1@
                    == self@[r@[i].0@],
            forall|i: int, j: int| 0 <= i < j < r@.len() ==> key_model_lt(r@[i].0@, r@[j].0@),
            forall|q: KeyModel|
                self@.contains_key(q) ==> exists|i: int|
                    0 <= i < r@.len() && (#[trigger] r@[i]).0@ == q,
    {
        self.list.iter()
    }
}

} // verus!
