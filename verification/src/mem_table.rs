//! The in-memory ordered write sink: a concurrent ordered map keyed by byte
//! strings. Writes overwrite, reads copy the stored value out, and a scan
//! materializes the entries inside a key range, in ascending key order, as a
//! snapshot cursor.

use std::ops::Bound;

use vstd::prelude::*;

use crossbeam_skiplist::SkipMap;

use crate::block::EntryView;
use crate::codec::copy_range;
use crate::iterators::{Error, StorageIterator};
use crate::keys::{lex_le, lex_lt};

verus! {

#[verifier::external_type_specification]
#[verifier::external_body]
#[verifier::reject_recursive_types(K)]
#[verifier::reject_recursive_types(V)]
pub struct ExSkipMap<K, V>(SkipMap<K, V>);

/// The contents of a skip map: which value each stored key maps to.
pub uninterp spec fn skipmap_view(m: SkipMap<Vec<u8>, Vec<u8>>) -> Map<Seq<u8>, Seq<u8>>;

/// The contents of a map with nothing in it.
pub open spec fn empty_contents() -> Map<Seq<u8>, Seq<u8>> {
    Map::empty()
}

/// One end of a scanned key range.
pub enum KeyBound {
    /// Keys equal to the endpoint are inside the range.
    Included(Vec<u8>),
    /// Keys equal to the endpoint are outside the range.
    Excluded(Vec<u8>),
    /// No constraint at this end.
    Unbounded,
}

/// `k` is at or above the lower bound.
pub open spec fn above_lower(k: Seq<u8>, lower: &KeyBound) -> bool {
    match lower {
        KeyBound::Included(x) => lex_le(x@, k),
        KeyBound::Excluded(x) => lex_lt(x@, k),
        KeyBound::Unbounded => true,
    }
}

/// `k` is at or below the upper bound.
pub open spec fn below_upper(k: Seq<u8>, upper: &KeyBound) -> bool {
    match upper {
        KeyBound::Included(x) => lex_le(k, x@),
        KeyBound::Excluded(x) => lex_lt(k, x@),
        KeyBound::Unbounded => true,
    }
}

/// `k` lies within both bounds.
pub open spec fn within_bounds(k: Seq<u8>, lower: &KeyBound, upper: &KeyBound) -> bool {
    above_lower(k, lower) && below_upper(k, upper)
}

/// Relies on crossbeam_skiplist::SkipMap::new: a fresh map is empty.
#[verifier::external_body]
fn skipmap_new() -> (m: SkipMap<Vec<u8>, Vec<u8>>)
    ensures
        skipmap_view(m) == empty_contents(),
{
    SkipMap::new()
}

/// Relies on crossbeam_skiplist::SkipMap::insert: stores `value` under
/// `key`, removing any existing entry with that key first.
#[verifier::external_body]
fn skipmap_insert(m: &mut SkipMap<Vec<u8>, Vec<u8>>, key: Vec<u8>, value: Vec<u8>)
    ensures
        skipmap_view(*final(m)) == skipmap_view(*old(m)).insert(key@, value@),
{
    m.insert(key, value);
}

/// Relies on crossbeam_skiplist::SkipMap::get: returns the entry stored
/// under `key`, if any.
#[verifier::external_body]
fn skipmap_get(m: &SkipMap<Vec<u8>, Vec<u8>>, key: &[u8]) -> (r: Option<Vec<u8>>)
    ensures
        match r {
            Some(v) => skipmap_view(*m).contains_key(key@) && v@ == skipmap_view(*m)[key@],
            None => !skipmap_view(*m).contains_key(key@),
        },
{
    m.get(key).map(|e| e.value().clone())
}

/// Relies on crossbeam_skiplist::SkipMap::len: the number of stored
/// entries, which is finite.
#[verifier::external_body]
fn skipmap_len(m: &SkipMap<Vec<u8>, Vec<u8>>) -> (n: usize)
    ensures
        n == skipmap_view(*m).dom().len(),
        (n == 0) == skipmap_view(*m).dom().is_empty(),
{
    m.len()
}

/// Relies on crossbeam_skiplist::SkipMap::range: the entries whose keys lie
/// within the bounds, visited in ascending key order.
#[verifier::external_body]
fn skipmap_range(m: &SkipMap<Vec<u8>, Vec<u8>>, lower: &KeyBound, upper: &KeyBound) -> (r: Vec<
    (Vec<u8>, Vec<u8>),
>)
    ensures
        forall|i: int, j: int|
            #![trigger r@[i], r@[j]]
            0 <= i < j < r@.len() ==> lex_lt(r@[i].0@, r@[j].0@),
        forall|i: int|
            #![trigger r@[i]]
            0 <= i < r@.len() ==> skipmap_view(*m).contains_key(r@[i].0@) && r@[i].1@
                == skipmap_view(*m)[r@[i].0@] && within_bounds(r@[i].0@, lower, upper),
        forall|k: Seq<u8>|
            skipmap_view(*m).contains_key(k) && within_bounds(k, lower, upper) ==> exists|i: int|
                0 <= i < r@.len() && #[trigger] r@[i].0@ == k,
{
    let lo = match lower {
        KeyBound::Included(x) => Bound::Included(x.clone()),
        KeyBound::Excluded(x) => Bound::Excluded(x.clone()),
        KeyBound::Unbounded => Bound::Unbounded,
    };
    let hi = match upper {
        KeyBound::Included(x) => Bound::Included(x.clone()),
        KeyBound::Excluded(x) => Bound::Excluded(x.clone()),
        KeyBound::Unbounded => Bound::Unbounded,
    };
    m.range((lo, hi)).map(|e| (e.key().clone(), e.value().clone())).collect()
}

/// The in-memory ordered table: the write sink that precedes table creation.
pub struct MemTable {
    /// The concurrent ordered map holding the entries. Kept private so
    /// every mutation goes through the contracted entry points.
    map: SkipMap<Vec<u8>, Vec<u8>>,
    /// The engine-assigned identifier of this memtable.
    id: usize,
    /// A monotonically growing lower bound on the stored payload bytes.
    approximate_size: usize,
}

/// After two puts of the same key, a lookup of that key yields the value of
/// the second put.
pub proof fn lemma_memtable_overwrite(
    m: Map<Seq<u8>, Seq<u8>>,
    k: Seq<u8>,
    v1: Seq<u8>,
    v2: Seq<u8>,
)
    ensures
        m.insert(k, v1).insert(k, v2)[k] == v2,
        m.insert(k, v1).insert(k, v2).contains_key(k),
{
}

impl MemTable {
    /// The current contents: which value each stored key maps to.
    pub closed spec fn contents(&self) -> Map<Seq<u8>, Seq<u8>> {
        skipmap_view(self.map)
    }

    /// The engine-assigned identifier.
    pub closed spec fn spec_id(&self) -> usize {
        self.id
    }

    /// The current size estimate.
    pub closed spec fn spec_size(&self) -> usize {
        self.approximate_size
    }

    /// Creates a new, empty memtable.
    pub fn create(id: usize) -> (r: MemTable)
        ensures
            r.contents() == Map::<Seq<u8>, Seq<u8>>::empty(),
            r.spec_id() == id,
            r.spec_size() == 0,
    {
        MemTable { map: skipmap_new(), id, approximate_size: 0 }
    }

    /// Inserts or overwrites the entry for `key`. The size estimate grows by
    /// the payload length of every put — also on overwrite, on purpose — and
    /// saturates rather than wraps.
    pub fn put(&mut self, key: &[u8], value: &[u8]) -> (r: Result<(), Error>)
        requires
            1 <= key@.len() <= 0xFFFF,
            value@.len() <= 0xFFFF,
        ensures
            r is Ok,
            final(self).contents() == old(self).contents().insert(key@, value@),
            final(self).spec_id() == old(self).spec_id(),
            final(self).spec_size() == if old(self).spec_size() + key@.len() + value@.len()
                <= usize::MAX {
                old(self).spec_size() + key@.len() + value@.len()
            } else {
                usize::MAX as int
            },
    {
        let k = copy_range(key, 0, key.len());
        let v = copy_range(value, 0, value.len());
        proof {
            assert(k@ =~= key@);
            assert(v@ =~= value@);
        }
        skipmap_insert(&mut self.map, k, v);
        let add = key.len() + value.len();
        if self.approximate_size > usize::MAX - add {
            self.approximate_size = usize::MAX;
        } else {
            self.approximate_size = self.approximate_size + add;
        }
        Ok(())
    }

    /// Returns a copy of the value stored under `key`, if any.
    pub fn get(&self, key: &[u8]) -> (r: Option<Vec<u8>>)
        ensures
            match r {
                Some(v) => self.contents().contains_key(key@) && v@ == self.contents()[key@],
                None => !self.contents().contains_key(key@),
            },
    {
        skipmap_get(&self.map, key)
    }

    /// Returns a snapshot cursor over the entries whose keys lie within the
    /// given bounds, in ascending key order.
    pub fn scan(&self, lower: &KeyBound, upper: &KeyBound) -> (it: MemTableIterator)
        ensures
            it.inv(),
            forall|i: int, j: int|
                #![trigger it.entries()[i], it.entries()[j]]
                0 <= i < j < it.entries().len() ==> lex_lt(it.entries()[i].0, it.entries()[j].0),
            forall|i: int|
                #![trigger it.entries()[i]]
                0 <= i < it.entries().len() ==> self.contents().contains_key(it.entries()[i].0)
                    && it.entries()[i].1 == self.contents()[it.entries()[i].0] && within_bounds(
                    it.entries()[i].0,
                    lower,
                    upper,
                ),
            forall|k: Seq<u8>|
                self.contents().contains_key(k) && within_bounds(k, lower, upper) ==> exists|
                    i: int,
                |
                    0 <= i < it.entries().len() && #[trigger] it.entries()[i].0 == k,
    {
        let items = skipmap_range(&self.map, lower, upper);
        let it = MemTableIterator { items, idx: 0 };
        proof {
            assert(it.entries() =~= pairs_view(it.items@));
            assert forall|k: Seq<u8>|
                self.contents().contains_key(k) && within_bounds(k, lower, upper) implies exists|
                i: int,
            |
                0 <= i < it.entries().len() && #[trigger] it.entries()[i].0 == k by {
                let i = choose|i: int| 0 <= i < it.items@.len() && #[trigger] it.items@[i].0@ == k;
                assert(it.entries()[i].0 == k);
            }
        }
        it
    }

    /// The engine-assigned identifier.
    pub fn id(&self) -> (r: usize)
        ensures
            r == self.spec_id(),
    {
        self.id
    }

    /// The monotonically growing size estimate; a lower bound only.
    pub fn approximate_size(&self) -> (r: usize)
        ensures
            r == self.spec_size(),
    {
        self.approximate_size
    }

    /// Reports whether the memtable holds no entries.
    pub fn is_empty(&self) -> (r: bool)
        ensures
            r == self.contents().dom().is_empty(),
    {
        let n = skipmap_len(&self.map);
        n == 0
    }

    /// Test seam: put through a shared entry point.
    pub fn for_testing_put_slice(&mut self, key: &[u8], value: &[u8]) -> (r: Result<(), Error>)
        requires
            1 <= key@.len() <= 0xFFFF,
            value@.len() <= 0xFFFF,
        ensures
            r is Ok,
            final(self).contents() == old(self).contents().insert(key@, value@),
    {
        self.put(key, value)
    }

    /// Test seam: get through a shared entry point.
    pub fn for_testing_get_slice(&self, key: &[u8]) -> (r: Option<Vec<u8>>)
        ensures
            match r {
                Some(v) => self.contents().contains_key(key@) && v@ == self.contents()[key@],
                None => !self.contents().contains_key(key@),
            },
    {
        self.get(key)
    }

    /// Test seam: scan through a shared entry point.
    pub fn for_testing_scan_slice(&self, lower: &KeyBound, upper: &KeyBound) -> (it:
        MemTableIterator)
        ensures
            it.inv(),
    {
        self.scan(lower, upper)
    }
}

/// The entry views of a vector of owned key-value pairs.
pub open spec fn pairs_view(s: Seq<(Vec<u8>, Vec<u8>)>) -> Seq<EntryView> {
    Seq::new(s.len(), |i: int| (s[i].0@, s[i].1@))
}

/// A snapshot cursor over a range of a memtable, in ascending key order.
pub struct MemTableIterator {
    /// The materialized entries of the scanned range.
    pub items: Vec<(Vec<u8>, Vec<u8>)>,
    /// The position of the current entry.
    pub idx: usize,
}

impl StorageIterator for MemTableIterator {
    open spec fn entries(&self) -> Seq<EntryView> {
        pairs_view(self.items@).skip(self.idx as int)
    }

    open spec fn inv(&self) -> bool {
        self.idx <= self.items@.len()
    }

    open spec fn infallible(&self) -> bool {
        true
    }

    fn is_valid(&self) -> (r: bool) {
        self.idx < self.items.len()
    }

    fn key(&self) -> (r: Vec<u8>) {
        let k = copy_range(self.items[self.idx].0.as_slice(), 0, self.items[self.idx].0.len());
        proof {
            assert(k@ =~= self.entries()[0].0);
        }
        k
    }

    fn value(&self) -> (r: Vec<u8>) {
        let v = copy_range(self.items[self.idx].1.as_slice(), 0, self.items[self.idx].1.len());
        proof {
            assert(v@ =~= self.entries()[0].1);
        }
        v
    }

    fn next(&mut self) -> (r: Result<(), Error>)
        ensures
            r is Ok,
    {
        let ghost pre = self.entries();
        let n = self.items.len();
        proof {
            assert(self.idx < n);
        }
        self.idx = self.idx + 1;
        proof {
            assert(pre.len() > 0);
            assert forall|i: int| 0 <= i < self.entries().len() implies self.entries()[i]
                == pre.drop_first()[i] by {
                assert(pre.drop_first()[i] == pre[i + 1]);
            }
            assert(self.entries() =~= pre.drop_first());
        }
        Ok(())
    }
}

} // verus!
