//! A positioned cursor over one block's entries: seek to the first entry,
//! seek to the smallest entry whose key is at least a target, and advance.
//! The iterator is valid exactly while its index is inside the entry run;
//! its current key is empty exactly when it is invalid.

use std::sync::Arc;

use vstd::prelude::*;

use crate::block::{block_entries, block_wf, entries_sorted, entry_end,
    entry_val_start, entry_wf_at_idx, lemma_sorted_pairwise, Block, EntryView};
use crate::codec::{copy_range, get_u16_at};
use crate::keys::{key_lt, lemma_lex_le_lt_trans, lemma_lex_le_trans, lemma_lex_trichotomy, lex_le,
    lex_lt};

verus! {

/// Iterates over a block.
pub struct BlockIterator {
    /// The block being read, shared with its producer and any cache.
    pub block: Arc<Block>,
    /// The current key; empty exactly when the iterator is invalid.
    pub key: Vec<u8>,
    /// The byte range of the current value within the block's data region.
    pub value_range: (usize, usize),
    /// The index of the current entry.
    pub idx: usize,
}

impl BlockIterator {
    /// The entries of the underlying block.
    pub open spec fn entries(&self) -> Seq<EntryView> {
        block_entries(self.block.data@, self.block.offsets@)
    }

    /// The iterator points at an entry.
    pub open spec fn valid(&self) -> bool {
        self.idx < self.entries().len()
    }

    /// The block parses safely and the cursor coherently describes either
    /// the entry at `idx` or the past-the-end state.
    pub open spec fn inv(&self) -> bool {
        &&& block_wf(self.block.data@, self.block.offsets@)
        &&& self.idx <= self.entries().len()
        &&& if self.idx < self.entries().len() {
            let off = self.block.offsets@[self.idx as int] as int;
            &&& self.key@ == self.entries()[self.idx as int].0
            &&& self.value_range.0 == entry_val_start(self.block.data@, off)
            &&& self.value_range.1 == entry_end(self.block.data@, off)
        } else {
            self.key@.len() == 0
        }
    }

    /// The keys of the underlying block never decrease.
    pub open spec fn sorted(&self) -> bool {
        entries_sorted(self.entries())
    }

    fn new(block: Arc<Block>) -> (r: BlockIterator)
        ensures
            r.block == block,
            r.key@.len() == 0,
            r.idx == 0,
    {
        BlockIterator { block, key: Vec::new(), value_range: (0, 0), idx: 0 }
    }

    /// Positions the cursor at entry `idx`, or invalidates it when `idx` is
    /// the past-the-end position.
    fn seek_to_idx(&mut self, idx: usize)
        requires
            block_wf(old(self).block.data@, old(self).block.offsets@),
            idx <= old(self).entries().len(),
        ensures
            final(self).inv(),
            final(self).block == old(self).block,
            final(self).idx == idx,
    {
        if idx >= self.block.offsets.len() {
            self.key.clear();
            self.value_range = (0, 0);
            self.idx = idx;
            return;
        }
        proof {
            assert(entry_wf_at_idx(self.block.data@, self.block.offsets@, idx as int));
        }
        let data = self.block.data.as_slice();
        let offset = self.block.offsets[idx] as usize;
        let key_len = get_u16_at(data, offset) as usize;
        let key_start = offset + 2;
        self.key = copy_range(data, key_start, key_start + key_len);
        let val_len = get_u16_at(data, key_start + key_len) as usize;
        let val_start = key_start + key_len + 2;
        self.value_range = (val_start, val_start + val_len);
        self.idx = idx;
    }

    /// Creates a block iterator positioned at the first entry.
    pub fn create_and_seek_to_first(block: Arc<Block>) -> (r: BlockIterator)
        requires
            block_wf(block.data@, block.offsets@),
        ensures
            r.inv(),
            r.block == block,
            r.idx == 0,
    {
        let mut iter = Self::new(block);
        iter.seek_to_first();
        iter
    }

    /// Creates a block iterator positioned at the smallest entry whose key
    /// is at least `key`.
    pub fn create_and_seek_to_key(block: Arc<Block>, key: &[u8]) -> (r: BlockIterator)
        requires
            block_wf(block.data@, block.offsets@),
            entries_sorted(block_entries(block.data@, block.offsets@)),
        ensures
            r.inv(),
            r.block == block,
            r.idx <= r.entries().len(),
            forall|i: int| 0 <= i < r.idx ==> lex_lt(#[trigger] r.entries()[i].0, key@),
            r.valid() ==> lex_le(key@, r.entries()[r.idx as int].0),
    {
        let mut iter = Self::new(block);
        iter.seek_to_key(key);
        iter
    }

    /// Returns the key of the current entry.
    pub fn key(&self) -> (r: &Vec<u8>)
        requires
            self.inv(),
            self.valid(),
        ensures
            r@ == self.entries()[self.idx as int].0,
    {
        &self.key
    }

    /// Returns the value of the current entry.
    pub fn value(&self) -> (r: Vec<u8>)
        requires
            self.inv(),
            self.valid(),
        ensures
            r@ == self.entries()[self.idx as int].1,
    {
        proof {
            assert(entry_wf_at_idx(self.block.data@, self.block.offsets@, self.idx as int));
        }
        copy_range(self.block.data.as_slice(), self.value_range.0, self.value_range.1)
    }

    /// Returns true when the iterator points at an entry; equivalently, the
    /// current key is non-empty.
    pub fn is_valid(&self) -> (r: bool)
        requires
            self.inv(),
        ensures
            r == self.valid(),
    {
        proof {
            if self.valid() {
                assert(entry_wf_at_idx(self.block.data@, self.block.offsets@, self.idx as int));
            }
        }
        !self.key.is_empty()
    }

    /// Seeks to the first entry in the block.
    pub fn seek_to_first(&mut self)
        requires
            block_wf(old(self).block.data@, old(self).block.offsets@),
        ensures
            final(self).inv(),
            final(self).block == old(self).block,
            final(self).idx == 0,
    {
        self.seek_to_idx(0);
    }

    /// Moves to the next entry; moving past the last entry invalidates.
    pub fn next(&mut self)
        requires
            old(self).inv(),
            old(self).valid(),
        ensures
            final(self).inv(),
            final(self).block == old(self).block,
            final(self).idx == old(self).idx + 1,
    {
        let idx = self.idx + 1;
        self.seek_to_idx(idx);
    }

    /// Seeks to the smallest entry whose key is at least `key`; invalidates
    /// when every key in the block is smaller.
    pub fn seek_to_key(&mut self, key: &[u8])
        requires
            block_wf(old(self).block.data@, old(self).block.offsets@),
            entries_sorted(old(self).entries()),
        ensures
            final(self).inv(),
            final(self).block == old(self).block,
            final(self).idx <= final(self).entries().len(),
            forall|i: int| 0 <= i < final(self).idx ==> lex_lt(
                #[trigger] final(self).entries()[i].0,
                key@,
            ),
            final(self).valid() ==> lex_le(key@, final(self).entries()[final(self).idx as int].0),
    {
        let ghost es = old(self).entries();
        let mut left: usize = 0;
        let mut right: usize = self.block.offsets.len();
        while left < right
            invariant
                self.block == old(self).block,
                block_wf(self.block.data@, self.block.offsets@),
                entries_sorted(es),
                es == self.entries(),
                0 <= left <= right <= es.len(),
                forall|i: int| 0 <= i < left ==> lex_lt(#[trigger] es[i].0, key@),
                forall|i: int| right <= i < es.len() ==> lex_le(key@, #[trigger] es[i].0),
            decreases right - left,
        {
            let mid = left + (right - left) / 2;
            self.seek_to_idx(mid);
            if key_lt(self.key.as_slice(), key) {
                proof {
                    assert forall|i: int| 0 <= i < mid + 1 implies lex_lt(
                        #[trigger] es[i].0,
                        key@,
                    ) by {
                        lemma_sorted_pairwise(es, i, mid as int);
                        lemma_lex_le_lt_trans(es[i].0, es[mid as int].0, key@);
                    }
                }
                left = mid + 1;
            } else {
                proof {
                    lemma_lex_trichotomy(es[mid as int].0, key@);
                    assert forall|i: int| mid <= i < es.len() implies lex_le(
                        key@,
                        #[trigger] es[i].0,
                    ) by {
                        lemma_sorted_pairwise(es, mid as int, i);
                        lemma_lex_le_trans(key@, es[mid as int].0, es[i].0);
                    }
                }
                right = mid;
            }
        }
        self.seek_to_idx(left);
    }
}

} // verus!
