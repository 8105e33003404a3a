//! Accumulates key-value entries into one target-sized block, rejecting
//! entries that would push the encoded block past its byte budget. The very
//! first entry is always accepted, so progress is guaranteed even for pairs
//! larger than the budget.

use vstd::prelude::*;

use crate::block::{
    block_entries, block_wf, entries_bytes, entries_offsets, entries_sorted, entry_bytes,
    entry_view_wf, lemma_block_entries_push, lemma_entries_bytes_push, lemma_entries_offsets_push,
    Block, EntryView,
};
use crate::codec::{append_slice, put_u16};

verus! {

/// Builds a block.
pub struct BlockBuilder {
    /// Offsets of each key-value entry.
    pub offsets: Vec<u16>,
    /// All serialized key-value pairs in the block.
    pub data: Vec<u8>,
    /// The soft byte budget for the encoded block.
    pub block_size: usize,
    /// The entries added so far.
    pub entries: Ghost<Seq<EntryView>>,
}

impl BlockBuilder {
    /// The entries added so far.
    pub open spec fn entries(&self) -> Seq<EntryView> {
        self.entries@
    }

    /// The byte budget this builder was created with.
    pub open spec fn block_size_spec(&self) -> int {
        self.block_size as int
    }

    /// Encoded size of the block if built now: data, offset table, count.
    pub open spec fn current_size(&self) -> int {
        self.data@.len() as int + 2 * self.offsets@.len() as int + 2
    }

    /// Encoded size of the block if an entry of the given key and value
    /// lengths were appended: the current data, one offset per entry
    /// including the new one, the count field, and the new entry itself.
    pub open spec fn projected_size(&self, key_len: int, value_len: int) -> int {
        self.current_size() + key_len + value_len + 6
    }

    /// The fit rule: a new entry is accepted when the builder is empty, or
    /// when the projected encoded size stays within the budget.
    pub open spec fn fits(&self, key_len: int, value_len: int) -> bool {
        self.entries@.len() == 0 || self.projected_size(key_len, value_len)
            <= self.block_size_spec()
    }

    /// The builder's data and offsets are exactly the encoding of its
    /// entries, and every accepted entry respects the format's limits.
    pub open spec fn wf(&self) -> bool {
        &&& self.data@ == entries_bytes(self.entries@)
        &&& self.offsets@ == entries_offsets(self.entries@)
        &&& block_wf(self.data@, self.offsets@)
        &&& block_entries(self.data@, self.offsets@) == self.entries@
        &&& forall|i: int|
            0 <= i < self.entries@.len() ==> entry_view_wf(#[trigger] self.entries@[i])
        &&& self.block_size <= 0xFFFF
        &&& self.entries@.len() <= 0xFFFF
        &&& self.data@.len() <= 0x2_0002
        &&& (self.entries@.len() >= 2 ==> self.current_size() <= self.block_size_spec())
    }

    /// Creates a new block builder with the given byte budget.
    pub fn new(block_size: usize) -> (r: BlockBuilder)
        requires
            block_size <= 0xFFFF,
        ensures
            r.wf(),
            r.entries() == Seq::<EntryView>::empty(),
            r.block_size_spec() == block_size,
    {
        let r = BlockBuilder {
            offsets: Vec::new(),
            data: Vec::new(),
            block_size,
            entries: Ghost(Seq::empty()),
        };
        proof {
            assert(entries_offsets(r.entries@) =~= Seq::<u16>::empty());
            assert(block_entries(r.data@, r.offsets@) =~= r.entries@);
        }
        r
    }

    /// Adds a key-value pair to the block. Returns false when the entry does
    /// not fit, but the first entry is always accepted, even if it exceeds
    /// the block budget.
    #[must_use]
    pub fn add(&mut self, key: &[u8], value: &[u8]) -> (r: bool)
        requires
            old(self).wf(),
            1 <= key@.len() <= 0xFFFF,
            value@.len() <= 0xFFFF,
        ensures
            final(self).wf(),
            final(self).block_size_spec() == old(self).block_size_spec(),
            r == old(self).fits(key@.len() as int, value@.len() as int),
            r ==> final(self).entries() == old(self).entries().push((key@, value@)),
            !r ==> *final(self) == *old(self),
    {
        let total_size = self.data.len() + 2 * (self.offsets.len() + 1) + 2 + key.len()
            + value.len() + 4;
        if total_size > self.block_size && !self.offsets.is_empty() {
            return false;
        }
        let ghost old_entries = self.entries@;
        let ghost old_data = self.data@;
        proof {
            if old_entries.len() == 0 {
                assert(entries_offsets(old_entries).len() == 0);
                assert(entries_bytes(old_entries).len() == 0);
            }
            assert(self.data@.len() <= 0xFFFF);
        }
        self.offsets.push(self.data.len() as u16);
        put_u16(&mut self.data, key.len() as u16);
        append_slice(&mut self.data, key);
        put_u16(&mut self.data, value.len() as u16);
        append_slice(&mut self.data, value);
        proof {
            self.entries@ = old_entries.push((key@, value@));
            assert(self.data@ =~= old_data + entry_bytes(key@, value@));
            lemma_entries_bytes_push(old_entries, key@, value@);
            lemma_entries_offsets_push(old_entries, key@, value@);
            assert(self.offsets@ =~= entries_offsets(self.entries@));
            lemma_block_entries_push(old_data, entries_offsets(old_entries), key@, value@);
            assert(old(self).offsets@.len() == old_entries.len());
            assert(self.data@.len() == old_data.len() + 4 + key@.len() + value@.len());
            assert(self.offsets@.len() == old_entries.len() + 1);
        }
        true
    }

    /// Reports whether no key-value pair has been added yet.
    pub fn is_empty(&self) -> (r: bool)
        requires
            self.wf(),
        ensures
            r == (self.entries().len() == 0),
    {
        self.offsets.is_empty()
    }

    /// Finalizes the block. If the entries were added in non-decreasing key
    /// order the result is a well-formed sorted block.
    pub fn build(self) -> (b: Block)
        requires
            self.wf(),
        ensures
            b.data@ == entries_bytes(self.entries()),
            b.offsets@ == entries_offsets(self.entries()),
            b.entries() == self.entries(),
            block_wf(b.data@, b.offsets@),
            b.offsets@.len() == self.entries().len(),
            entries_sorted(self.entries()) ==> b.wf(),
    {
        Block { data: self.data, offsets: self.offsets }
    }
}

} // verus!
