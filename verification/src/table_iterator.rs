//! A cursor over one sorted string table: it walks the blocks in file
//! order, loading each block on demand, and presents the table's entries
//! as one sorted stream.

use std::sync::Arc;

use vstd::prelude::*;

use crate::block::EntryView;
use crate::block_iterator::BlockIterator;
use crate::iterators::Error;
use crate::keys::{lemma_lex_le_trans, lex_le, lex_lt};
use crate::table::{lemma_meta_keys_ordered, lemma_span_first_le_last, sst_block_entries,
    sst_entries, sst_entries_from, MetaView, SsTable};

verus! {

/// All entries of block `j` keep their keys between the block's recorded
/// boundary keys.
pub proof fn lemma_block_keys_bounded(bytes: Seq<u8>, ms: Seq<MetaView>, mo: int, j: int, e: int)
    requires
        crate::table::span_ok(crate::table::block_span(bytes, ms, mo, j), ms[j].1, ms[j].2),
        0 <= j < ms.len(),
        0 <= e < sst_block_entries(bytes, ms, mo, j).len(),
    ensures
        lex_le(ms[j].1, sst_block_entries(bytes, ms, mo, j)[e].0),
        lex_le(sst_block_entries(bytes, ms, mo, j)[e].0, ms[j].2),
{
    let es = sst_block_entries(bytes, ms, mo, j);
    crate::block::lemma_sorted_pairwise(es, 0, e);
    crate::block::lemma_sorted_pairwise(es, e, es.len() - 1);
}

/// The entries from block `i` onward are a suffix of all entries.
pub proof fn lemma_from_is_suffix(bytes: Seq<u8>, ms: Seq<MetaView>, mo: int, i: int)
    requires
        0 <= i <= ms.len(),
    ensures
        sst_entries_from(bytes, ms, mo, i).len() <= sst_entries_from(bytes, ms, mo, 0).len(),
        sst_entries_from(bytes, ms, mo, i) == sst_entries_from(bytes, ms, mo, 0).skip(
            sst_entries_from(bytes, ms, mo, 0).len() - sst_entries_from(bytes, ms, mo, i).len(),
        ),
    decreases i,
{
    let all = sst_entries_from(bytes, ms, mo, 0);
    if i == 0 {
        assert(all.skip(0) =~= all);
    } else {
        lemma_from_is_suffix(bytes, ms, mo, i - 1);
        let prev = sst_entries_from(bytes, ms, mo, i - 1);
        let cur = sst_entries_from(bytes, ms, mo, i);
        assert(prev == sst_block_entries(bytes, ms, mo, i - 1) + cur);
        assert(prev.skip(prev.len() - cur.len()) =~= cur);
        assert(all.skip(all.len() - cur.len()) =~= prev.skip(prev.len() - cur.len()));
    }
}

/// When every block before `b` stays at or below `k` in key space, every
/// entry of all entries before block `b`'s entries is at most `k`.
pub proof fn lemma_prefix_le(bytes: Seq<u8>, ms: Seq<MetaView>, mo: int, i: int, b: int, k: Seq<u8>)
    requires
        0 <= i <= b <= ms.len(),
        forall|q: int|
            0 <= q < ms.len() ==> crate::table::span_ok(
                #[trigger] crate::table::block_span(bytes, ms, mo, q),
                ms[q].1,
                ms[q].2,
            ),
        forall|q: int| i <= q < b ==> lex_le((#[trigger] ms[q]).2, k),
    ensures
        forall|p: int|
            0 <= p < sst_entries_from(bytes, ms, mo, i).len() - sst_entries_from(
                bytes,
                ms,
                mo,
                b,
            ).len() ==> lex_le((#[trigger] sst_entries_from(bytes, ms, mo, i)[p]).0, k),
    decreases b - i,
{
    if i < b {
        lemma_prefix_le(bytes, ms, mo, i + 1, b, k);
        let here = sst_block_entries(bytes, ms, mo, i);
        let rest = sst_entries_from(bytes, ms, mo, i + 1);
        let from_b = sst_entries_from(bytes, ms, mo, b);
        assert(sst_entries_from(bytes, ms, mo, i) == here + rest);
        lemma_from_is_suffix(bytes, ms, mo, b);
        assert forall|p: int|
            0 <= p < sst_entries_from(bytes, ms, mo, i).len() - from_b.len() implies lex_le(
            (#[trigger] sst_entries_from(bytes, ms, mo, i)[p]).0,
            k,
        ) by {
            if p < here.len() {
                lemma_block_keys_bounded(bytes, ms, mo, i, p);
                lemma_lex_le_trans(here[p].0, ms[i].2, k);
            } else {
                assert(sst_entries_from(bytes, ms, mo, i)[p] == rest[p - here.len()]);
            }
        }
    }
}

/// An iterator over a sorted string table.
pub struct SsTableIterator {
    /// The table being read.
    pub table: Arc<SsTable>,
    /// A cursor inside the currently loaded block.
    pub blk_iter: BlockIterator,
    /// The index of the currently loaded block.
    pub blk_idx: usize,
}

impl SsTableIterator {
    /// The iterator reads a well-formed table, its inner cursor walks the
    /// block it claims to, and an exhausted inner cursor can happen only
    /// on the last block.
    pub open spec fn inv(&self) -> bool {
        &&& self.table.wf()
        &&& self.blk_idx < self.table.metas().len()
        &&& self.blk_iter.inv()
        &&& self.blk_iter.entries() == sst_block_entries(
            self.table.file.data@,
            self.table.metas(),
            self.table.block_meta_offset as int,
            self.blk_idx as int,
        )
        &&& (self.blk_iter.valid() || self.blk_idx == self.table.metas().len() - 1)
    }

    /// The remaining entries, current entry first.
    pub open spec fn entries(&self) -> Seq<EntryView> {
        sst_entries_from(
            self.table.file.data@,
            self.table.metas(),
            self.table.block_meta_offset as int,
            self.blk_idx as int,
        ).skip(self.blk_iter.idx as int)
    }

    /// The iterator points at an entry.
    pub open spec fn valid(&self) -> bool {
        self.blk_iter.valid()
    }

    /// Validity coincides with entries remaining.
    pub proof fn lemma_valid(&self)
        requires
            self.inv(),
        ensures
            self.valid() == (self.entries().len() > 0),
            self.valid() ==> self.entries()[0] == self.blk_iter.entries()[self.blk_iter.idx as int],
    {
        let bytes = self.table.file.data@;
        let ms = self.table.metas();
        let mo = self.table.block_meta_offset as int;
        let b = self.blk_idx as int;
        assert(sst_entries_from(bytes, ms, mo, b) == sst_block_entries(bytes, ms, mo, b)
            + sst_entries_from(bytes, ms, mo, b + 1));
        if !self.blk_iter.valid() {
            assert(b == ms.len() - 1);
            assert(sst_entries_from(bytes, ms, mo, b + 1).len() == 0);
        }
    }

    /// Creates an iterator positioned at the table's first entry.
    pub fn create_and_seek_to_first(table: Arc<SsTable>) -> (r: Result<SsTableIterator, Error>)
        requires
            table.wf(),
        ensures
            r is Ok,
            r matches Ok(it) ==> it.inv() && it.table == table && it.entries() == sst_entries(
                table.file.data@,
            ),
    {
        let blk = match table.read_block(0) {
            Ok(b) => b,
            Err(_) => {
                proof {
                    assert(false);
                }
                return Err(Error::MalformedTable);
            },
        };
        let blk_iter = BlockIterator::create_and_seek_to_first(blk);
        let it = SsTableIterator { table, blk_iter, blk_idx: 0 };
        proof {
            assert(it.entries() =~= sst_entries(it.table.file.data@));
        }
        Ok(it)
    }

    /// Creates an iterator positioned at the smallest entry whose key is
    /// at least `key`; every entry before the position has a key at most
    /// `key`, and the cursor is invalid when the whole table is below
    /// `key`.
    pub fn create_and_seek_to_key(table: Arc<SsTable>, key: &[u8]) -> (r: Result<
        SsTableIterator,
        Error,
    >)
        requires
            table.wf(),
        ensures
            r is Ok,
            r matches Ok(it) ==> {
                let total = sst_entries(table.file.data@);
                &&& it.inv()
                &&& it.table == table
                &&& it.entries() == total.skip(total.len() - it.entries().len())
                &&& forall|i: int|
                    0 <= i < total.len() - it.entries().len() ==> lex_le(
                        (#[trigger] total[i]).0,
                        key@,
                    )
                &&& (it.valid() ==> lex_le(key@, it.entries()[0].0))
            },
    {
        let mut it = match Self::create_and_seek_to_first(table) {
            Ok(it) => it,
            Err(_) => {
                proof {
                    assert(false);
                }
                return Err(Error::MalformedTable);
            },
        };
        it.seek_to_key(key);
        Ok(it)
    }

    /// Repositions the iterator at the smallest entry whose key is at
    /// least `key`, as `create_and_seek_to_key` describes.
    #[verifier::rlimit(100)]
    #[verifier::spinoff_prover]
    pub fn seek_to_key(&mut self, key: &[u8])
        requires
            old(self).inv(),
        ensures
            final(self).inv(),
            final(self).table == old(self).table,
            ({
                let total = sst_entries(old(self).table.file.data@);
                &&& final(self).entries() == total.skip(total.len() - final(self).entries().len())
                &&& forall|i: int|
                    0 <= i < total.len() - final(self).entries().len() ==> lex_le(
                        (#[trigger] total[i]).0,
                        key@,
                    )
                &&& (final(self).valid() ==> lex_le(key@, final(self).entries()[0].0))
            }),
    {
        let ghost bytes = self.table.file.data@;
        let ghost ms = self.table.metas();
        let ghost mo = self.table.block_meta_offset as int;
        let ghost total = sst_entries(bytes);
        let b = self.table.find_block_idx(key);
        let blk = match self.table.read_block(b) {
            Ok(blk) => blk,
            Err(_) => {
                proof {
                    assert(false);
                }
                return ;
            },
        };
        let mut blk_iter = BlockIterator::create_and_seek_to_key(blk, key);
        let mut b = b;
        proof {
            assert forall|m: int| 0 <= m < ms.len() implies lex_le(
                (#[trigger] ms[m]).1,
                ms[m].2,
            ) by {
                lemma_span_first_le_last(
                    crate::table::block_span(bytes, ms, mo, m),
                    ms[m].1,
                    ms[m].2,
                );
            }
            assert forall|q: int| 0 <= q < b implies lex_le((#[trigger] ms[q]).2, key@) by {
                if b > 0 {
                    lemma_meta_keys_ordered(ms, q, b as int);
                    lemma_lex_le_trans(ms[q].2, ms[b as int].1, key@);
                }
            }
        }
        if !blk_iter.is_valid() {
            let nb = self.table.num_of_blocks();
            if b + 1 < nb {
                proof {
                    // Every entry of block b is below the key.
                    assert forall|q: int| 0 <= q < b + 1 implies lex_le(
                        (#[trigger] ms[q]).2,
                        key@,
                    ) by {
                        if q == b {
                            let es = sst_block_entries(bytes, ms, mo, b as int);
                            assert(lex_lt(es[es.len() - 1].0, key@));
                        }
                    }
                }
                b = b + 1;
                let blk2 = match self.table.read_block(b) {
                    Ok(blk) => blk,
                    Err(_) => {
                        proof {
                            assert(false);
                        }
                        return ;
                    },
                };
                blk_iter = BlockIterator::create_and_seek_to_first(blk2);
            }
        }
        self.blk_iter = blk_iter;
        self.blk_idx = b;
        proof {
            lemma_from_is_suffix(bytes, ms, mo, b as int);
            let from_b = sst_entries_from(bytes, ms, mo, b as int);
            let idx = self.blk_iter.idx as int;
            let here = sst_block_entries(bytes, ms, mo, b as int);
            assert(from_b == here + sst_entries_from(bytes, ms, mo, b as int + 1));
            // The final position is a suffix of all entries.
            assert(self.entries() =~= total.skip(total.len() - self.entries().len()));
            // Every skipped entry is at most the key.
            lemma_prefix_le(bytes, ms, mo, 0, b as int, key@);
            assert forall|i: int|
                0 <= i < total.len() - self.entries().len() implies lex_le(
                (#[trigger] total[i]).0,
                key@,
            ) by {
                if i >= total.len() - from_b.len() {
                    let p = i - (total.len() - from_b.len());
                    assert(total[i] == from_b[p]);
                    assert(from_b[p] == here[p]);
                    assert(lex_lt(self.blk_iter.entries()[p].0, key@));
                }
            }
            if self.valid() {
                self.lemma_valid();
            }
        }
    }

    /// The key of the current entry.
    pub fn key(&self) -> (r: Vec<u8>)
        requires
            self.inv(),
            self.valid(),
        ensures
            r@ == self.entries()[0].0,
    {
        proof {
            self.lemma_valid();
        }
        let k = self.blk_iter.key();
        crate::codec::copy_range(k.as_slice(), 0, k.len())
    }

    /// The value of the current entry.
    pub fn value(&self) -> (r: Vec<u8>)
        requires
            self.inv(),
            self.valid(),
        ensures
            r@ == self.entries()[0].1,
    {
        proof {
            self.lemma_valid();
        }
        self.blk_iter.value()
    }

    /// True while the iterator points at an entry.
    pub fn is_valid(&self) -> (r: bool)
        requires
            self.inv(),
        ensures
            r == (self.entries().len() > 0),
    {
        proof {
            self.lemma_valid();
        }
        self.blk_iter.is_valid()
    }

    /// Moves to the next entry, loading the next block when the current
    /// one is exhausted.
    #[verifier::rlimit(100)]
    #[verifier::spinoff_prover]
    pub fn next(&mut self) -> (r: Result<(), Error>)
        requires
            old(self).inv(),
            old(self).valid(),
        ensures
            r is Ok,
            final(self).inv(),
            final(self).table == old(self).table,
            final(self).entries() == old(self).entries().drop_first(),
    {
        let ghost bytes = self.table.file.data@;
        let ghost ms = self.table.metas();
        let ghost mo = self.table.block_meta_offset as int;
        let ghost old_entries = self.entries();
        let ghost b0 = self.blk_idx as int;
        proof {
            assert(sst_entries_from(bytes, ms, mo, b0) == sst_block_entries(bytes, ms, mo, b0)
                + sst_entries_from(bytes, ms, mo, b0 + 1));
        }
        self.blk_iter.next();
        if !self.blk_iter.is_valid() {
            let nb = self.table.num_of_blocks();
            if self.blk_idx + 1 < nb {
                self.blk_idx = self.blk_idx + 1;
                let blk = match self.table.read_block(self.blk_idx) {
                    Ok(blk) => blk,
                    Err(_) => {
                        proof {
                            assert(false);
                        }
                        return Err(Error::MalformedTable);
                    },
                };
                self.blk_iter = BlockIterator::create_and_seek_to_first(blk);
                proof {
                    assert(sst_entries_from(bytes, ms, mo, b0).skip(
                        sst_block_entries(bytes, ms, mo, b0).len() as int,
                    ) =~= sst_entries_from(bytes, ms, mo, b0 + 1));
                    assert(self.entries() =~= old_entries.drop_first());
                }
                return Ok(());
            }
        }
        proof {
            assert(self.entries() =~= old_entries.drop_first());
        }
        Ok(())
    }
}

} // verus!
