//! Streams sorted key-value pairs into blocks, closes each block when the
//! next entry would not fit, and finalizes the whole table file: the
//! encoded blocks, the meta section describing them, and the footer naming
//! where the meta section starts.

use vstd::prelude::*;

use crate::block::{block_entries, block_wf, entries_bytes, entries_offsets, entries_sorted,
    entry_view_wf, lemma_block_round_trip, EntryView};
use crate::block_builder::BlockBuilder;
use crate::codec::{append_slice, copy_range, put_u32, u32_be};
use crate::keys::lex_le;
use crate::table::{block_end_off, block_span, cross_ok, lemma_meta_section_round_trip,
    parse_meta_section,
    meta_section_bytes, meta_wf, metas_bounds_ok, metas_view, sst_block_entries, sst_entries,
    sst_entries_from, sst_meta_off_of, sst_metas, sst_valid, span_ok, BlockMeta, FileObject,
    MetaView, SsTable};

verus! {

/// The disk bytes of one finalized block.
pub open spec fn one_block_bytes(b: Seq<EntryView>) -> Seq<u8> {
    crate::block::block_bytes(entries_bytes(b), entries_offsets(b))
}

/// The concatenated disk bytes of a run of finalized blocks.
pub open spec fn blocks_bytes(bs: Seq<Seq<EntryView>>) -> Seq<u8>
    decreases bs.len(),
{
    if bs.len() == 0 {
        Seq::empty()
    } else {
        one_block_bytes(bs[0]) + blocks_bytes(bs.drop_first())
    }
}

/// Appending a block appends its bytes.
pub proof fn lemma_blocks_bytes_push(bs: Seq<Seq<EntryView>>, b: Seq<EntryView>)
    ensures
        blocks_bytes(bs.push(b)) == blocks_bytes(bs) + one_block_bytes(b),
    decreases bs.len(),
{
    let s = bs.push(b);
    if bs.len() == 0 {
        assert(s[0] == b);
        assert(s.drop_first() =~= Seq::<Seq<EntryView>>::empty());
        assert(blocks_bytes(s) == one_block_bytes(b) + blocks_bytes(s.drop_first()));
        assert(blocks_bytes(s.drop_first()) == Seq::<u8>::empty());
        assert(blocks_bytes(s) =~= blocks_bytes(bs) + one_block_bytes(b));
    } else {
        assert(s[0] == bs[0]);
        assert(s.drop_first() =~= bs.drop_first().push(b));
        lemma_blocks_bytes_push(bs.drop_first(), b);
        assert(blocks_bytes(s) =~= blocks_bytes(bs) + one_block_bytes(b));
    }
}

/// The bytes of a run of blocks split at any block boundary.
pub proof fn lemma_blocks_bytes_split(bs: Seq<Seq<EntryView>>, j: int)
    requires
        0 <= j <= bs.len(),
    ensures
        blocks_bytes(bs) == blocks_bytes(bs.take(j)) + blocks_bytes(bs.skip(j)),
    decreases j,
{
    if j == 0 {
        assert(bs.take(0) =~= Seq::<Seq<EntryView>>::empty());
        assert(bs.skip(0) =~= bs);
        assert(blocks_bytes(bs) =~= blocks_bytes(bs.take(0)) + blocks_bytes(bs.skip(0)));
    } else {
        assert(bs.len() > 0);
        lemma_blocks_bytes_split(bs.drop_first(), j - 1);
        assert(bs.take(j)[0] == bs[0]);
        assert(bs.take(j).drop_first() =~= bs.drop_first().take(j - 1));
        assert(bs.skip(j) =~= bs.drop_first().skip(j - 1));
        assert(blocks_bytes(bs.take(j)) == one_block_bytes(bs[0]) + blocks_bytes(
            bs.drop_first().take(j - 1),
        ));
        assert(blocks_bytes(bs) =~= blocks_bytes(bs.take(j)) + blocks_bytes(bs.skip(j)));
    }
}

/// All entries of a run of finalized blocks, in order.
pub open spec fn cat_blocks(bs: Seq<Seq<EntryView>>) -> Seq<EntryView>
    decreases bs.len(),
{
    if bs.len() == 0 {
        Seq::empty()
    } else {
        bs[0] + cat_blocks(bs.drop_first())
    }
}

/// Appending a block appends its entries.
pub proof fn lemma_cat_blocks_push(bs: Seq<Seq<EntryView>>, b: Seq<EntryView>)
    ensures
        cat_blocks(bs.push(b)) == cat_blocks(bs) + b,
    decreases bs.len(),
{
    let s = bs.push(b);
    if bs.len() == 0 {
        assert(s[0] == b);
        assert(s.drop_first() =~= Seq::<Seq<EntryView>>::empty());
        assert(cat_blocks(s) == b + cat_blocks(s.drop_first()));
        assert(cat_blocks(s.drop_first()) == Seq::<EntryView>::empty());
        assert(cat_blocks(s) =~= cat_blocks(bs) + b);
    } else {
        assert(s[0] == bs[0]);
        assert(s.drop_first() =~= bs.drop_first().push(b));
        lemma_cat_blocks_push(bs.drop_first(), b);
        assert(cat_blocks(s) =~= cat_blocks(bs) + b);
    }
}

/// Builds a sorted string table from key-value pairs fed in non-decreasing
/// key order.
pub struct SsTableBuilder {
    /// The block under construction.
    pub builder: BlockBuilder,
    /// The first key of the block under construction.
    pub first_key: Vec<u8>,
    /// The last key added so far.
    pub last_key: Vec<u8>,
    /// The encoded finalized blocks.
    pub data: Vec<u8>,
    /// One descriptor per finalized block.
    pub meta: Vec<BlockMeta>,
    /// The byte budget for each block.
    pub block_size: usize,
    /// The entries of each finalized block.
    pub blocks: Ghost<Seq<Seq<EntryView>>>,
}

impl SsTableBuilder {
    /// All entries added so far, in order.
    pub open spec fn all_entries(&self) -> Seq<EntryView> {
        cat_blocks(self.blocks@) + self.builder.entries()
    }

    /// The builder's state is internally consistent: the data buffer holds
    /// exactly the encoded finalized blocks, the meta records describe
    /// them, every block is sorted and non-empty, blocks do not overlap in
    /// key space, and the key trackers are faithful.
    pub open spec fn wf(&self) -> bool {
        &&& self.builder.wf()
        &&& self.builder.block_size_spec() == self.block_size
        &&& self.block_size <= 0xFFFF
        &&& self.data@ == blocks_bytes(self.blocks@)
        &&& self.meta@.len() == self.blocks@.len()
        &&& 4 * self.meta@.len() <= self.data@.len()
        &&& forall|j: int|
            0 <= j < self.blocks@.len() ==> {
                let b = #[trigger] self.blocks@[j];
                &&& b.len() >= 1
                &&& b.len() <= 0xFFFF
                &&& entries_sorted(b)
                &&& (forall|e: int| 0 <= e < b.len() ==> entry_view_wf(#[trigger] b[e]))
                &&& block_entries(entries_bytes(b), entries_offsets(b)) == b
                &&& block_wf(entries_bytes(b), entries_offsets(b))
            }
        &&& forall|j: int|
            0 <= j < self.meta@.len() ==> (#[trigger] metas_view(self.meta@)[j]) == (
                blocks_bytes(self.blocks@.take(j)).len() as int,
                self.blocks@[j][0].0,
                self.blocks@[j][self.blocks@[j].len() - 1].0,
            )
        &&& forall|j: int|
            0 <= j < self.blocks@.len() - 1 ==> lex_le(
                (#[trigger] self.blocks@[j])[self.blocks@[j].len() - 1].0,
                self.blocks@[j + 1][0].0,
            )
        &&& (self.blocks@.len() > 0 && self.builder.entries().len() > 0 ==> lex_le(
            self.blocks@[self.blocks@.len() - 1][self.blocks@[self.blocks@.len() - 1].len()
                - 1].0,
            self.builder.entries()[0].0,
        ))
        &&& entries_sorted(self.builder.entries())
        &&& (self.builder.entries().len() > 0 ==> self.first_key@ == self.builder.entries()[0].0)
        &&& self.last_key@ == if self.builder.entries().len() > 0 {
            self.builder.entries()[self.builder.entries().len() - 1].0
        } else if self.blocks@.len() > 0 {
            self.blocks@[self.blocks@.len() - 1][self.blocks@[self.blocks@.len() - 1].len() - 1].0
        } else {
            Seq::<u8>::empty()
        }
    }

    /// Creates a builder with the given per-block byte budget.
    pub fn new(block_size: usize) -> (r: SsTableBuilder)
        requires
            block_size <= 0xFFFF,
        ensures
            r.wf(),
            r.all_entries() == Seq::<EntryView>::empty(),
            r.block_size == block_size,
    {
        let r = SsTableBuilder {
            builder: BlockBuilder::new(block_size),
            first_key: Vec::new(),
            last_key: Vec::new(),
            data: Vec::new(),
            meta: Vec::new(),
            block_size,
            blocks: Ghost(Seq::empty()),
        };
        proof {
            assert(blocks_bytes(r.blocks@) =~= Seq::<u8>::empty());
            assert(metas_view(r.meta@) =~= Seq::<MetaView>::empty());
            assert(r.all_entries() =~= Seq::<EntryView>::empty());
        }
        r
    }

    /// Closes the block under construction: records its descriptor and
    /// appends its encoded bytes to the data buffer.
    #[verifier::rlimit(100)]
    #[verifier::spinoff_prover]
    fn finalize_block(&mut self)
        requires
            old(self).wf(),
            old(self).builder.entries().len() >= 1,
            old(self).data@.len() + 0x50000 <= u32::MAX,
        ensures
            final(self).wf(),
            final(self).blocks@ == old(self).blocks@.push(old(self).builder.entries()),
            final(self).builder.entries().len() == 0,
            final(self).all_entries() == old(self).all_entries(),
            final(self).block_size == old(self).block_size,
            final(self).last_key@ == old(self).last_key@,
            old(self).data@.len() <= final(self).data@.len() <= old(self).data@.len() + 0x50000,
            metas_view(final(self).meta@) == metas_view(old(self).meta@).push(
                (
                    old(self).data@.len() as int,
                    old(self).builder.entries()[0].0,
                    old(self).builder.entries()[old(self).builder.entries().len() - 1].0,
                ),
            ),
    {
        let ghost b = self.builder.entries();
        let mut full = BlockBuilder::new(self.block_size);
        core::mem::swap(&mut self.builder, &mut full);
        let off = self.data.len();
        let m = BlockMeta {
            offset: off,
            first_key: copy_range(self.first_key.as_slice(), 0, self.first_key.len()),
            last_key: copy_range(self.last_key.as_slice(), 0, self.last_key.len()),
        };
        proof {
            assert(m.first_key@ =~= b[0].0);
            assert(m.last_key@ =~= b[b.len() - 1].0);
        }
        self.meta.push(m);
        let block = full.build();
        let encoded = block.encode();
        proof {
            crate::block::lemma_offsets_bytes_len(entries_offsets(b));
            assert(entries_offsets(b).len() == b.len());
            assert(encoded@.len() == entries_bytes(b).len() + 2 * b.len() + 2);
            assert(b.len() <= 0xFFFF);
            assert(entries_bytes(b).len() <= 0x2_0002);
        }
        append_slice(&mut self.data, encoded.as_slice());
        proof {
            self.blocks@ = old(self).blocks@.push(b);
            lemma_blocks_bytes_push(old(self).blocks@, b);
            assert(self.data@ =~= blocks_bytes(self.blocks@));
            lemma_cat_blocks_push(old(self).blocks@, b);
            assert(self.all_entries() =~= old(self).all_entries());
            assert forall|j: int| 0 <= j < self.meta@.len() implies (#[trigger] metas_view(
                self.meta@,
            )[j]) == (
                blocks_bytes(self.blocks@.take(j)).len() as int,
                self.blocks@[j][0].0,
                self.blocks@[j][self.blocks@[j].len() - 1].0,
            ) by {
                if j < old(self).meta@.len() {
                    assert(metas_view(old(self).meta@)[j] == (
                        blocks_bytes(old(self).blocks@.take(j)).len() as int,
                        old(self).blocks@[j][0].0,
                        old(self).blocks@[j][old(self).blocks@[j].len() - 1].0,
                    ));
                    assert(self.blocks@.take(j) =~= old(self).blocks@.take(j));
                    assert(self.blocks@[j] == old(self).blocks@[j]);
                    assert(metas_view(self.meta@)[j] == metas_view(old(self).meta@)[j]);
                } else {
                    assert(self.blocks@.take(j) =~= old(self).blocks@);
                    assert(self.blocks@[j] == b);
                }
            }
            assert forall|q: int| 0 <= q < self.meta@.len() implies metas_view(self.meta@)[q]
                == metas_view(old(self).meta@).push(
                (off as int, b[0].0, b[b.len() - 1].0),
            )[q] by {
                if q < old(self).meta@.len() {
                    assert(self.meta@[q] == old(self).meta@[q]);
                } else {
                    assert(self.meta@[q] == m);
                }
            }
            assert(metas_view(self.meta@) =~= metas_view(old(self).meta@).push(
                (off as int, b[0].0, b[b.len() - 1].0),
            ));
        }
    }

    /// Adds a key-value pair. Keys must arrive in non-decreasing order.
    /// An entry that fits stays in the open block and nothing is finalized;
    /// one that does not closes the open block — appending exactly one
    /// descriptor for it — and opens a fresh block with this entry, which
    /// the first-entry rule guarantees is accepted.
    pub fn add(&mut self, key: &[u8], value: &[u8])
        requires
            old(self).wf(),
            1 <= key@.len() <= 0xFFFF,
            value@.len() <= 0xFFFF,
            lex_le(old(self).last_key@, key@),
            old(self).data@.len() + 0x50000 <= u32::MAX,
        ensures
            final(self).wf(),
            final(self).all_entries() == old(self).all_entries().push((key@, value@)),
            final(self).block_size == old(self).block_size,
            final(self).last_key@ == key@,
            old(self).data@.len() <= final(self).data@.len() <= old(self).data@.len() + 0x50000,
            old(self).builder.fits(key@.len() as int, value@.len() as int) ==> {
                &&& final(self).meta@ == old(self).meta@
                &&& final(self).blocks@ == old(self).blocks@
                &&& final(self).data@ == old(self).data@
                &&& final(self).builder.entries() == old(self).builder.entries().push(
                    (key@, value@),
                )
            },
            !old(self).builder.fits(key@.len() as int, value@.len() as int) ==> {
                &&& final(self).blocks@ == old(self).blocks@.push(old(self).builder.entries())
                &&& metas_view(final(self).meta@) == metas_view(old(self).meta@).push(
                    (
                        old(self).data@.len() as int,
                        old(self).builder.entries()[0].0,
                        old(self).builder.entries()[old(self).builder.entries().len() - 1].0,
                    ),
                )
                &&& final(self).builder.entries() == seq![(key@, value@)]
            },
    {
        let ghost old_builder_entries = self.builder.entries();
        let was_empty = self.builder.is_empty();
        if self.builder.add(key, value) {
            if was_empty {
                self.first_key = copy_range(key, 0, key.len());
            }
            self.last_key = copy_range(key, 0, key.len());
            proof {
                assert(self.first_key@ =~= self.builder.entries()[0].0);
                assert(self.last_key@ =~= key@);
                assert forall|j: int|
                    0 <= j < self.builder.entries().len() - 1 implies lex_le(
                    (#[trigger] self.builder.entries()[j]).0,
                    self.builder.entries()[j + 1].0,
                ) by {
                    if j < old_builder_entries.len() - 1 {
                        assert(lex_le(old_builder_entries[j].0, old_builder_entries[j + 1].0));
                    } else {
                        if old_builder_entries.len() > 0 {
                            assert(self.builder.entries()[j].0 == old(self).last_key@);
                        }
                    }
                }
                assert(self.all_entries() =~= old(self).all_entries().push((key@, value@)));
            }
        } else {
            self.finalize_block();
            let ok = self.builder.add(key, value);
            proof {
                assert(ok);
            }
            self.first_key = copy_range(key, 0, key.len());
            self.last_key = copy_range(key, 0, key.len());
            proof {
                assert(self.first_key@ =~= key@);
                assert(self.last_key@ =~= key@);
                assert(self.builder.entries() =~= Seq::<EntryView>::empty().push((key@, value@)));
                assert(self.builder.entries().len() == 1);
                lemma_cat_blocks_push(old(self).blocks@, old_builder_entries);
                assert(self.all_entries() =~= old(self).all_entries().push((key@, value@)));
            }
        }
    }

    /// The accumulated size of the finalized data blocks: a lower bound on
    /// the final file size.
    pub fn estimated_size(&self) -> (r: usize)
        ensures
            r == self.data@.len(),
    {
        self.data.len()
    }

    /// Closes the block under construction if it holds anything.
    fn finish_trailing(&mut self)
        requires
            old(self).wf(),
            old(self).data@.len() + 0x50000 <= u32::MAX,
        ensures
            final(self).wf(),
            final(self).builder.entries().len() == 0,
            final(self).all_entries() == old(self).all_entries(),
            final(self).block_size == old(self).block_size,
            final(self).data@.len() <= old(self).data@.len() + 0x50000,
    {
        if !self.builder.is_empty() {
            self.finalize_block();
        } else {
            proof {
                assert(self.all_entries() =~= cat_blocks(self.blocks@));
            }
        }
    }

    /// Finalizes the trailing block, serializes the meta section and the
    /// footer, and returns the opened table. The added entries come back
    /// out unchanged: the table's entries are exactly those fed in, and
    /// its boundary keys are the first and last of them.
    #[verifier::rlimit(100)]
    #[verifier::spinoff_prover]
    pub fn build(self, id: usize) -> (t: SsTable)
        requires
            self.wf(),
            self.all_entries().len() > 0,
            self.data@.len() + 0x50000 <= u32::MAX,
        ensures
            t.wf(),
            t.entries() == self.all_entries(),
            t.id == id,
            t.max_ts == 0,
            t.first_key@ == self.all_entries()[0].0,
            t.last_key@ == self.all_entries()[self.all_entries().len() - 1].0,
            t.block_meta@.len() >= 1,
    {
        let mut s = self;
        s.finish_trailing();
        let ghost blocks = s.blocks@;
        let ghost ms = metas_view(s.meta@);
        let ghost all = self.all_entries();
        proof {
            assert(s.all_entries() =~= cat_blocks(blocks));
            assert(cat_blocks(blocks) == all);
            assert(blocks.len() >= 1);
        }
        let t = assemble_table(s.data, s.meta, Ghost(blocks), id);
        proof {
            assert(all[0] == blocks[0][0]);
            assert(ms[0].1 == blocks[0][0].0);
            assert(blocks =~= blocks.drop_last().push(blocks.last()));
            lemma_cat_blocks_push(blocks.drop_last(), blocks.last());
            assert(all[all.len() - 1] == blocks[blocks.len() - 1][blocks[blocks.len() - 1].len()
                - 1]);
        }
        t
    }
}

/// Serializes the meta section and footer behind finalized blocks and
/// opens the result in memory.
#[verifier::rlimit(100)]
#[verifier::spinoff_prover]
fn assemble_table(
    data: Vec<u8>,
    meta: Vec<BlockMeta>,
    Ghost(blocks): Ghost<Seq<Seq<EntryView>>>,
    id: usize,
) -> (t: SsTable)
    requires
        data@ == blocks_bytes(blocks),
        meta@.len() == blocks.len(),
        blocks.len() >= 1,
        4 * meta@.len() <= data@.len(),
        data@.len() <= u32::MAX,
        forall|q: int|
            0 <= q < meta@.len() ==> (#[trigger] metas_view(meta@)[q]) == (
                blocks_bytes(blocks.take(q)).len() as int,
                blocks[q][0].0,
                blocks[q][blocks[q].len() - 1].0,
            ),
        forall|j: int|
            0 <= j < blocks.len() ==> {
                let b = #[trigger] blocks[j];
                &&& b.len() >= 1
                &&& b.len() <= 0xFFFF
                &&& entries_sorted(b)
                &&& (forall|e: int| 0 <= e < b.len() ==> entry_view_wf(#[trigger] b[e]))
                &&& block_entries(entries_bytes(b), entries_offsets(b)) == b
                &&& block_wf(entries_bytes(b), entries_offsets(b))
            },
        forall|j: int|
            0 <= j < blocks.len() - 1 ==> lex_le(
                (#[trigger] blocks[j])[blocks[j].len() - 1].0,
                blocks[j + 1][0].0,
            ),
    ensures
        t.wf(),
        t.entries() == cat_blocks(blocks),
        t.id == id,
        t.max_ts == 0,
        t.first_key@ == metas_view(meta@)[0].1,
        t.last_key@ == metas_view(meta@)[meta@.len() - 1].2,
        t.block_meta@.len() == meta@.len(),
{
    let ghost ms = metas_view(meta@);
    let meta_offset = data.len();
    let mut buffer = data;
    proof {
        assert forall|j: int| 0 <= j < meta@.len() implies meta_wf(#[trigger] meta@[j]) by {
            assert(ms[j] == (
                blocks_bytes(blocks.take(j)).len() as int,
                blocks[j][0].0,
                blocks[j][blocks[j].len() - 1].0,
            ));
            lemma_blocks_bytes_split(blocks, j);
            assert(blocks_bytes(blocks.take(j)).len() <= blocks_bytes(blocks).len());
            assert(entry_view_wf(blocks[j][0]));
            assert(entry_view_wf(blocks[j][blocks[j].len() - 1]));
        }
    }
    BlockMeta::encode_block_meta(&meta, &mut buffer);
    put_u32(&mut buffer, meta_offset as u32);
    let ghost bytes = buffer@;
    let ghost mo = meta_offset as int;
    proof {
        assert(bytes == blocks_bytes(blocks) + meta_section_bytes(ms) + u32_be(
            meta_offset as u32,
        ));
        lemma_built_bytes_valid(bytes, ms, mo, blocks);
    }
    let n = meta.len();
    let fk = copy_range(meta[0].first_key.as_slice(), 0, meta[0].first_key.len());
    let lk = copy_range(meta[n - 1].last_key.as_slice(), 0, meta[n - 1].last_key.len());
    proof {
        assert(fk@ =~= ms[0].1);
        assert(lk@ =~= ms[n - 1].2);
    }
    let file = FileObject::create(buffer);
    SsTable {
        file,
        block_meta: meta,
        block_meta_offset: meta_offset,
        id,
        first_key: fk,
        last_key: lk,
        max_ts: 0,
    }
}

/// Bytes assembled from encoded blocks, their meta section, and the footer
/// carry that meta offset and parse back to those records.
#[verifier::rlimit(100)]
#[verifier::spinoff_prover]
pub proof fn lemma_built_footer(
    bytes: Seq<u8>,
    ms: Seq<MetaView>,
    mo: int,
    blocks: Seq<Seq<EntryView>>,
)
    requires
        bytes == blocks_bytes(blocks) + meta_section_bytes(ms) + u32_be(mo as u32),
        mo == blocks_bytes(blocks).len(),
        0 <= mo <= u32::MAX,
        ms.len() == blocks.len(),
        blocks.len() >= 1,
        ms.len() <= u32::MAX,
        forall|q: int|
            0 <= q < ms.len() ==> (#[trigger] ms[q]) == (
                blocks_bytes(blocks.take(q)).len() as int,
                blocks[q][0].0,
                blocks[q][blocks[q].len() - 1].0,
            ),
        forall|j: int|
            0 <= j < blocks.len() ==> {
                let b = #[trigger] blocks[j];
                &&& b.len() >= 1
                &&& b.len() <= 0xFFFF
                &&& (forall|e: int| 0 <= e < b.len() ==> entry_view_wf(#[trigger] b[e]))
            },
    ensures
        sst_meta_off_of(bytes) == mo,
        mo + 4 <= bytes.len(),
        sst_metas(bytes) == ms,
        parse_meta_section(bytes.subrange(mo, bytes.len() - 4)) is Some,
{
    crate::codec::lemma_u32_be_inverse(mo as u32);
    assert(bytes[bytes.len() - 4] == u32_be(mo as u32)[0]);
    assert(bytes[bytes.len() - 3] == u32_be(mo as u32)[1]);
    assert(bytes[bytes.len() - 2] == u32_be(mo as u32)[2]);
    assert(bytes[bytes.len() - 1] == u32_be(mo as u32)[3]);
    assert(sst_meta_off_of(bytes) == mo);
    assert(bytes.subrange(mo, bytes.len() - 4) =~= meta_section_bytes(ms));
    assert forall|i: int|
        0 <= i < ms.len() implies 0 <= (#[trigger] ms[i]).0 <= u32::MAX && ms[i].1.len() <= 0xFFFF
        && ms[i].2.len() <= 0xFFFF by {
        lemma_blocks_bytes_split(blocks, i);
        assert(blocks_bytes(blocks.take(i)).len() <= blocks_bytes(blocks).len());
        assert(entry_view_wf(blocks[i][0]));
        assert(entry_view_wf(blocks[i][blocks[i].len() - 1]));
    }
    lemma_meta_section_round_trip(ms);
}

/// Blocks recorded at their prefix lengths tile the data region in order.
#[verifier::rlimit(100)]
#[verifier::spinoff_prover]
pub proof fn lemma_built_bounds(ms: Seq<MetaView>, mo: int, blocks: Seq<Seq<EntryView>>)
    requires
        mo == blocks_bytes(blocks).len(),
        ms.len() == blocks.len(),
        blocks.len() >= 1,
        forall|q: int|
            0 <= q < ms.len() ==> (#[trigger] ms[q]) == (
                blocks_bytes(blocks.take(q)).len() as int,
                blocks[q][0].0,
                blocks[q][blocks[q].len() - 1].0,
            ),
        forall|j: int| 0 <= j < blocks.len() ==> (#[trigger] blocks[j]).len() >= 1,
    ensures
        metas_bounds_ok(ms, mo),
{
    assert forall|j: int| 0 <= j < ms.len() - 1 implies (#[trigger] ms[j]).0 < ms[j + 1].0 by {
        assert(blocks.take(j + 1) =~= blocks.take(j).push(blocks[j]));
        lemma_blocks_bytes_push(blocks.take(j), blocks[j]);
    }
    assert(blocks.take(ms.len() - 1 + 1) =~= blocks.take(ms.len() - 1).push(blocks[ms.len() - 1]));
    lemma_blocks_bytes_push(blocks.take(ms.len() - 1), blocks[ms.len() - 1]);
    assert(blocks.take(ms.len() as int) =~= blocks);
    assert(ms[ms.len() - 1].0 < mo);
}

/// Bytes assembled from encoded blocks, their meta section, and the footer
/// form a well-formed table whose entries are the blocks' entries.
#[verifier::rlimit(100)]
#[verifier::spinoff_prover]
pub proof fn lemma_built_bytes_valid(
    bytes: Seq<u8>,
    ms: Seq<MetaView>,
    mo: int,
    blocks: Seq<Seq<EntryView>>,
)
    requires
        bytes == blocks_bytes(blocks) + meta_section_bytes(ms) + u32_be(mo as u32),
        mo == blocks_bytes(blocks).len(),
        0 <= mo <= u32::MAX,
        ms.len() == blocks.len(),
        blocks.len() >= 1,
        ms.len() <= u32::MAX,
        forall|q: int|
            0 <= q < ms.len() ==> (#[trigger] ms[q]) == (
                blocks_bytes(blocks.take(q)).len() as int,
                blocks[q][0].0,
                blocks[q][blocks[q].len() - 1].0,
            ),
        forall|j: int|
            0 <= j < blocks.len() ==> {
                let b = #[trigger] blocks[j];
                &&& b.len() >= 1
                &&& b.len() <= 0xFFFF
                &&& entries_sorted(b)
                &&& (forall|e: int| 0 <= e < b.len() ==> entry_view_wf(#[trigger] b[e]))
                &&& block_entries(entries_bytes(b), entries_offsets(b)) == b
                &&& block_wf(entries_bytes(b), entries_offsets(b))
            },
        forall|j: int|
            0 <= j < blocks.len() - 1 ==> lex_le(
                (#[trigger] blocks[j])[blocks[j].len() - 1].0,
                blocks[j + 1][0].0,
            ),
    ensures
        sst_valid(bytes),
        sst_metas(bytes) == ms,
        sst_meta_off_of(bytes) == mo,
        sst_entries(bytes) == cat_blocks(blocks),
{
    lemma_built_footer(bytes, ms, mo, blocks);
    lemma_built_bounds(ms, mo, blocks);
    assert(cross_ok(ms));
    assert(bytes.subrange(0, mo) =~= blocks_bytes(blocks));
    assert forall|j: int| 0 <= j < ms.len() implies span_ok(
        #[trigger] block_span(bytes, ms, mo, j),
        ms[j].1,
        ms[j].2,
    ) && sst_block_entries(bytes, ms, mo, j) == blocks[j] by {
        lemma_span_is_block(bytes, ms, mo, blocks, j);
        lemma_block_round_trip(entries_bytes(blocks[j]), entries_offsets(blocks[j]));
        assert(entries_offsets(blocks[j]).len() == blocks[j].len());
    }
    assert(sst_valid(bytes));
    lemma_entries_from(bytes, ms, mo, blocks, 0);
    assert(blocks.skip(0) =~= blocks);
    assert(sst_entries(bytes) == cat_blocks(blocks));
}

/// The span recorded for block `j` cuts exactly that block's bytes out of
/// the file.
pub proof fn lemma_span_is_block(
    bytes: Seq<u8>,
    ms: Seq<MetaView>,
    mo: int,
    blocks: Seq<Seq<EntryView>>,
    j: int,
)
    requires
        ms.len() == blocks.len(),
        0 <= j < blocks.len(),
        forall|q: int|
            0 <= q < ms.len() ==> (#[trigger] ms[q]).0 == blocks_bytes(blocks.take(q)).len(),
        mo == blocks_bytes(blocks).len(),
        bytes.len() >= mo,
        bytes.subrange(0, mo) == blocks_bytes(blocks),
    ensures
        block_span(bytes, ms, mo, j) == one_block_bytes(blocks[j]),
{
    lemma_blocks_bytes_split(blocks, j);
    assert(blocks.skip(j)[0] == blocks[j]);
    assert(blocks.skip(j).drop_first() =~= blocks.skip(j + 1));
    assert(blocks_bytes(blocks.skip(j)) == one_block_bytes(blocks[j]) + blocks_bytes(
        blocks.skip(j + 1),
    ));
    assert(blocks.take(j + 1) =~= blocks.take(j).push(blocks[j]));
    lemma_blocks_bytes_push(blocks.take(j), blocks[j]);
    let start = ms[j].0;
    let end = block_end_off(ms, mo, j);
    assert(end == blocks_bytes(blocks.take(j + 1)).len()) by {
        if j + 1 < ms.len() {
        } else {
            assert(blocks.take(j + 1) =~= blocks);
        }
    }
    assert(end == start + one_block_bytes(blocks[j]).len());
    assert forall|p: int| 0 <= p < one_block_bytes(blocks[j]).len() implies bytes[start + p]
        == one_block_bytes(blocks[j])[p] by {
        assert(bytes[start + p] == bytes.subrange(0, mo)[start + p]);
        assert(blocks_bytes(blocks)[start + p] == blocks_bytes(blocks.skip(j))[p]);
    }
    assert(block_span(bytes, ms, mo, j) =~= one_block_bytes(blocks[j]));
}

/// The entries of a file whose blocks are `blocks`, taken from block `i`
/// onward, are the concatenation of those blocks' entries.
pub proof fn lemma_entries_from(
    bytes: Seq<u8>,
    ms: Seq<MetaView>,
    mo: int,
    blocks: Seq<Seq<EntryView>>,
    i: int,
)
    requires
        ms.len() == blocks.len(),
        0 <= i <= blocks.len(),
        forall|j: int|
            0 <= j < ms.len() ==> #[trigger] sst_block_entries(bytes, ms, mo, j) == blocks[j],
    ensures
        sst_entries_from(bytes, ms, mo, i) == cat_blocks(blocks.skip(i)),
    decreases blocks.len() - i,
{
    if i >= blocks.len() {
        assert(blocks.skip(i) =~= Seq::<Seq<EntryView>>::empty());
    } else {
        lemma_entries_from(bytes, ms, mo, blocks, i + 1);
        assert(blocks.skip(i)[0] == blocks[i]);
        assert(blocks.skip(i).drop_first() =~= blocks.skip(i + 1));
        assert(cat_blocks(blocks.skip(i)) == blocks[i] + cat_blocks(blocks.skip(i + 1)));
        assert(sst_entries_from(bytes, ms, mo, i) =~= cat_blocks(blocks.skip(i)));
    }
}

} // verus!
