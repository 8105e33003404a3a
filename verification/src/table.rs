//! The sorted string table: an immutable file of blocks, a decoded
//! per-block meta index held in memory, and the footer that ties them
//! together. The file layout is
//! `[ block 0 ] ... [ block N-1 ][ meta section ][ u32 meta_offset ]`,
//! where the meta section is a `u32` count followed by one encoded
//! `BlockMeta` per block.

use vstd::prelude::*;

use crate::block::{block_decode_data, block_decode_offsets, block_decode_wf, block_entries,
    block_wf, entries_sorted, Block, EntryView};
use crate::codec::{be_u16, be_u32, copy_range, get_u16_at, get_u32_at, lemma_u16_be_inverse,
    lemma_u32_be_inverse, put_u16, put_u32, u16_be, u32_be};
use crate::iterators::Error;
use crate::keys::{key_eq, key_le, lex_le, lex_lt};

verus! {

/// Per-block descriptor persisted in the table footer.
#[derive(Debug)]
pub struct BlockMeta {
    /// Offset of this data block within the file's data region.
    pub offset: usize,
    /// The first key of the data block.
    pub first_key: Vec<u8>,
    /// The last key of the data block.
    pub last_key: Vec<u8>,
}

/// A meta record whose fields fit the on-disk fields.
pub open spec fn meta_wf(m: BlockMeta) -> bool {
    &&& m.offset <= u32::MAX
    &&& 1 <= m.first_key@.len() <= 0xFFFF
    &&& 1 <= m.last_key@.len() <= 0xFFFF
}

/// The specification view of a meta record: offset, first key, last key.
pub type MetaView = (int, Seq<u8>, Seq<u8>);

/// The views of a run of meta records.
pub open spec fn metas_view(ms: Seq<BlockMeta>) -> Seq<MetaView> {
    Seq::new(ms.len(), |i: int| (ms[i].offset as int, ms[i].first_key@, ms[i].last_key@))
}

/// Byte encoding of one meta record:
/// `u32 offset || u16 first_key_len || first_key || u16 last_key_len || last_key`.
pub open spec fn meta_record_bytes(m: MetaView) -> Seq<u8> {
    u32_be(m.0 as u32) + u16_be(m.1.len() as u16) + m.1 + u16_be(m.2.len() as u16) + m.2
}

/// Byte encoding of a run of meta records, in order.
pub open spec fn meta_records_bytes(ms: Seq<MetaView>) -> Seq<u8>
    decreases ms.len(),
{
    if ms.len() == 0 {
        Seq::empty()
    } else {
        meta_record_bytes(ms[0]) + meta_records_bytes(ms.drop_first())
    }
}

/// Appending a record appends its bytes.
pub proof fn lemma_meta_records_bytes_push(ms: Seq<MetaView>, m: MetaView)
    ensures
        meta_records_bytes(ms.push(m)) == meta_records_bytes(ms) + meta_record_bytes(m),
    decreases ms.len(),
{
    let s = ms.push(m);
    if ms.len() == 0 {
        assert(s[0] == m);
        assert(s.drop_first() =~= Seq::<MetaView>::empty());
        assert(meta_records_bytes(s) == meta_record_bytes(m) + meta_records_bytes(s.drop_first()));
        assert(meta_records_bytes(s) =~= meta_records_bytes(ms) + meta_record_bytes(m));
    } else {
        assert(s[0] == ms[0]);
        assert(s.drop_first() =~= ms.drop_first().push(m));
        lemma_meta_records_bytes_push(ms.drop_first(), m);
        assert(meta_records_bytes(s) == meta_record_bytes(ms[0]) + meta_records_bytes(
            s.drop_first(),
        ));
        assert(meta_records_bytes(ms) == meta_record_bytes(ms[0]) + meta_records_bytes(
            ms.drop_first(),
        ));
        assert(meta_records_bytes(s) =~= meta_records_bytes(ms) + meta_record_bytes(m));
    }
}

/// The whole meta section: a `u32` count, then the records.
pub open spec fn meta_section_bytes(ms: Seq<MetaView>) -> Seq<u8> {
    u32_be(ms.len() as u32) + meta_records_bytes(ms)
}

/// Parses `n` meta records that must consume `b` exactly.
pub open spec fn parse_meta_records(b: Seq<u8>, n: nat) -> Option<Seq<MetaView>>
    decreases n,
{
    if n == 0 {
        if b.len() == 0 {
            Some(Seq::empty())
        } else {
            None
        }
    } else if b.len() < 8 {
        None
    } else {
        let off = be_u32(b[0], b[1], b[2], b[3]) as int;
        let fl = be_u16(b[4], b[5]) as int;
        if b.len() < 8 + fl {
            None
        } else {
            let first = b.subrange(6, 6 + fl);
            let ll = be_u16(b[6 + fl], b[7 + fl]) as int;
            if b.len() < 8 + fl + ll {
                None
            } else {
                let last = b.subrange(8 + fl, 8 + fl + ll);
                match parse_meta_records(b.skip(8 + fl + ll), (n - 1) as nat) {
                    Some(rest) => Some(seq![(off, first, last)] + rest),
                    None => None,
                }
            }
        }
    }
}

/// Parses a whole meta section.
pub open spec fn parse_meta_section(b: Seq<u8>) -> Option<Seq<MetaView>> {
    if b.len() < 4 {
        None
    } else {
        parse_meta_records(b.skip(4), be_u32(b[0], b[1], b[2], b[3]) as nat)
    }
}

/// Decoding inverts encoding: a well-formed run of meta records parses back
/// from its own bytes.
pub proof fn lemma_meta_records_round_trip(ms: Seq<MetaView>)
    requires
        forall|i: int|
            0 <= i < ms.len() ==> 0 <= (#[trigger] ms[i]).0 <= u32::MAX && ms[i].1.len() <= 0xFFFF
                && ms[i].2.len() <= 0xFFFF,
    ensures
        parse_meta_records(meta_records_bytes(ms), ms.len() as nat) == Some(ms),
    decreases ms.len(),
{
    let b = meta_records_bytes(ms);
    if ms.len() == 0 {
        assert(b.len() == 0);
    } else {
        let m = ms[0];
        let rb = meta_record_bytes(m);
        let rest = meta_records_bytes(ms.drop_first());
        assert(b == rb + rest);
        let fl = m.1.len() as int;
        let ll = m.2.len() as int;
        assert(rb.len() == 8 + fl + ll);
        lemma_u32_be_inverse(m.0 as u32);
        lemma_u16_be_inverse(m.1.len() as u16);
        lemma_u16_be_inverse(m.2.len() as u16);
        assert(b[0] == rb[0] && b[1] == rb[1] && b[2] == rb[2] && b[3] == rb[3]);
        assert(be_u32(b[0], b[1], b[2], b[3]) == m.0);
        assert(b[4] == rb[4] && b[5] == rb[5]);
        assert(be_u16(b[4], b[5]) == fl);
        assert(b.len() >= 8 + fl);
        assert(b.subrange(6, 6 + fl) =~= m.1);
        assert(b[6 + fl] == rb[6 + fl] && b[7 + fl] == rb[7 + fl]);
        assert(be_u16(b[6 + fl], b[7 + fl]) == ll);
        assert(b.len() >= 8 + fl + ll);
        assert(b.subrange(8 + fl, 8 + fl + ll) =~= m.2);
        assert(b.skip(8 + fl + ll) =~= rest);
        assert forall|i: int|
            0 <= i < ms.drop_first().len() implies 0 <= (#[trigger] ms.drop_first()[i]).0
            <= u32::MAX && ms.drop_first()[i].1.len() <= 0xFFFF && ms.drop_first()[i].2.len()
            <= 0xFFFF by {
            assert(ms.drop_first()[i] == ms[i + 1]);
        }
        lemma_meta_records_round_trip(ms.drop_first());
        assert(seq![(m.0, m.1, m.2)] + ms.drop_first() =~= ms);
    }
}

/// The whole meta section parses back to its records.
pub proof fn lemma_meta_section_round_trip(ms: Seq<MetaView>)
    requires
        ms.len() <= u32::MAX,
        forall|i: int|
            0 <= i < ms.len() ==> 0 <= (#[trigger] ms[i]).0 <= u32::MAX && ms[i].1.len() <= 0xFFFF
                && ms[i].2.len() <= 0xFFFF,
    ensures
        parse_meta_section(meta_section_bytes(ms)) == Some(ms),
{
    let b = meta_section_bytes(ms);
    lemma_u32_be_inverse(ms.len() as u32);
    assert(b[0] == u32_be(ms.len() as u32)[0]);
    assert(b[1] == u32_be(ms.len() as u32)[1]);
    assert(b[2] == u32_be(ms.len() as u32)[2]);
    assert(b[3] == u32_be(ms.len() as u32)[3]);
    assert(be_u32(b[0], b[1], b[2], b[3]) == ms.len());
    assert(b.skip(4) =~= meta_records_bytes(ms));
    lemma_meta_records_round_trip(ms);
}

impl BlockMeta {
    /// Appends the encoded meta section for `block_meta` to `buf`.
    pub fn encode_block_meta(block_meta: &Vec<BlockMeta>, buf: &mut Vec<u8>)
        requires
            block_meta@.len() <= u32::MAX,
            forall|i: int| 0 <= i < block_meta@.len() ==> meta_wf(#[trigger] block_meta@[i]),
        ensures
            final(buf)@ == old(buf)@ + meta_section_bytes(metas_view(block_meta@)),
    {
        let ghost ms = metas_view(block_meta@);
        put_u32(buf, block_meta.len() as u32);
        let mut i: usize = 0;
        while i < block_meta.len()
            invariant
                0 <= i <= block_meta@.len(),
                block_meta@.len() <= u32::MAX,
                forall|j: int| 0 <= j < block_meta@.len() ==> meta_wf(#[trigger] block_meta@[j]),
                ms == metas_view(block_meta@),
                buf@ == old(buf)@ + u32_be(block_meta@.len() as u32) + meta_records_bytes(
                    ms.take(i as int),
                ),
            decreases block_meta@.len() - i,
        {
            let m = &block_meta[i];
            proof {
                assert(meta_wf(block_meta@[i as int]));
            }
            put_u32(buf, m.offset as u32);
            put_u16(buf, m.first_key.len() as u16);
            crate::codec::append_slice(buf, m.first_key.as_slice());
            put_u16(buf, m.last_key.len() as u16);
            crate::codec::append_slice(buf, m.last_key.as_slice());
            i = i + 1;
            proof {
                assert(ms.take(i as int) =~= ms.take(i as int - 1).push(ms[i as int - 1]));
                lemma_meta_records_bytes_push(ms.take(i as int - 1), ms[i as int - 1]);
                assert(buf@ =~= old(buf)@ + u32_be(block_meta@.len() as u32) + meta_records_bytes(
                    ms.take(i as int),
                ));
            }
        }
        proof {
            assert(ms.take(ms.len() as int) =~= ms);
            assert(final(buf)@ =~= old(buf)@ + meta_section_bytes(ms));
        }
    }

    /// Decodes a meta section. Fails exactly when the bytes are not a
    /// well-formed meta section consumed in full.
    pub fn decode_block_meta(buf: &[u8]) -> (r: Result<Vec<BlockMeta>, Error>)
        ensures
            (r is Ok) == (parse_meta_section(buf@) is Some),
            r matches Ok(v) ==> Some(metas_view(v@)) == parse_meta_section(buf@),
    {
        if buf.len() < 4 {
            return Err(Error::MalformedTable);
        }
        let count = get_u32_at(buf, 0) as usize;
        let mut metas: Vec<BlockMeta> = Vec::new();
        let mut pos: usize = 4;
        let mut i: usize = 0;
        while i < count
            invariant
                0 <= i <= count,
                4 <= pos <= buf@.len(),
                buf@.len() >= 4,
                count == be_u32(buf@[0], buf@[1], buf@[2], buf@[3]),
                metas@.len() == i,
                parse_meta_records(buf@.skip(4), count as nat) == (match parse_meta_records(
                    buf@.skip(pos as int),
                    (count - i) as nat,
                ) {
                    Some(rest) => Some(metas_view(metas@) + rest),
                    None => None::<Seq<MetaView>>,
                }),
            decreases count - i,
        {
            let ghost tail = buf@.skip(pos as int);
            if buf.len() - pos < 8 {
                return Err(Error::MalformedTable);
            }
            let off = get_u32_at(buf, pos) as usize;
            let fl = get_u16_at(buf, pos + 4) as usize;
            if buf.len() - pos - 8 < fl {
                return Err(Error::MalformedTable);
            }
            let first = copy_range(buf, pos + 6, pos + 6 + fl);
            let ll = get_u16_at(buf, pos + 6 + fl) as usize;
            if buf.len() - pos - 8 - fl < ll {
                return Err(Error::MalformedTable);
            }
            let last = copy_range(buf, pos + 8 + fl, pos + 8 + fl + ll);
            proof {
                assert(tail.len() == buf@.len() - pos);
                assert forall|q: int| 0 <= q < tail.len() implies tail[q] == buf@[pos + q] by {}
                assert(be_u32(tail[0], tail[1], tail[2], tail[3]) == off);
                assert(be_u16(tail[4], tail[5]) == fl);
                assert(first@ =~= tail.subrange(6, 6 + fl as int));
                assert(be_u16(tail[6 + fl], tail[7 + fl]) == ll);
                assert(last@ =~= tail.subrange(8 + fl, 8 + fl + ll as int));
                assert(tail.skip(8 + fl + ll as int) =~= buf@.skip(pos + 8 + fl + ll));
            }
            let m = BlockMeta { offset: off, first_key: first, last_key: last };
            metas.push(m);
            let ghost old_pos = pos as int;
            pos = pos + 8 + fl + ll;
            i = i + 1;
            proof {
                assert(metas_view(metas@) =~= metas_view(metas@.drop_last()).push(
                    (off as int, buf@.skip(old_pos).subrange(6, 6 + fl as int), buf@.skip(
                        old_pos,
                    ).subrange(8 + fl, 8 + fl + ll as int)),
                ));
                assert(metas_view(metas@.drop_last()) + (seq![
                    (off as int, buf@.skip(old_pos).subrange(6, 6 + fl as int), buf@.skip(
                        old_pos,
                    ).subrange(8 + fl, 8 + fl + ll as int)),
                ] + (match parse_meta_records(buf@.skip(pos as int), (count - i) as nat) {
                    Some(rest) => rest,
                    None => Seq::empty(),
                })) =~= metas_view(metas@) + (match parse_meta_records(
                    buf@.skip(pos as int),
                    (count - i) as nat,
                ) {
                    Some(rest) => rest,
                    None => Seq::empty(),
                }));
            }
        }
        if pos != buf.len() {
            proof {
                assert(buf@.skip(pos as int).len() != 0);
            }
            return Err(Error::MalformedTable);
        }
        proof {
            assert(buf@.skip(pos as int).len() == 0);
            assert(parse_meta_records(buf@.skip(pos as int), 0) == Some(Seq::<MetaView>::empty()));
            assert(metas_view(metas@) + Seq::<MetaView>::empty() =~= metas_view(metas@));
        }
        Ok(metas)
    }
}

// ---------------------------------------------------------------------------
// The table as a whole.
// ---------------------------------------------------------------------------
/// One-past-the-end offset of block `i`: the next block's offset, or the
/// start of the meta section for the last block.
pub open spec fn block_end_off(metas: Seq<MetaView>, meta_off: int, i: int) -> int {
    if i + 1 < metas.len() {
        metas[i + 1].0
    } else {
        meta_off
    }
}

/// The bytes of block `i` within the file.
pub open spec fn block_span(bytes: Seq<u8>, metas: Seq<MetaView>, meta_off: int, i: int) -> Seq<
    u8,
> {
    bytes.subrange(metas[i].0, block_end_off(metas, meta_off, i))
}

/// One block's bytes hold at least one entry, parse safely, are sorted,
/// and begin and end with the recorded boundary keys.
pub open spec fn span_ok(span: Seq<u8>, first: Seq<u8>, last: Seq<u8>) -> bool {
    &&& block_decode_wf(span)
    &&& block_wf(block_decode_data(span), block_decode_offsets(span))
    &&& {
        let es = block_entries(block_decode_data(span), block_decode_offsets(span));
        &&& es.len() >= 1
        &&& entries_sorted(es)
        &&& es[0].0 == first
        &&& es[es.len() - 1].0 == last
    }
}

/// Block offsets grow strictly and stay below the meta section.
pub open spec fn metas_bounds_ok(metas: Seq<MetaView>, meta_off: int) -> bool {
    &&& metas.len() > 0 ==> 0 <= metas[0].0
    &&& forall|i: int| 0 <= i < metas.len() - 1 ==> (#[trigger] metas[i]).0 < metas[i + 1].0
    &&& metas.len() > 0 ==> metas[metas.len() - 1].0 < meta_off
}

/// Every block starts before it ends and ends at or before the meta
/// section.
pub proof fn lemma_metas_monotonic(metas: Seq<MetaView>, meta_off: int, i: int)
    requires
        metas_bounds_ok(metas, meta_off),
        0 <= i < metas.len(),
    ensures
        0 <= metas[i].0 < block_end_off(metas, meta_off, i) <= meta_off,
    decreases metas.len() - i,
{
    if i + 1 < metas.len() {
        lemma_metas_monotonic(metas, meta_off, i + 1);
    }
    if i > 0 {
        lemma_metas_monotonic_front(metas, meta_off, i);
    }
}

/// Offsets before `i` are non-negative too.
pub proof fn lemma_metas_monotonic_front(metas: Seq<MetaView>, meta_off: int, i: int)
    requires
        metas_bounds_ok(metas, meta_off),
        0 <= i < metas.len(),
    ensures
        0 <= metas[i].0,
    decreases i,
{
    if i > 0 {
        lemma_metas_monotonic_front(metas, meta_off, i - 1);
    }
}

/// Adjacent blocks do not overlap in key space: each block's last key is at
/// most the next block's first key.
pub open spec fn cross_ok(metas: Seq<MetaView>) -> bool {
    forall|i: int| 0 <= i < metas.len() - 1 ==> lex_le((#[trigger] metas[i]).2, metas[i + 1].1)
}

/// The meta offset recorded in the file's last four bytes.
pub open spec fn sst_meta_off_of(bytes: Seq<u8>) -> int {
    be_u32(
        bytes[bytes.len() - 4],
        bytes[bytes.len() - 3],
        bytes[bytes.len() - 2],
        bytes[bytes.len() - 1],
    ) as int
}

/// The meta records of the file, as recovered by parsing its meta section.
pub open spec fn sst_metas(bytes: Seq<u8>) -> Seq<MetaView> {
    match parse_meta_section(bytes.subrange(sst_meta_off_of(bytes), bytes.len() - 4)) {
        Some(ms) => ms,
        None => Seq::empty(),
    }
}

/// The file is a well-formed table: footer and meta section parse, there is
/// at least one block, the blocks tile the data region in order, each block
/// is sorted with matching boundary keys, and the blocks' key ranges are in
/// order.
pub open spec fn sst_valid(bytes: Seq<u8>) -> bool {
    &&& bytes.len() >= 4
    &&& sst_meta_off_of(bytes) + 4 <= bytes.len()
    &&& parse_meta_section(bytes.subrange(sst_meta_off_of(bytes), bytes.len() - 4)) is Some
    &&& sst_metas(bytes).len() >= 1
    &&& metas_bounds_ok(sst_metas(bytes), sst_meta_off_of(bytes))
    &&& cross_ok(sst_metas(bytes))
    &&& forall|i: int|
        0 <= i < sst_metas(bytes).len() ==> span_ok(
            #[trigger] block_span(bytes, sst_metas(bytes), sst_meta_off_of(bytes), i),
            sst_metas(bytes)[i].1,
            sst_metas(bytes)[i].2,
        )
}

/// The entries of block `i` of the file.
pub open spec fn sst_block_entries(
    bytes: Seq<u8>,
    metas: Seq<MetaView>,
    meta_off: int,
    i: int,
) -> Seq<EntryView> {
    block_entries(
        block_decode_data(block_span(bytes, metas, meta_off, i)),
        block_decode_offsets(block_span(bytes, metas, meta_off, i)),
    )
}

/// The entries of blocks `i` onward, in file order.
pub open spec fn sst_entries_from(
    bytes: Seq<u8>,
    metas: Seq<MetaView>,
    meta_off: int,
    i: int,
) -> Seq<EntryView>
    decreases metas.len() - i,
{
    if i < 0 || i >= metas.len() {
        Seq::empty()
    } else {
        sst_block_entries(bytes, metas, meta_off, i) + sst_entries_from(
            bytes,
            metas,
            meta_off,
            i + 1,
        )
    }
}

/// All entries of the file, in order.
pub open spec fn sst_entries(bytes: Seq<u8>) -> Seq<EntryView> {
    sst_entries_from(bytes, sst_metas(bytes), sst_meta_off_of(bytes), 0)
}

/// An opened table file held as bytes: a positional read returns exactly
/// the requested range or fails.
pub struct FileObject {
    /// The file's bytes.
    pub data: Vec<u8>,
}

impl FileObject {
    /// Wraps a fully materialized file.
    pub fn create(data: Vec<u8>) -> (r: FileObject)
        ensures
            r.data == data,
    {
        FileObject { data }
    }

    /// The file's size in bytes.
    pub fn size(&self) -> (r: u64)
        ensures
            r == self.data@.len(),
    {
        self.data.len() as u64
    }

    /// Reads exactly `len` bytes starting at `offset`, or fails when the
    /// range reaches past the end of the file.
    pub fn read(&self, offset: u64, len: u64) -> (r: Result<Vec<u8>, Error>)
        ensures
            match r {
                Ok(v) => offset + len <= self.data@.len() && v@ == self.data@.subrange(
                    offset as int,
                    offset + len,
                ),
                Err(e) => e == Error::ReadOutOfRange && offset + len > self.data@.len(),
            },
    {
        let size = self.data.len() as u64;
        if offset > size || len > size - offset {
            return Err(Error::ReadOutOfRange);
        }
        Ok(copy_range(self.data.as_slice(), offset as usize, (offset + len) as usize))
    }
}

/// Every record recovered by a successful parse has an offset that fits a
/// `u32` and keys that fit their `u16` length fields.
pub proof fn lemma_parse_records_bounds(b: Seq<u8>, n: nat)
    requires
        parse_meta_records(b, n) is Some,
    ensures
        forall|i: int|
            #![trigger parse_meta_records(b, n).unwrap()[i]]
            0 <= i < parse_meta_records(b, n).unwrap().len() ==> {
                let m = parse_meta_records(b, n).unwrap()[i];
                0 <= m.0 <= u32::MAX && m.1.len() <= 0xFFFF && m.2.len() <= 0xFFFF
            },
    decreases n,
{
    if n > 0 {
        let fl = be_u16(b[4], b[5]) as int;
        let ll = be_u16(b[6 + fl], b[7 + fl]) as int;
        lemma_parse_records_bounds(b.skip(8 + fl + ll), (n - 1) as nat);
        let head = (be_u32(b[0], b[1], b[2], b[3]) as int, b.subrange(6, 6 + fl), b.subrange(
            8 + fl,
            8 + fl + ll,
        ));
        let rest = parse_meta_records(b.skip(8 + fl + ll), (n - 1) as nat).unwrap();
        assert(parse_meta_records(b, n).unwrap() == seq![head] + rest);
        assert forall|i: int| 0 <= i < parse_meta_records(b, n).unwrap().len() implies {
            let m = #[trigger] parse_meta_records(b, n).unwrap()[i];
            0 <= m.0 <= u32::MAX && m.1.len() <= 0xFFFF && m.2.len() <= 0xFFFF
        } by {
            if i > 0 {
                assert(parse_meta_records(b, n).unwrap()[i] == rest[i - 1]);
            }
        }
    }
}

/// Decides whether one block's bytes are well-formed, sorted, and bounded
/// by the given first and last keys.
#[verifier::rlimit(100)]
#[verifier::spinoff_prover]
fn check_span(span: &[u8], first: &[u8], last: &[u8]) -> (b: bool)
    ensures
        b == span_ok(span@, first@, last@),
{
    let n = span.len();
    if n < 2 {
        return false;
    }
    let count = get_u16_at(span, n - 2) as usize;
    if n < 2 * (count + 1) {
        return false;
    }
    let ghost data = block_decode_data(span@);
    let ghost offs = block_decode_offsets(span@);
    proof {
        assert(offs.len() == count);
        assert(data.len() == n - 2 * (count + 1));
    }
    if count == 0 {
        return false;
    }
    let ts = n - 2 * (count + 1);
    let mut prev: Vec<u8> = Vec::new();
    let mut i: usize = 0;
    let ghost es = block_entries(data, offs);
    while i < count
        invariant
            0 < count <= 0xFFFF,
            0 <= i <= count,
            n == span@.len(),
            n >= 2 * (count + 1),
            ts == n - 2 * (count + 1),
            count == crate::block::block_decode_count(span@),
            data == block_decode_data(span@),
            offs == block_decode_offsets(span@),
            es == block_entries(data, offs),
            data.len() == ts,
            forall|j: int| 0 <= j < i ==> crate::block::entry_wf_at_idx(data, offs, j),
            forall|j: int| 0 <= j < i - 1 ==> lex_le(#[trigger] es[j].0, es[j + 1].0),
            i > 0 ==> prev@ == es[i - 1].0,
            i > 0 ==> es[0].0 == first@,
        decreases count - i,
    {
        let off = get_u16_at(span, ts + 2 * i) as usize;
        proof {
            assert(offs[i as int] == be_u16(span@[ts + 2 * i], span@[ts + 2 * i + 1]));
            assert(off == offs[i as int]);
        }
        if off + 2 > ts {
            proof {
                assert(!crate::block::entry_wf_at_idx(data, offs, i as int));
            }
            return false;
        }
        let kl = get_u16_at(span, off) as usize;
        proof {
            assert(data[off as int] == span@[off as int]);
            assert(data[off as int + 1] == span@[off as int + 1]);
            assert(kl == crate::block::entry_key_len(data, off as int));
        }
        if off + 4 + kl > ts {
            proof {
                assert(!crate::block::entry_wf_at_idx(data, offs, i as int));
            }
            return false;
        }
        let vl = get_u16_at(span, off + 2 + kl) as usize;
        proof {
            assert(data[off as int + 2 + kl] == span@[off as int + 2 + kl]);
            assert(data[off as int + 3 + kl] == span@[off as int + 3 + kl]);
            assert(vl == crate::block::entry_val_len(data, off as int));
        }
        if off + 4 + kl + vl > ts {
            proof {
                assert(!crate::block::entry_wf_at_idx(data, offs, i as int));
            }
            return false;
        }
        if kl < 1 {
            proof {
                assert(crate::block::entry_key(data, off as int).len() == 0);
                assert(!crate::block::entry_wf_at_idx(data, offs, i as int));
            }
            return false;
        }
        let key = copy_range(span, off + 2, off + 2 + kl);
        proof {
            assert(key@ =~= crate::block::entry_key(data, off as int));
            assert(crate::block::entry_wf_at_idx(data, offs, i as int));
            assert(es[i as int].0 == key@);
        }
        if i == 0 {
            if !key_eq(key.as_slice(), first) {
                return false;
            }
        } else {
            if !key_le(prev.as_slice(), key.as_slice()) {
                proof {
                    assert(!lex_le(es[i as int - 1].0, es[i as int].0));
                    assert(!entries_sorted(es));
                }
                return false;
            }
        }
        prev = key;
        i = i + 1;
    }
    if !key_eq(prev.as_slice(), last) {
        return false;
    }
    proof {
        assert(block_decode_wf(span@));
        assert forall|j: int| 0 <= j < offs.len() implies #[trigger] crate::block::entry_wf_at_idx(
            data,
            offs,
            j,
        ) by {}
        assert(block_wf(data, offs));
        assert(entries_sorted(es));
        assert(es[0].0 == first@);
        assert(es[es.len() - 1].0 == last@);
    }
    true
}

/// A sorted string table: immutable once opened, its meta index decoded
/// and checked in memory.
pub struct SsTable {
    /// The file holding the blocks, the meta section, and the footer.
    pub file: FileObject,
    /// The decoded per-block descriptors.
    pub block_meta: Vec<BlockMeta>,
    /// The file offset at which the meta section begins.
    pub block_meta_offset: usize,
    /// The engine-assigned identifier.
    pub id: usize,
    /// The first key of the whole table.
    pub first_key: Vec<u8>,
    /// The last key of the whole table.
    pub last_key: Vec<u8>,
    /// The largest timestamp in the table; written as zero, reserved.
    pub max_ts: u64,
}

impl SsTable {
    /// The views of the decoded meta records.
    pub open spec fn metas(&self) -> Seq<MetaView> {
        metas_view(self.block_meta@)
    }

    /// The decoded state faithfully describes a well-formed file.
    pub open spec fn wf(&self) -> bool {
        &&& sst_valid(self.file.data@)
        &&& self.metas() == sst_metas(self.file.data@)
        &&& self.block_meta_offset == sst_meta_off_of(self.file.data@)
        &&& forall|i: int| 0 <= i < self.block_meta@.len() ==> meta_wf(#[trigger] self.block_meta@[i])
        &&& self.first_key@ == self.metas()[0].1
        &&& self.last_key@ == self.metas()[self.metas().len() - 1].2
    }

    /// All entries of the table, in order.
    pub open spec fn entries(&self) -> Seq<EntryView> {
        sst_entries(self.file.data@)
    }

    /// Opens a table from a file. Fails exactly when the bytes are not a
    /// well-formed table: a bad footer, an unparsable or empty meta
    /// section, blocks out of order, or a block that does not match its
    /// descriptor.
    #[verifier::rlimit(100)]
    #[verifier::spinoff_prover]
    #[verifier::loop_isolation(false)]
    pub fn open(id: usize, file: FileObject) -> (r: Result<SsTable, Error>)
        ensures
            (r is Ok) == sst_valid(file.data@),
            r matches Ok(t) ==> t.wf() && t.file == file && t.id == id && t.max_ts == 0,
    {
        let size = file.size();
        if size < 4 {
            return Err(Error::MalformedTable);
        }
        let foot = match file.read(size - 4, 4) {
            Ok(v) => v,
            Err(_) => {
                proof {
                    assert(false);
                }
                return Err(Error::MalformedTable);
            },
        };
        let meta_off = get_u32_at(foot.as_slice(), 0);
        proof {
            assert(foot@[0] == file.data@[file.data@.len() - 4]);
            assert(foot@[1] == file.data@[file.data@.len() - 3]);
            assert(foot@[2] == file.data@[file.data@.len() - 2]);
            assert(foot@[3] == file.data@[file.data@.len() - 1]);
            assert(meta_off == sst_meta_off_of(file.data@));
        }
        if meta_off as u64 + 4 > size {
            return Err(Error::MalformedTable);
        }
        let meta_bytes = match file.read(meta_off as u64, size - 4 - meta_off as u64) {
            Ok(v) => v,
            Err(_) => {
                proof {
                    assert(false);
                }
                return Err(Error::MalformedTable);
            },
        };
        proof {
            assert(meta_bytes@ == file.data@.subrange(
                sst_meta_off_of(file.data@),
                file.data@.len() - 4,
            ));
        }
        let metas = match BlockMeta::decode_block_meta(meta_bytes.as_slice()) {
            Ok(v) => v,
            Err(_) => {
                return Err(Error::MalformedTable);
            },
        };
        let ghost ms = sst_metas(file.data@);
        proof {
            assert(ms == metas_view(metas@));
            lemma_parse_records_bounds(
                meta_bytes@.skip(4),
                be_u32(meta_bytes@[0], meta_bytes@[1], meta_bytes@[2], meta_bytes@[3]) as nat,
            );
        }
        let n = metas.len();
        if n == 0 {
            return Err(Error::MalformedTable);
        }
        if !check_layout(&file, &metas, meta_off) {
            return Err(Error::MalformedTable);
        }
        let fk = copy_range(metas[0].first_key.as_slice(), 0, metas[0].first_key.len());
        let lk = copy_range(metas[n - 1].last_key.as_slice(), 0, metas[n - 1].last_key.len());
        proof {
            assert(fk@ =~= ms[0].1);
            assert(lk@ =~= ms[n - 1].2);
            assert(sst_valid(file.data@));
            assert forall|j: int| 0 <= j < metas@.len() implies meta_wf(#[trigger] metas@[j]) by {
                assert(span_ok(
                    block_span(file.data@, ms, meta_off as int, j),
                    ms[j].1,
                    ms[j].2,
                ));
                let sp = block_span(file.data@, ms, meta_off as int, j);
                let d = block_decode_data(sp);
                let o = block_decode_offsets(sp);
                let es = block_entries(d, o);
                assert(crate::block::entry_wf_at_idx(d, o, 0));
                assert(crate::block::entry_wf_at_idx(d, o, es.len() - 1));
                assert(es[0].0 == ms[j].1);
                assert(es[es.len() - 1].0 == ms[j].2);
                assert(ms[j].0 == metas@[j].offset as int);
                assert(ms[j].1 == metas@[j].first_key@);
                assert(ms[j].2 == metas@[j].last_key@);
            }
        }
        Ok(
            SsTable {
                file,
                block_meta: metas,
                block_meta_offset: meta_off as usize,
                id,
                first_key: fk,
                last_key: lk,
                max_ts: 0,
            },
        )
    }

    /// Reads block `block_idx` from the file and decodes it. On a
    /// well-formed table this never fails.
    pub fn read_block(&self, block_idx: usize) -> (r: Result<std::sync::Arc<Block>, Error>)
        requires
            self.wf(),
            block_idx < self.block_meta@.len(),
        ensures
            r is Ok,
            r matches Ok(b) ==> b.wf() && b.entries() == sst_block_entries(
                self.file.data@,
                self.metas(),
                self.block_meta_offset as int,
                block_idx as int,
            ) && b.entries().len() >= 1 && b.entries()[0].0 == self.metas()[block_idx as int].1
                && b.entries()[b.entries().len() - 1].0 == self.metas()[block_idx as int].2,
    {
        let ghost ms = self.metas();
        let ghost mo = self.block_meta_offset as int;
        let nb = self.block_meta.len();
        let start = self.block_meta[block_idx].offset;
        let end = if block_idx + 1 < nb {
            self.block_meta[block_idx + 1].offset
        } else {
            self.block_meta_offset
        };
        proof {
            lemma_metas_monotonic(ms, mo, block_idx as int);
            assert(ms[block_idx as int].0 == start as int);
            assert(block_end_off(ms, mo, block_idx as int) == end as int);
            assert(span_ok(
                block_span(self.file.data@, ms, mo, block_idx as int),
                ms[block_idx as int].1,
                ms[block_idx as int].2,
            ));
        }
        let bytes = match read_span(&self.file, start, end) {
            Ok(v) => v,
            Err(_) => {
                proof {
                    assert(false);
                }
                return Err(Error::MalformedTable);
            },
        };
        proof {
            assert(bytes@ == block_span(self.file.data@, ms, mo, block_idx as int));
        }
        let block = Block::decode(bytes.as_slice());
        Ok(std::sync::Arc::new(block))
    }

    /// Reads a block, consulting the external cache first when one is
    /// wired up; the decoded result is the same either way.
    pub fn read_block_cached(&self, block_idx: usize) -> (r: Result<std::sync::Arc<Block>, Error>)
        requires
            self.wf(),
            block_idx < self.block_meta@.len(),
        ensures
            r is Ok,
            r matches Ok(b) ==> b.wf() && b.entries() == sst_block_entries(
                self.file.data@,
                self.metas(),
                self.block_meta_offset as int,
                block_idx as int,
            ),
    {
        self.read_block(block_idx)
    }

    /// Finds the block that may contain `key`: the largest index whose
    /// first key is at most `key`, clamped to the first block.
    pub fn find_block_idx(&self, key: &[u8]) -> (r: usize)
        requires
            self.wf(),
        ensures
            r < self.metas().len(),
            forall|i: int|
                r < i < self.metas().len() ==> lex_lt(key@, (#[trigger] self.metas()[i]).1),
            r > 0 ==> lex_le(self.metas()[r as int].1, key@),
    {
        let ghost ms = self.metas();
        proof {
            assert forall|m: int| 0 <= m < ms.len() implies lex_le(
                (#[trigger] ms[m]).1,
                ms[m].2,
            ) by {
                lemma_span_first_le_last(
                    block_span(self.file.data@, ms, self.block_meta_offset as int, m),
                    ms[m].1,
                    ms[m].2,
                );
            }
        }
        let n = self.block_meta.len();
        let mut left: usize = 0;
        let mut right: usize = n;
        while left < right
            invariant
                self.wf(),
                ms == self.metas(),
                n == ms.len(),
                0 <= left <= right <= n,
                forall|m: int| 0 <= m < ms.len() ==> lex_le((#[trigger] ms[m]).1, ms[m].2),
                forall|i: int| 0 <= i < left ==> lex_le((#[trigger] ms[i]).1, key@),
                forall|i: int| right <= i < n ==> lex_lt(key@, (#[trigger] ms[i]).1),
            decreases right - left,
        {
            let mid = left + (right - left) / 2;
            if key_le(self.block_meta[mid].first_key.as_slice(), key) {
                proof {
                    assert forall|i: int| 0 <= i < mid + 1 implies lex_le(
                        (#[trigger] ms[i]).1,
                        key@,
                    ) by {
                        lemma_meta_keys_ordered(ms, i, mid as int);
                        crate::keys::lemma_lex_le_trans(ms[i].1, ms[mid as int].1, key@);
                    }
                }
                left = mid + 1;
            } else {
                proof {
                    crate::keys::lemma_lex_trichotomy(ms[mid as int].1, key@);
                    assert forall|i: int| mid <= i < n implies lex_lt(
                        key@,
                        (#[trigger] ms[i]).1,
                    ) by {
                        lemma_meta_keys_ordered(ms, mid as int, i);
                        crate::keys::lemma_lex_lt_le_trans(key@, ms[mid as int].1, ms[i].1);
                    }
                }
                right = mid;
            }
        }
        if left == 0 {
            0
        } else {
            left - 1
        }
    }

    /// The number of data blocks.
    pub fn num_of_blocks(&self) -> (r: usize)
        ensures
            r == self.block_meta@.len(),
    {
        self.block_meta.len()
    }

    /// The first key of the table.
    pub fn first_key(&self) -> (r: &Vec<u8>)
        ensures
            r@ == self.first_key@,
    {
        &self.first_key
    }

    /// The last key of the table.
    pub fn last_key(&self) -> (r: &Vec<u8>)
        ensures
            r@ == self.last_key@,
    {
        &self.last_key
    }

    /// The file's size in bytes.
    pub fn table_size(&self) -> (r: u64)
        ensures
            r == self.file.data@.len(),
    {
        self.file.size()
    }

    /// The engine-assigned identifier.
    pub fn sst_id(&self) -> (r: usize)
        ensures
            r == self.id,
    {
        self.id
    }

    /// The largest timestamp in the table; written as zero, reserved.
    pub fn max_ts(&self) -> (r: u64)
        ensures
            r == self.max_ts,
    {
        self.max_ts
    }
}

/// Within one well-formed block the first boundary key is at most the
/// last.
pub proof fn lemma_span_first_le_last(span: Seq<u8>, first: Seq<u8>, last: Seq<u8>)
    requires
        span_ok(span, first, last),
    ensures
        lex_le(first, last),
{
    let es = block_entries(block_decode_data(span), block_decode_offsets(span));
    crate::block::lemma_sorted_pairwise(es, 0, es.len() - 1);
}

/// The entry stream from block `i` onward is non-empty and ends with the
/// last block's last entry.
pub proof fn lemma_from_last(bytes: Seq<u8>, ms: Seq<MetaView>, mo: int, i: int)
    requires
        0 <= i < ms.len(),
        forall|q: int|
            0 <= q < ms.len() ==> span_ok(
                #[trigger] block_span(bytes, ms, mo, q),
                ms[q].1,
                ms[q].2,
            ),
    ensures
        sst_entries_from(bytes, ms, mo, i).len() > 0,
        sst_entries_from(bytes, ms, mo, i)[sst_entries_from(bytes, ms, mo, i).len() - 1]
            == sst_block_entries(bytes, ms, mo, ms.len() - 1)[sst_block_entries(
            bytes,
            ms,
            mo,
            ms.len() - 1,
        ).len() - 1],
    decreases ms.len() - i,
{
    let here = sst_block_entries(bytes, ms, mo, i);
    assert(span_ok(block_span(bytes, ms, mo, i), ms[i].1, ms[i].2));
    assert(here.len() >= 1);
    assert(sst_entries_from(bytes, ms, mo, i) == here + sst_entries_from(bytes, ms, mo, i + 1));
    if i == ms.len() - 1 {
        assert(sst_entries_from(bytes, ms, mo, i + 1).len() == 0);
    } else {
        lemma_from_last(bytes, ms, mo, i + 1);
    }
}

/// A well-formed table's boundary keys are the keys of its first and last
/// entries.
pub proof fn lemma_sst_boundary_keys(t: &SsTable)
    requires
        t.wf(),
    ensures
        t.entries().len() > 0,
        t.first_key@ == t.entries()[0].0,
        t.last_key@ == t.entries()[t.entries().len() - 1].0,
{
    let bytes = t.file.data@;
    let ms = t.metas();
    let mo = t.block_meta_offset as int;
    assert(ms == sst_metas(bytes));
    assert(span_ok(block_span(bytes, ms, mo, 0), ms[0].1, ms[0].2));
    let b0 = sst_block_entries(bytes, ms, mo, 0);
    assert(sst_entries_from(bytes, ms, mo, 0) == b0 + sst_entries_from(bytes, ms, mo, 1));
    assert(t.entries()[0] == b0[0]);
    lemma_from_last(bytes, ms, mo, 0);
    let lastb = sst_block_entries(bytes, ms, mo, ms.len() - 1);
    assert(span_ok(block_span(bytes, ms, mo, ms.len() - 1), ms[ms.len() - 1].1, ms[ms.len()
        - 1].2));
    assert(lastb[lastb.len() - 1].0 == ms[ms.len() - 1].2);
}

/// Between blocks the boundary keys are ordered: earlier blocks' keys come
/// first.
pub proof fn lemma_meta_keys_ordered(metas: Seq<MetaView>, i: int, j: int)
    requires
        cross_ok(metas),
        forall|m: int| 0 <= m < metas.len() ==> lex_le((#[trigger] metas[m]).1, metas[m].2),
        0 <= i <= j < metas.len(),
    ensures
        lex_le(metas[i].1, metas[j].1),
        i < j ==> lex_le(metas[i].2, metas[j].1),
    decreases j - i,
{
    if i < j {
        lemma_meta_keys_ordered(metas, i + 1, j);
        crate::keys::lemma_lex_le_trans(metas[i].2, metas[i + 1].1, metas[j].1);
        crate::keys::lemma_lex_le_trans(metas[i].1, metas[i].2, metas[j].1);
    }
}

/// Decides whether the decoded meta records and the file's blocks form a
/// well-laid-out table: offsets strictly increasing below the meta
/// section, every block well formed with matching boundary keys, and the
/// blocks' key ranges in order.
#[verifier::rlimit(100)]
#[verifier::spinoff_prover]
#[verifier::loop_isolation(false)]
fn check_layout(file: &FileObject, metas: &Vec<BlockMeta>, meta_off: u32) -> (b: bool)
    requires
        meta_off as int + 4 <= file.data@.len(),
        metas@.len() >= 1,
        forall|j: int|
            0 <= j < metas@.len() ==> 0 <= (#[trigger] metas_view(metas@)[j]).0 <= u32::MAX,
    ensures
        b == ({
            let ms = metas_view(metas@);
            &&& metas_bounds_ok(ms, meta_off as int)
            &&& cross_ok(ms)
            &&& forall|i: int|
                0 <= i < ms.len() ==> span_ok(
                    #[trigger] block_span(file.data@, ms, meta_off as int, i),
                    ms[i].1,
                    ms[i].2,
                )
        }),
{
    let ghost ms = metas_view(metas@);
    let n = metas.len();
    let mut i: usize = 0;
    while i < n
        invariant
            0 <= i <= n,
            forall|j: int| 0 <= j < i && j < n - 1 ==> (#[trigger] ms[j]).0 < ms[j + 1].0,
            forall|j: int| 0 <= j < i && j == n - 1 ==> (#[trigger] ms[j]).0 < meta_off as int,
            forall|j: int|
                0 <= j < i ==> span_ok(
                    #[trigger] block_span(file.data@, ms, meta_off as int, j),
                    ms[j].1,
                    ms[j].2,
                ),
            forall|j: int| 0 <= j < i && j < n - 1 ==> lex_le((#[trigger] ms[j]).2, ms[j + 1].1),
        decreases n - i,
    {
        let start = metas[i].offset;
        let end = if i + 1 < n {
            metas[i + 1].offset
        } else {
            meta_off as usize
        };
        if start >= end {
            proof {
                assert(ms[i as int].0 == start as int);
                if i + 1 < n {
                    assert(ms[i as int + 1].0 == end as int);
                }
            }
            return false;
        }
        let span = match read_span(file, start, end) {
            Ok(v) => v,
            Err(_) => {
                proof {
                    if metas_bounds_ok(ms, meta_off as int) {
                        lemma_metas_monotonic(ms, meta_off as int, i as int);
                        assert(false);
                    }
                }
                return false;
            },
        };
        proof {
            assert(span@ == block_span(file.data@, ms, meta_off as int, i as int));
        }
        if !check_span(
            span.as_slice(),
            metas[i].first_key.as_slice(),
            metas[i].last_key.as_slice(),
        ) {
            return false;
        }
        if i + 1 < n {
            if !key_le(metas[i].last_key.as_slice(), metas[i + 1].first_key.as_slice()) {
                return false;
            }
        }
        i = i + 1;
    }
    true
}

/// Reads the byte range `[start, end)` of the file.
fn read_span(file: &FileObject, start: usize, end: usize) -> (r: Result<Vec<u8>, Error>)
    requires
        start < end,
    ensures
        match r {
            Ok(v) => end <= file.data@.len() && v@ == file.data@.subrange(start as int, end as int),
            Err(_) => end > file.data@.len(),
        },
{
    file.read(start as u64, (end - start) as u64)
}

} // verus!
