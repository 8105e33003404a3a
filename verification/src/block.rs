//! The block: the smallest unit of disk I/O and caching. A block holds a
//! packed run of key-value entries followed by a `u16` offset per entry and
//! a trailing `u16` entry count, all big-endian.
//!
//! On disk an entry is `u16 key_len | key | u16 value_len | value`.

use vstd::prelude::*;

use crate::codec::{be_u16, copy_range, get_u16_at, lemma_u16_be_inverse, put_u16, u16_be, u16_hi,
    u16_lo};
use crate::keys::lex_le;

verus! {

/// A key-value pair at the specification level.
pub type EntryView = (Seq<u8>, Seq<u8>);

/// Keys are non-empty (an empty key is the iterators' invalid sentinel) and
/// key and value each fit their `u16` length field.
pub open spec fn entry_view_wf(e: EntryView) -> bool {
    1 <= e.0.len() <= 0xFFFF && e.1.len() <= 0xFFFF
}

/// Successive keys never decrease.
pub open spec fn entries_sorted(es: Seq<EntryView>) -> bool {
    forall|i: int| 0 <= i < es.len() - 1 ==> lex_le(#[trigger] es[i].0, es[i + 1].0)
}

/// In a sorted run every earlier key is at most every later key.
pub proof fn lemma_sorted_pairwise(es: Seq<EntryView>, i: int, j: int)
    requires
        entries_sorted(es),
        0 <= i <= j < es.len(),
    ensures
        lex_le(es[i].0, es[j].0),
    decreases j - i,
{
    if i < j {
        lemma_sorted_pairwise(es, i + 1, j);
        crate::keys::lemma_lex_le_trans(es[i].0, es[i + 1].0, es[j].0);
    }
}

/// Byte encoding of one entry.
pub open spec fn entry_bytes(k: Seq<u8>, v: Seq<u8>) -> Seq<u8> {
    u16_be(k.len() as u16) + k + u16_be(v.len() as u16) + v
}

/// Byte encoding of a run of entries, in order.
pub open spec fn entries_bytes(es: Seq<EntryView>) -> Seq<u8>
    decreases es.len(),
{
    if es.len() == 0 {
        Seq::empty()
    } else {
        entry_bytes(es[0].0, es[0].1) + entries_bytes(es.drop_first())
    }
}

/// Appending an entry appends its bytes.
pub proof fn lemma_entries_bytes_push(es: Seq<EntryView>, k: Seq<u8>, v: Seq<u8>)
    ensures
        entries_bytes(es.push((k, v))) == entries_bytes(es) + entry_bytes(k, v),
    decreases es.len(),
{
    let s = es.push((k, v));
    if es.len() == 0 {
        assert(s[0] == (k, v));
        assert(s.drop_first() =~= Seq::<EntryView>::empty());
        assert(entries_bytes(s) == entry_bytes(k, v) + entries_bytes(s.drop_first()));
        assert(entries_bytes(s.drop_first()) == Seq::<u8>::empty());
        assert(entries_bytes(s) =~= entries_bytes(es) + entry_bytes(k, v));
    } else {
        assert(s[0] == es[0]);
        assert(s.drop_first() =~= es.drop_first().push((k, v)));
        lemma_entries_bytes_push(es.drop_first(), k, v);
        assert(entries_bytes(s) == entry_bytes(es[0].0, es[0].1) + entries_bytes(s.drop_first()));
        assert(entries_bytes(s.drop_first()) == entries_bytes(es.drop_first()) + entry_bytes(k, v));
        assert(entries_bytes(es) == entry_bytes(es[0].0, es[0].1) + entries_bytes(es.drop_first()));
        assert(entries_bytes(s) =~= entries_bytes(es) + entry_bytes(k, v));
    }
}

/// The offset of each entry inside its run: the length of the bytes of all
/// entries before it.
pub open spec fn entries_offsets(es: Seq<EntryView>) -> Seq<u16> {
    Seq::new(es.len(), |i: int| entries_bytes(es.take(i)).len() as u16)
}

/// Appending an entry appends one offset, namely the old total length.
pub proof fn lemma_entries_offsets_push(es: Seq<EntryView>, k: Seq<u8>, v: Seq<u8>)
    ensures
        entries_offsets(es.push((k, v))) == entries_offsets(es).push(
            entries_bytes(es).len() as u16,
        ),
{
    let es2 = es.push((k, v));
    assert forall|i: int| 0 <= i < es2.len() implies entries_offsets(es2)[i] == entries_offsets(
        es,
    ).push(entries_bytes(es).len() as u16)[i] by {
        if i < es.len() {
            assert(es2.take(i) =~= es.take(i));
        } else {
            assert(es2.take(i) =~= es);
        }
    }
    assert(entries_offsets(es2) =~= entries_offsets(es).push(entries_bytes(es).len() as u16));
}

/// Byte encoding of the offset array.
pub open spec fn offsets_bytes(os: Seq<u16>) -> Seq<u8>
    decreases os.len(),
{
    if os.len() == 0 {
        Seq::empty()
    } else {
        u16_be(os[0]) + offsets_bytes(os.drop_first())
    }
}

/// The offset array encodes to two bytes per offset.
pub proof fn lemma_offsets_bytes_len(os: Seq<u16>)
    ensures
        offsets_bytes(os).len() == 2 * os.len(),
    decreases os.len(),
{
    if os.len() > 0 {
        lemma_offsets_bytes_len(os.drop_first());
    }
}

/// The two bytes of offset `i` sit at positions `2i` and `2i + 1`.
pub proof fn lemma_offsets_bytes_index(os: Seq<u16>, i: int)
    requires
        0 <= i < os.len(),
    ensures
        offsets_bytes(os).len() == 2 * os.len(),
        offsets_bytes(os)[2 * i] == u16_hi(os[i]),
        offsets_bytes(os)[2 * i + 1] == u16_lo(os[i]),
    decreases i,
{
    lemma_offsets_bytes_len(os);
    if i == 0 {
        lemma_offsets_bytes_len(os.drop_first());
    } else {
        lemma_offsets_bytes_index(os.drop_first(), i - 1);
    }
}

/// Appending an offset appends its two bytes.
pub proof fn lemma_offsets_bytes_push(os: Seq<u16>, o: u16)
    ensures
        offsets_bytes(os.push(o)) == offsets_bytes(os) + u16_be(o),
    decreases os.len(),
{
    let s = os.push(o);
    if os.len() == 0 {
        assert(s[0] == o);
        assert(s.drop_first() =~= Seq::<u16>::empty());
        assert(offsets_bytes(s) == u16_be(o) + offsets_bytes(s.drop_first()));
        assert(offsets_bytes(s.drop_first()) == Seq::<u8>::empty());
        assert(offsets_bytes(s) =~= offsets_bytes(os) + u16_be(o));
    } else {
        assert(s[0] == os[0]);
        assert(s.drop_first() =~= os.drop_first().push(o));
        lemma_offsets_bytes_push(os.drop_first(), o);
        assert(offsets_bytes(s) == u16_be(os[0]) + offsets_bytes(s.drop_first()));
        assert(offsets_bytes(s.drop_first()) == offsets_bytes(os.drop_first()) + u16_be(o));
        assert(offsets_bytes(os) == u16_be(os[0]) + offsets_bytes(os.drop_first()));
        assert(offsets_bytes(s) =~= offsets_bytes(os) + u16_be(o));
    }
}

/// Disk representation of a whole block:
/// `entries || u16[count] offsets || u16 count`.
pub open spec fn block_bytes(data: Seq<u8>, offsets: Seq<u16>) -> Seq<u8> {
    data + offsets_bytes(offsets) + u16_be(offsets.len() as u16)
}

// ---------------------------------------------------------------------------
// Parsing entries out of a block's data region.
// ---------------------------------------------------------------------------
/// Length of the key of the entry stored at `off`.
pub open spec fn entry_key_len(data: Seq<u8>, off: int) -> int {
    be_u16(data[off], data[off + 1]) as int
}

/// The key of the entry stored at `off`.
pub open spec fn entry_key(data: Seq<u8>, off: int) -> Seq<u8> {
    data.subrange(off + 2, off + 2 + entry_key_len(data, off))
}

/// Length of the value of the entry stored at `off`.
pub open spec fn entry_val_len(data: Seq<u8>, off: int) -> int {
    let kl = entry_key_len(data, off);
    be_u16(data[off + 2 + kl], data[off + 3 + kl]) as int
}

/// First position of the value of the entry stored at `off`.
pub open spec fn entry_val_start(data: Seq<u8>, off: int) -> int {
    off + 4 + entry_key_len(data, off)
}

/// One-past-the-end position of the entry stored at `off`.
pub open spec fn entry_end(data: Seq<u8>, off: int) -> int {
    entry_val_start(data, off) + entry_val_len(data, off)
}

/// The value of the entry stored at `off`.
pub open spec fn entry_val(data: Seq<u8>, off: int) -> Seq<u8> {
    data.subrange(entry_val_start(data, off), entry_end(data, off))
}

/// The entry at `off` lies entirely inside `data`.
pub open spec fn entry_in_range(data: Seq<u8>, off: int) -> bool {
    &&& 0 <= off
    &&& off + 2 <= data.len()
    &&& off + 4 + entry_key_len(data, off) <= data.len()
    &&& entry_end(data, off) <= data.len()
}

/// The entry at offset index `i` is in range and its key is non-empty.
pub open spec fn entry_wf_at_idx(data: Seq<u8>, offsets: Seq<u16>, i: int) -> bool {
    &&& entry_in_range(data, offsets[i] as int)
    &&& entry_key(data, offsets[i] as int).len() >= 1
}

/// A block's data and offsets parse safely: the count fits its `u16` field
/// and every offset points at a complete entry with a non-empty key.
pub open spec fn block_wf(data: Seq<u8>, offsets: Seq<u16>) -> bool {
    &&& offsets.len() <= 0xFFFF
    &&& forall|i: int| 0 <= i < offsets.len() ==> #[trigger] entry_wf_at_idx(data, offsets, i)
}

/// The entries of a block, parsed from its data region via its offsets.
pub open spec fn block_entries(data: Seq<u8>, offsets: Seq<u16>) -> Seq<EntryView> {
    Seq::new(
        offsets.len(),
        |i: int| (entry_key(data, offsets[i] as int), entry_val(data, offsets[i] as int)),
    )
}

/// Parsing an in-range entry is unaffected by bytes appended after `data`.
pub proof fn lemma_entry_parse_stable(data: Seq<u8>, ext: Seq<u8>, off: int)
    requires
        entry_in_range(data, off),
    ensures
        entry_key_len(data + ext, off) == entry_key_len(data, off),
        entry_key(data + ext, off) == entry_key(data, off),
        entry_val_len(data + ext, off) == entry_val_len(data, off),
        entry_val(data + ext, off) == entry_val(data, off),
        entry_end(data + ext, off) == entry_end(data, off),
        entry_in_range(data + ext, off),
{
    let d2 = data + ext;
    assert(d2[off] == data[off]);
    assert(d2[off + 1] == data[off + 1]);
    let kl = entry_key_len(data, off);
    assert(d2[off + 2 + kl] == data[off + 2 + kl]);
    assert(d2[off + 3 + kl] == data[off + 3 + kl]);
    assert(entry_key(d2, off) =~= entry_key(data, off));
    assert(entry_val(d2, off) =~= entry_val(data, off));
}

/// An entry's bytes appended at the end of `data` parse back to the entry.
pub proof fn lemma_entry_parse_at_end(data: Seq<u8>, k: Seq<u8>, v: Seq<u8>)
    requires
        k.len() <= 0xFFFF,
        v.len() <= 0xFFFF,
    ensures
        entry_in_range(data + entry_bytes(k, v), data.len() as int),
        entry_key(data + entry_bytes(k, v), data.len() as int) == k,
        entry_val(data + entry_bytes(k, v), data.len() as int) == v,
        entry_end(data + entry_bytes(k, v), data.len() as int) == data.len() + entry_bytes(
            k,
            v,
        ).len(),
{
    let d2 = data + entry_bytes(k, v);
    let off = data.len() as int;
    lemma_u16_be_inverse(k.len() as u16);
    lemma_u16_be_inverse(v.len() as u16);
    assert(d2[off] == u16_hi(k.len() as u16));
    assert(d2[off + 1] == u16_lo(k.len() as u16));
    assert(entry_key_len(d2, off) == k.len());
    assert(d2[off + 2 + k.len()] == u16_hi(v.len() as u16));
    assert(d2[off + 3 + k.len()] == u16_lo(v.len() as u16));
    assert(entry_val_len(d2, off) == v.len());
    assert(entry_key(d2, off) =~= k);
    assert(entry_val(d2, off) =~= v);
}

/// Growing a well-formed block by one entry keeps it well-formed and appends
/// exactly that entry to its parsed contents.
pub proof fn lemma_block_entries_push(data: Seq<u8>, offsets: Seq<u16>, k: Seq<u8>, v: Seq<u8>)
    requires
        block_wf(data, offsets),
        offsets.len() + 1 <= 0xFFFF,
        data.len() <= 0xFFFF,
        1 <= k.len() <= 0xFFFF,
        v.len() <= 0xFFFF,
    ensures
        block_wf(data + entry_bytes(k, v), offsets.push(data.len() as u16)),
        block_entries(data + entry_bytes(k, v), offsets.push(data.len() as u16))
            == block_entries(data, offsets).push((k, v)),
{
    let d2 = data + entry_bytes(k, v);
    let o2 = offsets.push(data.len() as u16);
    lemma_entry_parse_at_end(data, k, v);
    assert forall|i: int| 0 <= i < o2.len() implies #[trigger] entry_wf_at_idx(d2, o2, i) by {
        if i < offsets.len() {
            assert(entry_wf_at_idx(data, offsets, i));
            lemma_entry_parse_stable(data, entry_bytes(k, v), offsets[i] as int);
        }
    }
    assert forall|i: int| 0 <= i < o2.len() implies block_entries(d2, o2)[i] == block_entries(
        data,
        offsets,
    ).push((k, v))[i] by {
        if i < offsets.len() {
            assert(entry_wf_at_idx(data, offsets, i));
            lemma_entry_parse_stable(data, entry_bytes(k, v), offsets[i] as int);
        }
    }
    assert(block_entries(d2, o2) =~= block_entries(data, offsets).push((k, v)));
}

// ---------------------------------------------------------------------------
// Decoding a block from its disk representation.
// ---------------------------------------------------------------------------
/// The entry count stored in the last two bytes.
pub open spec fn block_decode_count(bytes: Seq<u8>) -> int {
    be_u16(bytes[bytes.len() - 2], bytes[bytes.len() - 1]) as int
}

/// The bytes are long enough to hold their declared offset table.
pub open spec fn block_decode_wf(bytes: Seq<u8>) -> bool {
    bytes.len() >= 2 && bytes.len() >= 2 * (block_decode_count(bytes) + 1)
}

/// First position of the offset table.
pub open spec fn block_decode_table_start(bytes: Seq<u8>) -> int {
    bytes.len() - 2 * (block_decode_count(bytes) + 1)
}

/// The data region preceding the offset table.
pub open spec fn block_decode_data(bytes: Seq<u8>) -> Seq<u8> {
    bytes.subrange(0, block_decode_table_start(bytes))
}

/// The decoded offset array.
pub open spec fn block_decode_offsets(bytes: Seq<u8>) -> Seq<u16> {
    let start = block_decode_table_start(bytes);
    Seq::new(
        block_decode_count(bytes) as nat,
        |i: int| be_u16(bytes[start + 2 * i], bytes[start + 2 * i + 1]),
    )
}

/// Decoding inverts encoding: for any data region and offset array whose
/// count fits its field, the encoded block decodes back to them.
pub proof fn lemma_block_round_trip(data: Seq<u8>, offsets: Seq<u16>)
    requires
        offsets.len() <= 0xFFFF,
    ensures
        block_decode_wf(block_bytes(data, offsets)),
        block_decode_data(block_bytes(data, offsets)) == data,
        block_decode_offsets(block_bytes(data, offsets)) == offsets,
{
    let b = block_bytes(data, offsets);
    lemma_offsets_bytes_len(offsets);
    lemma_u16_be_inverse(offsets.len() as u16);
    assert(b[b.len() - 2] == u16_hi(offsets.len() as u16));
    assert(b[b.len() - 1] == u16_lo(offsets.len() as u16));
    assert(block_decode_count(b) == offsets.len());
    assert(block_decode_table_start(b) == data.len());
    assert(block_decode_data(b) =~= data);
    assert forall|i: int| 0 <= i < offsets.len() implies block_decode_offsets(b)[i]
        == offsets[i] by {
        lemma_offsets_bytes_index(offsets, i);
        assert(b[data.len() + 2 * i] == u16_hi(offsets[i]));
        assert(b[data.len() + 2 * i + 1] == u16_lo(offsets[i]));
        lemma_u16_be_inverse(offsets[i]);
    }
    assert(block_decode_offsets(b) =~= offsets);
}

/// A sorted run of key-value pairs with a packed offset index; the unit of
/// read and caching.
pub struct Block {
    /// The serialized entries, back to back.
    pub data: Vec<u8>,
    /// The start of each entry within `data`.
    pub offsets: Vec<u16>,
}

impl Block {
    /// The parsed entries of this block.
    pub open spec fn entries(&self) -> Seq<EntryView> {
        block_entries(self.data@, self.offsets@)
    }

    /// The block parses safely and its entries are sorted.
    pub open spec fn wf(&self) -> bool {
        &&& block_wf(self.data@, self.offsets@)
        &&& entries_sorted(self.entries())
    }

    /// Produces the disk representation of this block.
    pub fn encode(&self) -> (r: Vec<u8>)
        requires
            self.offsets@.len() <= 0xFFFF,
        ensures
            r@ == block_bytes(self.data@, self.offsets@),
    {
        let mut buffer = copy_range(self.data.as_slice(), 0, self.data.len());
        proof {
            assert(buffer@ =~= self.data@);
        }
        let mut i: usize = 0;
        while i < self.offsets.len()
            invariant
                0 <= i <= self.offsets@.len(),
                buffer@ == self.data@ + offsets_bytes(self.offsets@.take(i as int)),
            decreases self.offsets@.len() - i,
        {
            put_u16(&mut buffer, self.offsets[i]);
            i = i + 1;
            proof {
                assert(self.offsets@.take(i as int) =~= self.offsets@.take(i as int - 1).push(
                    self.offsets@[i as int - 1],
                ));
                lemma_offsets_bytes_push(self.offsets@.take(i as int - 1), self.offsets@[i as int
                    - 1]);
                assert(buffer@ =~= self.data@ + offsets_bytes(self.offsets@.take(i as int)));
            }
        }
        proof {
            assert(self.offsets@.take(self.offsets@.len() as int) =~= self.offsets@);
        }
        put_u16(&mut buffer, self.offsets.len() as u16);
        buffer
    }

    /// Rebuilds a block from its disk representation; the exact inverse of
    /// `encode`. The bytes must be long enough to hold the offset table that
    /// their trailing count declares.
    pub fn decode(data: &[u8]) -> (r: Block)
        requires
            block_decode_wf(data@),
        ensures
            r.data@ == block_decode_data(data@),
            r.offsets@ == block_decode_offsets(data@),
    {
        let len = data.len();
        let count = get_u16_at(data, len - 2) as usize;
        let table_start = len - 2 * (count + 1);
        let block_data = copy_range(data, 0, table_start);
        let mut offsets: Vec<u16> = Vec::new();
        let mut i: usize = 0;
        while i < count
            invariant
                0 <= i <= count,
                count == block_decode_count(data@),
                table_start == block_decode_table_start(data@),
                table_start + 2 * count + 2 == data@.len(),
                data@.len() <= usize::MAX,
                offsets@.len() == i,
                forall|j: int| 0 <= j < i ==> offsets@[j] == block_decode_offsets(data@)[j],
            decreases count - i,
        {
            proof {
                assert(table_start + 2 * i + 2 <= data@.len());
            }
            let off = get_u16_at(data, table_start + 2 * i);
            offsets.push(off);
            i = i + 1;
        }
        proof {
            assert(offsets@ =~= block_decode_offsets(data@));
        }
        Block { data: block_data, offsets }
    }
}

} // verus!
