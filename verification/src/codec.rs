//! Big-endian integer encoding: the fixed-width fields of the block and
//! table formats are `u16` and `u32` values stored most-significant byte
//! first.

use vstd::prelude::*;

verus! {

/// High byte of a `u16`.
pub open spec fn u16_hi(v: u16) -> u8 {
    (v / 256) as u8
}

/// Low byte of a `u16`.
pub open spec fn u16_lo(v: u16) -> u8 {
    (v % 256) as u8
}

/// Big-endian byte encoding of a `u16`.
pub open spec fn u16_be(v: u16) -> Seq<u8> {
    seq![u16_hi(v), u16_lo(v)]
}

/// The `u16` read from two big-endian bytes.
pub open spec fn be_u16(hi: u8, lo: u8) -> u16 {
    (hi * 256 + lo) as u16
}

/// Big-endian byte encoding of a `u32`.
pub open spec fn u32_be(v: u32) -> Seq<u8> {
    seq![
        (v / 0x1000000) as u8,
        ((v / 0x10000) % 256) as u8,
        ((v / 256) % 256) as u8,
        (v % 256) as u8,
    ]
}

/// The `u32` read from four big-endian bytes.
pub open spec fn be_u32(b0: u8, b1: u8, b2: u8, b3: u8) -> u32 {
    (b0 * 0x1000000 + b1 * 0x10000 + b2 * 256 + b3) as u32
}

/// Reading back the two bytes of a `u16` yields the original value.
pub proof fn lemma_u16_be_inverse(v: u16)
    ensures
        be_u16(u16_hi(v), u16_lo(v)) == v,
{
}

/// Reading back the four bytes of a `u32` yields the original value.
pub proof fn lemma_u32_be_inverse(v: u32)
    ensures
        be_u32(u32_be(v)[0], u32_be(v)[1], u32_be(v)[2], u32_be(v)[3]) == v,
{
}

/// Appends the two big-endian bytes of `v` to `buf`.
pub fn put_u16(buf: &mut Vec<u8>, v: u16)
    ensures
        final(buf)@ == old(buf)@ + u16_be(v),
{
    buf.push((v / 256) as u8);
    buf.push((v % 256) as u8);
    proof {
        assert(final(buf)@ =~= old(buf)@ + u16_be(v));
    }
}

/// Appends the four big-endian bytes of `v` to `buf`.
pub fn put_u32(buf: &mut Vec<u8>, v: u32)
    ensures
        final(buf)@ == old(buf)@ + u32_be(v),
{
    buf.push((v / 0x1000000) as u8);
    buf.push(((v / 0x10000) % 256) as u8);
    buf.push(((v / 256) % 256) as u8);
    buf.push((v % 256) as u8);
    proof {
        assert(final(buf)@ =~= old(buf)@ + u32_be(v));
    }
}

/// Reads the big-endian `u16` stored at `pos`.
pub fn get_u16_at(data: &[u8], pos: usize) -> (r: u16)
    requires
        pos + 2 <= data@.len(),
    ensures
        r == be_u16(data@[pos as int], data@[pos + 1]),
{
    let hi = data[pos];
    let lo = data[pos + 1];
    hi as u16 * 256 + lo as u16
}

/// Reads the big-endian `u32` stored at `pos`.
pub fn get_u32_at(data: &[u8], pos: usize) -> (r: u32)
    requires
        pos + 4 <= data@.len(),
    ensures
        r == be_u32(data@[pos as int], data@[pos + 1], data@[pos + 2], data@[pos + 3]),
{
    let b0 = data[pos];
    let b1 = data[pos + 1];
    let b2 = data[pos + 2];
    let b3 = data[pos + 3];
    b0 as u32 * 0x1000000 + b1 as u32 * 0x10000 + b2 as u32 * 256 + b3 as u32
}

/// Appends every byte of `s` to `buf`.
pub fn append_slice(buf: &mut Vec<u8>, s: &[u8])
    ensures
        final(buf)@ == old(buf)@ + s@,
{
    let mut i: usize = 0;
    while i < s.len()
        invariant
            0 <= i <= s@.len(),
            buf@ == old(buf)@ + s@.subrange(0, i as int),
        decreases s@.len() - i,
    {
        buf.push(s[i]);
        i = i + 1;
        proof {
            assert(buf@ =~= old(buf)@ + s@.subrange(0, i as int));
        }
    }
    proof {
        assert(s@.subrange(0, s@.len() as int) =~= s@);
    }
}

/// Copies `data[start..end]` into a fresh vector.
pub fn copy_range(data: &[u8], start: usize, end: usize) -> (r: Vec<u8>)
    requires
        start <= end <= data@.len(),
    ensures
        r@ == data@.subrange(start as int, end as int),
{
    let mut r: Vec<u8> = Vec::new();
    let mut i: usize = start;
    while i < end
        invariant
            start <= i <= end <= data@.len(),
            r@ == data@.subrange(start as int, i as int),
        decreases end - i,
    {
        r.push(data[i]);
        i = i + 1;
        proof {
            assert(r@ =~= data@.subrange(start as int, i as int));
        }
    }
    r
}

} // verus!
