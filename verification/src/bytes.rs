//! Little-endian encodings.

use vstd::prelude::*;

verus! {

/// The two little-endian bytes of `x`.
pub open spec fn le16(x: u16) -> Seq<u8> {
    seq![(x & 0xFF) as u8, (x >> 8) as u8]
}

/// The four little-endian bytes of `x`.
pub open spec fn le32(x: u32) -> Seq<u8> {
    seq![
        (x & 0xFF) as u8,
        ((x >> 8) & 0xFF) as u8,
        ((x >> 16) & 0xFF) as u8,
        ((x >> 24) & 0xFF) as u8,
    ]
}

/// The eight little-endian bytes of `x`.
pub open spec fn le64(x: u64) -> Seq<u8> {
    seq![
        (x & 0xFF) as u8,
        ((x >> 8) & 0xFF) as u8,
        ((x >> 16) & 0xFF) as u8,
        ((x >> 24) & 0xFF) as u8,
        ((x >> 32) & 0xFF) as u8,
        ((x >> 40) & 0xFF) as u8,
        ((x >> 48) & 0xFF) as u8,
        ((x >> 56) & 0xFF) as u8,
    ]
}

/// Append the little-endian bytes of `x`.
pub fn put_le16(out: &mut Vec<u8>, x: u16)
    ensures
        final(out)@ == old(out)@ + le16(x),
{
    out.push((x & 0xFF) as u8);
    out.push((x >> 8) as u8);
    assert(out@ =~= old(out)@ + le16(x));
}

/// Append the little-endian bytes of `x`.
pub fn put_le32(out: &mut Vec<u8>, x: u32)
    ensures
        final(out)@ == old(out)@ + le32(x),
{
    out.push((x & 0xFF) as u8);
    out.push(((x >> 8) & 0xFF) as u8);
    out.push(((x >> 16) & 0xFF) as u8);
    out.push(((x >> 24) & 0xFF) as u8);
    assert(out@ =~= old(out)@ + le32(x));
}

/// Append the little-endian bytes of `x`.
pub fn put_le64(out: &mut Vec<u8>, x: u64)
    ensures
        final(out)@ == old(out)@ + le64(x),
{
    out.push((x & 0xFF) as u8);
    out.push(((x >> 8) & 0xFF) as u8);
    out.push(((x >> 16) & 0xFF) as u8);
    out.push(((x >> 24) & 0xFF) as u8);
    out.push(((x >> 32) & 0xFF) as u8);
    out.push(((x >> 40) & 0xFF) as u8);
    out.push(((x >> 48) & 0xFF) as u8);
    out.push(((x >> 56) & 0xFF) as u8);
    assert(out@ =~= old(out)@ + le64(x));
}

/// Append all bytes of `data`.
pub fn put_bytes(out: &mut Vec<u8>, data: &[u8])
    ensures
        final(out)@ == old(out)@ + data@,
{
    out.extend_from_slice(data);
    assert(out@ =~= old(out)@ + data@);
}

/// Append `count` zero bytes.
pub fn put_zeros(out: &mut Vec<u8>, count: usize)
    ensures
        final(out)@ == old(out)@ + Seq::new(count as nat, |i: int| 0u8),
{
    let mut i: usize = 0;
    while i < count
        invariant
            i <= count,
            out@ == old(out)@ + Seq::new(i as nat, |i: int| 0u8),
        decreases count - i,
    {
        out.push(0);
        i = i + 1;
        assert(out@ =~= old(out)@ + Seq::new(i as nat, |i: int| 0u8));
    }
}

proof fn lemma_le_bits(x: u16, y: u32, z: u64)
    by (bit_vector)
    ensures
        ((x & 0xFF) as u8) as int + 256 * ((x >> 8) as u8) == x,
        ((y & 0xFF) as u8) as int + 256 * (((y >> 8) & 0xFF) as u8) + 65536 * (((y >> 16) & 0xFF)
            as u8) + 0x100_0000 * (((y >> 24) & 0xFF) as u8) == y,
        ((z & 0xFF) as u8) as int + 256 * (((z >> 8) & 0xFF) as u8) + 65536 * (((z >> 16) & 0xFF)
            as u8) + 0x100_0000 * (((z >> 24) & 0xFF) as u8) + 0x1_0000_0000 * (((z >> 32) & 0xFF)
            as u8) + 0x100_0000_0000 * (((z >> 40) & 0xFF) as u8) + 0x1_0000_0000_0000 * (((z
            >> 48) & 0xFF) as u8) + 0x100_0000_0000_0000 * (((z >> 56) & 0xFF) as u8) == z,
{
}

/// Two bytes, the low one first, that add up to the number.
pub proof fn law_le16(x: u16)
    ensures
        le16(x).len() == 2,
        le16(x)[0] + 0x100 * le16(x)[1] == x,
{
    lemma_le_bits(x, 0, 0);
}

/// Four bytes, the lowest first, that add up to the number.
pub proof fn law_le32(x: u32)
    ensures
        le32(x).len() == 4,
        le32(x)[0] + 0x100 * le32(x)[1] + 0x1_0000 * le32(x)[2] + 0x100_0000 * le32(x)[3] == x,
{
    lemma_le_bits(0, x, 0);
}

/// Eight bytes, the lowest first, that add up to the number.
pub proof fn law_le64(x: u64)
    ensures
        le64(x).len() == 8,
        le64(x)[0] + 0x100 * le64(x)[1] + 0x1_0000 * le64(x)[2] + 0x100_0000 * le64(x)[3]
            + 0x1_0000_0000 * le64(x)[4] + 0x100_0000_0000 * le64(x)[5] + 0x1_0000_0000_0000
            * le64(x)[6] + 0x100_0000_0000_0000 * le64(x)[7] == x,
{
    lemma_le_bits(0, 0, x);
}

} // verus!
