//! Little-endian field encoding inside fixed 512-byte sectors.
use vstd::prelude::*;

verus! {

/// The 16-bit value stored little-endian at `off`.
pub open spec fn le16(s: Seq<u8>, off: int) -> u16 {
    (s[off] as u16) | ((s[off + 1] as u16) << 8u16)
}

/// The 32-bit value stored little-endian at `off`.
pub open spec fn le32(s: Seq<u8>, off: int) -> u32 {
    (s[off] as u32) | ((s[off + 1] as u32) << 8u32) | ((s[off + 2] as u32) << 16u32) | ((
    s[off + 3] as u32) << 24u32)
}

/// `s` with the little-endian bytes of `v` placed at `off`.
pub open spec fn put16(s: Seq<u8>, off: int, v: u16) -> Seq<u8> {
    s.update(off, (v & 0xff) as u8).update(off + 1, (v >> 8u16) as u8)
}

/// `s` with the little-endian bytes of `v` placed at `off`.
pub open spec fn put32(s: Seq<u8>, off: int, v: u32) -> Seq<u8> {
    s.update(off, (v & 0xff) as u8).update(off + 1, ((v >> 8u32) & 0xff) as u8).update(
        off + 2,
        ((v >> 16u32) & 0xff) as u8,
    ).update(off + 3, (v >> 24u32) as u8)
}

pub proof fn lemma_le16_bytes(v: u16)
    ensures
        ((v & 0xff) as u8 as u16) | (((v >> 8u16) as u8 as u16) << 8u16) == v,
{
    assert(((v & 0xff) as u8 as u16) | (((v >> 8u16) as u8 as u16) << 8u16) == v) by (bit_vector);
}

pub proof fn lemma_le32_bytes(v: u32)
    ensures
        ((v & 0xff) as u8 as u32) | ((((v >> 8u32) & 0xff) as u8 as u32) << 8u32) | ((((v
            >> 16u32) & 0xff) as u8 as u32) << 16u32) | (((v >> 24u32) as u8 as u32) << 24u32)
            == v,
{
    assert(((v & 0xff) as u8 as u32) | ((((v >> 8u32) & 0xff) as u8 as u32) << 8u32) | ((((v
        >> 16u32) & 0xff) as u8 as u32) << 16u32) | (((v >> 24u32) as u8 as u32) << 24u32)
        == v) by (bit_vector);
}

/// A 32-bit value split into its high and low halves joins back.
pub proof fn lemma_halves(v: u32)
    ensures
        (((v >> 16u32) as u16 as u32) << 16u32) | ((v & 0xffff) as u16 as u32) == v,
{
    assert((((v >> 16u32) as u16 as u32) << 16u32) | ((v & 0xffff) as u16 as u32) == v) by (bit_vector);
}

/// Reading back a 32-bit field gives the value written.
pub proof fn lemma_put32_le32(s: Seq<u8>, off: int, v: u32)
    requires
        0 <= off,
        off + 4 <= s.len(),
    ensures
        le32(put32(s, off, v), off) == v,
        put32(s, off, v).len() == s.len(),
{
    lemma_le32_bytes(v);
}

/// Reads the 16-bit little-endian field at `off`.
pub fn get_u16(s: &[u8; 512], off: usize) -> (r: u16)
    requires
        off + 2 <= 512,
    ensures
        r == le16(s@, off as int),
{
    (s[off] as u16) | ((s[off + 1] as u16) << 8u16)
}

/// Reads the 32-bit little-endian field at `off`.
pub fn get_u32(s: &[u8; 512], off: usize) -> (r: u32)
    requires
        off + 4 <= 512,
    ensures
        r == le32(s@, off as int),
{
    (s[off] as u32) | ((s[off + 1] as u32) << 8u32) | ((s[off + 2] as u32) << 16u32) | ((
    s[off + 3] as u32) << 24u32)
}

/// Writes `v` little-endian at `off`.
pub fn set_u16(s: &mut [u8; 512], off: usize, v: u16)
    requires
        off + 2 <= 512,
    ensures
        final(s)@ == put16(old(s)@, off as int, v),
{
    s[off] = (v & 0xff) as u8;
    s[off + 1] = (v >> 8u16) as u8;
}

/// Writes `v` little-endian at `off`.
pub fn set_u32(s: &mut [u8; 512], off: usize, v: u32)
    requires
        off + 4 <= 512,
    ensures
        final(s)@ == put32(old(s)@, off as int, v),
{
    s[off] = (v & 0xff) as u8;
    s[off + 1] = ((v >> 8u32) & 0xff) as u8;
    s[off + 2] = ((v >> 16u32) & 0xff) as u8;
    s[off + 3] = (v >> 24u32) as u8;
}

} // verus!
