//! Little-endian integers read from byte buffers through `byteorder`.
use vstd::prelude::*;
use byteorder::ByteOrder;

verus! {

/// The `u16` whose little-endian bytes start at `b[i]`.
pub open spec fn le_u16_at(b: Seq<u8>, i: int) -> u16 {
    (b[i] + 256 * b[i + 1]) as u16
}

/// The `u32` whose little-endian bytes start at `b[i]`.
pub open spec fn le_u32_at(b: Seq<u8>, i: int) -> u32 {
    (b[i] + 256 * b[i + 1] + 65536 * b[i + 2] + 16777216 * b[i + 3]) as u32
}

/// `byteorder::LittleEndian::read_u16`: the `u16` whose little-endian
/// encoding is the first two bytes of `buf` (it panics on shorter buffers,
/// which `requires` rules out).
#[verifier::external_body]
pub(crate) fn read_u16_le(buf: &[u8]) -> (r: u16)
    requires
        buf@.len() >= 2,
    ensures
        r == le_u16_at(buf@, 0),
{
    byteorder::LittleEndian::read_u16(buf)
}

/// `byteorder::LittleEndian::read_u32`: the `u32` whose little-endian
/// encoding is the first four bytes of `buf` (it panics on shorter buffers,
/// which `requires` rules out).
#[verifier::external_body]
pub(crate) fn read_u32_le(buf: &[u8]) -> (r: u32)
    requires
        buf@.len() >= 4,
    ensures
        r == le_u32_at(buf@, 0),
{
    byteorder::LittleEndian::read_u32(buf)
}

/// The little-endian `u16` at offset `pos` of `bytes`.
pub fn u16_at(bytes: &[u8], pos: usize) -> (r: u16)
    requires
        pos + 2 <= bytes@.len(),
    ensures
        r == le_u16_at(bytes@, pos as int),
{
    let part = &bytes[pos..bytes.len()];
    assert(part@ =~= bytes@.subrange(pos as int, bytes@.len() as int));
    read_u16_le(part)
}

/// The little-endian `u32` at offset `pos` of `bytes`.
pub fn u32_at(bytes: &[u8], pos: usize) -> (r: u32)
    requires
        pos + 4 <= bytes@.len(),
    ensures
        r == le_u32_at(bytes@, pos as int),
{
    let part = &bytes[pos..bytes.len()];
    assert(part@ =~= bytes@.subrange(pos as int, bytes@.len() as int));
    read_u32_le(part)
}

} // verus!
