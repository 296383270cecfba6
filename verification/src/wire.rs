//! Big-endian integers inside a byte buffer.

use byteorder::{BigEndian, ByteOrder};
use vstd::prelude::*;

verus! {

/// The 16-bit big-endian integer held by the two bytes of `b` that start at `i`.
pub open spec fn be16(b: Seq<u8>, i: int) -> int {
    b[i] as int * 256 + b[i + 1] as int
}

/// The 32-bit big-endian integer held by the four bytes of `b` that start at `i`.
pub open spec fn be32(b: Seq<u8>, i: int) -> int {
    be16(b, i) * 65536 + be16(b, i + 2)
}

/// `b` with the two bytes that start at `i` replaced by `v`, most significant byte first.
pub open spec fn put_be16(b: Seq<u8>, i: int, v: int) -> Seq<u8> {
    b.update(i, (v / 256) as u8).update(i + 1, (v % 256) as u8)
}

/// `b` with the four bytes that start at `i` replaced by `v`, most significant byte first.
pub open spec fn put_be32(b: Seq<u8>, i: int, v: int) -> Seq<u8> {
    put_be16(put_be16(b, i, v / 65536), i + 2, v % 65536)
}

/// Says whether `a` and `b` hold the same bytes.
pub fn same_bytes(a: &[u8], b: &[u8]) -> (r: bool)
    ensures
        r == (a@ == b@),
{
    if a.len() != b.len() {
        return false;
    }
    let mut i: usize = 0;
    while i < a.len()
        invariant
            a@.len() == b@.len(),
            i <= a@.len(),
            forall|j: int| 0 <= j < i ==> a@[j] == b@[j],
        decreases a@.len() - i,
    {
        if a[i] != b[i] {
            return false;
        }
        i += 1;
    }
    assert(a@ =~= b@);
    true
}

/// Calls `byteorder::BigEndian::read_u16` on `buf[offset..]`: the two bytes at
/// `offset` read as one integer, most significant byte first. The outside
/// function panics on fewer than two bytes, which `requires` leaves out.
#[verifier::external_body]
pub(crate) fn read_be16(buf: &[u8], offset: usize) -> (r: u16)
    requires
        offset + 2 <= buf@.len(),
    ensures
        r as int == be16(buf@, offset as int),
{
    BigEndian::read_u16(&buf[offset..])
}

/// Calls `byteorder::BigEndian::read_u32` on `buf[offset..]`: the four bytes at
/// `offset` read as one integer, most significant byte first. The outside
/// function panics on fewer than four bytes, which `requires` leaves out.
#[verifier::external_body]
pub(crate) fn read_be32(buf: &[u8], offset: usize) -> (r: u32)
    requires
        offset + 4 <= buf@.len(),
    ensures
        r as int == be32(buf@, offset as int),
{
    BigEndian::read_u32(&buf[offset..])
}

/// Calls `byteorder::BigEndian::write_u16` on `buf[offset..]`: the two bytes at
/// `offset` become `value`, most significant byte first, and no other byte
/// changes. The outside function panics on fewer than two bytes, which
/// `requires` leaves out.
#[verifier::external_body]
pub(crate) fn write_be16(buf: &mut [u8], offset: usize, value: u16)
    requires
        offset + 2 <= old(buf)@.len(),
    ensures
        final(buf)@ == put_be16(old(buf)@, offset as int, value as int),
{
    BigEndian::write_u16(&mut buf[offset..], value)
}

/// Calls `byteorder::BigEndian::write_u32` on `buf[offset..]`: the four bytes at
/// `offset` become `value`, most significant byte first, and no other byte
/// changes. The outside function panics on fewer than four bytes, which
/// `requires` leaves out.
#[verifier::external_body]
pub(crate) fn write_be32(buf: &mut [u8], offset: usize, value: u32)
    requires
        offset + 4 <= old(buf)@.len(),
    ensures
        final(buf)@ == put_be32(old(buf)@, offset as int, value as int),
{
    BigEndian::write_u32(&mut buf[offset..], value)
}

/// Appends the bytes of `src` from `from` up to `to` to `dst`.
pub fn extend_from_range(dst: &mut Vec<u8>, src: &[u8], from: usize, to: usize)
    requires
        from <= to <= src@.len(),
    ensures
        final(dst)@ == old(dst)@ + src@.subrange(from as int, to as int),
{
    let part = vstd::slice::slice_subrange(src, from, to);
    dst.extend_from_slice(part);
    assert(dst@ =~= old(dst)@ + src@.subrange(from as int, to as int));
}

} // verus!
