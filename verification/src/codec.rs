//! Little-endian integers inside byte buffers.
//!
//! Every multi-byte field of the on-page formats is stored least significant
//! byte first, at any alignment.

use vstd::prelude::*;

verus! {

/// The 16-bit value stored at `offset`.
pub open spec fn u16_at(bytes: Seq<u8>, offset: int) -> int {
    bytes[offset] as int + 256 * (bytes[offset + 1] as int)
}

/// The 32-bit value stored at `offset`.
pub open spec fn u32_at(bytes: Seq<u8>, offset: int) -> int {
    bytes[offset] as int + 256 * (bytes[offset + 1] as int) + 65536 * (bytes[offset + 2] as int)
        + 16777216 * (bytes[offset + 3] as int)
}

/// `bytes` with the 16-bit `value` stored at `offset`.
pub open spec fn with_u16(bytes: Seq<u8>, offset: int, value: int) -> Seq<u8> {
    bytes.update(offset, (value % 256) as u8).update(offset + 1, (value / 256) as u8)
}

/// `bytes` with the 32-bit `value` stored at `offset`.
pub open spec fn with_u32(bytes: Seq<u8>, offset: int, value: int) -> Seq<u8> {
    bytes.update(offset, (value % 256) as u8).update(
        offset + 1,
        ((value / 256) % 256) as u8,
    ).update(offset + 2, ((value / 65536) % 256) as u8).update(
        offset + 3,
        (value / 16777216) as u8,
    )
}

/// A stored 16-bit value lies in the range of 16 bits.
pub proof fn lemma_u16_at_range(bytes: Seq<u8>, offset: int)
    ensures
        0 <= u16_at(bytes, offset) < 65536,
{
}

/// A stored 32-bit value lies in the range of 32 bits.
pub proof fn lemma_u32_at_range(bytes: Seq<u8>, offset: int)
    ensures
        0 <= u32_at(bytes, offset) < 0x1_0000_0000,
{
}

/// A stored 16-bit value reads back, and fields elsewhere are untouched.
pub proof fn lemma_with_u16(bytes: Seq<u8>, offset: int, value: int)
    requires
        0 <= offset,
        offset + 2 <= bytes.len(),
        0 <= value < 65536,
    ensures
        with_u16(bytes, offset, value).len() == bytes.len(),
        u16_at(with_u16(bytes, offset, value), offset) == value,
        forall|i: int|
            0 <= i < bytes.len() && (i < offset || i >= offset + 2) ==> with_u16(
                bytes,
                offset,
                value,
            )[i] == bytes[i],
{
}

/// A stored 32-bit value reads back, and fields elsewhere are untouched.
pub proof fn lemma_with_u32(bytes: Seq<u8>, offset: int, value: int)
    requires
        0 <= offset,
        offset + 4 <= bytes.len(),
        0 <= value < 0x1_0000_0000,
    ensures
        with_u32(bytes, offset, value).len() == bytes.len(),
        u32_at(with_u32(bytes, offset, value), offset) == value,
        forall|i: int|
            0 <= i < bytes.len() && (i < offset || i >= offset + 4) ==> with_u32(
                bytes,
                offset,
                value,
            )[i] == bytes[i],
{
}

/// The 64-bit value stored at `offset`.
pub open spec fn u64_at(bytes: Seq<u8>, offset: int) -> int {
    u32_at(bytes, offset) + 0x1_0000_0000 * u32_at(bytes, offset + 4)
}

/// The four bytes that store the 32-bit `value`.
pub open spec fn u32_bytes(value: int) -> Seq<u8> {
    seq![
        (value % 256) as u8,
        ((value / 256) % 256) as u8,
        ((value / 65536) % 256) as u8,
        (value / 16777216) as u8,
    ]
}

/// The eight bytes that store the 64-bit `value`.
pub open spec fn u64_bytes(value: int) -> Seq<u8> {
    u32_bytes(value % 0x1_0000_0000) + u32_bytes(value / 0x1_0000_0000)
}

/// The 64-bit value that stands for `value` in two's complement.
pub open spec fn unsigned_of(value: int) -> int {
    if value < 0 {
        value + 0x1_0000_0000_0000_0000
    } else {
        value
    }
}

/// The signed value that the 64-bit `value` stands for in two's complement.
pub open spec fn signed_of(value: int) -> int {
    if value >= 0x8000_0000_0000_0000 {
        value - 0x1_0000_0000_0000_0000
    } else {
        value
    }
}

/// The bytes of a 32-bit value read back as the value, whatever follows.
pub proof fn lemma_u32_bytes(value: int, rest: Seq<u8>)
    requires
        0 <= value < 0x1_0000_0000,
    ensures
        u32_bytes(value).len() == 4,
        u32_at(u32_bytes(value) + rest, 0) == value,
{
}

/// The bytes of a 64-bit value read back as the value, whatever follows.
pub proof fn lemma_u64_bytes(value: int, rest: Seq<u8>)
    requires
        0 <= value < 0x1_0000_0000_0000_0000,
    ensures
        u64_bytes(value).len() == 8,
        u64_at(u64_bytes(value) + rest, 0) == value,
{
    let low = value % 0x1_0000_0000;
    let high = value / 0x1_0000_0000;
    let bytes = u64_bytes(value) + rest;
    lemma_u32_bytes(low, u32_bytes(high) + rest);
    lemma_u32_bytes(high, rest);
    assert(bytes =~= u32_bytes(low) + (u32_bytes(high) + rest));
    assert(u32_at(bytes, 4) == u32_at(u32_bytes(high) + rest, 0));
}

/// A signed 64-bit value comes back from the value that stands for it.
pub proof fn lemma_signed_unsigned(value: int)
    requires
        -0x8000_0000_0000_0000 <= value < 0x8000_0000_0000_0000,
    ensures
        0 <= unsigned_of(value) < 0x1_0000_0000_0000_0000,
        signed_of(unsigned_of(value)) == value,
{
}

/// Reads the 16-bit value stored at `offset`.
pub fn read_u16(bytes: &[u8], offset: usize) -> (value: u16)
    requires
        offset + 2 <= bytes@.len(),
    ensures
        value as int == u16_at(bytes@, offset as int),
{
    let lo: u16 = bytes[offset] as u16;
    let hi: u16 = bytes[offset + 1] as u16;
    lo + 256 * hi
}

/// Reads the 32-bit value stored at `offset`.
pub fn read_u32(bytes: &[u8], offset: usize) -> (value: u32)
    requires
        offset + 4 <= bytes@.len(),
    ensures
        value as int == u32_at(bytes@, offset as int),
{
    let b0: u32 = bytes[offset] as u32;
    let b1: u32 = bytes[offset + 1] as u32;
    let b2: u32 = bytes[offset + 2] as u32;
    let b3: u32 = bytes[offset + 3] as u32;
    b0 + 256 * b1 + 65536 * b2 + 16777216 * b3
}

/// Stores the 16-bit `value` at `offset`.
pub fn write_u16(bytes: &mut [u8], offset: usize, value: u16)
    requires
        offset + 2 <= old(bytes)@.len(),
    ensures
        final(bytes)@ == with_u16(old(bytes)@, offset as int, value as int),
        final(bytes)@.len() == old(bytes)@.len(),
        u16_at(final(bytes)@, offset as int) == value,
        forall|i: int|
            0 <= i < old(bytes)@.len() && (i < offset || i >= offset + 2) ==> final(bytes)@[i]
                == old(bytes)@[i],
{
    bytes[offset] = (value % 256) as u8;
    bytes[offset + 1] = (value / 256) as u8;
    proof {
        lemma_with_u16(old(bytes)@, offset as int, value as int);
    }
}

/// Stores the 32-bit `value` at `offset`.
pub fn write_u32(bytes: &mut [u8], offset: usize, value: u32)
    requires
        offset + 4 <= old(bytes)@.len(),
    ensures
        final(bytes)@ == with_u32(old(bytes)@, offset as int, value as int),
        final(bytes)@.len() == old(bytes)@.len(),
        u32_at(final(bytes)@, offset as int) == value,
        forall|i: int|
            0 <= i < old(bytes)@.len() && (i < offset || i >= offset + 4) ==> final(bytes)@[i]
                == old(bytes)@[i],
{
    bytes[offset] = (value % 256) as u8;
    bytes[offset + 1] = ((value / 256) % 256) as u8;
    bytes[offset + 2] = ((value / 65536) % 256) as u8;
    bytes[offset + 3] = (value / 16777216) as u8;
    proof {
        lemma_with_u32(old(bytes)@, offset as int, value as int);
    }
}

/// Copies `src` over `dst`, which has the same length.
pub fn copy_bytes(dst: &mut [u8], src: &[u8])
    requires
        old(dst)@.len() == src@.len(),
    ensures
        final(dst)@ == src@,
{
    let n = src.len();
    let mut i: usize = 0;
    while i < n
        invariant
            i <= n,
            n == src@.len(),
            dst@.len() == n,
            forall|j: int| 0 <= j < i ==> dst@[j] == src@[j],
        decreases n - i,
    {
        dst[i] = src[i];
        i += 1;
    }
}

} // verus!
