//! The tuples of an internal node: the identifier of a child page in four
//! bytes, then the separator key.

use vstd::prelude::*;
use crate::codec::{copy_bytes, read_u32, u32_at, write_u32};
use crate::disk_manager::PageId;

verus! {

/// The fixed fields at the start of a pivot tuple.
#[derive(Debug, Clone, Copy)]
pub struct Header {
    /// The child page that holds the keys from the separator key on.
    pub downlink_pointer: PageId,
}

/// Size in bytes of the header of a pivot tuple.
pub const HEADER_SIZE: usize = 4;

/// Whether `tuple` holds a header.
pub open spec fn is_pivot_tuple(tuple: Seq<u8>) -> bool {
    HEADER_SIZE <= tuple.len()
}

/// The child page of a pivot tuple.
pub open spec fn downlink_of(tuple: Seq<u8>) -> PageId {
    PageId(u32_at(tuple, 0) as u32)
}

/// The separator key of a pivot tuple.
pub open spec fn key_of(tuple: Seq<u8>) -> Seq<u8> {
    tuple.subrange(HEADER_SIZE as int, tuple.len() as int)
}

/// The pivot tuple that holds `downlink` and `key`.
pub open spec fn encoded(downlink: PageId, key: Seq<u8>) -> Seq<u8> {
    seq![
        (downlink.0 % 256) as u8,
        ((downlink.0 / 256) % 256) as u8,
        ((downlink.0 / 65536) % 256) as u8,
        (downlink.0 / 16777216) as u8,
    ] + key
}

/// A pivot tuple gives back the child and the key that it was made of.
pub proof fn lemma_encoded(downlink: PageId, key: Seq<u8>)
    ensures
        encoded(downlink, key).len() == HEADER_SIZE + key.len(),
        is_pivot_tuple(encoded(downlink, key)),
        downlink_of(encoded(downlink, key)) == downlink,
        key_of(encoded(downlink, key)) == key,
{
    let tuple = encoded(downlink, key);
    assert(u32_at(tuple, 0) == downlink.0);
    assert(key_of(tuple) =~= key);
}

/// The size in bytes of the pivot tuple for `key`.
pub fn size(key: &[u8]) -> (size: usize)
    requires
        HEADER_SIZE + key@.len() <= usize::MAX,
    ensures
        size == HEADER_SIZE + key@.len(),
{
    HEADER_SIZE + key.len()
}

/// Writes the pivot tuple for `downlink_pointer` and `key` into `tuple`.
pub fn write(tuple: &mut [u8], downlink_pointer: PageId, key: &[u8])
    requires
        old(tuple)@.len() == HEADER_SIZE + key@.len(),
    ensures
        final(tuple)@ == encoded(downlink_pointer, key@),
{
    write_u32(tuple, 0, downlink_pointer.0);
    let (_, key_bytes) = tuple.split_at_mut(HEADER_SIZE);
    copy_bytes(key_bytes, key);
    proof {
        assert(tuple@ =~= encoded(downlink_pointer, key@));
    }
}

/// The header of a pivot tuple.
pub fn get_header(tuple: &[u8]) -> (header: Header)
    requires
        is_pivot_tuple(tuple@),
    ensures
        header.downlink_pointer == downlink_of(tuple@),
{
    Header { downlink_pointer: PageId(read_u32(tuple, 0)) }
}

/// The separator key of a pivot tuple.
pub fn get_key(tuple: &[u8]) -> (key: &[u8])
    requires
        is_pivot_tuple(tuple@),
    ensures
        key@ == key_of(tuple@),
{
    vstd::slice::slice_subrange(tuple, HEADER_SIZE, tuple.len())
}

} // verus!
