//! The tuples of a leaf: the size of the key in two bytes, then the key,
//! then the value.

use vstd::prelude::*;
use crate::codec::{copy_bytes, read_u16, u16_at, write_u16};

verus! {

/// The fixed fields at the start of a leaf tuple.
#[derive(Debug, Clone, Copy)]
pub struct Header {
    /// Size in bytes of the key.
    pub key_size: u16,
}

/// Size in bytes of the header of a leaf tuple.
pub const HEADER_SIZE: usize = 2;

/// Whether `tuple` holds a header and a key of the size that the header gives.
pub open spec fn is_leaf_tuple(tuple: Seq<u8>) -> bool {
    &&& HEADER_SIZE <= tuple.len()
    &&& HEADER_SIZE + u16_at(tuple, 0) <= tuple.len()
}

/// The key of a leaf tuple.
pub open spec fn key_of(tuple: Seq<u8>) -> Seq<u8> {
    tuple.subrange(HEADER_SIZE as int, HEADER_SIZE + u16_at(tuple, 0))
}

/// The value of a leaf tuple.
pub open spec fn value_of(tuple: Seq<u8>) -> Seq<u8> {
    tuple.subrange(HEADER_SIZE + u16_at(tuple, 0), tuple.len() as int)
}

/// The leaf tuple that holds `key` and `value`.
pub open spec fn encoded(key: Seq<u8>, value: Seq<u8>) -> Seq<u8> {
    seq![(key.len() % 256) as u8, (key.len() / 256) as u8] + key + value
}

/// A leaf tuple gives back the key and the value that it was made of.
pub proof fn lemma_encoded(key: Seq<u8>, value: Seq<u8>)
    requires
        key.len() <= u16::MAX,
    ensures
        encoded(key, value).len() == HEADER_SIZE + key.len() + value.len(),
        is_leaf_tuple(encoded(key, value)),
        key_of(encoded(key, value)) == key,
        value_of(encoded(key, value)) == value,
{
    let tuple = encoded(key, value);
    assert(u16_at(tuple, 0) == key.len());
    assert(key_of(tuple) =~= key);
    assert(value_of(tuple) =~= value);
}

/// The size in bytes of the leaf tuple for `key` and `value`.
pub fn size(key: &[u8], value: &[u8]) -> (size: usize)
    requires
        HEADER_SIZE + key@.len() + value@.len() <= usize::MAX,
    ensures
        size == HEADER_SIZE + key@.len() + value@.len(),
{
    HEADER_SIZE + key.len() + value.len()
}

/// Writes the leaf tuple for `key` and `value` into `tuple`.
pub fn write(tuple: &mut [u8], key: &[u8], value: &[u8])
    requires
        key@.len() <= u16::MAX,
        old(tuple)@.len() == HEADER_SIZE + key@.len() + value@.len(),
    ensures
        final(tuple)@ == encoded(key@, value@),
{
    write_u16(tuple, 0, key.len() as u16);
    let (_, rest) = tuple.split_at_mut(HEADER_SIZE);
    let (key_bytes, value_bytes) = rest.split_at_mut(key.len());
    copy_bytes(key_bytes, key);
    copy_bytes(value_bytes, value);
    proof {
        assert(tuple@ =~= encoded(key@, value@));
    }
}

/// The header of a leaf tuple.
pub fn get_header(tuple: &[u8]) -> (header: Header)
    requires
        HEADER_SIZE <= tuple@.len(),
    ensures
        header.key_size == u16_at(tuple@, 0),
{
    Header { key_size: read_u16(tuple, 0) }
}

/// The key of a leaf tuple.
pub fn get_key(tuple: &[u8]) -> (key: &[u8])
    requires
        is_leaf_tuple(tuple@),
    ensures
        key@ == key_of(tuple@),
{
    let key_len = get_header(tuple).key_size as usize;
    vstd::slice::slice_subrange(tuple, HEADER_SIZE, HEADER_SIZE + key_len)
}

/// The value of a leaf tuple.
pub fn get_value(tuple: &[u8]) -> (value: &[u8])
    requires
        is_leaf_tuple(tuple@),
    ensures
        value@ == value_of(tuple@),
{
    let key_len = get_header(tuple).key_size as usize;
    vstd::slice::slice_subrange(tuple, HEADER_SIZE + key_len, tuple.len())
}

} // verus!
