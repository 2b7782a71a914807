//! An internal page with fixed entry descriptors: for each key the child
//! page, and where the bytes of the key lie.
//!
//! ```text
//! | key count (2) | free space pointer (2) |
//! | child[0] (4) | key offset[0] (2) | key size[0] (2) | ... | free space | keys |
//!                                                                         ^ free space pointer
//! ```

use vstd::prelude::*;
use crate::codec::{read_u16, read_u32, u16_at, u32_at, write_u16, write_u32};
use crate::disk_manager::{PageData, PageId, PAGE_SIZE};

verus! {

/// Where the key count stands.
pub const OFFSET_KEY_COUNT: usize = 0x00;

/// Where the free space pointer stands.
pub const OFFSET_FREE_SPACE_PTR: usize = 0x02;

/// Where the entry descriptors start.
pub const OFFSET_ENTRY_DESCRIPTORS: usize = 0x04;

/// Size in bytes of one entry descriptor.
pub const SIZE_ENTRY_DESCRIPTOR: usize = 8;

/// Where in a descriptor the child page stands.
pub const OFFSET_CHILD_POINTER: usize = 0;

/// Where in a descriptor the offset of the key stands.
pub const OFFSET_KEY_OFFSET: usize = 4;

/// Where in a descriptor the size of the key stands.
pub const OFFSET_KEY_SIZE: usize = 6;

/// Index of an entry within its page.
pub type SlotIndex = usize;

/// Why a page operation failed.
#[derive(PartialEq, Eq, Structural, Debug)]
pub enum Error {
    /// The entry does not fit into the free space of the page.
    PageFull,
}

/// The key count recorded in the header.
pub open spec fn key_count_of(bytes: Seq<u8>) -> int {
    u16_at(bytes, OFFSET_KEY_COUNT as int)
}

/// The free space pointer recorded in the header.
pub open spec fn free_space_ptr_of(bytes: Seq<u8>) -> int {
    u16_at(bytes, OFFSET_FREE_SPACE_PTR as int)
}

/// Where the descriptor of entry `index` starts.
pub open spec fn descriptor_offset(index: int) -> int {
    OFFSET_ENTRY_DESCRIPTORS + SIZE_ENTRY_DESCRIPTOR * index
}

/// The raw identifier of the child page of entry `index`.
pub open spec fn child_pointer_of(bytes: Seq<u8>, index: int) -> int {
    u32_at(bytes, descriptor_offset(index) + OFFSET_CHILD_POINTER)
}

/// The offset of the key of entry `index`.
pub open spec fn key_offset_of(bytes: Seq<u8>, index: int) -> int {
    u16_at(bytes, descriptor_offset(index) + OFFSET_KEY_OFFSET)
}

/// The size of the key of entry `index`.
pub open spec fn key_size_of(bytes: Seq<u8>, index: int) -> int {
    u16_at(bytes, descriptor_offset(index) + OFFSET_KEY_SIZE)
}

/// The key of entry `index`.
pub open spec fn key_of(bytes: Seq<u8>, index: int) -> Seq<u8> {
    bytes.subrange(key_offset_of(bytes, index), key_offset_of(bytes, index) + key_size_of(bytes, index))
}

/// Whether entry `index` has its descriptor and its key inside the page.
pub open spec fn entry_in_page(bytes: Seq<u8>, index: int) -> bool {
    &&& 0 <= index
    &&& descriptor_offset(index) + SIZE_ENTRY_DESCRIPTOR <= PAGE_SIZE
    &&& key_offset_of(bytes, index) + key_size_of(bytes, index) <= PAGE_SIZE
}

/// An internal page over one page of bytes.
pub struct InternalPage {
    data: PageData,
}

impl View for InternalPage {
    type V = Seq<u8>;

    closed spec fn view(&self) -> Seq<u8> {
        self.data@
    }
}

impl InternalPage {
    /// Takes over bytes that already hold an internal page.
    pub fn from_existing(data: PageData) -> (page: Self)
        ensures
            page@ == data@,
    {
        InternalPage { data }
    }

    /// The bytes of the page.
    pub fn unwrap(&self) -> (data: &PageData)
        ensures
            data@ == self@,
    {
        &self.data
    }

    /// The bytes of the page.
    pub fn data(&self) -> (data: &PageData)
        ensures
            data@ == self@,
    {
        &self.data
    }

    /// The bytes free between the descriptors and the lowest key.
    pub fn free_space(&self) -> (free: usize)
        requires
            OFFSET_ENTRY_DESCRIPTORS + SIZE_ENTRY_DESCRIPTOR * key_count_of(self@)
                <= free_space_ptr_of(self@),
        ensures
            free == free_space_ptr_of(self@) - OFFSET_ENTRY_DESCRIPTORS - SIZE_ENTRY_DESCRIPTOR
                * key_count_of(self@),
    {
        self.get_free_space_ptr() - OFFSET_ENTRY_DESCRIPTORS - self.get_key_count()
            * SIZE_ENTRY_DESCRIPTOR
    }

    /// The free space pointer.
    pub fn get_free_space_ptr(&self) -> (pointer: usize)
        ensures
            pointer == free_space_ptr_of(self@),
    {
        self.read_u16(OFFSET_FREE_SPACE_PTR) as usize
    }

    /// The number of entries.
    pub fn get_key_count(&self) -> (count: usize)
        ensures
            count == key_count_of(self@),
    {
        self.read_u16(OFFSET_KEY_COUNT) as usize
    }

    /// The key of entry `index`.
    pub fn get_key(&self, index: SlotIndex) -> (key: &[u8])
        requires
            entry_in_page(self@, index as int),
        ensures
            key@ == key_of(self@, index as int),
    {
        let (offset, size) = self.get_key_descriptor(index);
        let all: &[u8] = &self.data;
        vstd::slice::slice_subrange(all, offset, offset + size)
    }

    /// The child page of entry `index`.
    pub fn get_child_pointer(&self, index: SlotIndex) -> (child: PageId)
        requires
            descriptor_offset(index as int) + SIZE_ENTRY_DESCRIPTOR <= PAGE_SIZE,
        ensures
            child.0 == child_pointer_of(self@, index as int),
    {
        PageId(
            self.read_u32(
                OFFSET_ENTRY_DESCRIPTORS + SIZE_ENTRY_DESCRIPTOR * index + OFFSET_CHILD_POINTER,
            ),
        )
    }

    /// The offset and the size of the key of entry `index`.
    pub fn get_key_descriptor(&self, index: usize) -> (descriptor: (usize, usize))
        requires
            descriptor_offset(index as int) + SIZE_ENTRY_DESCRIPTOR <= PAGE_SIZE,
        ensures
            descriptor.0 == key_offset_of(self@, index as int),
            descriptor.1 == key_size_of(self@, index as int),
    {
        (
            self.read_u16(
                OFFSET_ENTRY_DESCRIPTORS + SIZE_ENTRY_DESCRIPTOR * index + OFFSET_KEY_OFFSET,
            ) as usize,
            self.read_u16(
                OFFSET_ENTRY_DESCRIPTORS + SIZE_ENTRY_DESCRIPTOR * index + OFFSET_KEY_SIZE,
            ) as usize,
        )
    }

    /// The 32-bit value stored at `offset`.
    fn read_u32(&self, offset: usize) -> (value: u32)
        requires
            offset + 4 <= PAGE_SIZE,
        ensures
            value == u32_at(self@, offset as int),
    {
        read_u32(&self.data, offset)
    }

    /// The 16-bit value stored at `offset`.
    fn read_u16(&self, offset: usize) -> (value: u16)
        requires
            offset + 2 <= PAGE_SIZE,
        ensures
            value == u16_at(self@, offset as int),
    {
        read_u16(&self.data, offset)
    }

    /// Lays out a page without entries in `data`.
    ///
    /// Bytes after the header are left as they were.
    pub fn new(data: PageData) -> (page: Self)
        ensures
            free_space_ptr_of(page@) == PAGE_SIZE,
            key_count_of(page@) == 0,
            forall|i: int| OFFSET_ENTRY_DESCRIPTORS <= i < PAGE_SIZE ==> page@[i] == data@[i],
    {
        let mut page = InternalPage { data };
        page.set_free_space_ptr(PAGE_SIZE as u16);
        page.set_key_count(0);
        page
    }

    /// Records the free space pointer.
    pub fn set_free_space_ptr(&mut self, value: u16)
        ensures
            free_space_ptr_of(final(self)@) == value,
            forall|i: int|
                0 <= i < PAGE_SIZE && !(OFFSET_FREE_SPACE_PTR <= i < OFFSET_FREE_SPACE_PTR + 2)
                    ==> final(self)@[i] == old(self)@[i],
    {
        self.write_u16(OFFSET_FREE_SPACE_PTR, value);
    }

    /// Records the number of entries.
    pub fn set_key_count(&mut self, value: u16)
        ensures
            key_count_of(final(self)@) == value,
            forall|i: int|
                0 <= i < PAGE_SIZE && !(OFFSET_KEY_COUNT <= i < OFFSET_KEY_COUNT + 2)
                    ==> final(self)@[i] == old(self)@[i],
    {
        self.write_u16(OFFSET_KEY_COUNT, value);
    }

    /// Records the offset and the size of the key of entry `index`.
    pub fn set_key_descriptor(&mut self, index: usize, offset: u16, size: u16)
        requires
            descriptor_offset(index as int) + SIZE_ENTRY_DESCRIPTOR <= PAGE_SIZE,
        ensures
            key_offset_of(final(self)@, index as int) == offset,
            key_size_of(final(self)@, index as int) == size,
            forall|i: int|
                0 <= i < PAGE_SIZE && !(descriptor_offset(index as int) + OFFSET_KEY_OFFSET <= i
                    < descriptor_offset(index as int + 1)) ==> final(self)@[i] == old(self)@[i],
    {
        self.write_u16(
            OFFSET_ENTRY_DESCRIPTORS + SIZE_ENTRY_DESCRIPTOR * index + OFFSET_KEY_OFFSET,
            offset,
        );
        self.write_u16(
            OFFSET_ENTRY_DESCRIPTORS + SIZE_ENTRY_DESCRIPTOR * index + OFFSET_KEY_SIZE,
            size,
        );
    }

    /// Records the child page of entry `index`.
    pub fn set_child_pointer(&mut self, index: usize, value: PageId)
        requires
            descriptor_offset(index as int) + SIZE_ENTRY_DESCRIPTOR <= PAGE_SIZE,
        ensures
            child_pointer_of(final(self)@, index as int) == value.0,
            forall|i: int|
                0 <= i < PAGE_SIZE && !(descriptor_offset(index as int) <= i < descriptor_offset(
                    index as int,
                ) + OFFSET_KEY_OFFSET) ==> final(self)@[i] == old(self)@[i],
    {
        self.write_u32(
            OFFSET_ENTRY_DESCRIPTORS + SIZE_ENTRY_DESCRIPTOR * index + OFFSET_CHILD_POINTER,
            value.0,
        );
    }

    /// Stores the 32-bit `value` at `offset`.
    fn write_u32(&mut self, offset: usize, value: u32)
        requires
            offset + 4 <= PAGE_SIZE,
        ensures
            u32_at(final(self)@, offset as int) == value,
            forall|i: int|
                0 <= i < PAGE_SIZE && (i < offset || i >= offset + 4) ==> final(self)@[i] == old(
                    self,
                )@[i],
    {
        write_u32(&mut self.data, offset, value);
    }

    /// Stores the 16-bit `value` at `offset`.
    fn write_u16(&mut self, offset: usize, value: u16)
        requires
            offset + 2 <= PAGE_SIZE,
        ensures
            u16_at(final(self)@, offset as int) == value,
            forall|i: int|
                0 <= i < PAGE_SIZE && (i < offset || i >= offset + 2) ==> final(self)@[i] == old(
                    self,
                )@[i],
    {
        write_u16(&mut self.data, offset, value);
    }
}

} // verus!
