//! The page of a table heap: tuples appended from the end of the page
//! downward, their descriptors upward from the header, and a link to the
//! next page of the heap.
//!
//! ```text
//! | page id (4) | lsn (4) | previous page (4) | next page (4) |
//! | free space pointer (4) | tuple count (4) |
//! | offset[0] (4) | size[0] (4) | ... | free space | tuples |
//!                                                  ^ free space pointer
//! ```

use vstd::prelude::*;
use crate::codec::{copy_bytes, lemma_u32_at_range, read_u32, u32_at, write_u32};
use crate::disk_manager::{PageData, PageId, INVALID_PAGE_ID, PAGE_SIZE};
use crate::page::{lemma_spliced, same_outside, spliced};

verus! {

/// Where the identifier of the next page stands.
pub const OFFSET_NEXT_PAGE_ID: usize = 0x0c;

/// Where the free space pointer stands.
pub const OFFSET_FREE_SPACE_PTR: usize = 0x10;

/// Where the tuple count stands.
pub const OFFSET_TUPLE_COUNT: usize = 0x14;

/// Where the tuple descriptors start.
pub const OFFSET_TUPLE_DESCRIPTORS: usize = 0x18;

/// Size in bytes of one tuple descriptor.
pub const SIZE_TUPLE_DESCRIPTOR: usize = 8;

/// Index of a tuple within its page.
pub type SlotIndex = usize;

/// Why a page operation failed.
#[derive(PartialEq, Eq, Structural, Debug)]
pub enum Error {
    /// The tuple does not fit into the free space of the page.
    PageFull,
}

/// The free space pointer recorded in the header.
pub open spec fn free_space_ptr_of(bytes: Seq<u8>) -> int {
    u32_at(bytes, OFFSET_FREE_SPACE_PTR as int)
}

/// The tuple count recorded in the header.
pub open spec fn tuple_count_of(bytes: Seq<u8>) -> int {
    u32_at(bytes, OFFSET_TUPLE_COUNT as int)
}

/// The raw identifier of the next page recorded in the header.
pub open spec fn next_page_of(bytes: Seq<u8>) -> int {
    u32_at(bytes, OFFSET_NEXT_PAGE_ID as int)
}

/// Where the descriptor of slot `index` starts.
pub open spec fn descriptor_offset(index: int) -> int {
    OFFSET_TUPLE_DESCRIPTORS + SIZE_TUPLE_DESCRIPTOR * index
}

/// The tuple offset in the descriptor of slot `index`.
pub open spec fn slot_offset(bytes: Seq<u8>, index: int) -> int {
    u32_at(bytes, descriptor_offset(index))
}

/// The tuple size in the descriptor of slot `index`.
pub open spec fn slot_size(bytes: Seq<u8>, index: int) -> int {
    u32_at(bytes, descriptor_offset(index) + 4)
}

/// The bytes that the descriptor of slot `index` points at.
pub open spec fn slot_bytes(bytes: Seq<u8>, index: int) -> Seq<u8> {
    bytes.subrange(slot_offset(bytes, index), slot_offset(bytes, index) + slot_size(bytes, index))
}

/// What slot `index` holds: its tuple, or nothing where the offset is 0.
pub open spec fn slot_of(bytes: Seq<u8>, index: int) -> Option<Seq<u8>> {
    if slot_offset(bytes, index) != 0 {
        Some(slot_bytes(bytes, index))
    } else {
        None
    }
}

/// The contents of all slots, in slot order.
pub open spec fn slots_of(bytes: Seq<u8>) -> Seq<Option<Seq<u8>>> {
    Seq::new(tuple_count_of(bytes) as nat, |index: int| slot_of(bytes, index))
}

/// The bytes free between the descriptors and the lowest tuple.
pub open spec fn free_space_of(bytes: Seq<u8>) -> int {
    free_space_ptr_of(bytes) - OFFSET_TUPLE_DESCRIPTORS - SIZE_TUPLE_DESCRIPTOR * tuple_count_of(
        bytes,
    )
}

/// Whether `bytes` is a consistent table page: the descriptors end before the
/// free space pointer, and every tuple lies between the pointer and the end
/// of the page.
pub open spec fn table_page_wf(bytes: Seq<u8>) -> bool {
    &&& bytes.len() == PAGE_SIZE
    &&& OFFSET_TUPLE_DESCRIPTORS + SIZE_TUPLE_DESCRIPTOR * tuple_count_of(bytes)
        <= free_space_ptr_of(bytes) <= PAGE_SIZE
    &&& forall|i: int|
        0 <= i < tuple_count_of(bytes) && slot_offset(bytes, i) != 0 ==> free_space_ptr_of(bytes)
            <= #[trigger] slot_offset(bytes, i) && slot_offset(bytes, i) + slot_size(bytes, i)
            <= PAGE_SIZE
}

/// What a page looks like after `size` bytes were claimed below the free
/// space pointer for a new last slot.
pub open spec fn appended(a: Seq<u8>, b: Seq<u8>, size: int) -> bool {
    &&& b.len() == a.len()
    &&& tuple_count_of(b) == tuple_count_of(a) + 1
    &&& free_space_ptr_of(b) == free_space_ptr_of(a) - size
    &&& next_page_of(b) == next_page_of(a)
    &&& slot_offset(b, tuple_count_of(a)) == free_space_ptr_of(a) - size
    &&& slot_size(b, tuple_count_of(a)) == size
    &&& forall|i: int|
        0 <= i < PAGE_SIZE && !(OFFSET_FREE_SPACE_PTR <= i < OFFSET_TUPLE_DESCRIPTORS) && !(
        descriptor_offset(tuple_count_of(a)) <= i < descriptor_offset(tuple_count_of(a) + 1))
            ==> b[i] == a[i]
}

/// Claiming space for a new last slot keeps a page consistent and keeps the
/// slots that were there.
pub proof fn lemma_appended(a: Seq<u8>, b: Seq<u8>, size: int)
    requires
        table_page_wf(a),
        0 <= size,
        size + SIZE_TUPLE_DESCRIPTOR <= free_space_of(a),
        appended(a, b, size),
    ensures
        table_page_wf(b),
        slots_of(b) == slots_of(a).push(Some(slot_bytes(b, tuple_count_of(a)))),
        free_space_of(b) == free_space_of(a) - size - SIZE_TUPLE_DESCRIPTOR,
        forall|i: int|
            0 <= i < tuple_count_of(a) ==> #[trigger] slot_offset(b, i) == slot_offset(a, i)
                && slot_size(b, i) == slot_size(a, i),
{
    let count = tuple_count_of(a);
    lemma_u32_at_range(a, OFFSET_TUPLE_COUNT as int);
    assert forall|i: int| 0 <= i < count implies slot_offset(b, i) == slot_offset(a, i)
        && slot_size(b, i) == slot_size(a, i) by {}
    assert forall|i: int| 0 <= i < count + 1 implies slots_of(b)[i] == slots_of(a).push(
        Some(slot_bytes(b, count)),
    )[i] by {
        if i < count && slot_offset(a, i) != 0 {
            assert(slot_bytes(b, i) =~= slot_bytes(a, i));
        }
    }
    assert(slots_of(b) =~= slots_of(a).push(Some(slot_bytes(b, count))));
}

/// Bytes written into the tuple of one slot leave the header and the
/// descriptors as they were, and the tuples of slots that the written range
/// misses.
pub proof fn lemma_tuple_written(a: Seq<u8>, b: Seq<u8>, index: int)
    requires
        table_page_wf(a),
        0 <= index < tuple_count_of(a),
        slot_offset(a, index) != 0,
        same_outside(
            a,
            b,
            slot_offset(a, index),
            slot_offset(a, index) + slot_size(a, index),
        ),
    ensures
        table_page_wf(b),
        tuple_count_of(b) == tuple_count_of(a),
        free_space_ptr_of(b) == free_space_ptr_of(a),
        next_page_of(b) == next_page_of(a),
        free_space_of(b) == free_space_of(a),
        slot_offset(b, index) == slot_offset(a, index),
        slot_size(b, index) == slot_size(a, index),
        forall|i: int|
            0 <= i < tuple_count_of(a) ==> #[trigger] slot_offset(b, i) == slot_offset(a, i)
                && slot_size(b, i) == slot_size(a, i),
{
    lemma_u32_at_range(a, OFFSET_TUPLE_COUNT as int);
    assert forall|i: int| 0 <= i < tuple_count_of(a) implies #[trigger] slot_offset(b, i)
        == slot_offset(a, i) && slot_size(b, i) == slot_size(a, i) by {}
}

/// Bytes written into the tuple of one slot, which no other tuple overlaps,
/// change that slot only.
pub proof fn lemma_slots_written(a: Seq<u8>, b: Seq<u8>, index: int)
    requires
        table_page_wf(a),
        0 <= index < tuple_count_of(a),
        forall|i: int|
            0 <= i < tuple_count_of(a) && i != index && slot_offset(a, i) != 0 ==> slot_offset(
                a,
                i,
            ) + slot_size(a, i) <= slot_offset(a, index) || slot_offset(a, index) + slot_size(
                a,
                index,
            ) <= #[trigger] slot_offset(a, i),
        slot_offset(a, index) != 0,
        same_outside(
            a,
            b,
            slot_offset(a, index),
            slot_offset(a, index) + slot_size(a, index),
        ),
    ensures
        slots_of(b) == slots_of(a).update(index, Some(slot_bytes(b, index))),
{
    lemma_tuple_written(a, b, index);
    lemma_u32_at_range(a, OFFSET_TUPLE_COUNT as int);
    assert forall|i: int| 0 <= i < tuple_count_of(a) implies slots_of(b)[i] == slots_of(a).update(
        index,
        Some(slot_bytes(b, index)),
    )[i] by {
        assert(slot_offset(b, i) == slot_offset(a, i));
        if i != index && slot_offset(a, i) != 0 {
            assert(slot_bytes(b, i) =~= slot_bytes(a, i));
        }
    }
    assert(slots_of(b) =~= slots_of(a).update(index, Some(slot_bytes(b, index))));
}

/// New bytes in the link to the next page leave the rest of a page as it
/// was.
pub proof fn lemma_link_written(a: Seq<u8>, b: Seq<u8>)
    requires
        table_page_wf(a),
        same_outside(a, b, OFFSET_NEXT_PAGE_ID as int, OFFSET_NEXT_PAGE_ID + 4),
    ensures
        table_page_wf(b),
        slots_of(b) == slots_of(a),
        free_space_of(b) == free_space_of(a),
{
    lemma_u32_at_range(a, OFFSET_TUPLE_COUNT as int);
    assert forall|i: int| 0 <= i < tuple_count_of(a) implies #[trigger] slot_offset(b, i)
        == slot_offset(a, i) && slot_size(b, i) == slot_size(a, i) by {}
    assert forall|i: int| 0 <= i < tuple_count_of(a) implies slots_of(b)[i] == slots_of(a)[i] by {
        assert(slot_offset(b, i) == slot_offset(a, i));
        if slot_offset(a, i) != 0 {
            assert(slot_bytes(b, i) =~= slot_bytes(a, i));
        }
    }
    assert(slots_of(b) =~= slots_of(a));
}

/// A table page over one page of bytes.
pub struct TablePage {
    data: PageData,
}

impl View for TablePage {
    type V = Seq<u8>;

    closed spec fn view(&self) -> Seq<u8> {
        self.data@
    }
}

impl TablePage {
    /// Whether the page is consistent, see [`table_page_wf`].
    pub open spec fn wf(&self) -> bool {
        table_page_wf(self@)
    }

    /// Takes over bytes that already hold a table page.
    pub fn from_existing(data: PageData) -> (page: Self)
        ensures
            page@ == data@,
    {
        TablePage { data }
    }

    /// The bytes of the page.
    pub fn unwrap(&self) -> (data: &PageData)
        ensures
            data@ == self@,
    {
        &self.data
    }

    /// The bytes of the page.
    pub fn data(&self) -> (data: &PageData)
        ensures
            data@ == self@,
    {
        &self.data
    }

    /// The bytes free between the descriptors and the lowest tuple.
    pub fn free_space(&self) -> (free: usize)
        requires
            self.wf(),
        ensures
            free == free_space_of(self@),
    {
        self.get_free_space_ptr() - OFFSET_TUPLE_DESCRIPTORS - self.get_tuple_count()
            * SIZE_TUPLE_DESCRIPTOR
    }

    /// The free space pointer.
    pub fn get_free_space_ptr(&self) -> (pointer: usize)
        ensures
            pointer == free_space_ptr_of(self@),
    {
        self.read_u32(OFFSET_FREE_SPACE_PTR) as usize
    }

    /// The number of slots.
    pub fn get_tuple_count(&self) -> (count: usize)
        ensures
            count == tuple_count_of(self@),
    {
        self.read_u32(OFFSET_TUPLE_COUNT) as usize
    }

    /// The next page of the heap, or the invalid identifier at its end.
    pub fn get_next_page_id(&self) -> (id: PageId)
        ensures
            id.0 == next_page_of(self@),
    {
        PageId(self.read_u32(OFFSET_NEXT_PAGE_ID))
    }

    /// The 32-bit value stored at `offset`.
    fn read_u32(&self, offset: usize) -> (value: u32)
        requires
            offset + 4 <= PAGE_SIZE,
        ensures
            value == u32_at(self@, offset as int),
    {
        read_u32(&self.data, offset)
    }

    /// Lays out an empty page in `data`, at the end of its heap.
    ///
    /// Bytes outside the three header fields are left as they were.
    pub fn new(data: PageData) -> (page: Self)
        ensures
            page.wf(),
            free_space_ptr_of(page@) == PAGE_SIZE,
            tuple_count_of(page@) == 0,
            next_page_of(page@) == INVALID_PAGE_ID,
            slots_of(page@) == Seq::<Option<Seq<u8>>>::empty(),
            forall|i: int|
                0 <= i < PAGE_SIZE && !(OFFSET_NEXT_PAGE_ID <= i < OFFSET_TUPLE_DESCRIPTORS)
                    ==> page@[i] == data@[i],
    {
        let mut page = TablePage { data };
        page.set_free_space_ptr(PAGE_SIZE as u32);
        page.set_tuple_count(0);
        page.set_next_page_id(PageId::invalid());
        proof {
            assert(slots_of(page@) =~= Seq::<Option<Seq<u8>>>::empty());
        }
        page
    }

    /// Claims `size` bytes just below the free space pointer for a new last
    /// slot, and returns the slot and its bytes for the caller to fill.
    pub fn alloc_tuple(&mut self, size: usize) -> (tuple: Result<(SlotIndex, &mut [u8]), Error>)
        requires
            old(self).wf(),
        ensures
            tuple is Ok <==> size + SIZE_TUPLE_DESCRIPTOR <= free_space_of(old(self)@),
            tuple is Err ==> final(self)@ == old(self)@,
            tuple matches Ok(slot) ==> {
                &&& slot.0 == tuple_count_of(old(self)@)
                &&& slot.1@.len() == size
                &&& final(slot.1)@.len() == size
                &&& final(self).wf()
                &&& slots_of(final(self)@) == slots_of(old(self)@).push(Some(final(slot.1)@))
                &&& free_space_of(final(self)@) == free_space_of(old(self)@) - size
                    - SIZE_TUPLE_DESCRIPTOR
                &&& next_page_of(final(self)@) == next_page_of(old(self)@)
            },
    {
        if size > PAGE_SIZE || self.free_space() < size + SIZE_TUPLE_DESCRIPTOR {
            return Err(Error::PageFull);
        }
        let index = self.get_tuple_count();
        let start = self.claim(size);
        let ghost claimed = self@;
        proof {
            lemma_appended(old(self)@, claimed, size as int);
        }
        let bytes = self.region(start, size);
        proof {
            let filled = spliced(claimed, start as int, size as int, final(bytes)@);
            lemma_spliced(claimed, start as int, size as int, final(bytes)@);
            lemma_tuple_written(claimed, filled, index as int);
            assert forall|i: int|
                0 <= i < tuple_count_of(claimed) && i != index && slot_offset(claimed, i)
                    != 0 implies slot_offset(claimed, index as int) + slot_size(
                claimed,
                index as int,
            ) <= #[trigger] slot_offset(claimed, i) by {
                assert(slot_offset(claimed, i) == slot_offset(old(self)@, i));
            }
            lemma_slots_written(claimed, filled, index as int);
            assert(slots_of(claimed).update(index as int, Some(final(bytes)@)) =~= slots_of(
                old(self)@,
            ).push(Some(final(bytes)@)));
        }
        Ok((index, bytes))
    }

    /// Claims `size` bytes just below the free space pointer for a new last
    /// slot, and returns where they start.
    fn claim(&mut self, size: usize) -> (start: usize)
        requires
            old(self).wf(),
            size + SIZE_TUPLE_DESCRIPTOR <= free_space_of(old(self)@),
        ensures
            start == free_space_ptr_of(old(self)@) - size,
            appended(old(self)@, final(self)@, size as int),
    {
        proof {
            lemma_u32_at_range(self@, OFFSET_TUPLE_COUNT as int);
        }
        let end = self.get_free_space_ptr();
        let start = end - size;
        let index = self.get_tuple_count();
        self.set_free_space_ptr(start as u32);
        self.set_tuple_count((index + 1) as u32);
        self.set_tuple_descriptor(index, start as u32, (end - start) as u32);
        start
    }

    /// Appends `tuple` in a new last slot and returns that slot.
    pub fn insert_tuple(&mut self, tuple: &[u8]) -> (slot: Result<SlotIndex, Error>)
        requires
            old(self).wf(),
        ensures
            slot is Ok <==> tuple@.len() + SIZE_TUPLE_DESCRIPTOR <= free_space_of(old(self)@),
            slot is Err ==> final(self)@ == old(self)@,
            slot matches Ok(index) ==> {
                &&& index == tuple_count_of(old(self)@)
                &&& final(self).wf()
                &&& slots_of(final(self)@) == slots_of(old(self)@).push(Some(tuple@))
                &&& free_space_of(final(self)@) == free_space_of(old(self)@) - tuple@.len()
                    - SIZE_TUPLE_DESCRIPTOR
                &&& next_page_of(final(self)@) == next_page_of(old(self)@)
            },
    {
        match self.alloc_tuple(tuple.len()) {
            Ok((slot_index, new_tuple)) => {
                copy_bytes(new_tuple, tuple);
                Ok(slot_index)
            },
            Err(error) => Err(error),
        }
    }

    /// The tuple in slot `index`, or `None` where the offset of the slot is 0.
    pub fn get_tuple(&self, index: SlotIndex) -> (tuple: Option<&[u8]>)
        requires
            self.wf(),
            index < tuple_count_of(self@),
        ensures
            tuple is Some == (slot_offset(self@, index as int) != 0),
            tuple matches Some(bytes) ==> bytes@ == slot_bytes(self@, index as int),
    {
        let (offset, size) = self.get_tuple_descriptor(index);
        if offset == 0 {
            return None;
        }
        let all: &[u8] = &self.data;
        Some(vstd::slice::slice_subrange(all, offset, offset + size))
    }

    /// The tuple in slot `index`, for writing, or `None` where the offset of
    /// the slot is 0.
    pub fn get_tuple_mut(&mut self, index: SlotIndex) -> (tuple: Option<&mut [u8]>)
        requires
            old(self).wf(),
            index < tuple_count_of(old(self)@),
        ensures
            tuple is Some == (slot_offset(old(self)@, index as int) != 0),
            tuple is None ==> final(self)@ == old(self)@,
            tuple matches Some(bytes) ==> {
                &&& bytes@ == slot_bytes(old(self)@, index as int)
                &&& final(bytes)@.len() == slot_size(old(self)@, index as int)
                &&& final(self).wf()
                &&& tuple_count_of(final(self)@) == tuple_count_of(old(self)@)
                &&& next_page_of(final(self)@) == next_page_of(old(self)@)
                &&& slot_bytes(final(self)@, index as int) == final(bytes)@
                &&& same_outside(
                    old(self)@,
                    final(self)@,
                    slot_offset(old(self)@, index as int),
                    slot_offset(old(self)@, index as int) + slot_size(old(self)@, index as int),
                )
            },
    {
        let (offset, size) = self.get_tuple_descriptor(index);
        if offset == 0 {
            return None;
        }
        let bytes = self.region(offset, size);
        proof {
            let filled = spliced(old(self)@, offset as int, size as int, final(bytes)@);
            lemma_spliced(old(self)@, offset as int, size as int, final(bytes)@);
            lemma_tuple_written(old(self)@, filled, index as int);
        }
        Some(bytes)
    }

    /// The `len` bytes of the page that start at `start`, for writing.
    fn region(&mut self, start: usize, len: usize) -> (bytes: &mut [u8])
        requires
            start + len <= PAGE_SIZE,
        ensures
            bytes@ == old(self)@.subrange(start as int, start + len),
            final(self)@ == spliced(old(self)@, start as int, len as int, final(bytes)@),
    {
        let all: &mut [u8] = &mut self.data;
        let (_, tail) = all.split_at_mut(start);
        let (bytes, _) = tail.split_at_mut(len);
        bytes
    }

    /// Records the free space pointer.
    fn set_free_space_ptr(&mut self, value: u32)
        ensures
            free_space_ptr_of(final(self)@) == value,
            final(self)@.len() == old(self)@.len(),
            forall|i: int|
                0 <= i < PAGE_SIZE && !(OFFSET_FREE_SPACE_PTR <= i < OFFSET_FREE_SPACE_PTR + 4)
                    ==> final(self)@[i] == old(self)@[i],
    {
        self.write_u32(OFFSET_FREE_SPACE_PTR, value);
    }

    /// Records the tuple count.
    fn set_tuple_count(&mut self, value: u32)
        ensures
            tuple_count_of(final(self)@) == value,
            final(self)@.len() == old(self)@.len(),
            forall|i: int|
                0 <= i < PAGE_SIZE && !(OFFSET_TUPLE_COUNT <= i < OFFSET_TUPLE_COUNT + 4)
                    ==> final(self)@[i] == old(self)@[i],
    {
        self.write_u32(OFFSET_TUPLE_COUNT, value);
    }

    /// Records the next page of the heap.
    pub fn set_next_page_id(&mut self, value: PageId)
        ensures
            next_page_of(final(self)@) == value.0,
            final(self)@.len() == old(self)@.len(),
            forall|i: int|
                0 <= i < PAGE_SIZE && !(OFFSET_NEXT_PAGE_ID <= i < OFFSET_NEXT_PAGE_ID + 4)
                    ==> final(self)@[i] == old(self)@[i],
            old(self).wf() ==> final(self).wf() && slots_of(final(self)@) == slots_of(old(self)@)
                && free_space_of(final(self)@) == free_space_of(old(self)@),
    {
        self.write_u32(OFFSET_NEXT_PAGE_ID, value.0);
        proof {
            if old(self).wf() {
                lemma_link_written(old(self)@, self@);
            }
        }
    }

    /// Records the offset and the size of the tuple in slot `index`.
    fn set_tuple_descriptor(&mut self, index: usize, offset: u32, size: u32)
        requires
            descriptor_offset(index as int) + SIZE_TUPLE_DESCRIPTOR <= PAGE_SIZE,
        ensures
            slot_offset(final(self)@, index as int) == offset,
            slot_size(final(self)@, index as int) == size,
            final(self)@.len() == old(self)@.len(),
            forall|i: int|
                0 <= i < PAGE_SIZE && !(descriptor_offset(index as int) <= i < descriptor_offset(
                    index as int + 1,
                )) ==> final(self)@[i] == old(self)@[i],
    {
        self.write_u32(OFFSET_TUPLE_DESCRIPTORS + SIZE_TUPLE_DESCRIPTOR * index, offset);
        self.write_u32(OFFSET_TUPLE_DESCRIPTORS + SIZE_TUPLE_DESCRIPTOR * index + 4, size);
    }

    /// The offset and the size recorded for slot `index`.
    fn get_tuple_descriptor(&self, index: usize) -> (descriptor: (usize, usize))
        requires
            descriptor_offset(index as int) + SIZE_TUPLE_DESCRIPTOR <= PAGE_SIZE,
        ensures
            descriptor.0 == slot_offset(self@, index as int),
            descriptor.1 == slot_size(self@, index as int),
    {
        (
            self.read_u32(OFFSET_TUPLE_DESCRIPTORS + SIZE_TUPLE_DESCRIPTOR * index) as usize,
            self.read_u32(OFFSET_TUPLE_DESCRIPTORS + SIZE_TUPLE_DESCRIPTOR * index + 4) as usize,
        )
    }

    /// Stores the 32-bit `value` at `offset`.
    fn write_u32(&mut self, offset: usize, value: u32)
        requires
            offset + 4 <= PAGE_SIZE,
        ensures
            u32_at(final(self)@, offset as int) == value,
            final(self)@.len() == old(self)@.len(),
            forall|i: int|
                0 <= i < PAGE_SIZE && (i < offset || i >= offset + 4) ==> final(self)@[i] == old(
                    self,
                )@[i],
    {
        write_u32(&mut self.data, offset, value);
    }
}

} // verus!
