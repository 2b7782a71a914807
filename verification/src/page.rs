//! A slotted page: variable-length tuples and a fixed metadata trailer laid
//! out in one page.
//!
//! ```text
//! | lsn (4) | metadata_size (2) | free_space_pointer (2) | tuple_count (2) | pad (2) |
//! | offset[0] (2) | size[0] (2) | ... | offset[n-1] (2) | size[n-1] (2) |
//! | free space | tuples, growing downward | metadata |
//!              ^ free_space_pointer
//! ```
//!
//! Descriptors are ordered by slot, not by where the tuple lies. A descriptor
//! whose offset is 0 names a dead tuple.

use vstd::prelude::*;
use crate::codec::{
    copy_bytes, lemma_u16_at_range, read_u16, read_u32, u16_at, u32_at, write_u16, write_u32,
};
use crate::disk_manager::{PageData, PAGE_SIZE};

verus! {

/// Size in bytes of the page header.
pub const HEADER_SIZE: usize = 12;

/// Size in bytes of one tuple descriptor.
pub const DESCRIPTOR_SIZE: usize = 4;

/// Index of a tuple within its page.
pub type SlotIndex = usize;

/// Why a page operation failed.
#[derive(PartialEq, Eq, Structural, Debug)]
pub enum Error {
    /// The tuple does not fit, even after compaction.
    PageFull,
}

/// The fixed fields at the start of a page.
#[derive(Clone, Copy, Debug, PartialEq, Eq, Structural)]
pub struct PageHeader {
    /// Reserved for a log sequence number.
    pub lsn: u32,
    /// Size in bytes of the metadata trailer.
    pub metadata_size: u16,
    /// Offset of the lowest byte occupied by a tuple.
    pub free_space_pointer: u16,
    /// Number of tuple descriptors.
    pub tuple_count: u16,
}

/// The metadata size recorded in the header.
pub open spec fn metadata_size_of(bytes: Seq<u8>) -> int {
    u16_at(bytes, 4)
}

/// The free space pointer recorded in the header.
pub open spec fn free_space_pointer_of(bytes: Seq<u8>) -> int {
    u16_at(bytes, 6)
}

/// The tuple count recorded in the header.
pub open spec fn tuple_count_of(bytes: Seq<u8>) -> int {
    u16_at(bytes, 8)
}

/// Where the descriptor of slot `index` starts.
pub open spec fn descriptor_offset(index: int) -> int {
    HEADER_SIZE + DESCRIPTOR_SIZE * index
}

/// The tuple offset in the descriptor of slot `index`.
pub open spec fn slot_offset(bytes: Seq<u8>, index: int) -> int {
    u16_at(bytes, descriptor_offset(index))
}

/// The tuple size in the descriptor of slot `index`.
pub open spec fn slot_size(bytes: Seq<u8>, index: int) -> int {
    u16_at(bytes, descriptor_offset(index) + 2)
}

/// Whether slot `index` holds a tuple.
pub open spec fn slot_live(bytes: Seq<u8>, index: int) -> bool {
    slot_offset(bytes, index) != 0
}

/// The bytes that the descriptor of slot `index` points at.
pub open spec fn slot_bytes(bytes: Seq<u8>, index: int) -> Seq<u8> {
    bytes.subrange(slot_offset(bytes, index), slot_offset(bytes, index) + slot_size(bytes, index))
}

/// What slot `index` holds: its tuple, or nothing when it is dead.
pub open spec fn slot_of(bytes: Seq<u8>, index: int) -> Option<Seq<u8>> {
    if slot_live(bytes, index) {
        Some(slot_bytes(bytes, index))
    } else {
        None
    }
}

/// The contents of all slots, in slot order.
pub open spec fn slots_of(bytes: Seq<u8>) -> Seq<Option<Seq<u8>>> {
    Seq::new(tuple_count_of(bytes) as nat, |index: int| slot_of(bytes, index))
}

/// One past the last byte that tuples may occupy.
pub open spec fn payload_end(bytes: Seq<u8>) -> int {
    PAGE_SIZE - metadata_size_of(bytes)
}

/// The metadata trailer.
pub open spec fn metadata_of(bytes: Seq<u8>) -> Seq<u8> {
    bytes.subrange(payload_end(bytes), PAGE_SIZE as int)
}

/// The sum of the sizes in the first `count` descriptors.
pub open spec fn total_size(bytes: Seq<u8>, count: int) -> int
    decreases count,
{
    if count <= 0 {
        0
    } else {
        total_size(bytes, count - 1) + slot_size(bytes, count - 1)
    }
}

/// The bytes free between the descriptors and the lowest tuple.
pub open spec fn free_space_of(bytes: Seq<u8>) -> int {
    free_space_pointer_of(bytes) - HEADER_SIZE - DESCRIPTOR_SIZE * tuple_count_of(bytes)
}

/// The bytes that would be free if the tuples were packed against the trailer.
pub open spec fn free_space_after_compaction_of(bytes: Seq<u8>) -> int {
    payload_end(bytes) - HEADER_SIZE - DESCRIPTOR_SIZE * tuple_count_of(bytes) - total_size(
        bytes,
        tuple_count_of(bytes),
    )
}

/// Whether the extents of slots `i` and `j` share no byte.
pub open spec fn slots_disjoint(bytes: Seq<u8>, i: int, j: int) -> bool {
    ||| slot_offset(bytes, i) + slot_size(bytes, i) <= slot_offset(bytes, j)
    ||| slot_offset(bytes, j) + slot_size(bytes, j) <= slot_offset(bytes, i)
}

/// Whether `bytes` is a consistent slotted page.
///
/// The descriptors end before the free space pointer; the pointer is no higher
/// than the trailer; every live tuple lies between the pointer and the trailer;
/// live tuples do not overlap; and the descriptor sizes add up to no more than
/// the space below the trailer that the pointer has claimed.
pub open spec fn page_wf(bytes: Seq<u8>) -> bool {
    &&& bytes.len() == PAGE_SIZE
    &&& HEADER_SIZE + DESCRIPTOR_SIZE * tuple_count_of(bytes) <= free_space_pointer_of(bytes)
    &&& free_space_pointer_of(bytes) <= payload_end(bytes)
    &&& total_size(bytes, tuple_count_of(bytes)) <= payload_end(bytes) - free_space_pointer_of(
        bytes,
    )
    &&& forall|i: int|
        0 <= i < tuple_count_of(bytes) && slot_live(bytes, i) ==> free_space_pointer_of(bytes)
            <= #[trigger] slot_offset(bytes, i) && slot_offset(bytes, i) + slot_size(bytes, i)
            <= payload_end(bytes)
    &&& forall|i: int, j: int|
        0 <= i < j < tuple_count_of(bytes) && slot_live(bytes, i) && slot_live(bytes, j)
            ==> #[trigger] slots_disjoint(bytes, i, j)
}

/// In a consistent page, the descriptor of a live tuple points between the
/// end of the descriptors and the trailer, and no two live tuples overlap.
pub proof fn lemma_page_consistent(bytes: Seq<u8>)
    requires
        page_wf(bytes),
    ensures
        forall|i: int|
            0 <= i < tuple_count_of(bytes) ==> #[trigger] slot_offset(bytes, i) == 0 || (HEADER_SIZE
                + DESCRIPTOR_SIZE * tuple_count_of(bytes) <= slot_offset(bytes, i) && slot_offset(
                bytes,
                i,
            ) + slot_size(bytes, i) <= PAGE_SIZE - metadata_size_of(bytes)),
        forall|i: int, j: int|
            0 <= i < tuple_count_of(bytes) && 0 <= j < tuple_count_of(bytes) && i != j && slot_live(
                bytes,
                i,
            ) && slot_live(bytes, j) ==> #[trigger] slots_disjoint(bytes, i, j),
        metadata_size_of(bytes) <= PAGE_SIZE - HEADER_SIZE,
        free_space_pointer_of(bytes) <= PAGE_SIZE - metadata_size_of(bytes),
{
    assert forall|i: int, j: int|
        0 <= i < tuple_count_of(bytes) && 0 <= j < tuple_count_of(bytes) && i != j && slot_live(
            bytes,
            i,
        ) && slot_live(bytes, j) implies #[trigger] slots_disjoint(bytes, i, j) by {
        if i < j {
            assert(slots_disjoint(bytes, i, j));
        } else {
            assert(slots_disjoint(bytes, j, i));
        }
    }
    lemma_u16_at_range(bytes, 8);
}

/// Whether no slot of the page is dead.
pub open spec fn all_live(bytes: Seq<u8>) -> bool {
    forall|i: int| 0 <= i < tuple_count_of(bytes) ==> #[trigger] slot_live(bytes, i)
}

/// The descriptor sizes of a prefix add up to no more than those of a longer one.
pub proof fn lemma_total_size_monotone(bytes: Seq<u8>, i: int, j: int)
    requires
        0 <= i <= j,
    ensures
        0 <= total_size(bytes, i) <= total_size(bytes, j),
    decreases j,
{
    if j > 0 {
        if i < j {
            lemma_total_size_monotone(bytes, i, j - 1);
        } else {
            lemma_total_size_monotone(bytes, i - 1, j - 1);
        }
    }
}

/// The tuples of all slots, in slot order, of a page without dead slots.
pub open spec fn tuples_of(bytes: Seq<u8>) -> Seq<Seq<u8>> {
    Seq::new(tuple_count_of(bytes) as nat, |index: int| slot_bytes(bytes, index))
}

/// The sum of the lengths of `tuples`.
pub open spec fn total_len(tuples: Seq<Seq<u8>>) -> int
    decreases tuples.len(),
{
    if tuples.len() == 0 {
        0
    } else {
        total_len(tuples.drop_last()) + tuples.last().len()
    }
}

/// A slot put in is a tuple put in.
pub proof fn lemma_tuples_inserted(a: Seq<u8>, b: Seq<u8>, index: int, tuple: Seq<u8>)
    requires
        all_live(a),
        all_live(b),
        0 <= index <= tuple_count_of(a),
        slots_of(b) == slots_of(a).insert(index, Some(tuple)),
    ensures
        tuples_of(b) == tuples_of(a).insert(index, tuple),
{
    let inserted = slots_of(a).insert(index, Some(tuple));
    lemma_u16_at_range(a, 8);
    lemma_u16_at_range(b, 8);
    assert(slots_of(a).len() == tuple_count_of(a));
    assert(slots_of(b).len() == tuple_count_of(b));
    assert(inserted.len() == slots_of(a).len() + 1);
    assert forall|k: int| 0 <= k < tuple_count_of(b) implies tuples_of(b)[k] == tuples_of(
        a,
    ).insert(index, tuple)[k] by {
        assert(slots_of(b)[k] == inserted[k]);
        assert(slot_live(b, k));
        if k < index {
            assert(slot_live(a, k));
            assert(inserted[k] == slots_of(a)[k]);
        } else if k > index {
            assert(slot_live(a, k - 1));
            assert(inserted[k] == slots_of(a)[k - 1]);
        }
    }
    assert(tuples_of(b) =~= tuples_of(a).insert(index, tuple));
}

/// The first slots kept are the first tuples kept.
pub proof fn lemma_tuples_taken(a: Seq<u8>, b: Seq<u8>, count: int)
    requires
        all_live(a),
        all_live(b),
        0 <= count <= tuple_count_of(a),
        slots_of(b) == slots_of(a).take(count),
    ensures
        tuples_of(b) == tuples_of(a).take(count),
{
    lemma_u16_at_range(a, 8);
    lemma_u16_at_range(b, 8);
    assert(slots_of(a).len() == tuple_count_of(a));
    assert(slots_of(b).len() == tuple_count_of(b));
    assert forall|k: int| 0 <= k < tuple_count_of(b) implies tuples_of(b)[k] == tuples_of(a).take(
        count,
    )[k] by {
        assert(slots_of(b)[k] == slots_of(a).take(count)[k]);
        assert(slot_live(b, k));
        assert(slot_live(a, k));
    }
    assert(tuples_of(b) =~= tuples_of(a).take(count));
}

/// The descriptor sizes of a page without dead slots add up to the lengths
/// of its tuples.
pub proof fn lemma_total_size_is_total_len(bytes: Seq<u8>, count: int)
    requires
        page_wf(bytes),
        all_live(bytes),
        0 <= count <= tuple_count_of(bytes),
    ensures
        total_size(bytes, count) == total_len(tuples_of(bytes).take(count)),
    decreases count,
{
    if count > 0 {
        lemma_total_size_is_total_len(bytes, count - 1);
        let taken = tuples_of(bytes).take(count);
        assert(taken.drop_last() =~= tuples_of(bytes).take(count - 1));
        assert(slot_live(bytes, count - 1));
        assert(taken.last().len() == slot_size(bytes, count - 1));
    }
}

/// The lengths of tuples add up over concatenation.
pub proof fn lemma_total_len_concat(a: Seq<Seq<u8>>, b: Seq<Seq<u8>>)
    ensures
        total_len(a + b) == total_len(a) + total_len(b),
    decreases b.len(),
{
    if b.len() == 0 {
        assert(a + b =~= a);
    } else {
        lemma_total_len_concat(a, b.drop_last());
        assert((a + b).drop_last() =~= a + b.drop_last());
        assert((a + b).last() == b.last());
    }
}

/// The lengths of tuples are not negative.
pub proof fn lemma_total_len_nonnegative(tuples: Seq<Seq<u8>>)
    ensures
        0 <= total_len(tuples),
    decreases tuples.len(),
{
    if tuples.len() > 0 {
        lemma_total_len_nonnegative(tuples.drop_last());
    }
}

/// Whether `a` and `b` hold the same bytes everywhere outside `[lo, hi)`.
pub open spec fn same_outside(a: Seq<u8>, b: Seq<u8>, lo: int, hi: int) -> bool {
    &&& a.len() == b.len()
    &&& forall|i: int| 0 <= i < a.len() && (i < lo || i >= hi) ==> a[i] == b[i]
}

/// Whether `a` and `b` hold the same header and the same first `count`
/// descriptors.
pub open spec fn same_structure(a: Seq<u8>, b: Seq<u8>, count: int) -> bool {
    &&& metadata_size_of(a) == metadata_size_of(b)
    &&& free_space_pointer_of(a) == free_space_pointer_of(b)
    &&& tuple_count_of(a) == tuple_count_of(b)
    &&& forall|k: int|
        #![trigger slot_offset(a, k)]
        #![trigger slot_offset(b, k)]
        #![trigger slot_size(a, k)]
        #![trigger slot_size(b, k)]
        0 <= k < count ==> slot_offset(a, k) == slot_offset(b, k) && slot_size(a, k) == slot_size(
            b,
            k,
        )
}

/// Pages with the same descriptors have the same total size.
pub proof fn lemma_total_size_same(a: Seq<u8>, b: Seq<u8>, count: int)
    requires
        forall|k: int| 0 <= k < count ==> #[trigger] slot_size(a, k) == slot_size(b, k),
    ensures
        total_size(a, count) == total_size(b, count),
    decreases count,
{
    if count > 0 {
        lemma_total_size_same(a, b, count - 1);
    }
}

/// The total size after one descriptor of `size` bytes is put in at `index`.
pub proof fn lemma_total_size_insert(a: Seq<u8>, b: Seq<u8>, index: int, count: int, size: int)
    requires
        0 <= index <= count,
        forall|k: int| 0 <= k < index ==> #[trigger] slot_size(b, k) == slot_size(a, k),
        slot_size(b, index) == size,
        forall|k: int| index < k <= count ==> #[trigger] slot_size(b, k) == slot_size(a, k - 1),
    ensures
        total_size(b, count + 1) == total_size(a, count) + size,
    decreases count,
{
    if count == index {
        lemma_total_size_same(a, b, index);
    } else {
        lemma_total_size_insert(a, b, index, count - 1, size);
    }
}

/// The total size after the descriptor at `index` is taken out.
pub proof fn lemma_total_size_remove(a: Seq<u8>, b: Seq<u8>, index: int, count: int)
    requires
        0 <= index < count,
        forall|k: int| 0 <= k < index ==> #[trigger] slot_size(b, k) == slot_size(a, k),
        forall|k: int| index <= k < count - 1 ==> #[trigger] slot_size(b, k) == slot_size(a, k + 1),
    ensures
        total_size(b, count - 1) + slot_size(a, index) == total_size(a, count),
    decreases count,
{
    if count - 1 == index {
        lemma_total_size_same(a, b, index);
    } else {
        lemma_total_size_remove(a, b, index, count - 1);
    }
}

/// Bytes written at or above the free space pointer leave the header and the
/// descriptors as they were, so the page stays consistent, and every tuple
/// that the written range misses keeps its bytes.
pub proof fn lemma_payload_write(a: Seq<u8>, b: Seq<u8>, lo: int, hi: int)
    requires
        page_wf(a),
        same_outside(a, b, lo, hi),
        free_space_pointer_of(a) <= lo <= hi <= PAGE_SIZE,
    ensures
        same_structure(a, b, tuple_count_of(a)),
        total_size(b, tuple_count_of(b)) == total_size(a, tuple_count_of(a)),
        page_wf(b),
        free_space_of(b) == free_space_of(a),
        free_space_after_compaction_of(b) == free_space_after_compaction_of(a),
        all_live(a) ==> all_live(b),
        hi <= payload_end(a) ==> metadata_of(b) == metadata_of(a),
        forall|k: int|
            0 <= k < tuple_count_of(a) && slot_live(a, k) && (slot_offset(a, k) + slot_size(a, k)
                <= lo || hi <= slot_offset(a, k)) ==> #[trigger] slot_bytes(b, k) == slot_bytes(
                a,
                k,
            ),
{
    let count = tuple_count_of(a);
    assert(same_structure(a, b, count));
    lemma_total_size_same(a, b, count);
    assert forall|i: int, j: int|
        0 <= i < j < tuple_count_of(b) && slot_live(b, i) && slot_live(b, j) implies #[trigger] slots_disjoint(
        b,
        i,
        j,
    ) by {
        assert(slots_disjoint(a, i, j));
    }
    if hi <= payload_end(a) {
        assert(metadata_of(b) =~= metadata_of(a));
    }
    assert forall|k: int|
        0 <= k < tuple_count_of(a) && slot_live(a, k) && (slot_offset(a, k) + slot_size(a, k)
            <= lo || hi <= slot_offset(a, k)) implies #[trigger] slot_bytes(b, k) == slot_bytes(
        a,
        k,
    ) by {
        assert(slot_bytes(b, k) =~= slot_bytes(a, k));
    }
}


/// What a page looks like after `size` bytes were claimed below the free space
/// pointer and their descriptor was put in at slot `index`.
pub open spec fn allocated(a: Seq<u8>, b: Seq<u8>, index: int, size: int) -> bool {
    &&& b.len() == a.len()
    &&& metadata_size_of(b) == metadata_size_of(a)
    &&& tuple_count_of(b) == tuple_count_of(a) + 1
    &&& free_space_pointer_of(b) == free_space_pointer_of(a) - size
    &&& slot_offset(b, index) == free_space_pointer_of(a) - size
    &&& slot_size(b, index) == size
    &&& forall|k: int|
        #![trigger slot_offset(b, k)]
        #![trigger slot_size(b, k)]
        0 <= k < index ==> slot_offset(b, k) == slot_offset(a, k) && slot_size(b, k) == slot_size(
            a,
            k,
        )
    &&& forall|k: int|
        #![trigger slot_offset(b, k)]
        #![trigger slot_size(b, k)]
        index < k <= tuple_count_of(a) ==> slot_offset(b, k) == slot_offset(a, k - 1) && slot_size(
            b,
            k,
        ) == slot_size(a, k - 1)
    &&& forall|i: int|
        descriptor_offset(tuple_count_of(a) + 1) <= i < PAGE_SIZE ==> b[i] == a[i]
}

/// Claiming space below the free space pointer keeps a page consistent and
/// puts one slot in at `index`, moving the later ones up.
pub proof fn lemma_allocated(a: Seq<u8>, b: Seq<u8>, index: int, size: int)
    requires
        page_wf(a),
        0 <= index <= tuple_count_of(a),
        0 <= size,
        size + DESCRIPTOR_SIZE <= free_space_of(a),
        allocated(a, b, index, size),
    ensures
        page_wf(b),
        total_size(b, tuple_count_of(b)) == total_size(a, tuple_count_of(a)) + size,
        free_space_of(b) == free_space_of(a) - size - DESCRIPTOR_SIZE,
        free_space_after_compaction_of(b) == free_space_after_compaction_of(a) - size
            - DESCRIPTOR_SIZE,
        slot_live(b, index),
        slots_of(b) == slots_of(a).insert(index, Some(slot_bytes(b, index))),
        metadata_of(b) == metadata_of(a),
        all_live(a) ==> all_live(b),
{
    let count = tuple_count_of(a);
    lemma_total_size_insert(a, b, index, count, size);
    assert(metadata_of(b) =~= metadata_of(a));
    assert forall|i: int| 0 <= i < count + 1 && slot_live(b, i) implies free_space_pointer_of(b)
        <= #[trigger] slot_offset(b, i) && slot_offset(b, i) + slot_size(b, i) <= payload_end(
        b,
    ) by {
        if i < index {
            assert(slot_live(a, i));
        } else if i > index {
            assert(slot_live(a, i - 1));
        }
    }
    assert forall|i: int, j: int|
        0 <= i < j < count + 1 && slot_live(b, i) && slot_live(b, j) implies #[trigger] slots_disjoint(
        b,
        i,
        j,
    ) by {
        let ia = if i < index { i } else { i - 1 };
        let ja = if j < index { j } else { j - 1 };
        if i != index && j != index {
            assert(slot_live(a, ia) && slot_live(a, ja));
            assert(slots_disjoint(a, ia, ja));
        } else if i == index {
            assert(slot_live(a, ja));
        } else {
            assert(slot_live(a, ia));
        }
    }
    let inserted = slots_of(a).insert(index, Some(slot_bytes(b, index)));
    assert forall|k: int| 0 <= k < count + 1 implies slots_of(b)[k] == inserted[k] by {
        if k < index {
            if slot_live(a, k) {
                assert(slot_bytes(b, k) =~= slot_bytes(a, k));
            }
        } else if k > index {
            if slot_live(a, k - 1) {
                assert(slot_bytes(b, k) =~= slot_bytes(a, k - 1));
            }
        }
    }
    assert(slots_of(b) =~= inserted);
    if all_live(a) {
        assert forall|i: int| 0 <= i < tuple_count_of(b) implies #[trigger] slot_live(b, i) by {
            if i < index {
                assert(slot_live(a, i));
            } else if i > index {
                assert(slot_live(a, i - 1));
            }
        }
    }
}

/// What a page looks like after the descriptor of slot `index` was taken out.
pub open spec fn removed(a: Seq<u8>, b: Seq<u8>, index: int) -> bool {
    &&& b.len() == a.len()
    &&& metadata_size_of(b) == metadata_size_of(a)
    &&& tuple_count_of(b) == tuple_count_of(a) - 1
    &&& free_space_pointer_of(b) == free_space_pointer_of(a)
    &&& forall|k: int|
        #![trigger slot_offset(b, k)]
        #![trigger slot_size(b, k)]
        0 <= k < index ==> slot_offset(b, k) == slot_offset(a, k) && slot_size(b, k) == slot_size(
            a,
            k,
        )
    &&& forall|k: int|
        #![trigger slot_offset(b, k)]
        #![trigger slot_size(b, k)]
        index <= k < tuple_count_of(a) - 1 ==> slot_offset(b, k) == slot_offset(a, k + 1)
            && slot_size(b, k) == slot_size(a, k + 1)
    &&& forall|i: int| descriptor_offset(tuple_count_of(a)) <= i < PAGE_SIZE ==> b[i] == a[i]
}

/// Taking a descriptor out keeps a page consistent and removes one slot,
/// moving the later ones down.
pub proof fn lemma_removed(a: Seq<u8>, b: Seq<u8>, index: int)
    requires
        page_wf(a),
        0 <= index < tuple_count_of(a),
        removed(a, b, index),
    ensures
        page_wf(b),
        total_size(b, tuple_count_of(b)) + slot_size(a, index) == total_size(a, tuple_count_of(a)),
        slots_of(b) == slots_of(a).remove(index),
        metadata_of(b) == metadata_of(a),
        all_live(a) ==> all_live(b),
{
    let count = tuple_count_of(a);
    lemma_total_size_remove(a, b, index, count);
    assert(metadata_of(b) =~= metadata_of(a));
    assert forall|i: int| 0 <= i < count - 1 && slot_live(b, i) implies free_space_pointer_of(b)
        <= #[trigger] slot_offset(b, i) && slot_offset(b, i) + slot_size(b, i) <= payload_end(
        b,
    ) by {
        if i < index {
            assert(slot_live(a, i));
        } else {
            assert(slot_live(a, i + 1));
        }
    }
    assert forall|i: int, j: int|
        0 <= i < j < count - 1 && slot_live(b, i) && slot_live(b, j) implies #[trigger] slots_disjoint(
        b,
        i,
        j,
    ) by {
        let ia = if i < index { i } else { i + 1 };
        let ja = if j < index { j } else { j + 1 };
        assert(slot_live(a, ia) && slot_live(a, ja));
        assert(slots_disjoint(a, ia, ja));
    }
    let rest = slots_of(a).remove(index);
    assert forall|k: int| 0 <= k < count - 1 implies slots_of(b)[k] == rest[k] by {
        if k < index {
            if slot_live(a, k) {
                assert(slot_bytes(b, k) =~= slot_bytes(a, k));
            }
        } else {
            if slot_live(a, k + 1) {
                assert(slot_bytes(b, k) =~= slot_bytes(a, k + 1));
            }
        }
    }
    assert(slots_of(b) =~= rest);
    if all_live(a) {
        assert forall|i: int| 0 <= i < tuple_count_of(b) implies #[trigger] slot_live(b, i) by {
            if i < index {
                assert(slot_live(a, i));
            } else {
                assert(slot_live(a, i + 1));
            }
        }
    }
}

/// Lowering the tuple count keeps a page consistent and keeps the first slots.
pub proof fn lemma_truncated(a: Seq<u8>, b: Seq<u8>, count: int)
    requires
        page_wf(a),
        0 <= count <= tuple_count_of(a),
        b.len() == a.len(),
        tuple_count_of(b) == count,
        metadata_size_of(b) == metadata_size_of(a),
        free_space_pointer_of(b) == free_space_pointer_of(a),
        forall|i: int| HEADER_SIZE <= i < PAGE_SIZE ==> b[i] == a[i],
    ensures
        page_wf(b),
        total_size(b, count) == total_size(a, count),
        slots_of(b) == slots_of(a).take(count),
        metadata_of(b) == metadata_of(a),
        all_live(a) ==> all_live(b),
{
    lemma_total_size_same(a, b, count);
    lemma_total_size_monotone(a, count, tuple_count_of(a));
    assert(metadata_of(b) =~= metadata_of(a));
    assert forall|i: int| 0 <= i < count && slot_live(b, i) implies free_space_pointer_of(b)
        <= #[trigger] slot_offset(b, i) && slot_offset(b, i) + slot_size(b, i) <= payload_end(
        b,
    ) by {
        assert(slot_live(a, i));
    }
    assert forall|i: int, j: int|
        0 <= i < j < count && slot_live(b, i) && slot_live(b, j) implies #[trigger] slots_disjoint(
        b,
        i,
        j,
    ) by {
        assert(slot_live(a, i) && slot_live(a, j));
        assert(slots_disjoint(a, i, j));
    }
    let kept = slots_of(a).take(count);
    assert forall|k: int| 0 <= k < count implies slots_of(b)[k] == kept[k] by {
        if slot_live(a, k) {
            assert(slot_bytes(b, k) =~= slot_bytes(a, k));
        }
    }
    assert(slots_of(b) =~= kept);
    if all_live(a) {
        assert forall|i: int| 0 <= i < tuple_count_of(b) implies #[trigger] slot_live(b, i) by {
            assert(slot_live(a, i));
        }
    }
}

/// Overwriting the tuple of one live slot keeps a page consistent and
/// changes no other slot.
pub proof fn lemma_tuple_written(a: Seq<u8>, b: Seq<u8>, index: int)
    requires
        page_wf(a),
        0 <= index < tuple_count_of(a),
        slot_live(a, index),
        same_outside(
            a,
            b,
            slot_offset(a, index),
            slot_offset(a, index) + slot_size(a, index),
        ),
    ensures
        page_wf(b),
        same_structure(a, b, tuple_count_of(a)),
        slots_of(b) == slots_of(a).update(index, Some(slot_bytes(b, index))),
        metadata_of(b) == metadata_of(a),
        free_space_of(b) == free_space_of(a),
        free_space_after_compaction_of(b) == free_space_after_compaction_of(a),
        all_live(a) ==> all_live(b),
{
    let lo = slot_offset(a, index);
    let hi = lo + slot_size(a, index);
    lemma_payload_write(a, b, lo, hi);
    let updated = slots_of(a).update(index, Some(slot_bytes(b, index)));
    assert forall|k: int| 0 <= k < tuple_count_of(a) implies slots_of(b)[k] == updated[k] by {
        if k != index && slot_live(a, k) {
            if k < index {
                assert(slots_disjoint(a, k, index));
            } else {
                assert(slots_disjoint(a, index, k));
            }
            assert(slot_bytes(b, k) == slot_bytes(a, k));
        }
    }
    assert(slots_of(b) =~= updated);
}


/// `a` with the `len` bytes from `start` on replaced by `middle`.
pub open spec fn spliced(a: Seq<u8>, start: int, len: int, middle: Seq<u8>) -> Seq<u8> {
    a.subrange(0, start) + middle + a.subrange(start + len, a.len() as int)
}

/// A splice that keeps the length replaces exactly the bytes in its range.
pub proof fn lemma_spliced(a: Seq<u8>, start: int, len: int, middle: Seq<u8>)
    requires
        0 <= start,
        0 <= len,
        start + len <= a.len(),
        spliced(a, start, len, middle).len() == a.len(),
    ensures
        middle.len() == len,
        same_outside(a, spliced(a, start, len, middle), start, start + len),
        spliced(a, start, len, middle).subrange(start, start + len) == middle,
{
    assert(spliced(a, start, len, middle).subrange(start, start + len) =~= middle);
}

/// Tells whether `data` is a consistent slotted page, see [`page_wf`]: bytes
/// that come from elsewhere, such as a file, can be tested before
/// [`TupleBlockPage::from_existing`] takes them.
pub fn check_page(data: &PageData) -> (ok: bool)
    ensures
        ok == page_wf(data@),
{
    let metadata_size = read_u16(data, 4) as usize;
    let pointer = read_u16(data, 6) as usize;
    let count = read_u16(data, 8) as usize;
    if metadata_size > PAGE_SIZE || pointer > PAGE_SIZE - metadata_size || HEADER_SIZE + count
        * DESCRIPTOR_SIZE > pointer {
        return false;
    }
    let end = PAGE_SIZE - metadata_size;
    let mut total: usize = 0;
    let mut index: usize = 0;
    while index < count
        invariant
            data@.len() == PAGE_SIZE,
            metadata_size == metadata_size_of(data@),
            pointer == free_space_pointer_of(data@),
            count == tuple_count_of(data@),
            end == payload_end(data@),
            HEADER_SIZE + count * DESCRIPTOR_SIZE <= pointer <= end <= PAGE_SIZE,
            index <= count,
            total == total_size(data@, index as int),
            total <= end - pointer,
            forall|i: int|
                0 <= i < index && slot_live(data@, i) ==> pointer <= #[trigger] slot_offset(
                    data@,
                    i,
                ) && slot_offset(data@, i) + slot_size(data@, i) <= end,
            forall|i: int, j: int|
                0 <= i < j < index && slot_live(data@, i) && slot_live(data@, j)
                    ==> #[trigger] slots_disjoint(data@, i, j),
        decreases count - index,
    {
        let at = HEADER_SIZE + index * DESCRIPTOR_SIZE;
        let offset = read_u16(data, at) as usize;
        let size = read_u16(data, at + 2) as usize;
        if size > end - pointer - total {
            proof {
                lemma_total_size_monotone(data@, index as int + 1, count as int);
            }
            return false;
        }
        total += size;
        if offset != 0 {
            if offset < pointer || offset + size > end {
                proof {
                    assert(slot_live(data@, index as int));
                    assert(slot_offset(data@, index as int) == offset);
                }
                return false;
            }
            let mut other: usize = 0;
            while other < index
                invariant
                    data@.len() == PAGE_SIZE,
                    count == tuple_count_of(data@),
                    HEADER_SIZE + count * DESCRIPTOR_SIZE <= PAGE_SIZE,
                    index < count,
                    other <= index,
                    offset == slot_offset(data@, index as int),
                    size == slot_size(data@, index as int),
                    offset != 0,
                    forall|i: int|
                        0 <= i < other && slot_live(data@, i) ==> #[trigger] slots_disjoint(
                            data@,
                            i,
                            index as int,
                        ),
                decreases index - other,
            {
                let other_at = HEADER_SIZE + other * DESCRIPTOR_SIZE;
                let other_offset = read_u16(data, other_at) as usize;
                let other_size = read_u16(data, other_at + 2) as usize;
                if other_offset != 0 && other_offset + other_size > offset && offset + size
                    > other_offset {
                    proof {
                        assert(slot_live(data@, other as int) && slot_live(data@, index as int));
                        assert(!slots_disjoint(data@, other as int, index as int));
                    }
                    return false;
                }
                other += 1;
            }
        }
        index += 1;
    }
    true
}

/// A slotted page over one page of bytes.
pub struct TupleBlockPage {
    data: PageData,
}

impl View for TupleBlockPage {
    type V = Seq<u8>;

    closed spec fn view(&self) -> Seq<u8> {
        self.data@
    }
}

impl TupleBlockPage {
    /// Whether the page is consistent, see [`page_wf`].
    pub open spec fn wf(&self) -> bool {
        page_wf(self@)
    }

    /// Takes over bytes that already hold a page with a trailer of
    /// `metadata_size` bytes. [`check_page`] tells whether bytes hold a page.
    pub fn from_existing(data: PageData, metadata_size: usize) -> (page: Self)
        requires
            page_wf(data@),
            metadata_size_of(data@) == metadata_size,
        ensures
            page@ == data@,
            page.wf(),
    {
        TupleBlockPage { data }
    }

    /// The bytes of the page.
    pub fn unwrap(&self) -> (data: &PageData)
        ensures
            data@ == self@,
    {
        &self.data
    }

    /// The bytes of the page.
    pub fn data(&self) -> (data: &PageData)
        ensures
            data@ == self@,
    {
        &self.data
    }

    /// The fixed fields at the start of the page.
    pub fn header(&self) -> (header: PageHeader)
        ensures
            header.lsn == u32_at(self@, 0),
            header.metadata_size == metadata_size_of(self@),
            header.free_space_pointer == free_space_pointer_of(self@),
            header.tuple_count == tuple_count_of(self@),
    {
        PageHeader {
            lsn: read_u32(&self.data, 0),
            metadata_size: read_u16(&self.data, 4),
            free_space_pointer: read_u16(&self.data, 6),
            tuple_count: read_u16(&self.data, 8),
        }
    }

    /// The metadata trailer.
    pub fn metadata(&self) -> (metadata: &[u8])
        requires
            self.wf(),
        ensures
            metadata@ == metadata_of(self@),
    {
        let size = read_u16(&self.data, 4) as usize;
        let all: &[u8] = &self.data;
        vstd::slice::slice_subrange(all, PAGE_SIZE - size, PAGE_SIZE)
    }

    /// The number of slots.
    pub fn tuple_count(&self) -> (count: usize)
        ensures
            count == tuple_count_of(self@),
    {
        read_u16(&self.data, 8) as usize
    }

    /// The bytes free between the descriptors and the lowest tuple.
    pub fn free_space(&self) -> (free: usize)
        requires
            self.wf(),
        ensures
            free == free_space_of(self@),
    {
        read_u16(&self.data, 6) as usize - HEADER_SIZE - self.tuple_count() * DESCRIPTOR_SIZE
    }

    /// The bytes that would be free if the tuples were packed against the
    /// trailer.
    pub fn free_space_after_compaction(&self) -> (free: usize)
        requires
            self.wf(),
        ensures
            free == free_space_after_compaction_of(self@),
            free >= free_space_of(self@),
    {
        let metadata_size = read_u16(&self.data, 4) as usize;
        PAGE_SIZE - HEADER_SIZE - metadata_size - self.tuple_count() * DESCRIPTOR_SIZE
            - self.total_tuple_size()
    }

    /// The sum of the sizes in all descriptors.
    pub fn total_tuple_size(&self) -> (total: usize)
        requires
            self.wf(),
        ensures
            total == total_size(self@, tuple_count_of(self@)),
    {
        let count = self.tuple_count();
        let mut total: usize = 0;
        let mut index: usize = 0;
        while index < count
            invariant
                self.wf(),
                count == tuple_count_of(self@),
                index <= count,
                total == total_size(self@, index as int),
            decreases count - index,
        {
            proof {
                lemma_total_size_monotone(self@, index as int + 1, count as int);
            }
            let (_, size) = self.get_tuple_descriptor(index);
            total += size as usize;
            index += 1;
        }
        total
    }

    /// The tuple in slot `index`, or `None` if the slot is dead.
    pub fn get_tuple(&self, index: SlotIndex) -> (tuple: Option<&[u8]>)
        requires
            self.wf(),
            index < tuple_count_of(self@),
        ensures
            tuple is Some == slot_live(self@, index as int),
            tuple matches Some(bytes) ==> bytes@ == slot_bytes(self@, index as int),
    {
        let (offset, size) = self.get_tuple_descriptor(index);
        if offset == 0 {
            return None;
        }
        let all: &[u8] = &self.data;
        Some(vstd::slice::slice_subrange(all, offset as usize, offset as usize + size as usize))
    }

    /// The offset and size recorded for slot `index`.
    fn get_tuple_descriptor(&self, index: usize) -> (descriptor: (u16, u16))
        requires
            self.wf(),
            index < tuple_count_of(self@),
        ensures
            descriptor.0 == slot_offset(self@, index as int),
            descriptor.1 == slot_size(self@, index as int),
    {
        let offset = HEADER_SIZE + index * DESCRIPTOR_SIZE;
        (read_u16(&self.data, offset), read_u16(&self.data, offset + 2))
    }

    /// Copies of all tuples, in slot order.
    pub fn dump_tuples(&self) -> (tuples: Vec<Vec<u8>>)
        requires
            self.wf(),
            all_live(self@),
        ensures
            tuples@.len() == tuple_count_of(self@),
            forall|i: int| 0 <= i < tuples@.len() ==> tuples@[i]@ == slot_bytes(self@, i),
    {
        let count = self.tuple_count();
        let mut tuples: Vec<Vec<u8>> = Vec::new();
        let mut index: usize = 0;
        while index < count
            invariant
                self.wf(),
                all_live(self@),
                count == tuple_count_of(self@),
                index <= count,
                tuples@.len() == index,
                forall|i: int| 0 <= i < index ==> tuples@[i]@ == slot_bytes(self@, i),
            decreases count - index,
        {
            assert(slot_live(self@, index as int));
            match self.get_tuple(index) {
                Some(tuple) => {
                    tuples.push(vstd::slice::slice_to_vec(tuple));
                },
                None => vstd::pervasive::unreached(),
            }
            index += 1;
        }
        tuples
    }

    /// Lays out an empty page in `data`, with `metadata` as its trailer.
    ///
    /// Bytes between the header and the trailer are left as they were.
    pub fn new(data: PageData, metadata: &[u8]) -> (page: Self)
        requires
            metadata@.len() <= PAGE_SIZE - HEADER_SIZE,
        ensures
            page.wf(),
            u32_at(page@, 0) == 0,
            metadata_size_of(page@) == metadata@.len(),
            free_space_pointer_of(page@) == PAGE_SIZE - metadata@.len(),
            tuple_count_of(page@) == 0,
            metadata_of(page@) == metadata@,
            slots_of(page@) == Seq::<Option<Seq<u8>>>::empty(),
            forall|i: int| 10 <= i < PAGE_SIZE - metadata@.len() ==> page@[i] == data@[i],
    {
        let mut page = TupleBlockPage { data };
        let metadata_size = metadata.len();
        write_u32(&mut page.data, 0, 0);
        write_u16(&mut page.data, 4, metadata_size as u16);
        write_u16(&mut page.data, 6, (PAGE_SIZE - metadata_size) as u16);
        write_u16(&mut page.data, 8, 0);
        let ghost laid_out = page@;
        let trailer = page.region(PAGE_SIZE - metadata_size, metadata_size);
        copy_bytes(trailer, metadata);
        proof {
            assert(page_wf(laid_out));
            lemma_spliced(laid_out, PAGE_SIZE - metadata_size, metadata_size as int, metadata@);
            lemma_payload_write(laid_out, page@, PAGE_SIZE - metadata_size, PAGE_SIZE as int);
            assert(metadata_of(page@) =~= metadata@);
            assert(slots_of(page@) =~= Seq::<Option<Seq<u8>>>::empty());
        }
        page
    }

    /// The `len` bytes of the page that start at `start`, for writing.
    fn region(&mut self, start: usize, len: usize) -> (bytes: &mut [u8])
        requires
            start + len <= PAGE_SIZE,
        ensures
            bytes@ == old(self)@.subrange(start as int, start + len),
            final(self)@ == spliced(old(self)@, start as int, len as int, final(bytes)@),
    {
        let all: &mut [u8] = &mut self.data;
        let (_, tail) = all.split_at_mut(start);
        let (bytes, _) = tail.split_at_mut(len);
        bytes
    }

    /// The metadata trailer, for writing.
    pub fn metadata_mut(&mut self) -> (metadata: &mut [u8])
        requires
            old(self).wf(),
        ensures
            metadata@ == metadata_of(old(self)@),
            final(metadata)@.len() == metadata_size_of(old(self)@),
            final(self).wf(),
            metadata_of(final(self)@) == final(metadata)@,
            same_structure(old(self)@, final(self)@, tuple_count_of(old(self)@)),
            slots_of(final(self)@) == slots_of(old(self)@),
            free_space_of(final(self)@) == free_space_of(old(self)@),
            free_space_after_compaction_of(final(self)@) == free_space_after_compaction_of(
                old(self)@,
            ),
            all_live(old(self)@) ==> all_live(final(self)@),
    {
        let size = read_u16(&self.data, 4) as usize;
        let metadata = self.region(PAGE_SIZE - size, size);
        proof {
            let a = old(self)@;
            let b = spliced(a, PAGE_SIZE - size, size as int, final(metadata)@);
            lemma_spliced(a, PAGE_SIZE - size, size as int, final(metadata)@);
            lemma_payload_write(a, b, PAGE_SIZE - size, PAGE_SIZE as int);
            assert(metadata_of(b) =~= final(metadata)@);
            assert forall|k: int| 0 <= k < tuple_count_of(a) implies slots_of(b)[k] == slots_of(
                a,
            )[k] by {
                if slot_live(a, k) {
                    assert(slot_bytes(b, k) == slot_bytes(a, k));
                }
            }
            assert(slots_of(b) =~= slots_of(a));
        }
        metadata
    }

    /// Forgets every slot from `count` on.
    pub fn truncate(&mut self, count: usize)
        requires
            old(self).wf(),
            count <= tuple_count_of(old(self)@),
        ensures
            final(self).wf(),
            tuple_count_of(final(self)@) == count,
            slots_of(final(self)@) == slots_of(old(self)@).take(count as int),
            metadata_of(final(self)@) == metadata_of(old(self)@),
            metadata_size_of(final(self)@) == metadata_size_of(old(self)@),
            free_space_pointer_of(final(self)@) == free_space_pointer_of(old(self)@),
            all_live(old(self)@) ==> all_live(final(self)@),
    {
        write_u16(&mut self.data, 8, count as u16);
        proof {
            lemma_truncated(old(self)@, self@, count as int);
        }
    }

    /// Deletes the tuple in slot `index`, moving the slots after it one down.
    ///
    /// The bytes of the tuple stay where they are until the page is compacted.
    pub fn delete_tuple(&mut self, index: SlotIndex)
        requires
            old(self).wf(),
            index < tuple_count_of(old(self)@),
        ensures
            final(self).wf(),
            slots_of(final(self)@) == slots_of(old(self)@).remove(index as int),
            tuple_count_of(final(self)@) == tuple_count_of(old(self)@) - 1,
            metadata_of(final(self)@) == metadata_of(old(self)@),
            metadata_size_of(final(self)@) == metadata_size_of(old(self)@),
            free_space_of(final(self)@) == free_space_of(old(self)@) + DESCRIPTOR_SIZE,
            free_space_after_compaction_of(final(self)@) == free_space_after_compaction_of(
                old(self)@,
            ) + DESCRIPTOR_SIZE + slot_size(old(self)@, index as int),
            all_live(old(self)@) ==> all_live(final(self)@),
    {
        let count = self.tuple_count();
        let ghost before = self@;
        let mut k: usize = index;
        while k + 1 < count
            invariant
                index <= k < count,
                count == tuple_count_of(before),
                page_wf(before),
                self@.len() == PAGE_SIZE,
                forall|i: int|
                    0 <= i < PAGE_SIZE && (i < descriptor_offset(index as int) || i
                        >= descriptor_offset(k as int)) ==> self@[i] == before[i],
                forall|j: int|
                    #![trigger slot_offset(self@, j)]
                    #![trigger slot_size(self@, j)]
                    index <= j < k ==> slot_offset(self@, j) == slot_offset(before, j + 1)
                        && slot_size(self@, j) == slot_size(before, j + 1),
            decreases count - k,
        {
            let ghost moved = self@;
            let from = HEADER_SIZE + (k + 1) * DESCRIPTOR_SIZE;
            let to = HEADER_SIZE + k * DESCRIPTOR_SIZE;
            let offset = read_u16(&self.data, from);
            let size = read_u16(&self.data, from + 2);
            write_u16(&mut self.data, to, offset);
            write_u16(&mut self.data, to + 2, size);
            proof {
                assert forall|j: int| index <= j < k + 1 implies slot_offset(self@, j)
                    == slot_offset(before, j + 1) && slot_size(self@, j) == slot_size(
                    before,
                    j + 1,
                ) by {
                    if j < k {
                        assert(slot_offset(moved, j) == slot_offset(before, j + 1));
                        assert(slot_size(moved, j) == slot_size(before, j + 1));
                    }
                }
            }
            k += 1;
        }
        let ghost shifted = self@;
        write_u16(&mut self.data, 8, (count - 1) as u16);
        proof {
            assert forall|j: int| 0 <= j < index implies slot_offset(self@, j) == slot_offset(
                before,
                j,
            ) && slot_size(self@, j) == slot_size(before, j) by {}
            assert forall|j: int| index <= j < count - 1 implies slot_offset(self@, j)
                == slot_offset(before, j + 1) && slot_size(self@, j) == slot_size(
                before,
                j + 1,
            ) by {
                assert(slot_offset(shifted, j) == slot_offset(before, j + 1));
                assert(slot_size(shifted, j) == slot_size(before, j + 1));
            }
            assert(removed(before, self@, index as int));
            lemma_removed(before, self@, index as int);
        }
    }

    /// Claims `size` bytes just below the free space pointer for a new tuple
    /// in slot `index`, and returns where they start.
    fn alloc_at_pointer(&mut self, index: SlotIndex, size: usize) -> (start: usize)
        requires
            old(self).wf(),
            index <= tuple_count_of(old(self)@),
            size + DESCRIPTOR_SIZE <= free_space_of(old(self)@),
        ensures
            start == free_space_pointer_of(old(self)@) - size,
            allocated(old(self)@, final(self)@, index as int, size as int),
    {
        let count = self.tuple_count();
        let end = read_u16(&self.data, 6) as usize;
        let start = end - size;
        let ghost before = self@;
        let mut k: usize = count;
        while k > index
            invariant
                index <= k <= count,
                count == tuple_count_of(before),
                page_wf(before),
                size + DESCRIPTOR_SIZE <= free_space_of(before),
                self@.len() == PAGE_SIZE,
                forall|i: int|
                    0 <= i < PAGE_SIZE && (i < descriptor_offset(k as int + 1) || i
                        >= descriptor_offset(count as int + 1)) ==> self@[i] == before[i],
                forall|j: int|
                    #![trigger slot_offset(self@, j)]
                    #![trigger slot_size(self@, j)]
                    k < j <= count ==> slot_offset(self@, j) == slot_offset(before, j - 1)
                        && slot_size(self@, j) == slot_size(before, j - 1),
            decreases k,
        {
            let ghost moved = self@;
            let from = HEADER_SIZE + (k - 1) * DESCRIPTOR_SIZE;
            let to = HEADER_SIZE + k * DESCRIPTOR_SIZE;
            let offset = read_u16(&self.data, from);
            let size = read_u16(&self.data, from + 2);
            write_u16(&mut self.data, to, offset);
            write_u16(&mut self.data, to + 2, size);
            proof {
                assert forall|j: int| k - 1 < j <= count implies slot_offset(self@, j)
                    == slot_offset(before, j - 1) && slot_size(self@, j) == slot_size(
                    before,
                    j - 1,
                ) by {
                    if j > k {
                        assert(slot_offset(moved, j) == slot_offset(before, j - 1));
                        assert(slot_size(moved, j) == slot_size(before, j - 1));
                    }
                }
            }
            k -= 1;
        }
        let ghost shifted = self@;
        write_u16(&mut self.data, 6, start as u16);
        write_u16(&mut self.data, 8, (count + 1) as u16);
        let at = HEADER_SIZE + index * DESCRIPTOR_SIZE;
        write_u16(&mut self.data, at, start as u16);
        write_u16(&mut self.data, at + 2, size as u16);
        proof {
            assert forall|j: int| 0 <= j < index implies slot_offset(self@, j) == slot_offset(
                before,
                j,
            ) && slot_size(self@, j) == slot_size(before, j) by {}
            assert forall|j: int| index < j <= count implies slot_offset(self@, j) == slot_offset(
                before,
                j - 1,
            ) && slot_size(self@, j) == slot_size(before, j - 1) by {
                assert(slot_offset(shifted, j) == slot_offset(before, j - 1));
                assert(slot_size(shifted, j) == slot_size(before, j - 1));
            }
        }
        start
    }

    /// Puts `tuple` into slot `index`, in space claimed just below the free
    /// space pointer.
    fn insert_at_pointer(&mut self, index: SlotIndex, tuple: &[u8])
        requires
            old(self).wf(),
            index <= tuple_count_of(old(self)@),
            tuple@.len() + DESCRIPTOR_SIZE <= free_space_of(old(self)@),
        ensures
            final(self).wf(),
            slots_of(final(self)@) == slots_of(old(self)@).insert(index as int, Some(tuple@)),
            tuple_count_of(final(self)@) == tuple_count_of(old(self)@) + 1,
            metadata_size_of(final(self)@) == metadata_size_of(old(self)@),
            metadata_of(final(self)@) == metadata_of(old(self)@),
            free_space_pointer_of(final(self)@) == free_space_pointer_of(old(self)@) - tuple@.len(),
            total_size(final(self)@, tuple_count_of(final(self)@)) == total_size(
                old(self)@,
                tuple_count_of(old(self)@),
            ) + tuple@.len(),
            all_live(old(self)@) ==> all_live(final(self)@),
            slot_offset(final(self)@, index as int) == free_space_pointer_of(final(self)@),
            slot_size(final(self)@, index as int) == tuple@.len(),
            forall|k: int|
                #![trigger slot_offset(final(self)@, k)]
                #![trigger slot_size(final(self)@, k)]
                0 <= k < index ==> slot_offset(final(self)@, k) == slot_offset(old(self)@, k)
                    && slot_size(final(self)@, k) == slot_size(old(self)@, k),
    {
        let size = tuple.len();
        let start = self.alloc_at_pointer(index, size);
        let ghost claimed = self@;
        proof {
            lemma_allocated(old(self)@, claimed, index as int, size as int);
        }
        let bytes = self.region(start, size);
        copy_bytes(bytes, tuple);
        proof {
            lemma_spliced(claimed, start as int, size as int, tuple@);
            lemma_tuple_written(claimed, self@, index as int);
            assert(slot_bytes(self@, index as int) == tuple@);
            assert forall|k: int| 0 <= k < index implies #[trigger] slot_offset(self@, k)
                == slot_offset(old(self)@, k) && slot_size(self@, k) == slot_size(
                old(self)@,
                k,
            ) by {
                assert(slot_offset(claimed, k) == slot_offset(old(self)@, k));
                assert(slot_size(claimed, k) == slot_size(old(self)@, k));
            }
            assert(slots_of(claimed).update(index as int, Some(tuple@)) =~= slots_of(
                old(self)@,
            ).insert(index as int, Some(tuple@)));
            lemma_total_size_same(claimed, self@, tuple_count_of(claimed));
        }
    }

    /// Packs the tuples against the trailer, in slot order, so that all free
    /// space lies between the descriptors and the lowest tuple.
    pub fn compact(&mut self)
        requires
            old(self).wf(),
            all_live(old(self)@),
        ensures
            final(self).wf(),
            all_live(final(self)@),
            slots_of(final(self)@) == slots_of(old(self)@),
            tuple_count_of(final(self)@) == tuple_count_of(old(self)@),
            metadata_size_of(final(self)@) == metadata_size_of(old(self)@),
            metadata_of(final(self)@) == metadata_of(old(self)@),
            free_space_after_compaction_of(final(self)@) == free_space_after_compaction_of(
                old(self)@,
            ),
            free_space_of(final(self)@) == free_space_after_compaction_of(final(self)@),
            forall|i: int|
                0 <= i < tuple_count_of(final(self)@) ==> #[trigger] slot_offset(final(self)@, i)
                    == payload_end(final(self)@) - total_size(final(self)@, i + 1),
    {
        let copy = TupleBlockPage { data: self.data };
        let count = copy.tuple_count();
        let metadata_size = read_u16(&self.data, 4) as usize;
        write_u16(&mut self.data, 8, 0);
        write_u16(&mut self.data, 6, (PAGE_SIZE - metadata_size) as u16);
        proof {
            assert(metadata_of(self@) =~= metadata_of(copy@));
            assert(slots_of(self@) =~= slots_of(copy@).take(0));
        }
        let mut index: usize = 0;
        while index < count
            invariant
                index <= count,
                copy.wf(),
                all_live(copy@),
                count == tuple_count_of(copy@),
                self.wf(),
                all_live(self@),
                tuple_count_of(self@) == index,
                metadata_size_of(self@) == metadata_size_of(copy@),
                metadata_of(self@) == metadata_of(copy@),
                free_space_pointer_of(self@) == payload_end(copy@) - total_size(
                    copy@,
                    index as int,
                ),
                total_size(self@, index as int) == total_size(copy@, index as int),
                slots_of(self@) == slots_of(copy@).take(index as int),
                forall|i: int|
                    0 <= i < index ==> #[trigger] slot_offset(self@, i) == payload_end(self@)
                        - total_size(self@, i + 1),
            decreases count - index,
        {
            proof {
                lemma_total_size_monotone(copy@, index as int + 1, count as int);
                assert(slot_live(copy@, index as int));
            }
            match copy.get_tuple(index) {
                Some(tuple) => {
                    let ghost before = self@;
                    self.insert_at_pointer(index, tuple);
                    proof {
                        assert(slots_of(before).insert(index as int, Some(tuple@)) =~= slots_of(
                            copy@,
                        ).take(index as int + 1));
                        assert forall|i: int| 0 <= i < index + 1 implies #[trigger] slot_offset(
                            self@,
                            i,
                        ) == payload_end(self@) - total_size(self@, i + 1) by {
                            lemma_total_size_same(before, self@, i);
                            if i < index {
                                assert(slot_offset(before, i) == payload_end(before) - total_size(
                                    before,
                                    i + 1,
                                ));
                                assert(slot_size(self@, i) == slot_size(before, i));
                            } else {
                                lemma_total_size_same(before, self@, index as int);
                            }
                        }
                    }
                },
                None => vstd::pervasive::unreached(),
            }
            index += 1;
        }
        proof {
            assert(slots_of(copy@).take(count as int) =~= slots_of(copy@));
        }
    }

    /// Sees to it that `space_needed` bytes are free between the descriptors
    /// and the lowest tuple, by compaction where that frees them, and tells
    /// whether they are.
    fn make_room(&mut self, space_needed: usize) -> (done: bool)
        requires
            old(self).wf(),
            free_space_of(old(self)@) < space_needed <= free_space_after_compaction_of(
                old(self)@,
            ) ==> all_live(old(self)@),
        ensures
            done == (space_needed <= free_space_after_compaction_of(old(self)@)),
            !done ==> final(self)@ == old(self)@,
            final(self).wf(),
            space_needed <= free_space_of(old(self)@) ==> final(self)@ == old(self)@,
            done ==> space_needed <= free_space_of(final(self)@),
            slots_of(final(self)@) == slots_of(old(self)@),
            tuple_count_of(final(self)@) == tuple_count_of(old(self)@),
            metadata_size_of(final(self)@) == metadata_size_of(old(self)@),
            metadata_of(final(self)@) == metadata_of(old(self)@),
            free_space_after_compaction_of(final(self)@) == free_space_after_compaction_of(
                old(self)@,
            ),
            free_space_of(final(self)@) == (if space_needed <= free_space_of(old(self)@)
                || !done {
                free_space_of(old(self)@)
            } else {
                free_space_after_compaction_of(old(self)@)
            }),
            all_live(old(self)@) ==> all_live(final(self)@),
    {
        if self.free_space() < space_needed && self.free_space_after_compaction() >= space_needed {
            self.compact();
        }
        self.free_space() >= space_needed
    }

    /// Makes room for a tuple of `size` bytes in slot `index`, moving the slots
    /// from `index` on one up, and returns the bytes of the new tuple for the
    /// caller to fill.
    ///
    /// Where the free space is too small but compaction would make enough, the
    /// page is compacted first.
    pub fn alloc_tuple_at(&mut self, index: SlotIndex, size: usize) -> (tuple: Result<
        &mut [u8],
        Error,
    >)
        requires
            old(self).wf(),
            index <= tuple_count_of(old(self)@),
            free_space_of(old(self)@) < size + DESCRIPTOR_SIZE
                <= free_space_after_compaction_of(old(self)@) ==> all_live(old(self)@),
        ensures
            tuple is Ok <==> size + DESCRIPTOR_SIZE <= free_space_after_compaction_of(old(self)@),
            tuple is Err ==> final(self)@ == old(self)@,
            tuple matches Ok(bytes) ==> {
                &&& bytes@.len() == size
                &&& final(bytes)@.len() == size
                &&& final(self).wf()
                &&& slots_of(final(self)@) == slots_of(old(self)@).insert(
                    index as int,
                    Some(final(bytes)@),
                )
                &&& tuple_count_of(final(self)@) == tuple_count_of(old(self)@) + 1
                &&& metadata_size_of(final(self)@) == metadata_size_of(old(self)@)
                &&& metadata_of(final(self)@) == metadata_of(old(self)@)
                &&& free_space_after_compaction_of(final(self)@)
                    == free_space_after_compaction_of(old(self)@) - size - DESCRIPTOR_SIZE
                &&& free_space_of(final(self)@) == (if size + DESCRIPTOR_SIZE <= free_space_of(
                    old(self)@,
                ) {
                    free_space_of(old(self)@)
                } else {
                    free_space_after_compaction_of(old(self)@)
                }) - size - DESCRIPTOR_SIZE
                &&& all_live(old(self)@) ==> all_live(final(self)@)
                &&& slot_offset(final(self)@, index as int) == free_space_pointer_of(final(self)@)
                &&& slot_size(final(self)@, index as int) == size
            },
    {
        if size > PAGE_SIZE {
            proof {
                lemma_total_size_monotone(self@, 0, tuple_count_of(self@));
            }
            return Err(Error::PageFull);
        }
        if !self.make_room(size + DESCRIPTOR_SIZE) {
            return Err(Error::PageFull);
        }
        let ghost packed = self@;
        let start = self.alloc_at_pointer(index, size);
        let ghost claimed = self@;
        proof {
            lemma_allocated(packed, claimed, index as int, size as int);
        }
        let bytes = self.region(start, size);
        proof {
            let filled = spliced(claimed, start as int, size as int, final(bytes)@);
            lemma_spliced(claimed, start as int, size as int, final(bytes)@);
            lemma_tuple_written(claimed, filled, index as int);
            assert(slot_bytes(filled, index as int) == final(bytes)@);
            assert(slots_of(claimed).update(index as int, Some(final(bytes)@)) =~= slots_of(
                packed,
            ).insert(index as int, Some(final(bytes)@)));
            lemma_total_size_same(claimed, filled, tuple_count_of(claimed));
        }
        Ok(bytes)
    }

    /// Appends `tuple` in a new last slot and returns that slot.
    pub fn insert_tuple(&mut self, tuple: &[u8]) -> (slot: Result<SlotIndex, Error>)
        requires
            old(self).wf(),
            free_space_of(old(self)@) < tuple@.len() + DESCRIPTOR_SIZE
                <= free_space_after_compaction_of(old(self)@) ==> all_live(old(self)@),
        ensures
            slot is Ok <==> tuple@.len() + DESCRIPTOR_SIZE <= free_space_after_compaction_of(
                old(self)@,
            ),
            slot is Err ==> final(self)@ == old(self)@,
            slot matches Ok(index) ==> {
                &&& index == tuple_count_of(old(self)@)
                &&& final(self).wf()
                &&& slots_of(final(self)@) == slots_of(old(self)@).push(Some(tuple@))
                &&& tuple_count_of(final(self)@) == tuple_count_of(old(self)@) + 1
                &&& metadata_size_of(final(self)@) == metadata_size_of(old(self)@)
                &&& metadata_of(final(self)@) == metadata_of(old(self)@)
                &&& free_space_after_compaction_of(final(self)@)
                    == free_space_after_compaction_of(old(self)@) - tuple@.len() - DESCRIPTOR_SIZE
                &&& free_space_of(final(self)@) == (if tuple@.len() + DESCRIPTOR_SIZE
                    <= free_space_of(old(self)@) {
                    free_space_of(old(self)@)
                } else {
                    free_space_after_compaction_of(old(self)@)
                }) - tuple@.len() - DESCRIPTOR_SIZE
                &&& all_live(old(self)@) ==> all_live(final(self)@)
                &&& slot_offset(final(self)@, index as int) == free_space_pointer_of(final(self)@)
                &&& slot_size(final(self)@, index as int) == tuple@.len()
            },
    {
        let index = self.tuple_count();
        match self.insert_tuple_at(index, tuple) {
            Ok(()) => {
                proof {
                    assert(slots_of(old(self)@).insert(index as int, Some(tuple@)) =~= slots_of(
                        old(self)@,
                    ).push(Some(tuple@)));
                }
                Ok(index)
            },
            Err(error) => Err(error),
        }
    }

    /// Puts `tuple` into slot `index`, moving the slots from `index` on one up.
    pub fn insert_tuple_at(&mut self, index: SlotIndex, tuple: &[u8]) -> (done: Result<(), Error>)
        requires
            old(self).wf(),
            index <= tuple_count_of(old(self)@),
            free_space_of(old(self)@) < tuple@.len() + DESCRIPTOR_SIZE
                <= free_space_after_compaction_of(old(self)@) ==> all_live(old(self)@),
        ensures
            done is Ok <==> tuple@.len() + DESCRIPTOR_SIZE <= free_space_after_compaction_of(
                old(self)@,
            ),
            done is Err ==> final(self)@ == old(self)@,
            done is Ok ==> {
                &&& final(self).wf()
                &&& slots_of(final(self)@) == slots_of(old(self)@).insert(
                    index as int,
                    Some(tuple@),
                )
                &&& tuple_count_of(final(self)@) == tuple_count_of(old(self)@) + 1
                &&& metadata_size_of(final(self)@) == metadata_size_of(old(self)@)
                &&& metadata_of(final(self)@) == metadata_of(old(self)@)
                &&& free_space_after_compaction_of(final(self)@)
                    == free_space_after_compaction_of(old(self)@) - tuple@.len() - DESCRIPTOR_SIZE
                &&& free_space_of(final(self)@) == (if tuple@.len() + DESCRIPTOR_SIZE
                    <= free_space_of(old(self)@) {
                    free_space_of(old(self)@)
                } else {
                    free_space_after_compaction_of(old(self)@)
                }) - tuple@.len() - DESCRIPTOR_SIZE
                &&& all_live(old(self)@) ==> all_live(final(self)@)
                &&& slot_offset(final(self)@, index as int) == free_space_pointer_of(final(self)@)
                &&& slot_size(final(self)@, index as int) == tuple@.len()
            },
    {
        match self.alloc_tuple_at(index, tuple.len()) {
            Ok(new_tuple) => {
                copy_bytes(new_tuple, tuple);
                Ok(())
            },
            Err(error) => Err(error),
        }
    }

    /// The tuple in slot `index`, for writing, or `None` if the slot is dead.
    pub fn get_tuple_mut(&mut self, index: SlotIndex) -> (tuple: Option<&mut [u8]>)
        requires
            old(self).wf(),
            index < tuple_count_of(old(self)@),
        ensures
            tuple is Some == slot_live(old(self)@, index as int),
            tuple is None ==> final(self)@ == old(self)@,
            tuple matches Some(bytes) ==> {
                &&& bytes@ == slot_bytes(old(self)@, index as int)
                &&& final(bytes)@.len() == slot_size(old(self)@, index as int)
                &&& final(self).wf()
                &&& same_structure(old(self)@, final(self)@, tuple_count_of(old(self)@))
                &&& slots_of(final(self)@) == slots_of(old(self)@).update(
                    index as int,
                    Some(final(bytes)@),
                )
                &&& metadata_of(final(self)@) == metadata_of(old(self)@)
                &&& all_live(old(self)@) ==> all_live(final(self)@)
            },
    {
        let (offset, size) = self.get_tuple_descriptor(index);
        if offset == 0 {
            return None;
        }
        let bytes = self.region(offset as usize, size as usize);
        proof {
            let filled = spliced(old(self)@, offset as int, size as int, final(bytes)@);
            lemma_spliced(old(self)@, offset as int, size as int, final(bytes)@);
            lemma_tuple_written(old(self)@, filled, index as int);
            assert(slot_bytes(filled, index as int) == final(bytes)@);
        }
        Some(bytes)
    }
}

} // verus!
