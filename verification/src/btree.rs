//! An ordered map from byte-string keys to byte-string values, kept in
//! slotted pages that the buffer pool serves.
//!
//! A leaf keeps its tuples sorted by key. An internal node keeps one pivot per
//! child; the first pivot has the empty key, which stands before every key.
//! A page of its own, the meta page, names the root.

pub mod leaf_tuple;
pub mod pivot_tuple;

use vstd::prelude::*;
use crate::buffer_pool::{
    allocate_node, lemma_held_resident, lemma_last_frame_pinned, lemma_pinned_but_one,
    lemma_pinned_stay_on, lemma_same_pins, lemma_two_stay_unpinned, store_page, BufferPool,
    PinnedPage, PoolView,
};
use crate::codec::{
    lemma_u16_at_range, lemma_u32_at_range, read_u16, read_u32, u32_at, with_u32, write_u32,
};
use crate::disk_manager::{DiskManager, PageData, PageId, INVALID_PAGE_ID, PAGE_SIZE};
use crate::key_order::{
    compare_keys, key_less, lemma_key_less_total, lemma_key_less_transitive, strictly_ascending,
    KeyOrder,
};
use crate::page::{
    all_live, check_page, free_space_after_compaction_of, lemma_total_len_concat,
    lemma_total_len_nonnegative, lemma_total_size_is_total_len, lemma_total_size_monotone,
    lemma_tuples_inserted, lemma_tuples_taken, metadata_of, metadata_size_of, page_wf, slot_live,
    slot_size, total_len, total_size, tuple_count_of, tuples_of, TupleBlockPage, DESCRIPTOR_SIZE,
    HEADER_SIZE,
};

verus! {

/// Size in bytes of the metadata trailer of a node.
pub const NODE_METADATA_SIZE: usize = 1;

/// The metadata trailer of a node.
#[derive(Debug, Clone, Copy)]
pub struct NodeMetadata {
    /// 0 for a leaf; for an internal node, one more than the level of its
    /// children.
    pub level: u8,
}

impl NodeMetadata {
    /// Whether the node is a leaf.
    pub fn is_leaf(&self) -> (leaf: bool)
        ensures
            leaf == (self.level == 0),
    {
        self.level == 0
    }
}

/// What the meta page holds.
#[derive(Debug, Clone, Copy)]
pub struct TreeMetadata {
    /// The page of the root node.
    pub root_page_id: PageId,
}

/// Where a key is, or would be, among the tuples of a node.
#[derive(Debug, Clone, Copy, PartialEq, Eq, Structural)]
pub enum SearchResult {
    /// The slot that holds the key.
    Found(usize),
    /// The slot at which the key would be put in.
    NotFound(usize),
}

/// The level that the trailer of a node page gives.
pub open spec fn level_of(bytes: Seq<u8>) -> int {
    bytes[PAGE_SIZE - 1] as int
}

/// Whether `tuple` is laid out as the tuples of a node at `level` are.
pub open spec fn is_node_tuple(level: int, tuple: Seq<u8>) -> bool {
    if level == 0 {
        leaf_tuple::is_leaf_tuple(tuple)
    } else {
        pivot_tuple::is_pivot_tuple(tuple)
    }
}

/// The key of a tuple of a node at `level`.
pub open spec fn node_key(level: int, tuple: Seq<u8>) -> Seq<u8> {
    if level == 0 {
        leaf_tuple::key_of(tuple)
    } else {
        pivot_tuple::key_of(tuple)
    }
}

/// The keys of the tuples `tuples` of a node at `level`.
pub open spec fn keys_of(level: int, tuples: Seq<Seq<u8>>) -> Seq<Seq<u8>> {
    Seq::new(tuples.len(), |i: int| node_key(level, tuples[i]))
}

/// Whether `tuples` can be the tuples of a node at `level`: each is laid out
/// as the level asks, and their keys stand in strictly ascending order.
pub open spec fn sorted_tuples(level: int, tuples: Seq<Seq<u8>>) -> bool {
    &&& forall|i: int| 0 <= i < tuples.len() ==> is_node_tuple(level, #[trigger] tuples[i])
    &&& strictly_ascending(keys_of(level, tuples))
}

/// Whether `bytes` is a slotted page with the trailer of a node and without
/// dead slots.
pub open spec fn is_node(bytes: Seq<u8>) -> bool {
    &&& page_wf(bytes)
    &&& metadata_size_of(bytes) == NODE_METADATA_SIZE
    &&& all_live(bytes)
}

/// Whether `bytes` is a node whose tuples are laid out as its level asks and
/// sorted by key.
pub open spec fn is_sorted_node(bytes: Seq<u8>) -> bool {
    &&& is_node(bytes)
    &&& sorted_tuples(level_of(bytes), tuples_of(bytes))
}

/// Whether `bytes` is a leaf.
pub open spec fn is_leaf_node(bytes: Seq<u8>) -> bool {
    &&& is_sorted_node(bytes)
    &&& level_of(bytes) == 0
}

/// Whether `bytes` is an internal node: it has a pivot, and its first pivot
/// has the empty key.
pub open spec fn is_internal_node(bytes: Seq<u8>) -> bool {
    &&& is_sorted_node(bytes)
    &&& level_of(bytes) > 0
    &&& tuple_count_of(bytes) >= 1
    &&& pivot_tuple::key_of(tuples_of(bytes)[0]).len() == 0
}

/// The keys and values of leaf tuples.
pub open spec fn entries_of(tuples: Seq<Seq<u8>>) -> Seq<(Seq<u8>, Seq<u8>)> {
    Seq::new(tuples.len(), |i: int| (leaf_tuple::key_of(tuples[i]), leaf_tuple::value_of(tuples[i])))
}

/// The sizes in the descriptors of a page, in slot order.
pub open spec fn sizes_of(bytes: Seq<u8>) -> Seq<int> {
    Seq::new(tuple_count_of(bytes) as nat, |i: int| slot_size(bytes, i))
}

/// The sum of `sizes`.
pub open spec fn sum_of(sizes: Seq<int>) -> int
    decreases sizes.len(),
{
    if sizes.len() == 0 {
        0
    } else {
        sum_of(sizes.drop_last()) + sizes.last()
    }
}

/// Whether `split` is the first slot at which the sizes up to and with it add
/// up to more than half of the sum of all `sizes`.
pub open spec fn is_split_index(sizes: Seq<int>, split: int) -> bool {
    &&& 0 <= split < sizes.len()
    &&& sum_of(sizes.take(split)) <= sum_of(sizes) / 2
    &&& sum_of(sizes) / 2 < sum_of(sizes.take(split + 1))
}

/// The sum grows by the size that is put in.
pub proof fn lemma_sum_insert(sizes: Seq<int>, index: int, size: int)
    requires
        0 <= index <= sizes.len(),
    ensures
        sum_of(sizes.insert(index, size)) == sum_of(sizes) + size,
    decreases sizes.len(),
{
    let inserted = sizes.insert(index, size);
    if index == sizes.len() {
        assert(inserted.drop_last() =~= sizes);
    } else {
        lemma_sum_insert(sizes.drop_last(), index, size);
        assert(inserted.drop_last() =~= sizes.drop_last().insert(index, size));
    }
}

/// The sum of the first sizes and the next one is the sum of one size more.
pub proof fn lemma_sum_take_next(sizes: Seq<int>, count: int)
    requires
        0 <= count < sizes.len(),
    ensures
        sum_of(sizes.take(count + 1)) == sum_of(sizes.take(count)) + sizes[count],
{
    assert(sizes.take(count + 1).drop_last() =~= sizes.take(count));
}

/// The sum of the descriptor sizes is the total size of the page.
pub proof fn lemma_sum_sizes(bytes: Seq<u8>, count: int)
    requires
        0 <= count <= tuple_count_of(bytes),
    ensures
        sum_of(sizes_of(bytes).take(count)) == total_size(bytes, count),
    decreases count,
{
    if count > 0 {
        lemma_sum_sizes(bytes, count - 1);
        lemma_sum_take_next(sizes_of(bytes), count - 1);
    }
}

/// The bytes that the tuples and descriptors of an empty node can take.
pub const NODE_CAPACITY: usize = PAGE_SIZE - HEADER_SIZE - NODE_METADATA_SIZE;

/// Whether `tuples`, with a descriptor each, fit into one node.
pub open spec fn fits_in_node(tuples: Seq<Seq<u8>>) -> bool {
    total_len(tuples) + DESCRIPTOR_SIZE * tuples.len() <= NODE_CAPACITY
}

/// The lengths of `tuples`.
pub open spec fn lens_of(tuples: Seq<Seq<u8>>) -> Seq<int> {
    Seq::new(tuples.len(), |i: int| tuples[i].len() as int)
}

/// The free space of a node after compaction is what its tuples and their
/// descriptors leave of its capacity.
pub proof fn lemma_node_space(bytes: Seq<u8>)
    requires
        is_node(bytes),
    ensures
        free_space_after_compaction_of(bytes) == NODE_CAPACITY - total_len(tuples_of(bytes))
            - DESCRIPTOR_SIZE * tuples_of(bytes).len(),
        fits_in_node(tuples_of(bytes)),
        sizes_of(bytes) == lens_of(tuples_of(bytes)),
        0 <= tuple_count_of(bytes) == tuples_of(bytes).len(),
{
    lemma_u16_at_range(bytes, 8);
    lemma_total_size_is_total_len(bytes, tuple_count_of(bytes));
    assert(tuples_of(bytes).take(tuple_count_of(bytes)) =~= tuples_of(bytes));
    assert forall|i: int| 0 <= i < tuple_count_of(bytes) implies sizes_of(bytes)[i] == lens_of(
        tuples_of(bytes),
    )[i] by {
        assert(slot_live(bytes, i));
    }
    assert(sizes_of(bytes) =~= lens_of(tuples_of(bytes)));
}

/// Putting a tuple in adds its length.
pub proof fn lemma_total_len_insert(tuples: Seq<Seq<u8>>, index: int, tuple: Seq<u8>)
    requires
        0 <= index <= tuples.len(),
    ensures
        total_len(tuples.insert(index, tuple)) == total_len(tuples) + tuple.len(),
    decreases tuples.len(),
{
    let inserted = tuples.insert(index, tuple);
    if index == tuples.len() {
        assert(inserted.drop_last() =~= tuples);
    } else {
        lemma_total_len_insert(tuples.drop_last(), index, tuple);
        assert(inserted.drop_last() =~= tuples.drop_last().insert(index, tuple));
    }
}

/// The first and the remaining tuples add up to all.
pub proof fn lemma_total_len_split(tuples: Seq<Seq<u8>>, at: int)
    requires
        0 <= at <= tuples.len(),
    ensures
        total_len(tuples) == total_len(tuples.take(at)) + total_len(tuples.skip(at)),
        0 <= total_len(tuples.take(at)),
        0 <= total_len(tuples.skip(at)),
{
    lemma_total_len_concat(tuples.take(at), tuples.skip(at));
    assert(tuples.take(at) + tuples.skip(at) =~= tuples);
    lemma_total_len_nonnegative(tuples.take(at));
    lemma_total_len_nonnegative(tuples.skip(at));
}

/// A part of what fits, fits.
pub proof fn lemma_fits_part(tuples: Seq<Seq<u8>>, from: int, to: int)
    requires
        0 <= from <= to <= tuples.len(),
        fits_in_node(tuples),
    ensures
        fits_in_node(tuples.subrange(from, to)),
{
    lemma_total_len_split(tuples, to);
    lemma_total_len_split(tuples.take(to), from);
    assert(tuples.take(to).skip(from) =~= tuples.subrange(from, to));
}

/// A tuple put in where its key belongs leaves the tuples sorted.
pub proof fn lemma_sorted_insert(level: int, tuples: Seq<Seq<u8>>, index: int, tuple: Seq<u8>)
    requires
        sorted_tuples(level, tuples),
        0 <= index <= tuples.len(),
        is_node_tuple(level, tuple),
        forall|i: int|
            0 <= i < index ==> key_less(#[trigger] keys_of(level, tuples)[i], node_key(level, tuple)),
        forall|i: int|
            index <= i < tuples.len() ==> key_less(
                node_key(level, tuple),
                #[trigger] keys_of(level, tuples)[i],
            ),
    ensures
        sorted_tuples(level, tuples.insert(index, tuple)),
{
    let inserted = tuples.insert(index, tuple);
    let keys = keys_of(level, tuples);
    let new_keys = keys_of(level, inserted);
    assert forall|i: int, j: int| 0 <= i < j < new_keys.len() implies key_less(
        #[trigger] new_keys[i],
        #[trigger] new_keys[j],
    ) by {
        let ia = if i < index { i } else { i - 1 };
        let ja = if j < index { j } else { j - 1 };
        if i == index {
            assert(key_less(node_key(level, tuple), keys[ja]));
        } else if j == index {
            assert(key_less(keys[ia], node_key(level, tuple)));
        } else {
            assert(key_less(keys[ia], keys[ja]));
        }
    }
}

/// A run of sorted tuples is sorted.
pub proof fn lemma_sorted_part(level: int, tuples: Seq<Seq<u8>>, from: int, to: int)
    requires
        sorted_tuples(level, tuples),
        0 <= from <= to <= tuples.len(),
    ensures
        sorted_tuples(level, tuples.subrange(from, to)),
{
    let part = tuples.subrange(from, to);
    let keys = keys_of(level, tuples);
    let part_keys = keys_of(level, part);
    assert forall|i: int, j: int| 0 <= i < j < part_keys.len() implies key_less(
        #[trigger] part_keys[i],
        #[trigger] part_keys[j],
    ) by {
        assert(key_less(keys[from + i], keys[from + j]));
    }
    assert forall|i: int| 0 <= i < part.len() implies is_node_tuple(level, #[trigger] part[i]) by {
        assert(is_node_tuple(level, tuples[from + i]));
    }
}

/// The sum of a longer run of sizes, none of them negative, is no smaller.
pub proof fn lemma_sum_take_monotone(sizes: Seq<int>, a: int, b: int)
    requires
        0 <= a <= b <= sizes.len(),
        forall|i: int| 0 <= i < sizes.len() ==> 0 <= #[trigger] sizes[i],
    ensures
        sum_of(sizes.take(a)) <= sum_of(sizes.take(b)),
    decreases b - a,
{
    if a < b {
        lemma_sum_take_monotone(sizes, a, b - 1);
        lemma_sum_take_next(sizes, b - 1);
    }
}

/// Sizes, none of them negative, have at most one split index.
pub proof fn lemma_split_index_unique(sizes: Seq<int>, a: int, b: int)
    requires
        forall|i: int| 0 <= i < sizes.len() ==> 0 <= #[trigger] sizes[i],
        is_split_index(sizes, a),
        is_split_index(sizes, b),
    ensures
        a == b,
{
    if a < b {
        lemma_sum_take_monotone(sizes, a + 1, b);
    } else if b < a {
        lemma_sum_take_monotone(sizes, b + 1, a);
    }
}

/// The slot at which tuples of the lengths `sizes` are split.
pub open spec fn split_index_of(sizes: Seq<int>) -> int {
    choose|split: int| is_split_index(sizes, split)
}

/// A split index of the lengths of tuples is the split index.
pub proof fn lemma_split_index_of(tuples: Seq<Seq<u8>>, split: int)
    requires
        is_split_index(lens_of(tuples), split),
    ensures
        split_index_of(lens_of(tuples)) == split,
{
    lemma_split_index_unique(lens_of(tuples), split, split_index_of(lens_of(tuples)));
}

/// Whether `tuples` can be split over two nodes.
pub open spec fn split_fits(tuples: Seq<Seq<u8>>) -> bool {
    &&& fits_in_node(tuples.take(split_index_of(lens_of(tuples))))
    &&& fits_in_node(tuples.skip(split_index_of(lens_of(tuples))))
}

/// Tells whether `data` is a slotted page with the trailer of a node and
/// without dead slots, see [`is_node`]: bytes that come from elsewhere can be
/// tested before [`NodePage::from_existing`] takes them.
pub fn check_node(data: &PageData) -> (ok: bool)
    ensures
        ok == is_node(data@),
{
    if !check_page(data) || read_u16(data, 4) as usize != NODE_METADATA_SIZE {
        return false;
    }
    let count = read_u16(data, 8) as usize;
    let mut index: usize = 0;
    while index < count
        invariant
            page_wf(data@),
            count == tuple_count_of(data@),
            index <= count,
            forall|i: int| 0 <= i < index ==> #[trigger] slot_live(data@, i),
        decreases count - index,
    {
        if read_u16(data, HEADER_SIZE + index * DESCRIPTOR_SIZE) == 0 {
            proof {
                assert(!slot_live(data@, index as int));
            }
            return false;
        }
        index += 1;
    }
    true
}

/// A slotted page that holds a node of the tree.
pub struct NodePage {
    /// The slotted page of the node.
    pub page: TupleBlockPage,
}

impl View for NodePage {
    type V = Seq<u8>;

    open spec fn view(&self) -> Seq<u8> {
        self.page@
    }
}

impl NodePage {
    /// Takes over bytes that already hold a node.
    pub fn from_existing(data: PageData) -> (node: Self)
        requires
            is_node(data@),
        ensures
            node@ == data@,
    {
        NodePage { page: TupleBlockPage::from_existing(data, NODE_METADATA_SIZE) }
    }

    /// The metadata trailer of the node.
    pub fn metadata(&self) -> (metadata: NodeMetadata)
        requires
            is_node(self@),
        ensures
            metadata.level == level_of(self@),
    {
        let trailer = self.page.metadata();
        NodeMetadata { level: trailer[0] }
    }

    /// The page that holds the node.
    pub fn unwrap(&self) -> (data: &PageData)
        ensures
            data@ == self@,
    {
        self.page.unwrap()
    }

    /// Lays out an empty leaf in `data`.
    pub fn new_leaf(data: PageData) -> (node: Self)
        ensures
            is_leaf_node(node@),
            tuples_of(node@) == Seq::<Seq<u8>>::empty(),
            free_space_after_compaction_of(node@) == PAGE_SIZE - HEADER_SIZE - NODE_METADATA_SIZE,
    {
        let metadata: [u8; 1] = [0];
        let node = NodePage { page: TupleBlockPage::new(data, &metadata) };
        proof {
            assert(tuples_of(node@) =~= Seq::<Seq<u8>>::empty());
            assert(metadata_of(node@)[0] == 0);
            assert(total_size(node@, 0) == 0);
        }
        node
    }

    /// Lays out in `data` an internal node at `level` whose only pivot leads
    /// to `first_child`.
    pub fn new_internal(data: PageData, level: u8, first_child: PageId) -> (node: Self)
        requires
            level > 0,
        ensures
            is_internal_node(node@),
            level_of(node@) == level,
            tuples_of(node@) == seq![pivot_tuple::encoded(first_child, Seq::<u8>::empty())],
            free_space_after_compaction_of(node@) == PAGE_SIZE - HEADER_SIZE - NODE_METADATA_SIZE
                - pivot_tuple::HEADER_SIZE - DESCRIPTOR_SIZE,
    {
        let metadata: [u8; 1] = [level];
        let mut page = TupleBlockPage::new(data, &metadata);
        let ghost empty = page@;
        proof {
            assert(metadata_of(empty)[0] == level);
            assert(total_size(empty, 0) == 0);
            assert(tuples_of(empty) =~= Seq::<Seq<u8>>::empty());
        }
        let no_key: [u8; 0] = [];
        match page.alloc_tuple_at(0, pivot_tuple::size(&no_key)) {
            Ok(tuple) => {
                pivot_tuple::write(tuple, first_child, &no_key);
            },
            Err(_) => vstd::pervasive::unreached(),
        }
        proof {
            let pivot = pivot_tuple::encoded(first_child, Seq::<u8>::empty());
            assert(no_key@ =~= Seq::<u8>::empty());
            pivot_tuple::lemma_encoded(first_child, Seq::<u8>::empty());
            lemma_tuples_inserted(empty, page@, 0, pivot);
            assert(tuples_of(page@) =~= seq![pivot]);
            assert(metadata_of(page@)[0] == level);
        }
        NodePage { page }
    }

    /// The key of the tuple in slot `index`.
    pub fn get_tuple_key(&self, index: usize) -> (key: &[u8])
        requires
            is_node(self@),
            index < tuple_count_of(self@),
            is_node_tuple(level_of(self@), tuples_of(self@)[index as int]),
        ensures
            key@ == node_key(level_of(self@), tuples_of(self@)[index as int]),
            key@ == keys_of(level_of(self@), tuples_of(self@))[index as int],
    {
        proof {
            assert(slot_live(self@, index as int));
        }
        let leaf = self.metadata().is_leaf();
        match self.page.get_tuple(index) {
            Some(tuple) => {
                if leaf {
                    leaf_tuple::get_key(tuple)
                } else {
                    pivot_tuple::get_key(tuple)
                }
            },
            None => vstd::pervasive::unreached(),
        }
    }

    /// Looks for `key` among the tuples of the node.
    pub fn binary_search(&self, key: &[u8]) -> (found: SearchResult)
        requires
            is_sorted_node(self@),
        ensures
            match found {
                SearchResult::Found(index) => {
                    &&& index < tuple_count_of(self@)
                    &&& keys_of(level_of(self@), tuples_of(self@))[index as int] == key@
                },
                SearchResult::NotFound(index) => {
                    &&& index <= tuple_count_of(self@)
                    &&& forall|i: int|
                        0 <= i < index ==> key_less(
                            #[trigger] keys_of(level_of(self@), tuples_of(self@))[i],
                            key@,
                        )
                    &&& forall|i: int|
                        index <= i < tuple_count_of(self@) ==> key_less(
                            key@,
                            #[trigger] keys_of(level_of(self@), tuples_of(self@))[i],
                        )
                },
            },
    {
        let ghost keys = keys_of(level_of(self@), tuples_of(self@));
        let mut start: usize = 0;
        let mut end: usize = self.page.tuple_count();
        while start < end
            invariant
                is_sorted_node(self@),
                keys == keys_of(level_of(self@), tuples_of(self@)),
                start <= end <= tuple_count_of(self@),
                forall|i: int| 0 <= i < start ==> key_less(#[trigger] keys[i], key@),
                forall|i: int| end <= i < tuple_count_of(self@) ==> key_less(key@, #[trigger] keys[i]),
            decreases end - start,
        {
            let mid = start + (end - start) / 2;
            let tuple_key = self.get_tuple_key(mid);
            match compare_keys(tuple_key, key) {
                KeyOrder::Greater => {
                    proof {
                        assert forall|i: int| mid <= i < tuple_count_of(self@) implies key_less(
                            key@,
                            #[trigger] keys[i],
                        ) by {
                            if i > mid {
                                assert(key_less(keys[mid as int], keys[i]));
                                lemma_key_less_transitive(key@, keys[mid as int], keys[i]);
                            }
                        }
                    }
                    end = mid;
                },
                KeyOrder::Less => {
                    proof {
                        assert forall|i: int| 0 <= i < mid + 1 implies key_less(
                            #[trigger] keys[i],
                            key@,
                        ) by {
                            if i < mid {
                                assert(key_less(keys[i], keys[mid as int]));
                                lemma_key_less_transitive(keys[i], keys[mid as int], key@);
                            }
                        }
                    }
                    start = mid + 1;
                },
                KeyOrder::Equal => {
                    return SearchResult::Found(mid);
                },
            }
        }
        SearchResult::NotFound(start)
    }

    /// The slot at which to split the node when a tuple of `tuple_size` bytes
    /// is to go into slot `insert_index` and does not fit: the slots before it
    /// stay, the slots from it on move to a new page. Slots are counted as
    /// they stand once the new tuple is in.
    ///
    /// The bytes of the tuples are shared as evenly as the slot boundaries
    /// allow: the split is at the first slot at which the sizes up to and with
    /// it add up to more than half of the bytes of all tuples.
    pub fn get_split_index(&self, insert_index: usize, tuple_size: usize) -> (split: usize)
        requires
            is_node(self@),
            insert_index <= tuple_count_of(self@),
            tuple_size <= usize::MAX - PAGE_SIZE,
            total_size(self@, tuple_count_of(self@)) + tuple_size > 0,
        ensures
            is_split_index(sizes_of(self@).insert(insert_index as int, tuple_size as int), split as int),
    {
        let ghost sizes = sizes_of(self@).insert(insert_index as int, tuple_size as int);
        proof {
            lemma_u16_at_range(self@, 8);
            lemma_total_size_monotone(self@, 0, tuple_count_of(self@));
            lemma_sum_sizes(self@, tuple_count_of(self@));
            assert(sizes_of(self@).take(tuple_count_of(self@)) =~= sizes_of(self@));
            lemma_sum_insert(sizes_of(self@), insert_index as int, tuple_size as int);
        }
        let total = self.page.total_tuple_size() + tuple_size;
        let split_at_byte = total / 2;
        let mut bytes_so_far: usize = 0;
        let num_tuples = self.page.tuple_count() + 1;
        let mut target_index: usize = 0;
        while target_index < num_tuples
            invariant
                is_node(self@),
                insert_index <= tuple_count_of(self@),
                tuple_size <= usize::MAX - PAGE_SIZE,
                num_tuples == tuple_count_of(self@) + 1,
                sizes == sizes_of(self@).insert(insert_index as int, tuple_size as int),
                sizes.len() == num_tuples,
                total == sum_of(sizes),
                split_at_byte == total / 2,
                total > 0,
                target_index <= num_tuples,
                bytes_so_far == sum_of(sizes.take(target_index as int)),
                bytes_so_far <= split_at_byte,
                target_index <= insert_index ==> bytes_so_far == total_size(
                    self@,
                    target_index as int,
                ),
            decreases num_tuples - target_index,
        {
            proof {
                lemma_sum_take_next(sizes, target_index as int);
                if target_index <= insert_index {
                    lemma_total_size_monotone(
                        self@,
                        target_index as int,
                        tuple_count_of(self@),
                    );
                    lemma_u16_at_range(self@, 4);
                    lemma_u16_at_range(self@, 6);
                    assert(bytes_so_far <= PAGE_SIZE);
                }
            }
            if target_index == insert_index {
                bytes_so_far += tuple_size;
            } else {
                let source_index = if target_index > insert_index {
                    target_index - 1
                } else {
                    target_index
                };
                proof {
                    assert(slot_live(self@, source_index as int));
                    assert(sizes[target_index as int] == slot_size(self@, source_index as int));
                }
                match self.page.get_tuple(source_index) {
                    Some(tuple) => {
                        bytes_so_far += tuple.len();
                    },
                    None => vstd::pervasive::unreached(),
                }
            }
            if bytes_so_far > split_at_byte {
                return target_index;
            }
            target_index += 1;
        }
        proof {
            assert(sizes.take(num_tuples as int) =~= sizes);
            assert(false);
        }
        vstd::pervasive::unreached()
    }

    /// Puts `tuple` into slot `index`, moving the slots from `index` on one up,
    /// if the node has room for it.
    pub fn insert_tuple_at(&mut self, index: usize, tuple: &[u8]) -> (done: bool)
        requires
            is_node(old(self)@),
            index <= tuple_count_of(old(self)@),
        ensures
            done == fits_in_node(tuples_of(old(self)@).insert(index as int, tuple@)),
            !done ==> final(self)@ == old(self)@,
            done ==> {
                &&& is_node(final(self)@)
                &&& level_of(final(self)@) == level_of(old(self)@)
                &&& tuples_of(final(self)@) == tuples_of(old(self)@).insert(index as int, tuple@)
            },
    {
        proof {
            lemma_node_space(self@);
            lemma_total_len_insert(tuples_of(self@), index as int, tuple@);
        }
        match self.page.insert_tuple_at(index, tuple) {
            Ok(()) => {
                proof {
                    lemma_tuples_inserted(old(self)@, self@, index as int, tuple@);
                    assert(metadata_of(self@)[0] == metadata_of(old(self)@)[0]);
                }
                true
            },
            Err(_) => false,
        }
    }

    /// Puts the leaf tuple for `key` and `value` into slot `index`, moving the
    /// slots from `index` on one up, if the node has room for it.
    pub fn insert_entry(&mut self, index: usize, key: &[u8], value: &[u8]) -> (done: bool)
        requires
            is_node(old(self)@),
            index <= tuple_count_of(old(self)@),
            key@.len() <= PAGE_SIZE,
            value@.len() <= PAGE_SIZE,
        ensures
            done == fits_in_node(
                tuples_of(old(self)@).insert(index as int, leaf_tuple::encoded(key@, value@)),
            ),
            !done ==> final(self)@ == old(self)@,
            done ==> {
                &&& is_node(final(self)@)
                &&& level_of(final(self)@) == level_of(old(self)@)
                &&& tuples_of(final(self)@) == tuples_of(old(self)@).insert(
                    index as int,
                    leaf_tuple::encoded(key@, value@),
                )
            },
    {
        proof {
            lemma_node_space(self@);
            leaf_tuple::lemma_encoded(key@, value@);
            lemma_total_len_insert(
                tuples_of(self@),
                index as int,
                leaf_tuple::encoded(key@, value@),
            );
        }
        match self.page.alloc_tuple_at(index, leaf_tuple::size(key, value)) {
            Ok(tuple) => {
                leaf_tuple::write(tuple, key, value);
                proof {
                    lemma_tuples_inserted(
                        old(self)@,
                        self@,
                        index as int,
                        leaf_tuple::encoded(key@, value@),
                    );
                    assert(metadata_of(self@)[0] == metadata_of(old(self)@)[0]);
                }
                true
            },
            Err(_) => false,
        }
    }

    /// Puts the pivot tuple for `downlink` and `key` into slot `index`, moving
    /// the slots from `index` on one up, if the node has room for it.
    pub fn insert_pivot(&mut self, index: usize, downlink: PageId, key: &[u8]) -> (done: bool)
        requires
            is_node(old(self)@),
            index <= tuple_count_of(old(self)@),
            key@.len() <= PAGE_SIZE,
        ensures
            done == fits_in_node(
                tuples_of(old(self)@).insert(index as int, pivot_tuple::encoded(downlink, key@)),
            ),
            !done ==> final(self)@ == old(self)@,
            done ==> {
                &&& is_node(final(self)@)
                &&& level_of(final(self)@) == level_of(old(self)@)
                &&& tuples_of(final(self)@) == tuples_of(old(self)@).insert(
                    index as int,
                    pivot_tuple::encoded(downlink, key@),
                )
            },
    {
        proof {
            lemma_node_space(self@);
            pivot_tuple::lemma_encoded(downlink, key@);
            lemma_total_len_insert(
                tuples_of(self@),
                index as int,
                pivot_tuple::encoded(downlink, key@),
            );
        }
        match self.page.alloc_tuple_at(index, pivot_tuple::size(key)) {
            Ok(tuple) => {
                pivot_tuple::write(tuple, downlink, key);
                proof {
                    lemma_tuples_inserted(
                        old(self)@,
                        self@,
                        index as int,
                        pivot_tuple::encoded(downlink, key@),
                    );
                    assert(metadata_of(self@)[0] == metadata_of(old(self)@)[0]);
                }
                true
            },
            Err(_) => false,
        }
    }

    /// Forgets every slot from `count` on.
    pub fn truncate(&mut self, count: usize)
        requires
            is_node(old(self)@),
            count <= tuple_count_of(old(self)@),
        ensures
            is_node(final(self)@),
            level_of(final(self)@) == level_of(old(self)@),
            tuples_of(final(self)@) == tuples_of(old(self)@).take(count as int),
    {
        self.page.truncate(count);
        proof {
            lemma_tuples_taken(old(self)@, self@, count as int);
            assert(metadata_of(self@)[0] == metadata_of(old(self)@)[0]);
        }
    }

    /// Splits this leaf, which has no room for the tuple for `key` and `value`
    /// in slot `insert_index`, over itself and `sibling`, an empty leaf: with
    /// the new tuple in its slot, the tuples before the split index stay and
    /// those from it on move to `sibling`.
    ///
    /// Gives the split index, or `None` where one of the two halves does not
    /// fit into a node; the two nodes then hold nothing of use.
    pub fn split_with(
        &mut self,
        sibling: &mut NodePage,
        insert_index: usize,
        key: &[u8],
        value: &[u8],
    ) -> (split: Option<usize>)
        requires
            is_node(old(self)@),
            level_of(old(self)@) == 0,
            is_node(old(sibling)@),
            level_of(old(sibling)@) == 0,
            tuples_of(old(sibling)@).len() == 0,
            insert_index <= tuple_count_of(old(self)@),
            key@.len() <= PAGE_SIZE,
            value@.len() <= PAGE_SIZE,
        ensures
            split is Some <==> split_fits(
                tuples_of(old(self)@).insert(
                    insert_index as int,
                    leaf_tuple::encoded(key@, value@),
                ),
            ),
            split matches Some(index) ==> {
                &&& index == split_index_of(
                    lens_of(
                        tuples_of(old(self)@).insert(
                            insert_index as int,
                            leaf_tuple::encoded(key@, value@),
                        ),
                    ),
                )
                &&& index <= tuple_count_of(old(self)@)
                &&& is_node(final(self)@)
                &&& level_of(final(self)@) == 0
                &&& tuples_of(final(self)@) == tuples_of(old(self)@).insert(
                    insert_index as int,
                    leaf_tuple::encoded(key@, value@),
                ).take(index as int)
                &&& is_node(final(sibling)@)
                &&& level_of(final(sibling)@) == 0
                &&& tuples_of(final(sibling)@) == tuples_of(old(self)@).insert(
                    insert_index as int,
                    leaf_tuple::encoded(key@, value@),
                ).skip(index as int)
            },
    {
        let ghost new_tuple = leaf_tuple::encoded(key@, value@);
        let ghost merged = tuples_of(self@).insert(insert_index as int, new_tuple);
        proof {
            lemma_node_space(self@);
            lemma_node_space(sibling@);
            leaf_tuple::lemma_encoded(key@, value@);
            lemma_total_size_monotone(self@, 0, tuple_count_of(self@));
            assert(lens_of(merged) =~= sizes_of(self@).insert(
                insert_index as int,
                new_tuple.len() as int,
            ));
        }
        let tuple_size = leaf_tuple::size(key, value);
        let split_index = self.get_split_index(insert_index, tuple_size);
        proof {
            lemma_split_index_of(merged, split_index as int);
        }
        let num_tuples = self.page.tuple_count() + 1;
        let mut target_index = split_index;
        while target_index < num_tuples
            invariant
                self@ == old(self)@,
                is_node(self@),
                is_node(sibling@),
                level_of(sibling@) == 0,
                insert_index <= tuple_count_of(self@),
                key@.len() <= PAGE_SIZE,
                value@.len() <= PAGE_SIZE,
                new_tuple == leaf_tuple::encoded(key@, value@),
                merged == tuples_of(self@).insert(insert_index as int, new_tuple),
                num_tuples == tuple_count_of(self@) + 1,
                merged.len() == num_tuples,
                split_index == split_index_of(lens_of(merged)),
                split_index <= target_index <= num_tuples,
                tuples_of(sibling@) == merged.subrange(split_index as int, target_index as int),
            decreases num_tuples - target_index,
        {
            let ghost filled = tuples_of(sibling@);
            proof {
                lemma_node_space(sibling@);
                assert(filled.insert(filled.len() as int, merged[target_index as int])
                    =~= merged.subrange(split_index as int, target_index as int + 1));
                if !fits_in_node(merged.subrange(split_index as int, target_index as int + 1)) {
                    if fits_in_node(merged.skip(split_index as int)) {
                        lemma_fits_part(
                            merged.skip(split_index as int),
                            0,
                            target_index + 1 - split_index,
                        );
                        assert(merged.skip(split_index as int).subrange(
                            0,
                            target_index + 1 - split_index,
                        ) =~= merged.subrange(split_index as int, target_index as int + 1));
                    }
                }
            }
            if target_index == insert_index {
                if !sibling.insert_entry(insert_index - split_index, key, value) {
                    return None;
                }
            } else {
                let source_index = if target_index > insert_index {
                    target_index - 1
                } else {
                    target_index
                };
                proof {
                    assert(slot_live(self@, source_index as int));
                    assert(merged[target_index as int] == tuples_of(self@)[source_index as int]);
                }
                let count = sibling.page.tuple_count();
                match self.page.get_tuple(source_index) {
                    Some(tuple) => {
                        if !sibling.insert_tuple_at(count, tuple) {
                            return None;
                        }
                    },
                    None => vstd::pervasive::unreached(),
                }
            }
            target_index += 1;
        }
        proof {
            lemma_node_space(sibling@);
            assert(merged.subrange(split_index as int, num_tuples as int) =~= merged.skip(
                split_index as int,
            ));
        }
        if insert_index < split_index {
            self.truncate(split_index - 1);
            proof {
                assert(tuples_of(old(self)@).take(split_index - 1).insert(
                    insert_index as int,
                    new_tuple,
                ) =~= merged.take(split_index as int));
            }
            if !self.insert_entry(insert_index, key, value) {
                return None;
            }
        } else {
            self.truncate(split_index);
            proof {
                assert(tuples_of(old(self)@).take(split_index as int) =~= merged.take(
                    split_index as int,
                ));
                lemma_node_space(self@);
            }
        }
        Some(split_index)
    }
}

/// An operation that the tree does not support.
#[derive(Debug, Clone, Copy, PartialEq, Eq, Structural)]
pub enum Unsupported {
    /// The root is an internal node; keys are put into a root leaf only.
    NonLeafRoot,
    /// The key is in the tree; no value is replaced.
    DuplicateKey,
    /// The tuple does not fit into a leaf, and the leaf cannot be split so
    /// that it does, or the key that the split puts into the new root does
    /// not fit there.
    TupleTooLarge,
}

/// Why an operation on the tree failed.
#[derive(Debug)]
pub enum Error {
    /// The buffer pool could not serve a page.
    BufferPool(crate::buffer_pool::Error),
    /// The tree does not support the operation.
    Unsupported(Unsupported),
}

/// What a node and the nodes below it hold.
pub enum NodeView {
    /// An internal node: for each pivot, its key and the child it leads to.
    Internal(Seq<(Seq<u8>, NodeView)>),
    /// A leaf: its keys and values.
    Leaf(Seq<(Seq<u8>, Seq<u8>)>),
}

/// What a node and the nodes below it hold, read out of the pages.
#[derive(Debug, PartialEq, Eq)]
pub enum NodeDump {
    /// An internal node: for each pivot, its key and the child it leads to.
    Internal(Vec<(Vec<u8>, NodeDump)>),
    /// A leaf: its keys and values.
    Leaf(Vec<(Vec<u8>, Vec<u8>)>),
}

impl NodeDump {
    /// Whether this dump shows `view`, a node of at most `depth` levels above
    /// the leaves.
    pub open spec fn shows(self, view: NodeView, depth: nat) -> bool
        decreases depth,
    {
        match (self, view) {
            (NodeDump::Leaf(entries), NodeView::Leaf(shown)) => {
                &&& entries@.len() == shown.len()
                &&& forall|i: int|
                    0 <= i < shown.len() ==> (#[trigger] entries@[i]).0@ == shown[i].0
                        && entries@[i].1@ == shown[i].1
            },
            (NodeDump::Internal(children), NodeView::Internal(shown)) => {
                &&& depth > 0
                &&& children@.len() == shown.len()
                &&& forall|i: int|
                    0 <= i < shown.len() ==> (#[trigger] children@[i]).0@ == shown[i].0
                        && children@[i].1.shows(shown[i].1, (depth - 1) as nat)
            },
            _ => false,
        }
    }
}

/// The child that pivot `index` of an internal node leads to.
pub open spec fn child_of(bytes: Seq<u8>, index: int) -> PageId {
    pivot_tuple::downlink_of(tuples_of(bytes)[index])
}

/// Whether page `id` holds a node at `level` of a tree: a leaf at level 0,
/// else an internal node whose pivots lead to nodes one level below.
pub open spec fn is_subtree(pool: PoolView, id: PageId, level: nat) -> bool
    decreases level,
{
    &&& pool.has_page(id)
    &&& level_of(pool.page(id)) == level
    &&& if level == 0 {
        is_leaf_node(pool.page(id))
    } else {
        &&& is_internal_node(pool.page(id))
        &&& forall|i: int|
            0 <= i < tuple_count_of(pool.page(id)) ==> is_subtree(
                pool,
                #[trigger] child_of(pool.page(id), i),
                (level - 1) as nat,
            )
    }
}

/// Whether the node in page `id`, at `level`, and the nodes below it are all
/// in frames of the pool.
pub open spec fn subtree_resident(pool: PoolView, id: PageId, level: nat) -> bool
    decreases level,
{
    &&& pool.resident(id)
    &&& level > 0 ==> forall|i: int|
        0 <= i < tuple_count_of(pool.page(id)) ==> subtree_resident(
            pool,
            #[trigger] child_of(pool.page(id), i),
            (level - 1) as nat,
        )
}

/// A subtree that is resident stays so while the page table and the pages
/// stay as they are.
pub proof fn lemma_resident_kept(a: PoolView, b: PoolView, id: PageId, level: nat)
    requires
        a.same_pages(b),
        a.table == b.table,
        is_subtree(a, id, level),
        subtree_resident(a, id, level),
    ensures
        subtree_resident(b, id, level),
    decreases level,
{
    assert(b.page(id) == a.page(id));
    if level > 0 {
        let page = a.page(id);
        assert forall|i: int| 0 <= i < tuple_count_of(page) implies subtree_resident(
            b,
            #[trigger] child_of(page, i),
            (level - 1) as nat,
        ) by {
            assert(is_subtree(a, child_of(page, i), (level - 1) as nat));
            assert(subtree_resident(a, child_of(page, i), (level - 1) as nat));
            lemma_resident_kept(a, b, child_of(page, i), (level - 1) as nat);
        }
    }
}

/// What the node in page `id`, at `level`, and the nodes below it hold.
pub open spec fn subtree_view(pool: PoolView, id: PageId, level: nat) -> NodeView
    decreases level,
{
    if level == 0 {
        NodeView::Leaf(entries_of(tuples_of(pool.page(id))))
    } else {
        NodeView::Internal(
            Seq::new(
                tuple_count_of(pool.page(id)) as nat,
                |i: int|
                    (
                        pivot_tuple::key_of(tuples_of(pool.page(id))[i]),
                        subtree_view(pool, child_of(pool.page(id), i), (level - 1) as nat),
                    ),
            ),
        )
    }
}

/// In a tree, the keys of every node stand in strictly ascending order: those
/// of a leaf, and those of an internal node, whose first key is the empty
/// one; and the children of an internal node are trees one level below.
pub proof fn lemma_nodes_ordered(pool: PoolView, id: PageId, level: nat)
    requires
        is_subtree(pool, id, level),
    ensures
        strictly_ascending(keys_of(level as int, tuples_of(pool.page(id)))),
        level > 0 ==> keys_of(level as int, tuples_of(pool.page(id)))[0].len() == 0,
        level > 0 ==> forall|i: int|
            0 <= i < tuple_count_of(pool.page(id)) ==> is_subtree(
                pool,
                #[trigger] child_of(pool.page(id), i),
                (level - 1) as nat,
            ),
{
}

/// A subtree whose pages are served as before is the subtree it was.
pub proof fn lemma_subtree_kept(a: PoolView, b: PoolView, id: PageId, level: nat)
    requires
        a.same_pages(b),
        a.disk.len() <= b.disk.len(),
        is_subtree(a, id, level),
    ensures
        is_subtree(b, id, level),
        subtree_view(b, id, level) == subtree_view(a, id, level),
    decreases level,
{
    assert(b.page(id) == a.page(id));
    if level > 0 {
        let page = a.page(id);
        assert forall|i: int| 0 <= i < tuple_count_of(page) implies is_subtree(
            b,
            #[trigger] child_of(page, i),
            (level - 1) as nat,
        ) && subtree_view(b, child_of(page, i), (level - 1) as nat) == subtree_view(
            a,
            child_of(page, i),
            (level - 1) as nat,
        ) by {
            lemma_subtree_kept(a, b, child_of(page, i), (level - 1) as nat);
        }
        assert(subtree_view(b, id, level)->Internal_0 =~= subtree_view(a, id, level)->Internal_0);
    }
}

/// Whether `index` is the slot at which `key` belongs among the sorted
/// `keys`, none of which it equals.
pub open spec fn is_position(keys: Seq<Seq<u8>>, key: Seq<u8>, index: int) -> bool {
    &&& 0 <= index <= keys.len()
    &&& forall|i: int| 0 <= i < index ==> key_less(#[trigger] keys[i], key)
    &&& forall|i: int| index <= i < keys.len() ==> key_less(key, #[trigger] keys[i])
}

/// The slot at which `key` belongs among the sorted `keys`.
pub open spec fn position_of(keys: Seq<Seq<u8>>, key: Seq<u8>) -> int {
    choose|index: int| is_position(keys, key, index)
}

/// A key belongs at one slot only, and is then none of the keys.
pub proof fn lemma_position(keys: Seq<Seq<u8>>, key: Seq<u8>, index: int)
    requires
        is_position(keys, key, index),
    ensures
        position_of(keys, key) == index,
        !keys.contains(key),
{
    let other = position_of(keys, key);
    if other < index {
        lemma_key_less_total(keys[other], key);
    } else if index < other {
        lemma_key_less_total(keys[index], key);
    }
    if keys.contains(key) {
        let i = choose|i: int| 0 <= i < keys.len() && keys[i] == key;
        lemma_key_less_total(keys[i], key);
    }
}

/// The tuples of a root leaf once the tuple for `key` and `value` is in.
pub open spec fn merged_tuples(tuples: Seq<Seq<u8>>, key: Seq<u8>, value: Seq<u8>) -> Seq<Seq<u8>> {
    tuples.insert(position_of(keys_of(0, tuples), key), leaf_tuple::encoded(key, value))
}

/// Whether the key that a split moves up fits into a new root beside the
/// first pivot.
pub open spec fn split_key_fits(merged: Seq<Seq<u8>>) -> bool {
    leaf_tuple::key_of(merged[split_index_of(lens_of(merged))]).len() + 2 * (
    pivot_tuple::HEADER_SIZE + DESCRIPTOR_SIZE) <= NODE_CAPACITY
}

/// Why the tree, whose root page holds `root`, does not take `key` with
/// `value`; `None` where it does.
pub open spec fn refusal(root: Seq<u8>, key: Seq<u8>, value: Seq<u8>) -> Option<Unsupported> {
    if level_of(root) != 0 {
        Some(Unsupported::NonLeafRoot)
    } else if keys_of(0, tuples_of(root)).contains(key) {
        Some(Unsupported::DuplicateKey)
    } else if key.len() > PAGE_SIZE || value.len() > PAGE_SIZE {
        Some(Unsupported::TupleTooLarge)
    } else if fits_in_node(merged_tuples(tuples_of(root), key, value)) {
        None
    } else if split_fits(merged_tuples(tuples_of(root), key, value)) && split_key_fits(
        merged_tuples(tuples_of(root), key, value),
    ) {
        None
    } else {
        Some(Unsupported::TupleTooLarge)
    }
}

/// What a tree whose root leaf holds `tuples` shows once `key` with `value`
/// is in: the leaf with one tuple more, in key order; or, where the leaf has
/// no room, a new root over the two halves of the leaf.
pub open spec fn grown(tuples: Seq<Seq<u8>>, key: Seq<u8>, value: Seq<u8>) -> NodeView {
    let merged = merged_tuples(tuples, key, value);
    let split = split_index_of(lens_of(merged));
    if fits_in_node(merged) {
        NodeView::Leaf(entries_of(merged))
    } else {
        NodeView::Internal(
            seq![
                (Seq::<u8>::empty(), NodeView::Leaf(entries_of(merged.take(split)))),
                (
                    leaf_tuple::key_of(merged[split]),
                    NodeView::Leaf(entries_of(merged.skip(split))),
                ),
            ],
        )
    }
}

/// A tuple of a node is no longer than a page.
pub proof fn lemma_tuple_len(bytes: Seq<u8>, index: int)
    requires
        is_node(bytes),
        0 <= index < tuple_count_of(bytes),
    ensures
        tuples_of(bytes)[index].len() <= PAGE_SIZE,
{
    assert(slot_live(bytes, index));
    lemma_u16_at_range(bytes, 4);
    lemma_u16_at_range(bytes, 6);
}

/// Sorted tuples split inside fall into two halves, neither of them empty:
/// every key of the first half comes before the first key of the second, and
/// that key before every other key of the second.
pub proof fn lemma_split_halves(merged: Seq<Seq<u8>>, split: int)
    requires
        sorted_tuples(0, merged),
        0 < split < merged.len(),
    ensures
        merged.take(split).len() > 0,
        merged.skip(split).len() > 0,
        merged.take(split) + merged.skip(split) == merged,
        sorted_tuples(0, merged.take(split)),
        sorted_tuples(0, merged.skip(split)),
        keys_of(0, merged.skip(split))[0] == leaf_tuple::key_of(merged[split]),
        forall|i: int|
            0 <= i < split ==> key_less(
                #[trigger] keys_of(0, merged.take(split))[i],
                leaf_tuple::key_of(merged[split]),
            ),
        forall|j: int|
            0 < j < merged.len() - split ==> key_less(
                leaf_tuple::key_of(merged[split]),
                #[trigger] keys_of(0, merged.skip(split))[j],
            ),
        leaf_tuple::key_of(merged[split]).len() > 0,
{
    lemma_sorted_part(0, merged, 0, split);
    lemma_sorted_part(0, merged, split, merged.len() as int);
    assert(merged.subrange(0, split) =~= merged.take(split));
    assert(merged.subrange(split, merged.len() as int) =~= merged.skip(split));
    assert(merged.take(split) + merged.skip(split) =~= merged);
    let keys = keys_of(0, merged);
    assert(keys[split] == leaf_tuple::key_of(merged[split]));
    assert forall|i: int| 0 <= i < split implies key_less(
        #[trigger] keys_of(0, merged.take(split))[i],
        leaf_tuple::key_of(merged[split]),
    ) by {
        assert(key_less(keys[i], keys[split]));
    }
    assert forall|j: int| 0 < j < merged.len() - split implies key_less(
        leaf_tuple::key_of(merged[split]),
        #[trigger] keys_of(0, merged.skip(split))[j],
    ) by {
        assert(key_less(keys[split], keys[split + j]));
    }
    assert(key_less(keys[0], keys[split]));
}

/// A new root over the two halves of a split leaf is a tree of two levels
/// that shows the two halves under the empty key and the split key.
pub proof fn lemma_split_tree(
    pool: PoolView,
    left: PageId,
    right: PageId,
    top: PageId,
    merged: Seq<Seq<u8>>,
    split: int,
)
    requires
        pool.has_page(left),
        pool.has_page(right),
        pool.has_page(top),
        sorted_tuples(0, merged),
        0 < split < merged.len(),
        is_node(pool.page(left)),
        level_of(pool.page(left)) == 0,
        tuples_of(pool.page(left)) == merged.take(split),
        is_node(pool.page(right)),
        level_of(pool.page(right)) == 0,
        tuples_of(pool.page(right)) == merged.skip(split),
        is_node(pool.page(top)),
        level_of(pool.page(top)) == 1,
        tuples_of(pool.page(top)) == seq![
            pivot_tuple::encoded(left, Seq::<u8>::empty()),
            pivot_tuple::encoded(right, leaf_tuple::key_of(merged[split])),
        ],
    ensures
        is_subtree(pool, top, 1),
        pool.resident(left) && pool.resident(right) && pool.resident(top) ==> subtree_resident(
            pool,
            top,
            1,
        ),
        subtree_view(pool, top, 1) == NodeView::Internal(
            seq![
                (Seq::<u8>::empty(), NodeView::Leaf(entries_of(merged.take(split)))),
                (leaf_tuple::key_of(merged[split]), NodeView::Leaf(entries_of(merged.skip(split)))),
            ],
        ),
{
    let split_key = leaf_tuple::key_of(merged[split]);
    let pivots = tuples_of(pool.page(top));
    pivot_tuple::lemma_encoded(left, Seq::<u8>::empty());
    pivot_tuple::lemma_encoded(right, split_key);
    lemma_u16_at_range(pool.page(top), 8);
    assert(tuple_count_of(pool.page(top)) == 2) by {
        assert(pivots.len() == 2);
    }
    lemma_sorted_part(0, merged, 0, split);
    lemma_sorted_part(0, merged, split, merged.len() as int);
    assert(merged.subrange(0, split) =~= merged.take(split));
    assert(merged.subrange(split, merged.len() as int) =~= merged.skip(split));
    assert(key_less(keys_of(0, merged)[0], keys_of(0, merged)[split]));
    assert(split_key.len() > 0);
    assert(keys_of(1, pivots) =~= seq![Seq::<u8>::empty(), split_key]);
    assert forall|i: int, j: int| 0 <= i < j < keys_of(1, pivots).len() implies key_less(
        #[trigger] keys_of(1, pivots)[i],
        #[trigger] keys_of(1, pivots)[j],
    ) by {
        assert(i == 0 && j == 1);
    }
    assert(sorted_tuples(1, pivots));
    assert(is_internal_node(pool.page(top)));
    assert(child_of(pool.page(top), 0) == left);
    assert(child_of(pool.page(top), 1) == right);
    assert(is_subtree(pool, left, 0));
    assert(is_subtree(pool, right, 0));
    assert forall|i: int| 0 <= i < tuple_count_of(pool.page(top)) implies is_subtree(
        pool,
        #[trigger] child_of(pool.page(top), i),
        0,
    ) by {
        assert(i == 0 || i == 1);
    }
    if pool.resident(left) && pool.resident(right) && pool.resident(top) {
        assert(subtree_resident(pool, left, 0));
        assert(subtree_resident(pool, right, 0));
        assert forall|i: int| 0 <= i < tuple_count_of(pool.page(top)) implies subtree_resident(
            pool,
            #[trigger] child_of(pool.page(top), i),
            0,
        ) by {
            assert(i == 0 || i == 1);
        }
    }
    assert(subtree_view(pool, left, 0) == NodeView::Leaf(entries_of(merged.take(split))));
    assert(subtree_view(pool, right, 0) == NodeView::Leaf(entries_of(merged.skip(split))));
    assert(subtree_view(pool, top, 1)->Internal_0 =~= seq![
        (Seq::<u8>::empty(), NodeView::Leaf(entries_of(merged.take(split)))),
        (split_key, NodeView::Leaf(entries_of(merged.skip(split)))),
    ]);
}

/// Brings two new pages into the pool, pinned and marked as changed.
///
/// The two pages need a frame each: where fewer than two frames are unpinned
/// the pool has no frame for the second, and none is kept for the first.
/// Where two are, only the device can fail.
fn allocate_pair<D: DiskManager>(pool: &mut BufferPool<D>) -> (pages: Result<
    (PinnedPage, PinnedPage),
    crate::buffer_pool::Error,
>)
    requires
        old(pool).wf(),
        old(pool)@.coherent(),
        old(pool)@.disk.len() + 1 < INVALID_PAGE_ID,
    ensures
        final(pool).wf(),
        final(pool)@.coherent(),
        old(pool)@.same_pages(final(pool)@),
        old(pool)@.handles_kept(final(pool)@),
        old(pool)@.disk.len() <= final(pool)@.disk.len() <= old(pool)@.disk.len() + 2,
        pages is Err ==> final(pool)@.pins() == old(pool)@.pins(),
        pages is Err ==> final(pool)@.disk.len() <= old(pool)@.disk.len() + 1,
        old(pool)@.all_pinned() ==> pages matches Err(crate::buffer_pool::Error::NoFreeFrames),
        old(pool)@.all_pinned() ==> final(pool)@.disk.len() == old(pool)@.disk.len(),
        old(pool)@.all_pinned_but_one() ==> pages is Err,
        pages matches Err(crate::buffer_pool::Error::NoFreeFrames) ==> old(
            pool,
        )@.all_pinned_but_one(),
        old(pool)@.reliable ==> (pages is Ok <==> !old(pool)@.all_pinned_but_one()),
        final(pool)@.reliable == old(pool)@.reliable,
        old(pool)@.pinned_stay(final(pool)@),
        pages matches Ok(pins) ==> {
            &&& final(pool)@.holds(pins.0)
            &&& final(pool)@.holds(pins.1)
            &&& final(pool)@.resident(pins.0.page())
            &&& final(pool)@.resident(pins.1.page())
            &&& pins.0.page().0 == old(pool)@.disk.len()
            &&& pins.1.page().0 == old(pool)@.disk.len() + 1
            &&& final(pool)@.disk.len() == old(pool)@.disk.len() + 2
            &&& pins.0.frame() != pins.1.frame()
            &&& pins.0.frame() < old(pool)@.pins().len()
            &&& pins.1.frame() < old(pool)@.pins().len()
            &&& old(pool)@.pins()[pins.0.frame() as int] == 0
            &&& old(pool)@.pins()[pins.1.frame() as int] == 0
            &&& final(pool)@.pins() == old(pool)@.pins().update(pins.0.frame() as int, 1).update(
                pins.1.frame() as int,
                1,
            )
        },
{
    let first = match allocate_node(pool) {
        Ok(pin) => pin,
        Err(error) => {
            return Err(error);
        },
    };
    let ghost with_first = pool@;
    proof {
        if old(pool)@.all_pinned_but_one() {
            lemma_last_frame_pinned(old(pool)@, with_first, first.frame() as int, 1);
        }
    }
    let second = match allocate_node(pool) {
        Ok(pin) => pin,
        Err(error) => {
            proof {
                if error is NoFreeFrames {
                    lemma_pinned_but_one(old(pool)@, with_first, first.frame() as int, 1);
                }
            }
            let ghost failed = pool@;
            first.unpin(pool);
            proof {
                assert(pool@.pins() =~= old(pool)@.pins());
                lemma_pinned_stay_on(old(pool)@, with_first, failed, first.frame() as int, 1);
                assert forall|id: PageId|
                    old(pool)@.resident(id) && old(pool)@.frames[old(pool)@.table[id.0] as int].pins
                        > 0 implies #[trigger] pool@.resident(id) && pool@.table[id.0] == old(
                    pool,
                )@.table[id.0] by {
                    assert(failed.resident(id));
                }
                assert forall|pin: PinnedPage| old(pool)@.holds(pin) implies #[trigger] pool@.holds(
                    pin,
                ) by {
                    assert(old(pool)@.pins()[pin.frame() as int] == old(pool)@.frames[pin.frame() as int].pins);
                    assert(with_first.holds(pin));
                }
            }
            return Err(error);
        },
    };
    proof {
        lemma_held_resident(with_first, first);
        lemma_pinned_stay_on(old(pool)@, with_first, pool@, first.frame() as int, 1);
    }
    Ok((first, second))
}

/// Gives back the handles to two pages.
fn release_pair<D: DiskManager>(pool: &mut BufferPool<D>, first: PinnedPage, second: PinnedPage)
    requires
        old(pool).wf(),
        old(pool)@.coherent(),
        old(pool)@.holds(first),
        old(pool)@.holds(second),
        first.frame() != second.frame(),
    ensures
        final(pool).wf(),
        final(pool)@.coherent(),
        old(pool)@.same_pages(final(pool)@),
        final(pool)@.disk.len() == old(pool)@.disk.len(),
        final(pool)@.pins() == old(pool)@.pins().update(
            first.frame() as int,
            (old(pool)@.pins()[first.frame() as int] - 1) as nat,
        ).update(second.frame() as int, (old(pool)@.pins()[second.frame() as int] - 1) as nat),
        forall|pin: PinnedPage|
            old(pool)@.holds(pin) && pin.frame() != first.frame() && pin.frame() != second.frame()
                ==> #[trigger] final(pool)@.holds(pin),
        final(pool)@.table == old(pool)@.table,
        final(pool)@.reliable == old(pool)@.reliable,
{
    second.unpin(pool);
    first.unpin(pool);
    proof {
        assert(pool@.pins() =~= old(pool)@.pins().update(
            first.frame() as int,
            (old(pool)@.pins()[first.frame() as int] - 1) as nat,
        ).update(second.frame() as int, (old(pool)@.pins()[second.frame() as int] - 1) as nat));
    }
}

/// Puts their bytes into four pinned pages, no two of them the same, and
/// marks the pages as changed.
fn store_pages<D: DiskManager>(
    pool: &mut BufferPool<D>,
    first: &PinnedPage,
    first_data: &PageData,
    second: &PinnedPage,
    second_data: &PageData,
    third: &PinnedPage,
    third_data: &PageData,
    fourth: &PinnedPage,
    fourth_data: &PageData,
)
    requires
        old(pool).wf(),
        old(pool)@.coherent(),
        old(pool)@.holds(*first),
        old(pool)@.holds(*second),
        old(pool)@.holds(*third),
        old(pool)@.holds(*fourth),
        first.page() != second.page(),
        first.page() != third.page(),
        first.page() != fourth.page(),
        second.page() != third.page(),
        second.page() != fourth.page(),
        third.page() != fourth.page(),
        first.page().0 < old(pool)@.disk.len(),
        second.page().0 < old(pool)@.disk.len(),
        third.page().0 < old(pool)@.disk.len(),
        fourth.page().0 < old(pool)@.disk.len(),
    ensures
        final(pool).wf(),
        final(pool)@.coherent(),
        final(pool)@.page(first.page()) == first_data@,
        final(pool)@.page(second.page()) == second_data@,
        final(pool)@.page(third.page()) == third_data@,
        final(pool)@.page(fourth.page()) == fourth_data@,
        forall|id: PageId|
            id.0 < old(pool)@.disk.len() && id != first.page() && id != second.page() && id
                != third.page() && id != fourth.page() ==> #[trigger] final(pool)@.page(id) == old(
                pool,
            )@.page(id),
        old(pool)@.handles_kept(final(pool)@),
        final(pool)@.pins() == old(pool)@.pins(),
        final(pool)@.disk.len() == old(pool)@.disk.len(),
        final(pool)@.table == old(pool)@.table,
        final(pool)@.reliable == old(pool)@.reliable,
{
    store_page(pool, first, first_data);
    store_page(pool, second, second_data);
    store_page(pool, third, third_data);
    store_page(pool, fourth, fourth_data);
}

/// The page that names the root of a tree.
pub struct MetaPage {
    data: PageData,
}

impl View for MetaPage {
    type V = Seq<u8>;

    closed spec fn view(&self) -> Seq<u8> {
        self.data@
    }
}

impl MetaPage {
    /// Takes over the bytes of a meta page.
    pub fn from_existing(data: PageData) -> (page: Self)
        ensures
            page@ == data@,
    {
        MetaPage { data }
    }

    /// The bytes of the page.
    pub fn unwrap(&self) -> (data: &PageData)
        ensures
            data@ == self@,
    {
        &self.data
    }

    /// What the meta page holds.
    pub fn metadata(&self) -> (metadata: TreeMetadata)
        ensures
            metadata.root_page_id.0 == u32_at(self@, 0),
    {
        TreeMetadata { root_page_id: PageId(read_u32(&self.data, 0)) }
    }

    /// Records `metadata` in the page.
    pub fn set_metadata(&mut self, metadata: TreeMetadata)
        ensures
            final(self)@ == with_u32(old(self)@, 0, metadata.root_page_id.0 as int),
            u32_at(final(self)@, 0) == metadata.root_page_id.0,
            final(self)@.len() == PAGE_SIZE,
    {
        write_u32(&mut self.data, 0, metadata.root_page_id.0);
    }
}

/// A handle to a tree: the page that names its root.
pub struct BTree {
    meta_page_id: PageId,
}

impl BTree {
    /// The meta page of the tree.
    pub closed spec fn meta_page(&self) -> PageId {
        self.meta_page_id
    }

    /// The page of the root, as the meta page names it.
    pub open spec fn root_page(&self, pool: PoolView) -> PageId {
        PageId(u32_at(pool.page(self.meta_page()), 0) as u32)
    }

    /// The level of the root.
    pub open spec fn root_level(&self, pool: PoolView) -> nat {
        level_of(pool.page(self.root_page(pool))) as nat
    }

    /// Whether the pages of the pool hold this tree: the meta page names a
    /// root other than itself, and the root and the nodes below it are
    /// consistent, each with its tuples in strictly ascending key order.
    pub open spec fn wf(&self, pool: PoolView) -> bool {
        &&& pool.wf()
        &&& pool.coherent()
        &&& pool.has_page(self.meta_page())
        &&& self.root_page(pool) != self.meta_page()
        &&& is_subtree(pool, self.root_page(pool), self.root_level(pool))
    }

    /// What the tree holds, node by node.
    pub open spec fn view_in(&self, pool: PoolView) -> NodeView {
        subtree_view(pool, self.root_page(pool), self.root_level(pool))
    }

    /// Whether the meta page and every node of the tree are in frames of
    /// the pool, so that the tree can be read without the device.
    pub open spec fn resident_in(&self, pool: PoolView) -> bool {
        &&& pool.resident(self.meta_page())
        &&& subtree_resident(pool, self.root_page(pool), self.root_level(pool))
    }

    /// A tree whose pages are served as before is the tree it was.
    pub proof fn lemma_kept(&self, a: PoolView, b: PoolView)
        requires
            self.wf(a),
            a.same_pages(b),
            a.disk.len() <= b.disk.len(),
            b.wf(),
            b.coherent(),
        ensures
            self.wf(b),
            self.view_in(b) == self.view_in(a),
            self.root_page(b) == self.root_page(a),
            self.root_level(b) == self.root_level(a),
    {
        assert(b.page(self.meta_page()) == a.page(self.meta_page()));
        assert(b.page(self.root_page(a)) == a.page(self.root_page(a)));
        lemma_subtree_kept(a, b, self.root_page(a), self.root_level(a));
    }

    /// The handle to the tree whose meta page is `meta_page_id`.
    pub fn from_existing(meta_page_id: PageId) -> (tree: Self)
        ensures
            tree.meta_page() == meta_page_id,
    {
        BTree { meta_page_id }
    }

    /// The meta page of the tree.
    pub fn meta_page_id(&self) -> (id: PageId)
        ensures
            id == self.meta_page(),
    {
        self.meta_page_id
    }

    /// Makes an empty tree: a meta page and a root leaf without tuples, both
    /// new pages of the pool.
    pub fn new<D: DiskManager>(pool: &mut BufferPool<D>) -> (tree: Result<
        BTree,
        crate::buffer_pool::Error,
    >)
        requires
            old(pool).wf(),
            old(pool)@.coherent(),
            old(pool)@.disk.len() + 1 < INVALID_PAGE_ID,
        ensures
            final(pool).wf(),
            final(pool)@.coherent(),
            old(pool)@.same_pages(final(pool)@),
            old(pool)@.handles_kept(final(pool)@),
            final(pool)@.pins() == old(pool)@.pins(),
            old(pool)@.can_pin() ==> final(pool)@.can_pin(),
            old(pool)@.disk.len() <= final(pool)@.disk.len() <= old(pool)@.disk.len() + 2,
            old(pool)@.all_pinned() ==> tree matches Err(crate::buffer_pool::Error::NoFreeFrames),
            tree matches Err(crate::buffer_pool::Error::NoFreeFrames) ==> old(
                pool,
            )@.all_pinned_but_one(),
            old(pool)@.all_pinned_but_one() ==> tree is Err,
            old(pool)@.reliable ==> (tree is Ok <==> !old(pool)@.all_pinned_but_one()),
            final(pool)@.reliable == old(pool)@.reliable,
            old(pool)@.pinned_stay(final(pool)@),
            tree matches Ok(made) ==> {
                &&& made.wf(final(pool)@)
                &&& made.resident_in(final(pool)@)
                &&& made.view_in(final(pool)@) == NodeView::Leaf(Seq::empty())
                &&& made.meta_page().0 == old(pool)@.disk.len()
                &&& made.root_page(final(pool)@).0 == old(pool)@.disk.len() + 1
                &&& final(pool)@.disk.len() == old(pool)@.disk.len() + 2
            },
    {
        let (meta_pin, root_pin) = match allocate_pair(pool) {
            Ok(pins) => pins,
            Err(error) => {
                proof {
                    lemma_same_pins(old(pool)@, pool@);
                }
                return Err(error);
            },
        };
        let ghost pinned = pool@;
        let mut meta = MetaPage::from_existing(*meta_pin.read(pool));
        meta.set_metadata(TreeMetadata { root_page_id: root_pin.id() });
        store_page(pool, &meta_pin, meta.unwrap());
        let root = NodePage::new_leaf(*root_pin.read(pool));
        store_page(pool, &root_pin, root.unwrap());
        let tree = BTree { meta_page_id: meta_pin.id() };
        let ghost written = pool@;
        proof {
            assert(written.page(meta_pin.page()) == meta@);
            assert(written.page(root_pin.page()) == root@);
            assert(tree.root_page(written) == root_pin.page());
            assert(entries_of(tuples_of(root@)) =~= Seq::empty());
            assert(written.table == pinned.table);
        }
        release_pair(pool, meta_pin, root_pin);
        proof {
            assert(pool@.pins() =~= old(pool)@.pins());
            lemma_same_pins(old(pool)@, pool@);
            lemma_subtree_kept(written, pool@, tree.root_page(written), 0);
            assert(pool@.page(tree.meta_page()) == meta@);
            assert forall|id: PageId|
                #![trigger pool@.resident(id)]
                old(pool)@.resident(id) && old(pool)@.frames[old(pool)@.table[id.0] as int].pins
                    > 0 implies pool@.resident(id) && pool@.table[id.0] == old(pool)@.table[id.0] by {
                assert(pinned.resident(id));
            }
        }
        Ok(tree)
    }

    /// Reads out what the tree holds, node by node.
    pub fn dump_tree<D: DiskManager>(&self, pool: &mut BufferPool<D>) -> (dump: Result<
        NodeDump,
        crate::buffer_pool::Error,
    >)
        requires
            old(pool).wf(),
            self.wf(old(pool)@),
            old(pool)@.can_pin(),
        ensures
            final(pool).wf(),
            self.wf(final(pool)@),
            self.view_in(final(pool)@) == self.view_in(old(pool)@),
            old(pool)@.same_pages(final(pool)@),
            old(pool)@.handles_kept(final(pool)@),
            final(pool)@.pins() == old(pool)@.pins(),
            final(pool)@.can_pin(),
            final(pool)@.disk.len() == old(pool)@.disk.len(),
            dump matches Ok(shown) ==> shown.shows(
                self.view_in(old(pool)@),
                self.root_level(old(pool)@),
            ),
            dump matches Err(crate::buffer_pool::Error::NoFreeFrames) ==> old(pool)@.all_pinned(),
            old(pool)@.all_pinned() && !old(pool)@.resident(self.meta_page()) ==> dump is Err,
            final(pool)@.reliable == old(pool)@.reliable,
            self.resident_in(old(pool)@) ==> dump is Ok,
            self.resident_in(old(pool)@) ==> self.resident_in(final(pool)@),
            old(pool)@.reliable && !old(pool)@.all_pinned() ==> dump is Ok,
    {
        let meta_pin = match pool.get_page(self.meta_page_id) {
            Ok(pin) => pin,
            Err(error) => {
                proof {
                    self.lemma_kept(old(pool)@, pool@);
                    lemma_same_pins(old(pool)@, pool@);
                }
                return Err(error);
            },
        };
        let meta = MetaPage::from_existing(*meta_pin.read(pool));
        meta_pin.unpin(pool);
        let root_id = meta.metadata().root_page_id;
        proof {
            assert(pool@.pins() =~= old(pool)@.pins());
            self.lemma_kept(old(pool)@, pool@);
            lemma_same_pins(old(pool)@, pool@);
        }
        let ghost pinned_once = pool@;
        proof {
            if self.resident_in(old(pool)@) {
                lemma_resident_kept(
                    old(pool)@,
                    pinned_once,
                    self.root_page(old(pool)@),
                    self.root_level(old(pool)@),
                );
            }
        }
        let dump = Self::dump_node(pool, root_id, Ghost(self.root_level(old(pool)@)));
        proof {
            self.lemma_kept(pinned_once, pool@);
            lemma_same_pins(pinned_once, old(pool)@);
            lemma_same_pins(old(pool)@, pool@);
            if self.resident_in(old(pool)@) {
                lemma_resident_kept(
                    pinned_once,
                    pool@,
                    self.root_page(old(pool)@),
                    self.root_level(old(pool)@),
                );
            }
        }
        dump
    }

    /// Reads out what the node in page `page_id`, at `level`, and the nodes
    /// below it hold.
    fn dump_node<D: DiskManager>(
        pool: &mut BufferPool<D>,
        page_id: PageId,
        Ghost(level): Ghost<nat>,
    ) -> (dump: Result<NodeDump, crate::buffer_pool::Error>)
        requires
            old(pool).wf(),
            old(pool)@.coherent(),
            old(pool)@.can_pin(),
            is_subtree(old(pool)@, page_id, level),
        ensures
            final(pool).wf(),
            final(pool)@.coherent(),
            old(pool)@.same_pages(final(pool)@),
            old(pool)@.handles_kept(final(pool)@),
            final(pool)@.pins() == old(pool)@.pins(),
            final(pool)@.disk.len() == old(pool)@.disk.len(),
            final(pool)@.reliable == old(pool)@.reliable,
            dump matches Ok(shown) ==> shown.shows(subtree_view(old(pool)@, page_id, level), level),
            dump matches Err(crate::buffer_pool::Error::NoFreeFrames) ==> old(pool)@.all_pinned(),
            subtree_resident(old(pool)@, page_id, level) ==> dump is Ok,
            subtree_resident(old(pool)@, page_id, level) ==> final(pool)@.table == old(
                pool,
            )@.table,
            old(pool)@.reliable && !old(pool)@.all_pinned() ==> dump is Ok,
        decreases level,
    {
        let pin = match pool.get_page(page_id) {
            Ok(pin) => pin,
            Err(error) => {
                return Err(error);
            },
        };
        let page = NodePage::from_existing(*pin.read(pool));
        pin.unpin(pool);
        proof {
            assert(pool@.pins() =~= old(pool)@.pins());
            lemma_same_pins(old(pool)@, pool@);
            assert(page@ == old(pool)@.page(page_id));
        }
        let count = page.page.tuple_count();
        if page.metadata().is_leaf() {
            let mut entries: Vec<(Vec<u8>, Vec<u8>)> = Vec::new();
            let mut index: usize = 0;
            while index < count
                invariant
                    is_leaf_node(page@),
                    count == tuple_count_of(page@),
                    index <= count,
                    entries@.len() == index,
                    forall|i: int|
                        0 <= i < index ==> (#[trigger] entries@[i]).0@ == entries_of(
                            tuples_of(page@),
                        )[i].0 && entries@[i].1@ == entries_of(tuples_of(page@))[i].1,
                decreases count - index,
            {
                proof {
                    assert(slot_live(page@, index as int));
                    assert(is_node_tuple(0, tuples_of(page@)[index as int]));
                }
                match page.page.get_tuple(index) {
                    Some(tuple) => {
                        let key = vstd::slice::slice_to_vec(leaf_tuple::get_key(tuple));
                        let value = vstd::slice::slice_to_vec(leaf_tuple::get_value(tuple));
                        entries.push((key, value));
                    },
                    None => vstd::pervasive::unreached(),
                }
                index += 1;
            }
            Ok(NodeDump::Leaf(entries))
        } else {
            let ghost shown = subtree_view(old(pool)@, page_id, level)->Internal_0;
            let mut children: Vec<(Vec<u8>, NodeDump)> = Vec::new();
            let mut index: usize = 0;
            while index < count
                invariant
                    pool.wf(),
                    pool@.coherent(),
                    pool@.can_pin(),
                    old(pool)@.can_pin(),
                    old(pool)@.same_pages(pool@),
                    old(pool)@.handles_kept(pool@),
                    pool@.pins() == old(pool)@.pins(),
                    pool@.disk.len() == old(pool)@.disk.len(),
                    pool@.reliable == old(pool)@.reliable,
                    subtree_resident(old(pool)@, page_id, level) ==> pool@.table == old(
                        pool,
                    )@.table,
                    level > 0,
                    is_subtree(old(pool)@, page_id, level),
                    page@ == old(pool)@.page(page_id),
                    shown == subtree_view(old(pool)@, page_id, level)->Internal_0,
                    count == tuple_count_of(page@),
                    index <= count,
                    children@.len() == index,
                    forall|i: int|
                        0 <= i < index ==> (#[trigger] children@[i]).0@ == shown[i].0
                            && children@[i].1.shows(shown[i].1, (level - 1) as nat),
                decreases count - index,
            {
                proof {
                    assert(slot_live(page@, index as int));
                    assert(is_node_tuple(level as int, tuples_of(page@)[index as int]));
                    assert(is_subtree(
                        old(pool)@,
                        child_of(page@, index as int),
                        (level - 1) as nat,
                    ));
                    lemma_subtree_kept(
                        old(pool)@,
                        pool@,
                        child_of(page@, index as int),
                        (level - 1) as nat,
                    );
                    if subtree_resident(old(pool)@, page_id, level) {
                        assert(subtree_resident(
                            old(pool)@,
                            child_of(page@, index as int),
                            (level - 1) as nat,
                        ));
                        lemma_resident_kept(
                            old(pool)@,
                            pool@,
                            child_of(page@, index as int),
                            (level - 1) as nat,
                        );
                    }
                    lemma_same_pins(old(pool)@, pool@);
                }
                let ghost before = pool@;
                match page.page.get_tuple(index) {
                    Some(tuple) => {
                        let child_id = pivot_tuple::get_header(tuple).downlink_pointer;
                        let key = vstd::slice::slice_to_vec(pivot_tuple::get_key(tuple));
                        let child = match Self::dump_node(
                            pool,
                            child_id,
                            Ghost((level - 1) as nat),
                        ) {
                            Ok(child) => child,
                            Err(error) => {
                                proof {
                                    lemma_same_pins(before, old(pool)@);
                                }
                                return Err(error);
                            },
                        };
                        children.push((key, child));
                    },
                    None => vstd::pervasive::unreached(),
                }
                proof {
                    lemma_same_pins(old(pool)@, pool@);
                }
                index += 1;
            }
            Ok(NodeDump::Internal(children))
        }
    }

    /// The bytes of the root page.
    pub open spec fn root_bytes(&self, pool: PoolView) -> Seq<u8> {
        pool.page(self.root_page(pool))
    }

    /// Puts `key` with `value` into the tree.
    ///
    /// Only a root that is a leaf takes keys, and no key twice. Where the
    /// leaf has no room, it is split: the tuples from the split index on move
    /// to a new leaf, and a new root over the two leaves takes the place of
    /// the old one. Where the tree does not take the key, or the pool fails,
    /// the tree stays as it is.
    pub fn insert<D: DiskManager>(&self, pool: &mut BufferPool<D>, key: &[u8], value: &[u8]) -> (done:
        Result<(), Error>)
        requires
            old(pool).wf(),
            self.wf(old(pool)@),
            old(pool)@.can_pin(),
            old(pool)@.disk.len() + 1 < INVALID_PAGE_ID,
        ensures
            final(pool).wf(),
            self.wf(final(pool)@),
            old(pool)@.handles_kept(final(pool)@),
            final(pool)@.pins() == old(pool)@.pins(),
            final(pool)@.can_pin(),
            old(pool)@.disk.len() <= final(pool)@.disk.len() <= old(pool)@.disk.len() + 2,
            forall|id: PageId|
                id.0 < old(pool)@.disk.len() && id != self.meta_page() && id != self.root_page(
                    old(pool)@,
                ) ==> #[trigger] final(pool)@.page(id) == old(pool)@.page(id),
            done is Err ==> old(pool)@.same_pages(final(pool)@),
            done is Err ==> self.view_in(final(pool)@) == self.view_in(old(pool)@),
            done is Ok ==> refusal(self.root_bytes(old(pool)@), key@, value@) is None,
            done is Ok ==> self.view_in(final(pool)@) == grown(
                tuples_of(self.root_bytes(old(pool)@)),
                key@,
                value@,
            ),
            done is Ok ==> sorted_tuples(
                0,
                merged_tuples(tuples_of(self.root_bytes(old(pool)@)), key@, value@),
            ),
            done is Ok && !fits_in_node(
                merged_tuples(tuples_of(self.root_bytes(old(pool)@)), key@, value@),
            ) ==> 0 < split_index_of(
                lens_of(merged_tuples(tuples_of(self.root_bytes(old(pool)@)), key@, value@)),
            ) < merged_tuples(tuples_of(self.root_bytes(old(pool)@)), key@, value@).len(),
            done is Ok ==> if fits_in_node(
                merged_tuples(tuples_of(self.root_bytes(old(pool)@)), key@, value@),
            ) {
                &&& self.root_page(final(pool)@) == self.root_page(old(pool)@)
                &&& final(pool)@.disk.len() == old(pool)@.disk.len()
            } else {
                &&& self.root_page(final(pool)@).0 == old(pool)@.disk.len() + 1
                &&& final(pool)@.disk.len() == old(pool)@.disk.len() + 2
            },
            done matches Err(Error::Unsupported(reason)) ==> refusal(
                self.root_bytes(old(pool)@),
                key@,
                value@,
            ) == Some(reason),
            done matches Err(Error::BufferPool(_)) ==> !(old(pool)@.resident(self.meta_page())
                && old(pool)@.resident(self.root_page(old(pool)@)) && (refusal(
                self.root_bytes(old(pool)@),
                key@,
                value@,
            ) is Some || fits_in_node(
                merged_tuples(tuples_of(self.root_bytes(old(pool)@)), key@, value@),
            ))),
            old(pool)@.reliable && old(pool)@.resident(self.meta_page()) && old(
                pool,
            )@.resident(self.root_page(old(pool)@)) && refusal(
                self.root_bytes(old(pool)@),
                key@,
                value@,
            ) is None && old(pool)@.two_unpinned_besides(
                old(pool)@.table[self.meta_page().0] as int,
                old(pool)@.table[self.root_page(old(pool)@).0] as int,
            ) ==> done is Ok,
            final(pool)@.reliable == old(pool)@.reliable,
            done is Ok ==> self.resident_in(final(pool)@),
            old(pool)@.resident(self.meta_page()) && old(pool)@.resident(
                self.root_page(old(pool)@),
            ) ==> final(pool)@.resident(self.meta_page()) && final(pool)@.resident(
                self.root_page(old(pool)@),
            ),
    {
        let meta_pin = match pool.get_page(self.meta_page_id) {
            Ok(pin) => pin,
            Err(error) => {
                proof {
                    self.lemma_kept(old(pool)@, pool@);
                    lemma_same_pins(old(pool)@, pool@);
                }
                return Err(Error::BufferPool(error));
            },
        };
        let ghost with_meta = pool@;
        proof {
            self.lemma_kept(old(pool)@, with_meta);
            assert(with_meta.pins()[meta_pin.frame() as int] == with_meta.frames[meta_pin.frame() as int].pins);
        }
        let root_id = MetaPage::from_existing(*meta_pin.read(pool)).metadata().root_page_id;
        proof {
            lemma_u32_at_range(with_meta.page(self.meta_page()), 0);
            assert(root_id == self.root_page(with_meta));
            assert(with_meta.resident(root_id) ==> with_meta.table[root_id.0] != meta_pin.frame());
        }
        let root_pin = match pool.get_page(root_id) {
            Ok(pin) => pin,
            Err(error) => {
                proof {
                    self.lemma_kept(with_meta, pool@);
                }
                meta_pin.unpin(pool);
                proof {
                    assert(pool@.pins() =~= old(pool)@.pins());
                    self.lemma_kept(old(pool)@, pool@);
                    lemma_same_pins(old(pool)@, pool@);
                }
                return Err(Error::BufferPool(error));
            },
        };
        let ghost with_root = pool@;
        proof {
            self.lemma_kept(with_meta, with_root);
            assert(root_pin.frame() != meta_pin.frame());
            lemma_held_resident(with_root, meta_pin);
            lemma_held_resident(with_root, root_pin);
            if old(pool)@.resident(self.meta_page()) && old(pool)@.resident(
                self.root_page(old(pool)@),
            ) && old(pool)@.two_unpinned_besides(
                old(pool)@.table[self.meta_page().0] as int,
                old(pool)@.table[self.root_page(old(pool)@).0] as int,
            ) {
                assert(with_root.pins().len() == old(pool)@.pins().len());
                lemma_two_stay_unpinned(
                    old(pool)@,
                    with_root,
                    old(pool)@.table[self.meta_page().0] as int,
                    old(pool)@.table[self.root_page(old(pool)@).0] as int,
                );
            }
        }
        let done = self.insert_pinned(pool, &meta_pin, &root_pin, key, value);
        let ghost inserted = pool@;
        root_pin.unpin(pool);
        meta_pin.unpin(pool);
        proof {
            assert(pool@.pins() =~= old(pool)@.pins());
            lemma_same_pins(old(pool)@, pool@);
            assert(inserted.same_pages(pool@));
            self.lemma_kept(inserted, pool@);
            assert(pool@.table == inserted.table);
            assert(inserted.resident(self.meta_page()));
            assert(inserted.resident(self.root_page(old(pool)@)));
            if done is Ok {
                lemma_resident_kept(
                    inserted,
                    pool@,
                    self.root_page(inserted),
                    self.root_level(inserted),
                );
            }
        }
        done
    }

    /// Puts `key` with `value` into the tree, whose meta page and root are
    /// pinned.
    fn insert_pinned<D: DiskManager>(
        &self,
        pool: &mut BufferPool<D>,
        meta_pin: &PinnedPage,
        root_pin: &PinnedPage,
        key: &[u8],
        value: &[u8],
    ) -> (done: Result<(), Error>)
        requires
            old(pool).wf(),
            self.wf(old(pool)@),
            old(pool)@.disk.len() + 1 < INVALID_PAGE_ID,
            old(pool)@.holds(*meta_pin),
            old(pool)@.holds(*root_pin),
            meta_pin.page() == self.meta_page(),
            root_pin.page() == self.root_page(old(pool)@),
        ensures
            final(pool).wf(),
            self.wf(final(pool)@),
            old(pool)@.handles_kept(final(pool)@),
            final(pool)@.pins() == old(pool)@.pins(),
            old(pool)@.disk.len() <= final(pool)@.disk.len() <= old(pool)@.disk.len() + 2,
            forall|id: PageId|
                id.0 < old(pool)@.disk.len() && id != self.meta_page() && id != self.root_page(
                    old(pool)@,
                ) ==> #[trigger] final(pool)@.page(id) == old(pool)@.page(id),
            done is Err ==> old(pool)@.same_pages(final(pool)@),
            done is Err ==> self.view_in(final(pool)@) == self.view_in(old(pool)@),
            done is Ok ==> refusal(self.root_bytes(old(pool)@), key@, value@) is None,
            done is Ok ==> self.view_in(final(pool)@) == grown(
                tuples_of(self.root_bytes(old(pool)@)),
                key@,
                value@,
            ),
            done is Ok ==> sorted_tuples(
                0,
                merged_tuples(tuples_of(self.root_bytes(old(pool)@)), key@, value@),
            ),
            done is Ok && !fits_in_node(
                merged_tuples(tuples_of(self.root_bytes(old(pool)@)), key@, value@),
            ) ==> 0 < split_index_of(
                lens_of(merged_tuples(tuples_of(self.root_bytes(old(pool)@)), key@, value@)),
            ) < merged_tuples(tuples_of(self.root_bytes(old(pool)@)), key@, value@).len(),
            done is Ok ==> if fits_in_node(
                merged_tuples(tuples_of(self.root_bytes(old(pool)@)), key@, value@),
            ) {
                &&& self.root_page(final(pool)@) == self.root_page(old(pool)@)
                &&& final(pool)@.disk.len() == old(pool)@.disk.len()
            } else {
                &&& self.root_page(final(pool)@).0 == old(pool)@.disk.len() + 1
                &&& final(pool)@.disk.len() == old(pool)@.disk.len() + 2
            },
            done matches Err(Error::Unsupported(reason)) ==> refusal(
                self.root_bytes(old(pool)@),
                key@,
                value@,
            ) == Some(reason),
            done matches Err(Error::BufferPool(_)) ==> refusal(
                self.root_bytes(old(pool)@),
                key@,
                value@,
            ) is None && !fits_in_node(
                merged_tuples(tuples_of(self.root_bytes(old(pool)@)), key@, value@),
            ),
            done matches Err(Error::BufferPool(crate::buffer_pool::Error::NoFreeFrames)) ==> old(
                pool,
            )@.all_pinned_but_one(),
            done is Ok && !fits_in_node(
                merged_tuples(tuples_of(self.root_bytes(old(pool)@)), key@, value@),
            ) ==> !old(pool)@.all_pinned_but_one(),
            old(pool)@.reliable && refusal(self.root_bytes(old(pool)@), key@, value@) is None
                && (fits_in_node(
                merged_tuples(tuples_of(self.root_bytes(old(pool)@)), key@, value@),
            ) || !old(pool)@.all_pinned_but_one()) ==> done is Ok,
            final(pool)@.reliable == old(pool)@.reliable,
            old(pool)@.pinned_stay(final(pool)@),
            done is Ok ==> self.resident_in(final(pool)@),
    {
        let ghost root = self.root_bytes(pool@);
        let ghost tuples = tuples_of(root);
        let ghost keys = keys_of(0, tuples);
        let mut page = NodePage::from_existing(*root_pin.read(pool));
        if !page.metadata().is_leaf() {
            return Err(Error::Unsupported(Unsupported::NonLeafRoot));
        }
        let insert_index = match page.binary_search(key) {
            SearchResult::Found(index) => {
                proof {
                    assert(keys[index as int] == key@);
                }
                return Err(Error::Unsupported(Unsupported::DuplicateKey));
            },
            SearchResult::NotFound(index) => index,
        };
        proof {
            lemma_node_space(root);
            lemma_position(keys, key@, insert_index as int);
        }
        if key.len() > PAGE_SIZE || value.len() > PAGE_SIZE {
            return Err(Error::Unsupported(Unsupported::TupleTooLarge));
        }
        let ghost merged = merged_tuples(tuples, key@, value@);
        proof {
            leaf_tuple::lemma_encoded(key@, value@);
            lemma_sorted_insert(0, tuples, insert_index as int, leaf_tuple::encoded(key@, value@));
        }
        if page.insert_entry(insert_index, key, value) {
            root_pin.dirty(pool);
            root_pin.write(pool, page.unwrap());
            proof {
                assert(pool@.page(self.meta_page()) == old(pool)@.page(self.meta_page()));
                assert(self.root_page(pool@) == root_pin.page());
                assert(is_leaf_node(page@));
                lemma_held_resident(pool@, *root_pin);
                lemma_held_resident(pool@, *meta_pin);
            }
            return Ok(());
        }
        let mut sibling = NodePage::new_leaf([0; PAGE_SIZE]);
        let split = match page.split_with(&mut sibling, insert_index, key, value) {
            Some(split) => split,
            None => {
                return Err(Error::Unsupported(Unsupported::TupleTooLarge));
            },
        };
        proof {
            lemma_node_space(sibling@);
            assert(split < merged.len()) by {
                if split >= merged.len() {
                    assert(merged.take(split as int) =~= merged);
                }
            }
            assert(split > 0) by {
                if split == 0 {
                    assert(merged.skip(0) =~= merged);
                }
            }
            assert(tuples_of(sibling@)[0] == merged[split as int]);
            assert(is_node_tuple(0, merged[split as int]));
            lemma_tuple_len(sibling@, 0);
        }
        if sibling.get_tuple_key(0).len() + 2 * (pivot_tuple::HEADER_SIZE + DESCRIPTOR_SIZE)
            > NODE_CAPACITY {
            return Err(Error::Unsupported(Unsupported::TupleTooLarge));
        }
        self.split_root(pool, meta_pin, root_pin, &page, &sibling, Ghost(merged), Ghost(split as int))
    }

    /// Puts the halves of the root leaf into their pages: `left` into the
    /// page of the root, `right` into a new page, and over them a new root in
    /// another new page, which the meta page names from then on.
    fn split_root<D: DiskManager>(
        &self,
        pool: &mut BufferPool<D>,
        meta_pin: &PinnedPage,
        root_pin: &PinnedPage,
        left: &NodePage,
        right: &NodePage,
        Ghost(merged): Ghost<Seq<Seq<u8>>>,
        Ghost(split): Ghost<int>,
    ) -> (done: Result<(), Error>)
        requires
            old(pool).wf(),
            self.wf(old(pool)@),
            old(pool)@.disk.len() + 1 < INVALID_PAGE_ID,
            old(pool)@.holds(*meta_pin),
            old(pool)@.holds(*root_pin),
            meta_pin.page() == self.meta_page(),
            root_pin.page() == self.root_page(old(pool)@),
            self.root_level(old(pool)@) == 0,
            sorted_tuples(0, merged),
            0 < split < merged.len(),
            is_node(left@),
            level_of(left@) == 0,
            tuples_of(left@) == merged.take(split),
            is_node(right@),
            level_of(right@) == 0,
            tuples_of(right@) == merged.skip(split),
            leaf_tuple::key_of(merged[split]).len() + 2 * (pivot_tuple::HEADER_SIZE
                + DESCRIPTOR_SIZE) <= NODE_CAPACITY,
        ensures
            final(pool).wf(),
            self.wf(final(pool)@),
            old(pool)@.handles_kept(final(pool)@),
            final(pool)@.pins() == old(pool)@.pins(),
            old(pool)@.disk.len() <= final(pool)@.disk.len() <= old(pool)@.disk.len() + 2,
            forall|id: PageId|
                id.0 < old(pool)@.disk.len() && id != self.meta_page() && id != self.root_page(
                    old(pool)@,
                ) ==> #[trigger] final(pool)@.page(id) == old(pool)@.page(id),
            done is Err ==> old(pool)@.same_pages(final(pool)@),
            done is Err ==> self.view_in(final(pool)@) == self.view_in(old(pool)@),
            done matches Err(error) ==> error is BufferPool,
            done matches Err(Error::BufferPool(crate::buffer_pool::Error::NoFreeFrames)) ==> old(
                pool,
            )@.all_pinned_but_one(),
            old(pool)@.all_pinned_but_one() ==> done is Err,
            old(pool)@.reliable ==> (done is Ok <==> !old(pool)@.all_pinned_but_one()),
            final(pool)@.reliable == old(pool)@.reliable,
            old(pool)@.pinned_stay(final(pool)@),
            done is Ok ==> self.resident_in(final(pool)@),
            done is Ok ==> self.view_in(final(pool)@) == NodeView::Internal(
                seq![
                    (Seq::<u8>::empty(), NodeView::Leaf(entries_of(merged.take(split)))),
                    (
                        leaf_tuple::key_of(merged[split]),
                        NodeView::Leaf(entries_of(merged.skip(split))),
                    ),
                ],
            ),
            done is Ok ==> self.root_page(final(pool)@).0 == old(pool)@.disk.len() + 1
                && final(pool)@.disk.len() == old(pool)@.disk.len() + 2,
    {
        let (sibling_pin, new_root_pin) = match allocate_pair(pool) {
            Ok(pins) => pins,
            Err(error) => {
                proof {
                    self.lemma_kept(old(pool)@, pool@);
                }
                return Err(Error::BufferPool(error));
            },
        };
        let ghost with_both = pool@;
        proof {
            self.lemma_kept(old(pool)@, with_both);
            assert(tuples_of(right@)[0] == merged[split]);
            lemma_sorted_part(0, merged, split, merged.len() as int);
            assert(merged.subrange(split, merged.len() as int) =~= merged.skip(split));
            assert(is_node_tuple(0, merged[split]));
            lemma_tuple_len(right@, 0);
        }
        let split_key = right.get_tuple_key(0);
        let level = left.metadata().level + 1;
        let mut new_root = NodePage::new_internal([0; PAGE_SIZE], level, root_pin.id());
        let ghost first_pivot = pivot_tuple::encoded(root_pin.page(), Seq::<u8>::empty());
        let ghost second_pivot = pivot_tuple::encoded(sibling_pin.page(), split_key@);
        proof {
            pivot_tuple::lemma_encoded(root_pin.page(), Seq::<u8>::empty());
            pivot_tuple::lemma_encoded(sibling_pin.page(), split_key@);
            lemma_total_len_insert(Seq::<Seq<u8>>::empty(), 0, first_pivot);
            assert(Seq::<Seq<u8>>::empty().insert(0, first_pivot) =~= seq![first_pivot]);
            lemma_total_len_insert(seq![first_pivot], 1, second_pivot);
        }
        let fits = new_root.insert_pivot(1, sibling_pin.id(), split_key);
        assert(fits);
        proof {
            assert(tuples_of(new_root@) =~= seq![first_pivot, second_pivot]);
        }
        let mut meta = MetaPage::from_existing(*meta_pin.read(pool));
        meta.set_metadata(TreeMetadata { root_page_id: new_root_pin.id() });
        proof {
            lemma_u32_at_range(meta@, 0);
        }
        store_pages(
            pool,
            root_pin,
            left.unwrap(),
            &sibling_pin,
            right.unwrap(),
            &new_root_pin,
            new_root.unwrap(),
            meta_pin,
            meta.unwrap(),
        );
        let ghost written = pool@;
        proof {
            assert(self.root_page(written) == new_root_pin.page());
            lemma_held_resident(written, *root_pin);
            lemma_held_resident(written, *meta_pin);
            lemma_held_resident(written, sibling_pin);
            lemma_held_resident(written, new_root_pin);
            lemma_split_tree(
                written,
                root_pin.page(),
                sibling_pin.page(),
                new_root_pin.page(),
                merged,
                split,
            );
        }
        release_pair(pool, sibling_pin, new_root_pin);
        proof {
            self.lemma_kept(written, pool@);
            lemma_resident_kept(written, pool@, self.root_page(written), 1);
            assert forall|id: PageId|
                #![trigger pool@.resident(id)]
                old(pool)@.resident(id) && old(pool)@.frames[old(pool)@.table[id.0] as int].pins
                    > 0 implies pool@.resident(id) && pool@.table[id.0] == old(pool)@.table[id.0] by {
                assert(with_both.resident(id));
            }
        }
        Ok(())
    }
}

} // verus!
