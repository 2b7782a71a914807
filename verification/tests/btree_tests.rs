use paged_storage::btree::leaf_tuple;
use paged_storage::btree::pivot_tuple;
use paged_storage::btree::{
    check_node, BTree, Error, MetaPage, NodeDump, NodeMetadata, NodePage, SearchResult,
    TreeMetadata, Unsupported,
};
use paged_storage::buffer_pool::BufferPool;
use paged_storage::disk_manager::{PageId, PAGE_SIZE};
use paged_storage::disk_manager_mem::DiskManagerMem;

fn make_page(tuples: &[usize]) -> NodePage {
    let mut page = NodePage::new_leaf([0; PAGE_SIZE]);
    for (index, tuple_size) in tuples.iter().enumerate() {
        page.page.alloc_tuple_at(index, *tuple_size).unwrap();
    }
    page
}

#[test]
fn split_before_insert() {
    assert_eq!(make_page(&[1]).get_split_index(1, 1), 1);
}

#[test]
fn split_after_insert() {
    assert_eq!(make_page(&[1]).get_split_index(0, 1), 1);
}

#[test]
fn split_large_tuple_1() {
    assert_eq!(
        make_page(&[PAGE_SIZE / 2]).get_split_index(0, PAGE_SIZE / 2 - 100),
        1
    );
}

#[test]
fn split_index_is_first_slot_past_half() {
    let page = make_page(&[10, 20, 30, 40]);
    // Sizes with the new tuple: 10, 20, 25, 30, 40; half of 125 is 62.
    assert_eq!(page.get_split_index(2, 25), 3);
    // Sizes with the new tuple: 100, 10, 20, 30, 40; half of 200 is 100.
    assert_eq!(page.get_split_index(0, 100), 1);
    // Sizes with the new tuple: 10, 20, 30, 40, 1000; half of 1100 is 550.
    assert_eq!(page.get_split_index(4, 1000), 4);
    // Sizes with the new tuple: 1000, 10, 20, 30, 40; the first is past half.
    assert_eq!(page.get_split_index(0, 1000), 0);
}

#[test]
fn test_new() {
    let mut buffer_pool = BufferPool::new(DiskManagerMem::new(), 20);
    let btree = BTree::new(&mut buffer_pool).unwrap();
    assert_eq!(btree.dump_tree(&mut buffer_pool).unwrap(), NodeDump::Leaf(vec![]));
}

#[test]
fn test_insert_one() {
    let mut buffer_pool = BufferPool::new(DiskManagerMem::new(), 20);
    let btree = BTree::new(&mut buffer_pool).unwrap();
    btree.insert(&mut buffer_pool, &[1], &[100]).unwrap();
    assert_eq!(
        btree.dump_tree(&mut buffer_pool).unwrap(),
        NodeDump::Leaf(vec![(vec![1], vec![100])])
    );
}

#[test]
fn test_insert_many_should_sort() {
    let mut buffer_pool = BufferPool::new(DiskManagerMem::new(), 20);
    let btree = BTree::new(&mut buffer_pool).unwrap();
    btree.insert(&mut buffer_pool, &[1], &[101]).unwrap();
    btree.insert(&mut buffer_pool, &[3], &[103]).unwrap();
    btree.insert(&mut buffer_pool, &[2], &[102]).unwrap();
    btree.insert(&mut buffer_pool, &[0], &[100]).unwrap();
    assert_eq!(
        btree.dump_tree(&mut buffer_pool).unwrap(),
        NodeDump::Leaf(vec![
            (vec![0], vec![100]),
            (vec![1], vec![101]),
            (vec![2], vec![102]),
            (vec![3], vec![103]),
        ])
    );
}

#[test]
fn test_page_split() {
    let mut buffer_pool = BufferPool::new(DiskManagerMem::new(), 20);
    let btree = BTree::new(&mut buffer_pool).unwrap();
    btree.insert(&mut buffer_pool, &[1; PAGE_SIZE / 2], &[101]).unwrap();
    btree.insert(&mut buffer_pool, &[2; PAGE_SIZE / 2], &[102]).unwrap();
    assert_eq!(
        btree.dump_tree(&mut buffer_pool).unwrap(),
        NodeDump::Internal(vec![
            (
                vec![],
                NodeDump::Leaf(vec![(vec![1; PAGE_SIZE / 2], vec![101])])
            ),
            (
                vec![2; PAGE_SIZE / 2],
                NodeDump::Leaf(vec![(vec![2; PAGE_SIZE / 2], vec![102])])
            )
        ])
    );
}

#[test]
fn page_split_on_pool_of_five_frames() {
    let mut buffer_pool = BufferPool::new(DiskManagerMem::new(), 5);
    let btree = BTree::new(&mut buffer_pool).unwrap();
    assert_eq!(btree.meta_page_id(), PageId(0));
    btree.insert(&mut buffer_pool, &[1; PAGE_SIZE / 2], &[101]).unwrap();
    btree.insert(&mut buffer_pool, &[2; PAGE_SIZE / 2], &[102]).unwrap();
    assert_eq!(
        btree.dump_tree(&mut buffer_pool).unwrap(),
        NodeDump::Internal(vec![
            (vec![], NodeDump::Leaf(vec![(vec![1; PAGE_SIZE / 2], vec![101])])),
            (
                vec![2; PAGE_SIZE / 2],
                NodeDump::Leaf(vec![(vec![2; PAGE_SIZE / 2], vec![102])])
            )
        ])
    );
    // The handle names the meta page only; another handle sees the same tree.
    let same = BTree::from_existing(PageId(0));
    assert!(matches!(
        same.insert(&mut buffer_pool, &[3], &[1]),
        Err(Error::Unsupported(Unsupported::NonLeafRoot))
    ));
    assert!(matches!(same.dump_tree(&mut buffer_pool).unwrap(), NodeDump::Internal(_)));
}

#[test]
fn split_puts_new_tuple_on_the_left() {
    let mut buffer_pool = BufferPool::new(DiskManagerMem::new(), 8);
    let btree = BTree::new(&mut buffer_pool).unwrap();
    btree.insert(&mut buffer_pool, &[5], &[0; 1500]).unwrap();
    btree.insert(&mut buffer_pool, &[7], &[1; 1500]).unwrap();
    btree.insert(&mut buffer_pool, &[1], &[2; 1500]).unwrap();
    // Three tuples of 1503 bytes: the second is the first to pass half.
    assert_eq!(
        btree.dump_tree(&mut buffer_pool).unwrap(),
        NodeDump::Internal(vec![
            (vec![], NodeDump::Leaf(vec![(vec![1], vec![2; 1500])])),
            (
                vec![5],
                NodeDump::Leaf(vec![(vec![5], vec![0; 1500]), (vec![7], vec![1; 1500])])
            )
        ])
    );
}

#[test]
fn insert_refuses_duplicates_and_oversized_tuples() {
    let mut buffer_pool = BufferPool::new(DiskManagerMem::new(), 8);
    let btree = BTree::new(&mut buffer_pool).unwrap();
    btree.insert(&mut buffer_pool, &[1, 2], &[9]).unwrap();
    assert!(matches!(
        btree.insert(&mut buffer_pool, &[1, 2], &[10]),
        Err(Error::Unsupported(Unsupported::DuplicateKey))
    ));
    assert!(matches!(
        btree.insert(&mut buffer_pool, &[3], &[0; 5000]),
        Err(Error::Unsupported(Unsupported::TupleTooLarge))
    ));
    assert!(matches!(
        btree.insert(&mut buffer_pool, &[3], &[0; 4090]),
        Err(Error::Unsupported(Unsupported::TupleTooLarge))
    ));
    // A key that a leaf can take but a new root cannot.
    btree.insert(&mut buffer_pool, &[0], &[0; 2000]).unwrap();
    assert!(matches!(
        btree.insert(&mut buffer_pool, &[9; 4070], &[]),
        Err(Error::Unsupported(Unsupported::TupleTooLarge))
    ));
    assert_eq!(
        btree.dump_tree(&mut buffer_pool).unwrap(),
        NodeDump::Leaf(vec![(vec![0], vec![0; 2000]), (vec![1, 2], vec![9])])
    );
}

#[test]
fn insert_fails_without_frames_and_leaves_the_tree() {
    let mut buffer_pool = BufferPool::new(DiskManagerMem::new(), 3);
    let btree = BTree::new(&mut buffer_pool).unwrap();
    btree.insert(&mut buffer_pool, &[1; 2048], &[101]).unwrap();
    // The split needs the meta page, the root and two new pages at once.
    assert!(matches!(
        btree.insert(&mut buffer_pool, &[2; 2048], &[102]),
        Err(Error::BufferPool(paged_storage::buffer_pool::Error::NoFreeFrames))
    ));
    assert_eq!(
        btree.dump_tree(&mut buffer_pool).unwrap(),
        NodeDump::Leaf(vec![(vec![1; 2048], vec![101])])
    );
}

#[test]
fn tree_survives_eviction() {
    let mut buffer_pool = BufferPool::new(DiskManagerMem::new(), 2);
    let btree = BTree::new(&mut buffer_pool).unwrap();
    for i in 0..50u8 {
        btree.insert(&mut buffer_pool, &[i], &[i, i]).unwrap();
    }
    // Push the pages of the tree out of the pool.
    for _ in 0..4 {
        let page = buffer_pool.allocate_page().unwrap();
        page.dirty(&mut buffer_pool);
        page.unpin(&mut buffer_pool);
    }
    assert!(!buffer_pool.is_page_in_memory(PageId(0)));
    assert!(!buffer_pool.is_page_in_memory(PageId(1)));
    let expected: Vec<(Vec<u8>, Vec<u8>)> = (0..50u8).map(|i| (vec![i], vec![i, i])).collect();
    assert_eq!(btree.dump_tree(&mut buffer_pool).unwrap(), NodeDump::Leaf(expected));
}

#[test]
fn node_search_and_keys() {
    let mut node = NodePage::new_leaf([0; PAGE_SIZE]);
    assert!(node.metadata().is_leaf());
    assert_eq!(node.binary_search(b"k"), SearchResult::NotFound(0));
    assert!(node.insert_entry(0, b"b", b"1"));
    assert!(node.insert_entry(1, b"d", b"2"));
    assert!(node.insert_entry(2, b"da", b"3"));
    assert_eq!(node.binary_search(b"a"), SearchResult::NotFound(0));
    assert_eq!(node.binary_search(b"b"), SearchResult::Found(0));
    assert_eq!(node.binary_search(b"c"), SearchResult::NotFound(1));
    assert_eq!(node.binary_search(b"d"), SearchResult::Found(1));
    assert_eq!(node.binary_search(b"d\0"), SearchResult::NotFound(2));
    assert_eq!(node.binary_search(b"da"), SearchResult::Found(2));
    assert_eq!(node.binary_search(b"e"), SearchResult::NotFound(3));
    assert_eq!(node.get_tuple_key(2), b"da");

    let mut internal = NodePage::new_internal([0; PAGE_SIZE], 1, PageId(4));
    assert!(!internal.metadata().is_leaf());
    assert_eq!(internal.metadata().level, 1);
    assert_eq!(internal.get_tuple_key(0), b"");
    assert!(internal.insert_pivot(1, PageId(9), b"m"));
    assert_eq!(internal.binary_search(b""), SearchResult::Found(0));
    assert_eq!(internal.binary_search(b"a"), SearchResult::NotFound(1));
    assert_eq!(internal.binary_search(b"m"), SearchResult::Found(1));
    assert_eq!(
        pivot_tuple::get_header(internal.page.get_tuple(1).unwrap()).downlink_pointer,
        PageId(9)
    );

    let again = NodePage::from_existing(*node.unwrap());
    assert_eq!(again.get_tuple_key(0), b"b");
    node.truncate(1);
    assert_eq!(node.page.tuple_count(), 1);
    assert!(!NodeMetadata { level: 3 }.is_leaf());
}

#[test]
fn split_of_a_leaf_into_two_nodes() {
    let mut left = NodePage::new_leaf([0; PAGE_SIZE]);
    assert!(left.insert_entry(0, &[1], &[0; 1500]));
    assert!(left.insert_entry(1, &[3], &[0; 1500]));
    assert!(!left.insert_entry(1, &[2], &[0; 1500]));
    let mut right = NodePage::new_leaf([0; PAGE_SIZE]);
    assert_eq!(left.split_with(&mut right, 1, &[2], &[7; 1500]), Some(1));
    assert_eq!(left.page.tuple_count(), 1);
    assert_eq!(left.get_tuple_key(0), &[1]);
    assert_eq!(right.page.tuple_count(), 2);
    assert_eq!(right.get_tuple_key(0), &[2]);
    assert_eq!(leaf_tuple::get_value(right.page.get_tuple(0).unwrap()), &[7; 1500][..]);
    assert_eq!(right.get_tuple_key(1), &[3]);

    // A small tuple before two large ones stays on the left with the first.
    let mut left = NodePage::new_leaf([0; PAGE_SIZE]);
    assert!(left.insert_entry(0, &[2], &[0; 997]));
    assert!(left.insert_entry(1, &[3], &[0; 2997]));
    assert!(!left.insert_entry(0, &[1], &[7; 97]));
    let mut right = NodePage::new_leaf([0; PAGE_SIZE]);
    // Sizes 100, 1000, 3000: the third is the first to pass half of 4100.
    assert_eq!(left.split_with(&mut right, 0, &[1], &[7; 97]), Some(2));
    assert_eq!(left.page.tuple_count(), 2);
    assert_eq!(left.get_tuple_key(0), &[1]);
    assert_eq!(left.get_tuple_key(1), &[2]);
    assert_eq!(right.page.tuple_count(), 1);
    assert_eq!(right.get_tuple_key(0), &[3]);

    // A tuple that leaves no half that fits.
    let mut full = NodePage::new_leaf([0; PAGE_SIZE]);
    assert!(full.insert_entry(0, &[1], &[0; 3000]));
    let mut other = NodePage::new_leaf([0; PAGE_SIZE]);
    assert_eq!(full.split_with(&mut other, 1, &[2], &[0; 4090]), None);
}

#[test]
fn leaf_and_pivot_tuples() {
    assert_eq!(leaf_tuple::size(b"key", b"value"), 10);
    let mut tuple = vec![0u8; 10];
    leaf_tuple::write(&mut tuple, b"key", b"value");
    assert_eq!(tuple, vec![3, 0, b'k', b'e', b'y', b'v', b'a', b'l', b'u', b'e']);
    assert_eq!(leaf_tuple::get_header(&tuple).key_size, 3);
    assert_eq!(leaf_tuple::get_key(&tuple), b"key");
    assert_eq!(leaf_tuple::get_value(&tuple), b"value");

    let long_key = vec![5u8; 300];
    let mut tuple = vec![0u8; leaf_tuple::size(&long_key, b"")];
    leaf_tuple::write(&mut tuple, &long_key, b"");
    assert_eq!(&tuple[..2], &[44, 1]);
    assert_eq!(leaf_tuple::get_key(&tuple), &long_key[..]);
    assert_eq!(leaf_tuple::get_value(&tuple), b"");

    assert_eq!(pivot_tuple::size(b"key"), 7);
    let mut tuple = vec![0u8; 7];
    pivot_tuple::write(&mut tuple, PageId(0x0a0b0c0d), b"key");
    assert_eq!(tuple, vec![0x0d, 0x0c, 0x0b, 0x0a, b'k', b'e', b'y']);
    assert_eq!(pivot_tuple::get_header(&tuple).downlink_pointer, PageId(0x0a0b0c0d));
    assert_eq!(pivot_tuple::get_key(&tuple), b"key");
}

#[test]
fn meta_page_names_the_root() {
    let mut meta = MetaPage::from_existing([0; PAGE_SIZE]);
    assert_eq!(meta.metadata().root_page_id, PageId(0));
    meta.set_metadata(TreeMetadata { root_page_id: PageId(0x01020304) });
    assert_eq!(meta.metadata().root_page_id, PageId(0x01020304));
    assert_eq!(&meta.unwrap()[..5], &[4, 3, 2, 1, 0]);
}

#[test]
fn check_node_tells_nodes_from_other_pages() {
    assert!(!check_node(&[0u8; PAGE_SIZE]));
    let mut node = NodePage::new_leaf([0; PAGE_SIZE]);
    assert!(check_node(node.unwrap()));
    assert!(node.insert_entry(0, b"k", b"v"));
    assert!(check_node(node.unwrap()));
    assert!(check_node(NodePage::new_internal([0; PAGE_SIZE], 2, PageId(1)).unwrap()));
    // A dead slot.
    let mut bytes = *node.unwrap();
    bytes[12] = 0;
    bytes[13] = 0;
    bytes[14] = 0;
    assert!(!check_node(&bytes));
    // A page with another trailer.
    let page = paged_storage::page::TupleBlockPage::new([0; PAGE_SIZE], &[1, 2]);
    assert!(paged_storage::page::check_page(page.unwrap()));
    assert!(!check_node(page.unwrap()));
}
