use paged_storage::buffer_pool::BufferPool;
use paged_storage::disk_manager::PageId;
use paged_storage::disk_manager_mem::DiskManagerMem;
use paged_storage::table_heap::{TableHeap, MAX_TUPLE_SIZE};

#[test]
fn insert_and_get() {
    let mut buffer_pool = BufferPool::new(DiskManagerMem::new(), 10);
    let table = TableHeap::new(&mut buffer_pool).unwrap();
    let tid = table.insert_tuple(&mut buffer_pool, b"Hello World").unwrap();
    assert_eq!(
        table.get_tuple(&mut buffer_pool, tid).unwrap().tuple(),
        b"Hello World"
    );
}

#[test]
fn insert_many_and_iter() {
    let mut buffer_pool = BufferPool::new(DiskManagerMem::new(), 5);
    let table = TableHeap::new(&mut buffer_pool).unwrap();
    const N_PAGES: usize = 10;
    let mut n_tuples: usize = 0;
    loop {
        let tid = table
            .insert_tuple(&mut buffer_pool, format!("Tuple tuple {}", n_tuples).as_bytes())
            .unwrap();
        n_tuples += 1;
        if tid.1 >= N_PAGES {
            break;
        }
    }
    let mut iter = table.iter(&mut buffer_pool).unwrap();
    for i in 0..n_tuples {
        let tuple = iter
            .next(&mut buffer_pool)
            .unwrap()
            .expect("Expected tuple, got nothin'");
        assert_eq!(tuple.1, format!("Tuple tuple {}", i).as_bytes());
    }
}

#[test]
fn heap_grows_page_by_page_and_fills_the_first_gap() {
    let mut buffer_pool = BufferPool::new(DiskManagerMem::new(), 2);
    let table = TableHeap::new(&mut buffer_pool).unwrap();
    assert_eq!(table.first_page_id(), PageId(0));
    // Three tuples of which two fill a page.
    let big = vec![7u8; 2000];
    assert_eq!(table.insert_tuple(&mut buffer_pool, &big).unwrap(), (PageId(0), 0));
    assert_eq!(table.insert_tuple(&mut buffer_pool, &big).unwrap(), (PageId(0), 1));
    assert_eq!(table.insert_tuple(&mut buffer_pool, &big).unwrap(), (PageId(1), 0));
    // A tuple that takes all of a page.
    let whole = vec![9u8; MAX_TUPLE_SIZE];
    assert_eq!(table.insert_tuple(&mut buffer_pool, &whole).unwrap(), (PageId(2), 0));
    // Small tuples go to the first page that has room.
    assert_eq!(table.insert_tuple(&mut buffer_pool, b"small").unwrap(), (PageId(0), 2));
    assert_eq!(table.insert_tuple(&mut buffer_pool, &big).unwrap(), (PageId(1), 1));
    assert_eq!(table.insert_tuple(&mut buffer_pool, &big).unwrap(), (PageId(3), 0));

    let same = TableHeap::from_existing(PageId(0));
    let mut iter = same.iter(&mut buffer_pool).unwrap();
    let mut seen = Vec::new();
    while let Some((tid, tuple)) = iter.next(&mut buffer_pool).unwrap() {
        seen.push((tid, tuple.len()));
    }
    assert_eq!(
        seen,
        vec![
            ((PageId(0), 0), 2000),
            ((PageId(0), 1), 2000),
            ((PageId(0), 2), 5),
            ((PageId(1), 0), 2000),
            ((PageId(1), 1), 2000),
            ((PageId(2), 0), MAX_TUPLE_SIZE),
            ((PageId(3), 0), 2000),
        ]
    );
    assert!(iter.next(&mut buffer_pool).unwrap().is_none());
    assert_eq!(
        table.get_tuple(&mut buffer_pool, (PageId(2), 0)).unwrap().tuple(),
        &whole[..]
    );
    assert_eq!(table.get_tuple(&mut buffer_pool, (PageId(0), 2)).unwrap().tuple(), b"small");
}

#[test]
fn empty_heap_has_no_tuples() {
    let mut buffer_pool = BufferPool::new(DiskManagerMem::new(), 1);
    let table = TableHeap::new(&mut buffer_pool).unwrap();
    let mut iter = table.iter(&mut buffer_pool).unwrap();
    assert!(iter.next(&mut buffer_pool).unwrap().is_none());
    assert!(iter.next(&mut buffer_pool).unwrap().is_none());
}
