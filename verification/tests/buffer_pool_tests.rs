use paged_storage::buffer_pool::{BufferPool, Error};
use paged_storage::disk_manager::{DiskManager, DiskPages, PageData, PageId, PAGE_SIZE};
use paged_storage::disk_manager_mem::DiskManagerMem;

#[test]
fn buffer_pool_test_allocate_and_read_one_page() {
    let mut buffer_pool = BufferPool::new(DiskManagerMem::new(), 1);
    let page = buffer_pool.allocate_page().unwrap();
    assert_eq!(page.id(), PageId(0));
    let mut data = *page.read(&buffer_pool);
    data[0] = 5;
    page.write(&mut buffer_pool, &data);

    let page = buffer_pool.get_page(PageId(0)).unwrap();
    assert_eq!(page.read(&buffer_pool)[0], 5);
}

#[test]
fn test_allocate_more_pages_than_capacity() {
    let mut buffer_pool = BufferPool::new(DiskManagerMem::new(), 1);
    let page0 = buffer_pool.allocate_page().unwrap();

    // Allocating second page should fail - we don't have free slots
    assert!(matches!(buffer_pool.allocate_page(), Err(Error::NoFreeFrames)));

    page0.unpin(&mut buffer_pool);

    // Now it should succeed, as we have unpinned the previous page
    buffer_pool.allocate_page().unwrap();
}

#[test]
fn test_write_and_read_evicted_page() {
    let mut buffer_pool = BufferPool::new(DiskManagerMem::new(), 1);

    let page = buffer_pool.allocate_page().unwrap();
    assert_eq!(page.id(), PageId(0));
    let mut data = *page.read(&buffer_pool);
    data[0] = 5;
    page.write(&mut buffer_pool, &data);
    page.dirty(&mut buffer_pool);
    page.unpin(&mut buffer_pool);

    // Allocate another page to evict the one we've written to
    let other = buffer_pool.allocate_page().unwrap();
    assert!(!buffer_pool.is_page_in_memory(PageId(0)));
    other.unpin(&mut buffer_pool);

    let page = buffer_pool.get_page(PageId(0)).unwrap();
    assert_eq!(page.read(&buffer_pool)[0], 5);
}

#[test]
fn more_pages_than_frames_when_each_is_unpinned() {
    let capacity = 3;
    let mut buffer_pool = BufferPool::new(DiskManagerMem::new(), capacity);
    for i in 0..10u32 {
        let page = buffer_pool.allocate_page().unwrap();
        assert_eq!(page.id(), PageId(i));
        assert_eq!(page.pin_count(&buffer_pool), 1);
        assert_eq!(page.read(&buffer_pool), &[0u8; PAGE_SIZE]);
        page.unpin(&mut buffer_pool);
    }
    let mut pins = Vec::new();
    for _ in 0..capacity {
        pins.push(buffer_pool.allocate_page().unwrap());
    }
    assert!(matches!(buffer_pool.allocate_page(), Err(Error::NoFreeFrames)));
    assert!(matches!(buffer_pool.get_page(PageId(0)), Err(Error::NoFreeFrames)));
    // A page that is resident can be pinned again.
    let again = buffer_pool.get_page(pins[0].id()).unwrap();
    assert_eq!(again.pin_count(&buffer_pool), 2);
    again.unpin(&mut buffer_pool);
    assert_eq!(pins[0].pin_count(&buffer_pool), 1);
    for pin in pins {
        pin.unpin(&mut buffer_pool);
    }
    buffer_pool.get_page(PageId(0)).unwrap();
}

#[test]
fn bytes_survive_eviction_when_marked_dirty() {
    let mut buffer_pool = BufferPool::new(DiskManagerMem::new(), 2);
    let mut contents = Vec::new();
    for i in 0..6u8 {
        let page = buffer_pool.allocate_page().unwrap();
        let mut data = [0u8; PAGE_SIZE];
        for (j, byte) in data.iter_mut().enumerate() {
            *byte = (j as u8).wrapping_mul(i + 1);
        }
        page.write(&mut buffer_pool, &data);
        page.dirty(&mut buffer_pool);
        page.unpin(&mut buffer_pool);
        contents.push(data);
    }
    for round in 0..3 {
        for i in 0..6u32 {
            let page = buffer_pool.get_page(PageId((i * 5 + round) % 6)).unwrap();
            assert_eq!(page.read(&buffer_pool), &contents[page.id().0 as usize]);
            page.unpin(&mut buffer_pool);
        }
    }
}

#[test]
fn clock_gives_a_second_chance() {
    let mut buffer_pool = BufferPool::new(DiskManagerMem::new(), 3);
    // Frames are taken from the end of the free list: pages 0, 1, 2 land in
    // frames 2, 1, 0.
    for _ in 0..3 {
        let page = buffer_pool.allocate_page().unwrap();
        page.dirty(&mut buffer_pool);
        page.unpin(&mut buffer_pool);
    }
    assert_eq!(
        buffer_pool.dump_state(),
        vec![(PageId(2), true, 0), (PageId(1), true, 0), (PageId(0), true, 0)]
    );
    // All reference bits are set: the first sweep clears them, the second
    // takes frame 0.
    assert_eq!(buffer_pool.find_victim().unwrap(), 0);
    // A page that is pinned again gets its bit back and is passed over once.
    let page = buffer_pool.get_page(PageId(2)).unwrap();
    page.unpin(&mut buffer_pool);
    assert_eq!(buffer_pool.find_victim().unwrap(), 1);
    let page = buffer_pool.allocate_page().unwrap();
    assert_eq!(page.id(), PageId(3));
    assert!(!buffer_pool.is_page_in_memory(PageId(1)));
    assert!(buffer_pool.is_page_in_memory(PageId(2)));
    assert!(buffer_pool.is_page_in_memory(PageId(0)));
    assert_eq!(
        buffer_pool.dump_state(),
        vec![(PageId(2), true, 0), (PageId(3), false, 1), (PageId(0), true, 0)]
    );
    // A pinned frame is never the victim.
    assert_eq!(buffer_pool.find_victim().unwrap(), 2);
    assert_eq!(buffer_pool.get_free_frame().unwrap(), 2);
    assert_eq!(
        buffer_pool.dump_state(),
        vec![(PageId(2), true, 0), (PageId(3), false, 1), (PageId(0), false, 0)]
    );
}

#[test]
fn empty_pool_has_no_frames() {
    let mut buffer_pool = BufferPool::new(DiskManagerMem::new(), 0);
    assert!(matches!(buffer_pool.allocate_page(), Err(Error::NoFreeFrames)));
    assert!(matches!(buffer_pool.find_victim(), Err(Error::NoFreeFrames)));
    assert_eq!(buffer_pool.dump_state(), vec![]);
}

/// A device that fails every write and every read after the first `reads`.
struct FailingDisk {
    inner: DiskManagerMem,
    reads: usize,
}

impl DiskManager for FailingDisk {
    fn pages(&self) -> DiskPages {
        unreachable!()
    }

    fn reliable(&self) -> bool {
        unreachable!()
    }

    fn page_count(&self) -> usize {
        self.inner.page_count()
    }

    fn write_page(&mut self, _page_id: PageId, _data: &PageData) -> Result<(), std::io::Error> {
        Err(std::io::Error::new(std::io::ErrorKind::Other, "write failed"))
    }

    fn read_page(&mut self, page_id: PageId, data: &mut PageData) -> Result<(), std::io::Error> {
        if self.reads == 0 {
            return Err(std::io::Error::new(std::io::ErrorKind::Other, "read failed"));
        }
        self.reads -= 1;
        self.inner.read_page(page_id, data)
    }

    fn allocate_page(&mut self) -> Result<PageId, std::io::Error> {
        self.inner.allocate_page()
    }
}

#[test]
fn device_errors_leave_the_cache() {
    let disk = FailingDisk { inner: DiskManagerMem::new(), reads: 1 };
    let mut buffer_pool = BufferPool::new(disk, 1);
    let page = buffer_pool.allocate_page().unwrap();
    let mut data = [0u8; PAGE_SIZE];
    data[7] = 7;
    page.write(&mut buffer_pool, &data);
    page.dirty(&mut buffer_pool);
    page.unpin(&mut buffer_pool);
    // The dirty page cannot be written back, so it keeps its frame.
    assert!(matches!(buffer_pool.allocate_page(), Err(Error::IOError(_))));
    assert!(buffer_pool.is_page_in_memory(PageId(0)));
    assert_eq!(buffer_pool.dump_state(), vec![(PageId(0), true, 0)]);
    let page = buffer_pool.get_page(PageId(0)).unwrap();
    assert_eq!(page.read(&buffer_pool)[7], 7);
    page.unpin(&mut buffer_pool);

    // A clean page gives up its frame only once the new page was read.
    let disk = FailingDisk { inner: DiskManagerMem::new(), reads: 1 };
    let mut buffer_pool = BufferPool::new(disk, 1);
    buffer_pool.allocate_page().unwrap().unpin(&mut buffer_pool);
    buffer_pool.allocate_page().unwrap().unpin(&mut buffer_pool);
    buffer_pool.get_page(PageId(0)).unwrap().unpin(&mut buffer_pool);
    assert!(matches!(buffer_pool.get_page(PageId(1)), Err(Error::IOError(_))));
    assert!(buffer_pool.is_page_in_memory(PageId(0)));
    assert!(!buffer_pool.is_page_in_memory(PageId(1)));
}

#[test]
fn memory_device_keeps_pages() {
    let mut disk = DiskManagerMem::default();
    assert_eq!(disk.allocate_page().unwrap(), PageId(0));
    assert_eq!(disk.allocate_page().unwrap(), PageId(1));
    let mut data = [0u8; PAGE_SIZE];
    disk.read_page(PageId(1), &mut data).unwrap();
    assert_eq!(data, [0u8; PAGE_SIZE]);
    data[100] = 42;
    disk.write_page(PageId(1), &data).unwrap();
    let mut back = [1u8; PAGE_SIZE];
    disk.read_page(PageId(0), &mut back).unwrap();
    assert_eq!(back, [0u8; PAGE_SIZE]);
    disk.read_page(PageId(1), &mut back).unwrap();
    assert_eq!(back, data);
    assert_eq!(disk.page_count(), 2);
    let pool = BufferPool::new(disk, 2);
    assert_eq!(pool.page_count(), 2);
    assert_eq!(pool.capacity(), 2);
    assert!(PageId(1).is_valid());
    assert!(!PageId::invalid().is_valid());
    assert_eq!(PageId::invalid(), PageId(0xffff_ffff));
}

#[test]
fn lib_test_allocate_and_read_one_page() {
    let mut buffer_pool = BufferPool::new(DiskManagerMem::new(), 1);
    let page = buffer_pool.allocate_page().unwrap();
    assert_eq!(page.id(), PageId(0));
    let mut data = *page.read(&buffer_pool);
    data[0] = 5;
    page.write(&mut buffer_pool, &data);

    let page = buffer_pool.get_page(PageId(0)).unwrap();
    assert_eq!(page.read(&buffer_pool)[0], 5);
}

/// A small generator of numbers that look random, the same at every run.
struct Numbers(u64);

impl Numbers {
    fn next(&mut self) -> u64 {
        self.0 = self.0.wrapping_mul(6364136223846793005).wrapping_add(1442695040888963407);
        self.0 >> 33
    }

    fn below(&mut self, bound: usize) -> usize {
        (self.next() % bound as u64) as usize
    }

    fn flip(&mut self) -> bool {
        self.next() % 2 == 0
    }
}

#[test]
fn random_multi_pin_test() {
    const BUFFER_POOL_SIZE: usize = 2;
    const NUM_PAGES: usize = 4;

    let mut buffer_pool = BufferPool::new(DiskManagerMem::new(), BUFFER_POOL_SIZE);
    let mut rng = Numbers(0);

    for _ in 0..NUM_PAGES {
        let page = buffer_pool.allocate_page().unwrap();
        page.dirty(&mut buffer_pool);
        page.unpin(&mut buffer_pool);
    }

    let mut values = [0u8; NUM_PAGES];
    let mut pinned_pages: Vec<(PageId, paged_storage::buffer_pool::PinnedPage)> = Vec::new();

    fn num_unique_pinned_pages(
        pinned_pages: &Vec<(PageId, paged_storage::buffer_pool::PinnedPage)>,
    ) -> usize {
        let mut ids: Vec<u32> = pinned_pages.iter().map(|(id, _)| id.0).collect();
        ids.sort();
        ids.dedup();
        ids.len()
    }

    for _ in 0..100usize {
        let should_unpin = if pinned_pages.is_empty() {
            false
        } else if num_unique_pinned_pages(&pinned_pages) >= BUFFER_POOL_SIZE {
            true
        } else {
            rng.flip()
        };

        let (page_id, page) = if should_unpin {
            let index = rng.below(pinned_pages.len());
            pinned_pages.remove(index)
        } else {
            let page_id = PageId(rng.below(NUM_PAGES) as u32);
            (page_id, buffer_pool.get_page(page_id).unwrap())
        };

        let value = page.read(&buffer_pool)[0];
        assert_eq!(value, values[page_id.0 as usize]);
        assert_eq!(page.id(), page_id);

        if rng.flip() {
            values[page_id.0 as usize] = values[page_id.0 as usize].wrapping_add(1);
            let mut data = *page.read(&buffer_pool);
            data[0] = values[page_id.0 as usize];
            page.write(&mut buffer_pool, &data);
            page.dirty(&mut buffer_pool);
        }

        if should_unpin {
            page.unpin(&mut buffer_pool);
        } else {
            pinned_pages.push((page_id, page));
        }

        for (id, pin) in &pinned_pages {
            assert!(buffer_pool.holds(pin));
            let pins = pinned_pages.iter().filter(|(other, _)| other == id).count();
            assert_eq!(pin.pin_count(&buffer_pool), pins);
        }
    }
}
