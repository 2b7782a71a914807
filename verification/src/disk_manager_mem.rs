//! A block device that keeps its pages in memory.

use vstd::prelude::*;
use crate::disk_manager::{DiskManager, DiskPages, PageData, PageId, PAGE_SIZE};

verus! {

/// A block device whose pages live in a vector, indexed by identifier.
pub struct DiskManagerMem {
    pages: Vec<PageData>,
}

impl DiskManagerMem {
    /// A device without pages.
    pub fn new() -> (disk: Self)
        ensures
            disk.pages().len() == 0,
            disk.reliable(),
    {
        DiskManagerMem { pages: Vec::new() }
    }
}

impl Default for DiskManagerMem {
    fn default() -> (disk: Self)
        ensures
            disk.pages().len() == 0,
            disk.reliable(),
    {
        Self::new()
    }
}

impl DiskManager for DiskManagerMem {
    closed spec fn pages(&self) -> DiskPages {
        Seq::new(self.pages@.len(), |i: int| self.pages@[i]@)
    }

    /// Memory does not fail.
    open spec fn reliable(&self) -> bool {
        true
    }

    fn page_count(&self) -> (count: usize) {
        self.pages.len()
    }

    fn write_page(&mut self, page_id: PageId, data: &PageData) -> (done: Result<
        (),
        std::io::Error,
    >)
    {
        self.pages[page_id.0 as usize] = *data;
        Ok(())
    }

    fn read_page(&mut self, page_id: PageId, data: &mut PageData) -> (done: Result<
        (),
        std::io::Error,
    >)
    {
        *data = self.pages[page_id.0 as usize];
        assert(self.pages() =~= old(self).pages());
        Ok(())
    }

    /// The new page holds zeros.
    fn allocate_page(&mut self) -> (id: Result<PageId, std::io::Error>)
        ensures
            final(self).pages()[old(self).pages().len() as int] == Seq::new(
                PAGE_SIZE as nat,
                |i: int| 0u8,
            ),
    {
        let id = PageId(self.pages.len() as u32);
        self.pages.push([0; PAGE_SIZE]);
        assert(self.pages()[old(self).pages().len() as int] =~= Seq::new(
            PAGE_SIZE as nat,
            |i: int| 0u8,
        ));
        Ok(id)
    }
}

} // verus!
