//! Whole-page block storage addressed by dense page identifiers.

use vstd::prelude::*;

verus! {

/// Size in bytes of every page.
pub const PAGE_SIZE: usize = 4096;

/// The bytes of one page.
pub type PageData = [u8; PAGE_SIZE];

/// The raw value of the reserved identifier that names no page.
pub const INVALID_PAGE_ID: u32 = 0xffff_ffff;

/// Identifier of a page on the block device.
#[derive(Clone, Copy, Debug, PartialEq, Eq, Structural, Hash)]
pub struct PageId(pub u32);

impl PageId {
    /// The reserved identifier that names no page.
    pub fn invalid() -> (id: PageId)
        ensures
            id.0 == INVALID_PAGE_ID,
    {
        PageId(INVALID_PAGE_ID)
    }

    /// Whether this identifier may name a page.
    pub fn is_valid(self) -> (valid: bool)
        ensures
            valid == (self.0 != INVALID_PAGE_ID),
    {
        self.0 != INVALID_PAGE_ID
    }
}

/// `std::io::Error`, the error of a failed device operation. The verifier
/// sees nothing inside.
#[verifier::external_type_specification]
#[verifier::external_body]
pub struct ExIoError(std::io::Error);

/// The contents of the pages of a block device, by identifier.
pub type DiskPages = Seq<Seq<u8>>;

/// A block device: whole pages, read and written by identifier.
///
/// Identifiers are handed out in sequence, so the device is modelled by the
/// sequence of the contents of its pages. What a page holds between its
/// allocation and its first write is up to the device.
///
/// The pool is proved against the contracts of the operations; an
/// implementation must meet them. `pages` and `reliable` exist for the
/// contracts alone and are never run: an implementation outside verified code
/// gives them bodies that do not return.
pub trait DiskManager {
    /// The contents of every allocated page, by identifier.
    spec fn pages(&self) -> DiskPages;

    /// Whether no operation of the device fails. A device is reliable for
    /// good or not at all; of a device that reads and writes a medium nothing
    /// shows that it is.
    spec fn reliable(&self) -> bool;

    /// The number of pages of the device.
    fn page_count(&self) -> (count: usize)
        ensures
            count == self.pages().len(),
    ;

    /// Records `data` as the contents of page `page_id`.
    ///
    /// Whether or not the write succeeds, no other page changes.
    fn write_page(&mut self, page_id: PageId, data: &PageData) -> (done: Result<
        (),
        std::io::Error,
    >)
        requires
            page_id.0 < old(self).pages().len(),
        ensures
            final(self).pages().len() == old(self).pages().len(),
            forall|i: int|
                0 <= i < old(self).pages().len() && i != page_id.0 ==> final(self).pages()[i]
                    == old(self).pages()[i],
            done is Ok ==> final(self).pages()[page_id.0 as int] == data@,
            final(self).reliable() == old(self).reliable(),
            old(self).reliable() ==> done is Ok,
    ;

    /// Copies the contents of page `page_id` into `data`.
    fn read_page(&mut self, page_id: PageId, data: &mut PageData) -> (done: Result<
        (),
        std::io::Error,
    >)
        requires
            page_id.0 < old(self).pages().len(),
        ensures
            final(self).pages() == old(self).pages(),
            done is Ok ==> final(data)@ == old(self).pages()[page_id.0 as int],
            final(self).reliable() == old(self).reliable(),
            old(self).reliable() ==> done is Ok,
    ;

    /// Adds a page to the device and returns its identifier, which is the
    /// number of pages there were.
    fn allocate_page(&mut self) -> (id: Result<PageId, std::io::Error>)
        requires
            old(self).pages().len() < INVALID_PAGE_ID,
        ensures
            id is Err ==> final(self).pages() == old(self).pages(),
            id matches Ok(page_id) ==> {
                &&& page_id.0 == old(self).pages().len()
                &&& final(self).pages().len() == old(self).pages().len() + 1
                &&& forall|i: int|
                    0 <= i < old(self).pages().len() ==> final(self).pages()[i] == old(
                        self,
                    ).pages()[i]
            },
            final(self).reliable() == old(self).reliable(),
            old(self).reliable() ==> id is Ok,
    ;
}

} // verus!
