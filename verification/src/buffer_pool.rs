//! A fixed set of frames that caches the pages of a block device.
//!
//! A page is pinned while a [`PinnedPage`] for it is outstanding; a pinned
//! page keeps its frame. Frames of unpinned pages are reused by the CLOCK
//! policy, and a dirty page is written back before its frame is reused.

use vstd::prelude::*;
use std::collections::HashMap;
use crate::disk_manager::{DiskManager, PageData, PageId, INVALID_PAGE_ID, PAGE_SIZE};
use crate::ref_flags::{RefFlags, ref_bits, ref_flags_cleared, ref_flags_get, ref_flags_set};

verus! {

/// Index of a frame in the pool.
pub type FrameId = usize;

/// Why a pool operation failed.
#[derive(Debug)]
pub enum Error {
    /// The block device failed to read or write.
    IOError(std::io::Error),
    /// Every frame is pinned.
    NoFreeFrames,
}

impl From<std::io::Error> for Error {
    fn from(err: std::io::Error) -> (error: Self) {
        Error::IOError(err)
    }
}

impl vstd::std_specs::convert::FromSpecImpl<std::io::Error> for Error {
    open spec fn obeys_from_spec() -> bool {
        true
    }

    open spec fn from_spec(err: std::io::Error) -> Self {
        Error::IOError(err)
    }
}

/// One frame: a page of bytes and what the pool knows of it.
pub struct Page {
    id: PageId,
    dirty: bool,
    pin_count: usize,
    data: PageData,
}

/// A handle to a pinned page.
///
/// The page stays in its frame until the handle is given back with
/// [`PinnedPage::unpin`]. Nothing gives a handle back by itself: one that is
/// dropped or forgotten leaves its page pinned, and its frame out of reach of
/// the CLOCK policy, for as long as the pool lives.
#[derive(Debug)]
pub struct PinnedPage {
    frame: FrameId,
    id: PageId,
}

/// What one frame holds.
pub struct FrameView {
    /// The raw identifier of the page in the frame, or the invalid one.
    pub page: u32,
    /// Whether the bytes were changed since they were read.
    pub dirty: bool,
    /// The number of outstanding handles.
    pub pins: nat,
    /// The reference bit of the CLOCK policy.
    pub referenced: bool,
    /// The bytes of the page.
    pub data: Seq<u8>,
}

/// What a pool holds.
pub struct PoolView {
    /// The frames, by index.
    pub frames: Seq<FrameView>,
    /// The frame of every resident page, by raw identifier.
    pub table: Map<u32, usize>,
    /// The frames that hold no page; the last one is used next.
    pub free: Seq<usize>,
    /// The frame that the CLOCK policy looks at next.
    pub clock_hand: usize,
    /// The pages of the block device.
    pub disk: Seq<Seq<u8>>,
    /// Whether no operation of the block device fails.
    pub reliable: bool,
}

impl FrameView {
    /// This frame with its reference bit clear.
    pub open spec fn unreferenced(self) -> FrameView {
        FrameView { referenced: false, ..self }
    }

    /// Whether two frames differ in nothing but the reference bit.
    pub open spec fn same_but_reference(self, other: FrameView) -> bool {
        &&& self.page == other.page
        &&& self.dirty == other.dirty
        &&& self.pins == other.pins
        &&& self.data == other.data
    }
}

impl PoolView {
    /// Whether the bookkeeping is consistent.
    ///
    /// The page table and the frames name each other: a page is in the table
    /// exactly if some frame holds it, and that is the frame the table gives.
    /// The free list holds each frame without a page once, and such a frame is
    /// neither pinned nor dirty.
    pub open spec fn wf(self) -> bool {
        &&& 2 * self.frames.len() <= usize::MAX
        &&& if self.frames.len() == 0 {
            self.clock_hand == 0
        } else {
            self.clock_hand < self.frames.len()
        }
        &&& forall|f: int|
            0 <= f < self.frames.len() ==> (#[trigger] self.frames[f]).data.len() == PAGE_SIZE
        &&& forall|id: u32| #[trigger]
            self.table.contains_key(id) ==> {
                &&& id != INVALID_PAGE_ID
                &&& id < self.disk.len()
                &&& self.table[id] < self.frames.len()
                &&& self.frames[self.table[id] as int].page == id
            }
        &&& forall|f: int|
            0 <= f < self.frames.len() && (#[trigger] self.frames[f]).page != INVALID_PAGE_ID ==> {
                &&& self.table.contains_key(self.frames[f].page)
                &&& self.table[self.frames[f].page] == f
            }
        &&& forall|f: int|
            0 <= f < self.frames.len() && (#[trigger] self.frames[f]).page == INVALID_PAGE_ID ==> {
                &&& self.frames[f].pins == 0
                &&& !self.frames[f].dirty
                &&& self.free.contains(f as usize)
            }
        &&& forall|k: int|
            0 <= k < self.free.len() ==> {
                &&& (#[trigger] self.free[k]) < self.frames.len()
                &&& self.frames[self.free[k] as int].page == INVALID_PAGE_ID
            }
        &&& forall|j: int, k: int|
            0 <= j < k < self.free.len() ==> #[trigger] self.free[j] != #[trigger] self.free[k]
    }

    /// Whether every frame is pinned.
    pub open spec fn all_pinned(self) -> bool {
        forall|f: int| 0 <= f < self.frames.len() ==> (#[trigger] self.frames[f]).pins > 0
    }

    /// Whether at most one frame is unpinned.
    pub open spec fn all_pinned_but_one(self) -> bool {
        forall|f: int, g: int|
            0 <= f < g < self.frames.len() ==> (#[trigger] self.frames[f]).pins > 0
                || (#[trigger] self.frames[g]).pins > 0
    }

    /// Whether two frames other than `a` and `b` are unpinned.
    pub open spec fn two_unpinned_besides(self, a: int, b: int) -> bool {
        exists|f: int, g: int|
            0 <= f < g < self.frames.len() && f != a && f != b && g != a && g != b
                && (#[trigger] self.frames[f]).pins == 0 && (#[trigger] self.frames[g]).pins == 0
    }

    /// Whether page `id` is in a frame.
    pub open spec fn resident(self, id: PageId) -> bool {
        self.table.contains_key(id.0)
    }

    /// The bytes of page `id` as the pool serves them: those of its frame
    /// where it is resident, those on the device where it is not.
    pub open spec fn page(self, id: PageId) -> Seq<u8> {
        if self.resident(id) {
            self.frames[self.table[id.0] as int].data
        } else {
            self.disk[id.0 as int]
        }
    }

    /// Whether every resident page that is not dirty equals its copy on the
    /// device, so that no eviction changes what a page holds.
    pub open spec fn coherent(self) -> bool {
        forall|f: int|
            0 <= f < self.frames.len() && (#[trigger] self.frames[f]).page != INVALID_PAGE_ID
                && !self.frames[f].dirty ==> self.frames[f].data
                == self.disk[self.frames[f].page as int]
    }

    /// Whether `pin` names a frame that holds its page and is pinned.
    pub open spec fn holds(self, pin: PinnedPage) -> bool {
        &&& pin.frame() < self.frames.len()
        &&& pin.page().0 != INVALID_PAGE_ID
        &&& self.frames[pin.frame() as int].page == pin.page().0
        &&& self.frames[pin.frame() as int].pins > 0
    }

    /// The CLOCK sweep of at most `steps` frames from the clock hand on: a
    /// pinned frame is passed over; an unpinned one whose reference bit is set
    /// loses the bit and is passed over; the first unpinned one whose bit is
    /// clear is the victim. Gives the victim, if any, and the pool after the
    /// sweep.
    pub open spec fn sweep(self, steps: nat) -> (Option<usize>, PoolView)
        decreases steps,
    {
        if steps == 0 {
            (None, self)
        } else {
            let frame = self.frames[self.clock_hand as int];
            if frame.pins == 0 && !frame.referenced {
                (Some(self.clock_hand), self)
            } else {
                let frames = if frame.pins == 0 {
                    self.frames.update(self.clock_hand as int, frame.unreferenced())
                } else {
                    self.frames
                };
                let clock_hand = if self.clock_hand + 1 == self.frames.len() {
                    0usize
                } else {
                    (self.clock_hand + 1) as usize
                };
                (PoolView { frames, clock_hand, ..self }).sweep((steps - 1) as nat)
            }
        }
    }

    /// This pool with `frame` in place of frame `f`.
    pub open spec fn with_frame(self, f: int, frame: FrameView) -> PoolView {
        PoolView { frames: self.frames.update(f, frame), ..self }
    }

    /// This pool after the page in frame `f` was written back: the device
    /// holds the bytes of a dirty frame, and the frame is not dirty.
    pub open spec fn written_back(self, f: int) -> PoolView {
        PoolView {
            frames: self.frames.update(f, FrameView { dirty: false, ..self.frames[f] }),
            disk: if self.frames[f].dirty {
                self.disk.update(self.frames[f].page as int, self.frames[f].data)
            } else {
                self.disk
            },
            ..self
        }
    }

    /// The frame that takes the next page, and the pool once that frame is
    /// ready: the last frame of the free list, or where the list is empty the
    /// victim of two CLOCK sweeps, written back. `None` where every frame is
    /// pinned.
    pub open spec fn selected(self) -> Option<(usize, PoolView)> {
        if self.free.len() > 0 {
            Some((self.free.last(), self))
        } else {
            match self.sweep(2 * self.frames.len()) {
                (Some(f), swept) => Some((f, swept.written_back(f as int))),
                (None, _) => None,
            }
        }
    }

    /// This pool after frame `f` gave up what it held and took page `id` with
    /// the bytes `data`, pinned once.
    pub open spec fn bound(self, f: int, id: PageId, data: Seq<u8>) -> PoolView {
        PoolView {
            frames: self.frames.update(
                f,
                FrameView { page: id.0, dirty: false, pins: 1, referenced: true, data },
            ),
            table: (if self.frames[f].page != INVALID_PAGE_ID {
                self.table.remove(self.frames[f].page)
            } else {
                self.table
            }).insert(id.0, f as usize),
            free: if self.frames[f].page == INVALID_PAGE_ID {
                self.free.drop_last()
            } else {
                self.free
            },
            ..self
        }
    }

    /// Whether `other` holds the same pages in the same frames with the same
    /// bytes and pins, on a device of the same size. The dirty flag of an
    /// unpinned frame may have been cleared; reference bits and the clock hand
    /// may differ.
    pub open spec fn same_cache(self, other: PoolView) -> bool {
        &&& other.frames.len() == self.frames.len()
        &&& other.table == self.table
        &&& other.free == self.free
        &&& other.disk.len() == self.disk.len()
        &&& other.reliable == self.reliable
        &&& forall|f: int|
            0 <= f < self.frames.len() ==> {
                &&& (#[trigger] other.frames[f]).page == self.frames[f].page
                &&& other.frames[f].pins == self.frames[f].pins
                &&& other.frames[f].data == self.frames[f].data
                &&& other.frames[f].dirty ==> self.frames[f].dirty
                &&& self.frames[f].pins > 0 ==> other.frames[f].dirty == self.frames[f].dirty
            }
    }

    /// Whether every resident page but the one in frame `frame` that is not
    /// dirty equals its copy on the device.
    pub open spec fn coherent_but(self, frame: int) -> bool {
        forall|f: int|
            0 <= f < self.frames.len() && f != frame && (#[trigger] self.frames[f]).page
                != INVALID_PAGE_ID && !self.frames[f].dirty ==> self.frames[f].data
                == self.disk[self.frames[f].page as int]
    }

    /// Whether every frame but `frame` holds in `other` the page, the bytes
    /// and the pins that it holds here, is dirty there only if it is here,
    /// and where it is pinned is dirty there exactly if it is here.
    pub open spec fn same_frames_but(self, other: PoolView, frame: int) -> bool {
        &&& other.frames.len() == self.frames.len()
        &&& forall|f: int|
            0 <= f < self.frames.len() && f != frame ==> {
                &&& (#[trigger] other.frames[f]).page == self.frames[f].page
                &&& other.frames[f].pins == self.frames[f].pins
                &&& other.frames[f].data == self.frames[f].data
                &&& other.frames[f].dirty ==> self.frames[f].dirty
                &&& self.frames[f].pins > 0 ==> other.frames[f].dirty == self.frames[f].dirty
            }
    }

    /// This pool with the bytes `data` in frame `f`.
    pub open spec fn with_data(self, f: int, data: Seq<u8>) -> PoolView {
        self.with_frame(f, FrameView { data, ..self.frames[f] })
    }

    /// This pool over a device that holds `disk`.
    pub open spec fn with_disk(self, disk: Seq<Seq<u8>>) -> PoolView {
        PoolView { disk, ..self }
    }

    /// The number of outstanding handles of every frame, by frame.
    pub open spec fn pins(self) -> Seq<nat> {
        Seq::new(self.frames.len(), |f: int| self.frames[f].pins)
    }

    /// Whether every frame can take one more handle.
    pub open spec fn can_pin(self) -> bool {
        forall|f: int| 0 <= f < self.frames.len() ==> (#[trigger] self.frames[f]).pins < usize::MAX
    }

    /// Whether every handle that is good here is good in `other`.
    pub open spec fn handles_kept(self, other: PoolView) -> bool {
        forall|pin: PinnedPage| self.holds(pin) ==> #[trigger] other.holds(pin)
    }

    /// Whether every page that is pinned here is in `other` in the frame in
    /// which it is here.
    pub open spec fn pinned_stay(self, other: PoolView) -> bool {
        forall|id: PageId|
            #![trigger other.resident(id)]
            #![trigger self.resident(id)]
            self.resident(id) && self.frames[self.table[id.0] as int].pins > 0 ==> other.resident(
                id,
            ) && other.table[id.0] == self.table[id.0]
    }

    /// Whether the page table of `other` is this one with page `id` put into
    /// frame `frame`: `id` is there, in `frame`; every other page that is
    /// there was here, in the same frame; and a page that was here and is not
    /// there was in `frame`.
    pub open spec fn table_gained(self, other: PoolView, id: PageId, frame: usize) -> bool {
        &&& other.resident(id)
        &&& other.table[id.0] == frame
        &&& forall|x: PageId|
            #![trigger other.resident(x)]
            other.resident(x) && x != id ==> self.resident(x) && other.table[x.0]
                == self.table[x.0]
        &&& forall|x: PageId|
            #![trigger self.resident(x)]
            self.resident(x) && !other.resident(x) ==> self.table[x.0] == frame
    }

    /// Whether `id` names a page of the device.
    pub open spec fn has_page(self, id: PageId) -> bool {
        id.0 != INVALID_PAGE_ID && id.0 < self.disk.len()
    }

    /// Whether `other` serves every page of this pool's device as this pool
    /// does, but for page `id`.
    pub open spec fn same_pages_but(self, other: PoolView, id: PageId) -> bool {
        forall|page: PageId|
            page.0 < self.disk.len() && page != id ==> #[trigger] other.page(page) == self.page(
                page,
            )
    }

    /// Whether `other` serves every page of this pool's device as this pool
    /// does.
    pub open spec fn same_pages(self, other: PoolView) -> bool {
        forall|page: PageId|
            page.0 < self.disk.len() ==> #[trigger] other.page(page) == self.page(page)
    }

    /// Whether `other` is this pool but for reference bits that were cleared
    /// on unpinned frames, and the clock hand.
    pub open spec fn swept_to(self, other: PoolView) -> bool {
        &&& other.frames.len() == self.frames.len()
        &&& other.table == self.table
        &&& other.free == self.free
        &&& other.disk == self.disk
        &&& other.reliable == self.reliable
        &&& forall|f: int|
            0 <= f < self.frames.len() ==> {
                &&& (#[trigger] other.frames[f]).same_but_reference(self.frames[f])
                &&& other.frames[f].referenced ==> self.frames[f].referenced
                &&& self.frames[f].pins > 0 ==> other.frames[f].referenced
                    == self.frames[f].referenced
            }
    }
}

/// The page table and the frames are one to one: the frame that the table
/// gives for a page holds that page, no two pages share a frame, and every
/// frame that holds a page is the frame that the table gives for it.
pub proof fn lemma_page_table_bijection(v: PoolView)
    requires
        v.wf(),
    ensures
        forall|id: u32| #[trigger]
            v.table.contains_key(id) ==> v.table[id] < v.frames.len() && v.frames[v.table[id] as int].page
                == id,
        forall|a: u32, b: u32|
            v.table.contains_key(a) && v.table.contains_key(b) && a != b ==> #[trigger] v.table[a]
                != #[trigger] v.table[b],
        forall|f: int|
            0 <= f < v.frames.len() && (#[trigger] v.frames[f]).page != INVALID_PAGE_ID
                ==> v.table.contains_key(v.frames[f].page) && v.table[v.frames[f].page] == f,
{
    assert forall|a: u32, b: u32|
        v.table.contains_key(a) && v.table.contains_key(b) && a != b implies #[trigger] v.table[a]
        != #[trigger] v.table[b] by {
        assert(v.frames[v.table[a] as int].page == a);
        assert(v.frames[v.table[b] as int].page == b);
    }
}

/// The page table has no more entries than the pool has frames.
pub proof fn lemma_page_table_size(v: PoolView)
    requires
        v.wf(),
    ensures
        v.table.dom().finite(),
        v.table.dom().len() <= v.frames.len(),
{
    let frames = vstd::set_lib::set_int_range(0, v.frames.len() as int);
    vstd::set_lib::lemma_int_range(0, v.frames.len() as int);
    let holding = Set::new(
        |f: int| 0 <= f < v.frames.len() && v.frames[f].page != INVALID_PAGE_ID,
    );
    assert(holding.subset_of(frames));
    vstd::set_lib::lemma_len_subset(holding, frames);
    let page_of = |f: int| v.frames[f].page;
    assert forall|id: u32| v.table.dom().contains(id) implies holding.map(page_of).contains(
        id,
    ) by {
        assert(v.table.contains_key(id));
        let f = v.table[id] as int;
        assert(holding.contains(f) && page_of(f) == id);
    }
    assert forall|id: u32| holding.map(page_of).contains(id) implies v.table.dom().contains(
        id,
    ) by {
        let f = choose|f: int| holding.contains(f) && page_of(f) == id;
        assert(v.frames[f].page != INVALID_PAGE_ID);
    }
    assert(holding.map(page_of) =~= v.table.dom());
    vstd::set_lib::lemma_map_size_bound(holding, v.table.dom(), page_of);
}

/// A CLOCK sweep clears reference bits of unpinned frames and moves the
/// clock hand, and nothing else; its victim is an unpinned frame whose bit is
/// clear, and the hand rests on it.
pub proof fn lemma_sweep(v: PoolView, steps: nat)
    requires
        v.wf(),
        v.frames.len() > 0,
    ensures
        v.swept_to(v.sweep(steps).1),
        v.sweep(steps).1.wf(),
        v.sweep(steps).0 matches Some(victim) ==> {
            &&& victim < v.frames.len()
            &&& v.frames[victim as int].pins == 0
            &&& !v.sweep(steps).1.frames[victim as int].referenced
            &&& v.sweep(steps).1.clock_hand == victim
        },
    decreases steps,
{
    if steps > 0 {
        let frame = v.frames[v.clock_hand as int];
        if !(frame.pins == 0 && !frame.referenced) {
            let frames = if frame.pins == 0 {
                v.frames.update(v.clock_hand as int, frame.unreferenced())
            } else {
                v.frames
            };
            let clock_hand = if v.clock_hand + 1 == v.frames.len() {
                0usize
            } else {
                (v.clock_hand + 1) as usize
            };
            let next = PoolView { frames, clock_hand, ..v };
            assert(next.wf()) by {
                assert forall|f: int|
                    0 <= f < next.frames.len() && (#[trigger] next.frames[f]).page
                        != INVALID_PAGE_ID implies {
                    &&& next.table.contains_key(next.frames[f].page)
                    &&& next.table[next.frames[f].page] == f
                } by {
                    assert(v.frames[f].page != INVALID_PAGE_ID);
                }
                assert forall|f: int|
                    0 <= f < next.frames.len() && (#[trigger] next.frames[f]).page
                        == INVALID_PAGE_ID implies {
                    &&& next.frames[f].pins == 0
                    &&& !next.frames[f].dirty
                    &&& next.free.contains(f as usize)
                } by {
                    assert(v.frames[f].page == INVALID_PAGE_ID);
                }
                assert forall|f: int| 0 <= f < next.frames.len() implies (#[trigger] next.frames[f]).data.len()
                    == PAGE_SIZE by {
                    assert(v.frames[f].data.len() == PAGE_SIZE);
                }
                assert forall|id: u32| #[trigger] next.table.contains_key(id) implies {
                    &&& id != INVALID_PAGE_ID
                    &&& id < next.disk.len()
                    &&& next.table[id] < next.frames.len()
                    &&& next.frames[next.table[id] as int].page == id
                } by {
                    assert(v.frames[v.table[id] as int].page == id);
                }
                assert forall|k: int| 0 <= k < next.free.len() implies {
                    &&& (#[trigger] next.free[k]) < next.frames.len()
                    &&& next.frames[next.free[k] as int].page == INVALID_PAGE_ID
                } by {
                    assert(v.frames[v.free[k] as int].page == INVALID_PAGE_ID);
                }
            }
            lemma_sweep(next, (steps - 1) as nat);
            let after = next.sweep((steps - 1) as nat).1;
            assert forall|f: int| 0 <= f < v.frames.len() implies {
                &&& (#[trigger] after.frames[f]).same_but_reference(v.frames[f])
                &&& after.frames[f].referenced ==> v.frames[f].referenced
                &&& v.frames[f].pins > 0 ==> after.frames[f].referenced == v.frames[f].referenced
            } by {
                assert(after.frames[f].same_but_reference(next.frames[f]));
            }
        }
    } else {
        assert forall|f: int| 0 <= f < v.frames.len() implies (#[trigger] v.frames[f]).same_but_reference(
            v.frames[f],
        ) by {}
    }
}

/// The frame that takes the next page is not pinned: while a handle to a
/// page is outstanding, the page keeps its frame.
pub proof fn lemma_selected_unpinned(v: PoolView)
    requires
        v.wf(),
        v.selected() is Some,
    ensures
        v.selected().unwrap().0 < v.frames.len(),
        v.frames[v.selected().unwrap().0 as int].pins == 0,
        forall|pin: PinnedPage| v.holds(pin) ==> pin.frame() != v.selected().unwrap().0,
{
    if v.free.len() > 0 {
        assert(v.frames[v.free[v.free.len() - 1] as int].page == INVALID_PAGE_ID);
    } else {
        if v.frames.len() > 0 {
            lemma_sweep(v, 2 * v.frames.len());
        }
    }
}

/// A dirty frame stays dirty while the next frame is made ready, unless it is
/// that frame and the device has taken its bytes.
pub proof fn lemma_dirty_until_written_back(v: PoolView, f: int)
    requires
        v.wf(),
        v.selected() is Some,
        0 <= f < v.frames.len(),
        v.frames[f].dirty,
    ensures
        v.selected().unwrap().1.frames[f].dirty || (v.selected().unwrap().0 == f
            && v.selected().unwrap().1.disk[v.frames[f].page as int] == v.frames[f].data),
{
    if v.free.len() == 0 {
        lemma_sweep(v, 2 * v.frames.len());
        let swept = v.sweep(2 * v.frames.len()).1;
        assert(swept.frames[f].same_but_reference(v.frames[f]));
        assert(v.frames[f].page < v.disk.len()) by {
            if v.frames[f].page == INVALID_PAGE_ID {
                assert(!v.frames[f].dirty);
            } else {
                assert(v.table.contains_key(v.frames[f].page));
            }
        }
    }
}

/// What a page holds does not change when its frame is given to another
/// page, if the pool is coherent: the bytes that were in the frame are the
/// bytes that the device serves from then on.
pub proof fn lemma_eviction_keeps_bytes(v: PoolView, id: PageId, data: Seq<u8>, other: PageId)
    requires
        v.wf(),
        v.coherent(),
        v.selected() is Some,
        v.has_page(id),
        !v.resident(id),
        data.len() == PAGE_SIZE,
        other != id,
        other.0 < v.disk.len(),
    ensures
        v.selected().unwrap().1.bound(v.selected().unwrap().0 as int, id, data).page(other)
            == v.page(other),
        v.selected().unwrap().1.bound(v.selected().unwrap().0 as int, id, data).page(id) == data,
{
    let (frame, ready) = v.selected().unwrap();
    lemma_selected_unpinned(v);
    if v.free.len() > 0 {
        assert(v.frames[frame as int].page == INVALID_PAGE_ID);
        lemma_bound(v, frame as int, id, data);
    } else {
        lemma_sweep(v, 2 * v.frames.len());
        let swept = v.sweep(2 * v.frames.len()).1;
        assert(swept.frames[frame as int].same_but_reference(v.frames[frame as int]));
        assert(swept.frames[frame as int].page != INVALID_PAGE_ID) by {
            if v.frames[frame as int].page == INVALID_PAGE_ID {
                assert(v.free.contains(frame));
            }
        }
        lemma_written_back(swept, frame as int);
        assert(swept.page(other) == v.page(other)) by {
            if v.resident(other) {
                assert(swept.frames[v.table[other.0] as int].same_but_reference(
                    v.frames[v.table[other.0] as int],
                ));
            }
        }
        assert(swept.coherent()) by {
            assert forall|g: int|
                0 <= g < swept.frames.len() && (#[trigger] swept.frames[g]).page
                    != INVALID_PAGE_ID && !swept.frames[g].dirty implies swept.frames[g].data
                == swept.disk[swept.frames[g].page as int] by {
                assert(swept.frames[g].same_but_reference(v.frames[g]));
            }
        }
        assert(ready.page(other) == swept.page(other));
        lemma_bound(ready, frame as int, id, data);
    }
}

/// Writing a frame back keeps the bookkeeping consistent and a coherent pool
/// coherent, and changes no page.
pub proof fn lemma_written_back(v: PoolView, f: int)
    requires
        v.wf(),
        0 <= f < v.frames.len(),
        v.frames[f].page != INVALID_PAGE_ID,
    ensures
        v.written_back(f).wf(),
        v.coherent() ==> v.written_back(f).coherent(),
        v.same_pages(v.written_back(f)),
        forall|id: PageId| #[trigger] v.written_back(f).resident(id) == v.resident(id),
{
    let w = v.written_back(f);
    assert forall|g: int|
        0 <= g < w.frames.len() && (#[trigger] w.frames[g]).page != INVALID_PAGE_ID implies {
        &&& w.table.contains_key(w.frames[g].page)
        &&& w.table[w.frames[g].page] == g
    } by {
        assert(v.frames[g].page != INVALID_PAGE_ID);
    }
    assert forall|g: int|
        0 <= g < w.frames.len() && (#[trigger] w.frames[g]).page == INVALID_PAGE_ID implies {
        &&& w.frames[g].pins == 0
        &&& !w.frames[g].dirty
        &&& w.free.contains(g as usize)
    } by {
        assert(v.frames[g].page == INVALID_PAGE_ID);
    }
    assert forall|g: int| 0 <= g < w.frames.len() implies (#[trigger] w.frames[g]).data.len()
        == PAGE_SIZE by {
        assert(v.frames[g].data.len() == PAGE_SIZE);
    }
    assert forall|id: u32| #[trigger] w.table.contains_key(id) implies {
        &&& id != INVALID_PAGE_ID
        &&& id < w.disk.len()
        &&& w.table[id] < w.frames.len()
        &&& w.frames[w.table[id] as int].page == id
    } by {
        assert(v.frames[v.table[id] as int].page == id);
    }
    assert forall|k: int| 0 <= k < w.free.len() implies {
        &&& (#[trigger] w.free[k]) < w.frames.len()
        &&& w.frames[w.free[k] as int].page == INVALID_PAGE_ID
    } by {
        assert(v.frames[v.free[k] as int].page == INVALID_PAGE_ID);
    }
    assert(v.table[v.frames[f].page] == f);
    assert forall|id: PageId| id.0 < v.disk.len() implies #[trigger] w.page(id) == v.page(id) by {
        if v.resident(id) {
            assert(v.frames[v.table[id.0] as int].page == id.0);
        } else {
            assert(id.0 != v.frames[f].page);
        }
    }
    if v.coherent() {
        assert forall|g: int|
            0 <= g < w.frames.len() && (#[trigger] w.frames[g]).page != INVALID_PAGE_ID
                && !w.frames[g].dirty implies w.frames[g].data
            == w.disk[w.frames[g].page as int] by {
            assert(v.frames[g].page != INVALID_PAGE_ID);
            if g != f {
                assert(v.table[v.frames[g].page] == g);
            }
        }
    }
}

/// The number of steps that the clock hand, now at `hand`, has made since it
/// last stood at frame `f`, of `capacity` frames.
pub open spec fn back_distance(f: int, hand: int, capacity: int) -> int {
    if f < hand {
        hand - f
    } else {
        hand - f + capacity
    }
}

/// A frame that is ready takes a page: the bookkeeping stays consistent, the
/// page is resident with the bytes given, and no other page changes, but that
/// the page which the frame held is no longer resident.
pub proof fn lemma_bound(v: PoolView, f: int, id: PageId, data: Seq<u8>)
    requires
        v.wf(),
        0 <= f < v.frames.len(),
        v.frames[f].pins == 0,
        !v.frames[f].dirty,
        v.frames[f].page == INVALID_PAGE_ID ==> v.free.len() > 0 && v.free.last() == f,
        id.0 != INVALID_PAGE_ID,
        id.0 < v.disk.len(),
        !v.resident(id),
        data.len() == PAGE_SIZE,
    ensures
        v.bound(f, id, data).wf(),
        v.bound(f, id, data).resident(id),
        v.bound(f, id, data).table[id.0] == f,
        v.bound(f, id, data).page(id) == data,
        v.same_frames_but(v.bound(f, id, data), f),
        forall|other: PageId|
            other != id && other.0 != v.frames[f].page ==> {
                &&& #[trigger] v.bound(f, id, data).resident(other) == v.resident(other)
                &&& v.bound(f, id, data).page(other) == v.page(other)
            },
        v.frames[f].page != INVALID_PAGE_ID ==> !v.bound(f, id, data).resident(
            PageId(v.frames[f].page),
        ),
        v.coherent() ==> v.bound(f, id, data).coherent_but(f),
        v.coherent() ==> forall|other: PageId|
            other != id && other.0 < v.disk.len() ==> #[trigger] v.bound(f, id, data).page(other)
                == v.page(other),
{
    let b = v.bound(f, id, data);
    let evicted = v.frames[f].page;
    assert forall|key: u32| #[trigger] b.table.contains_key(key) implies {
        &&& key != INVALID_PAGE_ID
        &&& key < b.disk.len()
        &&& b.table[key] < b.frames.len()
        &&& b.frames[b.table[key] as int].page == key
    } by {
        if key != id.0 {
            assert(v.table.contains_key(key));
            assert(v.table[key] != f);
        }
    }
    assert forall|g: int|
        0 <= g < b.frames.len() && (#[trigger] b.frames[g]).page != INVALID_PAGE_ID implies {
        &&& b.table.contains_key(b.frames[g].page)
        &&& b.table[b.frames[g].page] == g
    } by {
        if g != f {
            assert(v.frames[g].page != INVALID_PAGE_ID);
            assert(v.table[v.frames[g].page] == g);
        }
    }
    assert forall|g: int|
        0 <= g < b.frames.len() && (#[trigger] b.frames[g]).page == INVALID_PAGE_ID implies {
        &&& b.frames[g].pins == 0
        &&& !b.frames[g].dirty
        &&& b.free.contains(g as usize)
    } by {
        assert(g != f);
        assert(v.frames[g].page == INVALID_PAGE_ID);
        assert(v.free.contains(g as usize));
        let k = choose|k: int| 0 <= k < v.free.len() && v.free[k] == g as usize;
        if evicted == INVALID_PAGE_ID {
            assert(k < v.free.len() - 1);
            assert(b.free[k] == g as usize);
        } else {
            assert(b.free[k] == g as usize);
        }
    }
    assert forall|k: int| 0 <= k < b.free.len() implies {
        &&& (#[trigger] b.free[k]) < b.frames.len()
        &&& b.frames[b.free[k] as int].page == INVALID_PAGE_ID
    } by {
        assert(b.free[k] == v.free[k]);
        assert(v.frames[v.free[k] as int].page == INVALID_PAGE_ID);
        if evicted == INVALID_PAGE_ID {
            assert(v.free[k] != v.free[v.free.len() - 1]);
        }
    }
    assert forall|j: int, k: int| 0 <= j < k < b.free.len() implies #[trigger] b.free[j]
        != #[trigger] b.free[k] by {
        assert(b.free[j] == v.free[j] && b.free[k] == v.free[k]);
    }
    assert forall|g: int| 0 <= g < b.frames.len() implies (#[trigger] b.frames[g]).data.len()
        == PAGE_SIZE by {
        if g != f {
            assert(v.frames[g].data.len() == PAGE_SIZE);
        }
    }
    assert(b.wf());
    assert forall|other: PageId| other != id && other.0 != evicted implies {
        &&& #[trigger] b.resident(other) == v.resident(other)
        &&& b.page(other) == v.page(other)
    } by {
        if v.resident(other) {
            assert(v.table[other.0] != f);
        }
    }
    if v.coherent() {
        assert forall|g: int|
            0 <= g < b.frames.len() && g != f && (#[trigger] b.frames[g]).page != INVALID_PAGE_ID
                && !b.frames[g].dirty implies b.frames[g].data
            == b.disk[b.frames[g].page as int] by {
            assert(v.frames[g].page != INVALID_PAGE_ID);
        }
        assert forall|other: PageId|
            other != id && other.0 < v.disk.len() implies #[trigger] b.page(other) == v.page(
            other,
        ) by {
            if other.0 == evicted {
                if evicted == INVALID_PAGE_ID {
                    assert(!v.resident(other));
                    assert(!b.resident(other));
                } else {
                    assert(v.table[evicted] == f);
                }
            } else {
                assert(b.resident(other) == v.resident(other));
            }
        }
    }
}

/// A frame that keeps its page and its bytes, and stays pinned if it was,
/// leaves the bookkeeping consistent and every page as it was.
pub proof fn lemma_frame_kept(v: PoolView, f: int, frame: FrameView)
    requires
        v.wf(),
        0 <= f < v.frames.len(),
        frame.page == v.frames[f].page,
        frame.data == v.frames[f].data,
        frame.page == INVALID_PAGE_ID ==> frame.pins == 0 && !frame.dirty,
    ensures
        v.with_frame(f, frame).wf(),
        v.same_frames_but(v.with_frame(f, frame), f),
        forall|id: PageId|
            #![trigger v.with_frame(f, frame).page(id)]
            #![trigger v.with_frame(f, frame).resident(id)]
            v.with_frame(f, frame).resident(id) == v.resident(id) && v.with_frame(f, frame).page(
                id,
            ) == v.page(id),
        v.coherent_but(f) ==> v.with_frame(f, frame).coherent_but(f),
        v.coherent() && (frame.dirty || !v.frames[f].dirty) ==> v.with_frame(f, frame).coherent(),
        v.coherent_but(f) && frame.dirty ==> v.with_frame(f, frame).coherent(),
{
    let w = v.with_frame(f, frame);
    assert forall|g: int|
        0 <= g < w.frames.len() && (#[trigger] w.frames[g]).page != INVALID_PAGE_ID implies {
        &&& w.table.contains_key(w.frames[g].page)
        &&& w.table[w.frames[g].page] == g
    } by {
        assert(v.frames[g].page != INVALID_PAGE_ID);
    }
    assert forall|g: int|
        0 <= g < w.frames.len() && (#[trigger] w.frames[g]).page == INVALID_PAGE_ID implies {
        &&& w.frames[g].pins == 0
        &&& !w.frames[g].dirty
        &&& w.free.contains(g as usize)
    } by {
        assert(v.frames[g].page == INVALID_PAGE_ID);
    }
    assert forall|g: int| 0 <= g < w.frames.len() implies (#[trigger] w.frames[g]).data.len()
        == PAGE_SIZE by {
        assert(v.frames[g].data.len() == PAGE_SIZE);
    }
    assert forall|id: u32| #[trigger] w.table.contains_key(id) implies {
        &&& id != INVALID_PAGE_ID
        &&& id < w.disk.len()
        &&& w.table[id] < w.frames.len()
        &&& w.frames[w.table[id] as int].page == id
    } by {
        assert(v.frames[v.table[id] as int].page == id);
    }
    assert forall|k: int| 0 <= k < w.free.len() implies {
        &&& (#[trigger] w.free[k]) < w.frames.len()
        &&& w.frames[w.free[k] as int].page == INVALID_PAGE_ID
    } by {
        assert(v.frames[v.free[k] as int].page == INVALID_PAGE_ID);
    }
    if v.coherent_but(f) {
        assert forall|g: int|
            0 <= g < w.frames.len() && g != f && (#[trigger] w.frames[g]).page != INVALID_PAGE_ID
                && !w.frames[g].dirty implies w.frames[g].data
            == w.disk[w.frames[g].page as int] by {
            assert(v.frames[g].page != INVALID_PAGE_ID);
        }
    }
    if v.coherent() {
        assert(v.coherent_but(f)) by {
            assert forall|g: int|
                0 <= g < v.frames.len() && g != f && (#[trigger] v.frames[g]).page
                    != INVALID_PAGE_ID && !v.frames[g].dirty implies v.frames[g].data
                == v.disk[v.frames[g].page as int] by {}
        }
    }
    if (v.coherent() && (frame.dirty || !v.frames[f].dirty)) || (v.coherent_but(f)
        && frame.dirty) {
        assert forall|g: int|
            0 <= g < w.frames.len() && (#[trigger] w.frames[g]).page != INVALID_PAGE_ID
                && !w.frames[g].dirty implies w.frames[g].data
            == w.disk[w.frames[g].page as int] by {
            assert(v.frames[g].page != INVALID_PAGE_ID);
        }
    }
}

/// New bytes in a frame that holds a page leave the bookkeeping consistent
/// and every other page as it was.
pub proof fn lemma_frame_written(v: PoolView, f: int, data: Seq<u8>)
    requires
        v.wf(),
        0 <= f < v.frames.len(),
        v.frames[f].page != INVALID_PAGE_ID,
        data.len() == PAGE_SIZE,
    ensures
        v.with_data(f, data).wf(),
        v.same_frames_but(v.with_data(f, data), f),
        v.with_data(f, data).page(PageId(v.frames[f].page)) == data,
        forall|id: PageId|
            id.0 != v.frames[f].page ==> #[trigger] v.with_data(f, data).page(id) == v.page(id),
        forall|id: PageId| #[trigger] v.with_data(f, data).resident(id) == v.resident(id),
        v.coherent_but(f) ==> v.with_data(f, data).coherent_but(f),
{
    let w = v.with_frame(f, FrameView { data, ..v.frames[f] });
    assert forall|g: int|
        0 <= g < w.frames.len() && (#[trigger] w.frames[g]).page != INVALID_PAGE_ID implies {
        &&& w.table.contains_key(w.frames[g].page)
        &&& w.table[w.frames[g].page] == g
    } by {
        assert(v.frames[g].page != INVALID_PAGE_ID);
    }
    assert forall|g: int|
        0 <= g < w.frames.len() && (#[trigger] w.frames[g]).page == INVALID_PAGE_ID implies {
        &&& w.frames[g].pins == 0
        &&& !w.frames[g].dirty
        &&& w.free.contains(g as usize)
    } by {
        assert(v.frames[g].page == INVALID_PAGE_ID);
    }
    assert forall|g: int| 0 <= g < w.frames.len() implies (#[trigger] w.frames[g]).data.len()
        == PAGE_SIZE by {
        assert(v.frames[g].data.len() == PAGE_SIZE);
    }
    assert forall|id: u32| #[trigger] w.table.contains_key(id) implies {
        &&& id != INVALID_PAGE_ID
        &&& id < w.disk.len()
        &&& w.table[id] < w.frames.len()
        &&& w.frames[w.table[id] as int].page == id
    } by {
        assert(v.frames[v.table[id] as int].page == id);
    }
    assert forall|k: int| 0 <= k < w.free.len() implies {
        &&& (#[trigger] w.free[k]) < w.frames.len()
        &&& w.frames[w.free[k] as int].page == INVALID_PAGE_ID
    } by {
        assert(v.frames[v.free[k] as int].page == INVALID_PAGE_ID);
    }
    assert(v.table[v.frames[f].page] == f);
    assert forall|id: PageId| id.0 != v.frames[f].page implies #[trigger] w.page(id) == v.page(
        id,
    ) by {
        if v.resident(id) {
            assert(v.frames[v.table[id.0] as int].page == id.0);
        }
    }
    if v.coherent_but(f) {
        assert forall|g: int|
            0 <= g < w.frames.len() && g != f && (#[trigger] w.frames[g]).page != INVALID_PAGE_ID
                && !w.frames[g].dirty implies w.frames[g].data
            == w.disk[w.frames[g].page as int] by {
            assert(v.frames[g].page != INVALID_PAGE_ID);
        }
    }
}

impl PinnedPage {
    /// The frame that holds the page.
    pub closed spec fn frame(self) -> FrameId {
        self.frame
    }

    /// The page that the handle pins.
    pub closed spec fn page(self) -> PageId {
        self.id
    }

    /// The identifier of the pinned page.
    pub fn id(&self) -> (id: PageId)
        ensures
            id == self.page(),
    {
        self.id
    }

    /// Marks the page as changed, so that it is written back before its frame
    /// is reused.
    pub fn dirty<D: DiskManager>(&self, pool: &mut BufferPool<D>)
        requires
            old(pool).wf(),
            old(pool)@.holds(*self),
        ensures
            final(pool).wf(),
            final(pool)@ == old(pool)@.with_frame(
                self.frame() as int,
                FrameView { dirty: true, ..old(pool)@.frames[self.frame() as int] },
            ),
            final(pool)@.holds(*self),
            old(pool)@.same_frames_but(final(pool)@, self.frame() as int),
            old(pool)@.coherent_but(self.frame() as int) ==> final(pool)@.coherent(),
            old(pool)@.coherent() ==> final(pool)@.coherent(),
            old(pool)@.same_pages(final(pool)@),
            old(pool)@.handles_kept(final(pool)@),
            final(pool)@.pins() == old(pool)@.pins(),
            final(pool)@.frames[self.frame() as int].dirty,
    {
        pool.frames[self.frame].dirty = true;
        proof {
            let marked = FrameView { dirty: true, ..old(pool)@.frames[self.frame as int] };
            assert(pool@.frames =~= old(pool)@.with_frame(self.frame as int, marked).frames);
            lemma_frame_kept(old(pool)@, self.frame as int, marked);
            assert(pool@.pins() =~= old(pool)@.pins());
        }
    }

    /// The number of outstanding handles to the page.
    pub fn pin_count<D: DiskManager>(&self, pool: &BufferPool<D>) -> (pins: usize)
        requires
            pool.wf(),
            pool@.holds(*self),
        ensures
            pins == pool@.frames[self.frame() as int].pins,
            pins >= 1,
    {
        pool.frames[self.frame].pin_count
    }

    /// The bytes of the page.
    pub fn read<'a, D: DiskManager>(&self, pool: &'a BufferPool<D>) -> (data: &'a PageData)
        requires
            pool.wf(),
            pool@.holds(*self),
        ensures
            data@ == pool@.frames[self.frame() as int].data,
            data@ == pool@.page(self.page()),
    {
        &pool.frames[self.frame].data
    }

    /// Replaces the bytes of the page by `data`. The page is not marked as
    /// changed.
    pub fn write<D: DiskManager>(&self, pool: &mut BufferPool<D>, data: &PageData)
        requires
            old(pool).wf(),
            old(pool)@.holds(*self),
        ensures
            final(pool).wf(),
            final(pool)@ == old(pool)@.with_data(self.frame() as int, data@),
            final(pool)@.holds(*self),
            final(pool)@.page(self.page()) == data@,
            old(pool)@.same_frames_but(final(pool)@, self.frame() as int),
            old(pool)@.coherent_but(self.frame() as int) ==> final(pool)@.coherent_but(
                self.frame() as int,
            ),
            old(pool)@.coherent() && old(pool)@.frames[self.frame() as int].dirty
                ==> final(pool)@.coherent(),
            old(pool)@.same_pages_but(final(pool)@, self.page()),
            forall|id: PageId| #[trigger] final(pool)@.resident(id) == old(pool)@.resident(id),
            old(pool)@.handles_kept(final(pool)@),
            final(pool)@.pins() == old(pool)@.pins(),
            final(pool)@.disk == old(pool)@.disk,
    {
        pool.frames[self.frame].data = *data;
        proof {
            assert(pool@.frames =~= old(pool)@.with_data(self.frame as int, data@).frames);
            lemma_frame_written(old(pool)@, self.frame as int, data@);
            assert(pool@.pins() =~= old(pool)@.pins());
            if old(pool)@.coherent() && old(pool)@.frames[self.frame as int].dirty {
                assert forall|f: int|
                    0 <= f < pool@.frames.len() && (#[trigger] pool@.frames[f]).page
                        != INVALID_PAGE_ID && !pool@.frames[f].dirty implies pool@.frames[f].data
                    == pool@.disk[pool@.frames[f].page as int] by {
                    assert(old(pool)@.frames[f].page != INVALID_PAGE_ID);
                }
            }
        }
    }

    /// Gives the handle back. The page may leave its frame once no handle to
    /// it is left.
    pub fn unpin<D: DiskManager>(self, pool: &mut BufferPool<D>)
        requires
            old(pool).wf(),
            old(pool)@.holds(self),
        ensures
            final(pool).wf(),
            final(pool)@ == old(pool)@.with_frame(
                self.frame() as int,
                FrameView {
                    pins: (old(pool)@.frames[self.frame() as int].pins - 1) as nat,
                    ..old(pool)@.frames[self.frame() as int]
                },
            ),
            old(pool)@.same_frames_but(final(pool)@, self.frame() as int),
            old(pool)@.coherent() ==> final(pool)@.coherent(),
            old(pool)@.coherent_but(self.frame() as int) ==> final(pool)@.coherent_but(
                self.frame() as int,
            ),
            old(pool)@.same_pages(final(pool)@),
            forall|id: PageId| #[trigger] final(pool)@.resident(id) == old(pool)@.resident(id),
            forall|other: PinnedPage|
                old(pool)@.holds(other) && (other.frame() != self.frame() || old(
                    pool,
                )@.frames[self.frame() as int].pins > 1) ==> #[trigger] final(pool)@.holds(other),
            final(pool)@.pins() == old(pool)@.pins().update(
                self.frame() as int,
                (old(pool)@.pins()[self.frame() as int] - 1) as nat,
            ),
            final(pool)@.disk == old(pool)@.disk,
    {
        pool.frames[self.frame].pin_count = pool.frames[self.frame].pin_count - 1;
        proof {
            let released = FrameView {
                pins: (old(pool)@.frames[self.frame as int].pins - 1) as nat,
                ..old(pool)@.frames[self.frame as int]
            };
            assert(pool@.frames =~= old(pool)@.with_frame(self.frame as int, released).frames);
            lemma_frame_kept(old(pool)@, self.frame as int, released);
            assert(pool@.pins() =~= old(pool)@.pins().update(
                self.frame as int,
                (old(pool)@.pins()[self.frame as int] - 1) as nat,
            ));
        }
    }
}

/// A pool of frames over the block device `D`.
pub struct BufferPool<D: DiskManager> {
    capacity: usize,
    frames: Vec<Page>,
    disk_manager: D,
    page_table: HashMap<u32, FrameId>,
    free_frames: Vec<FrameId>,
    ref_flag: RefFlags,
    clock_hand: usize,
}

impl<D: DiskManager> View for BufferPool<D> {
    type V = PoolView;

    closed spec fn view(&self) -> PoolView {
        PoolView {
            frames: Seq::new(
                self.frames@.len(),
                |f: int|
                    FrameView {
                        page: self.frames@[f].id.0,
                        dirty: self.frames@[f].dirty,
                        pins: self.frames@[f].pin_count as nat,
                        referenced: ref_bits(self.ref_flag)[f],
                        data: self.frames@[f].data@,
                    },
            ),
            table: self.page_table@,
            free: self.free_frames@,
            clock_hand: self.clock_hand,
            disk: self.disk_manager.pages(),
            reliable: self.disk_manager.reliable(),
        }
    }
}

impl<D: DiskManager> BufferPool<D> {
    /// Whether the parts of the pool fit together.
    pub closed spec fn inv(&self) -> bool {
        &&& self.capacity == self.frames@.len()
        &&& ref_bits(self.ref_flag).len() == self.capacity
    }

    /// Whether the pool is consistent, see [`PoolView::wf`].
    pub open spec fn wf(&self) -> bool {
        &&& self.inv()
        &&& self@.wf()
    }

    /// A pool of `capacity` empty frames over `disk_manager`.
    pub fn new(disk_manager: D, capacity: usize) -> (pool: Self)
        requires
            capacity <= usize::MAX / 8,
        ensures
            pool.wf(),
            pool@.frames.len() == capacity,
            forall|f: int|
                0 <= f < capacity ==> #[trigger] pool@.frames[f] == (FrameView {
                    page: INVALID_PAGE_ID,
                    dirty: false,
                    pins: 0,
                    referenced: false,
                    data: Seq::new(PAGE_SIZE as nat, |i: int| 0u8),
                }),
            pool@.table == Map::<u32, usize>::empty(),
            pool@.free == Seq::new(capacity as nat, |k: int| k as usize),
            pool@.clock_hand == 0,
            pool@.disk == disk_manager.pages(),
            pool@.reliable == disk_manager.reliable(),
            pool@.coherent(),
    {
        let mut frames: Vec<Page> = Vec::with_capacity(capacity);
        let mut free_frames: Vec<FrameId> = Vec::with_capacity(capacity);
        let mut i: usize = 0;
        while i < capacity
            invariant
                i <= capacity,
                frames@.len() == i,
                free_frames@.len() == i,
                forall|f: int|
                    0 <= f < i ==> {
                        &&& (#[trigger] frames@[f]).id.0 == INVALID_PAGE_ID
                        &&& !frames@[f].dirty
                        &&& frames@[f].pin_count == 0
                        &&& frames@[f].data@ == Seq::new(PAGE_SIZE as nat, |i: int| 0u8)
                    },
                forall|k: int| 0 <= k < i ==> #[trigger] free_frames@[k] == k,
            decreases capacity - i,
        {
            let data: PageData = [0; PAGE_SIZE];
            assert(data@ =~= Seq::new(PAGE_SIZE as nat, |i: int| 0u8));
            frames.push(Page { id: PageId::invalid(), dirty: false, pin_count: 0, data });
            free_frames.push(i);
            i += 1;
        }
        let pool = BufferPool {
            capacity,
            frames,
            disk_manager,
            page_table: HashMap::with_capacity(capacity),
            free_frames,
            ref_flag: ref_flags_cleared(capacity),
            clock_hand: 0,
        };
        proof {
            assert(pool@.free =~= Seq::new(capacity as nat, |k: int| k as usize));
            assert(pool@.table =~= Map::<u32, usize>::empty());
            assert forall|f: int|
                0 <= f < pool@.frames.len() && (#[trigger] pool@.frames[f]).page
                    == INVALID_PAGE_ID implies pool@.free.contains(f as usize) by {
                assert(pool@.free[f] == f as usize);
            }
        }
        pool
    }

    /// Whether page `page_id` is in a frame.
    pub fn is_page_in_memory(&self, page_id: PageId) -> (resident: bool)
        ensures
            resident == self@.resident(page_id),
    {
        self.page_table.contains_key(&page_id.0)
    }

    /// Picks an unpinned frame by the CLOCK policy, sweeping the frames at most
    /// twice from the clock hand on.
    ///
    /// One turn clears every reference bit that stands in the way, so the
    /// second turn finds a victim if any frame is unpinned.
    pub fn find_victim(&mut self) -> (victim: Result<FrameId, Error>)
        requires
            old(self).wf(),
        ensures
            final(self).wf(),
            old(self)@.swept_to(final(self)@),
            old(self)@.sweep(2 * old(self)@.frames.len()) == (
                match victim {
                    Ok(frame) => Some(frame),
                    Err(_) => None,
                },
                final(self)@,
            ),
            victim is Err <==> old(self)@.all_pinned(),
            victim matches Err(error) ==> error is NoFreeFrames && final(self)@ == old(self)@,
            victim matches Ok(frame) ==> {
                &&& frame < final(self)@.frames.len()
                &&& final(self)@.clock_hand == frame
                &&& final(self)@.frames[frame as int].pins == 0
                &&& !final(self)@.frames[frame as int].referenced
            },
    {
        let ghost start = self@;
        let limit = self.capacity * 2;
        let mut i: usize = 0;
        while i < limit
            invariant
                self.wf(),
                start.wf(),
                start == old(self)@,
                limit == 2 * self.capacity,
                self.capacity == start.frames.len(),
                i <= limit,
                start.swept_to(self@),
                start.sweep(limit as nat) == self@.sweep((limit - i) as nat),
                self@.clock_hand == start.clock_hand + i || self@.clock_hand == start.clock_hand
                    + i - self.capacity || self@.clock_hand == start.clock_hand + i - 2
                    * self.capacity,
                forall|f: int|
                    0 <= f < self.capacity && back_distance(
                        f,
                        self@.clock_hand as int,
                        self.capacity as int,
                    ) <= i ==> (#[trigger] self@.frames[f]).pins > 0 || !self@.frames[f].referenced,
                forall|f: int|
                    0 <= f < self.capacity && back_distance(
                        f,
                        self@.clock_hand as int,
                        self.capacity as int,
                    ) + self.capacity <= i ==> (#[trigger] self@.frames[f]).pins > 0,
            decreases limit - i,
        {
            let hand = self.clock_hand;
            let ghost before = self@;
            if self.frames[hand].pin_count == 0 {
                match ref_flags_get(&self.ref_flag, hand) {
                    Some(true) => {
                        ref_flags_set(&mut self.ref_flag, hand, false);
                        proof {
                            assert(self@.frames =~= before.frames.update(
                                hand as int,
                                before.frames[hand as int].unreferenced(),
                            ));
                        }
                    },
                    _ => {
                        return Ok(hand);
                    },
                }
            } else {
                proof {
                    assert(self@.frames =~= before.frames);
                }
            }
            i += 1;
            self.clock_hand = if self.clock_hand + 1 == self.capacity {
                0
            } else {
                self.clock_hand + 1
            };
            proof {
                let next = PoolView {
                    frames: self@.frames,
                    clock_hand: self@.clock_hand,
                    ..before
                };
                assert(self@ == next);
                assert forall|f: int| 0 <= f < self@.frames.len() implies {
                    &&& (#[trigger] self@.frames[f]).same_but_reference(start.frames[f])
                    &&& self@.frames[f].referenced ==> start.frames[f].referenced
                    &&& start.frames[f].pins > 0 ==> self@.frames[f].referenced
                        == start.frames[f].referenced
                } by {
                    assert(before.frames[f].same_but_reference(start.frames[f]));
                }
                assert forall|f: int|
                    0 <= f < self@.frames.len() && (#[trigger] self@.frames[f]).page
                        != INVALID_PAGE_ID implies {
                    &&& self@.table.contains_key(self@.frames[f].page)
                    &&& self@.table[self@.frames[f].page] == f
                } by {
                    assert(before.frames[f].page != INVALID_PAGE_ID);
                }
                assert forall|f: int|
                    0 <= f < self@.frames.len() && (#[trigger] self@.frames[f]).page
                        == INVALID_PAGE_ID implies {
                    &&& self@.frames[f].pins == 0
                    &&& !self@.frames[f].dirty
                    &&& self@.free.contains(f as usize)
                } by {
                    assert(before.frames[f].page == INVALID_PAGE_ID);
                }
                assert forall|f: int|
                    0 <= f < self.capacity && back_distance(
                        f,
                        self@.clock_hand as int,
                        self.capacity as int,
                    ) <= i implies (#[trigger] self@.frames[f]).pins > 0
                    || !self@.frames[f].referenced by {
                    if f != hand {
                        assert(before.frames[f].pins > 0 || !before.frames[f].referenced);
                    }
                }
                assert forall|f: int|
                    0 <= f < self.capacity && back_distance(
                        f,
                        self@.clock_hand as int,
                        self.capacity as int,
                    ) + self.capacity <= i implies (#[trigger] self@.frames[f]).pins > 0 by {
                    if f != hand {
                        assert(before.frames[f].pins > 0);
                    } else {
                        assert(before.frames[f].pins > 0 || !before.frames[f].referenced);
                    }
                }
            }
        }
        proof {
            assert forall|f: int| 0 <= f < start.frames.len() implies (#[trigger] start.frames[f]).pins
                > 0 by {
                assert(self@.frames[f].pins > 0);
            }
            assert forall|f: int| 0 <= f < start.frames.len() implies self@.frames[f]
                == start.frames[f] by {
                assert(self@.frames[f].same_but_reference(start.frames[f]));
            }
            assert(self@.frames =~= start.frames);
        }
        Err(Error::NoFreeFrames)
    }

    /// Finds the frame that takes the next page: the last frame of the free
    /// list, or where the list is empty the CLOCK victim, whose page is
    /// written back first if it is dirty.
    ///
    /// The frame keeps what it holds; no page enters or leaves the pool.
    pub fn get_free_frame(&mut self) -> (frame: Result<FrameId, Error>)
        requires
            old(self).wf(),
        ensures
            final(self).wf(),
            old(self)@.same_cache(final(self)@),
            old(self)@.coherent() ==> final(self)@.coherent(),
            forall|id: PageId|
                id.0 < old(self)@.disk.len() ==> #[trigger] final(self)@.page(id) == old(
                    self,
                )@.page(id),
            frame matches Err(Error::NoFreeFrames) <==> old(self)@.all_pinned(),
            frame matches Err(Error::NoFreeFrames) ==> final(self)@ == old(self)@,
            old(self)@.reliable ==> (frame is Ok <==> !old(self)@.all_pinned()),
            frame matches Err(Error::IOError(_)) ==> {
                &&& old(self)@.free.len() == 0
                &&& old(self)@.sweep(2 * old(self)@.frames.len()).0 matches Some(victim)
                &&& old(self)@.frames[victim as int].dirty
                &&& final(self)@.frames == old(self)@.sweep(2 * old(self)@.frames.len()).1.frames
                &&& final(self)@.clock_hand == old(self)@.sweep(
                    2 * old(self)@.frames.len(),
                ).1.clock_hand
                &&& forall|i: int|
                    0 <= i < old(self)@.disk.len() && i != old(self)@.frames[victim as int].page
                        ==> final(self)@.disk[i] == old(self)@.disk[i]
            },
            frame matches Ok(f) ==> {
                &&& old(self)@.selected() == Some((f, final(self)@))
                &&& f < final(self)@.frames.len()
                &&& final(self)@.frames[f as int].pins == 0
                &&& !final(self)@.frames[f as int].dirty
                &&& final(self)@.frames[f as int].page == INVALID_PAGE_ID ==> final(self)@.free.len()
                    > 0 && final(self)@.free.last() == f
            },
    {
        let free = self.free_frames.len();
        if free > 0 {
            let frame = self.free_frames[free - 1];
            proof {
                assert(self@.frames[frame as int].page == INVALID_PAGE_ID);
            }
            return Ok(frame);
        }
        let ghost start = self@;
        let frame = match self.find_victim() {
            Ok(frame) => frame,
            Err(error) => {
                return Err(error);
            },
        };
        let ghost swept = self@;
        proof {
            assert(swept.frames[frame as int].same_but_reference(start.frames[frame as int]));
            assert(swept.frames[frame as int].page != INVALID_PAGE_ID) by {
                if start.frames[frame as int].page == INVALID_PAGE_ID {
                    assert(start.free.contains(frame));
                }
            }
            assert(!start.all_pinned());
            assert forall|id: PageId| id.0 < start.disk.len() implies #[trigger] swept.page(id)
                == start.page(id) by {
                if start.resident(id) {
                    assert(swept.frames[start.table[id.0] as int].same_but_reference(
                        start.frames[start.table[id.0] as int],
                    ));
                }
            }
            assert(start.coherent() ==> swept.coherent()) by {
                if start.coherent() {
                    assert forall|f: int|
                        0 <= f < swept.frames.len() && (#[trigger] swept.frames[f]).page
                            != INVALID_PAGE_ID && !swept.frames[f].dirty implies swept.frames[f].data
                        == swept.disk[swept.frames[f].page as int] by {
                        assert(swept.frames[f].same_but_reference(start.frames[f]));
                    }
                }
            }
        }
        if self.frames[frame].dirty {
            let page_id = self.frames[frame].id;
            match self.disk_manager.write_page(page_id, &self.frames[frame].data) {
                Ok(()) => {},
                Err(error) => {
                    proof {
                        assert(self@.frames =~= swept.frames);
                        assert forall|id: PageId|
                            id.0 < start.disk.len() implies #[trigger] self@.page(id)
                            == swept.page(id) by {
                            if !swept.resident(id) {
                                assert(id.0 != page_id.0);
                            }
                        }
                        assert(swept.coherent() ==> self@.coherent()) by {
                            if swept.coherent() {
                                assert forall|f: int|
                                    0 <= f < self@.frames.len() && (#[trigger] self@.frames[f]).page
                                        != INVALID_PAGE_ID && !self@.frames[f].dirty implies self@.frames[f].data
                                    == self@.disk[self@.frames[f].page as int] by {
                                    assert(swept.frames[f].page != INVALID_PAGE_ID);
                                    assert(f != frame);
                                }
                            }
                        }
                    }
                    return Err(Error::IOError(error));
                },
            }
            self.frames[frame].dirty = false;
        }
        proof {
            let ready = swept.written_back(frame as int);
            assert(self@.frames =~= ready.frames);
            assert(self@.disk =~= ready.disk);
            assert(self@ == ready);
            assert forall|f: int|
                0 <= f < self@.frames.len() && (#[trigger] self@.frames[f]).page
                    != INVALID_PAGE_ID implies {
                &&& self@.table.contains_key(self@.frames[f].page)
                &&& self@.table[self@.frames[f].page] == f
            } by {
                assert(swept.frames[f].page != INVALID_PAGE_ID);
            }
            assert forall|f: int|
                0 <= f < self@.frames.len() && (#[trigger] self@.frames[f]).page
                    == INVALID_PAGE_ID implies {
                &&& self@.frames[f].pins == 0
                &&& !self@.frames[f].dirty
                &&& self@.free.contains(f as usize)
            } by {
                assert(swept.frames[f].page == INVALID_PAGE_ID);
            }
            assert forall|f: int| 0 <= f < start.frames.len() implies {
                &&& (#[trigger] self@.frames[f]).page == start.frames[f].page
                &&& self@.frames[f].pins == start.frames[f].pins
                &&& self@.frames[f].data == start.frames[f].data
                &&& self@.frames[f].dirty ==> start.frames[f].dirty
                &&& start.frames[f].pins > 0 ==> self@.frames[f].dirty == start.frames[f].dirty
            } by {
                assert(swept.frames[f].same_but_reference(start.frames[f]));
            }
            assert forall|id: PageId| id.0 < start.disk.len() implies #[trigger] self@.page(id)
                == swept.page(id) by {
                if !swept.resident(id) {
                    assert(id.0 != swept.frames[frame as int].page);
                }
            }
            assert(swept.coherent() ==> self@.coherent()) by {
                if swept.coherent() {
                    assert forall|f: int|
                        0 <= f < self@.frames.len() && (#[trigger] self@.frames[f]).page
                            != INVALID_PAGE_ID && !self@.frames[f].dirty implies self@.frames[f].data
                        == self@.disk[self@.frames[f].page as int] by {
                        assert(swept.frames[f].page != INVALID_PAGE_ID);
                        if f != frame {
                            assert(swept.table[swept.frames[f].page] == f);
                            assert(swept.frames[f].page != swept.frames[frame as int].page);
                        }
                    }
                }
            }
        }
        Ok(frame)
    }

    /// Gives frame `frame`, which is ready, to page `page_id` with the bytes
    /// `data`, and pins it once.
    fn bind(&mut self, frame: FrameId, page_id: PageId, data: &PageData) -> (pin: PinnedPage)
        requires
            old(self).wf(),
            frame < old(self)@.frames.len(),
            old(self)@.frames[frame as int].pins == 0,
            !old(self)@.frames[frame as int].dirty,
            old(self)@.frames[frame as int].page == INVALID_PAGE_ID ==> old(self)@.free.len() > 0
                && old(self)@.free.last() == frame,
            page_id.0 != INVALID_PAGE_ID,
            page_id.0 < old(self)@.disk.len(),
            !old(self)@.resident(page_id),
        ensures
            final(self).wf(),
            final(self)@ == old(self)@.bound(frame as int, page_id, data@),
            pin.frame() == frame,
            pin.page() == page_id,
    {
        let held = self.frames[frame].id;
        if held.is_valid() {
            self.page_table.remove(&held.0);
        } else {
            self.free_frames.pop();
        }
        self.frames[frame].id = page_id;
        self.frames[frame].dirty = false;
        self.frames[frame].pin_count = 1;
        self.frames[frame].data = *data;
        self.page_table.insert(page_id.0, frame);
        ref_flags_set(&mut self.ref_flag, frame, true);
        proof {
            let bound = old(self)@.bound(frame as int, page_id, data@);
            assert(self@.frames =~= bound.frames);
            assert(self@.table =~= bound.table);
            assert(self@.free =~= bound.free);
            assert(self@ == bound);
            lemma_bound(old(self)@, frame as int, page_id, data@);
        }
        PinnedPage { frame, id: page_id }
    }

    /// Adds a page to the device and brings it into the pool, zeroed and
    /// pinned once.
    pub fn allocate_page(&mut self) -> (page: Result<PinnedPage, Error>)
        requires
            old(self).wf(),
            old(self)@.disk.len() < INVALID_PAGE_ID,
        ensures
            final(self).wf(),
            page matches Err(Error::NoFreeFrames) <==> old(self)@.all_pinned(),
            page matches Err(Error::NoFreeFrames) ==> final(self)@ == old(self)@,
            old(self)@.reliable ==> (page is Ok <==> !old(self)@.all_pinned()),
            final(self)@.reliable == old(self)@.reliable,
            old(self)@.pinned_stay(final(self)@),
            old(self)@.handles_kept(final(self)@),
            page is Err ==> {
                &&& old(self)@.same_cache(final(self)@)
                &&& old(self)@.coherent() ==> final(self)@.coherent()
                &&& old(self)@.same_pages(final(self)@)
                &&& final(self)@.pins() == old(self)@.pins()
            },
            page matches Ok(pin) ==> final(self)@.pins() == old(self)@.pins().update(
                pin.frame() as int,
                old(self)@.pins()[pin.frame() as int] + 1,
            ),
            page matches Ok(pin) ==> old(self)@.table_gained(
                final(self)@,
                pin.page(),
                pin.frame(),
            ),
            page matches Ok(pin) ==> {
                &&& old(self)@.selected() matches Some((frame, ready))
                &&& pin.frame() == frame
                &&& pin.page().0 == old(self)@.disk.len()
                &&& final(self)@.disk.len() == old(self)@.disk.len() + 1
                &&& forall|i: int|
                    0 <= i < old(self)@.disk.len() ==> final(self)@.disk[i] == ready.disk[i]
                &&& final(self)@ == ready.with_disk(final(self)@.disk).bound(
                    frame as int,
                    pin.page(),
                    Seq::new(PAGE_SIZE as nat, |i: int| 0u8),
                )
                &&& final(self)@.holds(pin)
                &&& final(self)@.frames[frame as int].pins == 1
                &&& !final(self)@.frames[frame as int].dirty
                &&& final(self)@.page(pin.page()) == Seq::new(PAGE_SIZE as nat, |i: int| 0u8)
                &&& old(self)@.frames[frame as int].pins == 0
                &&& old(self)@.same_frames_but(final(self)@, frame as int)
                &&& old(self)@.coherent() ==> final(self)@.coherent_but(frame as int)
                &&& old(self)@.coherent() ==> old(self)@.same_pages(final(self)@)
            },
    {
        let frame = match self.get_free_frame() {
            Ok(frame) => frame,
            Err(error) => {
                proof {
                    assert(self@.pins() =~= old(self)@.pins());
                }
                return Err(error);
            },
        };
        let ghost ready = self@;
        proof {
            assert(ready.pins() =~= old(self)@.pins());
        }
        let page_id = match self.disk_manager.allocate_page() {
            Ok(page_id) => page_id,
            Err(error) => {
                proof {
                    assert(self@ == ready);
                }
                return Err(Error::IOError(error));
            },
        };
        let ghost grown = self@;
        let data: PageData = [0; PAGE_SIZE];
        proof {
            assert(data@ =~= Seq::new(PAGE_SIZE as nat, |i: int| 0u8));
            assert(grown == ready.with_disk(grown.disk));
            assert(grown.wf());
            assert(!grown.resident(page_id));
            lemma_bound(grown, frame as int, page_id, data@);
            assert(ready.coherent() ==> grown.coherent());
            assert forall|id: PageId| id.0 < ready.disk.len() implies #[trigger] grown.page(id)
                == ready.page(id) by {}
        }
        let pin = self.bind(frame, page_id, &data);
        proof {
            assert forall|f: int| 0 <= f < old(self)@.frames.len() && f != frame implies {
                &&& (#[trigger] self@.frames[f]).page == old(self)@.frames[f].page
                &&& self@.frames[f].pins == old(self)@.frames[f].pins
                &&& self@.frames[f].data == old(self)@.frames[f].data
                &&& self@.frames[f].dirty ==> old(self)@.frames[f].dirty
                &&& old(self)@.frames[f].pins > 0 ==> self@.frames[f].dirty
                    == old(self)@.frames[f].dirty
            } by {
                assert(grown.frames[f].page == old(self)@.frames[f].page);
            }
            if old(self)@.coherent() {
                assert forall|id: PageId| id.0 < old(self)@.disk.len() implies #[trigger] self@.page(
                    id,
                ) == old(self)@.page(id) by {
                    assert(grown.page(id) == ready.page(id));
                    assert(ready.page(id) == old(self)@.page(id));
                }
            }
            assert(self@.pins() =~= old(self)@.pins().update(
                frame as int,
                old(self)@.pins()[frame as int] + 1,
            ));
            assert forall|other: PinnedPage| old(self)@.holds(other) implies #[trigger] self@.holds(
                other,
            ) by {
                assert(other.frame() != frame);
            }
        }
        Ok(pin)
    }

    /// Pins page `page_id`, reading it from the device into a frame if it is
    /// not resident.
    pub fn get_page(&mut self, page_id: PageId) -> (page: Result<PinnedPage, Error>)
        requires
            old(self).wf(),
            page_id.0 != INVALID_PAGE_ID,
            page_id.0 < old(self)@.disk.len(),
            old(self)@.resident(page_id) ==> old(self)@.frames[old(self)@.table[page_id.0] as int].pins
                < usize::MAX,
        ensures
            final(self).wf(),
            page matches Err(Error::NoFreeFrames) <==> !old(self)@.resident(page_id) && old(
                self,
            )@.all_pinned(),
            page matches Err(Error::NoFreeFrames) ==> final(self)@ == old(self)@,
            old(self)@.reliable ==> (page is Ok <==> old(self)@.resident(page_id) || !old(
                self,
            )@.all_pinned()),
            final(self)@.reliable == old(self)@.reliable,
            old(self)@.pinned_stay(final(self)@),
            old(self)@.handles_kept(final(self)@),
            page is Err ==> {
                &&& !old(self)@.resident(page_id)
                &&& old(self)@.same_cache(final(self)@)
                &&& old(self)@.coherent() ==> final(self)@.coherent()
                &&& old(self)@.same_pages(final(self)@)
                &&& final(self)@.pins() == old(self)@.pins()
            },
            page matches Ok(pin) ==> final(self)@.pins() == old(self)@.pins().update(
                pin.frame() as int,
                old(self)@.pins()[pin.frame() as int] + 1,
            ),
            page matches Ok(pin) ==> old(self)@.table_gained(
                final(self)@,
                pin.page(),
                pin.frame(),
            ),
            page matches Ok(pin) ==> {
                &&& pin.page() == page_id
                &&& final(self)@.holds(pin)
                &&& final(self)@.resident(page_id)
                &&& final(self)@.table[page_id.0] == pin.frame()
                &&& final(self)@.page(page_id) == old(self)@.page(page_id)
                &&& final(self)@.frames[pin.frame() as int].referenced
                &&& old(self)@.same_frames_but(final(self)@, pin.frame() as int)
                &&& final(self)@.disk.len() == old(self)@.disk.len()
                &&& old(self)@.resident(page_id) ==> {
                    &&& pin.frame() == old(self)@.table[page_id.0]
                    &&& final(self)@ == old(self)@.with_frame(
                        pin.frame() as int,
                        FrameView {
                            pins: old(self)@.frames[pin.frame() as int].pins + 1,
                            referenced: true,
                            ..old(self)@.frames[pin.frame() as int]
                        },
                    )
                }
                &&& !old(self)@.resident(page_id) ==> {
                    &&& old(self)@.selected() matches Some((frame, ready))
                    &&& pin.frame() == frame
                    &&& old(self)@.frames[frame as int].pins == 0
                    &&& final(self)@ == ready.bound(
                        frame as int,
                        page_id,
                        old(self)@.disk[page_id.0 as int],
                    )
                }
                &&& old(self)@.coherent() ==> final(self)@.coherent()
                &&& old(self)@.coherent() ==> old(self)@.same_pages(final(self)@)
            },
    {
        match self.page_table.get(&page_id.0) {
            Some(found) => {
                let frame = *found;
                self.frames[frame].pin_count = self.frames[frame].pin_count + 1;
                ref_flags_set(&mut self.ref_flag, frame, true);
                proof {
                    let pinned = old(self)@.with_frame(
                        frame as int,
                        FrameView {
                            pins: old(self)@.frames[frame as int].pins + 1,
                            referenced: true,
                            ..old(self)@.frames[frame as int]
                        },
                    );
                    assert(self@.frames =~= pinned.frames);
                    assert(self@ == pinned);
                    lemma_frame_kept(old(self)@, frame as int, pinned.frames[frame as int]);
                    assert(self@.pins() =~= old(self)@.pins().update(
                        frame as int,
                        old(self)@.pins()[frame as int] + 1,
                    ));
                }
                return Ok(PinnedPage { frame, id: page_id });
            },
            None => {},
        }
        let frame = match self.get_free_frame() {
            Ok(frame) => frame,
            Err(error) => {
                proof {
                    assert(self@.pins() =~= old(self)@.pins());
                }
                return Err(error);
            },
        };
        let ghost ready = self@;
        proof {
            assert(ready.pins() =~= old(self)@.pins());
        }
        let mut data: PageData = [0; PAGE_SIZE];
        match self.disk_manager.read_page(page_id, &mut data) {
            Ok(()) => {},
            Err(error) => {
                proof {
                    assert(self@ == ready);
                }
                return Err(Error::IOError(error));
            },
        }
        proof {
            assert(self@ == ready);
            assert(ready.page(page_id) == old(self)@.page(page_id));
            lemma_bound(ready, frame as int, page_id, data@);
        }
        let pin = self.bind(frame, page_id, &data);
        proof {
            assert forall|f: int| 0 <= f < old(self)@.frames.len() && f != frame implies {
                &&& (#[trigger] self@.frames[f]).page == old(self)@.frames[f].page
                &&& self@.frames[f].pins == old(self)@.frames[f].pins
                &&& self@.frames[f].data == old(self)@.frames[f].data
                &&& self@.frames[f].dirty ==> old(self)@.frames[f].dirty
                &&& old(self)@.frames[f].pins > 0 ==> self@.frames[f].dirty
                    == old(self)@.frames[f].dirty
            } by {
                assert(ready.frames[f].page == old(self)@.frames[f].page);
            }
            if old(self)@.coherent() {
                assert forall|f: int|
                    0 <= f < self@.frames.len() && (#[trigger] self@.frames[f]).page
                        != INVALID_PAGE_ID && !self@.frames[f].dirty implies self@.frames[f].data
                    == self@.disk[self@.frames[f].page as int] by {}
                assert forall|id: PageId| id.0 < old(self)@.disk.len() implies #[trigger] self@.page(
                    id,
                ) == old(self)@.page(id) by {
                    assert(ready.page(id) == old(self)@.page(id));
                }
            }
            assert(self@.pins() =~= old(self)@.pins().update(
                frame as int,
                old(self)@.pins()[frame as int] + 1,
            ));
            assert forall|other: PinnedPage| old(self)@.holds(other) implies #[trigger] self@.holds(
                other,
            ) by {
                assert(other.frame() != frame);
            }
        }
        Ok(pin)
    }

    /// The page, the dirty flag and the pin count of every frame, by frame.
    pub fn dump_state(&self) -> (state: Vec<(PageId, bool, usize)>)
        requires
            self.wf(),
        ensures
            state@.len() == self@.frames.len(),
            forall|f: int|
                0 <= f < state@.len() ==> {
                    &&& (#[trigger] state@[f]).0.0 == self@.frames[f].page
                    &&& state@[f].1 == self@.frames[f].dirty
                    &&& state@[f].2 == self@.frames[f].pins
                },
    {
        let mut state: Vec<(PageId, bool, usize)> = Vec::new();
        let mut index: usize = 0;
        while index < self.capacity
            invariant
                self.wf(),
                index <= self.capacity,
                state@.len() == index,
                forall|f: int|
                    0 <= f < index ==> {
                        &&& (#[trigger] state@[f]).0.0 == self@.frames[f].page
                        &&& state@[f].1 == self@.frames[f].dirty
                        &&& state@[f].2 == self@.frames[f].pins
                    },
            decreases self.capacity - index,
        {
            let frame = &self.frames[index];
            state.push((frame.id, frame.dirty, frame.pin_count));
            index += 1;
        }
        state
    }

    /// Whether `pin` is a good handle: its frame holds its page and is
    /// pinned.
    pub fn holds(&self, pin: &PinnedPage) -> (good: bool)
        requires
            self.wf(),
        ensures
            good == self@.holds(*pin),
    {
        pin.frame < self.capacity && pin.id.0 != INVALID_PAGE_ID && self.frames[pin.frame].id.0
            == pin.id.0 && self.frames[pin.frame].pin_count > 0
    }

    /// The number of pages of the device. A page can be pinned if its
    /// identifier is below it.
    pub fn page_count(&self) -> (count: usize)
        ensures
            count == self@.disk.len(),
    {
        self.disk_manager.page_count()
    }

    /// The number of frames.
    pub fn capacity(&self) -> (capacity: usize)
        requires
            self.wf(),
        ensures
            capacity == self@.frames.len(),
    {
        self.capacity
    }
}

/// Where every frame is pinned once one frame has got pins, all frames but
/// that one were pinned before.
pub proof fn lemma_pinned_but_one(a: PoolView, b: PoolView, f: int, pins: nat)
    requires
        0 <= f < a.frames.len(),
        b.pins() == a.pins().update(f, pins),
        b.all_pinned(),
    ensures
        a.all_pinned_but_one(),
{
    assert(a.pins().len() == a.frames.len());
    assert(b.pins().len() == b.frames.len());
    assert(a.pins().update(f, pins).len() == a.pins().len());
    assert forall|g: int, h: int| 0 <= g < h < a.frames.len() implies (#[trigger] a.frames[g]).pins
        > 0 || (#[trigger] a.frames[h]).pins > 0 by {
        assert(b.frames[g].pins > 0 && b.frames[h].pins > 0);
        assert(a.pins()[g] == a.frames[g].pins && b.pins()[g] == b.frames[g].pins);
        assert(a.pins()[h] == a.frames[h].pins && b.pins()[h] == b.frames[h].pins);
    }
}

/// Two frames that are unpinned stay so while other frames get pins.
pub proof fn lemma_two_stay_unpinned(a: PoolView, b: PoolView, fa: int, fb: int)
    requires
        a.two_unpinned_besides(fa, fb),
        b.pins().len() == a.pins().len(),
        forall|g: int|
            0 <= g < a.pins().len() && g != fa && g != fb ==> #[trigger] b.pins()[g] == a.pins()[g],
    ensures
        !b.all_pinned_but_one(),
{
    assert(a.pins().len() == a.frames.len());
    assert(b.pins().len() == b.frames.len());
    let (f, g) = choose|f: int, g: int|
        0 <= f < g < a.frames.len() && f != fa && f != fb && g != fa && g != fb
            && (#[trigger] a.frames[f]).pins == 0 && (#[trigger] a.frames[g]).pins == 0;
    assert(a.pins()[f] == a.frames[f].pins && b.pins()[f] == b.frames[f].pins);
    assert(a.pins()[g] == a.frames[g].pins && b.pins()[g] == b.frames[g].pins);
    assert(b.frames[f].pins == 0 && b.frames[g].pins == 0);
}

/// A page to which a handle is good is in the frame of the handle.
pub proof fn lemma_held_resident(v: PoolView, pin: PinnedPage)
    requires
        v.wf(),
        v.holds(pin),
    ensures
        v.resident(pin.page()),
        v.table[pin.page().0] == pin.frame(),
        v.frames[v.table[pin.page().0] as int].pins > 0,
{
    assert(v.frames[pin.frame() as int].page != INVALID_PAGE_ID);
}

/// Pages that stay through one step, in which a frame gets pins, and through
/// the next stay through both.
pub proof fn lemma_pinned_stay_on(a: PoolView, b: PoolView, c: PoolView, f: int, pins: nat)
    requires
        a.wf(),
        0 <= f < a.frames.len(),
        pins > 0,
        b.pins() == a.pins().update(f, pins),
        a.pinned_stay(b),
        b.pinned_stay(c),
    ensures
        a.pinned_stay(c),
{
    assert(a.pins().len() == a.frames.len());
    assert(b.pins().len() == b.frames.len());
    assert(a.pins().update(f, pins).len() == a.pins().len());
    assert forall|id: PageId|
        a.resident(id) && a.frames[a.table[id.0] as int].pins > 0 implies #[trigger] c.resident(
        id,
    ) && c.table[id.0] == a.table[id.0] by {
        let g = a.table[id.0] as int;
        assert(a.table.contains_key(id.0));
        assert(0 <= g < a.frames.len());
        assert(b.resident(id) && b.table[id.0] == a.table[id.0]);
        assert(a.pins()[g] == a.frames[g].pins);
        assert(b.pins()[g] == b.frames[g].pins);
        assert(b.frames[b.table[id.0] as int].pins > 0);
    }
}

/// Where at most one frame is unpinned, every frame is pinned once an
/// unpinned frame has got a pin.
pub proof fn lemma_last_frame_pinned(a: PoolView, b: PoolView, f: int, pins: nat)
    requires
        0 <= f < a.frames.len(),
        a.pins()[f] == 0,
        pins > 0,
        b.pins() == a.pins().update(f, pins),
        a.all_pinned_but_one(),
    ensures
        b.all_pinned(),
{
    assert(a.pins().len() == a.frames.len());
    assert(b.pins().len() == b.frames.len());
    assert(a.pins().update(f, pins).len() == a.pins().len());
    assert(a.pins()[f] == a.frames[f].pins);
    assert forall|g: int| 0 <= g < b.frames.len() implies (#[trigger] b.frames[g]).pins > 0 by {
        assert(b.pins()[g] == b.frames[g].pins);
        assert(a.pins()[g] == a.frames[g].pins);
        if g < f {
            assert(a.frames[g].pins > 0 || a.frames[f].pins > 0);
        } else if f < g {
            assert(a.frames[f].pins > 0 || a.frames[g].pins > 0);
        }
    }
}

/// Pools with the same pins have the same frames pinned.
pub proof fn lemma_same_pins(a: PoolView, b: PoolView)
    requires
        a.pins() == b.pins(),
    ensures
        a.frames.len() == b.frames.len(),
        a.can_pin() ==> b.can_pin(),
        a.all_pinned() == b.all_pinned(),
        forall|f: int| 0 <= f < a.frames.len() ==> (#[trigger] a.frames[f]).pins == b.frames[f].pins,
{
    assert(a.pins().len() == a.frames.len());
    assert(b.pins().len() == b.frames.len());
    assert forall|f: int| 0 <= f < a.frames.len() implies (#[trigger] a.frames[f]).pins
        == b.frames[f].pins by {
        assert(a.pins()[f] == a.frames[f].pins);
        assert(b.pins()[f] == b.frames[f].pins);
    }
    if a.can_pin() {
        assert forall|f: int| 0 <= f < b.frames.len() implies (#[trigger] b.frames[f]).pins
            < usize::MAX by {
            assert(a.frames[f].pins == b.frames[f].pins);
        }
    }
    if a.all_pinned() {
        assert forall|f: int| 0 <= f < b.frames.len() implies (#[trigger] b.frames[f]).pins > 0 by {
            assert(a.frames[f].pins == b.frames[f].pins);
        }
    }
    if b.all_pinned() {
        assert forall|f: int| 0 <= f < a.frames.len() implies (#[trigger] a.frames[f]).pins > 0 by {
            assert(a.frames[f].pins == b.frames[f].pins);
        }
    }
}

/// Brings a new page into the pool, pinned and marked as changed.
pub(crate) fn allocate_node<D: DiskManager>(pool: &mut BufferPool<D>) -> (page: Result<
    PinnedPage,
    Error,
>)
    requires
        old(pool).wf(),
        old(pool)@.coherent(),
        old(pool)@.disk.len() < INVALID_PAGE_ID,
    ensures
        final(pool).wf(),
        final(pool)@.coherent(),
        old(pool)@.same_pages(final(pool)@),
        old(pool)@.handles_kept(final(pool)@),
        page is Err ==> final(pool)@.pins() == old(pool)@.pins() && final(pool)@.disk.len() == old(
            pool,
        )@.disk.len(),
        page matches Err(Error::NoFreeFrames) <==> old(pool)@.all_pinned(),
        old(pool)@.reliable ==> (page is Ok <==> !old(pool)@.all_pinned()),
        final(pool)@.reliable == old(pool)@.reliable,
        old(pool)@.pinned_stay(final(pool)@),
        page matches Ok(pin) ==> {
            &&& final(pool)@.holds(pin)
            &&& final(pool)@.resident(pin.page())
            &&& pin.page().0 == old(pool)@.disk.len()
            &&& final(pool)@.disk.len() == old(pool)@.disk.len() + 1
            &&& pin.frame() < old(pool)@.pins().len()
            &&& old(pool)@.pins()[pin.frame() as int] == 0
            &&& final(pool)@.pins() == old(pool)@.pins().update(pin.frame() as int, 1)
        },
{
    match pool.allocate_page() {
        Ok(pin) => {
            let ghost allocated = pool@;
            pin.dirty(pool);
            proof {
                assert forall|id: PageId|
                    old(pool)@.resident(id) && old(pool)@.frames[old(pool)@.table[id.0] as int].pins
                        > 0 implies #[trigger] pool@.resident(id) && pool@.table[id.0] == old(
                    pool,
                )@.table[id.0] by {
                    assert(allocated.resident(id));
                }
                assert(old(pool)@.pins()[pin.frame() as int] == old(pool)@.frames[pin.frame() as int].pins);
            }
            Ok(pin)
        },
        Err(error) => Err(error),
    }
}

/// Puts `data` into a pinned page and marks the page as changed.
pub(crate) fn store_page<D: DiskManager>(pool: &mut BufferPool<D>, pin: &PinnedPage, data: &PageData)
    requires
        old(pool).wf(),
        old(pool)@.coherent(),
        old(pool)@.holds(*pin),
    ensures
        final(pool).wf(),
        final(pool)@.coherent(),
        final(pool)@.page(pin.page()) == data@,
        old(pool)@.same_pages_but(final(pool)@, pin.page()),
        old(pool)@.handles_kept(final(pool)@),
        final(pool)@.pins() == old(pool)@.pins(),
        final(pool)@.disk.len() == old(pool)@.disk.len(),
        final(pool)@.reliable == old(pool)@.reliable,
        final(pool)@.table == old(pool)@.table,
{
    pin.dirty(pool);
    pin.write(pool, data);
}

} // verus!
