//! A heap of tuples: table pages linked into a chain, each holding the
//! tuples that were put into it in the order of their arrival.

use vstd::prelude::*;
use crate::buffer_pool::{
    allocate_node, lemma_pinned_but_one, lemma_same_pins, store_page, BufferPool, Error,
    PinnedPage, PoolView,
};
use crate::codec::lemma_u32_at_range;
use crate::disk_manager::{DiskManager, PageId, INVALID_PAGE_ID, PAGE_SIZE};
use crate::table_page::{
    free_space_of, next_page_of, slot_bytes, slot_offset, slots_of, table_page_wf, tuple_count_of,
    SlotIndex, TablePage, OFFSET_TUPLE_DESCRIPTORS, SIZE_TUPLE_DESCRIPTOR,
};

verus! {

/// The page and the slot of a tuple.
pub type TupleId = (PageId, SlotIndex);

/// The longest tuple that an empty page takes.
pub const MAX_TUPLE_SIZE: usize = PAGE_SIZE - OFFSET_TUPLE_DESCRIPTORS - SIZE_TUPLE_DESCRIPTOR;

/// Whether `bytes` is a table page all of whose slots hold a tuple.
pub open spec fn is_heap_page(bytes: Seq<u8>) -> bool {
    &&& table_page_wf(bytes)
    &&& forall|i: int| 0 <= i < tuple_count_of(bytes) ==> #[trigger] slot_offset(bytes, i) != 0
}

/// The page that page `id` links to.
pub open spec fn next_of(pool: PoolView, id: PageId) -> PageId {
    PageId(next_page_of(pool.page(id)) as u32)
}

/// Whether page `id` starts a chain of heap pages that ends after `more`
/// further pages.
pub open spec fn is_chain(pool: PoolView, id: PageId, more: nat) -> bool
    decreases more,
{
    &&& pool.has_page(id)
    &&& is_heap_page(pool.page(id))
    &&& if more == 0 {
        next_page_of(pool.page(id)) == INVALID_PAGE_ID
    } else {
        &&& next_page_of(pool.page(id)) != INVALID_PAGE_ID
        &&& is_chain(pool, next_of(pool, id), (more - 1) as nat)
    }
}

/// The page `steps` links after page `id`.
pub open spec fn chain_page(pool: PoolView, id: PageId, steps: nat) -> PageId
    decreases steps,
{
    if steps == 0 {
        id
    } else {
        chain_page(pool, next_of(pool, id), (steps - 1) as nat)
    }
}

/// The number of pages of the chain from page `id` that are passed over
/// before one has `need` bytes free; one more than there are further pages
/// where none has.
pub open spec fn fit_offset(pool: PoolView, id: PageId, more: nat, need: int) -> nat
    decreases more,
{
    if need <= free_space_of(pool.page(id)) {
        0
    } else if more == 0 {
        1
    } else {
        1 + fit_offset(pool, next_of(pool, id), (more - 1) as nat, need)
    }
}

/// The first tuple at or after slot `slot` of page `id` in the chain from
/// that page.
pub open spec fn next_tuple(pool: PoolView, id: PageId, slot: int, more: nat) -> Option<
    (PageId, int),
>
    decreases more,
{
    if slot < tuple_count_of(pool.page(id)) {
        Some((id, slot))
    } else if more == 0 {
        None
    } else {
        next_tuple(pool, next_of(pool, id), 0, (more - 1) as nat)
    }
}

/// A chain has one length.
pub proof fn lemma_chain_unique(pool: PoolView, id: PageId, a: nat, b: nat)
    requires
        is_chain(pool, id, a),
        is_chain(pool, id, b),
    ensures
        a == b,
    decreases a,
{
    if a > 0 && b > 0 {
        lemma_chain_unique(pool, next_of(pool, id), (a - 1) as nat, (b - 1) as nat);
    }
}

/// A chain whose pages are served as before is the chain it was.
pub proof fn lemma_chain_kept(a: PoolView, b: PoolView, id: PageId, more: nat)
    requires
        a.same_pages(b),
        a.disk.len() <= b.disk.len(),
        is_chain(a, id, more),
    ensures
        is_chain(b, id, more),
        forall|need: int| #[trigger] fit_offset(b, id, more, need) == fit_offset(a, id, more, need),
        forall|slot: int| #[trigger] next_tuple(b, id, slot, more) == next_tuple(a, id, slot, more),
        forall|steps: nat|
            steps <= more ==> #[trigger] chain_page(b, id, steps) == chain_page(a, id, steps),
    decreases more,
{
    assert(b.page(id) == a.page(id));
    if more > 0 {
        lemma_chain_kept(a, b, next_of(a, id), (more - 1) as nat);
        assert forall|steps: nat| steps <= more implies #[trigger] chain_page(b, id, steps)
            == chain_page(a, id, steps) by {
            if steps > 0 {
                assert(chain_page(b, next_of(a, id), (steps - 1) as nat) == chain_page(
                    a,
                    next_of(a, id),
                    (steps - 1) as nat,
                ));
            }
        }
        assert forall|need: int| #[trigger] fit_offset(b, id, more, need) == fit_offset(
            a,
            id,
            more,
            need,
        ) by {
            assert(fit_offset(b, next_of(a, id), (more - 1) as nat, need) == fit_offset(
                a,
                next_of(a, id),
                (more - 1) as nat,
                need,
            ));
        }
        assert forall|slot: int| #[trigger] next_tuple(b, id, slot, more) == next_tuple(
            a,
            id,
            slot,
            more,
        ) by {
            assert(next_tuple(b, next_of(a, id), 0, (more - 1) as nat) == next_tuple(
                a,
                next_of(a, id),
                0,
                (more - 1) as nat,
            ));
        }
    } else {
        assert forall|steps: nat| steps <= more implies #[trigger] chain_page(b, id, steps)
            == chain_page(a, id, steps) by {}
        assert forall|need: int| #[trigger] fit_offset(b, id, more, need) == fit_offset(
            a,
            id,
            more,
            need,
        ) by {}
        assert forall|slot: int| #[trigger] next_tuple(b, id, slot, more) == next_tuple(
            a,
            id,
            slot,
            more,
        ) by {}
    }
}

/// The rest of a chain is a chain.
pub proof fn lemma_chain_rest(pool: PoolView, id: PageId, more: nat, steps: nat)
    requires
        is_chain(pool, id, more),
        steps <= more,
    ensures
        is_chain(pool, chain_page(pool, id, steps), (more - steps) as nat),
        steps < more ==> chain_page(pool, id, steps + 1) == next_of(
            pool,
            chain_page(pool, id, steps),
        ),
    decreases steps,
{
    if steps > 0 {
        lemma_chain_rest(pool, next_of(pool, id), (more - 1) as nat, (steps - 1) as nat);
        if steps < more {
            assert(chain_page(pool, id, steps + 1) == chain_page(
                pool,
                next_of(pool, id),
                steps,
            ));
        }
    } else if steps < more {
        assert(chain_page(pool, id, 1) == chain_page(pool, next_of(pool, id), 0));
    }
}

/// A chain stays a chain when one of its pages takes a tuple: the page
/// keeps its link, and the other pages are served as before.
pub proof fn lemma_chain_page_filled(a: PoolView, b: PoolView, id: PageId, more: nat, at: nat)
    requires
        is_chain(a, id, more),
        at <= more,
        a.disk.len() <= b.disk.len(),
        a.same_pages_but(b, chain_page(a, id, at)),
        is_heap_page(b.page(chain_page(a, id, at))),
        next_page_of(b.page(chain_page(a, id, at))) == next_page_of(
            a.page(chain_page(a, id, at)),
        ),
    ensures
        is_chain(b, id, more),
        forall|steps: nat|
            steps <= more ==> #[trigger] chain_page(b, id, steps) == chain_page(a, id, steps),
    decreases more,
{
    let filled = chain_page(a, id, at);
    if at == 0 {
        if more > 0 {
            lemma_chain_distinct(a, id, more, 1);
            assert forall|steps: nat| steps <= more - 1 implies #[trigger] chain_page(
                a,
                next_of(a, id),
                steps,
            ) != filled by {
                assert(chain_page(a, id, steps + 1) == chain_page(a, next_of(a, id), steps));
            }
            lemma_chain_page_filled_after(a, b, next_of(a, id), (more - 1) as nat, filled);
        }
    } else {
        lemma_chain_distinct_first(a, id, more, at);
        assert(b.page(id) == a.page(id));
        lemma_chain_page_filled(a, b, next_of(a, id), (more - 1) as nat, (at - 1) as nat);
    }
    assert forall|steps: nat| steps <= more implies #[trigger] chain_page(b, id, steps)
        == chain_page(a, id, steps) by {
        if steps > 0 {
            assert(chain_page(b, next_of(a, id), (steps - 1) as nat) == chain_page(
                a,
                next_of(a, id),
                (steps - 1) as nat,
            ));
        }
    }
}

/// A chain that does not pass through a page stays as it is when that page
/// changes.
pub proof fn lemma_chain_page_filled_after(
    a: PoolView,
    b: PoolView,
    id: PageId,
    more: nat,
    changed: PageId,
)
    requires
        is_chain(a, id, more),
        a.disk.len() <= b.disk.len(),
        a.same_pages_but(b, changed),
        forall|steps: nat| steps <= more ==> #[trigger] chain_page(a, id, steps) != changed,
    ensures
        is_chain(b, id, more),
        forall|steps: nat|
            steps <= more ==> #[trigger] chain_page(b, id, steps) == chain_page(a, id, steps),
    decreases more,
{
    assert(chain_page(a, id, 0) != changed);
    assert(b.page(id) == a.page(id));
    if more > 0 {
        assert forall|steps: nat| steps <= more - 1 implies #[trigger] chain_page(
            a,
            next_of(a, id),
            steps,
        ) != changed by {
            assert(chain_page(a, id, steps + 1) != changed);
        }
        lemma_chain_page_filled_after(a, b, next_of(a, id), (more - 1) as nat, changed);
    }
    assert forall|steps: nat| steps <= more implies #[trigger] chain_page(b, id, steps)
        == chain_page(a, id, steps) by {
        if steps > 0 {
            assert(chain_page(b, next_of(a, id), (steps - 1) as nat) == chain_page(
                a,
                next_of(a, id),
                (steps - 1) as nat,
            ));
        }
    }
}

/// No page stands twice in a chain: the pages from the `from`-th on are not
/// the first page.
pub proof fn lemma_chain_distinct(pool: PoolView, id: PageId, more: nat, from: nat)
    requires
        is_chain(pool, id, more),
        1 <= from,
    ensures
        forall|steps: nat|
            from <= steps <= more ==> #[trigger] chain_page(pool, id, steps) != id,
{
    assert forall|steps: nat| from <= steps <= more implies #[trigger] chain_page(pool, id, steps)
        != id by {
        lemma_chain_rest(pool, id, more, steps);
        if chain_page(pool, id, steps) == id {
            lemma_chain_unique(pool, id, more, (more - steps) as nat);
        }
    }
}

/// No page stands twice in a chain: the first page is not the `at`-th.
pub proof fn lemma_chain_distinct_first(pool: PoolView, id: PageId, more: nat, at: nat)
    requires
        is_chain(pool, id, more),
        1 <= at <= more,
    ensures
        chain_page(pool, id, at) != id,
{
    lemma_chain_distinct(pool, id, more, at);
}

/// A chain grows by a page when its last page, which keeps its tuples, links
/// to a new page that ends the chain.
pub proof fn lemma_chain_extended(
    a: PoolView,
    b: PoolView,
    id: PageId,
    more: nat,
    added: PageId,
)
    requires
        is_chain(a, id, more),
        a.disk.len() <= added.0 < b.disk.len(),
        added.0 != INVALID_PAGE_ID,
        forall|page: PageId|
            page.0 < a.disk.len() && page != chain_page(a, id, more) ==> #[trigger] b.page(page)
                == a.page(page),
        is_heap_page(b.page(chain_page(a, id, more))),
        next_page_of(b.page(chain_page(a, id, more))) == added.0,
        is_heap_page(b.page(added)),
        next_page_of(b.page(added)) == INVALID_PAGE_ID,
    ensures
        is_chain(b, id, more + 1),
        chain_page(b, id, more + 1) == added,
        forall|steps: nat|
            steps <= more ==> #[trigger] chain_page(b, id, steps) == chain_page(a, id, steps),
    decreases more,
{
    if more == 0 {
        assert(is_chain(b, added, 0));
        assert(next_of(b, id) == added);
        assert(chain_page(b, next_of(b, id), 0) == added);
    } else {
        lemma_chain_distinct_first(a, id, more, more);
        assert(b.page(id) == a.page(id));
        lemma_chain_extended(a, b, next_of(a, id), (more - 1) as nat, added);
    }
    assert forall|steps: nat| steps <= more implies #[trigger] chain_page(b, id, steps)
        == chain_page(a, id, steps) by {
        if steps > 0 {
            assert(chain_page(b, next_of(a, id), (steps - 1) as nat) == chain_page(
                a,
                next_of(a, id),
                (steps - 1) as nat,
            ));
        }
    }
}

/// A heap page that takes a tuple in a new last slot is a heap page.
pub proof fn lemma_heap_page_filled(a: Seq<u8>, b: Seq<u8>, tuple: Seq<u8>)
    requires
        is_heap_page(a),
        table_page_wf(b),
        slots_of(b) == slots_of(a).push(Some(tuple)),
    ensures
        is_heap_page(b),
        tuple_count_of(b) == tuple_count_of(a) + 1,
{
    lemma_u32_at_range(a, crate::table_page::OFFSET_TUPLE_COUNT as int);
    lemma_u32_at_range(b, crate::table_page::OFFSET_TUPLE_COUNT as int);
    assert(slots_of(a).len() == tuple_count_of(a));
    assert(slots_of(b).len() == tuple_count_of(b));
    assert forall|i: int| 0 <= i < tuple_count_of(b) implies #[trigger] slot_offset(b, i) != 0 by {
        assert(slots_of(b)[i] is Some) by {
            if i < tuple_count_of(a) {
                assert(slots_of(a)[i] is Some) by {
                    assert(slot_offset(a, i) != 0);
                }
            }
        }
    }
}

/// A heap of tuples: the first page of its chain.
pub struct TableHeap {
    first_page_id: PageId,
}

impl TableHeap {
    /// The first page of the heap.
    pub closed spec fn first_page(&self) -> PageId {
        self.first_page_id
    }

    /// Whether the pages of the pool hold this heap: its first page starts a
    /// chain of heap pages.
    pub open spec fn wf(&self, pool: PoolView) -> bool {
        &&& pool.wf()
        &&& pool.coherent()
        &&& exists|more: nat| is_chain(pool, self.first_page(), more)
    }

    /// The number of pages of the heap after the first.
    pub open spec fn more_pages(&self, pool: PoolView) -> nat {
        choose|more: nat| is_chain(pool, self.first_page(), more)
    }

    /// The `index`-th page of the heap, counted from 0.
    pub open spec fn page_at(&self, pool: PoolView, index: nat) -> PageId {
        chain_page(pool, self.first_page(), index)
    }

    /// The handle to the heap whose first page is `first_page_id`.
    pub fn from_existing(first_page_id: PageId) -> (heap: Self)
        ensures
            heap.first_page() == first_page_id,
    {
        TableHeap { first_page_id }
    }

    /// The first page of the heap.
    pub fn first_page_id(&self) -> (id: PageId)
        ensures
            id == self.first_page(),
    {
        self.first_page_id
    }

    /// Makes an empty heap: one new page of the pool, without tuples.
    pub fn new<D: DiskManager>(pool: &mut BufferPool<D>) -> (heap: Result<TableHeap, Error>)
        requires
            old(pool).wf(),
            old(pool)@.coherent(),
            old(pool)@.disk.len() < INVALID_PAGE_ID,
        ensures
            final(pool).wf(),
            final(pool)@.coherent(),
            old(pool)@.same_pages(final(pool)@),
            old(pool)@.handles_kept(final(pool)@),
            final(pool)@.pins() == old(pool)@.pins(),
            old(pool)@.can_pin() ==> final(pool)@.can_pin(),
            heap matches Err(Error::NoFreeFrames) <==> old(pool)@.all_pinned(),
            old(pool)@.reliable ==> (heap is Ok <==> !old(pool)@.all_pinned()),
            final(pool)@.reliable == old(pool)@.reliable,
            heap is Err ==> final(pool)@.disk.len() == old(pool)@.disk.len(),
            heap matches Ok(made) ==> {
                &&& made.wf(final(pool)@)
                &&& made.first_page().0 == old(pool)@.disk.len()
                &&& final(pool)@.resident(made.first_page())
                &&& final(pool)@.disk.len() == old(pool)@.disk.len() + 1
                &&& made.more_pages(final(pool)@) == 0
                &&& slots_of(final(pool)@.page(made.first_page())) == Seq::<
                    Option<Seq<u8>>,
                >::empty()
            },
    {
        let pin = match pool.allocate_page() {
            Ok(pin) => pin,
            Err(error) => {
                proof {
                    lemma_same_pins(old(pool)@, pool@);
                }
                return Err(error);
            },
        };
        let page = TablePage::new(*pin.read(pool));
        pin.write(pool, page.unwrap());
        pin.dirty(pool);
        let heap = TableHeap { first_page_id: pin.id() };
        let ghost written = pool@;
        proof {
            assert(old(pool)@.pins()[pin.frame() as int] == old(pool)@.frames[pin.frame() as int].pins);
            assert(written.page(pin.page()) == page@);
            lemma_u32_at_range(page@, crate::table_page::OFFSET_TUPLE_COUNT as int);
            assert(is_chain(written, pin.page(), 0));
        }
        pin.unpin(pool);
        proof {
            assert(pool@.pins() =~= old(pool)@.pins());
            lemma_same_pins(old(pool)@, pool@);
            lemma_chain_kept(written, pool@, pin.page(), 0);
            lemma_chain_unique(pool@, pin.page(), 0, heap.more_pages(pool@));
            assert forall|other: PinnedPage| old(pool)@.holds(other) implies #[trigger] pool@.holds(
                other,
            ) by {
                assert(other.frame() != pin.frame());
            }
        }
        Ok(heap)
    }

    /// Puts `tuple` into the first page of the heap that has room for it, or
    /// into a new page at the end of the heap where none has, and returns
    /// where it stands.
    pub fn insert_tuple<D: DiskManager>(&self, pool: &mut BufferPool<D>, tuple: &[u8]) -> (tid:
        Result<TupleId, Error>)
        requires
            old(pool).wf(),
            self.wf(old(pool)@),
            old(pool)@.can_pin(),
            old(pool)@.disk.len() < INVALID_PAGE_ID,
            tuple@.len() <= MAX_TUPLE_SIZE,
        ensures
            final(pool).wf(),
            self.wf(final(pool)@),
            old(pool)@.handles_kept(final(pool)@),
            final(pool)@.pins() == old(pool)@.pins(),
            final(pool)@.can_pin(),
            tid is Err ==> old(pool)@.same_pages(final(pool)@) && final(pool)@.disk.len() == old(
                pool,
            )@.disk.len() && self.more_pages(final(pool)@) == self.more_pages(old(pool)@),
            tid matches Err(Error::NoFreeFrames) ==> old(pool)@.all_pinned_but_one(),
            final(pool)@.reliable == old(pool)@.reliable,
            old(pool)@.reliable && !old(pool)@.all_pinned_but_one() ==> tid is Ok,
            tid matches Ok(at) ==> self.holds_new(old(pool)@, final(pool)@, at, tuple@),
    {
        let ghost start = pool@;
        let ghost more = self.more_pages(start);
        let ghost need = tuple@.len() + SIZE_TUPLE_DESCRIPTOR;
        let ghost passed: nat = 0;
        let mut page_id = self.first_page_id;
        loop
            invariant
                start == old(pool)@,
                self.wf(start),
                start.can_pin(),
                start.disk.len() < INVALID_PAGE_ID,
                tuple@.len() <= MAX_TUPLE_SIZE,
                more == self.more_pages(start),
                need == tuple@.len() + SIZE_TUPLE_DESCRIPTOR,
                is_chain(start, self.first_page(), more),
                pool.wf(),
                pool@.coherent(),
                start.same_pages(pool@),
                start.handles_kept(pool@),
                pool@.pins() == start.pins(),
                pool@.disk.len() == start.disk.len(),
                pool@.reliable == start.reliable,
                passed <= more,
                page_id == chain_page(start, self.first_page(), passed),
                fit_offset(start, self.first_page(), more, need) == passed + fit_offset(
                    start,
                    page_id,
                    (more - passed) as nat,
                    need,
                ),
            decreases more - passed,
        {
            proof {
                lemma_chain_rest(start, self.first_page(), more, passed);
                lemma_same_pins(start, pool@);
                lemma_chain_kept(start, pool@, self.first_page(), more);
                lemma_chain_unique(pool@, self.first_page(), more, self.more_pages(pool@));
            }
            let pin = match pool.get_page(page_id) {
                Ok(pin) => pin,
                Err(error) => {
                    proof {
                        lemma_chain_kept(start, pool@, self.first_page(), more);
                        lemma_chain_unique(pool@, self.first_page(), more, self.more_pages(pool@));
                        lemma_same_pins(pool@, start);
                        if error is NoFreeFrames {
                            assert(start.all_pinned());
                        }
                    }
                    return Err(error);
                },
            };
            let mut table_page = TablePage::from_existing(*pin.read(pool));
            proof {
                assert(table_page@ == start.page(page_id));
            }
            match table_page.insert_tuple(tuple) {
                Ok(slot_index) => {
                    let ghost pinned = pool@;
                    store_page(pool, &pin, table_page.unwrap());
                    pin.unpin(pool);
                    proof {
                        assert(pool@.pins() =~= start.pins());
                        lemma_same_pins(start, pool@);
                        lemma_heap_page_filled(start.page(page_id), table_page@, tuple@);
                        lemma_chain_page_filled(start, pool@, self.first_page(), more, passed);
                        lemma_chain_unique(pool@, self.first_page(), more, self.more_pages(pool@));
                    }
                    return Ok((page_id, slot_index));
                },
                Err(_) => {
                    let next = table_page.get_next_page_id();
                    if !next.is_valid() {
                        let ghost pinned = pool@;
                        proof {
                            assert(passed == more);
                            lemma_chain_kept(start, pinned, self.first_page(), more);
                            lemma_chain_unique(
                                pinned,
                                self.first_page(),
                                more,
                                self.more_pages(pinned),
                            );
                            assert(pinned.pins()[pin.frame() as int]
                                == pinned.frames[pin.frame() as int].pins);
                            assert(start.pins()[pin.frame() as int]
                                == start.frames[pin.frame() as int].pins);
                        }
                        proof {
                            if pinned.all_pinned() {
                                lemma_pinned_but_one(
                                    start,
                                    pinned,
                                    pin.frame() as int,
                                    pinned.pins()[pin.frame() as int],
                                );
                            }
                        }
                        let tid = self.append_page(pool, pin, table_page, tuple);
                        proof {
                            assert(pool@.pins() =~= start.pins());
                            lemma_same_pins(start, pool@);
                            if tid is Ok {
                                let at = tid->Ok_0;
                                assert(self.holds_new(pinned, pool@, at, tuple@));
                                assert(start.page(self.page_at(start, more)) == pinned.page(
                                    self.page_at(start, more),
                                ));
                                assert(self.holds_new(start, pool@, at, tuple@));
                            } else if tid->Err_0 is NoFreeFrames {
                                lemma_pinned_but_one(
                                    start,
                                    pinned,
                                    pin.frame() as int,
                                    pinned.pins()[pin.frame() as int],
                                );
                            }
                        }
                        return tid;
                    }
                    pin.unpin(pool);
                    proof {
                        assert(pool@.pins() =~= start.pins());
                        assert(passed < more);
                        lemma_u32_at_range(
                            start.page(page_id),
                            crate::table_page::OFFSET_NEXT_PAGE_ID as int,
                        );
                        passed = passed + 1;
                    }
                    page_id = next;
                },
            }
        }
    }

    /// Whether the heap, which held what it holds in `before`, holds in
    /// `after` one tuple more, `tuple` at `at`: in the first page that had
    /// room for it, or in a new page to which the last page links.
    pub open spec fn holds_new(
        &self,
        before: PoolView,
        after: PoolView,
        at: TupleId,
        tuple: Seq<u8>,
    ) -> bool {
        let more = self.more_pages(before);
        let passed = fit_offset(
            before,
            self.first_page(),
            more,
            tuple.len() + SIZE_TUPLE_DESCRIPTOR,
        );
        if passed <= more {
            &&& at.0 == self.page_at(before, passed)
            &&& at.1 == tuple_count_of(before.page(at.0))
            &&& slots_of(after.page(at.0)) == slots_of(before.page(at.0)).push(Some(tuple))
            &&& next_page_of(after.page(at.0)) == next_page_of(before.page(at.0))
            &&& before.same_pages_but(after, at.0)
            &&& after.disk.len() == before.disk.len()
            &&& self.more_pages(after) == more
        } else {
            &&& at.0.0 == before.disk.len()
            &&& at.1 == 0
            &&& slots_of(after.page(at.0)) == seq![Some(tuple)]
            &&& slots_of(after.page(self.page_at(before, more))) == slots_of(
                before.page(self.page_at(before, more)),
            )
            &&& next_page_of(after.page(self.page_at(before, more))) == at.0.0
            &&& before.same_pages_but(after, self.page_at(before, more))
            &&& after.disk.len() == before.disk.len() + 1
            &&& self.more_pages(after) == more + 1
            &&& self.page_at(after, more + 1) == at.0
        }
    }

    /// Puts `tuple` into a new page and links the last page of the heap,
    /// which `pin` pins and of which `last` is a copy, to it.
    fn append_page<D: DiskManager>(
        &self,
        pool: &mut BufferPool<D>,
        pin: PinnedPage,
        last: TablePage,
        tuple: &[u8],
    ) -> (tid: Result<TupleId, Error>)
        requires
            old(pool).wf(),
            self.wf(old(pool)@),
            old(pool)@.disk.len() < INVALID_PAGE_ID,
            tuple@.len() <= MAX_TUPLE_SIZE,
            old(pool)@.holds(pin),
            pin.page() == self.page_at(old(pool)@, self.more_pages(old(pool)@)),
            last@ == old(pool)@.page(pin.page()),
            fit_offset(
                old(pool)@,
                self.first_page(),
                self.more_pages(old(pool)@),
                tuple@.len() + SIZE_TUPLE_DESCRIPTOR,
            ) > self.more_pages(old(pool)@),
        ensures
            final(pool).wf(),
            self.wf(final(pool)@),
            forall|other: PinnedPage|
                old(pool)@.holds(other) && (other.frame() != pin.frame() || old(
                    pool,
                )@.frames[pin.frame() as int].pins > 1) ==> #[trigger] final(pool)@.holds(other),
            final(pool)@.pins() == old(pool)@.pins().update(
                pin.frame() as int,
                (old(pool)@.pins()[pin.frame() as int] - 1) as nat,
            ),
            tid is Err ==> old(pool)@.same_pages(final(pool)@) && final(pool)@.disk.len() == old(
                pool,
            )@.disk.len() && self.more_pages(final(pool)@) == self.more_pages(old(pool)@),
            tid matches Err(Error::NoFreeFrames) ==> old(pool)@.all_pinned(),
            final(pool)@.reliable == old(pool)@.reliable,
            old(pool)@.reliable && !old(pool)@.all_pinned() ==> tid is Ok,
            tid matches Ok(at) ==> self.holds_new(old(pool)@, final(pool)@, at, tuple@),
    {
        let mut last = last;
        let ghost start = pool@;
        let ghost more = self.more_pages(start);
        proof {
            lemma_chain_rest(start, self.first_page(), more, more);
        }
        let new_pin = match allocate_node(pool) {
            Ok(new_pin) => new_pin,
            Err(error) => {
                proof {
                    lemma_same_pins(pool@, start);
                }
                pin.unpin(pool);
                proof {
                    lemma_chain_kept(start, pool@, self.first_page(), more);
                    lemma_chain_unique(pool@, self.first_page(), more, self.more_pages(pool@));
                }
                return Err(error);
            },
        };
        let new_id = new_pin.id();
        last.set_next_page_id(new_id);
        store_page(pool, &pin, last.unwrap());
        let mut new_page = TablePage::new([0; PAGE_SIZE]);
        let ghost empty = new_page@;
        let slot_index = match new_page.insert_tuple(tuple) {
            Ok(slot_index) => slot_index,
            Err(_) => vstd::pervasive::unreached(),
        };
        proof {
            lemma_u32_at_range(empty, crate::table_page::OFFSET_TUPLE_COUNT as int);
            lemma_heap_page_filled(empty, new_page@, tuple@);
            assert(slots_of(empty).push(Some(tuple@)) =~= seq![Some(tuple@)]);
        }
        store_page(pool, &new_pin, new_page.unwrap());
        let ghost written = pool@;
        proof {
            assert(written.page(pin.page()) == last@);
            assert(written.page(new_pin.page()) == new_page@);
            assert(is_heap_page(last@)) by {
                assert forall|i: int| 0 <= i < tuple_count_of(last@) implies #[trigger] slot_offset(
                    last@,
                    i,
                ) != 0 by {
                    assert(slots_of(last@)[i] == slots_of(start.page(pin.page()))[i]);
                    assert(slot_offset(start.page(pin.page()), i) != 0);
                }
            }
            lemma_chain_extended(start, written, self.first_page(), more, new_pin.page());
        }
        new_pin.unpin(pool);
        pin.unpin(pool);
        proof {
            assert(pool@.pins() =~= start.pins().update(
                pin.frame() as int,
                (start.pins()[pin.frame() as int] - 1) as nat,
            ));
            lemma_chain_kept(written, pool@, self.first_page(), more + 1);
            lemma_chain_unique(pool@, self.first_page(), more + 1, self.more_pages(pool@));
        }
        Ok((new_id, slot_index))
    }

    /// Whether `id` is a page of the heap.
    pub open spec fn has_page(&self, pool: PoolView, id: PageId) -> bool {
        exists|index: nat| index <= self.more_pages(pool) && self.page_at(pool, index) == id
    }

    /// An iterator over the tuples of the heap, from the first on.
    pub fn iter<D: DiskManager>(&self, pool: &mut BufferPool<D>) -> (iter: Result<TableIter, Error>)
        requires
            old(pool).wf(),
            self.wf(old(pool)@),
            old(pool)@.can_pin(),
        ensures
            final(pool).wf(),
            self.wf(final(pool)@),
            old(pool)@.same_pages(final(pool)@),
            old(pool)@.handles_kept(final(pool)@),
            final(pool)@.pins() == old(pool)@.pins(),
            final(pool)@.can_pin(),
            final(pool)@.disk.len() == old(pool)@.disk.len(),
            iter matches Err(Error::NoFreeFrames) ==> old(pool)@.all_pinned(),
            final(pool)@.reliable == old(pool)@.reliable,
            old(pool)@.resident(self.first_page()) ==> iter is Ok && final(pool)@.table == old(
                pool,
            )@.table,
            old(pool)@.reliable && !old(pool)@.all_pinned() ==> iter is Ok,
            iter matches Ok(made) ==> made.wf(final(pool)@) && made.page() == self.first_page()
                && made.slot() == 0,
    {
        proof {
            assert(self.page_at(pool@, 0) == self.first_page());
        }
        self.iter_at(pool, (self.first_page_id, 0))
    }

    /// The tuple at `tid`.
    pub fn get_tuple<D: DiskManager>(&self, pool: &mut BufferPool<D>, tid: TupleId) -> (tuple:
        Result<TupleReadGuard, Error>)
        requires
            old(pool).wf(),
            self.wf(old(pool)@),
            old(pool)@.can_pin(),
            self.has_page(old(pool)@, tid.0),
            tid.1 < tuple_count_of(old(pool)@.page(tid.0)),
        ensures
            final(pool).wf(),
            self.wf(final(pool)@),
            old(pool)@.same_pages(final(pool)@),
            old(pool)@.handles_kept(final(pool)@),
            final(pool)@.pins() == old(pool)@.pins(),
            final(pool)@.can_pin(),
            final(pool)@.disk.len() == old(pool)@.disk.len(),
            tuple matches Err(Error::NoFreeFrames) ==> old(pool)@.all_pinned(),
            final(pool)@.reliable == old(pool)@.reliable,
            old(pool)@.resident(tid.0) ==> tuple is Ok && final(pool)@.table == old(pool)@.table,
            old(pool)@.reliable && !old(pool)@.all_pinned() ==> tuple is Ok,
            tuple matches Ok(guard) ==> guard.wf() && guard@ == slot_bytes(
                old(pool)@.page(tid.0),
                tid.1 as int,
            ),
    {
        proof {
            let index = choose|index: nat|
                index <= self.more_pages(pool@) && self.page_at(pool@, index) == tid.0;
            lemma_chain_rest(pool@, self.first_page(), self.more_pages(pool@), index);
        }
        match self.iter_at(pool, tid) {
            Ok(iter) => Ok(TupleReadGuard { iter }),
            Err(error) => Err(error),
        }
    }

    /// An iterator over the tuples of the heap, from the one at `tid` on.
    fn iter_at<D: DiskManager>(&self, pool: &mut BufferPool<D>, tid: TupleId) -> (iter: Result<
        TableIter,
        Error,
    >)
        requires
            old(pool).wf(),
            self.wf(old(pool)@),
            old(pool)@.can_pin(),
            self.has_page(old(pool)@, tid.0),
        ensures
            final(pool).wf(),
            self.wf(final(pool)@),
            old(pool)@.same_pages(final(pool)@),
            old(pool)@.handles_kept(final(pool)@),
            final(pool)@.pins() == old(pool)@.pins(),
            final(pool)@.can_pin(),
            final(pool)@.disk.len() == old(pool)@.disk.len(),
            iter matches Err(Error::NoFreeFrames) ==> old(pool)@.all_pinned(),
            final(pool)@.reliable == old(pool)@.reliable,
            old(pool)@.resident(tid.0) ==> iter is Ok && final(pool)@.table == old(pool)@.table,
            old(pool)@.reliable && !old(pool)@.all_pinned() ==> iter is Ok,
            iter matches Ok(made) ==> made.wf(final(pool)@) && made.page() == tid.0 && made.slot()
                == tid.1 && made.bytes() == old(pool)@.page(tid.0),
    {
        let ghost more = self.more_pages(pool@);
        let ghost index = choose|index: nat|
            index <= self.more_pages(pool@) && self.page_at(pool@, index) == tid.0;
        proof {
            lemma_chain_rest(pool@, self.first_page(), more, index);
        }
        let page = match read_page(pool, tid.0) {
            Ok(page) => page,
            Err(error) => {
                proof {
                    lemma_chain_kept(old(pool)@, pool@, self.first_page(), more);
                }
                return Err(error);
            },
        };
        proof {
            lemma_chain_kept(old(pool)@, pool@, self.first_page(), more);
            lemma_chain_kept(old(pool)@, pool@, tid.0, (more - index) as nat);
        }
        Ok(TableIter { slot_index: tid.1, page_id: tid.0, page })
    }
}

/// A copy of heap page `page_id`.
fn read_page<D: DiskManager>(pool: &mut BufferPool<D>, page_id: PageId) -> (page: Result<
    TablePage,
    Error,
>)
    requires
        old(pool).wf(),
        old(pool)@.coherent(),
        old(pool)@.can_pin(),
        old(pool)@.has_page(page_id),
    ensures
        final(pool).wf(),
        final(pool)@.coherent(),
        final(pool)@.can_pin(),
        old(pool)@.same_pages(final(pool)@),
        old(pool)@.handles_kept(final(pool)@),
        final(pool)@.pins() == old(pool)@.pins(),
        final(pool)@.disk.len() == old(pool)@.disk.len(),
        page matches Err(Error::NoFreeFrames) ==> old(pool)@.all_pinned(),
        final(pool)@.reliable == old(pool)@.reliable,
        old(pool)@.resident(page_id) ==> page is Ok && final(pool)@.table == old(pool)@.table,
        old(pool)@.reliable && !old(pool)@.all_pinned() ==> page is Ok,
        page matches Ok(read) ==> read@ == old(pool)@.page(page_id),
{
    let pin = match pool.get_page(page_id) {
        Ok(pin) => pin,
        Err(error) => {
            proof {
                lemma_same_pins(old(pool)@, pool@);
            }
            return Err(error);
        },
    };
    let page = TablePage::from_existing(*pin.read(pool));
    pin.unpin(pool);
    proof {
        assert(pool@.pins() =~= old(pool)@.pins());
        lemma_same_pins(old(pool)@, pool@);
    }
    Ok(page)
}

/// A place in a heap: a page, of which the iterator keeps a copy, and a
/// slot.
pub struct TableIter {
    slot_index: SlotIndex,
    page_id: PageId,
    page: TablePage,
}

impl TableIter {
    /// The page at which the iterator stands.
    pub closed spec fn page(&self) -> PageId {
        self.page_id
    }

    /// The slot at which the iterator stands.
    pub closed spec fn slot(&self) -> int {
        self.slot_index as int
    }

    /// The copy of the page at which the iterator stands.
    pub closed spec fn bytes(&self) -> Seq<u8> {
        self.page@
    }

    /// Whether the iterator stands in a chain of heap pages and its copy is
    /// what the pool serves.
    pub open spec fn wf(&self, pool: PoolView) -> bool {
        &&& self.bytes() == pool.page(self.page())
        &&& exists|more: nat| is_chain(pool, self.page(), more)
    }

    /// The number of pages after the one at which the iterator stands.
    pub open spec fn more_pages(&self, pool: PoolView) -> nat {
        choose|more: nat| is_chain(pool, self.page(), more)
    }

    /// The next tuple of the heap and where it stands, or `None` at the end.
    pub fn next<'t, D: DiskManager>(&'t mut self, pool: &mut BufferPool<D>) -> (tuple: Result<
        Option<(TupleId, &'t [u8])>,
        Error,
    >)
        requires
            old(pool).wf(),
            old(pool)@.coherent(),
            old(pool)@.can_pin(),
            old(self).wf(old(pool)@),
        ensures
            final(pool).wf(),
            final(pool)@.coherent(),
            final(pool)@.can_pin(),
            old(pool)@.same_pages(final(pool)@),
            old(pool)@.handles_kept(final(pool)@),
            final(pool)@.pins() == old(pool)@.pins(),
            final(pool)@.disk.len() == old(pool)@.disk.len(),
            final(self).wf(final(pool)@),
            tuple matches Err(Error::NoFreeFrames) ==> old(pool)@.all_pinned(),
            final(pool)@.reliable == old(pool)@.reliable,
            old(self).slot() < tuple_count_of(old(self).bytes()) ==> tuple is Ok,
            old(pool)@.reliable && !old(pool)@.all_pinned() ==> tuple is Ok,
            tuple matches Ok(None) ==> next_tuple(
                old(pool)@,
                old(self).page(),
                old(self).slot(),
                old(self).more_pages(old(pool)@),
            ) is None,
            tuple matches Ok(Some(found)) ==> {
                &&& next_tuple(
                    old(pool)@,
                    old(self).page(),
                    old(self).slot(),
                    old(self).more_pages(old(pool)@),
                ) == Some((found.0.0, found.0.1 as int))
                &&& found.1@ == slot_bytes(old(pool)@.page(found.0.0), found.0.1 as int)
                &&& final(self).page() == found.0.0
                &&& final(self).slot() == found.0.1 + 1
            },
    {
        let ghost start = pool@;
        let ghost first_page = self.page_id;
        let ghost first_slot = self.slot_index as int;
        let ghost total = self.more_pages(start);
        let ghost more = total;
        while self.slot_index >= self.page.get_tuple_count()
            invariant
                start == old(pool)@,
                first_page == old(self).page(),
                first_slot == old(self).slot(),
                total == old(self).more_pages(start),
                first_slot < tuple_count_of(old(self).bytes()) ==> self.page@ == old(
                    self,
                ).bytes() && self.slot_index == first_slot,
                start.can_pin(),
                pool.wf(),
                pool@.coherent(),
                pool@.can_pin(),
                start.same_pages(pool@),
                start.handles_kept(pool@),
                pool@.pins() == start.pins(),
                pool@.disk.len() == start.disk.len(),
                pool@.reliable == start.reliable,
                self.page@ == start.page(self.page_id),
                is_chain(start, self.page_id, more),
                next_tuple(start, first_page, first_slot, total) == next_tuple(
                    start,
                    self.page_id,
                    self.slot_index as int,
                    more,
                ),
            decreases more,
        {
            let next = self.page.get_next_page_id();
            if !next.is_valid() {
                proof {
                    lemma_chain_kept(start, pool@, self.page_id, more);
                    assert(more == 0);
                    assert(next_tuple(start, self.page_id, self.slot_index as int, more) is None);
                }
                return Ok(None);
            }
            proof {
                lemma_u32_at_range(self.page@, crate::table_page::OFFSET_NEXT_PAGE_ID as int);
                lemma_chain_kept(start, pool@, self.page_id, more);
                lemma_chain_kept(start, pool@, next, (more - 1) as nat);
            }
            let ghost before = pool@;
            let page = match read_page(pool, next) {
                Ok(page) => page,
                Err(error) => {
                    proof {
                        lemma_chain_kept(start, pool@, self.page_id, more);
                        lemma_same_pins(before, start);
                    }
                    return Err(error);
                },
            };
            self.page = page;
            self.page_id = next;
            self.slot_index = 0;
            proof {
                more = (more - 1) as nat;
            }
        }
        proof {
            lemma_chain_kept(start, pool@, self.page_id, more);
            lemma_u32_at_range(self.page@, crate::table_page::OFFSET_TUPLE_COUNT as int);
            assert(slot_offset(self.page@, self.slot_index as int) != 0);
        }
        let slot_index = self.slot_index;
        self.slot_index += 1;
        match self.page.get_tuple(slot_index) {
            Some(bytes) => Ok(Some(((self.page_id, slot_index), bytes))),
            None => vstd::pervasive::unreached(),
        }
    }
}

/// A tuple of a heap, read out of its page.
pub struct TupleReadGuard {
    iter: TableIter,
}

impl View for TupleReadGuard {
    type V = Seq<u8>;

    closed spec fn view(&self) -> Seq<u8> {
        slot_bytes(self.iter.page@, self.iter.slot_index as int)
    }
}

impl TupleReadGuard {
    /// Whether the guard stands at a tuple of its page.
    pub closed spec fn wf(&self) -> bool {
        &&& is_heap_page(self.iter.page@)
        &&& self.iter.slot_index < tuple_count_of(self.iter.page@)
    }

    /// The bytes of the tuple.
    pub fn tuple(&self) -> (bytes: &[u8])
        requires
            self.wf(),
        ensures
            bytes@ == self@,
    {
        proof {
            assert(slot_offset(self.iter.page@, self.iter.slot_index as int) != 0);
        }
        match self.iter.page.get_tuple(self.iter.slot_index) {
            Some(bytes) => bytes,
            None => vstd::pervasive::unreached(),
        }
    }
}

} // verus!
