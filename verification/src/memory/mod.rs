//! Physical and virtual memory management.

pub mod align;
pub mod file_pages;
pub mod frames;
pub mod heap;
pub mod laws;
pub mod magazine;
pub mod page_tree;
pub mod pmm;
pub mod range_tree;
pub mod vma;
pub mod vmm;
pub mod vmo;
pub mod vmm2;

use crate::hal::mmu::pager::{
    blocked, is_page, is_table, leaf_entry, mapping, missing, page_number, present, slot, spare, synced,
    PageTable, Pager, PagerError, PhysMemory, Tables,
};
use crate::hal::mmu::{FrameAllocator, PageFlags, PageSize, PhysAddr, VirtAddr};
use crate::memory::align::{align_down, aligned_down, lemma_page_sizes};
use crate::memory::magazine::{in_pages, in_use, stock, stocked, taken, Magazine};
use crate::memory::pmm::{
    apart, block_bytes, block_in, first_fit, frame_of, free_pages, freed, is_block, is_free,
    in_lists, joined, lemma_first_fit, lemma_frame, lemma_free_page, lemma_managed_known, lemma_only_drawn,
    lemma_order_bytes, lemma_page_bytes, lemma_pin_bits, managed_buddies, nth, page_order, pulled,
    only_drawn, only_returned, sound_lists, split_lists, with_pin, Allocator, PF_FREE,
};
use crate::memory::vma::offsets_fit;
use crate::memory::vmm::{
    fault_answered, fault_target_of, whole_pages, PageOps, VirtMemManager, VmoSource,
};
use vstd::arithmetic::power2::{
    lemma2_to64, lemma2_to64_rest, lemma_pow2_pos, lemma_pow2_unfold, pow2,
};
use vstd::prelude::*;

pub use crate::memory::pmm::{HUGE_PAGE_SIZE, NORMAL_PAGE_SIZE};

verus! {

#[derive(Debug, Clone, Copy, PartialEq, Eq, Structural)]
pub enum FaultError {
    InvalidAddress,
    AccessDenied,
    OutOfMemory,
}

/// What the kernel's heap has handed out.
pub struct KernelAllocatorWrapper {
    allocated: u64,
    allocation_count: u64,
}

impl KernelAllocatorWrapper {
    /// The bytes handed out.
    pub closed spec fn bytes(&self) -> u64 {
        self.allocated
    }

    /// The blocks handed out.
    pub closed spec fn blocks(&self) -> u64 {
        self.allocation_count
    }

    pub fn new() -> (r: Self)
        ensures
            r.bytes() == 0,
            r.blocks() == 0,
    {
        KernelAllocatorWrapper { allocated: 0, allocation_count: 0 }
    }

    /// Counts a block of `size` bytes in, if there was one to hand out.
    pub fn note_alloc(&mut self, size: u64, found: bool)
        ensures
            final(self).bytes() == if found {
                vmm2::accounting::raised(old(self).bytes(), size as int)
            } else {
                old(self).bytes()
            },
            final(self).blocks() == if found {
                vmm2::accounting::raised(old(self).blocks(), 1)
            } else {
                old(self).blocks()
            },
    {
        if found {
            self.allocated = self.allocated.wrapping_add(size);
            self.allocation_count = self.allocation_count.wrapping_add(1);
        }
    }

    /// Counts a block of `size` bytes out.
    pub fn note_dealloc(&mut self, size: u64)
        ensures
            final(self).bytes() == (if old(self).bytes() >= size {
                (old(self).bytes() - size) as u64
            } else {
                (old(self).bytes() - size + 0x1_0000_0000_0000_0000) as u64
            }),
            final(self).blocks() == (if old(self).blocks() >= 1 {
                (old(self).blocks() - 1) as u64
            } else {
                u64::MAX
            }),
    {
        self.allocated = self.allocated.wrapping_sub(size);
        self.allocation_count = self.allocation_count.wrapping_sub(1);
    }
}

pub fn kernel_heap_allocated(heap: &KernelAllocatorWrapper) -> (r: u64)
    ensures
        r == heap.bytes(),
{
    heap.allocated
}

/// Freeing what was allocated brings the heap's counters back.
pub proof fn law_heap_counters_balance(bytes: u64, size: u64)
    ensures
        ({
            let more = vmm2::accounting::raised(bytes, size as int);
            bytes == if more >= size {
                more - size
            } else {
                more - size + 0x1_0000_0000_0000_0000
            }
        }),
{
}

/// A processor's view of physical memory: its own stock of pages, over the
/// allocator that all processors share.
pub struct PCAllocator {
    pmm: Allocator,
    magazine: Magazine,
    managed: Ghost<Set<int>>,
}

impl PCAllocator {
    /// The shared allocator.
    pub closed spec fn shared(&self) -> Allocator {
        self.pmm
    }

    /// The pages in the processor's own stock.
    pub closed spec fn own(&self) -> Seq<u64> {
        self.magazine@
    }

    /// The memory that was ever given to this allocator.
    pub closed spec fn memory(&self) -> Set<int> {
        self.managed@
    }

    pub closed spec fn wf(&self) -> bool {
        &&& self.magazine.wf()
        &&& stocked(self.magazine@, self.pmm)
        &&& managed_buddies(self.managed@, self.pmm.frames())
        &&& forall|a: int| #[trigger]
            stock(self.pmm@, self.magazine@).contains(a) ==> self.managed@.contains(a)
    }

    /// An empty stock over an allocator.
    pub fn new(pmm: Allocator) -> (r: Self)
        requires
            pmm.wf(),
            managed_buddies(stock(pmm@, Seq::empty()), pmm.frames()),
        ensures
            r.wf(),
            r.shared() == pmm,
            r.own() == Seq::<u64>::empty(),
            r.memory() == stock(pmm@, Seq::empty()),
    {
        let ghost managed = stock(pmm@, Seq::empty());
        PCAllocator { pmm, magazine: Magazine::init(), managed: Ghost(managed) }
    }

    /// A page can be handed out: it is in stock, or the shared allocator can
    /// fill the stock up.
    pub open spec fn can_alloc(&self, size: PageSize) -> bool {
        match size {
            PageSize::Size4K => self.own().len() > 0 || free_pages(self.shared()@) >= 128,
            PageSize::Size2M => first_fit(self.shared()@, 9) is Some,
            PageSize::Size1G => false,
        }
    }

    /// Hands out a page of `size`. Base pages come from the stock, large ones
    /// from the shared allocator.
    pub fn alloc_page(&mut self, size: PageSize) -> (r: u64)
        requires
            old(self).wf(),
            old(self).can_alloc(size),
        ensures
            final(self).wf(),
            final(self).memory() == old(self).memory(),
            final(self).shared().frames() == old(self).shared().frames(),
            only_drawn(old(self).shared(), final(self).shared()),
            is_block(r, page_order(size), final(self).shared().frames()),
            size is Size4K ==> {
                &&& in_use(final(self).shared(), r)
                &&& final(self).is_out(r, 0)
                &&& !final(self).own().contains(r)
                &&& if old(self).own().len() > 0 {
                    &&& r == old(self).own().last()
                    &&& final(self).own() == old(self).own().drop_last()
                    &&& final(self).shared() == old(self).shared()
                } else {
                    let (pages, rest) = taken(old(self).shared()@, 128);
                    &&& r == pages.last()
                    &&& final(self).own() == pages.drop_last()
                    &&& final(self).shared()@ == rest
                }
                &&& forall|p: u64|
                    #![trigger in_use(final(self).shared(), p)]
                    #![trigger in_use(old(self).shared(), p)]
                    in_use(old(self).shared(), p) ==> in_use(final(self).shared(), p)
                &&& forall|a: int| #[trigger]
                    stock(final(self).shared()@, final(self).own().push(r)).contains(a) <==> stock(
                        old(self).shared()@,
                        old(self).own(),
                    ).contains(a)
            },
            forall|b: u64, o: int|
                0 <= o <= 11 && old(self).is_out(b, o) ==> #[trigger] final(self).is_out(b, o)
                    && apart(b, o, r, page_order(size)),
            size is Size2M ==> {
                &&& final(self).own() == old(self).own()
                &&& first_fit(old(self).shared()@, 9) matches Some(k) && {
                    &&& r == nth(old(self).shared()@, k, 0)
                    &&& final(self).shared()@ == split_lists(
                        pulled(old(self).shared()@, k, 0),
                        r,
                        k,
                        9,
                    )
                }
            },
    {
        match size {
            PageSize::Size2M => {
                match self.alloc_order(9) {
                    Some(r) => r,
                    None => 0,
                }
            },
            _ => {
                let ghost before = *self;
                let r = self.magazine.alloc_page(&mut self.pmm);
                proof {
                    lemma_handed_out(before, self.pmm, self.magazine@, r);
                    assert forall|a: int| #[trigger] stock(
                        self.pmm@,
                        self.magazine@,
                    ).contains(a) implies self.managed@.contains(a) by {
                        magazine::lemma_in_pages_push(self.magazine@, r, a);
                        assert(stock(self.pmm@, self.magazine@.push(r)).contains(a));
                        assert(stock(before.pmm@, before.magazine@).contains(a));
                    }
                    lemma_fewer_managed(
                        stock(self.pmm@, self.magazine@),
                        self.managed@,
                        self.pmm.frames(),
                    );
                    self.lemma_accepted_is_out(r);
                    assert forall|b: u64, o: int| 0 <= o <= 11 && before.is_out(
                        b,
                        o,
                    ) implies #[trigger] self.is_out(b, o) && apart(b, o, r, 0) by {
                        lemma_order_bytes(o);
                        lemma_frame(b, o, before.pmm.frames());
                        lemma_page_bytes();
                        assert(stock(self.pmm@, self.magazine@.push(r)).contains(r as int)) by {
                            magazine::lemma_in_pages_push(self.magazine@, r, r as int);
                        }
                        assert(stock(before.pmm@, before.magazine@).contains(r as int));
                        if b <= r < b + block_bytes(o) {
                            lemma_not_in_stock(before, b, o, r as int);
                        }
                        assert forall|a: int| b <= a < b + block_bytes(o) implies !stock(
                            self.pmm@,
                            self.magazine@,
                        ).contains(a) by {
                            lemma_not_in_stock(before, b, o, a);
                            magazine::lemma_in_pages_push(self.magazine@, r, a);
                            assert(stock(self.pmm@, self.magazine@.push(r)).contains(a) <==> stock(
                                before.pmm@,
                                before.magazine@,
                            ).contains(a));
                        }
                        assert(!is_free(before.pmm@, b as int));
                        assert(self.pmm.table()[frame_of(b)] == before.pmm.table()[frame_of(b)]);
                        lemma_still_out(before, *self, b, o);
                    }
                }
                r
            },
        }
    }

    /// Sets or clears the pinned mark of a frame.
    pub fn set_pinned(&mut self, pfn: u64, pinned: bool)
        requires
            old(self).wf(),
        ensures
            final(self).wf(),
            final(self).memory() == old(self).memory(),
            final(self).own() == old(self).own(),
            final(self).shared()@ == old(self).shared()@,
            final(self).shared().table() == with_pin(
                old(self).shared().table(),
                pfn as int,
                pinned,
            ),
            final(self).available() == old(self).available(),
            forall|f: u64| #[trigger] final(self).accepts(f) == old(self).accepts(f),
    {
        let ghost before = *self;
        self.pmm.set_pinned(pfn, pinned);
        proof {
            let db = before.pmm.table();
            assert forall|p: u64| #[trigger] in_use(self.pmm, p) == in_use(before.pmm, p) by {
                if pfn < db.len() {
                    lemma_pin_bits(db[pfn as int].flags);
                }
                if is_block(p, 0, db.len() as int) {
                    lemma_page_bytes();
                    assert(0 <= frame_of(p) < db.len());
                }
            }
            assert(self.available() =~= before.available());
        }
    }

    /// What the invariant says of the free lists of the shared allocator.
    pub proof fn lemma_sound(&self)
        requires
            self.wf(),
        ensures
            sound_lists(self.shared()@, self.shared().frames()),
            4096 * self.shared().frames() <= u64::MAX,
            joined(self.shared()@),
    {
        self.pmm.lemma_sound();
    }

    /// Hands out a block of `order` from the shared allocator.
    pub fn alloc_order(&mut self, order: usize) -> (r: Option<u64>)
        requires
            old(self).wf(),
            order <= 11,
        ensures
            final(self).wf(),
            final(self).memory() == old(self).memory(),
            final(self).own() == old(self).own(),
            final(self).shared().frames() == old(self).shared().frames(),
            only_drawn(old(self).shared(), final(self).shared()),
            match first_fit(old(self).shared()@, order as int) {
                None => r is None && *final(self) == *old(self),
                Some(k) => {
                    let block = nth(old(self).shared()@, k, 0);
                    &&& r == Some(block)
                    &&& is_block(block, order as int, final(self).shared().frames())
                    &&& final(self).shared()@ == split_lists(
                        pulled(old(self).shared()@, k, 0),
                        block,
                        k,
                        order as int,
                    )
                    &&& final(self).is_out(block, order as int)
                },
            },
            forall|b: u64, o: int|
                0 <= o <= 11 && old(self).is_out(b, o) ==> #[trigger] final(self).is_out(b, o) && (
                r matches Some(block) ==> apart(b, o, block, order as int)),
    {
        let ghost before = *self;
        let r = self.pmm.alloc_order(order);
        proof {
            if let Some(block) = r {
                let o = order as int;
                before.pmm.lemma_sound();
                let k = first_fit(before.pmm@, o)->0;
                lemma_first_fit(before.pmm@, o, k);
                assert forall|f: int|
                    0 <= f < before.pmm.table().len() && !is_free(before.pmm@, 4096 * f) implies
                    #[trigger] self.pmm.table()[f] == before.pmm.table()[f] by {
                    if block <= 4096 * f < block + block_bytes(k) {
                        assert(in_lists(before.pmm@, k, 0));
                        assert(is_free(before.pmm@, 4096 * f));
                    }
                }
                magazine::lemma_alloc_keeps(before.pmm, self.pmm, block, o);
                assert forall|a: int| #[trigger] stock(
                    self.pmm@,
                    self.magazine@,
                ).contains(a) implies self.managed@.contains(a) by {
                    assert(stock(before.pmm@, before.magazine@).contains(a));
                }
                lemma_fewer_managed(
                    stock(self.pmm@, self.magazine@),
                    self.managed@,
                    self.pmm.frames(),
                );
                assert forall|a: int| block <= a < block + block_bytes(
                    o,
                ) implies #[trigger] self.managed@.contains(a) by {
                    assert(is_free(before.pmm@, a));
                    assert(stock(before.pmm@, before.magazine@).contains(a));
                }
                lemma_page_bytes();
                assert forall|i: int| 0 <= i < self.own().len() implies !(block
                    <= #[trigger] self.own()[i] < block + block_bytes(o)) by {
                    assert(in_use(before.pmm, before.magazine@[i]));
                    if block <= self.magazine@[i] < block + block_bytes(o) {
                        assert(is_free(before.pmm@, self.magazine@[i] as int));
                    }
                }
                assert(self.is_out(block, o));
                assert forall|b: u64, p: int| 0 <= p <= 11 && before.is_out(
                    b,
                    p,
                ) implies #[trigger] self.is_out(b, p) && apart(b, p, block, o) by {
                    lemma_order_bytes(p);
                    lemma_order_bytes(o);
                    if !apart(b, p, block, o) {
                        let a = if b < block {
                            block as int
                        } else {
                            b as int
                        };
                        assert(is_free(before.pmm@, a));
                        assert(!is_free(before.pmm@, a));
                    }
                    lemma_frame(b, p, before.pmm.frames());
                    let k = first_fit(before.pmm@, o)->0;
                    assert(!is_free(before.pmm@, b as int));
                    assert(4096 * frame_of(b) == b);
                    assert forall|i: int| 0 <= i < self.own().len() implies !(b
                        <= #[trigger] self.own()[i] < b + block_bytes(p)) by {
                        assert(before.own()[i] == self.own()[i]);
                    }
                    assert forall|a: int| b <= a < b + block_bytes(p) implies !#[trigger] is_free(
                        self.pmm@,
                        a,
                    ) by {
                        assert(!is_free(before.pmm@, a));
                    }
                    if block <= b < block + block_bytes(k) {
                        assert(nth(before.pmm@, k, 0) <= b < nth(before.pmm@, k, 0) + block_bytes(k));
                        assert(is_free(before.pmm@, b as int));
                    }
                }
                assert forall|i: int| 0 <= i < self.magazine@.len() implies in_use(
                    self.pmm,
                    #[trigger] self.magazine@[i],
                ) by {
                    assert(in_use(before.pmm, before.magazine@[i]));
                }
            }
        }
        r
    }

    /// A base page that would be taken back is out.
    pub proof fn lemma_accepted_is_out(&self, page: u64)
        requires
            self.wf(),
        ensures
            self.accepts(page) <==> self.is_out(page, 0),
    {
        self.pmm.lemma_sound();
        lemma_page_bytes();
        if self.accepts(page) {
            assert forall|a: int| page <= a < page + block_bytes(0) implies !#[trigger] is_free(
                self.pmm@,
                a,
            ) by {
                if is_free(self.pmm@, a) {
                    magazine::lemma_page_of(page, a, self.pmm.frames());
                    lemma_free_page(self.pmm@, self.pmm.frames(), a, page as int);
                }
            }
            assert forall|i: int| 0 <= i < self.own().len() implies !(page
                <= #[trigger] self.own()[i] < page + block_bytes(0)) by {
                let p = self.magazine@[i];
                assert(in_use(self.pmm, p));
                if p != page {
                    magazine::lemma_pages_differ(p, page, self.pmm.frames());
                } else {
                    assert(self.magazine@.contains(p));
                }
            }
        }
        if self.is_out(page, 0) {
            assert(!is_free(self.pmm@, page as int));
            if self.magazine@.contains(page) {
                let i = choose|i: int| 0 <= i < self.magazine@.len() && self.magazine@[i] == page;
                assert(!(page <= self.own()[i] < page + block_bytes(0)));
            }
        }
    }

    /// A block that is out and may come back.
    pub open spec fn is_out(&self, block: u64, order: int) -> bool {
        &&& is_block(block, order, self.shared().frames())
        &&& self.shared().table()[frame_of(block)].flags & PF_FREE == 0
        &&& block_in(self.memory(), block, order)
        &&& forall|a: int|
            block <= a < block + block_bytes(order) ==> !#[trigger] is_free(self.shared()@, a)
        &&& forall|i: int|
            0 <= i < self.own().len() ==> !(block <= (#[trigger] self.own()[i]) < block
                + block_bytes(order))
    }

    /// Takes a block of `order` back into the shared allocator.
    pub fn free_order(&mut self, addr: u64, order: usize)
        requires
            old(self).wf(),
            order <= 11,
            old(self).is_out(addr, order as int),
        ensures
            final(self).wf(),
            final(self).memory() == old(self).memory(),
            final(self).own() == old(self).own(),
            final(self).shared().frames() == old(self).shared().frames(),
            final(self).shared()@ == freed(old(self).shared()@, addr, order as int),
            only_returned(old(self).shared(), final(self).shared()),
            forall|b: u64, o: int|
                0 <= o <= 11 && old(self).is_out(b, o) && apart(b, o, addr, order as int)
                    ==> #[trigger] final(self).is_out(b, o),
    {
        let ghost before = *self;
        let ghost o = order as int;
        proof {
            self.pmm.lemma_sound();
            assert forall|a: int| #[trigger] is_free(
                self.pmm@,
                a,
            ) implies self.managed@.contains(a) by {
                assert(stock(self.pmm@, self.magazine@).contains(a));
            }
            lemma_managed_known(self.pmm@, self.managed@, self.pmm.frames(), addr, o);
        }
        self.pmm.free_order(addr, order);
        proof {
            assert forall|a: int| #[trigger] stock(
                self.pmm@,
                self.magazine@,
            ).contains(a) implies self.managed@.contains(a) by {
                if is_free(before.pmm@, a) || in_pages(before.magazine@, a) {
                    assert(stock(before.pmm@, before.magazine@).contains(a));
                }
            }
            lemma_fewer_managed(
                stock(self.pmm@, self.magazine@),
                self.managed@,
                self.pmm.frames(),
            );
            assert forall|i: int| 0 <= i < self.magazine@.len() implies in_use(
                self.pmm,
                #[trigger] self.magazine@[i],
            ) by {
                let p = self.magazine@[i];
                assert(p == before.magazine@[i]);
                assert(in_use(before.pmm, p));
                assert(!(addr <= before.own()[i] < addr + block_bytes(o)));
                magazine::lemma_page_of(p, p as int, self.pmm.frames());
                assert(!is_free(self.pmm@, p as int));
            }
            assert forall|b: u64, p: int|
                0 <= p <= 11 && before.is_out(b, p) && apart(
                    b,
                    p,
                    addr,
                    o,
                ) implies #[trigger] self.is_out(b, p) by {
                lemma_order_bytes(p);
                lemma_frame(b, p, self.pmm.frames());
                assert forall|i: int| 0 <= i < self.own().len() implies !(b
                    <= #[trigger] self.own()[i] < b + block_bytes(p)) by {
                    assert(before.own()[i] == self.own()[i]);
                }
                assert forall|a: int| b <= a < b + block_bytes(p) implies !#[trigger] is_free(
                    self.pmm@,
                    a,
                ) by {
                    assert(!is_free(before.pmm@, a));
                }
                assert(!is_free(self.pmm@, b as int));
                assert(self.pmm.table()[frame_of(b)] == before.pmm.table()[frame_of(b)]);
            }
        }
    }

    /// Takes a page of `size` back: a base page into the stock, a large one
    /// into the shared allocator.
    pub fn free(&mut self, addr: u64, size: PageSize)
        requires
            old(self).wf(),
            !(size is Size1G),
            old(self).is_out(addr, page_order(size)),
        ensures
            final(self).wf(),
            final(self).memory() == old(self).memory(),
            final(self).shared().frames() == old(self).shared().frames(),
            only_returned(old(self).shared(), final(self).shared()),
            forall|b: u64, o: int|
                0 <= o <= 11 && old(self).is_out(b, o) && apart(b, o, addr, page_order(size))
                    ==> #[trigger] final(self).is_out(b, o),
            size is Size2M ==> {
                &&& final(self).own() == old(self).own()
                &&& final(self).shared()@ == freed(old(self).shared()@, addr, 9)
            },
            size is Size4K ==> {
                &&& if old(self).own().len() < 256 {
                    &&& final(self).own() == old(self).own().push(addr)
                    &&& final(self).shared() == old(self).shared()
                } else {
                    &&& final(self).own() == old(self).own().take(128).push(addr)
                    &&& final(self).shared()@ == magazine::given_back(
                        old(self).shared()@,
                        old(self).own().skip(128),
                    )
                }
                &&& forall|a: int| #[trigger]
                    stock(final(self).shared()@, final(self).own()).contains(a) <==> stock(
                        old(self).shared()@,
                        old(self).own().push(addr),
                    ).contains(a)
                &&& forall|p: u64|
                    #![trigger in_use(final(self).shared(), p)]
                    #![trigger in_use(old(self).shared(), p)]
                    in_use(old(self).shared(), p) && !old(self).own().contains(p) ==> in_use(
                        final(self).shared(),
                        p,
                    )
            },
    {
        match size {
            PageSize::Size2M => {
                self.free_order(addr, 9);
            },
            _ => {
                let ghost before = *self;
                let ghost all = self.magazine@.push(addr);
                proof {
                    lemma_page_bytes();
                    assert(!is_free(self.pmm@, addr as int));
                    assert(in_use(self.pmm, addr));
                    assert(all.no_duplicates()) by {
                        assert forall|i: int, j: int|
                            0 <= i < all.len() && 0 <= j < all.len() && i != j implies all[i]
                            != all[j] by {
                            if i == self.magazine@.len() {
                                assert(!(addr <= self.own()[j] < addr + block_bytes(0)));
                            } else if j == self.magazine@.len() {
                                assert(!(addr <= self.own()[i] < addr + block_bytes(0)));
                            }
                        }
                    }
                    assert forall|i: int| 0 <= i < all.len() implies in_use(
                        self.pmm,
                        #[trigger] all[i],
                    ) by {
                        if i < self.magazine@.len() {
                            assert(all[i] == self.magazine@[i]);
                            assert(in_use(self.pmm, self.magazine@[i]));
                        }
                    }
                    assert forall|a: int| #[trigger] stock(
                        self.pmm@,
                        all,
                    ).contains(a) implies self.managed@.contains(a) by {
                        magazine::lemma_in_pages_push(self.magazine@, addr, a);
                        if !(addr <= a < addr + 4096) {
                            assert(stock(self.pmm@, self.magazine@).contains(a));
                        }
                    }
                    lemma_fewer_managed(stock(self.pmm@, all), self.managed@, self.pmm.frames());
                }
                self.magazine.free(addr, &mut self.pmm);
                proof {
                    assert forall|a: int| #[trigger] stock(
                        self.pmm@,
                        self.magazine@,
                    ).contains(a) implies self.managed@.contains(a) by {
                        assert(stock(before.pmm@, all).contains(a));
                    }
                    assert forall|b: u64, o: int|
                        0 <= o <= 11 && before.is_out(b, o) && apart(
                            b,
                            o,
                            addr,
                            0,
                        ) implies #[trigger] self.is_out(b, o) by {
                        lemma_order_bytes(o);
                        lemma_frame(b, o, before.pmm.frames());
                        lemma_page_bytes();
                        assert forall|a: int| b <= a < b + block_bytes(o) implies !stock(
                            self.pmm@,
                            self.magazine@,
                        ).contains(a) by {
                            lemma_not_in_stock(before, b, o, a);
                            magazine::lemma_in_pages_push(before.magazine@, addr, a);
                            assert(stock(self.pmm@, self.magazine@).contains(a) <==> stock(
                                before.pmm@,
                                all,
                            ).contains(a));
                        }
                        assert(!stock(self.pmm@, self.magazine@).contains(b as int));
                        assert(!is_free(self.pmm@, b as int));
                        assert(self.pmm.table()[frame_of(b)] == before.pmm.table()[frame_of(b)]);
                        lemma_still_out(before, *self, b, o);
                    }
                }
            },
        }
    }
}

/// No byte of a block that is out is in stock.
proof fn lemma_not_in_stock(alloc: PCAllocator, block: u64, order: int, a: int)
    requires
        alloc.wf(),
        0 <= order <= 11,
        alloc.is_out(block, order),
        block <= a < block + block_bytes(order),
    ensures
        !stock(alloc.shared()@, alloc.own()).contains(a),
{
    lemma_order_bytes(order);
    lemma_frame(block, order, alloc.pmm.frames());
    lemma_page_bytes();
    assert(!is_free(alloc.pmm@, a));
    if in_pages(alloc.own(), a) {
        let i = choose|i: int|
            0 <= i < alloc.own().len() && (#[trigger] alloc.own()[i]) <= a < alloc.own()[i] + 4096;
        let page = alloc.own()[i];
        assert(in_use(alloc.pmm, alloc.magazine@[i]));
        lemma_frame(page, 0, alloc.pmm.frames());
        assert(!(block <= page < block + block_bytes(order)));
    }
}

/// A block stays out while none of its bytes comes into stock.
proof fn lemma_still_out(before: PCAllocator, after: PCAllocator, block: u64, order: int)
    requires
        before.is_out(block, order),
        0 <= order <= 11,
        after.memory() == before.memory(),
        after.shared().frames() == before.shared().frames(),
        after.shared().table()[frame_of(block)] == before.shared().table()[frame_of(block)],
        forall|a: int|
            block <= a < block + block_bytes(order) ==> !(#[trigger] stock(
                after.shared()@,
                after.own(),
            ).contains(a)),
    ensures
        after.is_out(block, order),
{
    assert forall|a: int| block <= a < block + block_bytes(order) implies !#[trigger] is_free(
        after.shared()@,
        a,
    ) by {
        assert(!stock(after.shared()@, after.own()).contains(a));
    }
    assert forall|i: int| 0 <= i < after.own().len() implies !(block <= #[trigger] after.own()[i]
        < block + block_bytes(order)) by {
        let page = after.own()[i] as int;
        if block <= page < block + block_bytes(order) {
            assert(in_pages(after.own(), page));
            assert(!stock(after.shared()@, after.own()).contains(page));
        }
    }
}

impl FrameAllocator for PCAllocator {
    open spec fn ready(&self) -> bool {
        self.wf()
    }

    closed spec fn available(&self) -> Set<u64> {
        Set::new(
            |p: u64|
                is_block(p, 0, self.pmm.frames()) && (self.magazine@.contains(p) || is_free(
                    self.pmm@,
                    p as int,
                )),
        )
    }

    /// What is in stock, and what can be fetched to fill it up: half a stock at
    /// a time.
    open spec fn capacity(&self) -> nat {
        self.own().len() + free_pages(self.shared()@) / 128 * 128
    }

    closed spec fn accepts(&self, phys_addr: u64) -> bool {
        &&& in_use(self.pmm, phys_addr)
        &&& block_in(self.managed@, phys_addr, 0)
        &&& !self.magazine@.contains(phys_addr)
    }

    open spec fn drawn(&self, after: &Self) -> bool {
        only_drawn(self.shared(), after.shared())
    }

    /// It is the last of the stock, and so the next that is handed out.
    open spec fn returned(&self, after: &Self, phys_addr: u64) -> bool {
        if self.own().len() < 256 {
            &&& after.own() == self.own().push(phys_addr)
            &&& after.shared() == self.shared()
        } else {
            &&& after.own() == self.own().take(128).push(phys_addr)
            &&& after.shared()@ == magazine::given_back(self.shared()@, self.own().skip(128))
        }
    }

    proof fn lemma_drawn(a: &Self, b: &Self, c: &Self) {
        if a.drawn(b) && b.drawn(c) {
            lemma_only_drawn(a.shared(), b.shared(), c.shared());
        }
    }

    /// A base page, or nothing when neither the stock nor the shared allocator
    /// can give one.
    fn allocate_frame(&mut self) -> (r: Option<u64>)
        ensures
            r is Some <==> old(self).can_alloc(PageSize::Size4K),
            r is None ==> *final(self) == *old(self),
            r matches Some(frame) ==> final(self).is_out(frame, 0),
            forall|b: u64, o: int|
                0 <= o <= 11 && old(self).is_out(b, o) ==> #[trigger] final(self).is_out(b, o),
            r matches Some(frame) ==> if old(self).own().len() > 0 {
                &&& frame == old(self).own().last()
                &&& final(self).own() == old(self).own().drop_last()
                &&& final(self).shared() == old(self).shared()
            } else {
                let (pages, rest) = taken(old(self).shared()@, 128);
                &&& frame == pages.last()
                &&& final(self).own() == pages.drop_last()
                &&& final(self).shared()@ == rest
            },
    {
        if self.magazine.len() == 0 && !self.pmm.has_pages(128) {
            return None;
        }
        let ghost before = *self;
        let r = self.alloc_page(PageSize::Size4K);
        proof {
            self.pmm.lemma_sound();
            before.pmm.lemma_sound();
            lemma_page_bytes();
            lemma_available(before);
            lemma_available(*self);
            let was = before.available();
            let is = self.available();
            assert(was.contains(r)) by {
                magazine::lemma_in_pages_push(self.magazine@, r, r as int);
                assert(stock(self.pmm@, self.magazine@.push(r)).contains(r as int));
                assert(stock(before.pmm@, before.magazine@).contains(r as int));
            }
            assert forall|p: u64| is.contains(p) <==> was.contains(p) && p != r by {
                if is_block(p, 0, self.pmm.frames()) {
                    magazine::lemma_in_pages_push(self.magazine@, r, p as int);
                    assert(stock(self.pmm@, self.magazine@.push(r)).contains(p as int) <==> stock(
                        before.pmm@,
                        before.magazine@,
                    ).contains(p as int));
                    if p != r {
                        magazine::lemma_pages_differ(p, r, self.pmm.frames());
                    }
                }
            }
            assert(is =~= was.remove(r));
            if before.magazine@.len() == 0 {
                magazine::lemma_taken_counts(before.pmm@, 128);
            }
            assert forall|f: u64| #[trigger] before.accepts(f) implies self.accepts(f) by {
                assert(in_use(before.pmm, f));
                if self.magazine@.contains(f) {
                    let i = choose|i: int| 0 <= i < self.magazine@.len() && self.magazine@[i] == f;
                    magazine::lemma_in_pages_push(self.magazine@, r, f as int);
                    assert(self.magazine@[i] <= f < self.magazine@[i] + 4096);
                    assert(in_pages(self.magazine@, f as int));
                    assert(stock(self.pmm@, self.magazine@.push(r)).contains(f as int));
                    assert(stock(before.pmm@, before.magazine@).contains(f as int));
                    lemma_available(before);
                }
            }
        }
        Some(r)
    }

    fn deallocate_frame(&mut self, phys_addr: u64)
        ensures
            only_returned(old(self).shared(), final(self).shared()),
            forall|b: u64, o: int|
                0 <= o <= 11 && old(self).is_out(b, o) && apart(b, o, phys_addr, 0)
                    ==> #[trigger] final(self).is_out(b, o),
    {
        let ghost before = *self;
        proof {
            self.lemma_accepted_is_out(phys_addr);
        }
        self.free(phys_addr, PageSize::Size4K);
        proof {
            self.pmm.lemma_sound();
            lemma_available(before);
            lemma_available(*self);
            let was = before.available();
            let is = self.available();
            let all = before.magazine@.push(phys_addr);
            assert forall|p: u64| is.contains(p) <==> was.contains(p) || p == phys_addr by {
                if is_block(p, 0, self.pmm.frames()) {
                    magazine::lemma_in_pages_push(before.magazine@, phys_addr, p as int);
                    assert(stock(self.pmm@, self.magazine@).contains(p as int) <==> stock(
                        before.pmm@,
                        all,
                    ).contains(p as int));
                    if p != phys_addr {
                        magazine::lemma_pages_differ(p, phys_addr, self.pmm.frames());
                    }
                }
            }
            assert(is =~= was.insert(phys_addr));
            if before.magazine@.len() >= 256 {
                before.magazine.lemma_len();
                before.pmm.lemma_sound();
                magazine::lemma_given_back_counts(before.pmm@, before.magazine@.skip(128));
            }
            assert forall|f: u64| f != phys_addr && #[trigger] before.accepts(f) implies self.accepts(
                f,
            ) by {
                assert(in_use(before.pmm, f));
                if self.magazine@.contains(f) {
                    let i = choose|i: int| 0 <= i < self.magazine@.len() && self.magazine@[i] == f;
                    assert(self.magazine@[i] <= f < self.magazine@[i] + 4096);
                    assert(in_pages(self.magazine@, f as int));
                    assert(stock(self.pmm@, self.magazine@).contains(f as int));
                    assert(stock(before.pmm@, all).contains(f as int));
                    magazine::lemma_in_pages_push(before.magazine@, phys_addr, f as int);
                    magazine::lemma_pages_differ(f, phys_addr, self.pmm.frames());
                }
            }
        }
    }
}

/// The pages that can be handed out are those of the stock and the free ones.
proof fn lemma_available(a: PCAllocator)
    requires
        a.wf(),
    ensures
        forall|p: u64|
            #![trigger a.available().contains(p)]
            #![trigger stock(a.pmm@, a.magazine@).contains(p as int)]
            is_block(p, 0, a.pmm.frames()) ==> (a.available().contains(p) <==> stock(
                a.pmm@,
                a.magazine@,
            ).contains(p as int)),
{
    let own = a.magazine@;
    assert forall|p: u64|
        #![trigger a.available().contains(p)]
        #![trigger stock(a.pmm@, own).contains(p as int)]
        is_block(p, 0, a.pmm.frames()) implies (a.available().contains(p) <==> stock(
        a.pmm@,
        own,
    ).contains(p as int)) by {
        if own.contains(p) {
            let i = choose|i: int| 0 <= i < own.len() && own[i] == p;
            assert(own[i] <= p < own[i] + 4096);
            assert(in_pages(own, p as int));
        }
        if in_pages(own, p as int) {
            let i = choose|i: int| 0 <= i < own.len() && (#[trigger] own[i]) <= p < own[i] + 4096;
            assert(in_use(a.pmm, own[i]));
            if own[i] != p {
                magazine::lemma_pages_differ(p, own[i], a.pmm.frames());
            }
            assert(own.contains(p));
        }
    }
}

/// What has fewer bytes has fewer blocks.
proof fn lemma_fewer_managed(few: Set<int>, many: Set<int>, frames: int)
    requires
        managed_buddies(many, frames),
        forall|a: int| #[trigger] few.contains(a) ==> many.contains(a),
    ensures
        managed_buddies(few, frames),
{
    assert forall|b: u64, o: int|
        0 <= o < 11 && b as int % block_bytes(o) == 0 && b + block_bytes(o) <= 4096 * frames
            && block_in(few, b, o) implies frame_of(#[trigger] pmm::buddy(b, o)) < frames by {
        assert forall|a: int| b <= a < b + block_bytes(o) implies #[trigger] many.contains(a) by {
            assert(few.contains(a));
        }
        assert(block_in(many, b, o));
    }
}

proof fn lemma_handed_out(before: PCAllocator, after: Allocator, own: Seq<u64>, r: u64)
    requires
        before.wf(),
        stocked(own.push(r), after),
        after.frames() == before.pmm.frames(),
        forall|a: int| #[trigger]
            stock(after@, own.push(r)).contains(a) <==> stock(
                before.pmm@,
                before.magazine@,
            ).contains(a),
    ensures
        in_use(after, r),
        block_in(before.managed@, r, 0),
        !own.contains(r),
        own.no_duplicates(),
        forall|i: int| 0 <= i < own.len() ==> in_use(after, #[trigger] own[i]),
{
    let all = own.push(r);
    assert(all[own.len() as int] == r);
    assert(in_use(after, all[own.len() as int]));
    lemma_page_bytes();
    assert forall|a: int| r <= a < r + block_bytes(0) implies #[trigger] before.managed@.contains(
        a,
    ) by {
        assert(all[own.len() as int] <= a < all[own.len() as int] + 4096);
        assert(in_pages(all, a));
        assert(stock(after@, all).contains(a));
        assert(stock(before.pmm@, before.magazine@).contains(a));
    }
    assert(!own.contains(r)) by {
        if own.contains(r) {
            let i = choose|i: int| 0 <= i < own.len() && own[i] == r;
            assert(all[i] == r && all[own.len() as int] == r);
        }
    }
    assert forall|i: int, j: int|
        0 <= i < own.len() && 0 <= j < own.len() && i != j implies own[i] != own[j] by {
        assert(all[i] == own[i] && all[j] == own[j]);
    }
    assert forall|i: int| 0 <= i < own.len() implies in_use(after, #[trigger] own[i]) by {
        assert(all[i] == own[i]);
        assert(in_use(after, all[i]));
    }
}

/// The smallest order whose blocks hold `bytes` bytes is `order`.
pub open spec fn is_order_for(bytes: int, order: nat) -> bool {
    &&& 4096 * pow2(order) >= bytes
    &&& forall|o: nat| o < order ==> 4096 * #[trigger] pow2(o) < bytes
}

/// The smallest order whose blocks hold `bytes` bytes.
pub open spec fn order_of(bytes: int) -> nat {
    choose|order: nat| is_order_for(bytes, order)
}

/// The smallest order whose blocks hold `bytes` bytes.
pub fn calculate_order(bytes: u64) -> (r: usize)
    requires
        bytes <= 0x8000_0000_0000_0000,
    ensures
        r <= 51,
        r == order_of(bytes as int),
        is_order_for(bytes as int, r as nat),
{
    let mut order: usize = 0;
    let mut size: u64 = 4096;
    proof {
        lemma2_to64();
    }
    while size < bytes
        invariant
            order <= 51,
            size == 4096 * pow2(order as nat),
            bytes <= 0x8000_0000_0000_0000,
            forall|o: nat| o < order ==> 4096 * #[trigger] pow2(o) < bytes,
        decreases 51 - order,
    {
        proof {
            lemma2_to64();
            lemma2_to64_rest();
            lemma_pow2_unfold((order + 1) as nat);
            lemma_pow2_pos(order as nat);
        }
        size = size * 2;
        order += 1;
    }
    proof {
        assert(is_order_for(bytes as int, order as nat));
        let other = order_of(bytes as int);
        assert(is_order_for(bytes as int, other));
        if other < order {
            assert(4096 * pow2(other) < bytes);
        }
        if order < other {
            assert(4096 * pow2(order as nat) < bytes);
        }
    }
    order
}

/// Answers a page fault of the running process, if there is one.
pub fn handle_page_fault<S: VmoSource, P: PageOps>(
    vmm: Option<&VirtMemManager>,
    addr: u64,
    error_code: u64,
    vmos: &mut S,
    pages: &mut P,
) -> (r: Result<(), FaultError>)
    requires
        old(vmos).ready(),
        old(pages).ready(),
        vmm matches Some(v) ==> v.wf() && offsets_fit(v@) && whole_pages(v@),
    ensures
        final(vmos).ready(),
        final(pages).ready(),
        match vmm {
            None => r == Err::<(), FaultError>(FaultError::InvalidAddress) && *final(vmos) == *old(
                vmos,
            ) && *final(pages) == *old(pages),
            Some(v) => match fault_target_of(v@, addr, error_code) {
                Err(e) => r == Err::<(), FaultError>(e) && *final(vmos) == *old(vmos)
                    && *final(pages) == *old(pages),
                Ok(target) => fault_answered(
                    *old(vmos),
                    *final(vmos),
                    *old(pages),
                    *final(pages),
                    target,
                    r,
                ),
            },
        },
{
    match vmm {
        Some(vmm) => vmm.handle_page_fault(addr, error_code, vmos, pages),
        None => Err(FaultError::InvalidAddress),
    }
}

/// The flags of pages that lead to a device.
pub open spec fn mmio_flags() -> u64 {
    PageFlags::PRESENT | PageFlags::WRITABLE | PageFlags::NO_EXECUTE | PageFlags::NO_CACHE
        | PageFlags::WRITE_THROUGH
}

/// Makes the device registers at `phys` readable in the direct map and gives
/// their address there.
pub fn hal_map_mmio<A: FrameAllocator>(
    pager: &mut Pager,
    memory: &mut PhysMemory,
    alloc: &mut A,
    direct_map_offset: u64,
    phys: u64,
) -> (r: Option<u64>)
    requires
        old(pager).wf(old(memory)@),
        old(alloc).ready(),
        spare(old(memory)@, old(pager).root().0, old(alloc).available()),
        phys + direct_map_offset <= u64::MAX,
    ensures
        *final(pager) == *old(pager),
        final(pager).wf(final(memory)@),
        final(alloc).ready(),
        spare(final(memory)@, final(pager).root().0, final(alloc).available()),
        final(alloc).available().subset_of(old(alloc).available()),
        forall|t: u64|
            !is_table(old(memory)@, old(pager).root().0, t) && !old(alloc).available().contains(t)
                ==> #[trigger] final(memory)@[t] == old(memory)@[t],
        ({
            let root = old(pager).root().0;
            let page = aligned_down(phys as int, 4096);
            let n = page_number((page + direct_map_offset) as u64);
            let at = slot(old(memory)@, root, 0, n);
            let taken = at is Some && present(at->0);
            let lacking = missing(old(memory)@, root, n, 3, 0);
            match r {
                Some(virt) => {
                    &&& virt == phys + direct_map_offset
                    &&& !blocked(old(memory)@, root, n, 0)
                    &&& taken || lacking <= old(alloc).capacity()
                    &&& taken ==> final(memory)@ == old(memory)@ && *final(alloc) == *old(alloc)
                    &&& !taken ==> final(alloc).capacity() + lacking == old(alloc).capacity()
                    &&& !taken ==> forall|i: int|
                        is_page(i) ==> #[trigger] mapping(final(memory)@, root, i) == if i == n {
                            Some((0, leaf_entry(page as u64, mmio_flags(), PageSize::Size4K)))
                        } else {
                            mapping(old(memory)@, root, i)
                        }
                },
                None => {
                    &&& blocked(old(memory)@, root, n, 0) || !taken && old(alloc).capacity()
                        < lacking
                    &&& if blocked(old(memory)@, root, n, 0) {
                        final(memory)@ == old(memory)@ && *final(alloc) == *old(alloc)
                    } else {
                        final(alloc).capacity() == 0
                    }
                    &&& forall|i: int|
                        is_page(i) ==> #[trigger] mapping(final(memory)@, root, i) == mapping(
                            old(memory)@,
                            root,
                            i,
                        )
                },
            }
        }),
{
    proof {
        lemma_page_sizes();
    }
    let page = align_down(phys, 4096);
    let flags = PageFlags(
        PageFlags::PRESENT | PageFlags::WRITABLE | PageFlags::NO_EXECUTE | PageFlags::NO_CACHE
            | PageFlags::WRITE_THROUGH,
    );
    let result = pager.map_page(
        memory,
        VirtAddr(page + direct_map_offset),
        PhysAddr(page),
        flags,
        PageSize::Size4K,
        alloc,
    );
    if let Err(e) = result {
        if e != PagerError::AlreadyMapped {
            return None;
        }
    }
    Some(phys + direct_map_offset)
}

/// The memory with a fresh root at `frame` that has the upper half of `boot`.
pub open spec fn new_root(mem: Tables, frame: u64, boot: u64) -> Tables {
    synced(mem.insert(frame, Seq::new(512, |i: int| 0u64)), frame, boot)
}

/// Sets up page tables of the kernel's own: a fresh root that leads, in its
/// upper half, where the root in force leads.
pub fn init(pmm: &mut Allocator, memory: &mut PhysMemory, boot_cr3: u64) -> (r: Pager)
    requires
        old(pmm).wf(),
        first_fit(old(pmm)@, 0) is Some,
        old(memory).has(boot_cr3 & 0x000F_FFFF_FFFF_F000),
        forall|a: u64|
            a as int % 4096 == 0 && #[trigger] is_free(old(pmm)@, a as int) ==> old(memory).has(a),
    ensures
        final(pmm).wf(),
        first_fit(old(pmm)@, 0) matches Some(k) && {
            let frame = nth(old(pmm)@, k, 0);
            &&& r.root() == PhysAddr(frame)
            &&& final(pmm)@ == split_lists(pulled(old(pmm)@, k, 0), frame, k, 0)
            &&& final(memory)@ == new_root(
                old(memory)@,
                frame,
                boot_cr3 & 0x000F_FFFF_FFFF_F000,
            )
        },
{
    let boot = boot_cr3 & 0x000F_FFFF_FFFF_F000;
    proof {
        lemma_page_bytes();
    }
    let new_pml4 = pmm.alloc_page(PageSize::Size4K).unwrap();
    proof {
        memory.lemma_has();
        assert(memory.has(boot));
        assert(is_free(old(pmm)@, new_pml4 as int));
        assert(memory.has(new_pml4));
    }
    PageTable::from_phys(memory, PhysAddr(new_pml4)).zero();
    proof {
        memory.lemma_has();
        assert(memory@.contains_key(boot) && memory@.contains_key(new_pml4));
    }
    let mut kernel_pager = Pager::new(PhysAddr(new_pml4));
    kernel_pager.sync_kernel_mappings(memory, PhysAddr(boot));
    kernel_pager
}

} // verus!
