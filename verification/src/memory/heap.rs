//! Where the kernel's heap gets its pages from.

use crate::hal::mmu::PageSize;
use crate::memory::magazine::{given_back, taken};
use crate::memory::pmm::{
    block_bytes, first_fit, freed, nth, only_drawn, only_returned, pulled, split_lists,
};
use crate::memory::{calculate_order, PCAllocator};
use vstd::arithmetic::power2::{lemma2_to64, lemma_pow2_strictly_increases, pow2};
use vstd::prelude::*;

verus! {

pub struct KernelPageProvider;

/// The order of the block that holds `size` bytes of heap.
pub open spec fn is_heap_order(size: u64, order: int) -> bool {
    &&& 0 <= order <= 11
    &&& block_bytes(order) >= size
    &&& order > 0 ==> block_bytes(order - 1) < size
}

fn heap_order(size: u64) -> (r: usize)
    requires
        4096 < size <= 0x80_0000,
    ensures
        is_heap_order(size, r as int),
{
    let order = calculate_order(size);
    proof {
        lemma2_to64();
        if order > 11 {
            assert(4096 * pow2(11) < size);
        }
        if order > 0 {
            assert(4096 * pow2((order - 1) as nat) < size);
        }
    }
    order
}

impl KernelPageProvider {
    /// Finds room for `size` bytes: one page from the processor's stock, or a
    /// block of the buddy allocator where a page is too small. The result is
    /// the address in the direct map.
    pub fn allocate_pages(
        &self,
        alloc: &mut PCAllocator,
        size: u64,
        direct_map_offset: u64,
    ) -> (r: Option<u64>)
        requires
            old(alloc).wf(),
            size <= 0x80_0000,
            size <= 4096 ==> old(alloc).can_alloc(PageSize::Size4K),
            4096 * old(alloc).shared().frames() + direct_map_offset <= u64::MAX,
        ensures
            final(alloc).wf(),
            final(alloc).memory() == old(alloc).memory(),
            only_drawn(old(alloc).shared(), final(alloc).shared()),
            forall|b: u64, o: int|
                0 <= o <= 11 && old(alloc).is_out(b, o) ==> #[trigger] final(alloc).is_out(b, o),
            size <= 4096 ==> {
                &&& r matches Some(v) && v >= direct_map_offset && {
                    let phys = (v - direct_map_offset) as u64;
                    &&& final(alloc).is_out(phys, 0)
                    &&& if old(alloc).own().len() > 0 {
                        &&& phys == old(alloc).own().last()
                        &&& final(alloc).own() == old(alloc).own().drop_last()
                        &&& final(alloc).shared() == old(alloc).shared()
                    } else {
                        let (pages, rest) = taken(old(alloc).shared()@, 128);
                        &&& phys == pages.last()
                        &&& final(alloc).own() == pages.drop_last()
                        &&& final(alloc).shared()@ == rest
                    }
                }
            },
            size > 4096 ==> exists|order: int|
                {
                    &&& #[trigger] is_heap_order(size, order)
                    &&& match first_fit(old(alloc).shared()@, order) {
                        None => r is None && *final(alloc) == *old(alloc),
                        Some(k) => {
                            let block = nth(old(alloc).shared()@, k, 0);
                            &&& r == Some((block + direct_map_offset) as u64)
                            &&& final(alloc).is_out(block, order)
                            &&& final(alloc).own() == old(alloc).own()
                            &&& final(alloc).shared()@ == split_lists(
                                pulled(old(alloc).shared()@, k, 0),
                                block,
                                k,
                                order,
                            )
                        },
                    }
                },
    {
        if size <= 4096 {
            let phys = alloc.alloc_page(PageSize::Size4K);
            proof {
                crate::memory::pmm::lemma_page_bytes();
            }
            return Some(phys + direct_map_offset);
        }
        let order = heap_order(size);
        assert(is_heap_order(size, order as int));
        match alloc.alloc_order(order) {
            Some(phys) => {
                proof {
                    crate::memory::pmm::lemma_order_bytes(order as int);
                }
                Some(phys + direct_map_offset)
            },
            None => None,
        }
    }

    /// Takes the room of `size` bytes at an address of the direct map back;
    /// there is nothing to do for a null pointer.
    pub fn free_pages(&self, alloc: &mut PCAllocator, ptr: u64, size: u64, direct_map_offset: u64)
        requires
            old(alloc).wf(),
            size <= 0x80_0000,
            ptr != 0 ==> {
                &&& ptr >= direct_map_offset
                &&& size <= 4096 ==> old(alloc).is_out((ptr - direct_map_offset) as u64, 0)
                &&& forall|order: int| #[trigger]
                    is_heap_order(size, order) && size > 4096 ==> old(alloc).is_out(
                        (ptr - direct_map_offset) as u64,
                        order,
                    )
            },
        ensures
            final(alloc).wf(),
            final(alloc).memory() == old(alloc).memory(),
            only_returned(old(alloc).shared(), final(alloc).shared()),
            ptr == 0 ==> *final(alloc) == *old(alloc),
            ptr != 0 && size > 4096 ==> final(alloc).own() == old(alloc).own() && exists|
                order: int,
            | #[trigger]
                is_heap_order(size, order) && final(alloc).shared()@ == freed(
                    old(alloc).shared()@,
                    (ptr - direct_map_offset) as u64,
                    order,
                ),
            ptr != 0 && size <= 4096 ==> {
                let phys = (ptr - direct_map_offset) as u64;
                if old(alloc).own().len() < 256 {
                    &&& final(alloc).own() == old(alloc).own().push(phys)
                    &&& final(alloc).shared() == old(alloc).shared()
                } else {
                    &&& final(alloc).own() == old(alloc).own().take(128).push(phys)
                    &&& final(alloc).shared()@ == given_back(
                        old(alloc).shared()@,
                        old(alloc).own().skip(128),
                    )
                }
            },
    {
        if ptr == 0 {
            return;
        }
        let phys = ptr - direct_map_offset;
        if size <= 4096 {
            alloc.free(phys, PageSize::Size4K);
        } else {
            let order = heap_order(size);
            assert(is_heap_order(size, order as int));
            alloc.free_order(phys, order);
        }
    }
}

/// One order fits: what holds `size` bytes in `free_pages` is what held them in
/// `allocate_pages`.
pub proof fn law_heap_order_is_unique(size: u64, a: int, b: int)
    requires
        is_heap_order(size, a),
        is_heap_order(size, b),
    ensures
        a == b,
{
    if a < b {
        if a < b - 1 {
            lemma_pow2_strictly_increases(a as nat, (b - 1) as nat);
        }
    }
    if b < a {
        if b < a - 1 {
            lemma_pow2_strictly_increases(b as nat, (a - 1) as nat);
        }
    }
}

} // verus!
