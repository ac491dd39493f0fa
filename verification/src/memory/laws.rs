//! What holds of memory objects, permissions and page flags.

use crate::hal::mmu::pager::{page_number, Tables};
use crate::hal::mmu::{range_pages, table_index};
use crate::memory::vmm2::types::{PageSize, VmPermissions};
use crate::memory::file_pages::{read_in, VfsNode};
use crate::memory::frames::page_bytes;
use crate::memory::{is_order_for, order_of};
use crate::memory::pmm::{block_bytes, lemma_pin_bits, page_order, PageFrame, PF_PINNED};
use crate::memory::vmo::{
    cut, names_frame, padded, page_count, pinned_offset, present, with_pins, FileVmo,
    PagedBackingStore, Vmo,
};
use vstd::arithmetic::power2::{
    lemma2_to64, lemma_pow2_adds, lemma_pow2_strictly_increases, pow2,
};
use vstd::prelude::*;

verus! {

/// A page table entry lets its user do exactly what the permissions grant: bit 1
/// is set for writing, bit 2 for access by a user, bit 8 for a page that all
/// address spaces have, and bit 63 forbids to execute.
pub proof fn law_flags_grant_the_permissions(permissions: VmPermissions)
    ensures
        ({
            let flags = permissions.hardware_bits();
            &&& flags & 0x2 != 0 <==> permissions.0 & 1 == 1
            &&& flags & 0x4 != 0 <==> permissions.0 & 4 == 4
            &&& flags & 0x100 != 0 <==> permissions.0 & 8 == 8
            &&& flags & 0x8000_0000_0000_0000 == 0 <==> permissions.0 & 2 == 2
            &&& flags & 0x000F_FFFF_FFFF_F000 == 0
        }),
{
    lemma_permission_bits(
        permissions.0 & 1 == 1,
        permissions.0 & 4 == 4,
        permissions.0 & 8 == 8,
        permissions.0 & 2 == 2,
        0,
    );
}

/// The bits of an entry that four permissions make, and those of permissions
/// that a user has with or without being allowed to write and to execute. The
/// frame of an entry is one.
pub proof fn lemma_permission_bits(w: bool, u: bool, g: bool, x: bool, entry: u64)
    by (bit_vector)
    ensures
        ({
            let flags = (if w {
                2u64
            } else {
                0
            }) | (if u {
                4u64
            } else {
                0
            }) | (if g {
                0x100u64
            } else {
                0
            }) | (if x {
                0u64
            } else {
                0x8000_0000_0000_0000
            });
            &&& (flags & 0x2 != 0) == w
            &&& (flags & 0x4 != 0) == u
            &&& (flags & 0x100 != 0) == g
            &&& (flags & 0x8000_0000_0000_0000 == 0) == x
            &&& flags & 0x000F_FFFF_FFFF_F000 == 0
            &&& (flags | 1) & 0x000F_FFFF_FFFF_F000 == 0
            &&& (((flags | 1) | 1) & 0x2 != 0) == w
            &&& (((flags | 1) | 1) & 0x4 != 0) == u
            &&& (((flags | 1) | 1) & 0x8000_0000_0000_0000 == 0) == x
            &&& ((((flags | 1) | 1) | 0x80) & 0x2 != 0) == w
            &&& ((((flags | 1) | 1) | 0x80) & 0x4 != 0) == u
            &&& ((((flags | 1) | 1) | 0x80) & 0x8000_0000_0000_0000 == 0) == x
        }),
        (entry & 0x000F_FFFF_FFFF_F000) & 0x000F_FFFF_FFFF_F000 == entry & 0x000F_FFFF_FFFF_F000,
        ({
            let user = 4u16 | (if w {
                1u16
            } else {
                0
            }) | (if x {
                2u16
            } else {
                0
            });
            &&& (user & 1 == 1) == w
            &&& (user & 2 == 2) == x
            &&& user & 4 == 4
            &&& user & 16 == 0
        }),
{
}

/// The four indices of an address make up the number of its page.
pub proof fn law_indices_make_up_the_page(addr: u64)
    ensures
        ((table_index(addr, 3) * 512 + table_index(addr, 2)) * 512 + table_index(addr, 1)) * 512
            + table_index(addr, 0) == page_number(addr),
        page_number(addr) == (addr as int / 4096) % 0x10_0000_0000,
        forall|level: nat| 0 <= #[trigger] table_index(addr, level) < 512,
{
    let page = addr as int / 4096;
    let (a, b, c) = (page / 512, page / 512 / 512, page / 512 / 512 / 512);
    assert(addr as int / 0x20_0000 == a);
    assert(addr as int / 0x4000_0000 == b);
    assert(addr as int / 0x80_0000_0000 == c);
    assert(page == 512 * a + page % 512);
    assert(a == 512 * b + a % 512);
    assert(b == 512 * c + b % 512);
    assert(c == 512 * (c / 512) + c % 512);
    let low = ((c % 512 * 512 + b % 512) * 512 + a % 512) * 512 + page % 512;
    assert(page == 0x10_0000_0000 * (c / 512) + low);
    assert(0 <= low < 0x10_0000_0000);
    assert(page % 0x10_0000_0000 == low);
}

/// The pages that are flushed for a range are whole pages, each once, and they
/// are those that the range touches.
pub proof fn law_flushed_pages_are_those_of_the_range(start: u64, size: u64, page: u64)
    requires
        start + size + 4096 <= u64::MAX,
        size > 0,
    ensures
        range_pages(start, size).no_duplicates(),
        range_pages(start, size).contains(page) <==> {
            &&& page as int % 4096 == 0
            &&& page < start + size
            &&& start < page + 4096
        },
{
    let pages = range_pages(start, size);
    let base = start - start as int % 4096;
    if page as int % 4096 == 0 && page < start + size && start < page + 4096 {
        let i = (page - base) / 4096;
        assert(pages[i] == page);
    }
}

/// So many pages hold `size` bytes, and one less do not.
pub proof fn law_pages_hold_their_bytes(size: int)
    requires
        size > 0,
    ensures
        page_count(size) * 4096 >= size,
        (page_count(size) - 1) * 4096 < size,
{
}

/// A copy has, for each page inside the object that has a frame, what the frame
/// holds, and zeroes for every other page.
pub proof fn law_copy_has_what_the_frames_hold(vmo: Vmo, offset: u64, memory: Tables, i: int)
    requires
        0 <= i < 512,
    ensures
        offset < vmo.size && vmo.pages@.contains_key(offset) && vmo.pages@[offset] != 0
            ==> vmo.content(offset as int, memory) == memory[vmo.pages@[offset]],
        offset >= vmo.size || !vmo.pages@.contains_key(offset) || vmo.pages@[offset] == 0
            ==> vmo.content(offset as int, memory)[i] == 0,
{
}

/// A new object has a page for each offset inside it that is a multiple of the
/// page size, none of them with a frame, and no other.
pub proof fn law_new_object_has_empty_pages(size: u64, k: u64)
    requires
        size <= u64::MAX - 4096,
    ensures
        padded(Map::<u64, u64>::empty(), size, 0).contains_key(k) <==> k as int % 4096 == 0 && k
            < size,
        present(padded(Map::<u64, u64>::empty(), size, 0), k) is None,
{
}

/// An object that grows keeps its pages, and one that is then cut back to its
/// old size is as it was.
pub proof fn law_cutting_undoes_growing(pages: Map<u64, u64>, size: u64, new_size: u64, k: u64)
    requires
        size <= new_size <= u64::MAX - 4096,
        forall|k: u64| #[trigger] pages.contains_key(k) <==> k as int % 4096 == 0 && k < size,
    ensures
        present(padded(pages, new_size, 0), k) == present(pages, k),
        cut(padded(pages, new_size, 0), size) == pages,
{
    assert(cut(padded(pages, new_size, 0), size) =~= pages);
}

/// What is cut off an object is gone from it, and what lies before the cut
/// stays.
pub proof fn law_cut_keeps_what_lies_before(pages: Map<u64, u64>, size: u64, k: u64)
    ensures
        k < size ==> present(cut(pages, size), k) == present(pages, k),
        k >= size ==> !cut(pages, size).contains_key(k),
{
}

/// Pinning frames marks each of them as pinned, and releasing them takes the
/// mark away. No other frame is changed.
pub proof fn law_pinned_frames_are_marked(table: Seq<PageFrame>, addrs: Seq<u64>, f: int)
    requires
        0 <= f < table.len(),
    ensures
        ({
            let pinned = with_pins(table, addrs, true);
            let released = with_pins(table, addrs, false);
            &&& pinned.len() == table.len() && released.len() == table.len()
            &&& names_frame(addrs, f) ==> pinned[f].flags & PF_PINNED != 0
            &&& names_frame(addrs, f) ==> released[f].flags & PF_PINNED == 0
            &&& !names_frame(addrs, f) ==> pinned[f] == table[f] && released[f] == table[f]
        }),
    decreases addrs.len(),
{
    if addrs.len() > 0 {
        let rest = addrs.drop_last();
        law_pinned_frames_are_marked(table, rest, f);
        lemma_pin_bits(with_pins(table, rest, true)[f].flags);
        lemma_pin_bits(with_pins(table, rest, false)[f].flags);
        assert(addrs[addrs.len() - 1] == addrs.last());
        if names_frame(rest, f) {
            let i = choose|i: int| 0 <= i < rest.len() && #[trigger] rest[i] as int / 4096 == f;
            assert(addrs[i] as int / 4096 == f);
        } else if names_frame(addrs, f) && addrs.last() as int / 4096 != f {
            let i = choose|i: int| 0 <= i < addrs.len() && #[trigger] addrs[i] as int / 4096 == f;
            assert(rest[i] as int / 4096 == f);
        }
    }
}

/// The pages that are pinned for some bytes are all that hold one of them.
pub proof fn law_pinned_pages_hold_the_bytes(offset: u64, len: u64, k: u64)
    requires
        offset + len <= u64::MAX - 4096,
        len > 0,
        k as int % 4096 == 0,
    ensures
        pinned_offset(k, offset, len) <==> k < offset + len && offset < k + 4096,
{
}

/// A page of a file that has been read in holds the bytes of the file there, and
/// zeroes behind its end. A page that was in memory before has its frame still,
/// and holds what it held.
pub proof fn law_page_read_in_holds_the_file<N: VfsNode>(
    before: FileVmo,
    after: FileVmo,
    node: N,
    memory: Tables,
    memory_after: Tables,
    k: u64,
    i: int,
)
    requires
        read_in(before, after, node, memory, memory_after),
        present(after.frames(), k) is Some,
        0 <= i < 4096,
    ensures
        ({
            let page = page_bytes(memory_after[present(after.frames(), k)->0]);
            match present(before.frames(), k) {
                Some(frame) => present(after.frames(), k) == Some(frame) && page[i] == page_bytes(
                    memory[frame],
                )[i],
                None => node.bytes_at(k) matches Some(bytes) && page[i] == if i < bytes.len() {
                    bytes[i]
                } else {
                    0
                },
            }
        }),
{
    assert(after.page(node, memory_after, k) == before.page(node, memory, k));
}

/// A page is taken from as large a block as it is long.
pub proof fn law_pages_fit_their_blocks(size: PageSize)
    requires
        !(size is Size1G),
    ensures
        block_bytes(page_order(size)) == size.bytes(),
{
    lemma2_to64();
}

/// The order that is reckoned for some bytes has room for them, and the one
/// below it has not.
pub proof fn law_order_has_room(bytes: int)
    requires
        0 <= bytes <= 0x8000_0000_0000_0000,
    ensures
        4096 * pow2(order_of(bytes)) >= bytes,
        order_of(bytes) > 0 ==> 4096 * pow2((order_of(bytes) - 1) as nat) < bytes,
{
    lemma2_to64();
    assert(pow2(51) == 0x8_0000_0000_0000) by {
        lemma_pow2_adds(32, 19);
    }
    let o = lemma_order_exists(bytes, 51);
    assert(is_order_for(bytes, o));
    let order = order_of(bytes);
    assert(is_order_for(bytes, order));
    if order > 0 {
        assert(4096 * pow2((order - 1) as nat) < bytes);
    }
}

proof fn lemma_order_exists(bytes: int, top: nat) -> (o: nat)
    requires
        4096 * pow2(top) >= bytes,
    ensures
        is_order_for(bytes, o),
    decreases top,
{
    if top == 0 {
        top
    } else if 4096 * pow2((top - 1) as nat) >= bytes {
        lemma_order_exists(bytes, (top - 1) as nat)
    } else {
        assert forall|o: nat| o < top implies 4096 * #[trigger] pow2(o) < bytes by {
            if o < top - 1 {
                lemma_pow2_strictly_increases(o, (top - 1) as nat);
            }
        }
        top
    }
}

} // verus!
