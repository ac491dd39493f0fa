//! Addresses, page sizes and page flags of the x86-64 memory management unit.

pub mod growth;
pub mod pager;

use vstd::prelude::*;

verus! {

#[derive(Debug, Clone, Copy, PartialEq, Eq, PartialOrd, Ord, Structural)]
pub struct PhysAddr(pub u64);

#[derive(Debug, Clone, Copy, PartialEq, Eq, PartialOrd, Ord, Structural)]
pub struct VirtAddr(pub u64);

/// The nine-bit index into the table at `level` (3 at the root, 0 at the leaf)
/// that a virtual address selects.
pub open spec fn table_index(addr: u64, level: nat) -> int {
    if level == 3 {
        (addr as int / 0x80_0000_0000) % 512
    } else if level == 2 {
        (addr as int / 0x4000_0000) % 512
    } else if level == 1 {
        (addr as int / 0x20_0000) % 512
    } else {
        (addr as int / 0x1000) % 512
    }
}

impl VirtAddr {
    pub fn p4_index(&self) -> (r: usize)
        ensures
            r == table_index(self.0, 3),
            r < 512,
    {
        let a = self.0;
        assert((a >> 39) & 511 == (a / 0x80_0000_0000) % 512) by (bit_vector);
        ((a >> 39) & 0o777) as usize
    }

    pub fn p3_index(&self) -> (r: usize)
        ensures
            r == table_index(self.0, 2),
            r < 512,
    {
        let a = self.0;
        assert((a >> 30) & 511 == (a / 0x4000_0000) % 512) by (bit_vector);
        ((a >> 30) & 0o777) as usize
    }

    pub fn p2_index(&self) -> (r: usize)
        ensures
            r == table_index(self.0, 1),
            r < 512,
    {
        let a = self.0;
        assert((a >> 21) & 511 == (a / 0x20_0000) % 512) by (bit_vector);
        ((a >> 21) & 0o777) as usize
    }

    pub fn p1_index(&self) -> (r: usize)
        ensures
            r == table_index(self.0, 0),
            r < 512,
    {
        let a = self.0;
        assert((a >> 12) & 511 == (a / 0x1000) % 512) by (bit_vector);
        ((a >> 12) & 0o777) as usize
    }
}

#[derive(Debug, Clone, Copy, PartialEq, Eq, PartialOrd, Ord, Structural)]
pub enum PageSize {
    Size4K,
    Size2M,
    Size1G,
}

impl PageSize {
    pub open spec fn spec_bytes(&self) -> u64 {
        match self {
            Self::Size4K => 0x1000,
            Self::Size2M => 0x20_0000,
            Self::Size1G => 0x4000_0000,
        }
    }

    #[verifier::when_used_as_spec(spec_bytes)]
    pub fn bytes(&self) -> (r: u64)
        ensures
            r == self.spec_bytes(),
    {
        match self {
            Self::Size4K => 4096,
            Self::Size2M => 512 * 4096,
            Self::Size1G => 512 * 512 * 4096,
        }
    }

    pub open spec fn spec_demoted(&self) -> Option<Self> {
        match self {
            Self::Size1G => Some(Self::Size2M),
            Self::Size2M => Some(Self::Size4K),
            Self::Size4K => None,
        }
    }

    /// The next smaller size.
    #[verifier::when_used_as_spec(spec_demoted)]
    pub fn demoted(&self) -> (r: Option<Self>)
        ensures
            r == self.spec_demoted(),
    {
        match self {
            Self::Size1G => Some(Self::Size2M),
            Self::Size2M => Some(Self::Size4K),
            Self::Size4K => None,
        }
    }

    pub fn is_base(&self) -> (r: bool)
        ensures
            r == (*self is Size4K),
    {
        matches!(self, Self::Size4K)
    }

    /// Whether a page of this size is larger than one of `other`.
    pub fn exceeds(&self, other: PageSize) -> (r: bool)
        ensures
            r == (self.bytes() > other.bytes()),
    {
        self.bytes() > other.bytes()
    }
}

/// A source of page-sized physical frames.
pub trait FrameAllocator {
    /// The allocator is in a state to be used.
    spec fn ready(&self) -> bool;

    /// The frames it can hand out.
    spec fn available(&self) -> Set<u64>;

    /// How many frames it hands out before it has none left, if none is given
    /// back meanwhile.
    spec fn capacity(&self) -> nat;

    /// It would take this frame back.
    spec fn accepts(&self, phys_addr: u64) -> bool;

    /// What holds of the allocator after frames have only been taken from it.
    spec fn drawn(&self, after: &Self) -> bool;

    /// Taking no frame is taking frames, and so is taking them one after the
    /// other.
    proof fn lemma_drawn(a: &Self, b: &Self, c: &Self)
        ensures
            a.drawn(a),
            a.drawn(b) && b.drawn(c) ==> a.drawn(c),
    ;

    /// What holds of the allocator after one frame has been given back to it.
    spec fn returned(&self, after: &Self, phys_addr: u64) -> bool;

    fn allocate_frame(&mut self) -> (r: Option<u64>)
        requires
            old(self).ready(),
        ensures
            final(self).ready(),
            old(self).drawn(final(self)),
            match r {
                Some(frame) => {
                    &&& old(self).available().contains(frame)
                    &&& final(self).available() == old(self).available().remove(frame)
                    &&& final(self).accepts(frame)
                    &&& final(self).capacity() + 1 == old(self).capacity()
                },
                None => {
                    &&& old(self).capacity() == 0
                    &&& final(self).available() == old(self).available()
                    &&& final(self).capacity() == 0
                },
            },
            forall|f: u64| #[trigger] old(self).accepts(f) ==> final(self).accepts(f),
    ;

    fn deallocate_frame(&mut self, phys_addr: u64)
        requires
            old(self).ready(),
            old(self).accepts(phys_addr),
        ensures
            final(self).ready(),
            old(self).returned(final(self), phys_addr),
            final(self).available() == old(self).available().insert(phys_addr),
            final(self).capacity() == old(self).capacity() + 1,
            forall|f: u64|
                f != phys_addr && #[trigger] old(self).accepts(f) ==> final(self).accepts(f),
    ;
}

/// The flag bits of a page table entry.
#[derive(Debug, Clone, Copy, PartialEq, Eq, Structural)]
pub struct PageFlags(pub u64);

impl PageFlags {
    pub const PRESENT: u64 = 1;

    pub const WRITABLE: u64 = 2;

    pub const USER_ACCESSIBLE: u64 = 4;

    pub const WRITE_THROUGH: u64 = 8;

    pub const NO_CACHE: u64 = 0x10;

    pub const ACCESSED: u64 = 0x20;

    pub const DIRTY: u64 = 0x40;

    pub const HUGE_PAGE: u64 = 0x80;

    pub const GLOBAL: u64 = 0x100;

    pub const NO_EXECUTE: u64 = 0x8000_0000_0000_0000;

    pub fn bits(&self) -> (r: u64)
        ensures
            r == self.0,
    {
        self.0
    }

    pub fn insert(self, other: PageFlags) -> (r: PageFlags)
        ensures
            r.0 == self.0 | other.0,
    {
        PageFlags(self.0 | other.0)
    }

    pub fn contains(&self, other: PageFlags) -> (r: bool)
        ensures
            r == (self.0 & other.0 == other.0),
    {
        self.0 & other.0 == other.0
    }
}

/// Where all of physical memory is mapped, once that is known.
pub struct DirectMapOffset {
    pub value: Option<u64>,
}

/// Says where physical memory is mapped. Only what is said first counts.
pub fn init_direct_map_offset(cell: &mut DirectMapOffset, offset: u64)
    ensures
        final(cell).value == match old(cell).value {
            Some(known) => Some(known),
            None => Some(offset),
        },
{
    if cell.value.is_none() {
        cell.value = Some(offset);
    }
}

/// The end of a range, at most the last address.
pub open spec fn range_end(start: u64, size: u64) -> int {
    if start + size > u64::MAX {
        u64::MAX as int
    } else {
        start + size
    }
}

/// The pages that a range touches, and the one that an empty range lies in.
pub open spec fn range_pages(start: u64, size: u64) -> Seq<u64> {
    let base = start - start as int % 4096;
    Seq::new(
        ((range_end(start, size) - base + 4095) / 4096) as nat,
        |i: int| (base + i * 4096) as u64,
    )
}

/// The pages whose translations have to be forgotten when those of a range
/// have changed.
pub fn flush_tlb_range(start: u64, size: u64) -> (r: Vec<u64>)
    ensures
        r@ == range_pages(start, size),
{
    let end = start.saturating_add(size);
    let mut current = start - start % 4096;
    let ghost base = current as int;
    let ghost all = range_pages(start, size);
    let mut pages: Vec<u64> = Vec::new();
    while current < end
        invariant
            end == range_end(start, size),
            base == start - start as int % 4096,
            all == range_pages(start, size),
            0 <= base <= current,
            pages@.len() <= all.len(),
            pages@ =~= all.take(pages@.len() as int),
            current == if base + pages@.len() * 4096 > u64::MAX {
                u64::MAX as int
            } else {
                base + pages@.len() * 4096
            },
        decreases u64::MAX - current,
    {
        assert(current == base + pages@.len() * 4096);
        pages.push(current);
        current = current.saturating_add(4096);
    }
    assert(pages@ =~= all);
    pages
}

} // verus!
