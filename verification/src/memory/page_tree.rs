//! The pages of a memory object, by offset, in a radix tree of four levels.

use crate::hal::mmu::FrameAllocator;
use vstd::prelude::*;

verus! {

pub const FANOUT: usize = 512;

pub const PAGE_SHIFT: u64 = 12;

pub const LEVEL_SHIFT: u64 = 9;

pub const LEVEL_MASK: u64 = 0x1FF;

/// How a slot of the tree is read: empty, the address of a further node, or a
/// frame with its marks.
pub struct PageSlot;

impl PageSlot {
    pub const PRESENT_BIT: u64 = 1;

    pub const DIRTY_BIT: u64 = 2;

    pub const PFN_MASK: u64 = 0x000F_FFFF_FFFF_F000;

    pub fn is_emtpy(val: u64) -> (r: bool)
        ensures
            r == (val == 0),
    {
        val == 0
    }

    pub fn is_internal_node(val: u64) -> (r: bool)
        ensures
            r == (val != 0 && !leaf(val)),
    {
        val != 0 && (val & Self::PRESENT_BIT) == 0
    }

    pub fn is_leaf(val: u64) -> (r: bool)
        ensures
            r == leaf(val),
    {
        (val & Self::PRESENT_BIT) != 0
    }

    pub fn pack_leaf(phys: u64, dirty: bool) -> (r: u64)
        ensures
            r == packed(phys, dirty),
    {
        let mut val = phys & Self::PFN_MASK;
        val = val | Self::PRESENT_BIT;
        if dirty {
            val = val | Self::DIRTY_BIT;
        }
        val
    }

    pub fn unpack_phys(val: u64) -> (r: u64)
        ensures
            r == phys_of(val),
    {
        val & Self::PFN_MASK
    }

    /// The address of a node, as a slot holds it.
    pub fn pack_internal(node: u64) -> (r: u64)
        ensures
            r == node,
    {
        node
    }

    pub fn unpack_internal(val: u64) -> (r: u64)
        ensures
            r == val,
    {
        val
    }
}

pub open spec fn leaf(val: u64) -> bool {
    val & PageSlot::PRESENT_BIT != 0
}

pub open spec fn dirty(val: u64) -> bool {
    val & PageSlot::DIRTY_BIT != 0
}

pub open spec fn phys_of(val: u64) -> u64 {
    val & PageSlot::PFN_MASK
}

pub open spec fn packed(phys: u64, is_dirty: bool) -> u64 {
    let val = (phys & PageSlot::PFN_MASK) | PageSlot::PRESENT_BIT;
    if is_dirty {
        val | PageSlot::DIRTY_BIT
    } else {
        val
    }
}

/// A packed frame reads back as it was packed, and the dirty mark can be set
/// and cleared without touching the frame.
pub proof fn law_slots_read_back(phys: u64, is_dirty: bool, val: u64)
    ensures
        leaf(packed(phys, is_dirty)),
        dirty(packed(phys, is_dirty)) == is_dirty,
        phys_of(packed(phys, is_dirty)) == phys & PageSlot::PFN_MASK,
        leaf(val | PageSlot::DIRTY_BIT) == leaf(val),
        leaf(val & !PageSlot::DIRTY_BIT) == leaf(val),
        phys_of(val | PageSlot::DIRTY_BIT) == phys_of(val),
        phys_of(val & !PageSlot::DIRTY_BIT) == phys_of(val),
        dirty(val | PageSlot::DIRTY_BIT),
        !dirty(val & !PageSlot::DIRTY_BIT),
        !leaf(0),
        !dirty(0),
{
    assert({
        let m = phys & 0x000F_FFFF_FFFF_F000;
        &&& (m | 1) & 1 != 0
        &&& (m | 1) & 2 == 0
        &&& (m | 1) & 0x000F_FFFF_FFFF_F000 == m
        &&& ((m | 1) | 2) & 1 != 0
        &&& ((m | 1) | 2) & 2 != 0
        &&& ((m | 1) | 2) & 0x000F_FFFF_FFFF_F000 == m
        &&& (val | 2) & 1 == val & 1
        &&& (val & !2) & 1 == val & 1
        &&& (val | 2) & 0x000F_FFFF_FFFF_F000 == val & 0x000F_FFFF_FFFF_F000
        &&& (val & !2) & 0x000F_FFFF_FFFF_F000 == val & 0x000F_FFFF_FFFF_F000
        &&& (val | 2) & 2 != 0
        &&& (val & !2) & 2 == 0
        &&& 0u64 & 1 == 0
        &&& 0u64 & 2 == 0
    }) by (bit_vector);
}

/// A node: slots at the lowest level, further nodes above it.
pub struct RadixNode {
    entries: Vec<u64>,
    children: Vec<Option<Box<RadixNode>>>,
}

/// How many pages a node at `level` covers.
pub open spec fn span(level: nat) -> int {
    if level == 0 {
        0x200
    } else if level == 1 {
        0x4_0000
    } else if level == 2 {
        0x800_0000
    } else {
        0x10_0000_0000
    }
}

spec fn node_wf(link: Option<Box<RadixNode>>, level: nat) -> bool
    decreases level,
{
    match link {
        None => true,
        Some(node) => if level == 0 {
            node.entries@.len() == 512
        } else {
            &&& node.children@.len() == 512
            &&& forall|i: int|
                0 <= i < 512 ==> node_wf(#[trigger] node.children@[i], (level - 1) as nat)
        },
    }
}

/// The slot of page `p` below a node, where its lowest node exists.
spec fn slot_in(link: Option<Box<RadixNode>>, level: nat, p: int) -> Option<u64>
    decreases level,
{
    match link {
        None => None,
        Some(node) => if level == 0 {
            Some(node.entries@[p])
        } else {
            let below = span((level - 1) as nat);
            slot_in(node.children@[p / below], (level - 1) as nat, p % below)
        },
    }
}

/// The 36-bit number of the page at an offset.
pub open spec fn page_of(offset: u64) -> int {
    (offset as int / 4096) % 0x10_0000_0000
}

pub open spec fn is_page(p: int) -> bool {
    0 <= p < 0x10_0000_0000
}

impl RadixNode {
    /// An empty node; only the lowest level has slots, only the levels above
    /// have children.
    pub fn new(level: usize) -> (r: Box<Self>)
        requires
            level <= 3,
        ensures
            r.is_empty_at(level as nat),
    {
        let mut entries: Vec<u64> = Vec::new();
        let mut children: Vec<Option<Box<RadixNode>>> = Vec::new();
        let mut i: usize = 0;
        while i < FANOUT
            invariant
                i <= 512,
                level == 0 ==> entries@.len() == i && children@.len() == 0,
                level > 0 ==> children@.len() == i && entries@.len() == 0,
                forall|j: int| 0 <= j < entries@.len() ==> #[trigger] entries@[j] == 0,
                forall|j: int| 0 <= j < children@.len() ==> (#[trigger] children@[j]) is None,
            decreases 512 - i,
        {
            if level == 0 {
                entries.push(0);
            } else {
                children.push(None);
            }
            i += 1;
        }
        Box::new(RadixNode { entries, children })
    }

    pub closed spec fn is_empty_at(&self, level: nat) -> bool {
        if level == 0 {
            &&& self.entries@.len() == 512
            &&& forall|j: int| 0 <= j < 512 ==> #[trigger] self.entries@[j] == 0
        } else {
            &&& self.children@.len() == 512
            &&& forall|j: int| 0 <= j < 512 ==> (#[trigger] self.children@[j]) is None
        }
    }
}

fn find(link: &Option<Box<RadixNode>>, level: usize, p: u64) -> (r: Option<u64>)
    requires
        level <= 3,
        node_wf(*link, level as nat),
        p < span(level as nat),
    ensures
        r == slot_in(*link, level as nat, p as int),
    decreases level,
{
    match link {
        None => None,
        Some(node) => if level == 0 {
            Some(node.entries[p as usize])
        } else {
            let below = span_of(level - 1);
            proof {
                lemma_descend(level as nat, p as int, p as int);
            }
            find(&node.children[(p / below) as usize], level - 1, p % below)
        },
    }
}

fn span_of(level: usize) -> (r: u64)
    requires
        level <= 3,
    ensures
        r == span(level as nat),
{
    match level {
        0 => 0x200,
        1 => 0x4_0000,
        2 => 0x800_0000,
        _ => 0x10_0000_0000,
    }
}

/// Where a page lies below a node: in which child, and where in it.
proof fn lemma_descend(level: nat, p: int, q: int)
    requires
        1 <= level <= 3,
        0 <= p < span(level),
        0 <= q < span(level),
    ensures
        0 <= p / span((level - 1) as nat) < 512,
        0 <= p % span((level - 1) as nat) < span((level - 1) as nat),
        p / span((level - 1) as nat) == q / span((level - 1) as nat) ==> (p == q <==> p % span(
            (level - 1) as nat,
        ) == q % span((level - 1) as nat)),
        p / span((level - 1) as nat) == q / span((level - 1) as nat) ==> (p / 512 == q / 512 <==> (p
            % span((level - 1) as nat)) / 512 == (q % span((level - 1) as nat)) / 512),
        p / span((level - 1) as nat) != q / span((level - 1) as nat) ==> p / 512 != q / 512,
{
    if level == 1 {
    } else if level == 2 {
    } else {
    }
}

/// What the other slots look like once one of page `p` is written: those of
/// the same lowest node exist from then on.
spec fn beside(slot: Option<u64>, p: int, q: int) -> Option<u64> {
    if slot is None && p / 512 == q / 512 {
        Some(0)
    } else {
        slot
    }
}

/// Writes the slot of page `p`, adding the nodes that are missing on the way.
fn put(link: &mut Option<Box<RadixNode>>, level: usize, p: u64, value: u64)
    requires
        level <= 3,
        node_wf(*old(link), level as nat),
        p < span(level as nat),
    ensures
        node_wf(*final(link), level as nat),
        slot_in(*final(link), level as nat, p as int) == Some(value),
        forall|q: int|
            0 <= q < span(level as nat) && q != p ==> #[trigger] slot_in(
                *final(link),
                level as nat,
                q,
            ) == beside(slot_in(*old(link), level as nat, q), p as int, q),
    decreases level,
{
    let ghost before = *link;
    if link.is_none() {
        *link = Some(RadixNode::new(level));
    }
    let ghost made = *link;
    proof {
        reveal_with_fuel(slot_in, 2);
        reveal_with_fuel(node_wf, 2);
        if level > 0 {
            lemma_descend(level as nat, p as int, p as int);
        }
        if before is None {
            assert forall|q: int| 0 <= q < span(level as nat) implies #[trigger] slot_in(
                made,
                level as nat,
                q,
            ) == if level == 0 {
                Some(0u64)
            } else {
                None
            } by {
                if level > 0 {
                    let below = span((level - 1) as nat);
                    lemma_descend(level as nat, q, q);
                    assert(made->0.children@[q / below] is None);
                }
            }
        }
    }
    if let Some(node) = link {
        if level == 0 {
            node.entries[p as usize] = value;
        } else {
            let below = span_of(level - 1);
            let i = (p / below) as usize;
            put(&mut node.children[i], level - 1, p % below, value);
        }
    }
    proof {
        if level > 0 {
            let below = span((level - 1) as nat);
            let i = p as int / below;
            let after = *link;
            assert forall|q: int| 0 <= q < span(level as nat) && q != p implies #[trigger] slot_in(
                after,
                level as nat,
                q,
            ) == beside(slot_in(before, level as nat, q), p as int, q) by {
                let j = q / below;
                lemma_descend(level as nat, p as int, q);
                lemma_descend(level as nat, q, q);
                assert(slot_in(after, level as nat, q) == slot_in(
                    after->0.children@[j],
                    (level - 1) as nat,
                    q % below,
                ));
                if j == i {
                    assert(slot_in(after->0.children@[i], (level - 1) as nat, q % below) == beside(
                        slot_in(made->0.children@[i], (level - 1) as nat, q % below),
                        p as int % below,
                        q % below,
                    ));
                }
            }
        }
    }
}

pub struct PageTree {
    root: Option<Box<RadixNode>>,
}

impl PageTree {
    pub closed spec fn wf(&self) -> bool {
        node_wf(self.root, 3)
    }

    /// The slot of a page, where the tree has one.
    pub closed spec fn slot(&self, p: int) -> Option<u64> {
        slot_in(self.root, 3, p)
    }

    /// The frame of a page.
    pub open spec fn page(&self, p: int) -> Option<u64> {
        match self.slot(p) {
            Some(val) => if leaf(val) {
                Some(phys_of(val))
            } else {
                None
            },
            None => None,
        }
    }

    pub fn new() -> (r: Self)
        ensures
            r.wf(),
            forall|p: int| #[trigger] r.slot(p) is None,
    {
        PageTree { root: None }
    }

    /// The index of the slot for an offset in a node at `level`.
    pub fn index_for(offset: u64, level: usize) -> (r: usize)
        requires
            level <= 3,
        ensures
            r == if level == 0 {
                (offset as int / 0x1000) % 512
            } else if level == 1 {
                (offset as int / 0x20_0000) % 512
            } else if level == 2 {
                (offset as int / 0x4000_0000) % 512
            } else {
                (offset as int / 0x80_0000_0000) % 512
            },
    {
        let shift = PAGE_SHIFT + (level as u64 * LEVEL_SHIFT);
        proof {
            assert((offset >> 12) & 0x1ff == (offset / 0x1000) % 512 && (offset >> 21) & 0x1ff == (
            offset / 0x20_0000) % 512 && (offset >> 30) & 0x1ff == (offset / 0x4000_0000) % 512 && (
            offset >> 39) & 0x1ff == (offset / 0x80_0000_0000) % 512) by (bit_vector);
        }
        ((offset >> shift) & LEVEL_MASK) as usize
    }

    fn page_number(offset: u64) -> (r: u64)
        ensures
            r == page_of(offset),
    {
        (offset / 4096) % 0x10_0000_0000
    }

    pub fn get_leaf_entry(&self, offset: u64) -> (r: Option<u64>)
        requires
            self.wf(),
        ensures
            r == self.slot(page_of(offset)),
    {
        find(&self.root, 3, Self::page_number(offset))
    }

    pub fn get_page(&self, offset: u64) -> (r: Option<u64>)
        requires
            self.wf(),
        ensures
            r == self.page(page_of(offset)),
    {
        match self.get_leaf_entry(offset) {
            Some(val) => if PageSlot::is_leaf(val) {
                Some(PageSlot::unpack_phys(val))
            } else {
                None
            },
            None => None,
        }
    }

    /// The frame of the page at `offset`; a page that has none gets one from
    /// the allocator. Nothing comes back only when the allocator has none
    /// left.
    pub fn get_or_insert_page<A: FrameAllocator>(&mut self, offset: u64, alloc: &mut A) -> (r:
        Option<u64>)
        requires
            old(self).wf(),
            old(alloc).ready(),
            old(self).slot(page_of(offset)) matches Some(val) ==> leaf(val) || val == 0,
        ensures
            final(self).wf(),
            final(alloc).ready(),
            ({
                let p = page_of(offset);
                match old(self).page(p) {
                    Some(phys) => {
                        &&& r == Some(phys)
                        &&& *final(self) == *old(self)
                        &&& *final(alloc) == *old(alloc)
                    },
                    None => match r {
                        None => {
                            &&& old(alloc).capacity() == 0
                            &&& final(alloc).capacity() == 0
                            &&& final(alloc).available() == old(alloc).available()
                            &&& *final(self) == *old(self)
                        },
                        Some(frame) => {
                            &&& final(alloc).capacity() + 1 == old(alloc).capacity()
                            &&& old(alloc).available().contains(frame)
                            &&& final(alloc).available() == old(alloc).available().remove(frame)
                            &&& final(self).slot(p) == Some(packed(frame, false))
                            &&& forall|q: int|
                                is_page(q) && q != p ==> #[trigger] final(self).slot(q) == if old(
                                    self,
                                ).slot(q) is None && q / 512 == p / 512 {
                                    Some(0u64)
                                } else {
                                    old(self).slot(q)
                                }
                        },
                    },
                }
            }),
    {
        let p = Self::page_number(offset);
        if let Some(val) = self.get_leaf_entry(offset) {
            if PageSlot::is_leaf(val) {
                return Some(PageSlot::unpack_phys(val));
            }
        }
        let new_pfn = match alloc.allocate_frame() {
            Some(new_pfn) => new_pfn,
            None => {
                return None;
            },
        };
        put(&mut self.root, 3, p, PageSlot::pack_leaf(new_pfn, false));
        Some(new_pfn)
    }

    /// Marks the page at `offset` dirty or clean, if the tree has a slot for
    /// it.
    pub fn set_dirty(&mut self, offset: u64, dirty: bool) -> (r: Result<(), ()>)
        requires
            old(self).wf(),
        ensures
            final(self).wf(),
            match old(self).slot(page_of(offset)) {
                None => r is Err && *final(self) == *old(self),
                Some(val) => {
                    &&& r is Ok
                    &&& forall|q: int|
                        is_page(q) ==> #[trigger] final(self).slot(q) == if q == page_of(offset) {
                            Some(
                                if dirty {
                                    val | PageSlot::DIRTY_BIT
                                } else {
                                    val & !PageSlot::DIRTY_BIT
                                },
                            )
                        } else {
                            old(self).slot(q)
                        }
                },
            },
    {
        let p = Self::page_number(offset);
        let val = match self.get_leaf_entry(offset) {
            Some(val) => val,
            None => {
                return Err(());
            },
        };
        let new_val = if dirty {
            val | PageSlot::DIRTY_BIT
        } else {
            val & !PageSlot::DIRTY_BIT
        };
        self.replace(p, new_val);
        Ok(())
    }

    pub fn is_dirty(&self, offset: u64) -> (r: bool)
        requires
            self.wf(),
        ensures
            r == (self.slot(page_of(offset)) matches Some(val) && dirty(val)),
    {
        match self.get_leaf_entry(offset) {
            Some(val) => (val & PageSlot::DIRTY_BIT) != 0,
            None => false,
        }
    }

    /// Empties the slot of the page at `offset` and gives its frame.
    pub fn remove_page(&mut self, offset: u64) -> (r: Option<u64>)
        requires
            old(self).wf(),
        ensures
            final(self).wf(),
            r == old(self).page(page_of(offset)),
            forall|q: int|
                is_page(q) ==> #[trigger] final(self).slot(q) == if q == page_of(offset) && old(
                    self,
                ).slot(q) is Some {
                    Some(0u64)
                } else {
                    old(self).slot(q)
                },
    {
        let p = Self::page_number(offset);
        if let Some(old_val) = self.get_leaf_entry(offset) {
            self.replace(p, 0);
            if PageSlot::is_leaf(old_val) {
                return Some(PageSlot::unpack_phys(old_val));
            }
        }
        None
    }

    /// All pages that have a frame, in the order of their offsets, each with
    /// its offset and its frame.
    pub fn for_each_page(&self) -> (r: Vec<(u64, u64)>)
        requires
            self.wf(),
        ensures
            r@ == listed(|p: int| self.page(p), 0, 0x10_0000_0000),
    {
        let mut out: Vec<(u64, u64)> = Vec::new();
        let frames: Ghost<spec_fn(int) -> Option<u64>> = Ghost(|p: int| self.page(p));
        visit_node(&self.root, 3, 0, frames, &mut out);
        assert(out@ =~= listed(frames@, 0, 0x10_0000_0000));
        out
    }

    /// Writes a slot that the tree has.
    fn replace(&mut self, p: u64, value: u64)
        requires
            old(self).wf(),
            is_page(p as int),
            old(self).slot(p as int) is Some,
        ensures
            final(self).wf(),
            forall|q: int|
                is_page(q) ==> #[trigger] final(self).slot(q) == if q == p {
                    Some(value)
                } else {
                    old(self).slot(q)
                },
    {
        proof {
            lemma_shared_node(self.root, 3, p as int);
        }
        put(&mut self.root, 3, p, value);
    }
}

/// Pages of one lowest node have slots together.
proof fn lemma_shared_node(link: Option<Box<RadixNode>>, level: nat, p: int)
    requires
        level <= 3,
        0 <= p < span(level),
        slot_in(link, level, p) is Some,
    ensures
        forall|q: int|
            0 <= q < span(level) && q / 512 == p / 512 ==> (#[trigger] slot_in(
                link,
                level,
                q,
            )) is Some,
    decreases level,
{
    if level > 0 {
        let below = span((level - 1) as nat);
        let node = link->0;
        let i = p / below;
        lemma_descend(level, p, p);
        lemma_shared_node(node.children@[i], (level - 1) as nat, p % below);
        assert forall|q: int| 0 <= q < span(level) && q / 512 == p / 512 implies (
        #[trigger] slot_in(link, level, q)) is Some by {
            lemma_descend(level, p, q);
            lemma_descend(level, q, q);
            assert(slot_in(node.children@[i], (level - 1) as nat, q % below) is Some);
        }
    }
}

/// The pages from `lo` up to `hi` that `frames` gives a frame, in order, each
/// as its offset and its frame.
pub open spec fn listed(frames: spec_fn(int) -> Option<u64>, lo: int, hi: int) -> Seq<(u64, u64)>
    decreases hi - lo,
{
    if hi <= lo {
        Seq::empty()
    } else {
        match frames(hi - 1) {
            Some(phys) => listed(frames, lo, hi - 1).push((((hi - 1) * 4096) as u64, phys)),
            None => listed(frames, lo, hi - 1),
        }
    }
}

proof fn lemma_listed_joins(frames: spec_fn(int) -> Option<u64>, lo: int, mid: int, hi: int)
    requires
        lo <= mid <= hi,
    ensures
        listed(frames, lo, mid) + listed(frames, mid, hi) == listed(frames, lo, hi),
    decreases hi - mid,
{
    if mid < hi {
        lemma_listed_joins(frames, lo, mid, hi - 1);
        assert(listed(frames, lo, mid) + listed(frames, mid, hi) =~= listed(frames, lo, hi));
    } else {
        assert(listed(frames, lo, mid) + listed(frames, mid, hi) =~= listed(frames, lo, hi));
    }
}

proof fn lemma_listed_none(frames: spec_fn(int) -> Option<u64>, lo: int, hi: int)
    requires
        forall|q: int| lo <= q < hi ==> (#[trigger] frames(q)) is None,
    ensures
        listed(frames, lo, hi) == Seq::<(u64, u64)>::empty(),
    decreases hi - lo,
{
    if lo < hi {
        lemma_listed_none(frames, lo, hi - 1);
    }
}

/// Every page with a frame is listed, and nothing else.
pub proof fn law_listed_is_complete(frames: spec_fn(int) -> Option<u64>, hi: int, p: int, phys: u64)
    requires
        0 <= p < hi <= 0x10_0000_0000,
    ensures
        listed(frames, 0, hi).contains(((p * 4096) as u64, phys)) <==> frames(p) == Some(phys),
    decreases hi,
{
    let item = ((p * 4096) as u64, phys);
    let below = listed(frames, 0, hi - 1);
    let all = listed(frames, 0, hi);
    lemma_listed_bounds(frames, hi - 1);
    if p < hi - 1 {
        law_listed_is_complete(frames, hi - 1, p, phys);
        if below.contains(item) {
            let k = choose|k: int| 0 <= k < below.len() && below[k] == item;
            assert(all[k] == item);
        }
        if all.contains(item) {
            let k = choose|k: int| 0 <= k < all.len() && all[k] == item;
            assert(below[k] == item);
        }
    } else {
        if frames(p) == Some(phys) {
            assert(all[all.len() - 1] == item);
        }
        if all.contains(item) {
            let k = choose|k: int| 0 <= k < all.len() && all[k] == item;
            assert(k >= below.len());
        }
    }
}

proof fn lemma_listed_bounds(frames: spec_fn(int) -> Option<u64>, hi: int)
    requires
        0 <= hi <= 0x10_0000_0000,
    ensures
        forall|k: int|
            0 <= k < listed(frames, 0, hi).len() ==> (#[trigger] listed(frames, 0, hi)[k]).0 < hi
                * 4096,
    decreases hi,
{
    if hi > 0 {
        lemma_listed_bounds(frames, hi - 1);
        let below = listed(frames, 0, hi - 1);
        let all = listed(frames, 0, hi);
        assert forall|k: int| 0 <= k < all.len() implies (#[trigger] all[k]).0 < hi * 4096 by {
            if k < below.len() {
                assert(all[k] == below[k]);
            }
        }
    }
}

spec fn page_in(link: Option<Box<RadixNode>>, level: nat, p: int) -> Option<u64> {
    match slot_in(link, level, p) {
        Some(val) => if leaf(val) {
            Some(phys_of(val))
        } else {
            None
        },
        None => None,
    }
}

/// Appends the pages below a node that starts at page `base`.
#[verifier::rlimit(30)]
fn visit_node(
    link: &Option<Box<RadixNode>>,
    level: usize,
    base: u64,
    frames: Ghost<spec_fn(int) -> Option<u64>>,
    out: &mut Vec<(u64, u64)>,
)
    requires
        level <= 3,
        node_wf(*link, level as nat),
        base + span(level as nat) <= 0x10_0000_0000,
        forall|p: int|
            0 <= p < span(level as nat) ==> #[trigger] page_in(*link, level as nat, p) == (frames@)(
                base + p,
            ),
    ensures
        final(out)@ == old(out)@ + listed(frames@, base as int, base + span(level as nat)),
    decreases level,
{
    let node = match link {
        Some(node) => node,
        None => {
            proof {
                assert forall|q: int| base <= q < base + span(level as nat) implies (
                #[trigger] (frames@)(q)) is None by {
                    assert(page_in(*link, level as nat, q - base) == (frames@)(base + (q - base)));
                }
                lemma_listed_none(frames@, base as int, base + span(level as nat));
                assert(out@ + listed(frames@, base as int, base + span(level as nat)) =~= out@);
            }
            return;
        },
    };
    let ghost all = out@;
    let below: u64 = if level == 0 {
        1
    } else {
        span_of(level - 1)
    };
    assert(out@ =~= all + listed(frames@, base as int, base as int));
    let mut i: usize = 0;
    while i < FANOUT
        invariant
            level <= 3,
            i <= 512,
            node_wf(*link, level as nat),
            *link == Some(*node),
            base + span(level as nat) <= 0x10_0000_0000,
            below == if level == 0 {
                1
            } else {
                span((level - 1) as nat)
            },
            span(level as nat) == 512 * below,
            forall|p: int|
                0 <= p < span(level as nat) ==> #[trigger] page_in(*link, level as nat, p) == (
                frames@)(base + p),
            out@ == all + listed(frames@, base as int, base + i * below),
        decreases 512 - i,
    {
        let ghost here = base + i * below;
        let ghost there = base + (i + 1) * below;
        assert(there == here + below && 0 <= i * below && there <= base + 512 * below && (i * below)
            / (below as int) == i && 0 <= i * below < 512 * below) by (nonlinear_arith)
            requires
                0 <= i < 512,
                below > 0,
                here == base + i * below,
                there == base + (i + 1) * below,
        ;
        let ghost so_far = listed(frames@, base as int, here);
        let offset = base + i as u64 * below;
        if level > 0 {
            proof {
                assert forall|p: int| 0 <= p < span((level - 1) as nat) implies #[trigger] page_in(
                    node.children@[i as int],
                    (level - 1) as nat,
                    p,
                ) == (frames@)(offset + p) by {
                    let whole = i * below + p;
                    assert(0 <= whole < 512 * below && whole / (below as int) == i && whole % (
                    below as int) == p) by (nonlinear_arith)
                        requires
                            0 <= i < 512,
                            0 <= p < below,
                            whole == i * below + p,
                    ;
                    assert(page_in(*link, level as nat, whole) == (frames@)(base + whole));
                    assert(offset + p == base + whole);
                }
            }
            visit_node(&node.children[i], level - 1, offset, frames, out);
        } else {
            let val = node.entries[i];
            proof {
                assert(page_in(*link, level as nat, i as int) == (frames@)(base + i));
                assert(listed(frames@, here, here) =~= Seq::empty());
                reveal_with_fuel(listed, 2);
            }
            if PageSlot::is_leaf(val) {
                out.push((offset * 4096, PageSlot::unpack_phys(val)));
            }
            assert(out@ =~= all + so_far + listed(frames@, here, there));
        }
        proof {
            lemma_listed_joins(frames@, base as int, here, there);
            assert(out@ =~= all + (so_far + listed(frames@, here, there)));
        }
        i += 1;
    }
}

/// What `set_dirty` writes is what `is_dirty` reads, and the frame stays.
pub proof fn law_dirty_round_trip(before: PageTree, after: PageTree, p: int, val: u64, set: bool)
    requires
        before.slot(p) == Some(val),
        after.slot(p) == Some(
            if set {
                val | PageSlot::DIRTY_BIT
            } else {
                val & !PageSlot::DIRTY_BIT
            },
        ),
    ensures
        dirty(after.slot(p)->0) == set,
        after.page(p) == before.page(p),
{
    law_slots_read_back(0, false, val);
}

} // verus!
