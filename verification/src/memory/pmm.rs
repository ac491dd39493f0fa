//! The buddy allocator of physical frames.
//!
//! Free blocks of each order hang in a doubly linked list. The lists' contents,
//! from head to tail, are the allocator's model; everything the frame database
//! and the links hold is tied to them by the invariant.

use crate::hal::mmu::PageSize;
use crate::memory::align::{lemma_mask, power_of_two};
use vstd::arithmetic::power2::{lemma2_to64, lemma_pow2_pos, lemma_pow2_unfold, pow2};
use vstd::bits::lemma_u64_shl_is_mul;
use vstd::prelude::*;

verus! {

pub const ORDER_MAX: usize = 11;

pub const HUGE_PAGE_SIZE: u64 = 0x20_0000;

pub const NORMAL_PAGE_SIZE: u64 = 0x1000;

pub const PF_FREE: u16 = 1;

pub const PF_KERNEL: u16 = 2;

pub const PF_PAGE_TABLE: u16 = 4;

pub const PF_VMO: u16 = 8;

pub const PF_PINNED: u16 = 16;

pub const PF_BUDDY_HEAD: u16 = 32;

/// The links of a free block, zero where there is no neighbour.
#[derive(Clone, Copy)]
pub struct FreeBlock {
    prev: u64,
    next: u64,
}

/// What is known of one physical frame.
#[derive(Debug, Clone, Copy, PartialEq, Eq, Structural)]
pub struct PageFrame {
    pub refcount: u32,
    pub flags: u16,
    pub buddy_order: u16,
}

/// The size of a block, in bytes.
pub open spec fn block_bytes(order: int) -> int {
    (4096 * pow2(order as nat)) as int
}

/// The frame number of an address.
pub open spec fn frame_of(addr: u64) -> int {
    addr as int / 4096
}

pub open spec fn head_flags() -> u16 {
    PF_FREE | PF_BUDDY_HEAD
}

pub open spec fn is_head(frame: PageFrame) -> bool {
    frame.flags & head_flags() == head_flags()
}

/// The block next to `block` with which it makes up one of the next order.
pub open spec fn buddy(block: u64, order: int) -> u64 {
    block ^ (block_bytes(order) as u64)
}

/// A block of an order inside a memory of `frames` frames.
pub open spec fn is_block(block: u64, order: int, frames: int) -> bool {
    &&& block != 0
    &&& block as int % block_bytes(order) == 0
    &&& block + block_bytes(order) <= 4096 * frames
}

/// The free blocks of each order.
pub type FreeLists = Seq<Seq<u64>>;

/// The `i`-th free block of an order.
pub open spec fn nth(lists: FreeLists, order: int, i: int) -> u64 {
    lists[order][i]
}

pub open spec fn in_lists(lists: FreeLists, order: int, i: int) -> bool {
    0 <= order < lists.len() && 0 <= i < lists[order].len()
}

/// The head and the links spell out the list.
spec fn linked(links: Seq<FreeBlock>, head: u64, list: Seq<u64>) -> bool {
    &&& head == if list.len() == 0 {
        0
    } else {
        list[0]
    }
    &&& forall|i: int|
        0 <= i < list.len() ==> {
            let l = links[frame_of(#[trigger] list[i])];
            &&& l.next == if i + 1 < list.len() {
                list[i + 1]
            } else {
                0
            }
            &&& l.prev == if i > 0 {
                list[i - 1]
            } else {
                0
            }
        }
}

pub open spec fn apart(b: u64, o: int, c: u64, p: int) -> bool {
    b + block_bytes(o) <= c || c + block_bytes(p) <= b
}

/// The free blocks lie in memory and none overlaps another.
pub open spec fn sound_lists(lists: FreeLists, frames: int) -> bool {
    &&& lists.len() == 12
    &&& forall|o: int, i: int|
        in_lists(lists, o, i) ==> is_block(#[trigger] nth(lists, o, i), o, frames)
    &&& forall|o: int, i: int, p: int, j: int|
        #![trigger nth(lists, o, i), nth(lists, p, j)]
        in_lists(lists, o, i) && in_lists(lists, p, j) && !(o == p && i == j) ==> apart(
            nth(lists, o, i),
            o,
            nth(lists, p, j),
            p,
        )
}

/// Frame `f` heads a free block of its order.
pub open spec fn heads(lists: FreeLists, f: int, order: int) -> bool {
    exists|i: int| in_lists(lists, order, i) && #[trigger] nth(lists, order, i) == 4096 * f
}

/// The frame database marks the heads of the free blocks, and nothing else as
/// such.
pub open spec fn marks_heads(lists: FreeLists, pfndb: Seq<PageFrame>) -> bool {
    &&& forall|o: int, i: int|
        in_lists(lists, o, i) ==> {
            let f = pfndb[frame_of(#[trigger] nth(lists, o, i))];
            is_head(f) && f.buddy_order == o
        }
    &&& forall|f: int|
        0 <= f < pfndb.len() && is_head(#[trigger] pfndb[f]) ==> heads(
            lists,
            f,
            pfndb[f].buddy_order as int,
        )
}

pub struct Allocator {
    freelist: [u64; 12],
    links: Vec<FreeBlock>,
    pfndb: Vec<PageFrame>,
    pfndb_phys_addr: u64,
    lists: Ghost<FreeLists>,
}

impl Allocator {
    /// The free blocks of each order, from the head of its list to the tail.
    pub closed spec fn view(&self) -> FreeLists {
        self.lists@
    }

    /// The frame database.
    pub closed spec fn table(&self) -> Seq<PageFrame> {
        self.pfndb@
    }

    pub open spec fn frames(&self) -> int {
        self.table().len() as int
    }

    /// The lists are in order, whatever the frame database says.
    spec fn wf_links(&self) -> bool {
        &&& self.links@.len() == self.pfndb@.len()
        &&& 4096 * self.pfndb@.len() <= u64::MAX
        &&& sound_lists(self.lists@, self.frames())
        &&& forall|o: int|
            0 <= o < 12 ==> linked(self.links@, #[trigger] self.freelist@[o], self.lists@[o])
    }

    pub closed spec fn wf(&self) -> bool {
        &&& self.wf_links()
        &&& marks_heads(self.lists@, self.pfndb@)
        &&& joined(self.lists@)
    }

    /// What the invariant says of the free lists.
    pub proof fn lemma_sound(&self)
        requires
            self.wf(),
        ensures
            sound_lists(self@, self.frames()),
            4096 * self.frames() <= u64::MAX,
            joined(self@),
    {
    }

    /// What is known of a frame.
    pub fn frame(&self, pfn: u64) -> (r: Option<PageFrame>)
        ensures
            r == (if pfn < self.frames() {
                Some(self.table()[pfn as int])
            } else {
                None
            }),
    {
        if pfn < self.pfndb.len() as u64 {
            Some(self.pfndb[pfn as usize])
        } else {
            None
        }
    }

    /// Where the frame database stands.
    pub closed spec fn database(&self) -> u64 {
        self.pfndb_phys_addr
    }

    pub fn pfndb_phys_addr(&self) -> (r: u64)
        ensures
            r == self.database(),
    {
        self.pfndb_phys_addr
    }

    /// Whether at least `n` pages are free.
    pub fn has_pages(&self, n: u64) -> (r: bool)
        requires
            self.wf(),
            n <= 0x1_0000_0000_0000,
        ensures
            r == (free_pages(self@) >= n),
    {
        let ghost lists = self@;
        let mut total: u64 = 0;
        let mut order: usize = 0;
        let mut size: u64 = 1;
        proof {
            lemma2_to64();
        }
        while order < 12
            invariant
                self.wf(),
                lists == self@,
                order <= 12,
                size == pow2(order as nat),
                total < n || total == 0,
                n <= 0x1_0000_0000_0000,
                total == pages_below(lists, order as int),
            decreases 12 - order,
        {
            let ghost o = order as int;
            let ghost list = lists[o];
            let mut current = self.freelist[order];
            let count = self.links.len();
            let ghost mut i: int = 0;
            let ghost base = total;
            proof {
                assert(linked(self.links@, self.freelist@[o], list));
                lemma_list_frames(lists, o, self.frames());
                lemma_block_bytes(o);
                lemma2_to64();
                lemma_pow2_unfold((o + 1) as nat);
                lemma_pages_grow(lists, o + 1, 12);
            }
            while current != 0
                invariant
                    self.wf(),
                    lists == self@,
                    count == self.links@.len(),
                    0 <= o < 12,
                    o == order,
                    list == lists[o],
                    linked(self.links@, self.freelist@[o], list),
                    forall|j: int|
                        0 <= j < list.len() ==> 0 <= frame_of(#[trigger] list[j]) < self.frames()
                            && list[j] != 0,
                    0 <= i <= list.len(),
                    current == if i < list.len() {
                        list[i]
                    } else {
                        0
                    },
                    size == pow2(o as nat),
                    size <= 2048,
                    base == pages_below(lists, o),
                    total == base + i * size,
                    total < n || total == 0,
                    n <= 0x1_0000_0000_0000,
                    free_pages(lists) >= pages_below(lists, o + 1),
                decreases list.len() - i,
            {
                proof {
                    assert((i + 1) * size == i * size + size) by (nonlinear_arith);
                    assert(list[i] == current);
                    assert((i + 1) * size <= list.len() * size) by (nonlinear_arith)
                        requires
                            i + 1 <= list.len(),
                            size >= 0,
                    ;
                }
                total += size;
                if total >= n {
                    return true;
                }
                current = self.links[(current / NORMAL_PAGE_SIZE) as usize].next;
                proof {
                    i = i + 1;
                }
            }
            proof {
                assert(i == list.len());
            }
            order += 1;
            size = size * 2;
        }
        total >= n
    }

    /// Sets or clears the pinned mark of a frame; a frame outside the memory is
    /// passed over.
    pub fn set_pinned(&mut self, pfn: u64, pinned: bool)
        requires
            old(self).wf(),
        ensures
            final(self).wf(),
            final(self)@ == old(self)@,
            final(self).table() == with_pin(old(self).table(), pfn as int, pinned),
    {
        if pfn < self.pfndb.len() as u64 {
            let i = pfn as usize;
            let ghost db = self.pfndb@;
            let mut frame = self.pfndb[i];
            proof {
                lemma_pin_bits(frame.flags);
            }
            if pinned {
                frame.flags = frame.flags | PF_PINNED;
            } else {
                frame.flags = frame.flags & !PF_PINNED;
            }
            self.pfndb[i] = frame;
            proof {
                let after = self.pfndb@;
                assert forall|f: int| 0 <= f < db.len() implies is_head(#[trigger] after[f])
                    == is_head(db[f]) && after[f].buddy_order == db[f].buddy_order by {}
                assert(marks_heads(self@, after)) by {
                    assert forall|o: int, j: int| in_lists(self@, o, j) implies {
                        let x = after[frame_of(#[trigger] nth(self@, o, j))];
                        is_head(x) && x.buddy_order == o
                    } by {
                        lemma_frame(nth(self@, o, j), o, db.len() as int);
                    }
                    assert forall|f: int|
                        0 <= f < after.len() && is_head(#[trigger] after[f]) implies heads(
                        self@,
                        f,
                        after[f].buddy_order as int,
                    ) by {
                        assert(is_head(db[f]));
                    }
                }
            }
        }
    }

    /// Hangs a block in at the head of its list.
    fn push_front(&mut self, order: usize, block: u64)
        requires
            old(self).wf_links(),
            order <= 11,
            is_block(block, order as int, old(self).frames()),
            forall|p: int, j: int|
                in_lists(old(self)@, p, j) ==> apart(
                    block,
                    order as int,
                    #[trigger] nth(old(self)@, p, j),
                    p,
                ),
        ensures
            final(self).wf_links(),
            final(self)@ == pushed(old(self)@, order as int, block),
            final(self).pfndb == old(self).pfndb,
            final(self).pfndb_phys_addr == old(self).pfndb_phys_addr,
    {
        let ghost lists = self@;
        let ghost links = self.links@;
        let ghost o = order as int;
        let ghost after = pushed(lists, o, block);
        let count = self.links.len();
        proof {
            lemma_block_bytes(o);
            lemma_frame(block, o, self.frames());
            lemma_pushed(lists, o, block, self.frames());
        }
        let old_head = self.freelist[order];
        self.links[(block / NORMAL_PAGE_SIZE) as usize] = FreeBlock { prev: 0, next: old_head };
        proof {
            assert(linked(links, self.freelist@[o], lists[o]));
            if lists[o].len() > 0 {
                assert(nth(lists, o, 0) == old_head);
                lemma_frame(old_head, o, self.frames());
            }
        }
        if old_head != 0 {
            let i = (old_head / NORMAL_PAGE_SIZE) as usize;
            let next = self.links[i].next;
            self.links[i] = FreeBlock { prev: block, next };
        }
        self.freelist[order] = block;
        self.lists = Ghost(after);
        proof {
            assert forall|p: int| 0 <= p < 12 implies linked(
                self.links@,
                #[trigger] self.freelist@[p],
                after[p],
            ) by {
                assert(linked(links, old(self).freelist@[p], lists[p]));
                assert forall|i: int| 0 <= i < lists[p].len() implies frame_of(
                    #[trigger] lists[p][i],
                ) != frame_of(block) && 0 <= frame_of(lists[p][i]) < links.len() by {
                    assert(nth(lists, p, i) == lists[p][i]);
                    lemma_block_bytes(p);
                    lemma_frame(lists[p][i], p, self.frames());
                    lemma_frames_differ(block, o, lists[p][i], p, self.frames());
                }
                if p != o {
                    assert forall|i: int| 0 <= i < lists[p].len() && old_head != 0 implies frame_of(
                        #[trigger] lists[p][i],
                    ) != frame_of(old_head) by {
                        assert(nth(lists, p, i) == lists[p][i]);
                        assert(nth(lists, o, 0) == old_head);
                        lemma_frames_differ(old_head, o, lists[p][i], p, self.frames());
                    }
                    assert(linked(self.links@, self.freelist@[p], after[p]));
                } else {
                    assert forall|i: int| 0 < i < lists[p].len() implies frame_of(
                        #[trigger] lists[p][i],
                    ) != frame_of(old_head) by {
                        assert(nth(lists, p, i) == lists[p][i]);
                        assert(nth(lists, o, 0) == old_head);
                        lemma_frames_differ(old_head, o, lists[p][i], p, self.frames());
                    }
                    let n = after[o];
                    assert forall|i: int| 0 <= i < n.len() implies #[trigger] n[i] == if i == 0 {
                        block
                    } else {
                        lists[o][i - 1]
                    } by {}
                    assert forall|i: int| 0 <= i < n.len() implies {
                        let l = self.links@[frame_of(#[trigger] n[i])];
                        &&& l.next == if i + 1 < n.len() {
                            n[i + 1]
                        } else {
                            0
                        }
                        &&& l.prev == if i > 0 {
                            n[i - 1]
                        } else {
                            0
                        }
                    } by {
                        if i > 0 {
                            assert(n[i] == lists[o][i - 1]);
                        }
                        if i > 1 {
                            assert(n[i - 1] == lists[o][i - 2]);
                        }
                        if i + 1 < n.len() {
                            assert(n[i + 1] == lists[o][i]);
                        }
                    }
                }
            }
        }
    }

    /// Takes the `i`-th block of a list out of it.
    #[verifier::spinoff_prover]
    #[verifier::rlimit(40)]
    fn unlink(&mut self, order: usize, block: u64, Ghost(i): Ghost<int>)
        requires
            old(self).wf_links(),
            in_lists(old(self)@, order as int, i),
            nth(old(self)@, order as int, i) == block,
        ensures
            final(self).wf_links(),
            final(self)@ == pulled(old(self)@, order as int, i),
            final(self).pfndb == old(self).pfndb,
            final(self).pfndb_phys_addr == old(self).pfndb_phys_addr,
    {
        let ghost lists = self@;
        let ghost links = self.links@;
        let ghost frames = self.frames();
        let ghost o = order as int;
        let ghost list = lists[o];
        let ghost after = pulled(lists, o, i);
        let count = self.links.len();
        proof {
            assert(nth(lists, o, i) == block);
            lemma_frame(block, o, frames);
            lemma_pulled(lists, o, i, frames);
            lemma_list_frames(lists, o, frames);
            assert(linked(links, self.freelist@[o], list));
            assert(list[i] == block);
        }
        let at = (block / NORMAL_PAGE_SIZE) as usize;
        let prev = self.links[at].prev;
        let next = self.links[at].next;
        proof {
            if i > 0 {
                assert(prev == list[i - 1]);
            }
            if i + 1 < list.len() {
                assert(next == list[i + 1]);
            }
        }
        if prev != 0 {
            let p = (prev / NORMAL_PAGE_SIZE) as usize;
            let before = self.links[p].prev;
            self.links[p] = FreeBlock { prev: before, next };
        } else {
            self.freelist[order] = next;
        }
        if next != 0 {
            let n = (next / NORMAL_PAGE_SIZE) as usize;
            let behind = self.links[n].next;
            self.links[n] = FreeBlock { prev, next: behind };
        }
        self.links[at] = FreeBlock { prev: 0, next: 0 };
        self.lists = Ghost(after);
        proof {
            assert(self.links@ == relinked(links, list, i));
            lemma_relinked(links, list, i, old(self).freelist@[o]);
            assert forall|p: int| 0 <= p < 12 implies linked(
                self.links@,
                #[trigger] self.freelist@[p],
                after[p],
            ) by {
                if p != o {
                    assert(linked(links, old(self).freelist@[p], lists[p]));
                    lemma_list_frames(lists, p, frames);
                    lemma_other_list(lists, p, o, frames);
                    lemma_relinked_elsewhere(links, list, i, lists[p]);
                }
            }
        }
    }

    pub fn new() -> (r: Self)
        ensures
            r.wf(),
            r@ == Seq::new(12, |o: int| Seq::<u64>::empty()),
            r.table() == Seq::<PageFrame>::empty(),
    {
        let r = Self {
            freelist: [0;12],
            links: Vec::new(),
            pfndb: Vec::new(),
            pfndb_phys_addr: 0,
            lists: Ghost(Seq::new(12, |o: int| Seq::<u64>::empty())),
        };
        r
    }

    /// Halves `block` from `order` down to `target_order` and frees the upper
    /// halves.
    fn split_block(&mut self, addr: u64, order: usize, target_order: usize)
        requires
            old(self).wf(),
            target_order <= order <= 11,
            is_block(addr, order as int, old(self).frames()),
            forall|p: int, j: int|
                in_lists(old(self)@, p, j) ==> apart(
                    addr,
                    order as int,
                    #[trigger] nth(old(self)@, p, j),
                    p,
                ),
        ensures
            final(self).wf(),
            final(self)@ == split_lists(old(self)@, addr, order as int, target_order as int),
            final(self).frames() == old(self).frames(),
            final(self).pfndb_phys_addr == old(self).pfndb_phys_addr,
            is_block(addr, target_order as int, final(self).frames()),
            forall|p: int, j: int|
                in_lists(final(self)@, p, j) ==> apart(
                    addr,
                    target_order as int,
                    #[trigger] nth(final(self)@, p, j),
                    p,
                ),
            forall|a: int| #[trigger]
                is_free(final(self)@, a) <==> is_free(old(self)@, a) || addr + block_bytes(
                    target_order as int,
                ) <= a < addr + block_bytes(order as int),
            final(self).table()[frame_of(addr)] == old(self).table()[frame_of(addr)],
            none_pinned(old(self).table(), final(self).table()),
            forall|f: int|
                0 <= f < old(self).frames() && !(addr <= 4096 * f < addr + block_bytes(
                    order as int,
                )) ==> #[trigger] final(self).table()[f] == old(self).table()[f],
    {
        let mut order = order;
        let ghost top = order as int;
        let count = self.links.len();
        proof {
            lemma_block_bytes(top);
            lemma_frame(addr, top, self.frames());
        }
        while order > target_order
            invariant
                count == self.links@.len(),
                self.wf(),
                target_order <= order <= top <= 11,
                self.frames() == old(self).frames(),
                self.pfndb_phys_addr == old(self).pfndb_phys_addr,
                is_block(addr, order as int, self.frames()),
                block_bytes(order as int) <= block_bytes(top),
                addr + block_bytes(top) <= 4096 * self.frames(),
                addr as int % 4096 == 0,
                forall|p: int, j: int|
                    in_lists(self@, p, j) ==> apart(
                        addr,
                        order as int,
                        #[trigger] nth(self@, p, j),
                        p,
                    ),
                split_lists(self@, addr, order as int, target_order as int) == split_lists(
                    old(self)@,
                    addr,
                    top,
                    target_order as int,
                ),
                forall|a: int| #[trigger]
                    is_free(self@, a) <==> is_free(old(self)@, a) || addr + block_bytes(
                        order as int,
                    ) <= a < addr + block_bytes(top),
                self.table()[frame_of(addr)] == old(self).table()[frame_of(addr)],
                none_pinned(old(self).table(), self.table()),
                forall|f: int|
                    0 <= f < old(self).frames() && !(addr <= 4096 * f < addr + block_bytes(top))
                        ==> #[trigger] self.table()[f] == old(self).table()[f],
            decreases order,
        {
            let ghost before = self@;
            let ghost db = self.pfndb@;
            order -= 1;
            let ghost o = order as int;
            proof {
                lemma_block_bytes(o);
                lemma_block_bytes(o + 1);
                lemma_halves(addr, o, self.frames());
                lemma_flag_bits(0);
            }
            let buddy_addr = addr + (NORMAL_PAGE_SIZE << (order as u64));
            proof {
                assert forall|p: int, j: int| in_lists(before, p, j) implies apart(
                    buddy_addr,
                    o,
                    #[trigger] nth(before, p, j),
                    p,
                ) && apart(addr, o, nth(before, p, j), p) by {
                    assert(apart(addr, o + 1, nth(before, p, j), p));
                }
                lemma_frame(buddy_addr, o, self.frames());
                lemma_split_joined(before, addr, o, self.frames());
            }
            self.push_front(order, buddy_addr);
            let head = PageFrame {
                refcount: 0,
                flags: PF_FREE | PF_BUDDY_HEAD,
                buddy_order: order as u16,
            };
            self.pfndb[(buddy_addr / NORMAL_PAGE_SIZE) as usize] = head;
            proof {
                lemma_marks_pushed(before, db, o, buddy_addr, head);
                lemma_pushed_free(before, o, buddy_addr);
                lemma_apart_pushed(before, addr, o, buddy_addr);
            }
        }
    }

    /// Hands out a block of `order`, from the smallest free block that is large
    /// enough.
    pub fn alloc_order(&mut self, order: usize) -> (r: Option<u64>)
        requires
            old(self).wf(),
            order <= ORDER_MAX,
        ensures
            final(self).wf(),
            final(self).frames() == old(self).frames(),
            final(self).database() == old(self).database(),
            match first_fit(old(self)@, order as int) {
                None => r is None && *final(self) == *old(self),
                Some(k) => {
                    let block = nth(old(self)@, k, 0);
                    &&& r == Some(block)
                    &&& final(self)@ == split_lists(
                        pulled(old(self)@, k, 0),
                        block,
                        k,
                        order as int,
                    )
                    &&& is_block(block, order as int, final(self).frames())
                    &&& forall|a: int|
                        block <= a < block + block_bytes(order as int) ==> #[trigger] is_free(
                            old(self)@,
                            a,
                        )
                    &&& forall|a: int| #[trigger]
                        is_free(final(self)@, a) <==> is_free(old(self)@, a) && !(block <= a < block
                            + block_bytes(order as int))
                    &&& final(self).table()[frame_of(block)] == (PageFrame {
                        refcount: 1,
                        flags: PF_KERNEL,
                        ..old(self).table()[frame_of(block)]
                    })
                    &&& none_pinned(old(self).table(), final(self).table())
                    &&& forall|f: int|
                        0 <= f < old(self).frames() && !(block <= 4096 * f < block + block_bytes(k))
                            ==> #[trigger] final(self).table()[f] == old(self).table()[f]
                },
            },
    {
        let mut from = order;
        let ghost lists = self@;
        let ghost db = self.pfndb@;
        let ghost frames = self.frames();
        while self.freelist[from] == 0
            invariant
                self.wf(),
                *self == *old(self),
                lists == self@,
                order <= from <= 11,
                first_fit(lists, order as int) == first_fit(lists, from as int),
            decreases 11 - from,
        {
            proof {
                assert(linked(self.links@, self.freelist@[from as int], lists[from as int]));
                if lists[from as int].len() > 0 {
                    assert(nth(lists, from as int, 0) == self.freelist@[from as int]);
                }
            }
            from += 1;
            if from > ORDER_MAX {
                assert(first_fit(lists, from as int) is None);
                return None;
            }
        }
        let block_addr = self.freelist[from];
        let ghost k = from as int;
        let count = self.links.len();
        proof {
            assert(linked(self.links@, self.freelist@[k], lists[k]));
            assert(lists[k].len() > 0);
            assert(nth(lists, k, 0) == block_addr);
            lemma_frame(block_addr, k, frames);
            lemma_pulled(lists, k, 0, frames);
            lemma_pulled_free(lists, k, 0, frames);
            lemma_joined_pulled(lists, k, 0);
            lemma_orders(order as int, k);
        }
        self.unlink(from, block_addr, Ghost(0));
        let block_pfn = (block_addr / NORMAL_PAGE_SIZE) as usize;
        let mut frame = self.pfndb[block_pfn];
        frame.refcount = 0;
        proof {
            lemma_flag_bits(frame.flags);
        }
        frame.flags = frame.flags & !(PF_FREE | PF_BUDDY_HEAD);
        self.pfndb[block_pfn] = frame;
        proof {
            lemma_marks_pulled(lists, db, k, 0, frame);
        }
        let ghost before = self.table();
        self.split_block(block_addr, from, order);
        let ghost mid = self.table();
        let mut frame = self.pfndb[block_pfn];
        frame.refcount = 1;
        frame.flags = PF_KERNEL;
        self.pfndb[block_pfn] = frame;
        proof {
            lemma_marks_kept(self@, mid, block_addr, order as int, frame);
            lemma_block_bytes(k);
            assert forall|f: int|
                0 <= f < frames && !(block_addr <= 4096 * f < block_addr + block_bytes(
                    k,
                )) implies #[trigger] self.table()[f] == db[f] by {
                assert(f != frame_of(block_addr));
                assert(mid[f] == before[f]);
            }
            assert forall|a: int| block_addr <= a < block_addr + block_bytes(
                order as int,
            ) implies #[trigger] is_free(lists, a) by {
                assert(nth(lists, k, 0) <= a < nth(lists, k, 0) + block_bytes(k));
            }
            assert forall|a: int| #[trigger] is_free(self@, a) <==> is_free(lists, a) && !(
            block_addr <= a < block_addr + block_bytes(order as int)) by {
                if block_addr <= a < block_addr + block_bytes(k) {
                    assert(nth(lists, k, 0) <= a < nth(lists, k, 0) + block_bytes(k));
                    assert(is_free(lists, a));
                }
            }
        }
        Some(block_addr)
    }

    /// Takes a free buddy out of its list and gives the address of the block
    /// that the two make up.
    fn merge_block(
        &mut self,
        block_addr: u64,
        buddy_addr: u64,
        order: usize,
        Ghost(i): Ghost<int>,
    ) -> (r: u64)
        requires
            old(self).wf_links(),
            in_lists(old(self)@, order as int, i),
            nth(old(self)@, order as int, i) == buddy_addr,
        ensures
            final(self).wf_links(),
            final(self)@ == pulled(old(self)@, order as int, i),
            final(self).pfndb == old(self).pfndb,
            final(self).pfndb_phys_addr == old(self).pfndb_phys_addr,
            r == if buddy_addr < block_addr {
                buddy_addr
            } else {
                block_addr
            },
    {
        self.unlink(order, buddy_addr, Ghost(i));
        if block_addr < buddy_addr {
            block_addr
        } else {
            buddy_addr
        }
    }

    /// Takes a block back and joins it with its buddy as long as that is free.
    #[verifier::spinoff_prover]
    #[verifier::rlimit(40)]
    pub fn free_order(&mut self, block_addr: u64, order: usize)
        requires
            old(self).wf(),
            order <= ORDER_MAX,
            is_block(block_addr, order as int, old(self).frames()),
            old(self).table()[frame_of(block_addr)].flags & PF_FREE == 0,
            forall|a: int|
                block_addr <= a < block_addr + block_bytes(order as int) ==> !#[trigger] is_free(
                    old(self)@,
                    a,
                ),
            buddies_known(old(self)@, old(self).frames(), block_addr, order as int),
        ensures
            final(self).wf(),
            final(self).frames() == old(self).frames(),
            final(self).database() == old(self).database(),
            final(self)@ == freed(old(self)@, block_addr, order as int),
            forall|a: int| #[trigger]
                is_free(final(self)@, a) <==> is_free(old(self)@, a) || block_addr <= a < block_addr
                    + block_bytes(order as int),
            forall|f: int|
                0 <= f < old(self).frames() && !is_free(final(self)@, 4096 * f)
                    ==> #[trigger] final(self).table()[f] == old(self).table()[f],
            only_returned(*old(self), *final(self)),
    {
        let mut block = block_addr;
        let mut at = order;
        let count = self.links.len();
        let ghost frames = self.frames();
        let ghost lists0 = self@;
        let ghost size0 = block_bytes(order as int);
        proof {
            lemma_apart_from_free(self@, block_addr, order as int, frames);
            law_free_joins_buddies(lists0, frames, block_addr, order as int);
        }
        loop
            invariant_except_break
                at <= 11,
            invariant
                joined(freed(lists0, block_addr, order as int)),
                none_pinned(old(self).table(), self.table()),
                count == self.links@.len(),
                frames == self.frames(),
                frames == old(self).frames(),
                self.pfndb_phys_addr == old(self).pfndb_phys_addr,
                lists0 == old(self)@,
                size0 == block_bytes(order as int),
                self.wf(),
                at <= 11,
                is_block(block, at as int, frames),
                forall|p: int, j: int|
                    in_lists(self@, p, j) ==> apart(
                        block,
                        at as int,
                        #[trigger] nth(self@, p, j),
                        p,
                    ),
                freed(lists0, block_addr, order as int) == freed(self@, block, at as int),
                buddies_known(self@, frames, block, at as int),
                forall|a: int|
                    (#[trigger] is_free(self@, a) || block <= a < block + block_bytes(at as int))
                        <==> (is_free(lists0, a) || block_addr <= a < block_addr + size0),
                forall|f: int|
                    0 <= f < frames && !(is_free(lists0, 4096 * f) || block_addr <= 4096 * f
                        < block_addr + size0) ==> #[trigger] self.table()[f] == old(
                        self,
                    ).table()[f],
            ensures
                at < 11 ==> !self@[at as int].contains(buddy(block, at as int)),
            decreases 11 - at,
        {
            if at >= ORDER_MAX {
                break;
            }
            let ghost o = at as int;
            let ghost lists = self@;
            let ghost db = self.pfndb@;
            proof {
                lemma_block_bytes(o);
                lemma_block_bytes(o + 1);
                lemma_buddy(block, o);
            }
            let block_size = NORMAL_PAGE_SIZE << (at as u64);
            let buddy_addr = block ^ block_size;
            assert(buddy_addr == buddy(block, o));
            let buddy_pfn = (buddy_addr / NORMAL_PAGE_SIZE) as usize;
            let frame = self.pfndb[buddy_pfn];
            let is_free_and_head = (frame.flags & (PF_FREE | PF_BUDDY_HEAD)) == (PF_FREE
                | PF_BUDDY_HEAD);
            let order_match = at as u16 == frame.buddy_order;
            proof {
                lemma_multiple_of_page(buddy_addr, o);
            }
            if is_free_and_head && order_match {
                let ghost i = 0int;
                proof {
                    assert(heads(lists, buddy_pfn as int, o));
                    let j = choose|j: int|
                        in_lists(lists, o, j) && #[trigger] nth(lists, o, j) == 4096 * buddy_pfn;
                    assert(lists[o][j] == buddy_addr);
                    assert(lists[o].contains(buddy_addr));
                    i = lists[o].index_of(buddy_addr);
                    assert(nth(lists, o, i) == buddy_addr);
                    lemma_flag_bits(frame.flags);
                    lemma_pulled(lists, o, i, frames);
                    lemma_pulled_free(lists, o, i, frames);
                    lemma_joined_pulled(lists, o, i);
                    lemma_known_without(lists, o, i, frames, if buddy_addr < block {
                        buddy_addr
                    } else {
                        block
                    }, o + 1);
                }
                let mut cleared = frame;
                cleared.flags = frame.flags & !PF_BUDDY_HEAD;
                let merged = self.merge_block(block, buddy_addr, at, Ghost(i));
                self.pfndb[buddy_pfn] = cleared;
                proof {
                    lemma_marks_pulled(lists, db, o, i, cleared);
                    let after = self@;
                    assert forall|p: int, j: int| in_lists(after, p, j) implies apart(
                        merged,
                        o + 1,
                        #[trigger] nth(after, p, j),
                        p,
                    ) by {
                        let jj = if p == o && j >= i {
                            j + 1
                        } else {
                            j
                        };
                        assert(nth(after, p, j) == nth(lists, p, jj));
                        assert(apart(block, o, nth(lists, p, jj), p));
                        assert(apart(nth(after, p, j), p, nth(lists, o, i), o));
                        lemma_apart_joined(block, buddy_addr, o, nth(after, p, j), p, frames);
                    }
                    assert forall|a: int|
                        (#[trigger] is_free(after, a) || merged <= a < merged + block_bytes(o + 1))
                            <==> (is_free(lists0, a) || block_addr <= a < block_addr + size0) by {
                        assert(is_free(lists, a) || block <= a < block + block_bytes(o) <==> (
                        is_free(lists0, a) || block_addr <= a < block_addr + size0));
                        if buddy_addr <= a < buddy_addr + block_bytes(o) {
                            assert(nth(lists, o, i) <= a < nth(lists, o, i) + block_bytes(o));
                            assert(is_free(lists, a));
                        }
                        assert(is_free(after, a) <==> is_free(lists, a) && !(buddy_addr <= a
                            < buddy_addr + block_bytes(o)));
                        assert(merged <= a < merged + block_bytes(o + 1) <==> (block <= a < block
                            + block_bytes(o) || buddy_addr <= a < buddy_addr + block_bytes(o)));
                    }
                    assert forall|f: int|
                        0 <= f < frames && !(is_free(lists0, 4096 * f) || block_addr <= 4096 * f
                            < block_addr + size0) implies #[trigger] self.table()[f] == old(
                        self,
                    ).table()[f] by {
                        if f == buddy_pfn {
                            let a = 4096 * f;
                            assert(nth(lists, o, i) <= a < nth(lists, o, i) + block_bytes(o));
                            assert(is_free(lists, a));
                        }
                        assert(db[f] == old(self).table()[f]);
                    }
                }
                block = merged;
                at += 1;
            } else {
                proof {
                    if lists[o].contains(buddy_addr) {
                        let j = choose|j: int| 0 <= j < lists[o].len() && lists[o][j] == buddy_addr;
                        assert(nth(lists, o, j) == buddy_addr);
                    }
                }
                break;
            }
        }
        let ghost lists = self@;
        let ghost db = self.pfndb@;
        let ghost o = at as int;
        proof {
            lemma_frame(block, o, frames);
            lemma_flag_bits(0);
        }
        let head = PageFrame {
            refcount: 0,
            flags: PF_FREE | PF_BUDDY_HEAD,
            buddy_order: at as u16,
        };
        self.push_front(at, block);
        self.pfndb[(block / NORMAL_PAGE_SIZE) as usize] = head;
        proof {
            lemma_marks_pushed(lists, db, o, block, head);
            lemma_pushed_free(lists, o, block);
            lemma_block_bytes(o);
            assert forall|a: int| #[trigger] is_free(self@, a) <==> is_free(lists0, a) || block_addr
                <= a < block_addr + size0 by {
                assert(is_free(lists, a) || block <= a < block + block_bytes(o) <==> (is_free(
                    lists0,
                    a,
                ) || block_addr <= a < block_addr + size0));
            }
            assert forall|f: int|
                0 <= f < frames && !is_free(self@, 4096 * f) implies #[trigger] self.table()[f]
                == old(self).table()[f] by {
                assert(f != frame_of(block));
                assert(db[f] == old(self).table()[f]);
            }
        }
    }

    /// Hands out a page of `size`.
    pub fn alloc_page(&mut self, size: PageSize) -> (r: Option<u64>)
        requires
            old(self).wf(),
            !(size is Size1G),
        ensures
            final(self).wf(),
            final(self).frames() == old(self).frames(),
            final(self).database() == old(self).database(),
            match first_fit(old(self)@, page_order(size)) {
                None => r is None && *final(self) == *old(self),
                Some(k) => {
                    let block = nth(old(self)@, k, 0);
                    &&& r == Some(block)
                    &&& final(self)@ == split_lists(
                        pulled(old(self)@, k, 0),
                        block,
                        k,
                        page_order(size),
                    )
                    &&& block as int % size.bytes() as int == 0
                    &&& is_block(block, page_order(size), final(self).frames())
                    &&& forall|a: int|
                        block <= a < block + size.bytes() ==> #[trigger] is_free(old(self)@, a)
                    &&& forall|a: int| #[trigger]
                        is_free(final(self)@, a) <==> is_free(old(self)@, a) && !(block <= a < block
                            + size.bytes())
                    &&& final(self).table()[frame_of(block)] == (PageFrame {
                        refcount: 1,
                        flags: PF_KERNEL,
                        ..old(self).table()[frame_of(block)]
                    })
                    &&& none_pinned(old(self).table(), final(self).table())
                    &&& forall|f: int|
                        0 <= f < old(self).frames() && !(block <= 4096 * f < block + block_bytes(k))
                            ==> #[trigger] final(self).table()[f] == old(self).table()[f]
                },
            },
    {
        let order: usize = match size {
            PageSize::Size2M => 9,
            _ => 0,
        };
        proof {
            lemma_page_order(size);
        }
        self.alloc_order(order)
    }

    /// Takes a page of `size` back.
    pub fn free(&mut self, block_addr: u64, size: PageSize)
        requires
            old(self).wf(),
            !(size is Size1G),
            is_block(block_addr, page_order(size), old(self).frames()),
            old(self).table()[frame_of(block_addr)].flags & PF_FREE == 0,
            forall|a: int|
                block_addr <= a < block_addr + size.bytes() ==> !#[trigger] is_free(old(self)@, a),
            buddies_known(old(self)@, old(self).frames(), block_addr, page_order(size)),
        ensures
            final(self).wf(),
            final(self).frames() == old(self).frames(),
            final(self).database() == old(self).database(),
            final(self)@ == freed(old(self)@, block_addr, page_order(size)),
            forall|a: int| #[trigger]
                is_free(final(self)@, a) <==> is_free(old(self)@, a) || block_addr <= a < block_addr
                    + size.bytes(),
            forall|f: int|
                0 <= f < old(self).frames() && !is_free(final(self)@, 4096 * f)
                    ==> #[trigger] final(self).table()[f] == old(self).table()[f],
            only_returned(*old(self), *final(self)),
    {
        let order: usize = match size {
            PageSize::Size2M => 9,
            _ => 0,
        };
        proof {
            lemma_page_order(size);
        }
        self.free_order(block_addr, order);
    }

    /// Frees the frames from `start_frame` up to `end_frame`, in blocks as large
    /// as their place and the rest of the run allow.
    fn free_run(&mut self, start_frame: u64, end_frame: u64)
        requires
            old(self).wf(),
            0 < start_frame <= end_frame <= old(self).frames(),
            forall|a: int|
                4096 * start_frame <= a < 4096 * end_frame ==> !#[trigger] is_free(old(self)@, a),
            forall|f: int|
                start_frame <= f < end_frame ==> (#[trigger] old(self).table()[f]).flags & PF_FREE
                    == 0,
            buddies_in(
                old(self)@,
                4096 * start_frame as int,
                4096 * end_frame as int,
                old(self).frames(),
            ),
        ensures
            final(self).wf(),
            final(self).frames() == old(self).frames(),
            final(self).database() == old(self).database(),
            final(self)@ == run_freed(old(self)@, start_frame as int, end_frame as int),
            forall|a: int| #[trigger]
                is_free(final(self)@, a) <==> is_free(old(self)@, a) || 4096 * start_frame <= a
                    < 4096 * end_frame,
            forall|f: int|
                0 <= f < old(self).frames() && !is_free(final(self)@, 4096 * f)
                    ==> #[trigger] final(self).table()[f] == old(self).table()[f],
    {
        let mut start = start_frame;
        let ghost lists0 = self@;
        let ghost frames = self.frames();
        while start < end_frame
            invariant
                self.wf(),
                frames == self.frames(),
                frames == old(self).frames(),
                self.pfndb_phys_addr == old(self).pfndb_phys_addr,
                lists0 == old(self)@,
                0 < start_frame <= start <= end_frame <= frames,
                run_freed(lists0, start_frame as int, end_frame as int) == run_freed(
                    self@,
                    start as int,
                    end_frame as int,
                ),
                forall|a: int| #[trigger]
                    is_free(self@, a) <==> is_free(lists0, a) || 4096 * start_frame <= a < 4096
                        * start,
                forall|a: int|
                    4096 * start_frame <= a < 4096 * end_frame ==> !#[trigger] is_free(lists0, a),
                forall|f: int|
                    start <= f < end_frame ==> (#[trigger] self.table()[f]).flags & PF_FREE == 0,
                buddies_in(self@, 4096 * start as int, 4096 * end_frame as int, frames),
                forall|f: int|
                    0 <= f < frames && !is_free(self@, 4096 * f) && !(start <= f < end_frame)
                        ==> #[trigger] self.table()[f] == old(self).table()[f],
                forall|f: int|
                    start <= f < end_frame ==> #[trigger] self.table()[f] == old(self).table()[f],
            decreases end_frame - start,
        {
            let mut order: usize = 11;
            let mut frames_needed: u64 = 2048;
            proof {
                lemma2_to64();
            }
            while start % frames_needed != 0 || frames_needed > end_frame - start
                invariant
                    start < end_frame,
                    order <= 11,
                    frames_needed == pow2(order as nat),
                    frames_needed > 0,
                    fit_order(start as int, end_frame as int, 11) == fit_order(
                        start as int,
                        end_frame as int,
                        order as int,
                    ),
                decreases order,
            {
                proof {
                    lemma2_to64();
                    if order > 0 {
                        lemma_pow2_unfold(order as nat);
                        lemma_pow2_pos((order - 1) as nat);
                    }
                }
                order -= 1;
                frames_needed = frames_needed / 2;
            }
            let ghost before = self@;
            let ghost db = self.table();
            let block = start * NORMAL_PAGE_SIZE;
            proof {
                let o = order as int;
                lemma_run_block(start as int, o, frames);
                lemma_fit(start as int, end_frame as int, o);
                lemma_known(
                    before,
                    4096 * start as int,
                    4096 * end_frame as int,
                    frames,
                    block,
                    o,
                );
                assert(frame_of(block) == start);
            }
            self.free_order(block, order);
            start += frames_needed;
            proof {
                let o = order as int;
                assert(block_bytes(o) == 4096 * frames_needed);
                assert forall|f: int|
                    start <= f < end_frame implies #[trigger] self.table()[f] == old(
                    self,
                ).table()[f] by {
                    assert(!is_free(lists0, 4096 * f));
                    assert(!is_free(before, 4096 * f));
                    assert(!is_free(self@, 4096 * f));
                    assert(self.table()[f] == db[f]);
                }
                assert forall|f: int| start <= f < end_frame implies (
                #[trigger] self.table()[f]).flags & PF_FREE == 0 by {
                    assert(self.table()[f] == old(self).table()[f]);
                    assert(db[f].flags & PF_FREE == 0);
                }
                assert forall|f: int|
                    0 <= f < frames && !is_free(self@, 4096 * f) && !(start <= f
                        < end_frame) implies #[trigger] self.table()[f] == old(self).table()[f] by {
                    assert(!is_free(before, 4096 * f));
                    assert(self.table()[f] == db[f]);
                }
                lemma_buddies_in_rest(
                    before,
                    self@,
                    block as int,
                    4096 * start as int,
                    4096 * end_frame as int,
                    frames,
                );
            }
        }
    }

    /// Sets the allocator up for a memory of `total_pages` frames, of which
    /// those marked in `usable` are free. The frame database itself stands at
    /// `pfndb_phys_addr`.
    pub fn init(&mut self, total_pages: u64, usable: &Vec<bool>, pfndb_phys_addr: u64)
        requires
            4096 * total_pages <= u64::MAX,
            total_pages <= usize::MAX,
            usable@.len() <= total_pages,
            usable@.len() > 0 ==> !usable@[0],
            usable_buddies(usable@, total_pages as int),
        ensures
            final(self).wf(),
            final(self).frames() == total_pages,
            final(self).database() == pfndb_phys_addr,
            forall|a: int| #[trigger] is_free(final(self)@, a) <==> usable_at(usable@, a),
            forall|f: int|
                0 <= f < total_pages && !is_free(final(self)@, 4096 * f)
                    ==> #[trigger] final(self).table()[f] == (PageFrame {
                    refcount: 1,
                    flags: PF_KERNEL,
                    buddy_order: 0,
                }),
    {
        let mut links: Vec<FreeBlock> = Vec::new();
        let mut pfndb: Vec<PageFrame> = Vec::new();
        let used = PageFrame { refcount: 1, flags: PF_KERNEL, buddy_order: 0 };
        let mut i: u64 = 0;
        while i < total_pages
            invariant
                i <= total_pages,
                links@.len() == i,
                pfndb@.len() == i,
                forall|j: int| 0 <= j < i ==> #[trigger] pfndb@[j] == used,
            decreases total_pages - i,
        {
            links.push(FreeBlock { prev: 0, next: 0 });
            pfndb.push(used);
            i += 1;
        }
        let ghost none = Seq::new(12, |o: int| Seq::<u64>::empty());
        self.links = links;
        self.pfndb = pfndb;
        self.freelist = [0;12];
        self.pfndb_phys_addr = pfndb_phys_addr;
        self.lists = Ghost(none);
        proof {
            lemma_flag_bits(0);
            assert(sound_lists(none, total_pages as int));
            assert(marks_heads(none, self.pfndb@));
            assert forall|a: int| !is_free(none, a) by {}
        }
        let total_frames = usable.len();
        let mut cursor: usize = 0;
        while cursor < total_frames
            invariant
                total_frames == usable@.len(),
                cursor <= total_frames,
                usable@.len() <= total_pages,
                4096 * total_pages <= u64::MAX,
                usable@.len() > 0 ==> !usable@[0],
                usable_buddies(usable@, total_pages as int),
                used == (PageFrame { refcount: 1, flags: PF_KERNEL, buddy_order: 0 }),
                PF_KERNEL & PF_FREE == 0,
                self.wf(),
                self.frames() == total_pages,
                self.pfndb_phys_addr == pfndb_phys_addr,
                forall|a: int| #[trigger]
                    is_free(self@, a) <==> usable_at(usable@, a) && a < 4096 * cursor,
                forall|f: int|
                    0 <= f < total_pages && !is_free(self@, 4096 * f)
                        ==> #[trigger] self.table()[f] == used,
            ensures
                cursor >= total_frames,
            decreases total_frames - cursor,
        {
            let ghost at = cursor;
            while cursor < total_frames && !usable[cursor]
                invariant
                    total_frames == usable@.len(),
                    at <= cursor <= total_frames,
                    forall|j: int| at <= j < cursor ==> !#[trigger] usable@[j],
                decreases total_frames - cursor,
            {
                cursor += 1;
            }
            if cursor >= total_frames {
                proof {
                    assert forall|a: int| #[trigger] is_free(self@, a) <==> usable_at(usable@, a)
                        && a < 4096 * cursor by {
                        if usable_at(usable@, a) && a >= 4096 * at {
                            assert(!usable@[a / 4096]);
                        }
                    }
                }
                break;
            }
            let start_frame = cursor;
            while cursor < total_frames && usable[cursor]
                invariant
                    total_frames == usable@.len(),
                    start_frame <= cursor <= total_frames,
                    start_frame < cursor || usable@[cursor as int],
                    forall|j: int| start_frame <= j < cursor ==> #[trigger] usable@[j],
                decreases total_frames - cursor,
            {
                cursor += 1;
            }
            let end_frame = cursor;
            let ghost before = self@;
            proof {
                assert forall|a: int| is_free(before, a) implies a < 4096 * start_frame by {}
                assert(0 < start_frame);
                assert forall|f: int| start_frame <= f < end_frame implies (
                #[trigger] self.table()[f]).flags & PF_FREE == 0 by {
                    assert(!is_free(before, 4096 * f));
                }
                lemma_boot_buddies(
                    before,
                    usable@,
                    4096 * start_frame as int,
                    4096 * end_frame as int,
                    total_pages as int,
                );
            }
            self.free_run(start_frame as u64, end_frame as u64);
            proof {
                assert forall|a: int| #[trigger] is_free(self@, a) <==> usable_at(usable@, a) && a
                    < 4096 * cursor by {
                    if 4096 * start_frame <= a < 4096 * end_frame {
                        assert(usable@[a / 4096]);
                    }
                    if usable_at(usable@, a) && 4096 * at <= a < 4096 * start_frame {
                        assert(!usable@[a / 4096]);
                    }
                    assert(is_free(before, a) <==> usable_at(usable@, a) && a < 4096 * at);
                }
                assert forall|f: int|
                    0 <= f < total_pages && !is_free(
                        self@,
                        4096 * f,
                    ) implies #[trigger] self.table()[f] == used by {
                    assert(!is_free(before, 4096 * f));
                }
            }
        }
        proof {
            assert forall|a: int| #[trigger] is_free(self@, a) <==> usable_at(usable@, a) by {
                assert(is_free(self@, a) <==> usable_at(usable@, a) && a < 4096 * cursor);
            }
        }
    }
}

/// The byte at `addr` lies in a usable frame.
pub open spec fn usable_at(usable: Seq<bool>, addr: int) -> bool {
    0 <= addr && addr / 4096 < usable.len() && usable[addr / 4096]
}

/// A block that is usable throughout has its buddy inside the memory.
pub open spec fn usable_buddies(usable: Seq<bool>, frames: int) -> bool {
    forall|b: u64, o: int|
        0 <= o < 11 && b as int % block_bytes(o) == 0 && b + block_bytes(o) <= 4096 * frames && (
        forall|a: int|
            b <= a < b + block_bytes(o) ==> #[trigger] usable_at(usable, a)) ==> frame_of(
            #[trigger] buddy(b, o),
        ) < frames
}

/// A block that lies in free blocks and in `[lo, hi)` has its buddy inside the
/// memory.
pub open spec fn buddies_in(lists: FreeLists, lo: int, hi: int, frames: int) -> bool {
    forall|b: u64, o: int|
        0 <= o < 11 && b as int % block_bytes(o) == 0 && b + block_bytes(o) <= 4096 * frames && (
        forall|a: int|
            b <= a < b + block_bytes(o) ==> #[trigger] is_free(lists, a) || lo <= a < hi)
            ==> frame_of(#[trigger] buddy(b, o)) < frames
}

/// The largest order, `top` at most, of a block that starts at frame `start`
/// and ends by frame `end`.
pub open spec fn fit_order(start: int, end: int, top: int) -> int
    decreases top,
{
    if top <= 0 {
        0
    } else if start % pow2(top as nat) as int == 0 && start + pow2(top as nat) <= end {
        top
    } else {
        fit_order(start, end, top - 1)
    }
}

/// The lists once the frames from `start` up to `end` are freed, block by
/// block.
pub open spec fn run_freed(lists: FreeLists, start: int, end: int) -> FreeLists
    decreases end - start,
{
    if start >= end {
        lists
    } else {
        let o = fit_order(start, end, 11);
        let n = pow2(o as nat) as int;
        if n <= 0 || start + n > end {
            lists
        } else {
            run_freed(freed(lists, (4096 * start) as u64, o), start + n, end)
        }
    }
}

proof fn lemma_fit(start: int, end: int, o: int)
    requires
        0 <= start < end,
        0 <= o <= 11,
        fit_order(start, end, 11) == fit_order(start, end, o),
        start % pow2(o as nat) as int == 0,
        start + pow2(o as nat) <= end,
    ensures
        fit_order(start, end, 11) == o,
        pow2(o as nat) > 0,
{
    lemma_pow2_pos(o as nat);
}

proof fn lemma_run_block(start: int, o: int, frames: int)
    requires
        0 < start,
        0 <= o <= 11,
        start % pow2(o as nat) as int == 0,
        start + pow2(o as nat) <= frames,
        4096 * frames <= u64::MAX,
    ensures
        is_block((4096 * start) as u64, o, frames),
{
    let n = pow2(o as nat) as int;
    lemma_pow2_pos(o as nat);
    vstd::arithmetic::div_mod::lemma_fundamental_div_mod(start, n);
    let q = start / n;
    assert(4096 * start == q * (4096 * n)) by (nonlinear_arith)
        requires
            start == n * q + 0,
    ;
    vstd::arithmetic::div_mod::lemma_mod_multiples_basic(q, 4096 * n);
}

/// Freeing a block of the stretch looks only at buddies inside the memory.
proof fn lemma_known(lists: FreeLists, lo: int, hi: int, frames: int, block: u64, order: int)
    requires
        sound_lists(lists, frames),
        4096 * frames <= u64::MAX,
        buddies_in(lists, lo, hi, frames),
        0 <= order <= 11,
        is_block(block, order, frames),
        forall|a: int|
            block <= a < block + block_bytes(order) ==> #[trigger] is_free(lists, a) || lo <= a
                < hi,
    ensures
        buddies_known(lists, frames, block, order),
    decreases 11 - order,
{
    if order < 11 {
        let b = buddy(block, order);
        lemma_block_bytes(order);
        lemma_block_bytes(order + 1);
        lemma_buddy(block, order);
        assert(frame_of(b) < frames);
        if lists[order].contains(b) {
            let j = choose|j: int| 0 <= j < lists[order].len() && lists[order][j] == b;
            assert(nth(lists, order, j) == b);
            let m = if b < block {
                b
            } else {
                block
            };
            assert forall|a: int| m <= a < m + block_bytes(order + 1) implies #[trigger] is_free(
                lists,
                a,
            ) || lo <= a < hi by {
                if b <= a < b + block_bytes(order) {
                    assert(nth(lists, order, j) <= a < nth(lists, order, j) + block_bytes(order));
                    assert(is_free(lists, a));
                }
            }
            lemma_known(lists, lo, hi, frames, m, order + 1);
        }
    }
}

proof fn lemma_buddies_in_rest(
    before: FreeLists,
    after: FreeLists,
    lo: int,
    mid: int,
    hi: int,
    frames: int,
)
    requires
        lo <= mid <= hi,
        buddies_in(before, lo, hi, frames),
        forall|a: int| #[trigger] is_free(after, a) <==> is_free(before, a) || lo <= a < mid,
    ensures
        buddies_in(after, mid, hi, frames),
{
    assert forall|b: u64, o: int|
        0 <= o < 11 && b as int % block_bytes(o) == 0 && b + block_bytes(o) <= 4096 * frames && (
        forall|a: int|
            b <= a < b + block_bytes(o) ==> #[trigger] is_free(after, a) || mid <= a
                < hi) implies frame_of(#[trigger] buddy(b, o)) < frames by {
        assert forall|a: int| b <= a < b + block_bytes(o) implies #[trigger] is_free(before, a) || lo
            <= a < hi by {
            assert(is_free(after, a) || mid <= a < hi);
        }
    }
}

proof fn lemma_boot_buddies(
    lists: FreeLists,
    usable: Seq<bool>,
    lo: int,
    hi: int,
    frames: int,
)
    requires
        usable_buddies(usable, frames),
        forall|a: int| #[trigger] is_free(lists, a) ==> usable_at(usable, a),
        lo % 4096 == 0,
        hi % 4096 == 0,
        0 <= lo <= hi <= 4096 * usable.len(),
        forall|f: int| lo / 4096 <= f < hi / 4096 ==> #[trigger] usable[f],
    ensures
        buddies_in(lists, lo, hi, frames),
{
    assert forall|b: u64, o: int|
        0 <= o < 11 && b as int % block_bytes(o) == 0 && b + block_bytes(o) <= 4096 * frames && (
        forall|a: int|
            b <= a < b + block_bytes(o) ==> #[trigger] is_free(lists, a) || lo <= a
                < hi) implies frame_of(#[trigger] buddy(b, o)) < frames by {
        assert forall|a: int| b <= a < b + block_bytes(o) implies #[trigger] usable_at(
            usable,
            a,
        ) by {
            assert(is_free(lists, a) || lo <= a < hi);
            if lo <= a < hi {
                assert(usable[a / 4096]);
            }
        }
    }
}

/// The order of the blocks that hold a page of a size.
pub open spec fn page_order(size: PageSize) -> int {
    if size is Size2M {
        9
    } else {
        0
    }
}

proof fn lemma_page_order(size: PageSize)
    requires
        !(size is Size1G),
    ensures
        block_bytes(page_order(size)) == size.bytes(),
{
    lemma2_to64();
}

proof fn lemma_multiple_of_page(addr: u64, order: int)
    requires
        0 <= order <= 11,
        addr as int % block_bytes(order) == 0,
    ensures
        4096 * frame_of(addr) == addr,
{
    lemma_block_bytes(order);
    let s = block_bytes(order);
    let q = s / 4096;
    vstd::arithmetic::div_mod::lemma_fundamental_div_mod(addr as int, s);
    let k = addr as int / s;
    assert(addr == 4096 * (q * k)) by (nonlinear_arith)
        requires
            addr == s * k + 0,
            s == 4096 * q,
    ;
}

/// A block with no free byte lies apart from every free block.
proof fn lemma_apart_from_free(lists: FreeLists, block: u64, order: int, frames: int)
    requires
        sound_lists(lists, frames),
        0 <= order <= 11,
        is_block(block, order, frames),
        forall|a: int|
            block <= a < block + block_bytes(order) ==> !#[trigger] is_free(lists, a),
    ensures
        forall|p: int, j: int|
            in_lists(lists, p, j) ==> apart(block, order, #[trigger] nth(lists, p, j), p),
{
    lemma_block_bytes(order);
    assert forall|p: int, j: int| in_lists(lists, p, j) implies apart(
        block,
        order,
        #[trigger] nth(lists, p, j),
        p,
    ) by {
        lemma_block_bytes(p);
        let c = nth(lists, p, j);
        if !apart(block, order, c, p) {
            let a = if block >= c {
                block as int
            } else {
                c as int
            };
            assert(c <= a < c + block_bytes(p));
            assert(is_free(lists, a));
        }
    }
}

/// What lies apart from a block and from its buddy lies apart from both
/// together.
proof fn lemma_apart_joined(block: u64, other: u64, o: int, c: u64, p: int, frames: int)
    requires
        0 <= o < 11,
        0 <= p <= 11,
        other == block + block_bytes(o) || other == block - block_bytes(o),
        apart(block, o, c, p),
        apart(c, p, other, o),
    ensures
        apart(
            if other < block {
                other
            } else {
                block
            },
            o + 1,
            c,
            p,
        ),
{
    lemma_block_bytes(o);
    lemma_block_bytes(p);
}

/// Taking a block out of a lower list leaves the buddies above as they were.
proof fn lemma_known_without(
    lists: FreeLists,
    order: int,
    i: int,
    frames: int,
    block: u64,
    from: int,
)
    requires
        in_lists(lists, order, i),
        order < from,
        lists.len() == 12,
        buddies_known(lists, frames, block, from),
    ensures
        buddies_known(pulled(lists, order, i), frames, block, from),
    decreases 11 - from,
{
    if from < 11 {
        let b = buddy(block, from);
        assert(pulled(lists, order, i)[from] == lists[from]);
        if lists[from].contains(b) {
            lemma_known_without(
                lists,
                order,
                i,
                frames,
                if b < block {
                    b
                } else {
                    block
                },
                from + 1,
            );
        }
    }
}

proof fn lemma_orders(o: int, k: int)
    requires
        0 <= o <= k <= 11,
    ensures
        block_bytes(o) <= block_bytes(k),
    decreases k - o,
{
    lemma_block_bytes(o);
    if o < k {
        lemma_orders(o + 1, k);
    }
}

/// Both halves of a block are blocks.
proof fn lemma_halves(addr: u64, o: int, frames: int)
    requires
        0 <= o < 11,
        is_block(addr, o + 1, frames),
        4096 * frames <= u64::MAX,
    ensures
        is_block(addr, o, frames),
        is_block((addr + block_bytes(o)) as u64, o, frames),
{
    lemma_block_bytes(o);
    lemma_block_bytes(o + 1);
    let s = block_bytes(o);
    let q = addr as int / (2 * s);
    vstd::arithmetic::div_mod::lemma_fundamental_div_mod(addr as int, 2 * s);
    assert(addr == (2 * q) * s) by (nonlinear_arith)
        requires
            addr == (2 * s) * q + 0,
    ;
    assert(addr + s == (2 * q + 1) * s) by (nonlinear_arith)
        requires
            addr == (2 * q) * s,
    ;
    vstd::arithmetic::div_mod::lemma_mod_multiples_basic(2 * q, s);
    vstd::arithmetic::div_mod::lemma_mod_multiples_basic(2 * q + 1, s);
}

proof fn lemma_apart_pushed(lists: FreeLists, addr: u64, o: int, upper: u64)
    requires
        lists.len() == 12,
        0 <= o <= 11,
        upper == addr + block_bytes(o),
        forall|p: int, j: int|
            in_lists(lists, p, j) ==> apart(addr, o, #[trigger] nth(lists, p, j), p),
    ensures
        forall|p: int, j: int|
            in_lists(pushed(lists, o, upper), p, j) ==> apart(
                addr,
                o,
                #[trigger] nth(pushed(lists, o, upper), p, j),
                p,
            ),
{
    let after = pushed(lists, o, upper);
    assert forall|p: int, j: int| in_lists(after, p, j) implies apart(
        addr,
        o,
        #[trigger] nth(after, p, j),
        p,
    ) by {
        if !(p == o && j == 0) {
            let jj = if p == o {
                j - 1
            } else {
                j
            };
            assert(in_lists(lists, p, jj));
            assert(nth(after, p, j) == nth(lists, p, jj));
        }
    }
}

/// A frame that heads no free block may change as long as it stays so.
proof fn lemma_marks_kept(
    lists: FreeLists,
    pfndb: Seq<PageFrame>,
    block: u64,
    order: int,
    v: PageFrame,
)
    requires
        sound_lists(lists, pfndb.len() as int),
        marks_heads(lists, pfndb),
        0 <= order <= 11,
        is_block(block, order, pfndb.len() as int),
        forall|p: int, j: int|
            in_lists(lists, p, j) ==> apart(block, order, #[trigger] nth(lists, p, j), p),
        !is_head(v),
    ensures
        marks_heads(lists, pfndb.update(frame_of(block), v)),
{
    let frames = pfndb.len() as int;
    let f = frame_of(block);
    let db = pfndb.update(f, v);
    lemma_frame(block, order, frames);
    assert forall|o: int, j: int| in_lists(lists, o, j) implies {
        let x = db[frame_of(#[trigger] nth(lists, o, j))];
        is_head(x) && x.buddy_order == o
    } by {
        lemma_frames_differ(block, order, nth(lists, o, j), o, frames);
        lemma_frame(nth(lists, o, j), o, frames);
    }
    assert forall|g: int| 0 <= g < db.len() && is_head(#[trigger] db[g]) implies heads(
        lists,
        g,
        db[g].buddy_order as int,
    ) by {
        assert(pfndb[g] == db[g]);
    }
}

/// The frames of a list lie in memory and differ from each other.
proof fn lemma_list_frames(lists: FreeLists, o: int, frames: int)
    requires
        sound_lists(lists, frames),
        0 <= o < 12,
    ensures
        forall|j: int|
            0 <= j < lists[o].len() ==> 0 <= frame_of(#[trigger] lists[o][j]) < frames
                && lists[o][j] != 0,
        forall|j: int, k: int|
            #![trigger lists[o][j], lists[o][k]]
            0 <= j < lists[o].len() && 0 <= k < lists[o].len() && j != k ==> frame_of(lists[o][j])
                != frame_of(lists[o][k]),
{
    let list = lists[o];
    assert forall|j: int| 0 <= j < list.len() implies 0 <= frame_of(#[trigger] list[j]) < frames
        && list[j] != 0 by {
        assert(nth(lists, o, j) == list[j]);
        lemma_frame(list[j], o, frames);
    }
    assert forall|j: int, k: int|
        #![trigger list[j], list[k]]
        0 <= j < list.len() && 0 <= k < list.len() && j != k implies frame_of(list[j]) != frame_of(
        list[k],
    ) by {
        assert(nth(lists, o, j) == list[j] && nth(lists, o, k) == list[k]);
        lemma_frames_differ(list[j], o, list[k], o, frames);
    }
}

proof fn lemma_other_list(lists: FreeLists, p: int, o: int, frames: int)
    requires
        sound_lists(lists, frames),
        0 <= o < 12,
        0 <= p < 12,
        p != o,
    ensures
        forall|j: int, k: int|
            #![trigger lists[p][j], lists[o][k]]
            0 <= j < lists[p].len() && 0 <= k < lists[o].len() ==> frame_of(lists[p][j])
                != frame_of(lists[o][k]),
{
    assert forall|j: int, k: int|
        #![trigger lists[p][j], lists[o][k]]
        0 <= j < lists[p].len() && 0 <= k < lists[o].len() implies frame_of(lists[p][j])
        != frame_of(lists[o][k]) by {
        assert(nth(lists, p, j) == lists[p][j] && nth(lists, o, k) == lists[o][k]);
        lemma_frames_differ(lists[p][j], p, lists[o][k], o, frames);
    }
}

/// The links once the `i`-th block of a list is taken out of it.
spec fn relinked(links: Seq<FreeBlock>, list: Seq<u64>, i: int) -> Seq<FreeBlock> {
    let prev = links[frame_of(list[i])].prev;
    let next = links[frame_of(list[i])].next;
    let a = if i > 0 {
        links.update(
            frame_of(list[i - 1]),
            FreeBlock { prev: links[frame_of(list[i - 1])].prev, next },
        )
    } else {
        links
    };
    let b = if i + 1 < list.len() {
        a.update(frame_of(list[i + 1]), FreeBlock { prev, next: a[frame_of(list[i + 1])].next })
    } else {
        a
    };
    b.update(frame_of(list[i]), FreeBlock { prev: 0, next: 0 })
}

#[verifier::spinoff_prover]
#[verifier::rlimit(40)]
proof fn lemma_relinked(links: Seq<FreeBlock>, list: Seq<u64>, i: int, head: u64)
    requires
        linked(links, head, list),
        0 <= i < list.len(),
        forall|j: int|
            0 <= j < list.len() ==> 0 <= frame_of(#[trigger] list[j]) < links.len() && list[j] != 0,
        forall|j: int, k: int|
            #![trigger list[j], list[k]]
            0 <= j < list.len() && 0 <= k < list.len() && j != k ==> frame_of(list[j]) != frame_of(
                list[k],
            ),
    ensures
        linked(
            relinked(links, list, i),
            if i == 0 {
                links[frame_of(list[0])].next
            } else {
                head
            },
            list.remove(i),
        ),
{
    let n = list.remove(i);
    let after = relinked(links, list, i);
    assert forall|j: int| 0 <= j < n.len() implies #[trigger] n[j] == if j < i {
        list[j]
    } else {
        list[j + 1]
    } by {}
    assert forall|j: int| 0 <= j < n.len() implies {
        let l = after[frame_of(#[trigger] n[j])];
        &&& l.next == if j + 1 < n.len() {
            n[j + 1]
        } else {
            0
        }
        &&& l.prev == if j > 0 {
            n[j - 1]
        } else {
            0
        }
    } by {
        let jj = if j < i {
            j
        } else {
            j + 1
        };
        assert(n[j] == list[jj]);
        assert(frame_of(list[jj]) != frame_of(list[i]));
        if i > 0 && jj != i - 1 {
            assert(frame_of(list[jj]) != frame_of(list[i - 1]));
        }
        if i + 1 < list.len() && jj != i + 1 {
            assert(frame_of(list[jj]) != frame_of(list[i + 1]));
        }
    }
}

proof fn lemma_relinked_elsewhere(
    links: Seq<FreeBlock>,
    list: Seq<u64>,
    i: int,
    other: Seq<u64>,
)
    requires
        0 <= i < list.len(),
        forall|j: int| 0 <= j < list.len() ==> 0 <= frame_of(#[trigger] list[j]) < links.len(),
        forall|j: int| 0 <= j < other.len() ==> 0 <= frame_of(#[trigger] other[j]) < links.len(),
        forall|j: int, k: int|
            #![trigger other[j], list[k]]
            0 <= j < other.len() && 0 <= k < list.len() ==> frame_of(other[j]) != frame_of(list[k]),
    ensures
        forall|j: int|
            0 <= j < other.len() ==> relinked(links, list, i)[frame_of(#[trigger] other[j])]
                == links[frame_of(other[j])],
{
    assert forall|j: int| 0 <= j < other.len() implies relinked(links, list, i)[frame_of(
        #[trigger] other[j],
    )] == links[frame_of(other[j])] by {
        assert(frame_of(other[j]) != frame_of(list[i]));
        if i > 0 {
            assert(frame_of(other[j]) != frame_of(list[i - 1]));
        }
        if i + 1 < list.len() {
            assert(frame_of(other[j]) != frame_of(list[i + 1]));
        }
    }
}

/// The lists without the `i`-th block of an order.
pub open spec fn pulled(lists: FreeLists, order: int, i: int) -> FreeLists {
    lists.update(order, lists[order].remove(i))
}

proof fn lemma_pulled(lists: FreeLists, order: int, i: int, frames: int)
    requires
        sound_lists(lists, frames),
        in_lists(lists, order, i),
    ensures
        sound_lists(pulled(lists, order, i), frames),
        forall|p: int, j: int|
            #![trigger nth(pulled(lists, order, i), p, j)]
            in_lists(pulled(lists, order, i), p, j) ==> {
                let jj = if p == order && j >= i {
                    j + 1
                } else {
                    j
                };
                &&& in_lists(lists, p, jj)
                &&& !(p == order && jj == i)
                &&& nth(pulled(lists, order, i), p, j) == nth(lists, p, jj)
                &&& apart(nth(pulled(lists, order, i), p, j), p, nth(lists, order, i), order)
            },
{
    let after = pulled(lists, order, i);
    assert forall|p: int, j: int| #![trigger nth(after, p, j)] in_lists(after, p, j) implies {
        let jj = if p == order && j >= i {
            j + 1
        } else {
            j
        };
        &&& in_lists(lists, p, jj)
        &&& !(p == order && jj == i)
        &&& nth(after, p, j) == nth(lists, p, jj)
        &&& apart(nth(after, p, j), p, nth(lists, order, i), order)
    } by {
        let jj = if p == order && j >= i {
            j + 1
        } else {
            j
        };
        assert(nth(after, p, j) == nth(lists, p, jj));
    }
    assert forall|p: int, j: int, r: int, k: int|
        #![trigger nth(after, p, j), nth(after, r, k)]
        in_lists(after, p, j) && in_lists(after, r, k) && !(p == r && j == k) implies apart(
        nth(after, p, j),
        p,
        nth(after, r, k),
        r,
    ) by {
        let jj = if p == order && j >= i {
            j + 1
        } else {
            j
        };
        let kk = if r == order && k >= i {
            k + 1
        } else {
            k
        };
        assert(nth(after, p, j) == nth(lists, p, jj));
        assert(nth(after, r, k) == nth(lists, r, kk));
    }
}

/// No frame is pinned that was not.
pub open spec fn none_pinned(before: Seq<PageFrame>, after: Seq<PageFrame>) -> bool {
    &&& after.len() == before.len()
    &&& forall|f: int|
        0 <= f < after.len() && (#[trigger] after[f]).flags & PF_PINNED != 0 ==> before[f].flags
            & PF_PINNED != 0
}

/// What holds of an allocator that blocks have only been taken from: what was
/// in use has kept its record, and no frame is pinned that was not.
pub open spec fn only_drawn(before: Allocator, after: Allocator) -> bool {
    &&& none_pinned(before.table(), after.table())
    &&& forall|a: int| #[trigger] is_free(after@, a) ==> is_free(before@, a)
    &&& forall|f: int|
        0 <= f < before.table().len() && !is_free(before@, 4096 * f)
            ==> #[trigger] after.table()[f] == before.table()[f]
}

/// What holds of an allocator that blocks have only been given back to: what
/// is still in use has kept its record, and no frame is pinned that was not.
pub open spec fn only_returned(before: Allocator, after: Allocator) -> bool {
    &&& none_pinned(before.table(), after.table())
    &&& forall|a: int| #[trigger] is_free(before@, a) ==> is_free(after@, a)
    &&& forall|f: int|
        0 <= f < before.table().len() && !is_free(after@, 4096 * f)
            ==> #[trigger] after.table()[f] == before.table()[f]
}

pub proof fn lemma_only_returned(a: Allocator, b: Allocator, c: Allocator)
    requires
        only_returned(a, b),
        only_returned(b, c),
    ensures
        only_returned(a, c),
{
    assert forall|f: int| 0 <= f < a.table().len() && !is_free(c@, 4096 * f) implies
        #[trigger] c.table()[f] == a.table()[f] by {
        assert(!is_free(b@, 4096 * f));
        assert(b.table()[f] == a.table()[f]);
    }
    assert forall|f: int|
        0 <= f < c.table().len() && (#[trigger] c.table()[f]).flags & PF_PINNED
            != 0 implies a.table()[f].flags & PF_PINNED != 0 by {
        assert(b.table()[f].flags & PF_PINNED != 0);
    }
}

pub proof fn lemma_only_drawn(a: Allocator, b: Allocator, c: Allocator)
    requires
        only_drawn(a, b),
        only_drawn(b, c),
    ensures
        only_drawn(a, c),
{
    assert forall|f: int| 0 <= f < a.table().len() && !is_free(a@, 4096 * f) implies
        #[trigger] c.table()[f] == a.table()[f] by {
        assert(b.table()[f] == a.table()[f]);
    }
    assert forall|f: int|
        0 <= f < c.table().len() && (#[trigger] c.table()[f]).flags & PF_PINNED
            != 0 implies a.table()[f].flags & PF_PINNED != 0 by {
        assert(b.table()[f].flags & PF_PINNED != 0);
    }
}

/// The frame database with one frame's pinned mark set or cleared.
pub open spec fn with_pin(table: Seq<PageFrame>, pfn: int, pinned: bool) -> Seq<PageFrame> {
    if 0 <= pfn < table.len() {
        table.update(
            pfn,
            PageFrame {
                flags: if pinned {
                    table[pfn].flags | PF_PINNED
                } else {
                    table[pfn].flags & !PF_PINNED
                },
                ..table[pfn]
            },
        )
    } else {
        table
    }
}

/// The pinned mark stands apart from the other marks of a frame.
pub proof fn lemma_pin_bits(flags: u16)
    ensures
        (flags | PF_PINNED) & PF_FREE == flags & PF_FREE,
        (flags & !PF_PINNED) & PF_FREE == flags & PF_FREE,
        (flags | PF_PINNED) & PF_PINNED != 0,
        (flags & !PF_PINNED) & PF_PINNED == 0,
        (flags | PF_PINNED) & head_flags() == flags & head_flags(),
        (flags & !PF_PINNED) & head_flags() == flags & head_flags(),
{
    assert((flags | 16u16) & (1u16 | 32) == flags & (1u16 | 32) && (flags & !16u16) & (1u16 | 32)
        == flags & (1u16 | 32) && (flags | 16u16) & 1 == flags & 1 && (flags & !16u16) & 1 == flags
        & 1 && (flags | 16u16) & 16 != 0 && (flags & !16u16) & 16 == 0) by (bit_vector);
}

/// The lists with a block put at the head of its own.
pub open spec fn pushed(lists: FreeLists, order: int, block: u64) -> FreeLists {
    lists.update(order, seq![block] + lists[order])
}

pub proof fn lemma_frame(block: u64, order: int, frames: int)
    requires
        0 <= order <= 11,
        is_block(block, order, frames),
    ensures
        0 <= frame_of(block) < frames,
        frame_of(block) * 4096 == block,
        block as int % 4096 == 0,
{
    lemma_block_bytes(order);
    let s = block_bytes(order);
    let q = s / 4096;
    vstd::arithmetic::div_mod::lemma_fundamental_div_mod(block as int, s);
    let k = block as int / s;
    assert(block == 4096 * (q * k)) by (nonlinear_arith)
        requires
            block == s * k + 0,
            s == 4096 * q,
    ;
}

proof fn lemma_frames_differ(b: u64, o: int, c: u64, p: int, frames: int)
    requires
        0 <= o <= 11,
        0 <= p <= 11,
        is_block(b, o, frames),
        is_block(c, p, frames),
        apart(b, o, c, p),
    ensures
        frame_of(b) != frame_of(c),
{
    lemma_frame(b, o, frames);
    lemma_frame(c, p, frames);
    lemma_block_bytes(o);
    lemma_block_bytes(p);
}

proof fn lemma_pushed(lists: FreeLists, order: int, block: u64, frames: int)
    requires
        sound_lists(lists, frames),
        0 <= order <= 11,
        is_block(block, order, frames),
        forall|p: int, j: int|
            in_lists(lists, p, j) ==> apart(block, order, #[trigger] nth(lists, p, j), p),
    ensures
        sound_lists(pushed(lists, order, block), frames),
{
    let after = pushed(lists, order, block);
    assert forall|p: int, j: int| in_lists(after, p, j) implies #[trigger] nth(after, p, j) == if p
        == order && j == 0 {
        block
    } else if p == order {
        nth(lists, p, j - 1)
    } else {
        nth(lists, p, j)
    } by {}
    assert forall|p: int, j: int, r: int, k: int|
        #![trigger nth(after, p, j), nth(after, r, k)]
        in_lists(after, p, j) && in_lists(after, r, k) && !(p == r && j == k) implies apart(
        nth(after, p, j),
        p,
        nth(after, r, k),
        r,
    ) by {
        let jj = if p == order {
            j - 1
        } else {
            j
        };
        let kk = if r == order {
            k - 1
        } else {
            k
        };
        if p == order && j == 0 {
            assert(in_lists(lists, r, kk));
            assert(nth(after, r, k) == nth(lists, r, kk));
        } else if r == order && k == 0 {
            assert(in_lists(lists, p, jj));
            assert(nth(after, p, j) == nth(lists, p, jj));
        } else {
            assert(in_lists(lists, r, kk) && in_lists(lists, p, jj));
            assert(nth(after, r, k) == nth(lists, r, kk));
            assert(nth(after, p, j) == nth(lists, p, jj));
        }
    }
}

proof fn lemma_block_bytes(order: int)
    requires
        0 <= order <= 11,
    ensures
        4096 <= block_bytes(order) <= 0x80_0000,
        block_bytes(order) % 4096 == 0,
        order < 11 ==> block_bytes(order + 1) == 2 * block_bytes(order),
        power_of_two(block_bytes(order) as u64),
        4096u64 << (order as u64) == block_bytes(order),
    decreases order,
{
    lemma_pow2_pos(order as nat);
    lemma2_to64();
    lemma_pow2_unfold((order + 1) as nat);
    assert(pow2(0) == 1 && pow2(1) == 2 && pow2(2) == 4 && pow2(3) == 8 && pow2(4) == 16 && pow2(5)
        == 32 && pow2(6) == 64 && pow2(7) == 128 && pow2(8) == 256 && pow2(9) == 512 && pow2(10)
        == 1024 && pow2(11) == 2048);
    let o = order as u64;
    lemma_u64_shl_is_mul(4096, o);
    let s = 4096u64 << o;
    assert(o <= 11 && s == 4096u64 << o ==> s != 0 && s & ((s - 1) as u64) == 0) by (bit_vector);
}

/// A block and its buddy make up one block of the next order.
proof fn lemma_buddy(block: u64, order: int)
    requires
        0 <= order < 11,
        block as int % block_bytes(order) == 0,
        block + block_bytes(order) <= u64::MAX,
    ensures
        ({
            let b = buddy(block, order);
            let s = block_bytes(order);
            &&& b == block + s || b == block - s
            &&& b as int % s == 0
            &&& (if b < block {
                b
            } else {
                block
            }) as int % block_bytes(order + 1) == 0
            &&& block as int % block_bytes(order + 1) == 0 ==> b == block + s
        }),
{
    lemma_block_bytes(order);
    lemma_block_bytes(order + 1);
    let s = block_bytes(order) as u64;
    let d = block_bytes(order + 1) as u64;
    let b = block ^ s;
    lemma_mask(block, s);
    lemma_mask(b, s);
    lemma_mask(b, d);
    lemma_mask(block, d);
    assert(s != 0 && s & ((s - 1) as u64) == 0 && d == 2 * s && block & ((s - 1) as u64) == 0 && b
        == block ^ s ==> (b == block + s || b == block - s) && b & ((s - 1) as u64) == 0 && (b < block
        ==> b & ((d - 1) as u64) == 0) && (b >= block ==> block & ((d - 1) as u64) == 0) && (block & (
    (d - 1) as u64) == 0 ==> b == block + s)) by (bit_vector);
}

/// The byte at `addr` lies in a free block.
pub open spec fn is_free(lists: FreeLists, addr: int) -> bool {
    exists|o: int, i: int|
        in_lists(lists, o, i) && (#[trigger] nth(lists, o, i)) <= addr < nth(lists, o, i)
            + block_bytes(o)
}

proof fn lemma_pushed_free(lists: FreeLists, order: int, block: u64)
    requires
        lists.len() == 12,
        0 <= order <= 11,
    ensures
        forall|a: int| #[trigger]
            is_free(pushed(lists, order, block), a) <==> is_free(lists, a) || block <= a < block
                + block_bytes(order),
{
    let after = pushed(lists, order, block);
    assert forall|a: int| #[trigger] is_free(after, a) <==> is_free(lists, a) || block <= a < block
        + block_bytes(order) by {
        if is_free(after, a) {
            let (o, i) = choose|o: int, i: int|
                in_lists(after, o, i) && (#[trigger] nth(after, o, i)) <= a < nth(after, o, i)
                    + block_bytes(o);
            if o != order {
                assert(nth(lists, o, i) == nth(after, o, i));
            } else if i > 0 {
                assert(nth(lists, o, i - 1) == nth(after, o, i));
                assert(in_lists(lists, o, i - 1));
            }
        }
        if is_free(lists, a) {
            let (o, i) = choose|o: int, i: int|
                in_lists(lists, o, i) && (#[trigger] nth(lists, o, i)) <= a < nth(lists, o, i)
                    + block_bytes(o);
            if o != order {
                assert(nth(after, o, i) == nth(lists, o, i));
                assert(in_lists(after, o, i));
            } else {
                assert(nth(after, o, i + 1) == nth(lists, o, i));
                assert(in_lists(after, o, i + 1));
            }
        }
        if block <= a < block + block_bytes(order) {
            assert(nth(after, order, 0) == block);
            assert(in_lists(after, order, 0));
        }
    }
}

proof fn lemma_pulled_free(lists: FreeLists, order: int, i: int, frames: int)
    requires
        sound_lists(lists, frames),
        in_lists(lists, order, i),
    ensures
        forall|a: int| #[trigger]
            is_free(pulled(lists, order, i), a) <==> is_free(lists, a) && !(nth(lists, order, i)
                <= a < nth(lists, order, i) + block_bytes(order)),
{
    let after = pulled(lists, order, i);
    let b = nth(lists, order, i);
    lemma_pulled(lists, order, i, frames);
    assert forall|a: int| #[trigger] is_free(after, a) <==> is_free(lists, a) && !(b <= a < b
        + block_bytes(order)) by {
        if is_free(after, a) {
            let (o, j) = choose|o: int, j: int|
                in_lists(after, o, j) && (#[trigger] nth(after, o, j)) <= a < nth(after, o, j)
                    + block_bytes(o);
            let jj = if o == order && j >= i {
                j + 1
            } else {
                j
            };
            assert(nth(after, o, j) == nth(lists, o, jj));
            assert(in_lists(lists, o, jj));
        }
        if is_free(lists, a) && !(b <= a < b + block_bytes(order)) {
            let (o, j) = choose|o: int, j: int|
                in_lists(lists, o, j) && (#[trigger] nth(lists, o, j)) <= a < nth(lists, o, j)
                    + block_bytes(o);
            let jj = if o == order && j > i {
                j - 1
            } else {
                j
            };
            assert(nth(after, o, jj) == nth(lists, o, j));
            assert(in_lists(after, o, jj));
        }
    }
}

proof fn lemma_flag_bits(flags: u16)
    ensures
        head_flags() & head_flags() == head_flags(),
        (flags & !(PF_FREE | PF_BUDDY_HEAD)) & head_flags() != head_flags(),
        (flags & !PF_BUDDY_HEAD) & head_flags() != head_flags(),
        PF_KERNEL & head_flags() != head_flags(),
        PF_KERNEL & PF_FREE == 0,
        PF_KERNEL & PF_PINNED == 0,
        head_flags() & PF_PINNED == 0,
        (flags & !(PF_FREE | PF_BUDDY_HEAD)) & PF_PINNED == flags & PF_PINNED,
        (flags & !PF_BUDDY_HEAD) & PF_PINNED == flags & PF_PINNED,
{
    assert((1u16 | 32) & (1u16 | 32) == (1u16 | 32)) by (bit_vector);
    assert((flags & !(1u16 | 32)) & (1u16 | 32) != (1u16 | 32)) by (bit_vector);
    assert((flags & !32u16) & (1u16 | 32) != (1u16 | 32)) by (bit_vector);
    assert(2u16 & (1u16 | 32) != (1u16 | 32) && 2u16 & 1 == 0 && 2u16 & 16 == 0 && (1u16 | 32) & 16
        == 0 && (flags & !(1u16 | 32)) & 16 == flags & 16 && (flags & !32u16) & 16 == flags & 16)
        by (bit_vector);
}

proof fn lemma_marks_pulled(
    lists: FreeLists,
    pfndb: Seq<PageFrame>,
    order: int,
    i: int,
    v: PageFrame,
)
    requires
        sound_lists(lists, pfndb.len() as int),
        marks_heads(lists, pfndb),
        in_lists(lists, order, i),
        !is_head(v),
    ensures
        marks_heads(
            pulled(lists, order, i),
            pfndb.update(frame_of(nth(lists, order, i)), v),
        ),
{
    let frames = pfndb.len() as int;
    let after = pulled(lists, order, i);
    let b = nth(lists, order, i);
    let f = frame_of(b);
    let db = pfndb.update(f, v);
    lemma_pulled(lists, order, i, frames);
    lemma_frame(b, order, frames);
    assert forall|o: int, j: int| in_lists(after, o, j) implies {
        let x = db[frame_of(#[trigger] nth(after, o, j))];
        is_head(x) && x.buddy_order == o
    } by {
        let jj = if o == order && j >= i {
            j + 1
        } else {
            j
        };
        assert(nth(after, o, j) == nth(lists, o, jj));
        lemma_frames_differ(nth(lists, o, jj), o, b, order, frames);
        lemma_frame(nth(lists, o, jj), o, frames);
    }
    assert forall|g: int| 0 <= g < db.len() && is_head(#[trigger] db[g]) implies heads(
        after,
        g,
        db[g].buddy_order as int,
    ) by {
        assert(g != f);
        assert(pfndb[g] == db[g]);
        let o = pfndb[g].buddy_order as int;
        assert(heads(lists, g, o));
        let j = choose|j: int| in_lists(lists, o, j) && #[trigger] nth(lists, o, j) == 4096 * g;
        let jj = if o == order && j > i {
            j - 1
        } else {
            j
        };
        assert(nth(after, o, jj) == nth(lists, o, j));
        assert(in_lists(after, o, jj));
    }
}

proof fn lemma_marks_pushed(
    lists: FreeLists,
    pfndb: Seq<PageFrame>,
    order: int,
    block: u64,
    v: PageFrame,
)
    requires
        sound_lists(lists, pfndb.len() as int),
        marks_heads(lists, pfndb),
        0 <= order <= 11,
        is_block(block, order, pfndb.len() as int),
        forall|p: int, j: int|
            in_lists(lists, p, j) ==> apart(block, order, #[trigger] nth(lists, p, j), p),
        is_head(v),
        v.buddy_order == order,
    ensures
        marks_heads(pushed(lists, order, block), pfndb.update(frame_of(block), v)),
{
    let frames = pfndb.len() as int;
    let after = pushed(lists, order, block);
    let f = frame_of(block);
    let db = pfndb.update(f, v);
    lemma_frame(block, order, frames);
    assert forall|o: int, j: int| in_lists(after, o, j) implies {
        let x = db[frame_of(#[trigger] nth(after, o, j))];
        is_head(x) && x.buddy_order == o
    } by {
        if !(o == order && j == 0) {
            let jj = if o == order {
                j - 1
            } else {
                j
            };
            assert(in_lists(lists, o, jj));
            assert(nth(after, o, j) == nth(lists, o, jj));
            lemma_frames_differ(block, order, nth(lists, o, jj), o, frames);
            lemma_frame(nth(lists, o, jj), o, frames);
        }
    }
    assert forall|g: int| 0 <= g < db.len() && is_head(#[trigger] db[g]) implies heads(
        after,
        g,
        db[g].buddy_order as int,
    ) by {
        if g == f {
            assert(nth(after, order, 0) == block);
            assert(in_lists(after, order, 0));
        } else {
            assert(pfndb[g] == db[g]);
            let o = pfndb[g].buddy_order as int;
            assert(heads(lists, g, o));
            let j = choose|j: int| in_lists(lists, o, j) && #[trigger] nth(lists, o, j) == 4096 * g;
            let jj = if o == order {
                j + 1
            } else {
                j
            };
            assert(nth(after, o, jj) == nth(lists, o, j));
            assert(in_lists(after, o, jj));
        }
    }
}

/// The smallest order from `order` on that has a free block.
pub open spec fn first_fit(lists: FreeLists, order: int) -> Option<int>
    decreases 12 - order,
{
    if order >= 12 {
        None
    } else if lists[order].len() > 0 {
        Some(order)
    } else {
        first_fit(lists, order + 1)
    }
}

/// The lists once the upper halves of `block`, from `order` down to `target`,
/// are free.
pub open spec fn split_lists(lists: FreeLists, block: u64, order: int, target: int) -> FreeLists
    decreases order - target,
{
    if order <= target {
        lists
    } else {
        split_lists(
            pushed(lists, order - 1, (block + block_bytes(order - 1)) as u64),
            block,
            order - 1,
            target,
        )
    }
}

/// The lists once `block` is free: it is joined with its buddy as long as that
/// is free too.
pub open spec fn freed(lists: FreeLists, block: u64, order: int) -> FreeLists
    decreases 11 - order,
{
    if order < 11 && lists[order].contains(buddy(block, order)) {
        let b = buddy(block, order);
        freed(
            pulled(lists, order, lists[order].index_of(b)),
            if b < block {
                b
            } else {
                block
            },
            order + 1,
        )
    } else {
        pushed(lists, order, block)
    }
}

/// The frame database knows every buddy that freeing `block` looks at.
pub open spec fn buddies_known(lists: FreeLists, frames: int, block: u64, order: int) -> bool
    decreases 11 - order,
{
    order < 11 ==> {
        let b = buddy(block, order);
        &&& frame_of(b) < frames
        &&& lists[order].contains(b) ==> buddies_known(
            lists,
            frames,
            if b < block {
                b
            } else {
                block
            },
            order + 1,
        )
    }
}

/// Pulling the block that was just pushed restores the lists.
proof fn lemma_pull_pushed(lists: FreeLists, order: int, block: u64)
    requires
        0 <= order < lists.len(),
    ensures
        pulled(pushed(lists, order, block), order, 0) == lists,
{
    let l = lists[order];
    assert((seq![block] + l).remove(0) =~= l);
    assert(pulled(pushed(lists, order, block), order, 0) =~= lists);
}

/// Freeing a block undoes the splitting that it came from.
pub proof fn law_free_undoes_split(
    lists: FreeLists,
    frames: int,
    block: u64,
    order: int,
    target: int,
)
    requires
        sound_lists(lists, frames),
        4096 * frames <= u64::MAX,
        0 <= target <= order <= 11,
        is_block(block, order, frames),
        forall|p: int, j: int|
            in_lists(lists, p, j) ==> apart(block, order, #[trigger] nth(lists, p, j), p),
    ensures
        freed(split_lists(lists, block, order, target), block, target) == freed(
            lists,
            block,
            order,
        ),
    decreases order - target,
{
    if order > target {
        let o = order - 1;
        let upper = (block + block_bytes(o)) as u64;
        let l = pushed(lists, o, upper);
        lemma_block_bytes(o);
        lemma_block_bytes(order);
        lemma_halves(block, o, frames);
        lemma_buddy(block, o);
        assert forall|p: int, j: int| in_lists(lists, p, j) implies apart(
            upper,
            o,
            #[trigger] nth(lists, p, j),
            p,
        ) && apart(block, o, nth(lists, p, j), p) by {
            assert(apart(block, order, nth(lists, p, j), p));
        }
        lemma_pushed(lists, o, upper, frames);
        lemma_apart_pushed(lists, block, o, upper);
        law_free_undoes_split(l, frames, block, o, target);
        assert(l[o][0] == upper);
        assert(l[o].contains(upper));
        let i = l[o].index_of(upper);
        assert(nth(l, o, i) == upper && nth(l, o, 0) == upper);
        assert(i == 0) by {
            if i != 0 {
                assert(apart(nth(l, o, i), o, nth(l, o, 0), o));
            }
        }
        lemma_pull_pushed(lists, o, upper);
    }
}

/// Giving a block back right after it was handed out restores every free list,
/// unless the block that it was taken from could have been joined before.
pub proof fn law_free_undoes_alloc(lists: FreeLists, frames: int, order: int, k: int)
    requires
        sound_lists(lists, frames),
        4096 * frames <= u64::MAX,
        0 <= order <= 11,
        first_fit(lists, order) == Some(k),
        k < 11 ==> !lists[k].contains(buddy(nth(lists, k, 0), k)),
    ensures
        ({
            let block = nth(lists, k, 0);
            freed(split_lists(pulled(lists, k, 0), block, k, order), block, order) == lists
        }),
{
    lemma_first_fit(lists, order, k);
    let block = nth(lists, k, 0);
    let rest = pulled(lists, k, 0);
    assert(in_lists(lists, k, 0));
    lemma_pulled(lists, k, 0, frames);
    assert forall|p: int, j: int| in_lists(rest, p, j) implies apart(
        block,
        k,
        #[trigger] nth(rest, p, j),
        p,
    ) by {}
    law_free_undoes_split(rest, frames, block, k, order);
    if k < 11 {
        let b = buddy(block, k);
        assert(!rest[k].contains(b)) by {
            if rest[k].contains(b) {
                let j = choose|j: int| 0 <= j < rest[k].len() && rest[k][j] == b;
                assert(lists[k][j + 1] == b);
            }
        }
    }
    assert(seq![block] + rest[k] =~= lists[k]);
    assert(pushed(rest, k, block) =~= lists);
}

pub proof fn lemma_first_fit(lists: FreeLists, order: int, k: int)
    requires
        0 <= order,
        lists.len() == 12,
        first_fit(lists, order) == Some(k),
    ensures
        order <= k < 12,
        lists[k].len() > 0,
        forall|o: int| order <= o < k ==> (#[trigger] lists[o]).len() == 0,
    decreases 12 - order,
{
    if order < 12 && lists[order].len() == 0 {
        lemma_first_fit(lists, order + 1, k);
    }
}

/// No free block has its buddy free as well: what can be joined is joined.
pub open spec fn joined(lists: FreeLists) -> bool {
    forall|o: int, i: int|
        #![trigger nth(lists, o, i)]
        in_lists(lists, o, i) && o < 11 ==> !lists[o].contains(buddy(nth(lists, o, i), o))
}

proof fn lemma_buddy_of_buddy(block: u64, order: int)
    ensures
        buddy(buddy(block, order), order) == block,
{
    let s = block_bytes(order) as u64;
    assert((block ^ s) ^ s == block) by (bit_vector);
}

proof fn lemma_joined_pushed(lists: FreeLists, order: int, block: u64)
    requires
        lists.len() == 12,
        0 <= order <= 11,
        joined(lists),
        order < 11 ==> !lists[order].contains(buddy(block, order)),
        order < 11 ==> buddy(block, order) != block,
    ensures
        joined(pushed(lists, order, block)),
{
    let after = pushed(lists, order, block);
    assert forall|o: int, i: int|
        #![trigger nth(after, o, i)]
        in_lists(after, o, i) && o < 11 implies !after[o].contains(buddy(nth(after, o, i), o)) by {
        if o != order {
            assert(nth(after, o, i) == nth(lists, o, i));
        } else {
            let x = nth(after, o, i);
            if after[o].contains(buddy(x, o)) {
                let j = choose|j: int| 0 <= j < after[o].len() && after[o][j] == buddy(x, o);
                if i == 0 {
                    if j > 0 {
                        assert(lists[o][j - 1] == buddy(block, o));
                    }
                } else {
                    assert(nth(lists, o, i - 1) == x);
                    if j == 0 {
                        lemma_buddy_of_buddy(x, o);
                        assert(buddy(block, o) == x);
                        assert(lists[o].contains(x)) by {
                            assert(lists[o][i - 1] == x);
                        }
                    } else {
                        assert(lists[o][j - 1] == buddy(x, o));
                        assert(lists[o].contains(buddy(x, o)));
                    }
                }
            }
        }
    }
}

proof fn lemma_joined_pulled(lists: FreeLists, order: int, i: int)
    requires
        joined(lists),
        in_lists(lists, order, i),
    ensures
        joined(pulled(lists, order, i)),
{
    let after = pulled(lists, order, i);
    assert forall|o: int, j: int|
        #![trigger nth(after, o, j)]
        in_lists(after, o, j) && o < 11 implies !after[o].contains(buddy(nth(after, o, j), o)) by {
        let jj = if o == order && j >= i {
            j + 1
        } else {
            j
        };
        assert(nth(after, o, j) == nth(lists, o, jj));
        assert(in_lists(lists, o, jj));
        let b = buddy(nth(lists, o, jj), o);
        if after[o].contains(b) {
            let k = choose|k: int| 0 <= k < after[o].len() && after[o][k] == b;
            let kk = if o == order && k >= i {
                k + 1
            } else {
                k
            };
            assert(lists[o][kk] == b);
        }
    }
}

/// Freeing a block leaves no two free buddies side by side.
pub proof fn law_free_joins_buddies(lists: FreeLists, frames: int, block: u64, order: int)
    requires
        sound_lists(lists, frames),
        4096 * frames <= u64::MAX,
        joined(lists),
        0 <= order <= 11,
        is_block(block, order, frames),
    ensures
        joined(freed(lists, block, order)),
    decreases 11 - order,
{
    lemma_block_bytes(order);
    if order < 11 {
        lemma_block_bytes(order + 1);
        lemma_buddy(block, order);
    }
    if order < 11 && lists[order].contains(buddy(block, order)) {
        let b = buddy(block, order);
        let i = lists[order].index_of(b);
        assert(nth(lists, order, i) == b);
        lemma_pulled(lists, order, i, frames);
        lemma_joined_pulled(lists, order, i);
        law_free_joins_buddies(
            pulled(lists, order, i),
            frames,
            if b < block {
                b
            } else {
                block
            },
            order + 1,
        );
    } else {
        lemma_joined_pushed(lists, order, block);
    }
}

/// The upper half of a block that is split has no free buddy.
proof fn lemma_split_joined(lists: FreeLists, block: u64, o: int, frames: int)
    requires
        lists.len() == 12,
        joined(lists),
        4096 * frames <= u64::MAX,
        0 <= o < 11,
        is_block(block, o + 1, frames),
        forall|p: int, j: int|
            in_lists(lists, p, j) ==> apart(block, o + 1, #[trigger] nth(lists, p, j), p),
    ensures
        joined(pushed(lists, o, (block + block_bytes(o)) as u64)),
{
    let upper = (block + block_bytes(o)) as u64;
    lemma_block_bytes(o);
    lemma_block_bytes(o + 1);
    lemma_halves(block, o, frames);
    lemma_buddy(block, o);
    lemma_buddy_of_buddy(block, o);
    assert(buddy(upper, o) == block);
    assert(!lists[o].contains(block)) by {
        if lists[o].contains(block) {
            let j = choose|j: int| 0 <= j < lists[o].len() && lists[o][j] == block;
            assert(nth(lists, o, j) == block);
        }
    }
    lemma_joined_pushed(lists, o, upper);
}

/// Handing a block out leaves no two free buddies side by side.
pub proof fn law_alloc_keeps_buddies_joined(
    lists: FreeLists,
    frames: int,
    block: u64,
    order: int,
    target: int,
)
    requires
        sound_lists(lists, frames),
        4096 * frames <= u64::MAX,
        joined(lists),
        0 <= target <= order <= 11,
        is_block(block, order, frames),
        forall|p: int, j: int|
            in_lists(lists, p, j) ==> apart(block, order, #[trigger] nth(lists, p, j), p),
    ensures
        joined(split_lists(lists, block, order, target)),
    decreases order - target,
{
    if order > target {
        let o = order - 1;
        let upper = (block + block_bytes(o)) as u64;
        let l = pushed(lists, o, upper);
        lemma_block_bytes(o);
        lemma_block_bytes(order);
        lemma_halves(block, o, frames);
        lemma_split_joined(lists, block, o, frames);
        assert forall|p: int, j: int| in_lists(lists, p, j) implies apart(
            upper,
            o,
            #[trigger] nth(lists, p, j),
            p,
        ) && apart(block, o, nth(lists, p, j), p) by {
            assert(apart(block, order, nth(lists, p, j), p));
        }
        lemma_pushed(lists, o, upper, frames);
        lemma_apart_pushed(lists, block, o, upper);
        law_alloc_keeps_buddies_joined(l, frames, block, o, target);
    }
}

/// The block that the allocator gives for an order, and the free lists then.
pub open spec fn block_for(lists: FreeLists, order: nat) -> Option<(u64, FreeLists)> {
    match first_fit(lists, order as int) {
        None => None,
        Some(k) => {
            let block = nth(lists, k, 0);
            Some((block, split_lists(pulled(lists, k, 0), block, k, order as int)))
        },
    }
}

/// Splitting leaves the free blocks sound, and apart from what is handed out.
proof fn lemma_split_sound(lists: FreeLists, frames: int, block: u64, order: int, target: int)
    requires
        sound_lists(lists, frames),
        4096 * frames <= u64::MAX,
        0 <= target <= order <= 11,
        is_block(block, order, frames),
        forall|p: int, j: int|
            in_lists(lists, p, j) ==> apart(block, order, #[trigger] nth(lists, p, j), p),
    ensures
        ({
            let after = split_lists(lists, block, order, target);
            &&& sound_lists(after, frames)
            &&& is_block(block, target, frames)
            &&& forall|p: int, j: int|
                in_lists(after, p, j) ==> apart(block, target, #[trigger] nth(after, p, j), p)
            &&& order > target ==> after[target].len() > 0
        }),
    decreases order - target,
{
    if order > target {
        let o = order - 1;
        let upper = (block + block_bytes(o)) as u64;
        let l = pushed(lists, o, upper);
        lemma_block_bytes(o);
        lemma_block_bytes(order);
        lemma_halves(block, o, frames);
        assert forall|p: int, j: int| in_lists(lists, p, j) implies apart(
            upper,
            o,
            #[trigger] nth(lists, p, j),
            p,
        ) && apart(block, o, nth(lists, p, j), p) by {
            assert(apart(block, order, nth(lists, p, j), p));
        }
        lemma_pushed(lists, o, upper, frames);
        lemma_apart_pushed(lists, block, o, upper);
        assert(l[o].len() > 0);
        lemma_split_sound(l, frames, block, o, target);
    }
}

/// A block handed out is aligned to its size and apart from all that is still
/// free, and giving it back at once restores every free list.
pub proof fn law_block_out_and_back(lists: FreeLists, frames: int, order: nat)
    requires
        sound_lists(lists, frames),
        4096 * frames <= u64::MAX,
        joined(lists),
        order <= 11,
        block_for(lists, order) is Some,
    ensures
        ({
            let (block, after) = block_for(lists, order)->0;
            &&& is_block(block, order as int, frames)
            &&& sound_lists(after, frames)
            &&& joined(after)
            &&& forall|p: int, j: int|
                in_lists(after, p, j) ==> apart(block, order as int, #[trigger] nth(after, p, j), p)
            &&& freed(after, block, order as int) == lists
        }),
{
    let k = first_fit(lists, order as int)->0;
    lemma_first_fit(lists, order as int, k);
    let block = nth(lists, k, 0);
    let rest = pulled(lists, k, 0);
    assert(in_lists(lists, k, 0));
    lemma_pulled(lists, k, 0, frames);
    assert forall|p: int, j: int| in_lists(rest, p, j) implies apart(
        block,
        k,
        #[trigger] nth(rest, p, j),
        p,
    ) by {}
    lemma_split_sound(rest, frames, block, k, order as int);
    lemma_joined_pulled(lists, k, 0);
    law_alloc_keeps_buddies_joined(rest, frames, block, k, order as int);
    law_free_undoes_alloc(lists, frames, order as int, k);
}

/// While a block of two pages can be had, two single pages can be had as well,
/// and they differ. Once both are given back, the last one first, every free
/// list is what it was, and the block of two pages is the same as before.
pub proof fn law_pages_join_again(lists: FreeLists, frames: int)
    requires
        sound_lists(lists, frames),
        4096 * frames <= u64::MAX,
        joined(lists),
        block_for(lists, 1) is Some,
    ensures
        ({
            let (pair, one) = block_for(lists, 1)->0;
            &&& is_block(pair, 1, frames)
            &&& freed(one, pair, 1) == lists
            &&& block_for(lists, 0) is Some
            &&& {
                let (first, less) = block_for(lists, 0)->0;
                &&& is_block(first, 0, frames)
                &&& block_for(less, 0) is Some
                &&& {
                    let (second, least) = block_for(less, 0)->0;
                    &&& is_block(second, 0, frames)
                    &&& first != second
                    &&& freed(least, second, 0) == less
                    &&& freed(less, first, 0) == lists
                    &&& block_for(freed(freed(least, second, 0), first, 0), 1) == Some((pair, one))
                }
            }
        }),
{
    let k = first_fit(lists, 1)->0;
    lemma_first_fit(lists, 1, k);
    law_block_out_and_back(lists, frames, 1);
    law_block_out_and_back(lists, frames, 0);
    let (first, less) = block_for(lists, 0)->0;
    let j = first_fit(lists, 0)->0;
    lemma_first_fit(lists, 0, j);
    let at = if j == 0 {
        k
    } else {
        0
    };
    assert(less[at].len() > 0) by {
        if j > 0 {
            let rest = pulled(lists, j, 0);
            assert(in_lists(lists, j, 0));
            lemma_pulled(lists, j, 0, frames);
            lemma_split_sound(rest, frames, first, j, 0);
        }
    }
    if first_fit(less, 0) is None {
        lemma_no_fit_at(less, 0, at);
    }
    law_block_out_and_back(less, frames, 0);
    let (second, least) = block_for(less, 0)->0;
    let m = first_fit(less, 0)->0;
    lemma_first_fit(less, 0, m);
    assert(in_lists(less, m, 0) && nth(less, m, 0) == second);
    lemma_block_bytes(0);
    lemma_block_bytes(m);
}

/// The pages in the free blocks of the orders below `top`.
pub open spec fn pages_below(lists: FreeLists, top: int) -> nat
    decreases top,
{
    if top <= 0 {
        0
    } else {
        pages_below(lists, top - 1) + lists[top - 1].len() * pow2((top - 1) as nat)
    }
}

/// The pages in free blocks.
pub open spec fn free_pages(lists: FreeLists) -> nat {
    pages_below(lists, 12)
}

proof fn lemma_pages_grow(lists: FreeLists, low: int, high: int)
    requires
        0 <= low <= high,
    ensures
        pages_below(lists, low) <= pages_below(lists, high),
    decreases high - low,
{
    if low < high {
        lemma_pages_grow(lists, low, high - 1);
    }
}

proof fn lemma_pages_update(lists: FreeLists, order: int, list: Seq<u64>, top: int)
    requires
        lists.len() == 12,
        0 <= order < 12,
        0 <= top <= 12,
    ensures
        pages_below(lists.update(order, list), top) == pages_below(lists, top) + if order < top {
            (list.len() - lists[order].len()) * pow2(order as nat)
        } else {
            0
        },
    decreases top,
{
    if top > 0 {
        lemma_pages_update(lists, order, list, top - 1);
        if top - 1 == order {
            let n = pow2(order as nat) as int;
            assert((list.len() - lists[order].len()) * n == list.len() * n - lists[order].len() * n)
                by (nonlinear_arith);
        }
    }
}

/// Splitting a block and freeing its upper halves frees all but its first
/// part.
pub proof fn law_split_counts_pages(lists: FreeLists, block: u64, order: int, target: int)
    requires
        lists.len() == 12,
        0 <= target <= order <= 11,
    ensures
        free_pages(split_lists(lists, block, order, target)) + pow2(target as nat) == free_pages(
            lists,
        ) + pow2(order as nat),
        split_lists(lists, block, order, target).len() == 12,
    decreases order - target,
{
    if order > target {
        let o = order - 1;
        let upper = (block + block_bytes(o)) as u64;
        let l = pushed(lists, o, upper);
        lemma_pages_update(lists, o, seq![upper] + lists[o], 12);
        lemma_pow2_unfold(order as nat);
        let n = pow2(o as nat) as int;
        assert((1 + lists[o].len() - lists[o].len()) * n == n) by (nonlinear_arith);
        law_split_counts_pages(l, block, o, target);
    }
}

/// A block is found whenever a page is free, and handing a page out leaves one
/// free page less.
pub proof fn law_alloc_counts_pages(lists: FreeLists)
    requires
        lists.len() == 12,
    ensures
        match first_fit(lists, 0) {
            None => free_pages(lists) == 0,
            Some(k) => {
                let block = nth(lists, k, 0);
                free_pages(split_lists(pulled(lists, k, 0), block, k, 0)) + 1 == free_pages(lists)
            },
        },
{
    lemma2_to64();
    match first_fit(lists, 0) {
        None => {
            lemma_no_fit(lists, 12);
        },
        Some(k) => {
            lemma_first_fit(lists, 0, k);
            let block = nth(lists, k, 0);
            lemma_pages_update(lists, k, lists[k].remove(0), 12);
            law_split_counts_pages(pulled(lists, k, 0), block, k, 0);
            let n = pow2(k as nat) as int;
            assert((lists[k].len() - 1 - lists[k].len()) * n == -n) by (nonlinear_arith);
        },
    }
}

/// Giving a block back frees its pages, whatever it is joined with.
pub proof fn law_free_counts_pages(lists: FreeLists, block: u64, order: int)
    requires
        lists.len() == 12,
        0 <= order <= 11,
    ensures
        free_pages(freed(lists, block, order)) == free_pages(lists) + pow2(order as nat),
        freed(lists, block, order).len() == 12,
    decreases 11 - order,
{
    let n = pow2(order as nat) as int;
    let len = lists[order].len() as int;
    if order < 11 && lists[order].contains(buddy(block, order)) {
        let b = buddy(block, order);
        let i = lists[order].index_of(b);
        let rest = pulled(lists, order, i);
        lemma_pages_update(lists, order, lists[order].remove(i), 12);
        assert((len - 1 - len) * n == -n) by (nonlinear_arith);
        lemma_pow2_unfold((order + 1) as nat);
        law_free_counts_pages(
            rest,
            if b < block {
                b
            } else {
                block
            },
            order + 1,
        );
    } else {
        lemma_pages_update(lists, order, seq![block] + lists[order], 12);
        assert((1 + len - len) * n == n) by (nonlinear_arith);
    }
}

proof fn lemma_no_fit(lists: FreeLists, top: int)
    requires
        lists.len() == 12,
        0 <= top <= 12,
        first_fit(lists, 0) is None,
    ensures
        pages_below(lists, top) == 0,
    decreases top,
{
    if top > 0 {
        lemma_no_fit(lists, top - 1);
        lemma_no_fit_at(lists, 0, top - 1);
        let n = pow2((top - 1) as nat);
        assert(0 * n == 0) by (nonlinear_arith);
    }
}

proof fn lemma_no_fit_at(lists: FreeLists, order: int, at: int)
    requires
        0 <= order <= at < 12,
        first_fit(lists, order) is None,
    ensures
        lists[at].len() == 0,
    decreases 12 - order,
{
    if order < at {
        lemma_no_fit_at(lists, order + 1, at);
    }
}

/// Every byte of a block belongs to `managed`.
pub open spec fn block_in(managed: Set<int>, block: u64, order: int) -> bool {
    forall|a: int| block <= a < block + block_bytes(order) ==> #[trigger] managed.contains(a)
}

/// A block of managed memory has its buddy inside the memory.
pub open spec fn managed_buddies(managed: Set<int>, frames: int) -> bool {
    forall|b: u64, o: int|
        0 <= o < 11 && b as int % block_bytes(o) == 0 && b + block_bytes(o) <= 4096 * frames
            && block_in(managed, b, o) ==> frame_of(#[trigger] buddy(b, o)) < frames
}

/// Freeing a managed block looks only at buddies inside the memory.
pub proof fn lemma_managed_known(
    lists: FreeLists,
    managed: Set<int>,
    frames: int,
    block: u64,
    order: int,
)
    requires
        sound_lists(lists, frames),
        4096 * frames <= u64::MAX,
        managed_buddies(managed, frames),
        forall|a: int| #[trigger] is_free(lists, a) ==> managed.contains(a),
        0 <= order <= 11,
        is_block(block, order, frames),
        block_in(managed, block, order),
    ensures
        buddies_known(lists, frames, block, order),
    decreases 11 - order,
{
    if order < 11 {
        let b = buddy(block, order);
        lemma_block_bytes(order);
        lemma_block_bytes(order + 1);
        lemma_buddy(block, order);
        if lists[order].contains(b) {
            let j = choose|j: int| 0 <= j < lists[order].len() && lists[order][j] == b;
            assert(nth(lists, order, j) == b);
            let m = if b < block {
                b
            } else {
                block
            };
            assert forall|a: int| m <= a < m + block_bytes(
                order + 1,
            ) implies #[trigger] managed.contains(a) by {
                if b <= a < b + block_bytes(order) {
                    assert(nth(lists, order, j) <= a < nth(lists, order, j) + block_bytes(order));
                    assert(is_free(lists, a));
                }
            }
            lemma_managed_known(lists, managed, frames, m, order + 1);
        }
    }
}

pub proof fn lemma_page_bytes()
    ensures
        block_bytes(0) == 4096,
        PF_KERNEL & PF_FREE == 0,
{
    lemma2_to64();
    lemma_flag_bits(0);
}

pub proof fn lemma_order_bytes(order: int)
    requires
        0 <= order <= 11,
    ensures
        4096 <= block_bytes(order) <= 0x80_0000,
{
    lemma_block_bytes(order);
}

/// Free memory comes in whole pages.
pub proof fn lemma_free_page(lists: FreeLists, frames: int, a: int, b: int)
    requires
        sound_lists(lists, frames),
        a / 4096 == b / 4096,
        is_free(lists, a),
    ensures
        is_free(lists, b),
        4096 <= a < 4096 * frames,
{
    let (o, i) = choose|o: int, i: int|
        in_lists(lists, o, i) && (#[trigger] nth(lists, o, i)) <= a < nth(lists, o, i)
            + block_bytes(o);
    let c = nth(lists, o, i);
    lemma_block_bytes(o);
    lemma_frame(c, o, frames);
    assert(c <= b < c + block_bytes(o));
}

} // verus!
