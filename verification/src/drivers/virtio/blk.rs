//! The driver for virtio block devices.

use crate::common::bytes::{bytes32, bytes64, patched, put32, zero_bytes, zeroes};
use crate::drivers::virtio::mmio::VirtioBlockDriver;
use crate::hal::mmu::pager::PhysMemory;
use crate::hal::mmu::FrameAllocator;
use crate::memory::file_pages::others_same;
use crate::memory::frames::{law_page_reads_back, page_bytes, write_frame};
use crate::memory::pmm::{block_for, FreeLists};
use crate::memory::{calculate_order, order_of, PCAllocator};
use vstd::arithmetic::power2::{lemma2_to64, pow2};
use vstd::prelude::*;

verus! {

/// What stands at the end of a list of descriptors.
pub const NO_DESCRIPTOR: u16 = 0xFFFF;

/// A piece of memory that the device reads or writes.
#[derive(Debug, Clone, Copy, PartialEq, Eq, Structural)]
pub struct VqDescriptor {
    pub addr: u64,
    pub len: u32,
    pub flags: u16,
    pub next: u16,
}

/// What is offered to the device: the chains of descriptors, by their first,
/// and how many have been offered.
pub struct VqAvailableRing {
    pub idx: u16,
    pub ring: Vec<u16>,
    pub used_event: u16,
}

/// A chain that the device is done with.
#[derive(Debug, Clone, Copy, PartialEq, Eq, Structural)]
pub struct VqUsedElem {
    pub id: u32,
    pub len: u32,
}

/// What the device is done with, and how much that is.
pub struct VqUsedRing {
    pub idx: u16,
    pub ring: Vec<VqUsedElem>,
}

/// A request that the device works on: its three descriptors, the page that
/// holds its header and its status, and the memory that data goes through.
#[derive(Debug, Clone, Copy, PartialEq, Eq, Structural)]
pub struct BlockRequest {
    pub d0: u16,
    pub d1: u16,
    pub d2: u16,
    pub page_phys: u64,
    pub dma_phys: u64,
    pub dma_len: u64,
}

impl BlockRequest {
    pub fn new(d0: u16, d1: u16, d2: u16, page_phys: u64, dma_phys: u64, dma_len: u64) -> (r: Self)
        ensures
            r == (BlockRequest { d0, d1, d2, page_phys, dma_phys, dma_len }),
    {
        BlockRequest { d0, d1, d2, page_phys, dma_phys, dma_len }
    }

    /// One of the request's descriptors.
    pub open spec fn uses(self, d: u16) -> bool {
        d == self.d0 || d == self.d1 || d == self.d2
    }

    /// The descriptors are three.
    pub open spec fn distinct(self) -> bool {
        self.d0 != self.d1 && self.d0 != self.d2 && self.d1 != self.d2
    }
}

pub type Requests = Seq<Option<BlockRequest>>;

/// A queue of requests to a device.
pub struct Virtqueue {
    pub desc: Vec<VqDescriptor>,
    pub available: VqAvailableRing,
    pub desc_phys: u64,
    pub av_phys: u64,
    pub used_phys: u64,
    pub desc_order: usize,
    pub av_order: usize,
    pub used_order: usize,
    pub queue_size: u16,
    pub free_head: u16,
    pub last_seen_used: u16,
    pub queue_notify_off: u16,
    pub requests: Vec<Option<BlockRequest>>,
    pub free: Ghost<Seq<u16>>,
}

/// What follows descriptor `i` of a list.
pub open spec fn follower(list: Seq<u16>, i: int) -> u16 {
    if i + 1 < list.len() {
        list[i + 1]
    } else {
        NO_DESCRIPTOR
    }
}

/// The descriptors spell out the list.
pub open spec fn spelled(desc: Seq<VqDescriptor>, head: u16, list: Seq<u16>) -> bool {
    &&& head == follower(list, -1)
    &&& list.no_duplicates()
    &&& forall|i: int| 0 <= i < list.len() ==> #[trigger] links(desc, list, i)
}

/// Descriptor `i` of a list leads to the one that follows it.
pub open spec fn links(desc: Seq<VqDescriptor>, list: Seq<u16>, i: int) -> bool {
    list[i] < desc.len() && desc[list[i] as int].next == follower(list, i)
}

/// A request is kept under its first descriptor, and its three descriptors are
/// in no other use.
pub open spec fn kept(requests: Requests, free: Seq<u16>, i: int) -> bool {
    requests[i] matches Some(q) ==> {
        &&& q.d0 == i
        &&& owned(requests, free, q, i)
    }
}

/// The descriptors of a request are three, none of them is free, and none of
/// them belongs to a request other than the one kept at `at`.
pub open spec fn owned(requests: Requests, free: Seq<u16>, q: BlockRequest, at: int) -> bool {
    &&& q.distinct()
    &&& q.d0 < requests.len() && q.d1 < requests.len() && q.d2 < requests.len()
    &&& !free.contains(q.d0) && !free.contains(q.d1) && !free.contains(q.d2)
    &&& forall|j: int| #![trigger requests[j]]
        0 <= j < requests.len() && j != at ==> apart(requests[j], q)
}

/// Two requests have no descriptor in common.
pub open spec fn apart(other: Option<BlockRequest>, q: BlockRequest) -> bool {
    other matches Some(o) ==> !o.uses(q.d0) && !o.uses(q.d1) && !o.uses(q.d2)
}

impl Virtqueue {
    /// The free descriptors, in the order in which they are handed out.
    pub open spec fn free_list(&self) -> Seq<u16> {
        self.free@
    }

    pub open spec fn wf(&self) -> bool {
        &&& 0 < self.queue_size
        &&& self.desc@.len() == self.queue_size
        &&& self.requests@.len() == self.queue_size
        &&& self.available.ring@.len() == self.queue_size
        &&& spelled(self.desc@, self.free_head, self.free_list())
        &&& forall|i: int|
            0 <= i < self.queue_size ==> #[trigger] kept(self.requests@, self.free_list(), i)
    }

    /// A request that is not in the queue, but whose descriptors are in use by
    /// it alone.
    pub open spec fn holds(&self, q: BlockRequest) -> bool {
        owned(self.requests@, self.free_list(), q, -1)
    }

    /// All but the descriptors, and which of them are free, is as it was.
    pub open spec fn same_but_descriptors(&self, before: Virtqueue) -> bool {
        &&& self.available == before.available
        &&& self.desc_phys == before.desc_phys
        &&& self.av_phys == before.av_phys
        &&& self.used_phys == before.used_phys
        &&& self.desc_order == before.desc_order
        &&& self.av_order == before.av_order
        &&& self.used_order == before.used_order
        &&& self.queue_size == before.queue_size
        &&& self.last_seen_used == before.last_seen_used
        &&& self.queue_notify_off == before.queue_notify_off
        &&& self.requests == before.requests
    }

    /// Takes a descriptor from the free ones.
    pub fn alloc_desc(&mut self) -> (r: Result<usize, ()>)
        requires
            old(self).wf(),
        ensures
            final(self).wf(),
            final(self).same_but_descriptors(*old(self)),
            final(self).desc == old(self).desc,
            if old(self).free_list().len() == 0 {
                r is Err && *final(self) == *old(self)
            } else {
                &&& r == Ok::<usize, ()>(old(self).free_list()[0] as usize)
                &&& final(self).free_list() == old(self).free_list().drop_first()
            },
    {
        let idx = self.free_head;
        if idx == NO_DESCRIPTOR {
            proof {
                if self.free_list().len() > 0 {
                    assert(links(self.desc@, self.free_list(), 0));
                }
            }
            return Err(());
        }
        let ghost list = self.free_list();
        assert(list.len() > 0);
        assert(links(self.desc@, list, 0));
        self.free_head = self.desc[idx as usize].next;
        proof {
            self.free@ = list.drop_first();
            let rest = self.free@;
            assert forall|i: int| 0 <= i < rest.len() implies #[trigger] links(
                self.desc@,
                rest,
                i,
            ) by {
                assert(links(self.desc@, list, i + 1));
            }
            assert(spelled(self.desc@, self.free_head, rest)) by {
                assert forall|i: int, j: int| 0 <= i < j < rest.len() implies rest[i] != rest[j] by {
                    assert(rest[i] == list[i + 1] && rest[j] == list[j + 1]);
                }
            }
            assert forall|i: int| 0 <= i < self.queue_size implies #[trigger] kept(
                self.requests@,
                rest,
                i,
            ) by {
                assert(kept(self.requests@, list, i));
                lemma_drop_first(list);
            }
        }
        Ok(idx as usize)
    }

    /// Gives a descriptor back. It is the first to be handed out again.
    pub fn free_desc(&mut self, idx: u16)
        requires
            old(self).wf(),
            idx < old(self).queue_size,
            !old(self).free_list().contains(idx),
            forall|i: int| #![trigger old(self).requests@[i]]
                0 <= i < old(self).requests@.len() ==> (old(self).requests@[i] matches Some(q)
                    ==> !q.uses(idx)),
        ensures
            final(self).wf(),
            final(self).same_but_descriptors(*old(self)),
            final(self).free_list() == seq![idx] + old(self).free_list(),
            final(self).desc@ == old(self).desc@.update(
                idx as int,
                VqDescriptor { next: old(self).free_head, ..old(self).desc@[idx as int] },
            ),
    {
        let ghost list = self.free_list();
        let ghost before = *self;
        let mut changed = self.desc[idx as usize];
        changed.next = self.free_head;
        self.desc.set(idx as usize, changed);
        self.free_head = idx;
        proof {
            self.free@ = seq![idx] + list;
            let more = self.free@;
            assert forall|i: int| 0 <= i < more.len() implies #[trigger] links(
                self.desc@,
                more,
                i,
            ) by {
                if i > 0 {
                    assert(list.contains(list[i - 1]));
                    assert(links(before.desc@, list, i - 1));
                }
            }
            assert(more.no_duplicates()) by {
                assert forall|i: int, j: int| 0 <= i < j < more.len() implies more[i] != more[j] by {
                    assert(more[j] == list[j - 1]);
                    assert(list.contains(list[j - 1]));
                    if i > 0 {
                        assert(more[i] == list[i - 1]);
                    }
                }
            }
            assert forall|i: int| 0 <= i < self.queue_size implies #[trigger] kept(
                self.requests@,
                more,
                i,
            ) by {
                assert(kept(before.requests@, list, i));
                lemma_push_front(list, idx);
            }
        }
    }
}

proof fn lemma_drop_first(list: Seq<u16>)
    requires
        list.len() > 0,
    ensures
        forall|d: u16| #[trigger] list.drop_first().contains(d) ==> list.contains(d),
        list.no_duplicates() ==> !list.drop_first().contains(list[0]),
{
    let rest = list.drop_first();
    assert forall|d: u16| #[trigger] rest.contains(d) implies list.contains(d) by {
        let i = choose|i: int| 0 <= i < rest.len() && rest[i] == d;
        assert(list[i + 1] == d);
    }
    if list.no_duplicates() && rest.contains(list[0]) {
        let i = choose|i: int| 0 <= i < rest.len() && rest[i] == list[0];
        assert(list[i + 1] == list[0]);
    }
}

proof fn lemma_push_front(list: Seq<u16>, idx: u16)
    ensures
        forall|d: u16| #[trigger] (seq![idx] + list).contains(d) <==> d == idx || list.contains(d),
{
    let more = seq![idx] + list;
    assert forall|d: u16| #[trigger] more.contains(d) <==> d == idx || list.contains(d) by {
        if list.contains(d) {
            let i = choose|i: int| 0 <= i < list.len() && list[i] == d;
            assert(more[i + 1] == d);
        }
        if d == idx {
            assert(more[0] == d);
        }
        if more.contains(d) {
            let i = choose|i: int| 0 <= i < more.len() && more[i] == d;
            if i > 0 {
                assert(list[i - 1] == d);
            }
        }
    }
}

/// Gives the page of a request back, and its descriptors, the last first.
fn free_submission_resources<A: FrameAllocator>(
    vq: &mut Virtqueue,
    page_phys: u64,
    descs: &Vec<u16>,
    alloc: &mut A,
)
    requires
        old(vq).wf(),
        descs@.no_duplicates(),
        forall|k: int| #![trigger descs@[k]]
            0 <= k < descs@.len() ==> unused(*old(vq), descs@[k]),
        old(alloc).ready(),
        old(alloc).accepts(page_phys),
    ensures
        final(vq).wf(),
        final(vq).same_but_descriptors(*old(vq)),
        final(vq).free_list() == descs@ + old(vq).free_list(),
        final(vq).desc@ == relinked(old(vq).desc@, descs@, old(vq).free_head),
        final(alloc).ready(),
        old(alloc).returned(final(alloc), page_phys),
        final(alloc).available() == old(alloc).available().insert(page_phys),
        final(alloc).capacity() == old(alloc).capacity() + 1,
        forall|f: u64|
            f != page_phys && #[trigger] old(alloc).accepts(f) ==> final(alloc).accepts(f),
{
    let mut i: usize = descs.len();
    proof {
        assert(descs@.skip(i as int) =~= Seq::empty());
        assert(vq.free_list() =~= descs@.skip(i as int) + vq.free_list());
    }
    while i > 0
        invariant
            i <= descs@.len(),
            old(vq).wf(),
            vq.wf(),
            vq.same_but_descriptors(*old(vq)),
            descs@.no_duplicates(),
            forall|k: int| #![trigger descs@[k]]
                0 <= k < descs@.len() ==> unused(*old(vq), descs@[k]),
            vq.free_list() == descs@.skip(i as int) + old(vq).free_list(),
            vq.desc@ == relinked(old(vq).desc@, descs@.skip(i as int), old(vq).free_head),
        decreases i,
    {
        i -= 1;
        let ghost rest = descs@.skip(i + 1);
        proof {
            assert(vq.free_head == if rest.len() > 0 {
                rest[0]
            } else {
                old(vq).free_head
            }) by {
                assert(vq.free_head == follower(rest + old(vq).free_list(), -1));
                assert(old(vq).free_head == follower(old(vq).free_list(), -1));
                if rest.len() == 0 {
                    assert(rest + old(vq).free_list() =~= old(vq).free_list());
                }
            }
            assert(unused(*old(vq), descs@[i as int]));
            assert(!vq.free_list().contains(descs@[i as int])) by {
                if vq.free_list().contains(descs@[i as int]) {
                    let k = choose|k: int|
                        0 <= k < vq.free_list().len() && vq.free_list()[k] == descs@[i as int];
                    if k < rest.len() {
                        assert(rest[k] == descs@[i + 1 + k]);
                    } else {
                        assert(old(vq).free_list()[k - rest.len()] == descs@[i as int]);
                    }
                }
            }
        }
        vq.free_desc(descs[i]);
        proof {
            assert(descs@.skip(i as int) =~= seq![descs@[i as int]] + rest);
            assert(vq.free_list() =~= descs@.skip(i as int) + old(vq).free_list());
            assert(descs@.skip(i as int).drop_first() =~= rest);
        }
    }
    assert(descs@.skip(0) =~= descs@);
    alloc.deallocate_frame(page_phys);
}

/// A descriptor is neither free nor in use by a request in the queue.
pub open spec fn unused(vq: Virtqueue, d: u16) -> bool {
    &&& d < vq.queue_size
    &&& !vq.free_list().contains(d)
    &&& forall|i: int| #![trigger vq.requests@[i]]
        0 <= i < vq.requests@.len() ==> (vq.requests@[i] matches Some(q) ==> !q.uses(d))
}

/// The descriptors once those of `list` have been put before a list that
/// starts with `head`.
pub open spec fn relinked(desc: Seq<VqDescriptor>, list: Seq<u16>, head: u16) -> Seq<VqDescriptor>
    decreases list.len(),
{
    if list.len() == 0 {
        desc
    } else {
        let rest = list.drop_first();
        let done = relinked(desc, rest, head);
        let next = if rest.len() > 0 {
            rest[0]
        } else {
            head
        };
        done.update(list[0] as int, VqDescriptor { next, ..done[list[0] as int] })
    }
}

/// Takes the three descriptors of a request. Where there are not three, the
/// page that was meant for the request is given back, and the queue is as it
/// was.
pub fn alloc_request_descs<A: FrameAllocator>(
    vq: &mut Virtqueue,
    page_phys: u64,
    alloc: &mut A,
) -> (r: Result<
    (u16, u16, u16),
    (),
>)
    requires
        old(vq).wf(),
        old(alloc).ready(),
        old(alloc).accepts(page_phys),
    ensures
        final(vq).wf(),
        final(vq).same_but_descriptors(*old(vq)),
        final(vq).desc@ == old(vq).desc@,
        final(alloc).ready(),
        ({
            let free = old(vq).free_list();
            if free.len() < 3 {
                &&& r is Err
                &&& final(vq).free_list() == free
                &&& final(vq).free_head == old(vq).free_head
                &&& old(alloc).returned(final(alloc), page_phys)
                &&& final(alloc).available() == old(alloc).available().insert(page_phys)
                &&& final(alloc).capacity() == old(alloc).capacity() + 1
            } else {
                &&& r == Ok::<(u16, u16, u16), ()>((free[0], free[1], free[2]))
                &&& final(vq).free_list() == free.skip(3)
                &&& *final(alloc) == *old(alloc)
                &&& owned(
                    final(vq).requests@,
                    final(vq).free_list(),
                    BlockRequest {
                        d0: free[0],
                        d1: free[1],
                        d2: free[2],
                        page_phys,
                        dma_phys: 0,
                        dma_len: 0,
                    },
                    -1,
                )
            }
        }),
{
    let ghost free = vq.free_list();
    let d0 = match vq.alloc_desc() {
        Ok(d) => d as u16,
        Err(_) => {
            alloc.deallocate_frame(page_phys);
            return Err(());
        },
    };
    proof {
        lemma_taken(*old(vq), *vq, d0);
    }
    let ghost one = *vq;
    let d1 = match vq.alloc_desc() {
        Ok(d) => d as u16,
        Err(_) => {
            let descs = vec![d0];
            free_submission_resources(vq, page_phys, &descs, alloc);
            proof {
                reveal_with_fuel(relinked, 2);
                assert(vq.free_list() =~= free);
                assert(links(old(vq).desc@, free, 0));
                assert(vq.desc@ =~= old(vq).desc@);
            }
            return Err(());
        },
    };
    proof {
        lemma_taken(one, *vq, d1);
        lemma_drop_first(free);
    }
    let ghost two = *vq;
    let d2 = match vq.alloc_desc() {
        Ok(d) => d as u16,
        Err(_) => {
            let descs = vec![d0, d1];
            free_submission_resources(vq, page_phys, &descs, alloc);
            proof {
                reveal_with_fuel(relinked, 3);
                assert(descs@.drop_first() =~= seq![d1]);
                assert(vq.free_list() =~= free);
                assert(free[0] == d0 && free[1] == d1);
                assert(links(old(vq).desc@, free, 0));
                assert(links(old(vq).desc@, free, 1));
                assert(vq.desc@ =~= old(vq).desc@);
            }
            return Err(());
        },
    };
    proof {
        lemma_taken(two, *vq, d2);
        lemma_drop_first(two.free_list());
        assert(vq.free_list() =~= free.skip(3));
        assert(free[0] == d0 && free[1] == d1 && free[2] == d2);
    }
    Ok((d0, d1, d2))
}

/// A descriptor that has just been taken is in no use.
proof fn lemma_taken(before: Virtqueue, after: Virtqueue, d: u16)
    requires
        before.wf(),
        after.wf(),
        after.same_but_descriptors(before),
        after.desc == before.desc,
        before.free_list().len() > 0,
        d == before.free_list()[0],
        after.free_list() == before.free_list().drop_first(),
    ensures
        unused(after, d),
        forall|e: u16| #[trigger] unused(before, e) ==> unused(after, e),
        forall|i: int| #![trigger after.requests@[i]]
            0 <= i < after.requests@.len() ==> (after.requests@[i] matches Some(q) ==> !q.uses(d)),
{
    lemma_drop_first(before.free_list());
    assert(links(before.desc@, before.free_list(), 0));
    assert forall|i: int| #![trigger after.requests@[i]] 0 <= i < after.requests@.len() implies (
    after.requests@[i] matches Some(q) ==> !q.uses(d)) by {
        assert(kept(before.requests@, before.free_list(), i));
        assert(before.free_list().contains(before.free_list()[0]));
    }
}

/// Takes the request that is kept under a descriptor out of the queue.
pub fn take_request(vq: &mut Virtqueue, desc_id: usize) -> (r: Option<BlockRequest>)
    requires
        old(vq).wf(),
    ensures
        final(vq).wf(),
        r == if desc_id < old(vq).queue_size {
            old(vq).requests@[desc_id as int]
        } else {
            None
        },
        final(vq).requests@ == if desc_id < old(vq).queue_size {
            old(vq).requests@.update(desc_id as int, None)
        } else {
            old(vq).requests@
        },
        final(vq).desc == old(vq).desc,
        final(vq).free_head == old(vq).free_head,
        final(vq).free_list() == old(vq).free_list(),
        final(vq).available == old(vq).available,
        final(vq).last_seen_used == old(vq).last_seen_used,
        final(vq).queue_size == old(vq).queue_size,
        final(vq).queue_notify_off == old(vq).queue_notify_off,
        r matches Some(q) ==> q.d0 == desc_id && final(vq).holds(q),
{
    if desc_id >= vq.requests.len() {
        return None;
    }
    let taken = vq.requests[desc_id];
    vq.requests.set(desc_id, None);
    proof {
        let was = old(vq).requests@;
        let is = vq.requests@;
        assert(kept(was, vq.free_list(), desc_id as int));
        assert forall|i: int| 0 <= i < vq.queue_size implies #[trigger] kept(
            is,
            vq.free_list(),
            i,
        ) by {
            assert(kept(was, vq.free_list(), i));
        }
    }
    taken
}

/// Keeps a request in the queue, under its first descriptor.
pub fn store_request(vq: &mut Virtqueue, request: BlockRequest)
    requires
        old(vq).wf(),
        old(vq).holds(request),
        old(vq).requests@[request.d0 as int] is None,
    ensures
        final(vq).wf(),
        final(vq).requests@ == old(vq).requests@.update(request.d0 as int, Some(request)),
        final(vq).desc == old(vq).desc,
        final(vq).free_head == old(vq).free_head,
        final(vq).free_list() == old(vq).free_list(),
        final(vq).available == old(vq).available,
        final(vq).last_seen_used == old(vq).last_seen_used,
        final(vq).queue_size == old(vq).queue_size,
        final(vq).queue_notify_off == old(vq).queue_notify_off,
{
    vq.requests.set(request.d0 as usize, Some(request));
    proof {
        let was = old(vq).requests@;
        let is = vq.requests@;
        assert forall|i: int| 0 <= i < vq.queue_size implies #[trigger] kept(
            is,
            vq.free_list(),
            i,
        ) by {
            assert(kept(was, vq.free_list(), i));
            if i != request.d0 && was[i] is Some {
                assert(apart(was[i], request));
            }
        }
    }
}

pub const RESULT_PENDING: u8 = 0;

pub const RESULT_OK: u8 = 1;

pub const RESULT_ERROR: u8 = 2;

/// What one who waits for a request sees of it: whether and how it was
/// completed, and who is to be woken then. One who no longer waits is not.
#[derive(Debug, Clone, Copy, PartialEq, Eq, Structural)]
pub struct RequestState {
    pub completed: bool,
    pub result: u8,
    pub waker: Option<u64>,
    pub waiting: bool,
}

/// What one who asks about a request is told.
#[derive(Debug, Clone, Copy, PartialEq, Eq, Structural)]
pub enum RequestPoll {
    Pending,
    Done,
    Failed,
}

impl RequestState {
    pub open spec fn wf(&self) -> bool {
        &&& self.result <= RESULT_ERROR
        &&& self.completed == (self.result != RESULT_PENDING)
    }

    pub fn new() -> (r: Self)
        ensures
            r.wf(),
            r == (RequestState {
                completed: false,
                result: RESULT_PENDING,
                waker: None,
                waiting: true,
            }),
    {
        RequestState { completed: false, result: RESULT_PENDING, waker: None, waiting: true }
    }

    /// Notes who is to be woken.
    pub fn register(&mut self, waker: u64)
        ensures
            *final(self) == (RequestState { waker: Some(waker), ..*old(self) }),
    {
        self.waker = Some(waker);
    }

    /// Nobody waits any longer.
    pub fn deactivate(&mut self)
        ensures
            *final(self) == (RequestState { waiting: false, waker: None, ..*old(self) }),
    {
        self.waiting = false;
        self.waker = None;
    }

    /// Who is to be woken, once.
    pub fn wake(&mut self) -> (r: Option<u64>)
        ensures
            r == if old(self).waiting {
                old(self).waker
            } else {
                None
            },
            *final(self) == (RequestState { waker: None, ..*old(self) }),
    {
        let waker = self.waker;
        self.waker = None;
        if self.waiting {
            waker
        } else {
            None
        }
    }
}

/// What a result means to one who asks.
pub open spec fn poll_of(result: u8) -> RequestPoll {
    if result == RESULT_OK {
        RequestPoll::Done
    } else if result == RESULT_ERROR {
        RequestPoll::Failed
    } else {
        RequestPoll::Pending
    }
}

fn answer(result: u8) -> (r: RequestPoll)
    ensures
        r == poll_of(result),
{
    match result {
        RESULT_OK => RequestPoll::Done,
        RESULT_ERROR => RequestPoll::Failed,
        _ => RequestPoll::Pending,
    }
}

/// Asks whether a request has been completed. `seen` is its result when it was
/// first looked at. Where that was still open, the waker is noted and the
/// result is looked at again, so that a completion in between is not missed.
pub fn poll_block_request(state: &mut RequestState, seen: u8, waker: u64) -> (r: RequestPoll)
    requires
        old(state).wf(),
        seen <= RESULT_ERROR,
    ensures
        final(state).wf(),
        if seen != RESULT_PENDING {
            r == poll_of(seen) && *final(state) == *old(state)
        } else {
            r == poll_of(old(state).result) && *final(state) == (RequestState {
                waker: Some(waker),
                ..*old(state)
            })
        },
{
    if seen != RESULT_PENDING {
        return answer(seen);
    }
    state.register(waker);
    answer(state.result)
}

/// Completes a request with the status that the device gave it. The result is
/// there before anyone is woken; the descriptors and the page are given back.
/// The reply is who is to be woken.
pub fn complete_request<A: FrameAllocator>(
    vq: &mut Virtqueue,
    request: &BlockRequest,
    state: &mut RequestState,
    status: u8,
    alloc: &mut A,
) -> (r: Option<u64>)
    requires
        old(vq).wf(),
        old(vq).holds(*request),
        old(alloc).ready(),
        old(alloc).accepts(request.page_phys),
    ensures
        final(vq).wf(),
        final(vq).same_but_descriptors(*old(vq)),
        final(vq).free_list() == seq![request.d2, request.d1, request.d0] + old(vq).free_list(),
        final(vq).desc@ == relinked(
            old(vq).desc@,
            seq![request.d2, request.d1, request.d0],
            old(vq).free_head,
        ),
        final(alloc).ready(),
        old(alloc).returned(final(alloc), request.page_phys),
        final(alloc).available() == old(alloc).available().insert(request.page_phys),
        final(alloc).capacity() == old(alloc).capacity() + 1,
        r == if old(state).waiting {
            old(state).waker
        } else {
            None
        },
        final(state).wf(),
        *final(state) == (RequestState {
            completed: true,
            result: if status == 0 {
                RESULT_OK
            } else {
                RESULT_ERROR
            },
            waker: None,
            ..*old(state)
        }),
{
    state.result = if status == 0 {
        RESULT_OK
    } else {
        RESULT_ERROR
    };
    state.completed = true;
    let woken = state.wake();
    let ghost free = vq.free_list();
    proof {
        assert forall|i: int| #![trigger vq.requests@[i]] 0 <= i
            < vq.requests@.len() implies (vq.requests@[i] matches Some(q) ==> !q.uses(request.d0)
            && !q.uses(request.d1) && !q.uses(request.d2)) by {
            assert(apart(vq.requests@[i], *request));
        }
        lemma_push_front(free, request.d0);
    }
    vq.free_desc(request.d0);
    proof {
        lemma_push_front(vq.free_list(), request.d1);
        assert(vq.free_head == follower(vq.free_list(), -1));
        assert(vq.free_head == request.d0);
    }
    vq.free_desc(request.d1);
    proof {
        assert(vq.free_head == follower(vq.free_list(), -1));
        assert(vq.free_head == request.d1);
    }
    vq.free_desc(request.d2);
    proof {
        reveal_with_fuel(relinked, 4);
        assert(vq.free_list() =~= seq![request.d2, request.d1, request.d0] + free);
        assert(seq![request.d2, request.d1, request.d0].drop_first() =~= seq![
            request.d1,
            request.d0,
        ]);
        assert(seq![request.d1, request.d0].drop_first() =~= seq![request.d0]);
        assert(seq![request.d0].drop_first() =~= Seq::empty());
    }
    alloc.deallocate_frame(request.page_phys);
    woken
}

/// A request that was submitted and completed leaves the queue with all the
/// descriptors free that were free before.
pub proof fn law_completion_returns_descriptors(free: Seq<u16>, d: u16)
    requires
        free.len() >= 3,
    ensures
        (seq![free[2], free[1], free[0]] + free.skip(3)).contains(d) <==> free.contains(d),
        (seq![free[2], free[1], free[0]] + free.skip(3)).len() == free.len(),
{
    let after = seq![free[2], free[1], free[0]] + free.skip(3);
    if free.contains(d) {
        let i = choose|i: int| 0 <= i < free.len() && free[i] == d;
        if i < 3 {
            assert(after[2 - i] == d);
        } else {
            assert(after[i] == d);
        }
    }
    if after.contains(d) {
        let i = choose|i: int| 0 <= i < after.len() && after[i] == d;
        if i < 3 {
            assert(free[2 - i] == d);
        } else {
            assert(free[i] == d);
        }
    }
}

/// What the bits of the device's status mean.
pub const STATUS_ACKNOWLEDGE: u8 = 1;

pub const STATUS_DRIVER: u8 = 2;

pub const STATUS_DRIVER_OK: u8 = 4;

pub const STATUS_FEATURES_OK: u8 = 8;

/// What is written to the status of a device to greet it: it is reset, then it
/// is told that it was seen, then that there is a driver. `first` and `second`
/// are its status after the first and after the second write.
pub fn perform_handshake(first: u8, second: u8) -> (r: [u8; 3])
    ensures
        r@ == seq![0u8, first | STATUS_ACKNOWLEDGE, second | STATUS_DRIVER],
{
    let writes = [0, first | STATUS_ACKNOWLEDGE, second | STATUS_DRIVER];
    assert(writes@ =~= seq![0u8, first | STATUS_ACKNOWLEDGE, second | STATUS_DRIVER]);
    writes
}

/// Bit `bit` of a word of features.
pub open spec fn feature(word: u32, bit: u32) -> bool {
    word & (1u32 << bit) != 0
}

/// What the driver accepts of the features that the device offers, given in
/// two words. Features that the driver relies on are accepted in any case; the
/// ones that it cannot deal with are not.
pub fn negotiate_features(lower: u32, upper: u32) -> (r: (u32, u32))
    ensures
        forall|bit: u32|
            bit < 32 ==> #[trigger] feature(r.0, bit) == (bit == 1 || bit == 2 || bit == 5 || bit
                == 6 || bit == 9 || bit == 12 || (bit != 28 && feature(lower, bit))),
        forall|bit: u32|
            bit < 32 ==> #[trigger] feature(r.1, bit) == (bit == 0 || (bit != 2 && feature(
                upper,
                bit,
            ))),
{
    let low = (lower & !(1u32 << 28)) | (1u32 << 1) | (1u32 << 2) | (1u32 << 5) | (1u32 << 6) | (
    1u32 << 9) | (1u32 << 12);
    let high = (upper | 1) & !(1u32 << 2);
    proof {
        assert forall|bit: u32| bit < 32 implies #[trigger] feature(low, bit) == (bit == 1 || bit
            == 2 || bit == 5 || bit == 6 || bit == 9 || bit == 12 || (bit != 28 && feature(
            lower,
            bit,
        ))) by {
            assert((((lower & !(1u32 << 28)) | (1u32 << 1) | (1u32 << 2) | (1u32 << 5) | (1u32 << 6)
                | (1u32 << 9) | (1u32 << 12)) & (1u32 << bit) != 0) == (bit == 1 || bit == 2 || bit
                == 5 || bit == 6 || bit == 9 || bit == 12 || (bit != 28 && lower & (1u32 << bit)
                != 0))) by (bit_vector)
                requires
                    bit < 32,
            ;
        }
        assert forall|bit: u32| bit < 32 implies #[trigger] feature(high, bit) == (bit == 0 || (bit
            != 2 && feature(upper, bit))) by {
            assert((((upper | 1) & !(1u32 << 2)) & (1u32 << bit) != 0) == (bit == 0 || (bit != 2
                && upper & (1u32 << bit) != 0))) by (bit_vector)
                requires
                    bit < 32,
            ;
        }
    }
    (low, high)
}

/// The memory of a queue of a given size: that of its descriptors, of the ring
/// of what is offered, and of the ring of what is done. Where a block cannot
/// be had, the ones before it have been taken all the same.
pub open spec fn queue_blocks(lists: FreeLists, q_size: u16) -> (
    Option<(u64, u64, u64)>,
    FreeLists,
) {
    match block_for(lists, order_of(q_size * 16)) {
        None => (None, lists),
        Some((desc, lists)) => match block_for(lists, order_of(6 + q_size * 2)) {
            None => (None, lists),
            Some((available, lists)) => match block_for(lists, order_of(6 + q_size * 8)) {
                None => (None, lists),
                Some((used, lists)) => (Some((desc, available, used)), lists),
            },
        },
    }
}

/// The descriptors of a new queue: all are free, each leads to the next.
pub open spec fn fresh_descriptors(q_size: u16) -> Seq<VqDescriptor> {
    Seq::new(
        q_size as nat,
        |i: int|
            if i + 1 < q_size {
                VqDescriptor { addr: 0, len: 0, flags: 1, next: (i + 1) as u16 }
            } else {
                VqDescriptor { addr: 0, len: 0, flags: 0, next: NO_DESCRIPTOR }
            },
    )
}

/// A queue as it is set up.
pub open spec fn is_fresh(vq: Virtqueue, q_size: u16, queue_notify_off: u16) -> bool {
    &&& vq.wf()
    &&& vq.queue_size == q_size
    &&& vq.queue_notify_off == queue_notify_off
    &&& vq.last_seen_used == 0
    &&& vq.desc@ == fresh_descriptors(q_size)
    &&& vq.free_list() == Seq::new(q_size as nat, |i: int| i as u16)
    &&& vq.available.idx == 0
    &&& vq.available.used_event == 0
    &&& vq.available.ring@ == Seq::new(q_size as nat, |i: int| 0u16)
    &&& vq.requests@ == Seq::new(q_size as nat, |i: int| None::<BlockRequest>)
    &&& vq.desc_order == order_of(q_size * 16)
    &&& vq.av_order == order_of(6 + q_size * 2)
    &&& vq.used_order == order_of(6 + q_size * 8)
}

/// The memory of a queue is out, so that each of its blocks can be given back.
pub open spec fn memory_out(vq: Virtqueue, alloc: PCAllocator) -> bool {
    &&& alloc.is_out(vq.desc_phys, vq.desc_order as int)
    &&& alloc.is_out(vq.av_phys, vq.av_order as int)
    &&& alloc.is_out(vq.used_phys, vq.used_order as int)
    &&& crate::memory::pmm::apart(vq.desc_phys, vq.desc_order as int, vq.av_phys, vq.av_order as int)
    &&& crate::memory::pmm::apart(vq.desc_phys, vq.desc_order as int, vq.used_phys, vq.used_order as int)
    &&& crate::memory::pmm::apart(vq.av_phys, vq.av_order as int, vq.used_phys, vq.used_order as int)
    &&& vq.desc_order <= 11 && vq.av_order <= 11 && vq.used_order <= 11
}

impl Virtqueue {
    /// A queue of which everything is free.
    fn fresh(
        q_size: u16,
        queue_notify_off: u16,
        desc_phys: u64,
        av_phys: u64,
        used_phys: u64,
        desc_order: usize,
        av_order: usize,
        used_order: usize,
    ) -> (r: Self)
        requires
            q_size > 0,
            desc_order == order_of(q_size * 16),
            av_order == order_of(6 + q_size * 2),
            used_order == order_of(6 + q_size * 8),
        ensures
            is_fresh(r, q_size, queue_notify_off),
            r.desc_phys == desc_phys,
            r.av_phys == av_phys,
            r.used_phys == used_phys,
    {
        let mut desc: Vec<VqDescriptor> = Vec::new();
        let mut ring: Vec<u16> = Vec::new();
        let mut requests: Vec<Option<BlockRequest>> = Vec::new();
        let mut i: u16 = 0;
        while i < q_size
            invariant
                i <= q_size,
                desc@ =~= fresh_descriptors(q_size).take(i as int),
                ring@ =~= Seq::new(i as nat, |k: int| 0u16),
                requests@ =~= Seq::new(i as nat, |k: int| None::<BlockRequest>),
            decreases q_size - i,
        {
            if i < q_size - 1 {
                desc.push(VqDescriptor { addr: 0, len: 0, flags: 1, next: i + 1 });
            } else {
                desc.push(VqDescriptor { addr: 0, len: 0, flags: 0, next: NO_DESCRIPTOR });
            }
            ring.push(0);
            requests.push(None);
            i += 1;
        }
        let ghost list = Seq::new(q_size as nat, |k: int| k as u16);
        let vq = Virtqueue {
            desc,
            available: VqAvailableRing { idx: 0, ring, used_event: 0 },
            desc_phys,
            av_phys,
            used_phys,
            desc_order,
            av_order,
            used_order,
            queue_size: q_size,
            free_head: 0,
            last_seen_used: 0,
            queue_notify_off,
            requests,
            free: Ghost(list),
        };
        proof {
            assert(vq.desc@ =~= fresh_descriptors(q_size));
            assert forall|k: int| 0 <= k < list.len() implies #[trigger] links(
                vq.desc@,
                list,
                k,
            ) by {}
            assert forall|k: int| 0 <= k < q_size implies #[trigger] kept(
                vq.requests@,
                list,
                k,
            ) by {}
        }
        vq
    }
}

/// Sets a queue up in memory of its own. There is none of size zero.
pub fn vq_setup(q_size: u16, queue_notify_off: u16, alloc: &mut PCAllocator) -> (r: Option<
    Virtqueue,
>)
    requires
        old(alloc).wf(),
    ensures
        final(alloc).wf(),
        final(alloc).own() == old(alloc).own(),
        final(alloc).memory() == old(alloc).memory(),
        if q_size == 0 {
            r is None && *final(alloc) == *old(alloc)
        } else {
            let (blocks, lists) = queue_blocks(old(alloc).shared()@, q_size);
            &&& final(alloc).shared()@ == lists
            &&& match blocks {
                None => r is None,
                Some((desc, available, used)) => {
                    &&& r is Some
                    &&& is_fresh(r->0, q_size, queue_notify_off)
                    &&& r->0.desc_phys == desc
                    &&& r->0.av_phys == available
                    &&& r->0.used_phys == used
                    &&& memory_out(r->0, *final(alloc))
                },
            }
        },
        forall|b: u64, o: int|
            0 <= o <= 11 && old(alloc).is_out(b, o) ==> #[trigger] final(alloc).is_out(b, o),
{
    if q_size == 0 {
        return None;
    }
    let desc_order = calculate_order(q_size as u64 * 16);
    let av_order = calculate_order(6 + q_size as u64 * 2);
    let used_order = calculate_order(6 + q_size as u64 * 8);
    proof {
        lemma2_to64();
        if desc_order > 11 {
            assert(4096 * pow2(8) < q_size * 16);
        }
        if av_order > 11 {
            assert(4096 * pow2(8) < 6 + q_size * 2);
        }
        if used_order > 11 {
            assert(4096 * pow2(8) < 6 + q_size * 8);
        }
    }
    let desc_phys = match alloc.alloc_order(desc_order) {
        Some(phys) => phys,
        None => {
            return None;
        },
    };
    assert(alloc.is_out(desc_phys, desc_order as int));
    let av_phys = match alloc.alloc_order(av_order) {
        Some(phys) => phys,
        None => {
            return None;
        },
    };
    proof {
        assert(alloc.is_out(desc_phys, desc_order as int));
        assert(alloc.is_out(av_phys, av_order as int));
    }
    let used_phys = match alloc.alloc_order(used_order) {
        Some(phys) => phys,
        None => {
            return None;
        },
    };
    proof {
        assert(alloc.is_out(desc_phys, desc_order as int));
        assert(alloc.is_out(av_phys, av_order as int));
        assert(alloc.is_out(used_phys, used_order as int));
    }
    Some(
        Virtqueue::fresh(
            q_size,
            queue_notify_off,
            desc_phys,
            av_phys,
            used_phys,
            desc_order,
            av_order,
            used_order,
        ),
    )
}

impl Virtqueue {
    /// The blocks of memory that a queue gives back when it is no longer
    /// needed, each with its order.
    pub fn blocks(&self) -> (r: [(u64, usize); 3])
        ensures
            r@ == seq![
                (self.desc_phys, self.desc_order),
                (self.av_phys, self.av_order),
                (self.used_phys, self.used_order),
            ],
    {
        let blocks = [
            (self.desc_phys, self.desc_order),
            (self.av_phys, self.av_order),
            (self.used_phys, self.used_order),
        ];
        assert(blocks@ =~= seq![
            (self.desc_phys, self.desc_order),
            (self.av_phys, self.av_order),
            (self.used_phys, self.used_order),
        ]);
        blocks
    }
}

/// Offers a chain to the device. The reply is the number of chains that have
/// been offered, which is told to the device last.
fn publish_available(vq: &mut Virtqueue, head: u16)
    requires
        old(vq).wf(),
    ensures
        final(vq).wf(),
        final(vq).desc == old(vq).desc,
        final(vq).requests == old(vq).requests,
        final(vq).free_head == old(vq).free_head,
        final(vq).free_list() == old(vq).free_list(),
        final(vq).queue_size == old(vq).queue_size,
        final(vq).queue_notify_off == old(vq).queue_notify_off,
        final(vq).last_seen_used == old(vq).last_seen_used,
        final(vq).available.ring@ == old(vq).available.ring@.update(
            old(vq).available.idx as int % old(vq).queue_size as int,
            head,
        ),
        final(vq).available.used_event == old(vq).last_seen_used,
        final(vq).available.idx == (old(vq).available.idx + 1) % 0x1_0000,
{
    let idx = vq.available.idx;
    let slot = (idx % vq.queue_size) as usize;
    vq.available.ring.set(slot, head);
    vq.available.used_event = vq.last_seen_used;
    vq.available.idx = idx.wrapping_add(1);
}

pub const VIRTIO_BLK_T_IN: u32 = 0;

pub const VIRTIO_BLK_T_OUT: u32 = 1;

pub const VIRTIO_BLK_T_FLUSH: u32 = 4;

/// What a request starts with.
#[derive(Debug, Clone, Copy, PartialEq, Eq, Structural)]
pub struct VirtioBlkReqHeader {
    pub req_type: u32,
    pub reserved: u32,
    pub sector: u64,
}

/// The bytes of a request's header.
pub open spec fn header_bytes(header: VirtioBlkReqHeader) -> Seq<u8> {
    bytes32(header.req_type) + bytes32(header.reserved) + bytes64(header.sector)
}

/// Where in the page of a request the device writes its status.
pub const STATUS_OFFSET: u64 = 512;

/// The page of a request: its header, and a status that the device has not
/// written yet.
pub open spec fn page_of(header: VirtioBlkReqHeader) -> Seq<u8> {
    patched(patched(zeroes(4096), 0, header_bytes(header)), STATUS_OFFSET as int, seq![0xFFu8])
}

pub open spec fn header_for(sector: u64, is_write: bool) -> VirtioBlkReqHeader {
    VirtioBlkReqHeader {
        req_type: if is_write {
            VIRTIO_BLK_T_OUT
        } else {
            VIRTIO_BLK_T_IN
        },
        reserved: 0,
        sector,
    }
}

/// The page of a request for sectors from `sector` on.
pub fn request_page(sector: u64, is_write: bool) -> (r: Vec<u8>)
    ensures
        r@ == page_of(header_for(sector, is_write)),
{
    let mut page = zero_bytes(4096);
    let req_type = if is_write {
        VIRTIO_BLK_T_OUT
    } else {
        VIRTIO_BLK_T_IN
    };
    put32(&mut page, 0, req_type);
    put32(&mut page, 4, 0);
    put32(&mut page, 8, (sector % 0x1_0000_0000) as u32);
    put32(&mut page, 12, (sector / 0x1_0000_0000) as u32);
    assert(page@ =~= patched(zeroes(4096), 0, header_bytes(header_for(sector, is_write))));
    page[512] = 0xFF;
    assert(page@ =~= page_of(header_for(sector, is_write)));
    page
}

/// The three descriptors of a request: the device reads the header, reads or
/// writes the data, and writes the status.
pub open spec fn chained(
    desc: Seq<VqDescriptor>,
    q: BlockRequest,
    sectors_count: u32,
    is_write: bool,
) -> Seq<VqDescriptor> {
    desc.update(
        q.d0 as int,
        VqDescriptor { addr: q.page_phys, len: 16, flags: 1, next: q.d1 },
    ).update(
        q.d1 as int,
        VqDescriptor {
            addr: q.dma_phys,
            len: (sectors_count * 512) as u32,
            flags: if is_write {
                1
            } else {
                3
            },
            next: q.d2,
        },
    ).update(
        q.d2 as int,
        VqDescriptor {
            addr: (q.page_phys + STATUS_OFFSET) as u64,
            len: 1,
            flags: 2,
            next: NO_DESCRIPTOR,
        },
    )
}

proof fn lemma_other_links(desc: Seq<VqDescriptor>, more: Seq<VqDescriptor>, head: u16, list: Seq<u16>)
    requires
        spelled(desc, head, list),
        more.len() == desc.len(),
        forall|d: u16| #[trigger] list.contains(d) ==> more[d as int] == desc[d as int],
    ensures
        spelled(more, head, list),
{
    assert forall|i: int| 0 <= i < list.len() implies #[trigger] links(more, list, i) by {
        assert(links(desc, list, i));
        assert(list.contains(list[i]));
    }
}

/// Offers a request for `sectors_count` sectors to the device. `page_phys` is
/// the page that holds its header, `dma_phys` the memory that the data goes
/// through. Where there are not enough free descriptors, the page is given
/// back and the queue is as it was. The reply is the request, and the bytes
/// behind the notification address of the device that it is told at.
pub fn offer_request<A: FrameAllocator>(
    vq: &mut Virtqueue,
    sectors_count: u32,
    is_write: bool,
    page_phys: u64,
    dma_phys: u64,
    notify_off_multiplier: u32,
    alloc: &mut A,
) -> (r: Result<(BlockRequest, u64), ()>)
    requires
        old(vq).wf(),
        old(alloc).ready(),
        old(alloc).accepts(page_phys),
        sectors_count <= 0x7F_FFFF,
        page_phys + STATUS_OFFSET <= u64::MAX,
    ensures
        final(vq).wf(),
        final(alloc).ready(),
        final(vq).queue_size == old(vq).queue_size,
        final(vq).queue_notify_off == old(vq).queue_notify_off,
        final(vq).last_seen_used == old(vq).last_seen_used,
        ({
            let free = old(vq).free_list();
            if free.len() < 3 {
                &&& r is Err
                &&& final(vq).free_list() == free
                &&& final(vq).free_head == old(vq).free_head
                &&& final(vq).same_but_descriptors(*old(vq))
                &&& final(vq).desc@ == old(vq).desc@
                &&& old(alloc).returned(final(alloc), page_phys)
                &&& final(alloc).available() == old(alloc).available().insert(page_phys)
                &&& final(alloc).capacity() == old(alloc).capacity() + 1
            } else {
                let q = BlockRequest {
                    d0: free[0],
                    d1: free[1],
                    d2: free[2],
                    page_phys,
                    dma_phys,
                    dma_len: (sectors_count * 512) as u64,
                };
                &&& r == Ok::<(BlockRequest, u64), ()>(
                    (q, (old(vq).queue_notify_off * notify_off_multiplier) as u64),
                )
                &&& final(vq).free_list() == free.skip(3)
                &&& final(vq).requests@ == old(vq).requests@.update(q.d0 as int, Some(q))
                &&& final(vq).desc@ == chained(old(vq).desc@, q, sectors_count, is_write)
                &&& final(vq).available.ring@ == old(vq).available.ring@.update(
                    old(vq).available.idx as int % old(vq).queue_size as int,
                    q.d0,
                )
                &&& final(vq).available.idx == (old(vq).available.idx + 1) % 0x1_0000
                &&& final(vq).available.used_event == old(vq).last_seen_used
                &&& *final(alloc) == *old(alloc)
            }
        }),
{
    let (d0, d1, d2) = match alloc_request_descs(vq, page_phys, alloc) {
        Ok(descs) => descs,
        Err(_) => {
            return Err(());
        },
    };
    let ghost taken = *vq;
    let request = BlockRequest::new(d0, d1, d2, page_phys, dma_phys, sectors_count as u64 * 512);
    let flags: u16 = if is_write {
        1
    } else {
        3
    };
    vq.desc.set(d0 as usize, VqDescriptor { addr: page_phys, len: 16, flags: 1, next: d1 });
    vq.desc.set(
        d1 as usize,
        VqDescriptor { addr: dma_phys, len: sectors_count * 512, flags, next: d2 },
    );
    vq.desc.set(
        d2 as usize,
        VqDescriptor {
            addr: page_phys + STATUS_OFFSET,
            len: 1,
            flags: 2,
            next: NO_DESCRIPTOR,
        },
    );
    proof {
        let list = vq.free_list();
        assert forall|d: u16| #[trigger] list.contains(d) implies vq.desc@[d as int]
            == taken.desc@[d as int] by {
            let i = choose|i: int| 0 <= i < list.len() && list[i] == d;
            assert(links(taken.desc@, list, i));
        }
        lemma_other_links(taken.desc@, vq.desc@, vq.free_head, list);
        assert(vq.requests@[d0 as int] is None) by {
            if vq.requests@[d0 as int] is Some {
                assert(apart(vq.requests@[d0 as int], request));
                assert(kept(vq.requests@, vq.free_list(), d0 as int));
            }
        }
        assert forall|j: int| #![trigger vq.requests@[j]] 0 <= j
            < vq.requests@.len() implies apart(vq.requests@[j], request) by {
            assert(apart(
                taken.requests@[j],
                BlockRequest { d0, d1, d2, page_phys, dma_phys: 0, dma_len: 0 },
            ));
        }
        assert(owned(vq.requests@, vq.free_list(), request, -1));
        assert forall|i: int| 0 <= i < vq.queue_size implies #[trigger] kept(
            vq.requests@,
            vq.free_list(),
            i,
        ) by {
            assert(kept(taken.requests@, taken.free_list(), i));
        }
    }
    store_request(vq, request);
    publish_available(vq, d0);
    assert(vq.queue_notify_off * notify_off_multiplier <= 0xFFFF * 0xFFFF_FFFF) by (nonlinear_arith)
        requires
            vq.queue_notify_off <= 0xFFFF,
            notify_off_multiplier <= 0xFFFF_FFFF,
    ;
    Ok((request, vq.queue_notify_off as u64 * notify_off_multiplier as u64))
}

/// Starts a transfer of `sectors_count` sectors from `sector` on, to or from
/// the memory at `buf_phys`. A page is taken for the request's header and its
/// status, and the request is offered to the device with `dma_phys` as the
/// memory that the data goes through. It fails where there is no page left, and
/// where there are not enough free descriptors: the queue is then as it was and
/// the page has been given back.
pub fn transfer_sectors<A: FrameAllocator>(
    vq: &mut Virtqueue,
    sector: u64,
    sectors_count: u32,
    buf_phys: u64,
    is_write: bool,
    dma_phys: u64,
    notify_off_multiplier: u32,
    alloc: &mut A,
    memory: &mut PhysMemory,
) -> (r: Result<(BlockTransferFuture, u64), ()>)
    requires
        old(vq).wf(),
        old(alloc).ready(),
        old(alloc).available().subset_of(old(memory)@.dom()),
        sectors_count <= 0x7F_FFFF,
    ensures
        final(vq).wf(),
        final(alloc).ready(),
        others_same(old(memory)@, final(memory)@, old(alloc).available()),
        r is Ok <==> old(alloc).capacity() > 0 && old(vq).free_list().len() >= 3,
        match r {
            Err(_) => {
                &&& final(vq).free_list() == old(vq).free_list()
                &&& final(vq).free_head == old(vq).free_head
                &&& final(vq).same_but_descriptors(*old(vq))
                &&& final(vq).desc@ == old(vq).desc@
                &&& final(alloc).available() == old(alloc).available()
                &&& final(alloc).capacity() == old(alloc).capacity()
            },
            Ok((future, doorbell)) => {
                let free = old(vq).free_list();
                let q = future.request;
                &&& old(alloc).available().contains(q.page_phys)
                &&& final(alloc).available() == old(alloc).available().remove(q.page_phys)
                &&& final(alloc).capacity() + 1 == old(alloc).capacity()
                &&& final(alloc).accepts(q.page_phys)
                &&& page_bytes(final(memory)@[q.page_phys]) == page_of(header_for(sector, is_write))
                &&& final(memory)@ == old(memory)@.insert(
                    q.page_phys,
                    final(memory)@[q.page_phys],
                )
                &&& q == BlockRequest {
                    d0: free[0],
                    d1: free[1],
                    d2: free[2],
                    page_phys: q.page_phys,
                    dma_phys,
                    dma_len: (sectors_count * 512) as u64,
                }
                &&& future.completion == if is_write {
                    None
                } else {
                    Some(BlockCompletion::CopyToPhys { dst_phys: buf_phys })
                }
                &&& doorbell == old(vq).queue_notify_off * notify_off_multiplier
                &&& final(vq).free_list() == free.skip(3)
                &&& final(vq).requests@ == old(vq).requests@.update(q.d0 as int, Some(q))
                &&& final(vq).desc@ == chained(old(vq).desc@, q, sectors_count, is_write)
                &&& final(vq).available.ring@ == old(vq).available.ring@.update(
                    old(vq).available.idx as int % old(vq).queue_size as int,
                    q.d0,
                )
                &&& final(vq).available.idx == (old(vq).available.idx + 1) % 0x1_0000
                &&& final(vq).available.used_event == old(vq).last_seen_used
                &&& final(vq).queue_size == old(vq).queue_size
                &&& final(vq).queue_notify_off == old(vq).queue_notify_off
                &&& final(vq).last_seen_used == old(vq).last_seen_used
            },
        },
{
    let page_phys = match alloc.allocate_frame() {
        Some(page) => page,
        None => {
            return Err(());
        },
    };
    proof {
        memory.lemma_has();
        assert(memory@.contains_key(page_phys) && memory@[page_phys].len() == 512);
        assert(page_phys as int % 4096 == 0);
        law_page_reads_back(page_of(header_for(sector, is_write)));
        assert(0 <= vq.queue_notify_off * notify_off_multiplier <= 0xFFFF * 0xFFFF_FFFF)
            by (nonlinear_arith)
            requires
                0 <= vq.queue_notify_off <= 0xFFFF,
                0 <= notify_off_multiplier <= 0xFFFF_FFFF,
        ;
    }
    write_frame(memory, page_phys, &request_page(sector, is_write));
    assert(memory@.dom() =~= old(memory)@.dom());
    match offer_request(
        vq,
        sectors_count,
        is_write,
        page_phys,
        dma_phys,
        notify_off_multiplier,
        alloc,
    ) {
        Ok((request, doorbell)) => Ok(
            (BlockTransferFuture::new(request, is_write, buf_phys), doorbell),
        ),
        Err(_) => {
            assert(alloc.available() =~= old(alloc).available());
            Err(())
        },
    }
}

/// What is left to do once a transfer is done.
#[derive(Debug, Clone, Copy, PartialEq, Eq, Structural)]
pub enum BlockCompletion {
    CopyToPhys { dst_phys: u64 },
}

/// A transfer that someone waits for.
#[derive(Debug, Clone, Copy, PartialEq, Eq, Structural)]
pub struct BlockTransferFuture {
    pub request: BlockRequest,
    pub completion: Option<BlockCompletion>,
}

impl BlockTransferFuture {
    /// The transfer of a request. What is read comes into memory of the
    /// driver's own first, and is copied to where it belongs in the end.
    pub fn new(request: BlockRequest, is_write: bool, buf_phys: u64) -> (r: Self)
        ensures
            r.request == request,
            r.completion == if is_write {
                None
            } else {
                Some(BlockCompletion::CopyToPhys { dst_phys: buf_phys })
            },
    {
        BlockTransferFuture {
            request,
            completion: if is_write {
                None
            } else {
                Some(BlockCompletion::CopyToPhys { dst_phys: buf_phys })
            },
        }
    }

    /// Asks whether the transfer is done. What is then left to do is told
    /// once.
    pub fn poll(&mut self, state: &mut RequestState, seen: u8, waker: u64) -> (r: (
        RequestPoll,
        Option<BlockCompletion>,
    ))
        requires
            old(state).wf(),
            seen <= RESULT_ERROR,
        ensures
            final(state).wf(),
            final(self).request == old(self).request,
            r.0 == if seen != RESULT_PENDING {
                poll_of(seen)
            } else {
                poll_of(old(state).result)
            },
            *final(state) == if seen != RESULT_PENDING {
                *old(state)
            } else {
                RequestState { waker: Some(waker), ..*old(state) }
            },
            if r.0 is Done {
                r.1 == old(self).completion && final(self).completion is None
            } else {
                r.1 is None && final(self).completion == old(self).completion
            },
    {
        let answer = poll_block_request(state, seen, waker);
        match answer {
            RequestPoll::Done => {
                let left = self.completion;
                self.completion = None;
                (answer, left)
            },
            _ => (answer, None),
        }
    }
}

/// Who is woken by an interrupt of the device.
#[derive(Debug, Clone, Copy, PartialEq, Eq, Structural)]
pub struct IrqWake {
    pub thread: Option<u64>,
    pub mark_awoken: bool,
}

/// The worker of the queue is woken, or the executor where there is no worker
/// yet.
pub fn virtio_blk_irq_handler(worker: Option<u64>, executor: Option<u64>) -> (r: IrqWake)
    ensures
        r == match worker {
            Some(worker) => IrqWake { thread: Some(worker), mark_awoken: true },
            None => IrqWake { thread: executor, mark_awoken: false },
        },
{
    match worker {
        Some(worker) => IrqWake { thread: Some(worker), mark_awoken: true },
        None => IrqWake { thread: executor, mark_awoken: false },
    }
}

/// The requests that are taken from a queue for the chains from number `seen`
/// on that the device is done with, and what is left of the requests.
pub open spec fn finished(
    requests: Requests,
    ring: Seq<VqUsedElem>,
    seen: u16,
    used: u16,
    left: int,
) -> (Seq<BlockRequest>, Requests)
    decreases left,
{
    if left <= 0 || seen == used {
        (Seq::empty(), requests)
    } else {
        let id = ring[seen as int % ring.len() as int].id;
        let next = ((seen + 1) % 0x1_0000) as u16;
        if id < requests.len() && requests[id as int] is Some {
            let (more, rest) = finished(requests.update(id as int, None), ring, next, used, left - 1);
            (seq![requests[id as int]->0] + more, rest)
        } else {
            finished(requests, ring, next, used, left - 1)
        }
    }
}

/// Requests are kept under their first descriptors.
pub open spec fn keyed(requests: Requests) -> bool {
    forall|i: int| #![trigger requests[i]]
        0 <= i < requests.len() ==> (requests[i] matches Some(q) ==> q.d0 == i)
}

/// A request was in the queue and no longer is.
pub open spec fn has_left(before: Requests, after: Requests, q: BlockRequest) -> bool {
    &&& q.d0 < before.len()
    &&& before[q.d0 as int] == Some(q)
    &&& after[q.d0 as int] is None
}

/// Whatever the device says it is done with, each request that is taken out of
/// a queue was in it, is taken once, and no longer is in it; the others stay.
pub proof fn law_finished_requests_leave_once(
    requests: Requests,
    ring: Seq<VqUsedElem>,
    seen: u16,
    used: u16,
    left: int,
)
    requires
        keyed(requests),
    ensures
        ({
            let (out, rest) = finished(requests, ring, seen, used, left);
            &&& out.no_duplicates()
            &&& forall|k: int|
                0 <= k < out.len() ==> has_left(requests, rest, #[trigger] out[k])
            &&& rest.len() == requests.len()
            &&& forall|i: int|
                0 <= i < rest.len() ==> (#[trigger] rest[i]) == requests[i] || (rest[i] is None
                    && out.contains(requests[i]->0))
        }),
    decreases left,
{
    let (out, rest) = finished(requests, ring, seen, used, left);
    if left > 0 && seen != used {
        let id = ring[seen as int % ring.len() as int].id;
        let next = ((seen + 1) % 0x1_0000) as u16;
        if id < requests.len() && requests[id as int] is Some {
            let q = requests[id as int]->0;
            let fewer = requests.update(id as int, None);
            let (more, _) = finished(fewer, ring, next, used, left - 1);
            assert(keyed(fewer)) by {
                assert forall|i: int| #![trigger fewer[i]] 0 <= i < fewer.len() implies (
                fewer[i] matches Some(q) ==> q.d0 == i) by {
                    if i != id {
                        assert(fewer[i] == requests[i]);
                    }
                }
            }
            law_finished_requests_leave_once(fewer, ring, next, used, left - 1);
            assert(rest[id as int] == fewer[id as int] || rest[id as int] is None);
            assert forall|k: int| 0 <= k < out.len() implies has_left(
                requests,
                rest,
                #[trigger] out[k],
            ) by {
                if k > 0 {
                    assert(out[k] == more[k - 1]);
                    assert(has_left(fewer, rest, more[k - 1]));
                } else {
                    assert(out[k] == q);
                }
            }
            assert forall|i: int, j: int| 0 <= i < j < out.len() implies out[i] != out[j] by {
                assert(out[j] == more[j - 1]);
                assert(has_left(fewer, rest, more[j - 1]));
                if i > 0 {
                    assert(out[i] == more[i - 1]);
                }
            }
            assert forall|i: int| 0 <= i < rest.len() implies (#[trigger] rest[i]) == requests[i]
                || (rest[i] is None && out.contains(requests[i]->0)) by {
                if i == id {
                    assert(out[0] == q);
                } else {
                    assert(fewer[i] == requests[i]);
                    if rest[i] != fewer[i] {
                        let k = choose|k: int| 0 <= k < more.len() && more[k] == requests[i]->0;
                        assert(out[k + 1] == more[k]);
                    }
                }
            }
        } else {
            law_finished_requests_leave_once(requests, ring, next, used, left - 1);
        }
    }
}

/// How many chains the device is done with that have not been looked at.
pub open spec fn unseen(seen: u16, used: u16) -> int {
    (used - seen) % 0x1_0000
}

/// Takes the requests that the device is done with out of a queue, each of
/// them once. `used` is what the device has written of them.
pub fn take_finished(vq: &mut Virtqueue, used: &VqUsedRing) -> (r: Vec<BlockRequest>)
    requires
        old(vq).wf(),
        used.ring@.len() == old(vq).queue_size,
    ensures
        final(vq).wf(),
        final(vq).last_seen_used == used.idx,
        final(vq).desc == old(vq).desc,
        final(vq).free_list() == old(vq).free_list(),
        final(vq).available == old(vq).available,
        final(vq).queue_size == old(vq).queue_size,
        (r@, final(vq).requests@) == finished(
            old(vq).requests@,
            used.ring@,
            old(vq).last_seen_used,
            used.idx,
            unseen(old(vq).last_seen_used, used.idx),
        ),
{
    let mut out: Vec<BlockRequest> = Vec::new();
    let mut last_seen = vq.last_seen_used;
    let ghost all = finished(
        vq.requests@,
        used.ring@,
        last_seen,
        used.idx,
        unseen(last_seen, used.idx),
    );
    assert(out@ + all.0 =~= all.0);
    while last_seen != used.idx
        invariant
            vq.wf(),
            used.ring@.len() == vq.queue_size,
            vq.desc == old(vq).desc,
            vq.free_list() == old(vq).free_list(),
            vq.available == old(vq).available,
            vq.queue_size == old(vq).queue_size,
            ({
                let (more, rest) = finished(
                    vq.requests@,
                    used.ring@,
                    last_seen,
                    used.idx,
                    unseen(last_seen, used.idx),
                );
                all.0 == out@ + more && all.1 == rest
            }),
        decreases unseen(last_seen, used.idx),
    {
        let ghost before = out@;
        let ghost was = vq.requests@;
        let slot = (last_seen % vq.queue_size) as usize;
        let desc_id = used.ring[slot].id as usize;
        let ghost next = ((last_seen + 1) % 0x1_0000) as u16;
        let ghost left = unseen(last_seen, used.idx);
        assert(unseen(next, used.idx) == left - 1);
        match take_request(vq, desc_id) {
            Some(request) => {
                let ghost more = finished(vq.requests@, used.ring@, next, used.idx, left - 1).0;
                out.push(request);
                assert(before + (seq![request] + more) =~= out@ + more);
            },
            None => {
                assert(vq.requests@ =~= was);
            },
        }
        last_seen = last_seen.wrapping_add(1);
    }
    assert(out@ + Seq::<BlockRequest>::empty() =~= out@);
    vq.last_seen_used = last_seen;
    assert forall|i: int| 0 <= i < vq.queue_size implies #[trigger] kept(
        vq.requests@,
        vq.free_list(),
        i,
    ) by {}
    out
}

/// What the worker of a queue does when there is nothing left to complete.
#[derive(Debug, Clone, Copy, PartialEq, Eq, Structural)]
pub enum WorkerWait {
    /// Looks again at once.
    Retry,
    /// Waits to be woken.
    Block,
    /// Sleeps for the given number of nanoseconds.
    Sleep(u64),
}

/// A worker without interrupts sleeps for a while. One with interrupts waits
/// to be woken, unless something was completed or it was woken in the
/// meantime.
pub fn virtio_blk_worker_thread(has_interrupts: bool, used_idx: u16, last_seen: u16, awoken: bool) -> (r:
    WorkerWait)
    ensures
        r == if !has_interrupts {
            WorkerWait::Sleep(1_000_000)
        } else if used_idx != last_seen || awoken {
            WorkerWait::Retry
        } else {
            WorkerWait::Block
        },
{
    if !has_interrupts {
        return WorkerWait::Sleep(1_000_000);
    }
    if used_idx != last_seen || awoken {
        WorkerWait::Retry
    } else {
        WorkerWait::Block
    }
}

/// A write to the registers of the device that queues are chosen and switched
/// on by.
#[derive(Debug, Clone, Copy, PartialEq, Eq, Structural)]
pub enum QueueWrite {
    Select(u16),
    MsixVector(u16),
    Enable,
    ConfigVector(u16),
}

/// What is written for queue `i`: where its interrupt could be registered, it
/// is told its vector before it is switched on.
pub open spec fn writes_for(i: u16, registered: bool) -> Seq<QueueWrite> {
    if registered {
        seq![QueueWrite::Select(i), QueueWrite::MsixVector(i), QueueWrite::Enable]
    } else {
        seq![QueueWrite::Select(i), QueueWrite::Enable]
    }
}

pub open spec fn all_writes(registered: Seq<bool>, n: int) -> Seq<QueueWrite>
    decreases n,
{
    if n <= 0 {
        Seq::empty()
    } else {
        all_writes(registered, n - 1) + writes_for((n - 1) as u16, registered[n - 1])
    }
}

/// Sets the interrupts of a device up. `vectors` tells whether it can have
/// any, `allocated` whether there were enough for its queues, and `registered`
/// for which of the queues they could be registered. A device without
/// interrupts is switched on all the same.
pub fn setup_interrupts(vectors: bool, allocated: bool, registered: &Vec<bool>) -> (r: (
    Vec<QueueWrite>,
    Result<(), ()>,
))
    requires
        registered@.len() <= 0xFFFF,
    ensures
        if !vectors || !allocated {
            r.0@ == seq![QueueWrite::Enable] && r.1 is Err
        } else {
            r.0@ == all_writes(registered@, registered@.len() as int).push(
                QueueWrite::ConfigVector(0),
            ) && r.1 is Ok
        },
{
    let mut writes: Vec<QueueWrite> = Vec::new();
    if !vectors || !allocated {
        writes.push(QueueWrite::Enable);
        assert(writes@ =~= seq![QueueWrite::Enable]);
        return (writes, Err(()));
    }
    let mut i: usize = 0;
    while i < registered.len()
        invariant
            i <= registered@.len() <= 0xFFFF,
            writes@ == all_writes(registered@, i as int),
        decreases registered@.len() - i,
    {
        let ghost before = writes@;
        writes.push(QueueWrite::Select(i as u16));
        if registered[i] {
            writes.push(QueueWrite::MsixVector(i as u16));
        }
        writes.push(QueueWrite::Enable);
        assert(writes@ =~= before + writes_for(i as u16, registered@[i as int]));
        i += 1;
    }
    writes.push(QueueWrite::ConfigVector(0));
    (writes, Ok(()))
}

/// A queue, the thread that completes its requests, and whether the device
/// interrupts for it.
pub struct VirtqueueState {
    pub vq: Virtqueue,
    pub worker_tcb: Option<u64>,
    pub has_interrupts: bool,
    pub awoken: bool,
}

pub struct VirtioBlockDevice {
    pub driver: VirtioBlockDriver,
    pub queues: Vec<VirtqueueState>,
}

/// How many queues a device gets: as many as it has, if it can have several,
/// but not more than there are cores.
pub open spec fn queue_count(dev_feature: u32, num_queues: u16, cores: usize) -> int {
    let has = if feature(dev_feature, 12) {
        num_queues as int
    } else {
        1
    };
    if has < cores {
        has
    } else {
        cores as int
    }
}

pub fn queues_to_set_up(dev_feature: u32, num_queues: u16, cores: usize) -> (r: usize)
    ensures
        r == queue_count(dev_feature, num_queues, cores),
{
    let has = if (dev_feature & (1u32 << 12)) != 0 {
        num_queues as usize
    } else {
        1
    };
    if has < cores {
        has
    } else {
        cores
    }
}

/// The queue that a core uses.
pub fn queue_for(core_id: usize, queues: usize) -> (r: usize)
    requires
        queues > 0,
    ensures
        r == core_id as int % queues as int,
        r < queues,
{
    core_id % queues
}

/// The memory of the first `n` queues has been taken.
pub open spec fn lists_after(lists: FreeLists, sizes: Seq<u16>, n: int) -> Option<FreeLists>
    decreases n,
{
    if n <= 0 {
        Some(lists)
    } else {
        match lists_after(lists, sizes, n - 1) {
            None => None,
            Some(lists) => if sizes[n - 1] == 0 || queue_blocks(lists, sizes[n - 1]).0 is None {
                None
            } else {
                Some(queue_blocks(lists, sizes[n - 1]).1)
            },
        }
    }
}

/// Queue `i` is as it is set up, in the memory that comes next for it.
pub open spec fn is_set_up(
    queue: VirtqueueState,
    lists: FreeLists,
    sizes: Seq<u16>,
    notify: Seq<u16>,
    i: int,
) -> bool {
    let vq = queue.vq;
    &&& is_fresh(vq, sizes[i], notify[i])
    &&& queue_blocks(lists_after(lists, sizes, i)->0, sizes[i]).0 == Some(
        (vq.desc_phys, vq.av_phys, vq.used_phys),
    )
    &&& queue.worker_tcb is None
    &&& !queue.has_interrupts
    &&& !queue.awoken
}

/// The free lists when queue `i` was the first that could not be set up.
pub open spec fn stops_at(lists: FreeLists, after: FreeLists, sizes: Seq<u16>, i: int) -> bool {
    lists_after(lists, sizes, i) matches Some(before) && if sizes[i] == 0 {
        after == before
    } else {
        queue_blocks(before, sizes[i]) == (None::<(u64, u64, u64)>, after)
    }
}

/// Sets a device up. `status` is its status after it was told which features
/// are accepted: unless it agrees, it cannot be used. `sizes` and `notify` hold
/// the size and the notification offset of each queue that it is to have. It
/// fails when one of the queues cannot be set up.
pub fn init_block_device(
    driver: VirtioBlockDriver,
    status: u8,
    sizes: &Vec<u16>,
    notify: &Vec<u16>,
    alloc: &mut PCAllocator,
) -> (r: Option<VirtioBlockDevice>)
    requires
        old(alloc).wf(),
        sizes@.len() == notify@.len(),
    ensures
        final(alloc).wf(),
        final(alloc).own() == old(alloc).own(),
        final(alloc).memory() == old(alloc).memory(),
        if status & STATUS_FEATURES_OK == 0 {
            r is None && *final(alloc) == *old(alloc)
        } else {
            match lists_after(old(alloc).shared()@, sizes@, sizes@.len() as int) {
                None => r is None && exists|i: int|
                    0 <= i < sizes@.len() && #[trigger] stops_at(
                        old(alloc).shared()@,
                        final(alloc).shared()@,
                        sizes@,
                        i,
                    ),
                Some(lists) => {
                    &&& r is Some
                    &&& r->0.driver == driver
                    &&& r->0.queues@.len() == sizes@.len()
                    &&& forall|i: int| #![trigger r->0.queues@[i]]
                        0 <= i < sizes@.len() ==> is_set_up(
                            r->0.queues@[i],
                            old(alloc).shared()@,
                            sizes@,
                            notify@,
                            i,
                        ) && memory_out(r->0.queues@[i].vq, *final(alloc))
                    &&& final(alloc).shared()@ == lists
                },
            }
        },
{
    if (status & STATUS_FEATURES_OK) == 0 {
        return None;
    }
    let mut queues: Vec<VirtqueueState> = Vec::new();
    let mut i: usize = 0;
    while i < sizes.len()
        invariant
            i <= sizes@.len(),
            sizes@.len() == notify@.len(),
            status & STATUS_FEATURES_OK != 0,
            alloc.wf(),
            alloc.own() == old(alloc).own(),
            alloc.memory() == old(alloc).memory(),
            lists_after(old(alloc).shared()@, sizes@, i as int) == Some(alloc.shared()@),
            queues@.len() == i,
            forall|k: int| #![trigger queues@[k]]
                0 <= k < i ==> is_set_up(
                    queues@[k],
                    old(alloc).shared()@,
                    sizes@,
                    notify@,
                    k,
                ) && memory_out(queues@[k].vq, *alloc),
        decreases sizes@.len() - i,
    {
        let vq = match vq_setup(sizes[i], notify[i], alloc) {
            Some(vq) => vq,
            None => {
                proof {
                    lemma_lists_stop(old(alloc).shared()@, sizes@, i + 1, sizes@.len() as int);
                    assert(stops_at(old(alloc).shared()@, alloc.shared()@, sizes@, i as int));
                }
                return None;
            },
        };
        queues.push(
            VirtqueueState { vq, worker_tcb: None, has_interrupts: false, awoken: false },
        );
        i += 1;
    }
    Some(VirtioBlockDevice { driver, queues })
}

proof fn lemma_lists_stop(lists: FreeLists, sizes: Seq<u16>, i: int, n: int)
    requires
        i <= n,
        lists_after(lists, sizes, i) is None,
    ensures
        lists_after(lists, sizes, n) is None,
    decreases n,
{
    if i < n {
        lemma_lists_stop(lists, sizes, i, n - 1);
    }
}

} // verus!
