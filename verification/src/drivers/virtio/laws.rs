//! What a block device is shown of a request, and what becomes of the requests
//! that it is done with.

use crate::common::bytes::{bytes32, bytes64, le32, le64};
use crate::drivers::virtio::blk::{
    chained, finished, header_for, is_fresh, page_of, poll_of, unseen, BlockRequest, RequestPoll,
    Requests, Virtqueue, VqDescriptor, VqUsedElem,
};
use crate::memory::laws::law_order_has_room;
use vstd::arithmetic::power2::pow2;
use vstd::prelude::*;

verus! {

/// The device may write what a descriptor names.
pub open spec fn writable(d: VqDescriptor) -> bool {
    d.flags as int / 2 % 2 == 1
}

/// Another descriptor follows.
pub open spec fn follows(d: VqDescriptor) -> bool {
    d.flags as int % 2 == 1
}

/// From its first descriptor a request leads the device over the header, which
/// it reads, and the data, which it writes when sectors are read and reads when
/// they are written, to the status, which it writes; there the chain ends. The
/// data is as long as the sectors, and the status lies behind the header in one
/// page. No other descriptor has changed.
pub proof fn law_chain_leads_from_header_to_status(
    desc: Seq<VqDescriptor>,
    q: BlockRequest,
    sectors_count: u32,
    is_write: bool,
    other: int,
)
    requires
        q.d0 < desc.len(),
        q.d1 < desc.len(),
        q.d2 < desc.len(),
        q.d0 != q.d1,
        q.d0 != q.d2,
        q.d1 != q.d2,
        sectors_count <= 0x7F_FFFF,
        q.page_phys <= u64::MAX - 4096,
        0 <= other < desc.len(),
    ensures
        ({
            let after = chained(desc, q, sectors_count, is_write);
            let header = after[q.d0 as int];
            let data = after[header.next as int];
            let status = after[data.next as int];
            &&& after.len() == desc.len()
            &&& follows(header) && follows(data) && !follows(status)
            &&& !writable(header)
            &&& writable(data) <==> !is_write
            &&& writable(status)
            &&& header.addr == q.page_phys && header.len == 16
            &&& data.addr == q.dma_phys && data.len == sectors_count * 512
            &&& header.addr + header.len <= status.addr
            &&& status.addr == q.page_phys + 512 && status.len == 1
            &&& header.next == q.d1 && data.next == q.d2
            &&& other != q.d0 && other != q.d1 && other != q.d2 ==> after[other] == desc[other]
        }),
{
}

/// The page of a request starts with its header, the direction, nothing, and
/// the sector, and has a status that no device writes. Requests for different
/// sectors, or in different directions, have different pages.
pub proof fn law_page_tells_the_request(sector: u64, is_write: bool)
    ensures
        ({
            let page = page_of(header_for(sector, is_write));
            &&& page.len() == 4096
            &&& le32(page, 0) == if is_write {
                1u32
            } else {
                0
            }
            &&& le32(page, 4) == 0
            &&& le64(page, 8) == sector
            &&& page[512] == 0xFF
        }),
{
    let page = page_of(header_for(sector, is_write));
    let req_type: u32 = if is_write {
        1
    } else {
        0
    };
    let header = header_for(sector, is_write);
    assert(page.subrange(0, 4) =~= bytes32(header.req_type));
    assert(page.subrange(4, 8) =~= bytes32(header.reserved));
    assert(page.subrange(8, 16) =~= bytes64(header.sector));
}

/// A request that is completed with status zero is done, and with any other it
/// has failed; one that is not completed is pending. The three results differ.
pub proof fn law_results_tell_the_answer()
    ensures
        poll_of(crate::drivers::virtio::blk::RESULT_OK) == RequestPoll::Done,
        poll_of(crate::drivers::virtio::blk::RESULT_ERROR) == RequestPoll::Failed,
        poll_of(crate::drivers::virtio::blk::RESULT_PENDING) == RequestPoll::Pending,
{
}

/// The chain that the device has finished as number `seen + j`.
#[verifier::opaque]
pub open spec fn finished_at(ring: Seq<VqUsedElem>, seen: u16, j: int) -> u32 {
    ring[(seen + j) % 0x1_0000 % ring.len() as int].id
}

/// The chain that the device has finished as number `seen + j` is that of a
/// request.
pub open spec fn was_finished(
    requests: Requests,
    ring: Seq<VqUsedElem>,
    seen: u16,
    j: int,
    q: BlockRequest,
) -> bool {
    let id = finished_at(ring, seen, j) as int;
    id < requests.len() && requests[id] == Some(q)
}

/// One of the `n` chains that the device has finished from number `seen` on is
/// that of a request.
pub open spec fn is_finished(
    requests: Requests,
    ring: Seq<VqUsedElem>,
    seen: u16,
    n: int,
    q: BlockRequest,
) -> bool {
    exists|j: int| 0 <= j < n && #[trigger] was_finished(requests, ring, seen, j, q)
}

/// Every request whose chain the device has finished since it was last looked
/// at is taken, and no other.
pub proof fn law_all_finished_requests_are_taken(
    requests: Requests,
    ring: Seq<VqUsedElem>,
    seen: u16,
    used: u16,
)
    requires
        ring.len() > 0,
    ensures
        ({
            let (out, rest) = finished(requests, ring, seen, used, unseen(seen, used));
            let n = unseen(seen, used);
            &&& 0 <= n < 0x1_0000
            &&& (seen + n) % 0x1_0000 == used
            &&& forall|j: int|
                0 <= j < n && #[trigger] finished_at(ring, seen, j) < requests.len()
                    && requests[finished_at(ring, seen, j) as int] is Some ==> out.contains(
                    requests[finished_at(ring, seen, j) as int]->0,
                ) && rest[finished_at(ring, seen, j) as int] is None
            &&& forall|k: int|
                0 <= k < out.len() ==> is_finished(requests, ring, seen, n, #[trigger] out[k])
        }),
{
    let n = unseen(seen, used);
    assert(n == if used >= seen {
        used - seen
    } else {
        used - seen + 0x1_0000
    });
    assert((seen + n) % 0x1_0000 == used);
    lemma_taken(requests, ring, seen, used, n);
}

proof fn lemma_next_finished(ring: Seq<VqUsedElem>, seen: u16, used: u16)
    requires
        ring.len() > 0,
        seen != used,
    ensures
        ({
            let next = ((seen + 1) % 0x1_0000) as u16;
            &&& finished_at(ring, seen, 0) == ring[seen as int % ring.len() as int].id
            &&& unseen(next, used) == unseen(seen, used) - 1
            &&& unseen(seen, used) > 0
            &&& forall|j: int|
                0 <= j < unseen(seen, used) - 1 ==> #[trigger] finished_at(ring, next, j)
                    == finished_at(ring, seen, j + 1)
        }),
{
    reveal(finished_at);
    let next = ((seen + 1) % 0x1_0000) as u16;
    assert(unseen(seen, used) == if used >= seen {
        used - seen
    } else {
        used - seen + 0x1_0000
    });
    assert forall|j: int| 0 <= j < unseen(seen, used) - 1 implies #[trigger] finished_at(
        ring,
        next,
        j,
    ) == finished_at(ring, seen, j + 1) by {
        assert((next + j) % 0x1_0000 == (seen + j + 1) % 0x1_0000);
    }
}

#[verifier::spinoff_prover]
#[verifier::rlimit(30)]
proof fn lemma_taken(
    requests: Requests,
    ring: Seq<VqUsedElem>,
    seen: u16,
    used: u16,
    left: int,
)
    requires
        ring.len() > 0,
        left == unseen(seen, used),
    ensures
        ({
            let (out, rest) = finished(requests, ring, seen, used, left);
            &&& rest.len() == requests.len()
            &&& forall|i: int|
                0 <= i < requests.len() && requests[i] is None ==> (#[trigger] rest[i]) is None
            &&& forall|j: int|
                0 <= j < left && #[trigger] finished_at(ring, seen, j) < requests.len()
                    && requests[finished_at(ring, seen, j) as int] is Some ==> out.contains(
                    requests[finished_at(ring, seen, j) as int]->0,
                ) && rest[finished_at(ring, seen, j) as int] is None
            &&& forall|k: int|
                0 <= k < out.len() ==> is_finished(requests, ring, seen, left, #[trigger] out[k])
        }),
    decreases left,
{
    let (out, rest) = finished(requests, ring, seen, used, left);
    if left > 0 && seen != used {
        let id = ring[seen as int % ring.len() as int].id as int;
        let next = ((seen + 1) % 0x1_0000) as u16;
        lemma_next_finished(ring, seen, used);
        assert(finished_at(ring, seen, 0) == id);
        let taken = id < requests.len() && requests[id] is Some;
        let fewer = if taken {
            requests.update(id, None)
        } else {
            requests
        };
        lemma_taken(fewer, ring, next, used, left - 1);
        let (more, _) = finished(fewer, ring, next, used, left - 1);
        let first: int = if taken {
            1
        } else {
            0
        };
        if taken {
            assert(out[0] == requests[id]->0);
        }
        assert forall|k: int| 0 <= k < more.len() implies out[k + first] == #[trigger] more[k] by {}
        assert forall|j: int|
            0 <= j < left && #[trigger] finished_at(ring, seen, j) < requests.len()
                && requests[finished_at(ring, seen, j) as int] is Some implies out.contains(
            requests[finished_at(ring, seen, j) as int]->0,
        ) && rest[finished_at(ring, seen, j) as int] is None by {
            let x = finished_at(ring, seen, j) as int;
            if x == id {
                assert(out[0] == requests[x]->0);
                assert(fewer[id] is None);
            } else {
                assert(finished_at(ring, next, j - 1) == x);
                let k = more.index_of(requests[x]->0);
                assert(out[k + first] == requests[x]->0);
            }
        }
        assert forall|k: int| 0 <= k < out.len() implies is_finished(
            requests,
            ring,
            seen,
            left,
            #[trigger] out[k],
        ) by {
            if k < first {
                assert(was_finished(requests, ring, seen, 0, out[k]));
            } else {
                assert(more[k - first] == out[k]);
                assert(is_finished(fewer, ring, next, left - 1, more[k - first]));
                let j = choose|j: int|
                    0 <= j < left - 1 && #[trigger] was_finished(
                        fewer,
                        ring,
                        next,
                        j,
                        more[k - first],
                    );
                assert(finished_at(ring, seen, j + 1) == finished_at(ring, next, j));
                assert(was_finished(requests, ring, seen, j + 1, out[k]));
            }
        }
    }
}

/// The memory of a queue has room for what the queue is made of: sixteen bytes
/// for each descriptor, a ring of two bytes for each that is offered, and one of
/// eight bytes for each that is done with, both rings with six bytes more. All
/// descriptors of a new queue are free, in their order.
pub proof fn law_new_queue_has_room(vq: Virtqueue, q_size: u16, notify_off: u16, i: int)
    requires
        is_fresh(vq, q_size, notify_off),
        0 <= i < q_size,
    ensures
        4096 * pow2(vq.desc_order as nat) >= 16 * q_size,
        4096 * pow2(vq.av_order as nat) >= 6 + 2 * q_size,
        4096 * pow2(vq.used_order as nat) >= 6 + 8 * q_size,
        vq.queue_size == q_size,
        vq.queue_notify_off == notify_off,
        vq.desc@.len() == q_size,
        vq.free_list().len() == q_size,
        vq.free_list()[i] == i,
        i + 1 < q_size ==> follows(vq.desc@[i]) && vq.desc@[i].next == i + 1,
        i + 1 == q_size ==> !follows(vq.desc@[i]),
        vq.requests@[i] is None,
{
    law_order_has_room(q_size * 16);
    law_order_has_room(6 + q_size * 2);
    law_order_has_room(6 + q_size * 8);
}

} // verus!
