use vespertine::drivers::virtio::blk::{
    alloc_request_descs, complete_request, init_block_device, negotiate_features, offer_request,
    perform_handshake, poll_block_request, queue_for, queues_to_set_up, request_page,
    setup_interrupts, store_request, take_finished, take_request, transfer_sectors,
    virtio_blk_irq_handler, virtio_blk_worker_thread, vq_setup, BlockCompletion, BlockRequest,
    BlockTransferFuture, IrqWake, QueueWrite, RequestPoll, RequestState, Virtqueue, VqUsedElem,
    VqUsedRing, WorkerWait, RESULT_ERROR, RESULT_OK, RESULT_PENDING,
};
use vespertine::drivers::virtio::mmio::VirtioBlockDriver;
use vespertine::hal::mmu::pager::PhysMemory;
use vespertine::hal::mmu::{FrameAllocator, PageSize};
use vespertine::memory::frames::read_frame;
use vespertine::memory::pmm::Allocator;
use vespertine::memory::PCAllocator;

fn new_alloc() -> PCAllocator {
    let mut usable = vec![true; 4096];
    usable[0] = false;
    let mut pmm = Allocator::new();
    pmm.init(4096, &usable, 0x1000);
    PCAllocator::new(pmm)
}

fn test_virtqueue(queue_size: u16, alloc: &mut PCAllocator) -> Virtqueue {
    vq_setup(queue_size, 0, alloc).expect("no memory for a queue")
}

fn drain_descs(vq: &mut Virtqueue, count: usize) -> Vec<u16> {
    let mut descs = Vec::new();
    for _ in 0..count {
        descs.push(vq.alloc_desc().expect("descriptor missing") as u16);
    }
    descs
}

fn queued_request(vq: &mut Virtqueue, alloc: &mut PCAllocator) -> BlockRequest {
    let page_phys = alloc.alloc_page(PageSize::Size4K);
    let (d0, d1, d2) =
        alloc_request_descs(vq, page_phys, alloc).expect("descriptor allocation failed");
    let request = BlockRequest::new(d0, d1, d2, page_phys, 0x10_0000, 512);
    store_request(vq, request);
    request
}

#[test]
fn test_dropped_future_leaves_request_queue_owned() {
    let mut alloc = new_alloc();
    let mut vq = test_virtqueue(8, &mut alloc);
    let request = queued_request(&mut vq, &mut alloc);
    let mut state = RequestState::new();
    state.deactivate();

    assert!(vq.requests[request.d0 as usize].is_some());
    let queued = take_request(&mut vq, request.d0 as usize).expect("request missing from queue");
    complete_request(&mut vq, &queued, &mut state, 0, &mut alloc);
}

#[test]
fn test_completion_reclaims_descriptors_after_future_drop() {
    let mut alloc = new_alloc();
    let mut vq = test_virtqueue(8, &mut alloc);
    let request = queued_request(&mut vq, &mut alloc);
    let mut state = RequestState::new();
    state.deactivate();

    let queued = take_request(&mut vq, request.d0 as usize).expect("request missing from queue");
    complete_request(&mut vq, &queued, &mut state, 0, &mut alloc);
    assert_eq!(drain_descs(&mut vq, 3), vec![request.d2, request.d1, request.d0]);
}

#[test]
fn test_dropped_future_is_not_woken() {
    let mut alloc = new_alloc();
    let mut vq = test_virtqueue(8, &mut alloc);
    let request = queued_request(&mut vq, &mut alloc);
    let mut state = RequestState::new();
    let mut future = BlockTransferFuture { request, completion: None };
    let (poll, _) = future.poll(&mut state, RESULT_PENDING, 7);
    assert_eq!(poll, RequestPoll::Pending);
    state.deactivate();

    let queued = take_request(&mut vq, request.d0 as usize).expect("request missing from queue");
    assert_eq!(complete_request(&mut vq, &queued, &mut state, 0, &mut alloc), None);
}

#[test]
fn test_completion_before_registration_returns_ready() {
    let mut state = RequestState::new();
    state.result = RESULT_OK;
    state.completed = true;
    let request = BlockRequest::new(0, 1, 2, 0x5000, 0x10_0000, 512);
    let mut future = BlockTransferFuture { request, completion: None };
    let seen = state.result;
    assert_eq!(future.poll(&mut state, seen, 7), (RequestPoll::Done, None));
    assert_eq!(state.waker, None);
}

#[test]
fn test_completion_between_check_and_registration_returns_ready() {
    let mut state = RequestState::new();
    let seen = state.result;
    state.result = RESULT_OK;
    state.completed = true;
    assert_eq!(poll_block_request(&mut state, seen, 7), RequestPoll::Done);
}

#[test]
fn test_request_status_is_published_before_waking() {
    let mut alloc = new_alloc();
    let mut vq = test_virtqueue(8, &mut alloc);
    let request = queued_request(&mut vq, &mut alloc);
    let mut state = RequestState::new();
    state.register(9);

    let queued = take_request(&mut vq, request.d0 as usize).expect("request missing from queue");
    assert_eq!(complete_request(&mut vq, &queued, &mut state, 0, &mut alloc), Some(9));
    assert_eq!(state.result, RESULT_OK);
    assert_eq!(state.wake(), None);
}

#[test]
fn test_request_exists_before_submission_publication() {
    let mut alloc = new_alloc();
    let mut vq = test_virtqueue(8, &mut alloc);
    let page_phys = alloc.alloc_page(PageSize::Size4K);
    let (request, _) =
        offer_request(&mut vq, 1, false, page_phys, 0x10_0000, 4, &mut alloc).unwrap();
    assert_eq!(vq.available.idx, 1);
    assert!(vq.requests[request.d0 as usize].is_some());

    let mut state = RequestState::new();
    let queued = take_request(&mut vq, request.d0 as usize).expect("request missing from queue");
    complete_request(&mut vq, &queued, &mut state, 0, &mut alloc);
}

#[test]
fn test_descriptor_allocation_failure_cleans_up_resources() {
    let mut alloc = new_alloc();
    let mut vq = test_virtqueue(2, &mut alloc);
    let page_phys = alloc.alloc_page(PageSize::Size4K);

    assert!(alloc_request_descs(&mut vq, page_phys, &mut alloc).is_err());
    assert_eq!(drain_descs(&mut vq, 2), vec![0, 1]);

    let recycled = alloc.alloc_page(PageSize::Size4K);
    assert_eq!(recycled, page_phys);
    alloc.free(recycled, PageSize::Size4K);
}

#[test]
fn test_completion_happens_exactly_once() {
    let mut alloc = new_alloc();
    let mut vq = test_virtqueue(8, &mut alloc);
    let request = queued_request(&mut vq, &mut alloc);
    let mut state = RequestState::new();
    state.register(3);

    let queued = take_request(&mut vq, request.d0 as usize).expect("request missing from queue");
    assert!(take_request(&mut vq, request.d0 as usize).is_none());
    complete_request(&mut vq, &queued, &mut state, 0, &mut alloc);
    assert_eq!(state.result, RESULT_OK);
    assert!(state.completed);
}

#[test]
fn copy_after_a_read_is_announced_once() {
    let mut state = RequestState::new();
    state.result = RESULT_OK;
    state.completed = true;
    let request = BlockRequest::new(0, 1, 2, 0x5000, 0x10_0000, 512);
    let mut future = BlockTransferFuture::new(request, false, 0x5000);
    let copy = BlockCompletion::CopyToPhys { dst_phys: 0x5000 };
    assert_eq!(future.poll(&mut state, RESULT_OK, 1), (RequestPoll::Done, Some(copy)));
    assert_eq!(future.poll(&mut state, RESULT_OK, 1), (RequestPoll::Done, None));
}

#[test]
fn failed_status_gives_an_error() {
    let mut alloc = new_alloc();
    let mut vq = test_virtqueue(8, &mut alloc);
    let request = queued_request(&mut vq, &mut alloc);
    let mut state = RequestState::new();
    let queued = take_request(&mut vq, request.d0 as usize).unwrap();
    complete_request(&mut vq, &queued, &mut state, 1, &mut alloc);
    assert_eq!(state.result, RESULT_ERROR);
    let seen = state.result;
    assert_eq!(poll_block_request(&mut state, seen, 1), RequestPoll::Failed);
}

#[test]
fn fresh_queue_is_all_free() {
    let mut alloc = new_alloc();
    assert!(vq_setup(0, 0, &mut alloc).is_none());
    let mut vq = vq_setup(4, 3, &mut alloc).unwrap();
    assert_eq!(vq.desc_order, 0);
    assert_eq!(vq.desc[0].next, 1);
    assert_eq!(vq.desc[0].flags, 1);
    assert_eq!(vq.desc[3].next, 0xFFFF);
    assert_eq!(vq.desc[3].flags, 0);
    assert_eq!(drain_descs(&mut vq, 4), vec![0, 1, 2, 3]);
    assert!(vq.alloc_desc().is_err());
    let blocks = vq.blocks();
    assert_ne!(blocks[0].0, blocks[1].0);
    assert_ne!(blocks[1].0, blocks[2].0);
    let large = vq_setup(1024, 0, &mut alloc).unwrap();
    assert_eq!((large.desc_order, large.av_order, large.used_order), (2, 0, 2));
}

#[test]
fn transfer_builds_the_chain() {
    let mut alloc = new_alloc();
    let mut vq = vq_setup(8, 5, &mut alloc).unwrap();
    vq.last_seen_used = 0;
    let page_phys = alloc.allocate_frame().unwrap();
    let (request, doorbell) =
        offer_request(&mut vq, 8, false, page_phys, 0x20_0000, 4, &mut alloc).unwrap();
    assert_eq!(doorbell, 20);
    assert_eq!((request.d0, request.d1, request.d2), (0, 1, 2));
    assert_eq!(vq.desc[0].addr, page_phys);
    assert_eq!(vq.desc[0].len, 16);
    assert_eq!(vq.desc[0].flags, 1);
    assert_eq!(vq.desc[0].next, 1);
    assert_eq!(vq.desc[1].addr, 0x20_0000);
    assert_eq!(vq.desc[1].len, 4096);
    assert_eq!(vq.desc[1].flags, 3);
    assert_eq!(vq.desc[2].addr, page_phys + 512);
    assert_eq!(vq.desc[2].len, 1);
    assert_eq!(vq.desc[2].flags, 2);
    assert_eq!(vq.desc[2].next, 0xFFFF);
    assert_eq!(vq.available.ring[0], 0);
    let page_phys = alloc.allocate_frame().unwrap();
    let (second, _) =
        offer_request(&mut vq, 1, true, page_phys, 0x30_0000, 4, &mut alloc).unwrap();
    assert_eq!(second.d0, 3);
    assert_eq!(vq.desc[4].flags, 1);
    assert_eq!(vq.available.ring[1], 3);
    let page_phys = alloc.allocate_frame().unwrap();
    assert!(offer_request(&mut vq, 1, true, page_phys, 0x30_0000, 4, &mut alloc).is_err());
    assert_eq!(alloc.allocate_frame(), Some(page_phys));
}

#[test]
fn request_page_holds_header_and_status() {
    let page = request_page(0x1_0000_0002, true);
    assert_eq!(page.len(), 4096);
    assert_eq!(page[0..16].to_vec(), vec![1, 0, 0, 0, 0, 0, 0, 0, 2, 0, 0, 0, 1, 0, 0, 0]);
    assert_eq!(page[512], 0xFF);
    assert_eq!(page[513], 0);
    assert_eq!(request_page(0, false)[0], 0);
}

#[test]
fn finished_requests_are_taken_once() {
    let mut alloc = new_alloc();
    let mut vq = test_virtqueue(8, &mut alloc);
    let first = queued_request(&mut vq, &mut alloc);
    let second = queued_request(&mut vq, &mut alloc);
    let nothing = VqUsedElem { id: 0, len: 0 };
    let mut ring = vec![nothing; 8];
    ring[0] = VqUsedElem { id: second.d0 as u32, len: 0 };
    ring[1] = VqUsedElem { id: second.d0 as u32, len: 0 };
    ring[2] = VqUsedElem { id: 99, len: 0 };
    ring[3] = VqUsedElem { id: first.d0 as u32, len: 0 };
    let used = VqUsedRing { idx: 4, ring };
    assert_eq!(take_finished(&mut vq, &used), vec![second, first]);
    assert_eq!(vq.last_seen_used, 4);
    assert_eq!(take_finished(&mut vq, &used), vec![]);
}

#[test]
fn used_index_wraps_around() {
    let mut alloc = new_alloc();
    let mut vq = test_virtqueue(4, &mut alloc);
    let request = queued_request(&mut vq, &mut alloc);
    vq.last_seen_used = 0xFFFF;
    let ring = vec![VqUsedElem { id: request.d0 as u32, len: 0 }; 4];
    let used = VqUsedRing { idx: 0, ring };
    assert_eq!(take_finished(&mut vq, &used), vec![request]);
    assert_eq!(vq.last_seen_used, 0);
}

#[test]
fn worker_waits_as_it_can() {
    assert_eq!(virtio_blk_worker_thread(false, 3, 3, false), WorkerWait::Sleep(1_000_000));
    assert_eq!(virtio_blk_worker_thread(true, 3, 3, false), WorkerWait::Block);
    assert_eq!(virtio_blk_worker_thread(true, 4, 3, false), WorkerWait::Retry);
    assert_eq!(virtio_blk_worker_thread(true, 3, 3, true), WorkerWait::Retry);
}

#[test]
fn interrupt_wakes_worker_or_executor() {
    let worker = IrqWake { thread: Some(4), mark_awoken: true };
    assert_eq!(virtio_blk_irq_handler(Some(4), Some(5)), worker);
    let executor = IrqWake { thread: Some(5), mark_awoken: false };
    assert_eq!(virtio_blk_irq_handler(None, Some(5)), executor);
}

#[test]
fn features_are_negotiated() {
    assert_eq!(negotiate_features(0, 0), (0x1266, 1));
    assert_eq!(negotiate_features(0xFFFF_FFFF, 0xFFFF_FFFF), (0xEFFF_FFFF, 0xFFFF_FFFB));
    assert_eq!(negotiate_features(1 << 29, 4), (0x2000_1266, 1));
}

#[test]
fn handshake_goes_step_by_step() {
    assert_eq!(perform_handshake(0, 1), [0, 1, 3]);
}

#[test]
fn interrupts_are_set_up_queue_by_queue() {
    let (writes, done) = setup_interrupts(true, true, &vec![true, false]);
    assert!(done.is_ok());
    assert_eq!(
        writes,
        vec![
            QueueWrite::Select(0),
            QueueWrite::MsixVector(0),
            QueueWrite::Enable,
            QueueWrite::Select(1),
            QueueWrite::Enable,
            QueueWrite::ConfigVector(0),
        ]
    );
    let (writes, done) = setup_interrupts(false, true, &vec![true]);
    assert!(done.is_err());
    assert_eq!(writes, vec![QueueWrite::Enable]);
    assert!(setup_interrupts(true, false, &vec![true]).1.is_err());
}

#[test]
fn device_gets_a_queue_for_each_core() {
    assert_eq!(queues_to_set_up(1 << 12, 8, 2), 2);
    assert_eq!(queues_to_set_up(1 << 12, 1, 4), 1);
    assert_eq!(queues_to_set_up(0, 8, 4), 1);
    assert_eq!(queue_for(5, 2), 1);
}

#[test]
fn device_is_set_up_when_it_agrees() {
    let driver = VirtioBlockDriver {
        bus: 0,
        slot: 3,
        func: 0,
        common_cfg: 0x1000,
        notify_base: 0x2000,
        notify_off_multiplier: 4,
        isr_cfg: 0x3000,
        device_cfg: 0x4000,
    };
    let mut alloc = new_alloc();
    assert!(init_block_device(driver, 3, &vec![8], &vec![0], &mut alloc).is_none());
    assert!(init_block_device(driver, 11, &vec![8, 0], &vec![0, 0], &mut alloc).is_none());
    let device = init_block_device(driver, 11, &vec![8, 16], &vec![0, 1], &mut alloc).unwrap();
    assert_eq!(device.queues.len(), 2);
    assert_eq!(device.queues[1].vq.queue_size, 16);
    assert_eq!(device.queues[1].vq.queue_notify_off, 1);
}

#[test]
fn transfer_writes_the_page_of_its_request() {
    let mut alloc = new_alloc();
    let mut memory = PhysMemory::new(4096);
    let mut vq = vq_setup(4, 5, &mut alloc).unwrap();
    let (sector, buf) = (0x1_0000_0002, 0x7000);
    let (future, doorbell) =
        transfer_sectors(&mut vq, sector, 8, buf, false, 0x20_0000, 4, &mut alloc, &mut memory)
            .unwrap();
    assert_eq!(doorbell, 20);
    let request = future.request;
    assert_eq!((request.dma_phys, request.dma_len), (0x20_0000, 4096));
    assert_eq!(future.completion, Some(BlockCompletion::CopyToPhys { dst_phys: buf }));
    assert_eq!(vq.desc[0].addr, request.page_phys);
    let page = read_frame(&memory, request.page_phys);
    assert_eq!(page, request_page(sector, false));
    assert_eq!(page[0..16].to_vec(), vec![0, 0, 0, 0, 0, 0, 0, 0, 2, 0, 0, 0, 1, 0, 0, 0]);
    assert_eq!(page[512], 0xFF);
    let again = alloc.allocate_frame().unwrap();
    assert_ne!(again, request.page_phys);
    alloc.deallocate_frame(again);
    let full = transfer_sectors(&mut vq, 0, 1, 0, true, 0x30_0000, 4, &mut alloc, &mut memory);
    assert!(full.is_err());
    assert_eq!(alloc.allocate_frame(), Some(again));
    assert_eq!(vq.available.idx, 1);
}
