use vespertine::hal::mmu::{FrameAllocator, PageSize};
use vespertine::memory::magazine::Magazine;
use vespertine::memory::pmm::Allocator;
use vespertine::memory::{calculate_order, PCAllocator, HUGE_PAGE_SIZE};

/// An allocator for 32 MiB, of which the first 2 MiB are in use.
fn new_pmm() -> Allocator {
    let mut usable = vec![true; 8192];
    for pfn in 0..512 {
        usable[pfn] = false;
    }
    let mut pmm = Allocator::new();
    pmm.init(8192, &usable, 0x1000);
    pmm
}

#[test]
fn test_buddy_merge() {
    let mut pmm = new_pmm();
    let target_block = pmm.alloc_order(1).expect("no block of order 1");
    pmm.free_order(target_block, 1);

    let left_child = pmm.alloc_order(0).expect("no left half");
    let right_child = pmm.alloc_order(0).expect("no right half");
    pmm.free_order(right_child, 0);
    pmm.free_order(left_child, 0);

    let merged_block = pmm.alloc_order(1).expect("no block of order 1");
    assert_eq!(target_block, merged_block);
    pmm.free_order(merged_block, 1);
}

#[test]
fn test_huge_alignment() {
    let mut pmm = new_pmm();
    let huge_frame = pmm.alloc_page(PageSize::Size2M).expect("no huge page");
    assert_eq!(huge_frame % HUGE_PAGE_SIZE, 0);
    pmm.free(huge_frame, PageSize::Size2M);
}

#[test]
fn test_freelist_isolation() {
    let mut pmm = new_pmm();
    let block1 = pmm.alloc_page(PageSize::Size4K).unwrap();
    let block2 = pmm.alloc_page(PageSize::Size4K).unwrap();
    assert!(block1 != block2);
    pmm.free(block1, PageSize::Size4K);
    pmm.free(block2, PageSize::Size4K);
}

#[test]
fn halves_of_a_split_block_are_neighbours() {
    let mut pmm = new_pmm();
    let left = pmm.alloc_order(0).unwrap();
    let right = pmm.alloc_order(0).unwrap();
    assert_eq!(left ^ right, 4096);
}

#[test]
fn exhausted_allocator_gives_nothing() {
    let mut usable = vec![false; 1024];
    usable[600] = true;
    let mut pmm = Allocator::new();
    pmm.init(1024, &usable, 0x1000);
    assert_eq!(pmm.alloc_order(1), None);
    assert_eq!(pmm.alloc_order(0), Some(600 * 4096));
    assert_eq!(pmm.alloc_order(0), None);
    pmm.free_order(600 * 4096, 0);
    assert_eq!(pmm.alloc_order(0), Some(600 * 4096));
}

#[test]
fn unusable_frames_are_not_handed_out() {
    let mut pmm = new_pmm();
    let mut seen = 0;
    while let Some(block) = pmm.alloc_order(0) {
        assert!(block >= 512 * 4096);
        seen += 1;
    }
    assert_eq!(seen, 8192 - 512);
}

#[test]
fn magazine_hands_back_what_it_was_given() {
    let mut pmm = new_pmm();
    let mut magazine = Magazine::init();
    let a = magazine.alloc_page(&mut pmm);
    assert_eq!(magazine.len(), 127);
    magazine.free(a, &mut pmm);
    assert_eq!(magazine.len(), 128);
    assert_eq!(magazine.alloc_page(&mut pmm), a);
}

#[test]
fn full_magazine_gives_half_of_its_pages_back() {
    let mut alloc = PCAllocator::new(new_pmm());
    let mut pages = Vec::new();
    for _ in 0..384 {
        pages.push(alloc.alloc_page(PageSize::Size4K));
    }
    for page in pages {
        alloc.free(page, PageSize::Size4K);
    }
    let again = alloc.alloc_page(PageSize::Size4K);
    assert_ne!(again, 0);
}

#[test]
fn frames_come_and_go_through_the_trait() {
    let mut alloc = PCAllocator::new(new_pmm());
    let frame = alloc.allocate_frame().unwrap();
    alloc.deallocate_frame(frame);
    assert_eq!(alloc.allocate_frame(), Some(frame));
}

#[test]
fn pages_join_again_to_the_block_they_came_from() {
    let mut alloc = PCAllocator::new(new_pmm());
    let pair = alloc.alloc_order(1).unwrap();
    assert_eq!(pair % 8192, 0);
    alloc.free_order(pair, 1);
    let first = alloc.alloc_order(0).unwrap();
    let second = alloc.alloc_order(0).unwrap();
    assert_ne!(first, second);
    alloc.free_order(second, 0);
    alloc.free_order(first, 0);
    assert_eq!(alloc.alloc_order(1), Some(pair));
}

#[test]
fn order_is_the_smallest_that_fits() {
    assert_eq!(calculate_order(1), 0);
    assert_eq!(calculate_order(4096), 0);
    assert_eq!(calculate_order(4097), 1);
    assert_eq!(calculate_order(16 * 1024), 2);
    assert_eq!(calculate_order(1024 * 1024), 8);
}
