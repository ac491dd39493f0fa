use vespertine::hal::mmu::pager::Pager;
use vespertine::hal::mmu::{PageSize, PhysAddr};
use vespertine::memory::page_tree::PageTree;
use vespertine::memory::vmm2::accounting::VmAccounting;
use vespertine::memory::vmm2::transaction::{PagerOp, VmaTransaction};
use vespertine::memory::vmm2::types::{
    MapBehavior, VmError, VmOptions, VmPermissions, VmaBacking, VmaChargeKind,
};
use vespertine::memory::vmm2::VirtMemManager;
use vespertine::memory::{HUGE_PAGE_SIZE, NORMAL_PAGE_SIZE};

fn new_vmm() -> VirtMemManager {
    VirtMemManager::over(Pager::new(PhysAddr(0x1000)))
}

#[test]
fn test_vmm2_map_and_find() {
    let mut vmm = new_vmm();
    let base = 0x4000_0000;
    let size = NORMAL_PAGE_SIZE * 4;

    assert_eq!(
        vmm.map_at(base, size, VmOptions::user_rw(), VmaBacking::Anonymous, 0, MapBehavior::RequireVacant),
        Ok(base),
    );

    let vma = vmm.find_vma(base).expect("mapped base missing");
    assert_eq!(vma.start, base);
    assert_eq!(vma.end, base + size);
    assert_eq!(vma.size(), size);
    assert_eq!(vma.value.permissions, VmOptions::user_rw().permissions);
    assert_eq!(vma.value.page_size, PageSize::Size4K);
    assert_eq!(vma.value.backing_offset, 0);

    assert!(vmm.find_vma(base + size - 1).is_ok());
    assert!(matches!(vmm.find_vma(base + size), Err(VmError::NotFound)));
    assert!(vmm.validate());
}

#[test]
fn test_vmm2_unmap_middle_splits_vma() {
    let mut vmm = new_vmm();
    let base = 0x4000_0000;
    let page = NORMAL_PAGE_SIZE;
    let size = page * 4;

    assert_eq!(
        vmm.map_at(base, size, VmOptions::user_rw(), VmaBacking::Anonymous, 0, MapBehavior::RequireVacant),
        Ok(base),
    );

    assert_eq!(vmm.unmap_range(base + page, page * 2), Ok(()));

    let left = vmm.find_vma(base).expect("left fragment missing");
    assert_eq!(left.start, base);
    assert_eq!(left.end, base + page);
    assert_eq!(left.value.backing_offset, 0);

    assert!(matches!(vmm.find_vma(base + page), Err(VmError::NotFound)));
    assert!(matches!(vmm.find_vma(base + page * 2), Err(VmError::NotFound)));

    let right = vmm.find_vma(base + page * 3).expect("right fragment missing");
    assert_eq!(right.start, base + page * 3);
    assert_eq!(right.end, base + page * 4);
    assert_eq!(right.value.backing_offset, page * 3);

    assert!(vmm.validate());

    let snapshot = vmm.accounting().snapshot();
    assert_eq!(snapshot.reserved_bytes, page * 2);
    assert_eq!(snapshot.committed_bytes, page * 2);
}

#[test]
fn test_vmm2_unmap_across_multiple_vmas() {
    let mut vmm = new_vmm();
    let base = 0x4000_0000;
    let page = NORMAL_PAGE_SIZE;

    assert_eq!(
        vmm.map_at(base, page * 2, VmOptions::user_rw(), VmaBacking::Anonymous, 0, MapBehavior::RequireVacant),
        Ok(base),
    );
    assert_eq!(
        vmm.map_at(base + page * 2, page * 2, VmOptions::user_ro(), VmaBacking::Anonymous, 0, MapBehavior::RequireVacant),
        Ok(base + page * 2),
    );

    assert_eq!(vmm.unmap_range(base + page, page * 2), Ok(()));

    let left = vmm.find_vma(base).expect("left remainder missing");
    assert_eq!(left.start, base);
    assert_eq!(left.end, base + page);
    assert_eq!(left.value.permissions, VmOptions::user_rw().permissions);

    assert!(matches!(vmm.find_vma(base + page), Err(VmError::NotFound)));
    assert!(matches!(vmm.find_vma(base + page * 2), Err(VmError::NotFound)));

    let right = vmm.find_vma(base + page * 3).expect("right remainder missing");
    assert_eq!(right.start, base + page * 3);
    assert_eq!(right.end, base + page * 4);
    assert_eq!(right.value.permissions, VmOptions::user_ro().permissions);
    assert_eq!(right.value.backing_offset, page);

    assert!(vmm.validate());

    let snapshot = vmm.accounting().snapshot();
    assert_eq!(snapshot.reserved_bytes, page * 2);
    assert_eq!(snapshot.committed_bytes, page * 2);
}

#[test]
fn test_vmm2_unmap_rejects_holes_without_mutating() {
    let mut vmm = new_vmm();
    let base = 0x4000_0000;
    let page = NORMAL_PAGE_SIZE;

    assert_eq!(
        vmm.map_at(base, page, VmOptions::user_rw(), VmaBacking::Anonymous, 0, MapBehavior::RequireVacant),
        Ok(base),
    );
    assert_eq!(
        vmm.map_at(base + page * 2, page, VmOptions::user_ro(), VmaBacking::Anonymous, 0, MapBehavior::RequireVacant),
        Ok(base + page * 2),
    );

    let before = vmm.accounting().snapshot();

    assert_eq!(vmm.unmap_range(base, page * 3), Err(VmError::NotFound));

    let first = vmm.find_vma(base).expect("first mapping was mutated");
    assert_eq!(first.start, base);
    assert_eq!(first.end, base + page);
    assert_eq!(first.value.permissions, VmOptions::user_rw().permissions);

    assert!(matches!(vmm.find_vma(base + page), Err(VmError::NotFound)));

    let second = vmm.find_vma(base + page * 2).expect("second mapping was mutated");
    assert_eq!(second.start, base + page * 2);
    assert_eq!(second.end, base + page * 3);
    assert_eq!(second.value.permissions, VmOptions::user_ro().permissions);

    let after = vmm.accounting().snapshot();
    assert_eq!(after.reserved_bytes, before.reserved_bytes);
    assert_eq!(after.committed_bytes, before.committed_bytes);
    assert!(vmm.validate());
}

#[test]
fn test_vmm2_protect_middle_splits_vma() {
    let mut vmm = new_vmm();
    let base = 0x4000_0000;
    let page = NORMAL_PAGE_SIZE;
    let size = page * 4;

    assert_eq!(
        vmm.map_at(base, size, VmOptions::user_rw(), VmaBacking::Anonymous, 0, MapBehavior::RequireVacant),
        Ok(base),
    );

    let new_permissions = VmOptions::user_ro().permissions;
    assert_eq!(vmm.protect_range(base + page, page * 2, new_permissions), Ok(()));

    let left = vmm.find_vma(base).expect("left fragment missing");
    assert_eq!(left.start, base);
    assert_eq!(left.end, base + page);
    assert_eq!(left.value.permissions, VmOptions::user_rw().permissions);
    assert_eq!(left.value.backing_offset, 0);

    let middle = vmm.find_vma(base + page).expect("middle fragment missing");
    assert_eq!(middle.start, base + page);
    assert_eq!(middle.end, base + page * 3);
    assert_eq!(middle.value.permissions, new_permissions);
    assert_eq!(middle.value.backing_offset, page);

    let right = vmm.find_vma(base + page * 3).expect("right fragment missing");
    assert_eq!(right.start, base + page * 3);
    assert_eq!(right.end, base + page * 4);
    assert_eq!(right.value.permissions, VmOptions::user_rw().permissions);
    assert_eq!(right.value.backing_offset, page * 3);

    assert!(vmm.validate());

    let snapshot = vmm.accounting().snapshot();
    assert_eq!(snapshot.reserved_bytes, size);
    assert_eq!(snapshot.committed_bytes, size);
}

#[test]
fn test_vmm2_protect_rejects_holes_without_mutating() {
    let mut vmm = new_vmm();
    let base = 0x4000_0000;
    let page = NORMAL_PAGE_SIZE;

    assert_eq!(
        vmm.map_at(base, page, VmOptions::user_rw(), VmaBacking::Anonymous, 0, MapBehavior::RequireVacant),
        Ok(base),
    );
    assert_eq!(
        vmm.map_at(base + page * 2, page, VmOptions::user_rx(), VmaBacking::Anonymous, 0, MapBehavior::RequireVacant),
        Ok(base + page * 2),
    );

    let before = vmm.accounting().snapshot();

    assert_eq!(
        vmm.protect_range(base, page * 3, VmOptions::user_ro().permissions),
        Err(VmError::NotFound),
    );

    let first = vmm.find_vma(base).expect("first mapping was mutated");
    assert_eq!(first.value.permissions, VmOptions::user_rw().permissions);

    assert!(matches!(vmm.find_vma(base + page), Err(VmError::NotFound)));

    let second = vmm.find_vma(base + page * 2).expect("second mapping was mutated");
    assert_eq!(second.value.permissions, VmOptions::user_rx().permissions);

    let after = vmm.accounting().snapshot();
    assert_eq!(after.reserved_bytes, before.reserved_bytes);
    assert_eq!(after.committed_bytes, before.committed_bytes);
    assert!(vmm.validate());
}

#[test]
fn test_vmm2_preserves_2m_vma_for_aligned_unmap() {
    let mut vmm = new_vmm();
    let base = 0x4000_0000;
    let huge = HUGE_PAGE_SIZE;

    let options = VmOptions::user_rw().with_page_size(PageSize::Size2M);

    assert_eq!(
        vmm.map_at(base, huge * 2, options, VmaBacking::Anonymous, 0, MapBehavior::RequireVacant),
        Ok(base),
    );

    assert_eq!(vmm.unmap_range(base, huge), Ok(()));
    assert!(matches!(vmm.find_vma(base), Err(VmError::NotFound)));

    let remaining = vmm.find_vma(base + huge).expect("remaining huge VMA missing");
    assert_eq!(remaining.start, base + huge);
    assert_eq!(remaining.end, base + huge * 2);
    assert_eq!(remaining.value.page_size, PageSize::Size2M);
    assert_eq!(remaining.value.backing_offset, huge);

    assert!(vmm.validate());

    let snapshot = vmm.accounting().snapshot();
    assert_eq!(snapshot.reserved_bytes, huge);
    assert_eq!(snapshot.committed_bytes, huge);
}

#[test]
fn test_vmm2_precise_2m_demotion_only_demotes_touched_chunk() {
    let mut vmm = new_vmm();
    let base = 0x4000_0000;
    let page = NORMAL_PAGE_SIZE;
    let huge = HUGE_PAGE_SIZE;

    let options = VmOptions::user_rw().with_page_size(PageSize::Size2M);

    assert_eq!(
        vmm.map_at(base, huge * 2, options, VmaBacking::Anonymous, 0, MapBehavior::RequireVacant),
        Ok(base),
    );

    assert_eq!(vmm.unmap_range(base + page, page), Ok(()));

    let left = vmm.find_vma(base).expect("left 4K fragment missing");
    assert_eq!(left.start, base);
    assert_eq!(left.end, base + page);
    assert_eq!(left.value.page_size, PageSize::Size4K);
    assert_eq!(left.value.permissions, VmOptions::user_rw().permissions);
    assert_eq!(left.value.backing_offset, 0);

    assert!(matches!(vmm.find_vma(base + page), Err(VmError::NotFound)));

    let right_4k = vmm.find_vma(base + page * 2).expect("right 4K fragment missing");
    assert_eq!(right_4k.start, base + page * 2);
    assert_eq!(right_4k.end, base + huge);
    assert_eq!(right_4k.value.page_size, PageSize::Size4K);
    assert_eq!(right_4k.value.permissions, VmOptions::user_rw().permissions);
    assert_eq!(right_4k.value.backing_offset, page * 2);

    let untouched = vmm.find_vma(base + huge).expect("untouched 2M fragment missing");
    assert_eq!(untouched.start, base + huge);
    assert_eq!(untouched.end, base + huge * 2);
    assert_eq!(untouched.value.page_size, PageSize::Size2M);
    assert_eq!(untouched.value.permissions, VmOptions::user_rw().permissions);
    assert_eq!(untouched.value.backing_offset, huge);

    assert!(vmm.validate());

    let snapshot = vmm.accounting().snapshot();
    assert_eq!(snapshot.reserved_bytes, huge * 2 - page);
    assert_eq!(snapshot.committed_bytes, huge * 2 - page);
}

#[test]
fn test_vmm2_precise_2m_protect_only_demotes_touched_chunk() {
    let mut vmm = new_vmm();
    let base = 0x4000_0000;
    let page = NORMAL_PAGE_SIZE;
    let huge = HUGE_PAGE_SIZE;

    let options = VmOptions::user_rw().with_page_size(PageSize::Size2M);
    let ro = VmOptions::user_ro().permissions;

    assert_eq!(
        vmm.map_at(base, huge * 2, options, VmaBacking::Anonymous, 0, MapBehavior::RequireVacant),
        Ok(base),
    );

    assert_eq!(vmm.protect_range(base + page, page, ro), Ok(()));

    let left = vmm.find_vma(base).expect("left 4K fragment missing");
    assert_eq!(left.start, base);
    assert_eq!(left.end, base + page);
    assert_eq!(left.value.page_size, PageSize::Size4K);
    assert_eq!(left.value.permissions, VmOptions::user_rw().permissions);
    assert_eq!(left.value.backing_offset, 0);

    let middle = vmm.find_vma(base + page).expect("protected 4K fragment missing");
    assert_eq!(middle.start, base + page);
    assert_eq!(middle.end, base + page * 2);
    assert_eq!(middle.value.page_size, PageSize::Size4K);
    assert_eq!(middle.value.permissions, ro);
    assert_eq!(middle.value.backing_offset, page);

    let right_4k = vmm.find_vma(base + page * 2).expect("right 4K fragment missing");
    assert_eq!(right_4k.start, base + page * 2);
    assert_eq!(right_4k.end, base + huge);
    assert_eq!(right_4k.value.page_size, PageSize::Size4K);
    assert_eq!(right_4k.value.permissions, VmOptions::user_rw().permissions);
    assert_eq!(right_4k.value.backing_offset, page * 2);

    let untouched = vmm.find_vma(base + huge).expect("untouched 2M fragment missing");
    assert_eq!(untouched.start, base + huge);
    assert_eq!(untouched.end, base + huge * 2);
    assert_eq!(untouched.value.page_size, PageSize::Size2M);
    assert_eq!(untouched.value.permissions, VmOptions::user_rw().permissions);
    assert_eq!(untouched.value.backing_offset, huge);

    assert!(vmm.validate());

    let snapshot = vmm.accounting().snapshot();
    assert_eq!(snapshot.reserved_bytes, huge * 2);
    assert_eq!(snapshot.committed_bytes, huge * 2);
}

#[test]
fn test_vmm2_precise_1g_to_4k_unmap_keeps_untouched_2m_chunks() {
    let mut vmm = new_vmm();
    let base = 0x4000_0000_0000;
    let page = NORMAL_PAGE_SIZE;
    let huge = HUGE_PAGE_SIZE;
    let one_gib = PageSize::Size1G.bytes();

    let options = VmOptions::user_rw().with_page_size(PageSize::Size1G);

    assert_eq!(
        vmm.map_at(base, one_gib, options, VmaBacking::Anonymous, 0, MapBehavior::RequireVacant),
        Ok(base),
    );

    assert_eq!(vmm.unmap_range(base + page, page), Ok(()));

    let left = vmm.find_vma(base).expect("left 4K fragment missing");
    assert_eq!(left.start, base);
    assert_eq!(left.end, base + page);
    assert_eq!(left.value.page_size, PageSize::Size4K);
    assert_eq!(left.value.permissions, VmOptions::user_rw().permissions);
    assert_eq!(left.value.backing_offset, 0);

    assert!(matches!(vmm.find_vma(base + page), Err(VmError::NotFound)));

    let right_4k = vmm.find_vma(base + page * 2).expect("right 4K fragment missing");
    assert_eq!(right_4k.start, base + page * 2);
    assert_eq!(right_4k.end, base + huge);
    assert_eq!(right_4k.value.page_size, PageSize::Size4K);
    assert_eq!(right_4k.value.permissions, VmOptions::user_rw().permissions);
    assert_eq!(right_4k.value.backing_offset, page * 2);

    let untouched_2m = vmm.find_vma(base + huge).expect("untouched 2M fragment missing");
    assert_eq!(untouched_2m.start, base + huge);
    assert_eq!(untouched_2m.end, base + one_gib);
    assert_eq!(untouched_2m.value.page_size, PageSize::Size2M);
    assert_eq!(untouched_2m.value.permissions, VmOptions::user_rw().permissions);
    assert_eq!(untouched_2m.value.backing_offset, huge);

    assert!(vmm.validate());

    let snapshot = vmm.accounting().snapshot();
    assert_eq!(snapshot.reserved_bytes, one_gib - page);
    assert_eq!(snapshot.committed_bytes, one_gib - page);
}

#[test]
fn test_vmm2_precise_1g_to_4k_protect_keeps_untouched_2m_chunks() {
    let mut vmm = new_vmm();
    let base = 0x4000_0000_0000;
    let page = NORMAL_PAGE_SIZE;
    let huge = HUGE_PAGE_SIZE;
    let one_gib = PageSize::Size1G.bytes();

    let options = VmOptions::user_rw().with_page_size(PageSize::Size1G);
    let ro = VmOptions::user_ro().permissions;

    assert_eq!(
        vmm.map_at(base, one_gib, options, VmaBacking::Anonymous, 0, MapBehavior::RequireVacant),
        Ok(base),
    );

    assert_eq!(vmm.protect_range(base + page, page, ro), Ok(()));

    let left = vmm.find_vma(base).expect("left 4K fragment missing");
    assert_eq!(left.start, base);
    assert_eq!(left.end, base + page);
    assert_eq!(left.value.page_size, PageSize::Size4K);
    assert_eq!(left.value.permissions, VmOptions::user_rw().permissions);
    assert_eq!(left.value.backing_offset, 0);

    let middle = vmm.find_vma(base + page).expect("protected 4K fragment missing");
    assert_eq!(middle.start, base + page);
    assert_eq!(middle.end, base + page * 2);
    assert_eq!(middle.value.page_size, PageSize::Size4K);
    assert_eq!(middle.value.permissions, ro);
    assert_eq!(middle.value.backing_offset, page);

    let right_4k = vmm.find_vma(base + page * 2).expect("right 4K fragment missing");
    assert_eq!(right_4k.start, base + page * 2);
    assert_eq!(right_4k.end, base + huge);
    assert_eq!(right_4k.value.page_size, PageSize::Size4K);
    assert_eq!(right_4k.value.permissions, VmOptions::user_rw().permissions);
    assert_eq!(right_4k.value.backing_offset, page * 2);

    let untouched_2m = vmm.find_vma(base + huge).expect("untouched 2M fragment missing");
    assert_eq!(untouched_2m.start, base + huge);
    assert_eq!(untouched_2m.end, base + one_gib);
    assert_eq!(untouched_2m.value.page_size, PageSize::Size2M);
    assert_eq!(untouched_2m.value.permissions, VmOptions::user_rw().permissions);
    assert_eq!(untouched_2m.value.backing_offset, huge);

    assert!(vmm.validate());

    let snapshot = vmm.accounting().snapshot();
    assert_eq!(snapshot.reserved_bytes, one_gib);
    assert_eq!(snapshot.committed_bytes, one_gib);
}

#[test]
fn resident_bytes_go_up_and_down() {
    let mut books = VmAccounting::new();
    books.add_resident(0x3000, VmaChargeKind::Private);
    books.add_resident(0x1000, VmaChargeKind::Shared);
    books.sub_resident(0x1000, VmaChargeKind::Private);
    let now = books.snapshot();
    assert_eq!((now.resident_bytes, now.private_bytes, now.shared_bytes), (0x3000, 0x2000, 0x1000));
    books.sub_resident(0x9000, VmaChargeKind::Private);
    let now = books.snapshot();
    assert_eq!((now.resident_bytes, now.private_bytes, now.shared_bytes), (0, 0, 0x1000));
}

#[test]
fn empty_ranges_are_not_noted() {
    let mut changes: VmaTransaction<VmaBacking> = VmaTransaction::new();
    let permissions = VmOptions::kernel_rw().permissions;
    assert_eq!(permissions, VmPermissions(VmPermissions::WRITE));
    changes.push_pager_map(0x2000, 0x2000, 0x9000, PageSize::Size4K, permissions);
    assert_eq!(changes.pager_ops, vec![]);
    changes.push_pager_map(0x2000, 0x3000, 0x9000, PageSize::Size4K, permissions);
    let map = PagerOp::MapRange {
        start: 0x2000,
        end: 0x3000,
        phys: 0x9000,
        page_size: PageSize::Size4K,
        permissions,
    };
    assert_eq!(changes.pager_ops, vec![map]);
    assert_eq!(VmOptions::guard().charge, VmaChargeKind::ReservedOnly);
    assert!(VmOptions::guard().page_size.is_base());
    assert!(!PageSize::Size2M.is_base());
}

#[test]
fn offset_has_an_index_at_each_level() {
    let offset = 0x80_0000_0000 * 3 + 0x4000_0000 * 5 + 0x20_0000 * 7 + 0x1000 * 511 + 9;
    assert_eq!(PageTree::index_for(offset, 0), 511);
    assert_eq!(PageTree::index_for(offset, 1), 7);
    assert_eq!(PageTree::index_for(offset, 2), 5);
    assert_eq!(PageTree::index_for(offset, 3), 3);
}
