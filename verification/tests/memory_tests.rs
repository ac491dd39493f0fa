use vespertine::common::bitwise::{check_bit, set_bit, unset_bit};
use vespertine::hal::mmu::pager::{PageTable, Pager, PagerError, PhysMemory};
use vespertine::hal::mmu::{
    flush_tlb_range, init_direct_map_offset, DirectMapOffset, FrameAllocator, PageFlags, PageSize,
    PhysAddr, VirtAddr,
};
use vespertine::memory::align::{align_down, align_up_checked};
use vespertine::memory::frames::{read_frame, write_frame};
use vespertine::memory::heap::KernelPageProvider;
use vespertine::memory::page_tree::{PageSlot, PageTree};
use vespertine::memory::pmm::Allocator;
use vespertine::memory::vmm::{
    page_steps, shootdown_range, FaultTarget, Flushes, PageLog, PageNumber, PageOps, PageRequests, PageStep,
    TablePages, VirtMemManager, VmaBacking, VmoSource, VmoTable,
};
use vespertine::memory::vmm2::accounting::VmAccounting;
use vespertine::memory::vmm2::transaction::PagerOp;
use vespertine::memory::vmm2::types::{
    MapBehavior, VmError, VmOptions, VmPermissions, VmaChargeKind, VmoId,
};
use vespertine::memory::vmm2::VirtMemManager as VirtMemManager2;
use vespertine::memory::vmo::{FileVmo, PagedBackingStore, Vmo};
use vespertine::memory::{
    hal_map_mmio, handle_page_fault, kernel_heap_allocated, FaultError, KernelAllocatorWrapper,
    PCAllocator,
};
use vespertine::object::handle::HandleTable;
use vespertine::object::invoke::InvocationError;
use vespertine::object::rights::AccessRights;
use vespertine::object::vmo::{options_for, VmoObject, VmoReply, VmoRequest};

fn new_memory() -> (PCAllocator, PhysMemory) {
    let mut usable = vec![true; 2048];
    usable[0] = false;
    let mut pmm = Allocator::new();
    pmm.init(2048, &usable, 0x1000);
    (PCAllocator::new(pmm), PhysMemory::new(2048))
}

struct Pages {
    steps: Vec<PageStep>,
    fail: bool,
}

impl Pages {
    fn new() -> Self {
        Pages { steps: Vec::new(), fail: false }
    }
}

impl PageOps for Pages {
    fn ready(&self) -> bool {
        true
    }

    fn log(&self) -> PageLog {
        unreachable!()
    }

    fn flushes(&self) -> Flushes {
        unreachable!()
    }

    fn maps(&self, _page: PageNumber) -> bool {
        unreachable!()
    }

    fn apply(&mut self, step: PageStep) -> Result<(), PagerError> {
        if self.fail {
            return Err(PagerError::OutOfMemory);
        }
        self.steps.push(step);
        Ok(())
    }

    fn shootdown(&mut self, _start: u64, _size: u64) {}
}

struct OneVmo(Option<u64>);

impl VmoSource for OneVmo {
    fn ready(&self) -> bool {
        true
    }

    fn requests(&self) -> PageRequests {
        unreachable!()
    }

    fn request_page(&mut self, _vmo: VmoId, _offset: u64) -> Option<u64> {
        self.0
    }
}

#[test]
fn bits_are_set_and_cleared() {
    assert_eq!(set_bit(0u64, 63), 1 << 63);
    assert_eq!(unset_bit(0xFFu64, 0), 0xFE);
    assert!(check_bit(4u64, 2));
    assert!(!check_bit(4u64, 1));
    assert_eq!(set_bit(0x10u8, 7), 0x90);
    assert_eq!(unset_bit(0xFFFFu16, 15), 0x7FFF);
    assert!(check_bit(0x8000_0000u32, 31));
    assert!(!check_bit(0x7FFF_FFFFu32, 31));
}

#[test]
fn addresses_are_aligned() {
    assert_eq!(align_down(0x1FFF, 0x1000), 0x1000);
    assert_eq!(align_up_checked(0x1001, 0x1000), Ok(0x2000));
    assert_eq!(align_up_checked(u64::MAX, 0x1000), Err(VmError::Overflow));
}

#[test]
fn address_has_an_index_at_each_level() {
    let addr = VirtAddr(1 << 39 | 2 << 30 | 3 << 21 | 4 << 12 | 5);
    assert_eq!((addr.p4_index(), addr.p3_index()), (1, 2));
    assert_eq!((addr.p2_index(), addr.p1_index()), (3, 4));
    assert_eq!(PageSize::Size2M.bytes(), 0x20_0000);
    assert_eq!(PageSize::Size1G.demoted(), Some(PageSize::Size2M));
    assert_eq!(PageSize::Size4K.demoted(), None);
}

#[test]
fn pages_of_a_range_are_flushed() {
    assert_eq!(flush_tlb_range(0x1800, 0x1000), vec![0x1000, 0x2000]);
    assert_eq!(flush_tlb_range(0x1000, 0), vec![]);
    assert_eq!(flush_tlb_range(u64::MAX - 10, 100), vec![0xFFFF_FFFF_FFFF_F000]);
}

#[test]
fn first_direct_map_counts() {
    let mut cell = DirectMapOffset { value: None };
    init_direct_map_offset(&mut cell, 5);
    init_direct_map_offset(&mut cell, 6);
    assert_eq!(cell.value, Some(5));
}

#[test]
fn mapped_page_is_translated_until_it_is_unmapped() {
    let (mut alloc, mut memory) = new_memory();
    let root = alloc.allocate_frame().unwrap();
    PageTable::from_phys(&mut memory, PhysAddr(root)).zero();
    let mut pager = Pager::new(PhysAddr(root));
    let virt = VirtAddr(0x4000_1000);
    let flags = PageFlags(PageFlags::WRITABLE);
    pager
        .map_page(&mut memory, virt, PhysAddr(0x9000), flags, PageSize::Size4K, &mut alloc)
        .unwrap();
    let (phys, size, found) = pager.translate(&memory, virt).unwrap();
    assert_eq!(phys, PhysAddr(0x9000));
    assert_eq!(size, PageSize::Size4K);
    assert!(found.contains(PageFlags(PageFlags::WRITABLE)));
    assert!(pager
        .map_page(&mut memory, virt, PhysAddr(0xA000), flags, PageSize::Size4K, &mut alloc)
        .is_err());
    pager.change_flags(&mut memory, virt, PageFlags(0), PageSize::Size4K).unwrap();
    let (_, _, found) = pager.translate(&memory, virt).unwrap();
    assert!(!found.contains(PageFlags(PageFlags::WRITABLE)));
    pager.unmap_page(&mut memory, virt, PageSize::Size4K, &mut alloc).unwrap();
    assert!(pager.translate(&memory, virt).is_none());
    assert!(pager.unmap_page(&mut memory, virt, PageSize::Size4K, &mut alloc).is_err());
}

#[test]
fn unmapping_gives_each_table_back_once() {
    let (mut alloc, mut memory) = new_memory();
    let root = alloc.allocate_frame().unwrap();
    PageTable::from_phys(&mut memory, PhysAddr(root)).zero();
    let mut pager = Pager::new(PhysAddr(root));
    let flags = PageFlags(PageFlags::WRITABLE);
    let (one, other) = (VirtAddr(0x4000_1000), VirtAddr(0x4000_2000));
    let small = PageSize::Size4K;
    let tables: Vec<u64> = {
        let mut spare = Vec::new();
        for _ in 0..3 {
            spare.push(alloc.allocate_frame().unwrap());
        }
        for frame in spare.iter().rev() {
            alloc.deallocate_frame(*frame);
        }
        spare
    };
    let at = PhysAddr(0x9000);
    pager.map_page(&mut memory, one, at, flags, small, &mut alloc).unwrap();
    pager.map_page(&mut memory, other, at, flags, small, &mut alloc).unwrap();
    pager.unmap_page(&mut memory, one, small, &mut alloc).unwrap();
    assert!(pager.translate(&memory, other).is_some());
    pager.unmap_page(&mut memory, other, small, &mut alloc).unwrap();
    let mut again = Vec::new();
    for _ in 0..3 {
        again.push(alloc.allocate_frame().unwrap());
    }
    again.sort();
    let mut tables = tables;
    tables.sort();
    assert_eq!(again, tables);
}

#[test]
fn device_registers_are_mapped_once() {
    let (mut alloc, mut memory) = new_memory();
    let root = alloc.allocate_frame().unwrap();
    PageTable::from_phys(&mut memory, PhysAddr(root)).zero();
    let mut pager = Pager::new(PhysAddr(root));
    let offset = 0x1_0000_0000;
    let virt = hal_map_mmio(&mut pager, &mut memory, &mut alloc, offset, 0xFEC0_0010);
    assert_eq!(virt, Some(0x1_FEC0_0010));
    let again = hal_map_mmio(&mut pager, &mut memory, &mut alloc, offset, 0xFEC0_0020);
    assert_eq!(again, Some(0x1_FEC0_0020));
    let (phys, _, flags) = pager.translate(&memory, VirtAddr(0x1_FEC0_0000)).unwrap();
    assert_eq!(phys, PhysAddr(0xFEC0_0000));
    assert!(flags.contains(PageFlags(PageFlags::NO_CACHE)));
}

#[test]
fn page_tree_keeps_pages() {
    let (mut alloc, _) = new_memory();
    let mut tree = PageTree::new();
    assert_eq!(tree.get_page(0x5000), None);
    let page = tree.get_or_insert_page(0x5000, &mut alloc).unwrap();
    assert_eq!(tree.get_page(0x5000), Some(page));
    assert_eq!(tree.get_or_insert_page(0x5000, &mut alloc), Some(page));
    let far = tree.get_or_insert_page(0x40_0000_0000, &mut alloc).unwrap();
    assert!(!tree.is_dirty(0x5000));
    tree.set_dirty(0x5000, true).unwrap();
    assert!(tree.is_dirty(0x5000));
    assert!(tree.set_dirty(0x1000_0000, true).is_err());
    assert_eq!(tree.for_each_page(), vec![(0x5000, page), (0x40_0000_0000, far)]);
    assert_eq!(tree.remove_page(0x5000), Some(page));
    assert_eq!(tree.remove_page(0x5000), None);
    assert_eq!(tree.get_page(0x5000), None);
}

#[test]
fn slots_are_told_apart() {
    let leaf = PageSlot::pack_leaf(0x7000, true);
    assert!(PageSlot::is_leaf(leaf));
    assert_eq!(PageSlot::unpack_phys(leaf), 0x7000);
    assert!(!PageSlot::is_internal_node(leaf));
    let node = PageSlot::pack_internal(0x1000);
    assert!(PageSlot::is_internal_node(node));
    assert_eq!(PageSlot::unpack_internal(node), 0x1000);
    assert!(PageSlot::is_emtpy(0));
}

#[test]
fn frames_hold_bytes() {
    let (_, mut memory) = new_memory();
    let mut bytes = vec![0u8; 4096];
    bytes[0] = 1;
    bytes[9] = 0xFE;
    bytes[4095] = 7;
    write_frame(&mut memory, 0x3000, &bytes);
    assert_eq!(read_frame(&memory, 0x3000), bytes);
    assert_eq!(read_frame(&memory, 0x4000), vec![0u8; 4096]);
}

#[test]
fn memory_object_gets_pages_on_request() {
    let (mut alloc, mut memory) = new_memory();
    let mut vmo = Vmo::new(0x2000);
    let page = vmo.request_page(0x1000, &mut alloc, &mut memory).unwrap();
    assert_ne!(page, 0);
    assert_eq!(vmo.request_page(0x1000, &mut alloc, &mut memory), Ok(page));
    assert!(vmo.request_page(0x2000, &mut alloc, &mut memory).is_err());
    write_frame(&mut memory, page, &vec![5u8; 4096]);
    let mut copy = vmo.clone_range(0x1000, 0x2000, &mut alloc, &mut memory).unwrap();
    let first = copy.request_page(0, &mut alloc, &mut memory).unwrap();
    assert_ne!(first, page);
    assert_eq!(read_frame(&memory, first), vec![5u8; 4096]);
    let second = copy.request_page(0x1000, &mut alloc, &mut memory).unwrap();
    assert_eq!(read_frame(&memory, second), vec![0u8; 4096]);
    vmo.resize_object(0x1000, &mut alloc, &memory).unwrap();
    assert!(vmo.request_page(0x1000, &mut alloc, &mut memory).is_err());
    assert_eq!(alloc.allocate_frame(), Some(page));
    copy.release(&mut alloc, &memory);
}

#[test]
fn copy_that_needs_too_many_frames_takes_none() {
    let (mut alloc, mut memory) = new_memory();
    let vmo = Vmo::new(0x1000);
    let all = 1920 * 4096;
    assert!(vmo.clone_range(0, all + 1, &mut alloc, &mut memory).is_err());
    let mut copy = vmo.clone_range(0, all, &mut alloc, &mut memory).unwrap();
    assert_eq!(alloc.allocate_frame(), None);
    let mut file = FileVmo::new(0x1000);
    assert!(file.install(0, &vec![1u8; 8], &mut alloc, &mut memory).is_err());
    assert_eq!(file.cached(0), Ok(None));
    copy.release(&mut alloc, &memory);
    assert!(file.install(0, &vec![1u8; 8], &mut alloc, &mut memory).is_ok());
    assert!(vmo.clone_range(0, all, &mut alloc, &mut memory).is_err());
    assert!(vmo.clone_range(0, all - 4096, &mut alloc, &mut memory).is_ok());
}

#[test]
fn physical_object_is_fixed() {
    let (mut alloc, mut memory) = new_memory();
    let mut vmo = Vmo::new_phys(0xFD00_0000, 0x2000);
    assert_eq!(vmo.request_page(0x1000, &mut alloc, &mut memory), Ok(0xFD00_1000));
    assert!(vmo.resize_object(0x1000, &mut alloc, &memory).is_err());
    assert!(vmo.clone_range(0, 0x1000, &mut alloc, &mut memory).is_err());
    assert!(vmo.mark_dirty(0).is_err());
    assert_eq!(vmo.request_page(0, &mut alloc, &mut memory), Ok(0xFD00_0000));
    assert!(vmo.request_page(0x800, &mut alloc, &mut memory).is_err());
    assert!(vmo.request_page(0x2000, &mut alloc, &mut memory).is_err());
    let next = alloc.allocate_frame().unwrap();
    alloc.deallocate_frame(next);
    vmo.release(&mut alloc, &memory);
    assert_eq!(alloc.allocate_frame(), Some(next));
}

#[test]
fn ranges_past_the_last_address_are_refused() {
    let (mut alloc, mut memory) = new_memory();
    let mut vmo = Vmo::new(0x3000);
    let last = 0xFFFF_FFFF_FFFF_F000;
    assert!(vmo.clone_range(last, 0x2000, &mut alloc, &mut memory).is_err());
    assert!(vmo.clone_range(last, 0x1000, &mut alloc, &mut memory).is_ok());
    assert!(vmo.pin(0x1000, u64::MAX, &mut alloc, &mut memory).is_err());
}

#[test]
fn dirty_marks_stay_until_cleared() {
    let mut vmo = Vmo::new(0x2000);
    assert!(!vmo.is_dirty(0x1000));
    vmo.mark_dirty(0x1000).unwrap();
    assert!(vmo.is_dirty(0x1000));
    assert!(!vmo.is_dirty(0));
    vmo.clear_dirty(0x1000);
    assert!(!vmo.is_dirty(0x1000));
    assert!(vmo.mark_dirty(0x5000).is_err());
    assert_eq!(vmo.peek_page(0), None);
}

#[test]
fn pinned_pages_are_known() {
    let (mut alloc, mut memory) = new_memory();
    let mut vmo = Vmo::new(0x3000);
    let pinned = vmo.pin(0x1000, 0x2000, &mut alloc, &mut memory).unwrap();
    assert_eq!(pinned.phys_addrs().len(), 2);
    assert_eq!(pinned.phys_addrs()[0], vmo.request_page(0x1000, &mut alloc, &mut memory).unwrap());
    pinned.release(&mut alloc);
}

#[test]
fn file_pages_are_installed() {
    let (mut alloc, mut memory) = new_memory();
    let mut vmo = FileVmo::new(5000);
    assert_eq!(vmo.cached(4096), Ok(None));
    let frame = vmo.install(4096, &vec![9u8; 904], &mut alloc, &mut memory).unwrap();
    assert_eq!(vmo.cached(4096), Ok(Some(frame)));
    let page = read_frame(&memory, frame);
    assert_eq!(page[903], 9);
    assert_eq!(page[904], 0);
    assert!(vmo.cached(8192).is_err());
}

#[test]
fn vmo_object_serves_requests() {
    let (mut alloc, mut memory) = new_memory();
    let mut object = VmoObject::new(Vmo::new(0x1000), VmoId(3));
    let page = object.get_page(0, &mut alloc, &mut memory).unwrap();
    assert_ne!(page, 0);
    assert_eq!(
        object.get_page(0x1000, &mut alloc, &mut memory),
        Err(InvocationError::InvalidArgument)
    );
    assert_eq!(object.resize(0x3000, &mut alloc, &memory), Ok(0));
    let mut fixed = VmoObject::new(Vmo::new_phys(0x8000, 0x1000), VmoId(4));
    assert_eq!(
        fixed.resize(0, &mut alloc, &memory),
        Err(InvocationError::UnsupportedOperation)
    );
    let mut caller = Some(HandleTable::new());
    let (handle, child) = object
        .clone_for(0, 0x1000, &mut caller, 55, VmoId(9), &mut alloc, &mut memory)
        .ok()
        .unwrap();
    assert_eq!(caller.as_ref().unwrap().resolve(handle, AccessRights::all()), Ok(55));
    assert_eq!(child.vmo.size, 0x1000);
    let nobody = object.clone_for(0, 0x1000, &mut None, 55, VmoId(9), &mut alloc, &mut memory);
    assert!(matches!(nobody, Err(InvocationError::UnsupportedOperation)));
}

#[test]
fn vmo_object_is_mapped() {
    let mut vmm = VirtMemManager::over(Pager::new(PhysAddr(0x1000)));
    let object = VmoObject::new(Vmo::new(0x2000), VmoId(3));
    let mut pages = Pages::new();
    let at = object.map_into(&mut vmm, 0, 0x2000, 1, &mut pages).unwrap();
    assert_eq!(at, 0x4000_0000);
    assert_eq!(object.map_into(&mut vmm, at, 0x1000, 2, &mut pages), Ok(at));
    assert_eq!(
        vmm.find_vma(at).ok().unwrap().value.permissions,
        VmPermissions(VmPermissions::USER | VmPermissions::EXECUTE)
    );
    assert_eq!(
        object.map_into(&mut vmm, 0x5000_0000, 0x1000, 0, &mut pages),
        Err(InvocationError::OutOfMemory)
    );
    assert_eq!(options_for(0).permissions, VmPermissions(VmPermissions::USER));
}

#[test]
fn vmo_object_answers_requests() {
    let (mut alloc, mut memory) = new_memory();
    let mut object = VmoObject::new(Vmo::new(0x2000), VmoId(3));
    let mut caller = Some(HandleTable::new());
    let mut space = Some(VirtMemManager::over(Pager::new(PhysAddr(0x1000))));
    let mut pages = Pages::new();
    let get = VmoRequest::GetPage { offset: 0x1000 };
    let got = object.invoke(get, &mut caller, &mut space, &mut alloc, &mut memory, &mut pages);
    assert!(matches!(got, Ok(VmoReply::Value(frame)) if frame != 0));
    let past = VmoRequest::GetPage { offset: 0x2000 };
    let got = object.invoke(past, &mut caller, &mut space, &mut alloc, &mut memory, &mut pages);
    assert!(matches!(got, Err(InvocationError::InvalidArgument)));
    let resize = VmoRequest::Resize { new_size: 0x3000 };
    let got = object.invoke(resize, &mut caller, &mut space, &mut alloc, &mut memory, &mut pages);
    assert!(matches!(got, Ok(VmoReply::Value(0))));
    assert_eq!(object.vmo.size, 0x3000);
    let copy = VmoRequest::Clone { offset: 0, len: 0x1000, object: 8, id: VmoId(4) };
    let got = object.invoke(copy, &mut caller, &mut space, &mut alloc, &mut memory, &mut pages);
    match got {
        Ok(VmoReply::Clone(handle, child)) => {
            assert_eq!(child.id, VmoId(4));
            assert_eq!(caller.as_ref().unwrap().resolve(handle, AccessRights::all()), Ok(8));
        },
        _ => panic!(),
    }
    let place = VmoRequest::MapIntoProc { vaddr: 0, len: 0x3000, vm_flags: 1 };
    let got = object.invoke(place, &mut caller, &mut space, &mut alloc, &mut memory, &mut pages);
    assert!(matches!(got, Ok(VmoReply::Value(0x4000_0000))));
    let got = object.invoke(place, &mut caller, &mut None, &mut alloc, &mut memory, &mut pages);
    assert!(matches!(got, Err(InvocationError::UnsupportedOperation)));
    let other = VmoRequest::Other;
    let got = object.invoke(other, &mut caller, &mut space, &mut alloc, &mut memory, &mut pages);
    assert!(matches!(got, Err(InvocationError::UnsupportedOperation)));
}

#[test]
fn regions_change_by_transactions() {
    let mut vmm = VirtMemManager::over(Pager::new(PhysAddr(0x1000)));
    let mut pages = Pages::new();
    let base = 0x4000_0000;
    let backing = VmaBacking::Vmo(VmoId(1));
    assert_eq!(
        vmm.map_at(base, 0x4000, VmOptions::user_rw(), backing, 0, MapBehavior::RequireVacant, &mut pages),
        Ok(base)
    );
    assert_eq!(
        vmm.map_at(base, 0x1000, VmOptions::user_rw(), backing, 0, MapBehavior::RequireVacant, &mut pages),
        Err(VmError::Overlap)
    );
    vmm.unmap_range(base + 0x1000, 0x1000, &mut pages).unwrap();
    assert!(vmm.find_vma(base + 0x1000).is_err());
    assert_eq!(vmm.find_vma(base + 0x2000).ok().unwrap().value.backing_offset, 0x2000);
    pages.fail = true;
    assert_eq!(vmm.unmap_range(base, 0x1000, &mut pages), Err(VmError::MappingFailed));
    assert!(vmm.find_vma(base).is_ok());
    pages.fail = false;
    let ro = VmOptions::user_ro().permissions;
    vmm.protect_range(base + 0x2000, 0x1000, ro, &mut pages).unwrap();
    assert_eq!(vmm.find_vma(base + 0x2000).ok().unwrap().value.permissions, ro);
    assert!(vmm.validate());
}

#[test]
fn page_faults_are_answered() {
    let mut vmm = VirtMemManager::over(Pager::new(PhysAddr(0x1000)));
    let mut pages = Pages::new();
    let base = 0x4000_0000;
    let backing = VmaBacking::Vmo(VmoId(1));
    vmm.map_at(base, 0x4000, VmOptions::user_ro(), backing, 0, MapBehavior::RequireVacant, &mut pages)
        .unwrap();
    assert_eq!(
        vmm.fault_target(base + 0x2345, 4),
        Ok(FaultTarget {
            vmo: VmoId(1),
            backing_offset: 0x2000,
            page: base + 0x2000,
            permissions: VmPermissions(VmPermissions::USER),
        })
    );
    assert_eq!(vmm.fault_target(base, 6), Err(FaultError::AccessDenied));
    assert_eq!(vmm.fault_target(base - 1, 4), Err(FaultError::InvalidAddress));
    assert!(vmm.handle_page_fault(base, 4, &mut OneVmo(Some(0x9000)), &mut pages).is_ok());
    assert_eq!(pages.steps.len(), 1);
    assert_eq!(
        vmm.handle_page_fault(base, 4, &mut OneVmo(None), &mut pages),
        Err(FaultError::OutOfMemory)
    );
    assert!(handle_page_fault(None, base, 4, &mut OneVmo(None), &mut pages).is_err());
}

#[test]
fn page_tables_follow_the_regions() {
    let (frames, memory) = new_memory();
    let (vmo_frames, vmo_memory) = new_memory();
    let mut pages = TablePages::new(Pager::new(PhysAddr(0)), memory, frames);
    let mut vmos = VmoTable::new(vec![Vmo::new(0), Vmo::new(0x4000)], vmo_frames, vmo_memory);
    let mut vmm = VirtMemManager::over(Pager::new(PhysAddr(0)));
    let base = 0x4000_0000;
    let backing = VmaBacking::Vmo(VmoId(1));
    vmm.map_at(base, 0x4000, VmOptions::user_rw(), backing, 0, MapBehavior::RequireVacant, &mut pages)
        .unwrap();
    vmm.handle_page_fault(base + 0x1234, 6, &mut vmos, &mut pages).unwrap();
    let frame = *vmos.vmos[1].pages.get(&0x1000).unwrap();
    assert_ne!(frame, 0);
    let (phys, size, flags) =
        pages.pager.translate(&pages.memory, VirtAddr(base + 0x1234)).unwrap();
    assert_eq!(phys, PhysAddr(frame + 0x234));
    assert_eq!(size, PageSize::Size4K);
    let rw = VmPermissions(VmPermissions::USER | VmPermissions::WRITE).to_hardware_flags();
    assert!(flags.contains(rw));
    assert_eq!(
        vmm.handle_page_fault(base + 0x1000, 6, &mut vmos, &mut pages),
        Err(FaultError::OutOfMemory)
    );
    let ro = VmOptions::user_ro().permissions;
    vmm.protect_range(base, 0x4000, ro, &mut pages).unwrap();
    let (_, _, flags) = pages.pager.translate(&pages.memory, VirtAddr(base + 0x1000)).unwrap();
    assert!(!flags.contains(PageFlags(PageFlags::WRITABLE)));
    vmm.unmap_range(base + 0x1000, 0x1000, &mut pages).unwrap();
    assert!(pages.pager.translate(&pages.memory, VirtAddr(base + 0x1000)).is_none());
    assert_eq!(pages.pending, vec![(base, 0x4000), (base + 0x1000, 0x1000)]);
}

#[test]
fn large_page_is_not_split_in_place() {
    let (frames, memory) = new_memory();
    let mut pages = TablePages::new(Pager::new(PhysAddr(0)), memory, frames);
    let demote = PageStep::Demote { virt: 0x4000_0000, from: PageSize::Size2M };
    assert_eq!(pages.apply(demote), Err(PagerError::NotMapped));
    let install = PageStep::Install {
        virt: 0x4000_0000,
        phys: 0x20_0000,
        page_size: PageSize::Size2M,
        permissions: VmPermissions(VmPermissions::USER),
    };
    assert_eq!(pages.apply(install), Ok(()));
    assert_eq!(pages.apply(install), Err(PagerError::AlreadyMapped));
    assert_eq!(pages.apply(demote), Err(PagerError::HugePageClash));
    let unmap = PageStep::Unmap { virt: 0x4000_0000, page_size: PageSize::Size4K };
    assert_eq!(pages.apply(unmap), Err(PagerError::HugePageClash));
    let unmap = PageStep::Unmap { virt: 0x4000_0000, page_size: PageSize::Size2M };
    assert_eq!(pages.apply(unmap), Ok(()));
    assert_eq!(pages.apply(unmap), Err(PagerError::NotMapped));
}

#[test]
fn operations_are_taken_page_by_page() {
    let op = PagerOp::MapRange {
        start: 0x1000,
        end: 0x3000,
        phys: 0x8000,
        page_size: PageSize::Size4K,
        permissions: VmPermissions(1),
    };
    let steps = page_steps(op);
    assert_eq!(steps.len(), 2);
    assert_eq!(
        steps[1],
        PageStep::Install {
            virt: 0x2000,
            phys: 0x9000,
            page_size: PageSize::Size4K,
            permissions: VmPermissions(1),
        }
    );
}

#[test]
fn shootdown_covers_all_operations() {
    let ops = vec![
        PagerOp::Unmap { start: 0x3000, end: 0x5000, page_size: PageSize::Size4K },
        PagerOp::Unmap { start: 0x1000, end: 0x2000, page_size: PageSize::Size4K },
    ];
    assert_eq!(shootdown_range(&ops), Some((0x1000, 0x4000)));
    assert_eq!(shootdown_range(&vec![]), None);
}

#[test]
fn books_are_kept() {
    let mut books = VmAccounting::new();
    books.add_reserved(100);
    books.sub_reserved(30);
    books.add_committed(50);
    books.add_resident(20, VmaChargeKind::Private);
    let snapshot = books.snapshot();
    assert_eq!(snapshot.reserved_bytes, 70);
    assert_eq!(snapshot.committed_bytes, 50);
    assert_eq!(snapshot.resident_bytes, 20);
    assert_eq!(snapshot.private_bytes, 20);
}

#[test]
fn heap_pages_come_from_the_direct_map() {
    let (mut alloc, _) = new_memory();
    let provider = KernelPageProvider {};
    let offset = 0x1_0000_0000;
    let one = provider.allocate_pages(&mut alloc, 4096, offset).unwrap();
    assert!(one > offset);
    let two = provider.allocate_pages(&mut alloc, 8192, offset).unwrap();
    assert_eq!(two % 8192, 0);
    provider.free_pages(&mut alloc, two, 8192, offset);
    provider.free_pages(&mut alloc, one, 4096, offset);
    assert_eq!(provider.allocate_pages(&mut alloc, 4096, offset), Some(one));
}

#[test]
fn heap_counts_what_it_hands_out() {
    let mut heap = KernelAllocatorWrapper::new();
    heap.note_alloc(64, true);
    heap.note_alloc(100, false);
    heap.note_alloc(36, true);
    assert_eq!(kernel_heap_allocated(&heap), 100);
    heap.note_dealloc(64);
    assert_eq!(kernel_heap_allocated(&heap), 36);
}

#[test]
fn page_of_any_size_is_unmapped_once() {
    for size in [PageSize::Size4K, PageSize::Size2M, PageSize::Size1G] {
        let (mut alloc, mut memory) = new_memory();
        let root = alloc.allocate_frame().unwrap();
        PageTable::from_phys(&mut memory, PhysAddr(root)).zero();
        let mut pager = Pager::new(PhysAddr(root));
        let virt = VirtAddr(0x40_4000_0000);
        let flags = PageFlags(PageFlags::WRITABLE);
        let next = alloc.allocate_frame().unwrap();
        alloc.deallocate_frame(next);
        pager
            .map_page(&mut memory, virt, PhysAddr(0x4000_0000), flags, size, &mut alloc)
            .unwrap();
        assert_eq!(pager.unmap_page_no_flush(&mut memory, virt, size, &mut alloc), Ok(()));
        assert!(pager.translate(&memory, virt).is_none());
        let table = read_frame(&memory, root);
        assert_eq!(
            pager.unmap_page_no_flush(&mut memory, virt, size, &mut alloc),
            Err(PagerError::NotMapped)
        );
        assert_eq!(read_frame(&memory, root), table);
        assert_eq!(alloc.allocate_frame(), Some(next));
    }
}

#[test]
fn new_address_space_has_the_upper_half_of_the_kernel() {
    let (mut alloc, mut memory) = new_memory();
    let kernel = alloc.allocate_frame().unwrap();
    PageTable::from_phys(&mut memory, PhysAddr(kernel)).zero();
    let mut pager = Pager::new(PhysAddr(kernel));
    let flags = PageFlags(PageFlags::WRITABLE);
    let (low, high) = (VirtAddr(0x4000_1000), VirtAddr(0xFFFF_8000_0000_1000));
    for virt in [low, high] {
        pager
            .map_page(&mut memory, virt, PhysAddr(0x9000), flags, PageSize::Size4K, &mut alloc)
            .unwrap();
    }
    let stale = alloc.allocate_frame().unwrap();
    write_frame(&mut memory, stale, &vec![0xFF; 4096]);
    alloc.deallocate_frame(stale);
    let vmm = VirtMemManager::new(&mut alloc, &mut memory, PhysAddr(kernel)).unwrap();
    assert_eq!(vmm.address_space_root(), stale);
    let pager = Pager::new(PhysAddr(stale));
    assert!(pager.translate(&memory, low).is_none());
    assert_eq!(pager.translate(&memory, high).unwrap().0, PhysAddr(0x9000));
    let other = VirtMemManager2::new(&mut alloc, &mut memory, PhysAddr(kernel)).unwrap();
    assert_ne!(other.address_space_root(), stale);
    let pager = Pager::new(PhysAddr(other.address_space_root()));
    assert!(pager.translate(&memory, low).is_none());
    assert_eq!(pager.translate(&memory, high).unwrap().0, PhysAddr(0x9000));
}
