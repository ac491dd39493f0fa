use vespertine::common::bytes::{put16, put32};
use vespertine::hal::mmu::pager::{Pager, PagerError, PhysMemory};
use vespertine::hal::mmu::PhysAddr;
use vespertine::memory::frames::{read_frame, write_frame};
use vespertine::memory::pmm::Allocator;
use vespertine::memory::vmm::{Flushes, PageLog, PageNumber, PageOps, PageStep, VirtMemManager};
use vespertine::memory::vmm2::types::{VmPermissions, VmoId};
use vespertine::memory::vmo::Vmo;
use vespertine::memory::PCAllocator;
use vespertine::hal::mmu::FrameAllocator;
use vespertine::program::parser::Elf64_Ehdr;
use vespertine::program::segment::{fill_segment, map_segments};
use vespertine::program::{
    cleared_tail, find_interpreter, header_read_size, load_elf, map_elf_segments, page_copies,
    segment_permissions, LoaderError, PageCopy, SegmentPlan, SegmentSource, INTERPRETER_BASE,
};

fn put64(s: &mut Vec<u8>, at: usize, x: u64) {
    put32(s, at, (x & 0xFFFF_FFFF) as u32);
    put32(s, at + 4, (x >> 32) as u32);
}

/// A file header with room for four program headers and a path behind them.
fn image(entry: u64) -> Vec<u8> {
    let mut s = vec![0u8; 400];
    s[0] = 0x7F;
    s[1] = b'E';
    s[2] = b'L';
    s[3] = b'F';
    s[4] = 2;
    s[5] = 1;
    put16(&mut s, 16, 2);
    put16(&mut s, 18, 0x3E);
    put64(&mut s, 24, entry);
    put64(&mut s, 32, 64);
    s
}

fn add(s: &mut Vec<u8>, kind: u32, flags: u32, offset: u64, vaddr: u64, filesz: u64, memsz: u64) {
    let n = s[56] as usize;
    let at = 64 + 56 * n;
    put32(s, at, kind);
    put32(s, at + 4, flags);
    put64(s, at + 8, offset);
    put64(s, at + 16, vaddr);
    put64(s, at + 32, filesz);
    put64(s, at + 40, memsz);
    s[56] = n as u8 + 1;
}

#[test]
fn header_is_checked() {
    let good = image(0x40_1000);
    assert_eq!(Elf64_Ehdr::from_bytes(&good).unwrap().e_entry, 0x40_1000);
    let short = good[0..63].to_vec();
    assert_eq!(Elf64_Ehdr::from_bytes(&short), Err(LoaderError::InvalidBuffer));
    let mut bad = good.clone();
    bad[0] = 0;
    assert_eq!(Elf64_Ehdr::from_bytes(&bad), Err(LoaderError::InvalidMagicNumbers));
    let mut bad = good.clone();
    bad[4] = 1;
    assert_eq!(Elf64_Ehdr::from_bytes(&bad), Err(LoaderError::Not64BitElf));
    let mut bad = good.clone();
    bad[5] = 2;
    assert_eq!(Elf64_Ehdr::from_bytes(&bad), Err(LoaderError::NotAWashingMachine));
    let mut bad = good.clone();
    bad[7] = 9;
    assert_eq!(Elf64_Ehdr::from_bytes(&bad), Err(LoaderError::UnsupportedABI(9)));
    let mut bad = good.clone();
    bad[16] = 1;
    assert_eq!(Elf64_Ehdr::from_bytes(&bad), Err(LoaderError::UnsupportedElfType(1)));
    let mut bad = good.clone();
    bad[18] = 3;
    assert_eq!(Elf64_Ehdr::from_bytes(&bad), Err(LoaderError::UnsupportedArch(3)));
}

#[test]
fn segments_are_planned() {
    let mut s = image(0x40_1000);
    add(&mut s, 1, 5, 0, 0x40_0000, 0x800, 0x800);
    add(&mut s, 1, 6, 0x1234, 0x60_0234, 0x100, 0x3000);
    add(&mut s, 1, 6, 0, 0x70_0000, 0, 0x10);
    let header = Elf64_Ehdr::from_bytes(&s).unwrap();
    let map = map_elf_segments(&header, &s, 0);
    assert_eq!(map.phdr_addr, Ok(0x40_0040));
    assert_eq!(
        map.segments,
        vec![
            SegmentPlan {
                vaddr: 0x40_0000,
                size: 0x1000,
                writable: false,
                executable: true,
                source: SegmentSource::File { file_offset: 0 },
            },
            SegmentPlan {
                vaddr: 0x60_0000,
                size: 0x4000,
                writable: true,
                executable: false,
                source: SegmentSource::Copy { file_offset: 0x1000, copied: 0x334 },
            },
            SegmentPlan {
                vaddr: 0x70_0000,
                size: 0x1000,
                writable: true,
                executable: false,
                source: SegmentSource::Zeroes,
            },
        ]
    );
    let user = VmPermissions::USER;
    assert_eq!(segment_permissions(&map.segments[0]).0, user | VmPermissions::EXECUTE);
    assert_eq!(segment_permissions(&map.segments[1]).0, user | VmPermissions::WRITE);
}

#[test]
fn size_in_the_file_counts_only_where_it_is_copied() {
    let mut s = image(0);
    add(&mut s, 1, 5, 0x10, 0x40_0010, u64::MAX, 0x800);
    let header = Elf64_Ehdr::from_bytes(&s).unwrap();
    let map = map_elf_segments(&header, &s, 0);
    assert_eq!(map.segments.len(), 1);
    assert_eq!(map.segments[0].source, SegmentSource::File { file_offset: 0 });
    let mut s = image(0);
    add(&mut s, 1, 6, 0x10, 0x40_0010, u64::MAX, 0x800);
    let header = Elf64_Ehdr::from_bytes(&s).unwrap();
    let map = map_elf_segments(&header, &s, 0);
    assert_eq!(map.phdr_addr, Err(LoaderError::FileReadError));
}

#[test]
fn misaligned_segment_stops_the_mapping() {
    let mut s = image(0);
    add(&mut s, 1, 5, 0, 0x40_0000, 0x800, 0x800);
    add(&mut s, 1, 6, 0x1000, 0x60_0010, 0x100, 0x100);
    add(&mut s, 1, 5, 0, 0x80_0000, 0x800, 0x800);
    let header = Elf64_Ehdr::from_bytes(&s).unwrap();
    let map = map_elf_segments(&header, &s, 0);
    assert_eq!(map.phdr_addr, Err(LoaderError::FileReadError));
    assert_eq!(map.segments.len(), 1);
    s[56] = 200;
    let header = Elf64_Ehdr::from_bytes(&s).unwrap();
    assert_eq!(map_elf_segments(&header, &s, 0).phdr_addr, Err(LoaderError::InvalidBuffer));
}

#[test]
fn program_headers_are_where_they_say() {
    let mut s = image(0);
    add(&mut s, 6, 4, 64, 0x40_0040, 56, 56);
    let header = Elf64_Ehdr::from_bytes(&s).unwrap();
    assert_eq!(map_elf_segments(&header, &s, 0).phdr_addr, Ok(0x40_0040));
}

#[test]
fn interpreter_is_named() {
    let mut s = image(0x1000);
    add(&mut s, 3, 4, 300, 0, 10, 10);
    let path = b"/ld.so";
    for i in 0..path.len() {
        s[300 + i] = path[i];
    }
    let header = Elf64_Ehdr::from_bytes(&s).unwrap();
    assert_eq!(find_interpreter(&header, &s), Ok(Some(path.to_vec())));
    s[302] = 0xFF;
    assert_eq!(find_interpreter(&header, &s), Ok(None));
}

#[test]
fn program_with_interpreter_is_loaded() {
    let mut s = image(0x40_1000);
    add(&mut s, 1, 5, 0, 0x40_0000, 0x100, 0x100);
    let plain = load_elf(&s, None);
    let result = plain.result.unwrap();
    assert_eq!(result.entry_point, 0x40_1000);
    assert_eq!(result.base_addr, 0);
    assert_eq!(result.phnum, 1);
    assert_eq!(result.interpreter_entry, None);

    add(&mut s, 3, 4, 300, 0, 1, 1);
    s[300] = b'i';
    assert_eq!(load_elf(&s, None).result, Err(LoaderError::FileReadError));
    let mut interp = image(0x500);
    add(&mut interp, 1, 5, 0, 0, 0x100, 0x100);
    let plan = load_elf(&s, Some(interp));
    let result = plan.result.unwrap();
    assert_eq!(result.base_addr, INTERPRETER_BASE);
    assert_eq!(result.interpreter_entry, Some(INTERPRETER_BASE + 0x500));
    assert_eq!(plan.interpreter[0].vaddr, INTERPRETER_BASE);
    assert_eq!(load_elf(&s, Some(vec![])).result, Err(LoaderError::InvalidBuffer));
}

#[test]
fn pages_are_copied_whole() {
    assert_eq!(
        page_copies(0x3000, 0x1001),
        vec![
            PageCopy { file_offset: 0x3000, target_offset: 0 },
            PageCopy { file_offset: 0x4000, target_offset: 0x1000 },
        ]
    );
    assert_eq!(cleared_tail(0x1001), Some((0x1000, 1, 4095)));
    assert_eq!(cleared_tail(0x2000), None);
    assert_eq!(header_read_size(100), 100);
    assert_eq!(header_read_size(5000), 4096);
}

#[test]
fn segment_is_filled_and_its_tail_cleared() {
    let mut usable = vec![true; 1024];
    usable[0] = false;
    let mut pmm = Allocator::new();
    pmm.init(1024, &usable, 0x1000);
    let mut alloc = PCAllocator::new(pmm);
    let mut memory = PhysMemory::new(1024);
    let mut frames = Vec::new();
    for i in 0..2u8 {
        let frame = alloc.allocate_frame().unwrap();
        write_frame(&mut memory, frame, &vec![i + 1; 4096]);
        frames.push(frame);
    }
    let mut vmo = Vmo::new(0x3000);
    fill_segment(&mut vmo, &frames, 0x1010, &mut alloc, &mut memory).unwrap();
    let first = vmo.request_page(0, &mut alloc, &mut memory).unwrap();
    assert_eq!(read_frame(&memory, first), vec![1u8; 4096]);
    let second = vmo.request_page(0x1000, &mut alloc, &mut memory).unwrap();
    let page = read_frame(&memory, second);
    assert_eq!(page[0..16].to_vec(), vec![2u8; 16]);
    assert_eq!(page[16..].to_vec(), vec![0u8; 4080]);
    assert_eq!(read_frame(&memory, frames[1]), vec![2u8; 4096]);
}

#[test]
fn segment_takes_no_page_past_its_end() {
    let mut usable = vec![true; 1024];
    usable[0] = false;
    let mut pmm = Allocator::new();
    pmm.init(1024, &usable, 0x1000);
    let mut alloc = PCAllocator::new(pmm);
    let mut memory = PhysMemory::new(1024);
    let mut frames = Vec::new();
    for i in 0..3u8 {
        let frame = alloc.allocate_frame().unwrap();
        write_frame(&mut memory, frame, &vec![i + 1; 4096]);
        frames.push(frame);
    }
    let mut vmo = Vmo::new(0x1000);
    let filled = fill_segment(&mut vmo, &frames, 0x3000, &mut alloc, &mut memory);
    assert_eq!(filled, Err(LoaderError::FileReadError));
    let first = vmo.request_page(0, &mut alloc, &mut memory).unwrap();
    assert_eq!(read_frame(&memory, first), vec![1u8; 4096]);
}

#[test]
fn segment_larger_in_the_file_than_in_memory_is_refused() {
    let mut s = image(0);
    add(&mut s, 1, 6, 0x1000, 0x60_0000, 0x3000, 0x1000);
    let header = Elf64_Ehdr::from_bytes(&s).unwrap();
    let map = map_elf_segments(&header, &s, 0);
    assert_eq!(map.phdr_addr, Err(LoaderError::FileReadError));
    assert_eq!(map.segments.len(), 0);
    let mut s = image(0);
    add(&mut s, 1, 6, 0x1000, 0x60_0000, 0x1000, 0xF00);
    let header = Elf64_Ehdr::from_bytes(&s).unwrap();
    let map = map_elf_segments(&header, &s, 0);
    assert_eq!(map.segments.len(), 1);
    assert_eq!(map.segments[0].source, SegmentSource::Copy { file_offset: 0x1000, copied: 0x1000 });
}

struct NoPages;

impl PageOps for NoPages {
    fn ready(&self) -> bool {
        true
    }

    fn log(&self) -> PageLog {
        unreachable!()
    }

    fn flushes(&self) -> Flushes {
        unreachable!()
    }

    fn maps(&self, _page: PageNumber) -> bool {
        unreachable!()
    }

    fn apply(&mut self, _step: PageStep) -> Result<(), PagerError> {
        Ok(())
    }

    fn shootdown(&mut self, _start: u64, _size: u64) {}
}

#[test]
fn segments_are_mapped_where_nothing_is() {
    let mut vmm = VirtMemManager::over(Pager::new(PhysAddr(0x1000)));
    let plan = SegmentPlan {
        vaddr: 0x40_0000,
        size: 0x2000,
        writable: false,
        executable: true,
        source: SegmentSource::File { file_offset: 0x3000 },
    };
    let plans = vec![plan];
    assert!(map_segments(&mut vmm, &plans, &vec![VmoId(5)], &mut NoPages).is_ok());
    let vma = vmm.find_vma(0x40_1000).expect("segment missing");
    assert_eq!(vma.start, 0x40_0000);
    assert_eq!(vma.end, 0x40_2000);
    assert_eq!(vma.value.backing_offset, 0x3000);
    assert_eq!(
        map_segments(&mut vmm, &plans, &vec![VmoId(5)], &mut NoPages),
        Err(LoaderError::FileReadError)
    );
}
