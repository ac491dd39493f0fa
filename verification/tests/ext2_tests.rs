use vespertine::common::bytes::{get16, get32, put16, put32};
use vespertine::hal::mmu::pager::{Pager, PagerError, PhysMemory};
use vespertine::hal::mmu::{FrameAllocator, PhysAddr};
use vespertine::memory::frames::read_frame;
use vespertine::memory::pmm::Allocator;
use vespertine::memory::vmm::{Flushes, PageLog, PageNumber, PageOps, PageStep, VirtMemManager};
use vespertine::memory::vmm2::types::VmoId;
use vespertine::memory::vmo::{FileVmo, Vmo};
use vespertine::memory::PCAllocator;
use vespertine::object::handle::{HandleID, HandleTable};
use vespertine::object::invoke::InvocationError;
use vespertine::object::packet::PacketType;
use vespertine::object::rights::AccessRights;
use vespertine::object::vmo::{VmoReply, VmoRequest};
use vespertine::program::header::read_elf_header;
use vespertine::program::segment::{load_segment, segment_vmo};
use vespertine::program::{LoaderError, SegmentPlan, SegmentSource};
use vespertine::storage::blockdev::{BlockDevice, Content, MemoryDisk};
use vespertine::process::procman::CallingProcess;
use vespertine::process::Credentials;
use vespertine::storage::fs::ext2::obj::active::ActiveObjects;
use vespertine::storage::fs::ext2::obj::dir::{DirectoryReply, DirectoryRequest, Ext2Directory};
use vespertine::storage::fs::ext2::obj::file::{Ext2File, FileReply, FileRequest};
use vespertine::storage::fs::ext2::obj::listing::{packets, DirEntryType, ListedName};
use vespertine::storage::fs::ext2::structs::{DiskInode, EXT2_MAGIC};
use vespertine::storage::fs::ext2::Ext2FileSystem;

const BLOCK: usize = 1024;

/// A volume of 256 blocks of 1 KiB with 32 inodes and an empty root directory
/// in block 9.
fn image() -> Vec<u8> {
    let mut disk = vec![0u8; 256 * BLOCK];
    let sb = 1024;
    put32(&mut disk, sb, 32);
    put32(&mut disk, sb + 4, 256);
    put32(&mut disk, sb + 12, 246);
    put32(&mut disk, sb + 16, 22);
    put32(&mut disk, sb + 24, 0);
    put32(&mut disk, sb + 32, 256);
    put32(&mut disk, sb + 40, 32);
    put16(&mut disk, sb + 56, EXT2_MAGIC);
    let group = 2 * BLOCK;
    put32(&mut disk, group, 3);
    put32(&mut disk, group + 4, 4);
    put32(&mut disk, group + 8, 5);
    put16(&mut disk, group + 12, 246);
    put16(&mut disk, group + 14, 22);
    put16(&mut disk, group + 16, 1);
    disk[3 * BLOCK] = 0xFF;
    disk[3 * BLOCK + 1] = 0x01;
    disk[4 * BLOCK] = 0xFF;
    disk[4 * BLOCK + 1] = 0x03;
    let root = 5 * BLOCK + 128;
    put16(&mut disk, root, 0x41ED);
    put32(&mut disk, root + 4, 1024);
    put16(&mut disk, root + 26, 2);
    put32(&mut disk, root + 28, 2);
    put32(&mut disk, root + 40, 9);
    let dir = 9 * BLOCK;
    put32(&mut disk, dir, 2);
    put16(&mut disk, dir + 4, 12);
    disk[dir + 6] = 1;
    disk[dir + 7] = 2;
    disk[dir + 8] = b'.';
    put32(&mut disk, dir + 12, 2);
    put16(&mut disk, dir + 16, 1012);
    disk[dir + 18] = 2;
    disk[dir + 19] = 2;
    disk[dir + 20] = b'.';
    disk[dir + 21] = b'.';
    disk
}

fn mounted() -> Ext2FileSystem<MemoryDisk> {
    Ext2FileSystem::mount(MemoryDisk::new(image())).expect("volume cannot be mounted")
}

fn root_of(fs: &Ext2FileSystem<MemoryDisk>) -> Ext2Directory {
    Ext2Directory { inode_num: 2, inode_data: fs.read_inode(2).unwrap() }
}

fn name(s: &str) -> Vec<u8> {
    s.as_bytes().to_vec()
}

fn new_memory() -> (PCAllocator, PhysMemory) {
    let mut usable = vec![true; 1024];
    usable[0] = false;
    let mut pmm = Allocator::new();
    pmm.init(1024, &usable, 0x1000);
    (PCAllocator::new(pmm), PhysMemory::new(1024))
}

fn open_file(num: u32, inode: DiskInode) -> Ext2File {
    Ext2File { inode_num: num, inode_data: inode, file_vmo: FileVmo::new(inode.size as u64) }
}

fn free_blocks(fs: &Ext2FileSystem<MemoryDisk>) -> (u32, u16) {
    let sb = fs.read_block(1).unwrap();
    let groups = fs.read_block(2).unwrap();
    (get32(&sb, 12), get16(&groups, 12))
}

#[test]
fn volume_is_mounted() {
    let fs = mounted();
    assert_eq!(fs.block_size, 1024);
    assert_eq!(fs.inodes_per_group, 32);
    let root = fs.read_inode(2).unwrap();
    assert_eq!(root.mode, 0x41ED);
    assert_eq!(root.data.direct[0], 9);
}

#[test]
fn what_is_no_volume_is_not_mounted() {
    let mut disk = image();
    put16(&mut disk, 1024 + 56, 0x1234);
    assert!(Ext2FileSystem::mount(MemoryDisk::new(disk)).is_err());
    let mut disk = image();
    put32(&mut disk, 1024 + 40, 0);
    assert!(Ext2FileSystem::mount(MemoryDisk::new(disk)).is_err());
    let mut disk = image();
    put32(&mut disk, 1024 + 24, 3);
    assert!(Ext2FileSystem::mount(MemoryDisk::new(disk)).is_err());
    assert!(Ext2FileSystem::mount(MemoryDisk::new(vec![0; 512])).is_err());
}

#[test]
fn inode_zero_does_not_exist() {
    let fs = mounted();
    assert!(fs.read_inode(0).is_err());
    assert!(fs.read_inode(33).is_err());
}

#[test]
fn stored_inode_reads_back() {
    let mut fs = mounted();
    let mut inode = fs.read_inode(11).unwrap();
    inode.mode = 0x81A4;
    inode.size = 77;
    inode.data.direct[11] = 5;
    inode.data.triple_indirect = 6;
    fs.write_inode(11, &inode).unwrap();
    let read = fs.read_inode(11).unwrap();
    assert_eq!(read.mode, 0x81A4);
    assert_eq!(read.size, 77);
    assert_eq!(read.data.direct[11], 5);
    assert_eq!(read.data.triple_indirect, 6);
    assert_eq!(fs.read_inode(10).unwrap().size, 0);
}

#[test]
fn block_zero_reads_as_zeroes() {
    let fs = mounted();
    assert_eq!(fs.read_block(0).unwrap(), vec![0u8; 1024]);
    assert!(fs.read_block(256).is_err());
}

#[test]
fn giving_a_block_back_undoes_taking_it() {
    let mut fs = mounted();
    let before = fs.read_block(3).unwrap();
    assert_eq!(free_blocks(&fs), (246, 246));
    let block = fs.allocate_block().unwrap();
    assert_eq!(block, 10);
    assert_eq!(free_blocks(&fs), (245, 245));
    assert_eq!(fs.allocate_block().unwrap(), 11);
    fs.free_block(11).unwrap();
    fs.free_block(block).unwrap();
    assert_eq!(free_blocks(&fs), (246, 246));
    assert_eq!(fs.read_block(3).unwrap(), before);
    assert!(fs.free_block(block).is_err());
}

#[test]
fn inodes_are_taken_and_given_back() {
    let mut fs = mounted();
    assert_eq!(fs.allocate_inode(false).unwrap(), 11);
    assert_eq!(fs.allocate_inode(true).unwrap(), 12);
    let groups = fs.read_block(2).unwrap();
    assert_eq!(get16(&groups, 14), 20);
    assert_eq!(get16(&groups, 16), 2);
    fs.free_inode(12, true).unwrap();
    fs.free_inode(11, false).unwrap();
    let groups = fs.read_block(2).unwrap();
    assert_eq!(get16(&groups, 14), 22);
    assert_eq!(get16(&groups, 16), 1);
    assert!(fs.free_inode(11, false).is_err());
    assert!(fs.free_inode(0, false).is_err());
}

#[test]
fn full_volume_has_no_block() {
    let mut disk = image();
    for i in 0..1024 {
        disk[3 * BLOCK + i] = 0xFF;
    }
    let mut fs = Ext2FileSystem::mount(MemoryDisk::new(disk)).unwrap();
    assert!(fs.allocate_block().is_err());
}

#[test]
fn taken_file_blocks_are_resolved() {
    let mut fs = mounted();
    let mut inode = fs.read_inode(11).unwrap();
    for idx in [0u64, 11, 12, 267, 268, 12 + 256 + 300, 12 + 256 + 65536 + 7] {
        assert_eq!(fs.resolve_file_block(&inode, idx).unwrap(), 0);
        let block = fs.allocate_file_block(&mut inode, idx).unwrap();
        assert_ne!(block, 0);
        assert_eq!(fs.resolve_file_block(&inode, idx).unwrap(), block);
        assert_eq!(fs.allocate_file_block(&mut inode, idx).unwrap(), block);
    }
    assert_eq!(inode.blocks, 2 * (7 + 1 + 3 + 3));
    for idx in [0u64, 11, 12, 267, 268, 12 + 256 + 300, 12 + 256 + 65536 + 7] {
        fs.clear_file_block(&mut inode, idx).unwrap();
        assert_eq!(fs.resolve_file_block(&inode, idx).unwrap(), 0);
    }
    assert_eq!(inode.blocks, 0);
    assert_eq!(inode.data.single_indirect, 0);
    assert_eq!(inode.data.double_indirect, 0);
    assert_eq!(inode.data.triple_indirect, 0);
    assert_eq!(free_blocks(&fs), (246, 246));
}

#[test]
fn block_past_all_pointers_is_refused() {
    let mut fs = mounted();
    let mut inode = fs.read_inode(11).unwrap();
    let past = 12 + 256 + 256 * 256 + 256 * 256 * 256;
    assert!(fs.resolve_file_block(&inode, past).is_err());
    assert!(fs.allocate_file_block(&mut inode, past).is_err());
}

#[test]
fn created_file_is_found_until_it_is_unlinked() {
    let mut fs = mounted();
    let mut root = root_of(&fs);
    let (num, inode) = root.create_child_file(&mut fs, &name("notes.txt"), 7, 1000).unwrap();
    assert_eq!(num, 11);
    assert_eq!(inode.uid, 7);
    assert_eq!(inode.links_count, 1);
    let (found, read) = root.lookup_child(&fs, &name("notes.txt")).unwrap();
    assert_eq!(found, 11);
    assert_eq!(read.mode, inode.mode);
    assert_eq!(fs.lookup_in_dir(&root.inode_data, &name("notes.txt")).unwrap(), Some(11));
    root.unlink_child(&mut fs, &name("notes.txt")).unwrap();
    assert!(matches!(
        root.lookup_child(&fs, &name("notes.txt")),
        Err(InvocationError::PathNotFound)
    ));
    assert_eq!(fs.allocate_inode(false).unwrap(), 11);
}

#[test]
fn new_directory_has_itself_and_its_parent() {
    let mut fs = mounted();
    let mut root = root_of(&fs);
    let (num, inode) = root.create_child_dir(&mut fs, &name("Programs"), 0, 5).unwrap();
    assert_eq!(fs.lookup_in_dir(&inode, &name(".")).unwrap(), Some(num));
    assert_eq!(fs.lookup_in_dir(&inode, &name("..")).unwrap(), Some(2));
    assert_eq!(fs.read_inode(2).unwrap().links_count, 3);
}

#[test]
fn bad_names_are_refused() {
    let mut fs = mounted();
    let mut root = root_of(&fs);
    for bad in ["", ".", "..", "a/b"] {
        assert!(matches!(
            root.create_child_file(&mut fs, &name(bad), 0, 0),
            Err(InvocationError::InvalidArgument)
        ));
    }
    let long = vec![b'x'; 255];
    assert!(matches!(
        root.create_child_file(&mut fs, &long, 0, 0),
        Err(InvocationError::NameTooLong)
    ));
}

#[test]
fn many_entries_take_more_blocks() {
    let mut fs = mounted();
    let mut root = root_of(&fs);
    for i in 0..21 {
        let child = format!("{:0>200}", i).into_bytes();
        root.create_child_file(&mut fs, &child, 0, 0).unwrap();
    }
    assert!(root.inode_data.size > 1024);
    for i in 0..21 {
        let child = format!("{:0>200}", i).into_bytes();
        assert!(root.lookup_child(&fs, &child).is_ok());
    }
    let names = root.list(&fs).unwrap();
    assert_eq!(names.len(), 21);
}

#[test]
fn names_that_are_no_text_are_not_listed() {
    let mut fs = mounted();
    let mut root = root_of(&fs);
    root.create_child_file(&mut fs, &name("plain"), 0, 0).unwrap();
    root.create_child_file(&mut fs, &vec![0xFF, 0xFE, b'x'], 0, 0).unwrap();
    root.create_child_dir(&mut fs, &"s\u{fc}\u{df}".as_bytes().to_vec(), 0, 0).unwrap();
    let names = root.list(&fs).unwrap();
    assert_eq!(names.len(), 2);
    assert_eq!(names[0].name, name("plain"));
    assert_eq!(names[0].file_type, 1);
    assert_eq!(names[1].name, "s\u{fc}\u{df}".as_bytes().to_vec());
    assert_eq!(names[1].file_type, 2);
}

#[test]
fn listing_is_sent_in_packets() {
    let names = vec![
        ListedName { name: name("a"), file_type: 1 },
        ListedName { name: vec![b'b'; 255], file_type: 2 },
        ListedName { name: name("c"), file_type: 7 },
    ];
    let sent = packets(&names);
    assert_eq!(sent.len(), 3);
    assert_eq!(sent[0].entry_type, DirEntryType::File);
    assert!(sent[0].header.has_next);
    assert_eq!(sent[1].entry_type, DirEntryType::Directory);
    assert_eq!(sent[1].name.len(), 254);
    assert_eq!(sent[2].entry_type, DirEntryType::Object);
    assert!(!sent[2].header.has_next);
    for packet in &sent {
        assert_eq!((packet.header.version, packet.header.is_stream), (1, true));
        assert_eq!(packet.header.packet_type, PacketType::DirectoryEntry);
        assert_eq!((packet.header.payload_len, packet.header.reserved), (256, 0));
    }
}

#[test]
fn directory_answers_requests() {
    let mut fs = mounted();
    let mut root = root_of(&fs);
    let all = Ok(AccessRights::all());
    let read = AccessRights(AccessRights::READ);
    let write = AccessRights(AccessRights::WRITE);
    let process = CallingProcess { handles: HandleTable::new(), credentials: Credentials::new(3) };
    let mut caller = Some(process);
    let create = DirectoryRequest::CreateFile(name("f"));
    let made = root.invoke(&mut fs, &create, &mut caller, Ok(read), 9);
    match made {
        Ok(DirectoryReply::Object(handle, num, inode)) => {
            assert_eq!((handle, num, inode.uid), (HandleID(0), 11, 3));
        }
        _ => panic!("no file"),
    }
    let handles = &caller.as_ref().unwrap().handles;
    assert_eq!(handles.resolve(HandleID(0), read), Ok(11));
    assert_eq!(handles.resolve(HandleID(0), write), Err(InvocationError::AccessDenied));
    let other = DirectoryRequest::CreateFile(name("g"));
    let nobody = root.invoke(&mut fs, &other, &mut None, all, 9);
    assert!(matches!(nobody, Err(InvocationError::InvalidHandle)));
    let refused = Err(InvocationError::AccessDenied);
    let denied = root.invoke(&mut fs, &other, &mut caller, refused, 9);
    assert!(matches!(denied, Err(InvocationError::AccessDenied)));
    let lookup = DirectoryRequest::Lookup(name("f"));
    let found = root.invoke(&mut fs, &lookup, &mut caller, all, 9);
    assert!(matches!(found, Ok(DirectoryReply::Object(HandleID(1), 11, _))));
    assert_eq!(caller.as_ref().unwrap().handles.resolve(HandleID(1), write), Ok(11));
    let nobody = root.invoke(&mut fs, &lookup, &mut None, all, 9);
    assert!(matches!(nobody, Err(InvocationError::InvalidHandle)));
    let to_file = DirectoryRequest::List { sink: HandleID(1) };
    match root.invoke(&mut fs, &to_file, &mut caller, all, 9) {
        Ok(DirectoryReply::Listing(packets, sink)) => assert_eq!((packets.len(), sink), (2, 11)),
        _ => panic!("no listing"),
    }
    let closed_to_it = DirectoryRequest::List { sink: HandleID(0) };
    let denied = root.invoke(&mut fs, &closed_to_it, &mut caller, all, 9);
    assert!(matches!(denied, Err(InvocationError::AccessDenied)));
    match root.invoke(&mut fs, &DirectoryRequest::Stat, &mut None, all, 9) {
        Ok(DirectoryReply::Stat(stat)) => assert_eq!(stat.inode, 2),
        _ => panic!("no status"),
    }
    let gone = root.invoke(&mut fs, &DirectoryRequest::Unlink(name("f")), &mut None, all, 9);
    assert!(matches!(gone, Ok(DirectoryReply::Done)));
    let other = root.invoke(&mut fs, &DirectoryRequest::Link, &mut None, all, 9);
    assert!(matches!(other, Err(InvocationError::UnsupportedOperation)));
}

/// A device that takes only so many writes.
struct WornDisk {
    disk: MemoryDisk,
    writes: usize,
}

impl BlockDevice for WornDisk {
    fn content(&self) -> Content {
        unreachable!()
    }

    fn reliable(&self) -> bool {
        false
    }

    fn read_sectors(&self, sector: u64, count: u64) -> Result<Vec<u8>, ()> {
        self.disk.read_sectors(sector, count)
    }

    fn write_sectors(&mut self, sector: u64, data: &Vec<u8>) -> Result<(), ()> {
        if self.writes == 0 {
            return Err(());
        }
        self.writes -= 1;
        self.disk.write_sectors(sector, data)
    }
}

#[test]
fn worn_device_never_claims_what_it_has_not_written() {
    let mut made = 0;
    for writes in 0..24 {
        let device = WornDisk { disk: MemoryDisk::new(image()), writes };
        let mut fs = Ext2FileSystem::mount(device).expect("volume cannot be mounted");
        let mut root = Ext2Directory { inode_num: 2, inode_data: fs.read_inode(2).unwrap() };
        let created = root.create_child_file(&mut fs, &name("new"), 0, 0);
        let disk = fs.cache.device().disk.data().clone();
        let again = Ext2FileSystem::mount(MemoryDisk::new(disk)).unwrap();
        let found = root_of(&again).lookup_child(&again, &name("new"));
        if let Ok((num, _)) = created {
            made += 1;
            assert_eq!(found.unwrap().0, num);
            let gone = root.unlink_child(&mut fs, &name("new"));
            let disk = fs.cache.device().disk.data().clone();
            let again = Ext2FileSystem::mount(MemoryDisk::new(disk)).unwrap();
            let found = root_of(&again).lookup_child(&again, &name("new"));
            assert!(gone.is_err() || found.is_err());
        } else {
            assert!(made == 0);
        }
    }
    assert!(made > 0);
}

#[test]
fn file_reads_back_what_was_written() {
    let mut fs = mounted();
    let mut root = root_of(&fs);
    let (mut alloc, mut memory) = new_memory();
    let (num, inode) = root.create_child_file(&mut fs, &name("data"), 0, 0).unwrap();
    let mut file = open_file(num, inode);
    let mut data = Vec::new();
    for i in 0..9000u32 {
        data.push((i % 251) as u8);
    }
    let count = file.write_bytes_async(&mut fs, 100, &data, &mut alloc, &mut memory).unwrap();
    assert_eq!(count, 9000);
    assert_eq!(file.inode_data.size, 9100);
    let read = file.read_bytes_async(&fs, 100, 20000, &mut alloc, &mut memory).unwrap();
    assert_eq!(read, data);
    let head = file.read_bytes_async(&fs, 0, 100, &mut alloc, &mut memory).unwrap();
    assert_eq!(head, vec![0u8; 100]);
    assert_eq!(file.read_bytes_async(&fs, 9100, 1, &mut alloc, &mut memory).unwrap(), vec![]);
}

#[test]
fn file_that_would_be_too_large_is_refused() {
    let mut fs = mounted();
    let mut root = root_of(&fs);
    let (mut alloc, mut memory) = new_memory();
    let (num, inode) = root.create_child_file(&mut fs, &name("data"), 0, 0).unwrap();
    let mut file = open_file(num, inode);
    let far = file.write_bytes_async(&mut fs, 0xFFFF_FFFF, &vec![1], &mut alloc, &mut memory);
    assert!(matches!(far, Err(InvocationError::InvalidArgument)));
    let far = file.write_bytes_async(&mut fs, u64::MAX, &vec![1], &mut alloc, &mut memory);
    assert!(matches!(far, Err(InvocationError::InvalidArgument)));
    assert_eq!(file.inode_data.size, 0);
}

#[test]
fn blocks_at_every_depth_are_apart() {
    let mut fs = mounted();
    let mut root = root_of(&fs);
    let (mut alloc, mut memory) = new_memory();
    let (num, inode) = root.create_child_file(&mut fs, &name("deep"), 0, 0).unwrap();
    let mut file = open_file(num, inode);
    let blocks = [0u64, 11, 12, 267, 268, 268 + 256, 268 + 65536];
    for (i, block) in blocks.iter().enumerate() {
        let data = vec![i as u8 + 1; 16];
        let at = block * BLOCK as u64;
        file.write_bytes_async(&mut fs, at, &data, &mut alloc, &mut memory).unwrap();
    }
    file.flush_to_disk(&mut fs, &alloc, &memory).unwrap();
    let mut again = open_file(num, fs.read_inode(num).unwrap());
    for (i, block) in blocks.iter().enumerate() {
        let at = block * BLOCK as u64;
        let read = again.read_bytes_async(&fs, at, 16, &mut alloc, &mut memory).unwrap();
        assert_eq!(read, vec![i as u8 + 1; 16]);
    }
}

/// A file of 6000 bytes that is on disk but not in memory.
fn stored_file(fs: &mut Ext2FileSystem<MemoryDisk>) -> Ext2File {
    let mut root = root_of(fs);
    let (mut alloc, mut memory) = new_memory();
    let (num, inode) = root.create_child_file(fs, &name("stored"), 0, 0).unwrap();
    let mut file = open_file(num, inode);
    file.write_bytes_async(fs, 0, &vec![6u8; 6000], &mut alloc, &mut memory).unwrap();
    file.flush_to_disk(fs, &alloc, &memory).unwrap();
    open_file(num, fs.read_inode(num).unwrap())
}

#[test]
fn pages_of_a_file_are_pinned() {
    let mut fs = mounted();
    let mut file = stored_file(&mut fs);
    let (mut alloc, mut memory) = new_memory();
    let node = file.node(&fs);
    let vmo = &mut file.file_vmo;
    assert!(vmo.pin(&node, 4096, 2000, &mut alloc, &mut memory).is_err());
    assert_eq!(vmo.cached(4096), Ok(None));
    let pinned = vmo.pin(&node, 4000, 1000, &mut alloc, &mut memory).unwrap();
    let frames = pinned.phys_addrs().clone();
    assert_eq!(frames.len(), 2);
    assert_eq!(vmo.cached(0), Ok(Some(frames[0])));
    assert_eq!(vmo.cached(4096), Ok(Some(frames[1])));
    let page = read_frame(&memory, frames[1]);
    assert_eq!((page[1903], page[1904]), (6, 0));
    pinned.release(&mut alloc);
}

#[test]
fn copy_of_a_file_holds_what_the_file_does() {
    let mut fs = mounted();
    let mut file = stored_file(&mut fs);
    let (mut alloc, mut memory) = new_memory();
    let node = file.node(&fs);
    let vmo = &mut file.file_vmo;
    let mut copy = vmo.clone_range(&node, 4096, 8192, &mut alloc, &mut memory).unwrap();
    let own = vmo.cached(4096).unwrap().unwrap();
    assert_eq!(vmo.cached(0), Ok(None));
    let first = copy.request_page(0, &mut alloc, &mut memory).unwrap();
    assert_ne!(first, own);
    assert_eq!(read_frame(&memory, first), read_frame(&memory, own));
    assert_eq!(read_frame(&memory, first)[1903], 6);
    let second = copy.request_page(4096, &mut alloc, &mut memory).unwrap();
    assert_eq!(read_frame(&memory, second), vec![0u8; 4096]);
    let far = vmo.clone_range(&node, 0xFFFF_FFFF_FFFF_F000, 8192, &mut alloc, &mut memory);
    assert!(far.is_err());
}

struct NoPages;

impl PageOps for NoPages {
    fn ready(&self) -> bool {
        true
    }

    fn log(&self) -> PageLog {
        unreachable!()
    }

    fn flushes(&self) -> Flushes {
        unreachable!()
    }

    fn maps(&self, _page: PageNumber) -> bool {
        unreachable!()
    }

    fn apply(&mut self, _step: PageStep) -> Result<(), PagerError> {
        Ok(())
    }

    fn shootdown(&mut self, _start: u64, _size: u64) {}
}

#[test]
fn memory_object_of_a_file_answers_requests() {
    let mut fs = mounted();
    let mut file = stored_file(&mut fs);
    let (mut alloc, mut memory) = new_memory();
    let node = file.node(&fs);
    let vmo = &mut file.file_vmo;
    let mut caller = Some(HandleTable::new());
    let mut space = Some(VirtMemManager::over(Pager::new(PhysAddr(0x1000))));
    let id = VmoId(4);
    let mut ask = |request: VmoRequest, caller: &mut Option<HandleTable>| {
        vmo.invoke(
            id,
            &node,
            request,
            caller,
            &mut space,
            &mut alloc,
            &mut memory,
            &mut NoPages,
        )
    };
    let got = ask(VmoRequest::GetPage { offset: 4096 }, &mut caller);
    assert!(matches!(got, Ok(VmoReply::Value(frame)) if frame != 0));
    let got = ask(VmoRequest::GetPage { offset: 8192 }, &mut caller);
    assert!(matches!(got, Err(InvocationError::InvalidArgument)));
    let copy = VmoRequest::Clone { offset: 0, len: 4096, object: 8, id: VmoId(5) };
    match ask(copy, &mut caller) {
        Ok(VmoReply::Clone(handle, child)) => {
            assert_eq!((child.id, child.vmo.size), (VmoId(5), 4096));
            assert_eq!(caller.as_ref().unwrap().resolve(handle, AccessRights::all()), Ok(8));
        }
        _ => panic!("no copy"),
    }
    assert!(matches!(ask(copy, &mut None), Err(InvocationError::UnsupportedOperation)));
    let place = VmoRequest::MapIntoProc { vaddr: 0, len: 0x2000, vm_flags: 0 };
    assert!(matches!(ask(place, &mut caller), Ok(VmoReply::Value(0x4000_0000))));
    let resize = VmoRequest::Resize { new_size: 4096 };
    assert!(matches!(ask(resize, &mut caller), Ok(VmoReply::Value(0))));
    let got = ask(VmoRequest::GetPage { offset: 4096 }, &mut caller);
    assert!(matches!(got, Err(InvocationError::InvalidArgument)));
    let got = ask(VmoRequest::Other, &mut caller);
    assert!(matches!(got, Err(InvocationError::UnsupportedOperation)));
}

#[test]
fn flushed_file_is_on_disk() {
    let mut fs = mounted();
    let mut root = root_of(&fs);
    let (mut alloc, mut memory) = new_memory();
    let (num, inode) = root.create_child_file(&mut fs, &name("data"), 0, 0).unwrap();
    let mut file = open_file(num, inode);
    let data = vec![0x5Au8; 20000];
    file.write_bytes_async(&mut fs, 0, &data, &mut alloc, &mut memory).unwrap();
    file.flush_to_disk(&mut fs, &alloc, &memory).unwrap();

    let disk = fs.cache.device().data().clone();
    let again = Ext2FileSystem::mount(MemoryDisk::new(disk)).unwrap();
    let root = root_of(&again);
    let (num, inode) = root.lookup_child(&again, &name("data")).unwrap();
    assert_eq!(inode.size, 20000);
    let mut file = open_file(num, inode);
    let read = file.read_bytes_async(&again, 0, 30000, &mut alloc, &mut memory).unwrap();
    assert_eq!(read, data);
}

#[test]
fn truncated_file_is_cut_off() {
    let mut fs = mounted();
    let mut root = root_of(&fs);
    let (mut alloc, mut memory) = new_memory();
    let (num, inode) = root.create_child_file(&mut fs, &name("data"), 0, 0).unwrap();
    let before = free_blocks(&fs);
    let mut file = open_file(num, inode);
    file.write_bytes_async(&mut fs, 0, &vec![7u8; 8192], &mut alloc, &mut memory).unwrap();
    file.flush_to_disk(&mut fs, &alloc, &memory).unwrap();
    file.truncate(&mut fs, 1500, &mut alloc, &memory).unwrap();
    assert_eq!(file.inode_data.size, 1500);
    file.truncate(&mut fs, 3000, &mut alloc, &memory).unwrap();
    let mut again = open_file(num, fs.read_inode(num).unwrap());
    let read = again.read_bytes_async(&fs, 1400, 400, &mut alloc, &mut memory).unwrap();
    assert_eq!(read[0..100].to_vec(), vec![7u8; 100]);
    assert_eq!(read[100..].to_vec(), vec![0u8; 300]);
    file.truncate(&mut fs, 0, &mut alloc, &memory).unwrap();
    assert_eq!(free_blocks(&fs), before);
    assert!(matches!(
        file.truncate(&mut fs, 0x1_0000_0000, &mut alloc, &memory),
        Err(InvocationError::InvalidArgument)
    ));
}

#[test]
fn file_answers_requests() {
    let mut fs = mounted();
    let mut root = root_of(&fs);
    let (mut alloc, mut memory) = new_memory();
    let (num, inode) = root.create_child_file(&mut fs, &name("data"), 0, 0).unwrap();
    let mut file = open_file(num, inode);
    let mut caller = Some(HandleTable::new());
    let write = FileRequest::Write { offset: 0, data: vec![9u8; 10] };
    let written = file.invoke(&mut fs, &write, &mut caller, &mut alloc, &mut memory);
    assert!(matches!(written, Ok(FileReply::Count(10))));
    let read = FileRequest::Read { offset: 4, len: 100 };
    match file.invoke(&mut fs, &read, &mut caller, &mut alloc, &mut memory) {
        Ok(FileReply::Bytes(bytes)) => assert_eq!(bytes, vec![9u8; 6]),
        _ => panic!(),
    }
    match file.invoke(&mut fs, &FileRequest::Stat, &mut caller, &mut alloc, &mut memory) {
        Ok(FileReply::Stat(stat)) => assert_eq!(stat.size, 10),
        _ => panic!(),
    }
    let get = FileRequest::GetVmo { object: 77 };
    match file.invoke(&mut fs, &get, &mut caller, &mut alloc, &mut memory) {
        Ok(FileReply::Handle(handle)) => {
            assert_eq!(caller.as_ref().unwrap().resolve(handle, AccessRights::all()), Ok(77));
        },
        _ => panic!(),
    }
    assert!(matches!(
        file.invoke(&mut fs, &get, &mut None, &mut alloc, &mut memory),
        Err(InvocationError::UnsupportedOperation)
    ));
    let cut = FileRequest::Truncate { size: 3 };
    assert!(matches!(
        file.invoke(&mut fs, &cut, &mut caller, &mut alloc, &mut memory),
        Ok(FileReply::Done)
    ));
    assert_eq!(file.inode_data.size, 3);
    assert!(matches!(
        file.invoke(&mut fs, &FileRequest::Seek, &mut caller, &mut alloc, &mut memory),
        Err(InvocationError::UnsupportedOperation)
    ));
}

#[test]
fn device_knows_its_sectors() {
    let mut disk = MemoryDisk::new(vec![3u8; 2048]);
    assert_eq!(disk.read_sectors(3, 1).unwrap(), vec![3u8; 512]);
    assert!(disk.read_sectors(3, 2).is_err());
    disk.write_sectors(1, &vec![4u8; 512]).unwrap();
    assert_eq!(disk.data()[511..513].to_vec(), vec![3, 4]);
}

#[test]
fn header_of_a_program_is_read_from_its_file() {
    let mut fs = mounted();
    let mut root = root_of(&fs);
    let (mut alloc, mut memory) = new_memory();
    let (num, inode) = root.create_child_file(&mut fs, &name("init"), 0, 0).unwrap();
    let mut file = open_file(num, inode);
    let empty = read_elf_header(&mut file, &fs, &mut alloc, &mut memory);
    assert!(matches!(empty, Err(LoaderError::InvalidBuffer)));
    let mut program = vec![0u8; 5000];
    program[0..4].copy_from_slice(&[0x7F, b'E', b'L', b'F']);
    program[4] = 2;
    program[5] = 1;
    program[16] = 2;
    program[18] = 62;
    program[24] = 0x40;
    file.write_bytes_async(&mut fs, 0, &program, &mut alloc, &mut memory).unwrap();
    match read_elf_header(&mut file, &fs, &mut alloc, &mut memory) {
        Ok((start, header)) => {
            assert_eq!(start.len(), 4096);
            assert_eq!(header.e_entry, 0x40);
        }
        Err(_) => panic!("no header"),
    }
    let wrong = vec![0u8; 1];
    file.write_bytes_async(&mut fs, 1, &wrong, &mut alloc, &mut memory).unwrap();
    let bad = read_elf_header(&mut file, &fs, &mut alloc, &mut memory);
    assert!(matches!(bad, Err(LoaderError::InvalidMagicNumbers)));
}

#[test]
fn path_to_a_block_has_an_index_for_each_level() {
    let fs = mounted();
    assert_eq!(fs.indirect_path(11), Ok((0, [11, 0, 0])));
    assert_eq!(fs.indirect_path(12), Ok((1, [0, 0, 0])));
    assert_eq!(fs.indirect_path(12 + 255), Ok((1, [255, 0, 0])));
    assert_eq!(fs.indirect_path(12 + 256), Ok((2, [0, 0, 0])));
    assert_eq!(fs.indirect_path(12 + 256 + 3 * 256 + 7), Ok((2, [3, 7, 0])));
    let third = 12 + 256 + 256 * 256;
    assert_eq!(fs.indirect_path(third), Ok((3, [0, 0, 0])));
    assert_eq!(fs.indirect_path(third + 5 * 65536 + 6 * 256 + 7), Ok((3, [5, 6, 7])));
    assert_eq!(fs.indirect_path(third + 256 * 65536 - 1), Ok((3, [255, 255, 255])));
    assert_eq!(fs.indirect_path(third + 256 * 65536), Err(()));
}

#[test]
fn whoever_opens_an_open_file_gets_the_same_object() {
    let mut fs = mounted();
    let mut root = root_of(&fs);
    let (file, _) = root.create_child_file(&mut fs, &name("notes"), 0, 0).unwrap();
    let (dir, _) = root.create_child_dir(&mut fs, &name("bin"), 0, 0).unwrap();
    let mut active = ActiveObjects::new();
    let none: Vec<u64> = Vec::new();
    let open = |active: &mut ActiveObjects, child: &str, in_use: &Vec<u64>, fresh: u64| {
        root.open_child(&fs, &name(child), active, in_use, fresh).map(|(object, num, _)| (object, num))
    };
    assert!(open(&mut active, "missing", &none, 70).is_err());
    assert_eq!(open(&mut active, "notes", &none, 71), Ok((71, file)));
    assert_eq!(open(&mut active, "notes", &vec![5, 71], 72), Ok((71, file)));
    assert_eq!(open(&mut active, "bin", &vec![71], 73), Ok((73, dir)));
    assert_eq!(open(&mut active, "bin", &vec![71, 73], 74), Ok((73, dir)));
    assert_eq!(open(&mut active, "bin", &vec![71], 75), Ok((75, dir)));
    assert_eq!(open(&mut active, "notes", &none, 76), Ok((76, file)));
    active.written_file(file, &vec![76]);
    assert_eq!(open(&mut active, "notes", &none, 77), Ok((76, file)));
    active.written_file(dir, &vec![75]);
    assert_eq!(active.dirty_files.len(), 1);
}

#[test]
fn what_has_just_been_made_is_open() {
    let mut fs = mounted();
    let mut root = root_of(&fs);
    let mut active = ActiveObjects::new();
    let (file, _) = root.open_new_file(&mut fs, &name("log"), 0, 0, &mut active, 78).unwrap();
    assert_eq!(active.open_file(file, &vec![78], 79), 78);
    let (dir, _) = root.open_new_dir(&mut fs, &name("tmp"), 0, 0, &mut active, 80).unwrap();
    assert_eq!(active.open_dir(dir, &vec![80], 81), 80);
    assert!(root.open_new_file(&mut fs, &name("log"), 0, 0, &mut active, 82).is_err());
    assert_eq!(active.files.get(&file), Some(&78));
    active.made_file(20, 83);
    assert_eq!(active.open_file(20, &vec![83], 84), 83);
    active.made_dir(20, 85);
    assert_eq!(active.open_dir(20, &vec![83], 86), 86);
}

#[test]
fn segment_is_loaded_from_its_file() {
    let mut fs = mounted();
    let mut root = root_of(&fs);
    let (mut alloc, mut memory) = new_memory();
    let (num, inode) = root.create_child_file(&mut fs, &name("init"), 0, 0).unwrap();
    let mut file = open_file(num, inode);
    let mut program = vec![1u8; 4096];
    program.extend(vec![2u8; 4096]);
    program.extend(vec![3u8; 4096]);
    file.write_bytes_async(&mut fs, 0, &program, &mut alloc, &mut memory).unwrap();
    file.flush_to_disk(&mut fs, &alloc, &memory).unwrap();
    let mut cold = open_file(num, file.inode_data);
    let mut vmo = Vmo::new(0x3000);
    let node = cold.node(&fs);
    let loaded = load_segment(
        &mut cold.file_vmo,
        &node,
        &mut vmo,
        0x1000,
        0x1010,
        &mut alloc,
        &mut memory,
    );
    assert_eq!(loaded, Ok(()));
    let first = vmo.request_page(0, &mut alloc, &mut memory).unwrap();
    assert_eq!(read_frame(&memory, first), vec![2u8; 4096]);
    let second = vmo.request_page(0x1000, &mut alloc, &mut memory).unwrap();
    let page = read_frame(&memory, second);
    assert_eq!(page[0..16].to_vec(), vec![3u8; 16]);
    assert_eq!(page[16..].to_vec(), vec![0u8; 4080]);
    let mut vmo = Vmo::new(0x3000);
    let past = load_segment(
        &mut cold.file_vmo,
        &node,
        &mut vmo,
        0x2000,
        0x1001,
        &mut alloc,
        &mut memory,
    );
    assert_eq!(past, Err(LoaderError::FileReadError));
}

#[test]
fn segments_are_made_as_planned() {
    let mut fs = mounted();
    let mut root = root_of(&fs);
    let (mut alloc, mut memory) = new_memory();
    let (num, inode) = root.create_child_file(&mut fs, &name("init"), 0, 0).unwrap();
    let mut file = open_file(num, inode);
    let program = vec![7u8; 6000];
    file.write_bytes_async(&mut fs, 0, &program, &mut alloc, &mut memory).unwrap();
    let node = file.node(&fs);
    let plan = |source| SegmentPlan {
        vaddr: 0x40_0000,
        size: 0x2000,
        writable: true,
        executable: false,
        source,
    };
    let next = alloc.allocate_frame().unwrap();
    alloc.deallocate_frame(next);
    let copied = plan(SegmentSource::Copy { file_offset: 0x1000, copied: 100 });
    let made = segment_vmo(&copied, &mut file.file_vmo, &node, &mut alloc, &mut memory);
    let mut vmo = made.unwrap().unwrap();
    let first = vmo.request_page(0, &mut alloc, &mut memory).unwrap();
    assert_eq!(first, next);
    let page = read_frame(&memory, first);
    assert_eq!(page[0..100].to_vec(), vec![7u8; 100]);
    assert_eq!(page[100..].to_vec(), vec![0u8; 3996]);
    let next = alloc.allocate_frame().unwrap();
    alloc.deallocate_frame(next);
    let past = plan(SegmentSource::Copy { file_offset: 0x1000, copied: 0x1001 });
    let refused = segment_vmo(&past, &mut file.file_vmo, &node, &mut alloc, &mut memory);
    assert!(matches!(refused, Err(LoaderError::FileReadError)));
    assert_eq!(alloc.allocate_frame(), Some(next));
    let zeroes = plan(SegmentSource::Zeroes);
    let made = segment_vmo(&zeroes, &mut file.file_vmo, &node, &mut alloc, &mut memory);
    let mut vmo = made.unwrap().unwrap();
    let frame = vmo.request_page(0x1000, &mut alloc, &mut memory).unwrap();
    assert_eq!(read_frame(&memory, frame), vec![0u8; 4096]);
    let mapped = plan(SegmentSource::File { file_offset: 0 });
    let made = segment_vmo(&mapped, &mut file.file_vmo, &node, &mut alloc, &mut memory);
    assert!(matches!(made, Ok(None)));
}
