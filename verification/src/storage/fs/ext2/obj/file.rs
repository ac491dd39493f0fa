//! Files.

use crate::common::bytes::{copy_bytes, patched, put_bytes};
use crate::hal::mmu::pager::{given_back, PhysMemory, Tables};
use crate::hal::mmu::FrameAllocator;
use crate::memory::file_pages::{
    frames_brought, lemma_frames_brought, lemma_frames_kept, lemma_own_frames, others_same, VfsNode,
};
use crate::memory::frames::{
    filled_up, law_page_reads_back, page_bytes, page_words, read_frame, write_frame,
};
use crate::memory::vmo::{
    cut, frames_from, frames_of, no_sharing, offset_of, padded, page_count, page_offset, pages_for, present,
    FileVmo, PagedBackingStore,
};
use crate::object::handle::{HandleEntry, HandleID, HandleTable};
use crate::object::invoke::InvocationError;
use crate::object::rights::AccessRights;
use crate::storage::blockdev::BlockDevice;
use crate::storage::fs::ext2::obj::listing::{stat_of, status, FileStat, ObjectType};
use crate::storage::fs::ext2::structs::DiskInode;
use crate::storage::fs::ext2::tree::{laid_out, law_stored_page_reads_back, sound_file};
use crate::storage::fs::ext2::volume::{
    page_put, page_stored, read_from, resized, stored_inode, with_stored, Course, Geometry, Volume,
};
use crate::storage::fs::ext2::Ext2FileSystem;
use vstd::prelude::*;

verus! {

/// An open file: its inode and the pages of it that are in memory.
pub struct Ext2File {
    pub inode_num: u32,
    pub inode_data: DiskInode,
    pub file_vmo: FileVmo,
}

/// What the pages of a file are read through.
pub struct FileNode<'a, D: BlockDevice> {
    pub fs: &'a Ext2FileSystem<D>,
    pub inode: DiskInode,
}

impl<'a, D: BlockDevice> VfsNode for FileNode<'a, D> {
    open spec fn ready(&self) -> bool {
        self.fs.wf()
    }

    open spec fn reliable(&self) -> bool {
        self.fs.reliable()
    }

    open spec fn bytes_at(&self, offset: u64) -> Option<Seq<u8>> {
        read_from(self.fs.geo(), self.fs.volume(), self.inode, offset as int, 4096)
    }

    fn read_page(&self, offset: u64) -> (r: Result<Vec<u8>, ()>) {
        self.fs.read_at(&self.inode, offset, 4096)
    }
}

/// The start of the page that holds a byte.
pub open spec fn page_start(at: int) -> u64 {
    (at / 4096 * 4096) as u64
}

/// How many bytes a read gives.
pub open spec fn read_length(size: int, offset: int, len: int) -> int {
    if offset >= size {
        0
    } else if size - offset < len {
        size - offset
    } else {
        len
    }
}

/// The page at `start` with the bytes of `data` that fall into it laid over
/// it; `data` starts at `offset` of the file.
pub open spec fn overlay(page: Seq<u8>, start: u64, offset: int, data: Seq<u8>) -> Seq<u8> {
    Seq::new(
        4096,
        |i: int|
            if offset <= start + i < offset + data.len() {
                data[start + i - offset]
            } else {
                page[i]
            },
    )
}

/// The page at `start` holds some of the bytes from `offset` on.
pub open spec fn touches(start: u64, offset: int, len: int) -> bool {
    start < offset + len && offset < start + 4096
}

/// All pages that hold some of the bytes from `offset` on are in memory.
pub open spec fn in_memory(frames: Map<u64, u64>, offset: int, len: int) -> bool {
    forall|k: u64|
        k as int % 4096 == 0 && touches(k, offset, len) ==> (#[trigger] present(frames, k)) is Some
}

/// How many pages hold some of the bytes from `offset` on.
pub open spec fn pages_spanned(offset: int, len: int) -> int {
    if len <= 0 {
        0
    } else {
        (offset + len - 1) / 4096 - offset / 4096 + 1
    }
}

/// What a request may do to the pages in memory: those that hold some of the
/// `len` bytes at `offset` are brought in, and no other; every frame that was
/// taken for one is the file's.
pub open spec fn only_touched<A: FrameAllocator>(
    before: Ext2File,
    after: Ext2File,
    alloc: A,
    alloc_after: A,
    offset: int,
    len: int,
) -> bool {
    &&& frames_brought(before.file_vmo.frames(), after.file_vmo.frames(), alloc, alloc_after)
    &&& forall|k: u64|
        present(before.file_vmo.frames(), k) is None && (#[trigger] present(
            after.file_vmo.frames(),
            k,
        )) is Some ==> k as int % 4096 == 0 && touches(k, offset, len)
}

/// What comes of reading `len` bytes at `offset`: what the file has of them.
/// It fails where a page can be neither read nor given a frame; `capacity` is
/// how many frames there are.
pub open spec fn was_read(
    before: Ext2File,
    after: Ext2File,
    geo: Geometry,
    v: Volume,
    reliable: bool,
    capacity: nat,
    memory: Tables,
    memory_after: Tables,
    offset: u64,
    len: u64,
    r: Result<Seq<u8>, InvocationError>,
) -> bool {
    let count = read_length(before.inode_data.size as int, offset as int, len as int);
    &&& after.inode_num == before.inode_num
    &&& after.inode_data == before.inode_data
    &&& after.file_vmo.marks() == before.file_vmo.marks()
    &&& forall|k: u64| #[trigger]
        after.page(geo, v, memory_after, k) == before.page(geo, v, memory, k)
    &&& in_memory(before.file_vmo.frames(), offset as int, count) ==> r is Ok
    &&& reliable && before.readable(geo, v, memory, offset as int, count) && pages_spanned(
        offset as int,
        count,
    ) <= capacity ==> r is Ok
    &&& match r {
        Ok(bytes) => {
            &&& bytes.len() == count
            &&& forall|k: int|
                0 <= k < bytes.len() ==> before.has_byte(
                    geo,
                    v,
                    memory,
                    offset + k,
                    #[trigger] bytes[k],
                )
        },
        Err(fault) => fault == InvocationError::InvalidPointer && count > 0,
    }
}

/// What comes of writing `data` at `offset`: the file has the size for it, its
/// pages have the data laid over them, and its inode is on disk. A file that
/// would be too large for its inode is refused. It fails where
/// a page can be neither read nor given a frame, or the inode cannot be stored;
/// `capacity` is how many frames there are.
pub open spec fn was_written(
    before: Ext2File,
    after: Ext2File,
    geo: Geometry,
    v: Volume,
    v_after: Volume,
    reliable: bool,
    capacity: nat,
    memory: Tables,
    memory_after: Tables,
    offset: u64,
    data: Seq<u8>,
    r: Result<u64, InvocationError>,
) -> bool {
    let size = grown_size(before.inode_data.size, offset, data.len());
    let stored = with_stored(geo, v, before.inode_num, after.inode_data);
    let marks = before.file_vmo.marks();
    &&& after.inode_num == before.inode_num
    &&& data.len() == 0 ==> {
        &&& r == Ok::<u64, InvocationError>(0)
        &&& after == before
        &&& v_after == v
        &&& memory_after == memory
    }
    &&& data.len() > 0 && offset + data.len() > u32::MAX ==> {
        &&& r == Err::<u64, InvocationError>(InvocationError::InvalidArgument)
        &&& after == before
        &&& v_after == v
        &&& memory_after == memory
    }
    &&& data.len() > 0 && offset + data.len() <= u32::MAX ==> {
        &&& after.inode_data == before.sized(size).inode_data
        &&& reliable && stored is Some && in_memory(
            before.file_vmo.frames(),
            offset as int,
            data.len() as int,
        ) ==> r is Ok
        &&& reliable && stored is Some && before.sized(size).readable(
            geo,
            v,
            memory,
            offset as int,
            data.len() as int,
        ) && pages_spanned(offset as int, data.len() as int) <= capacity ==> r is Ok
        &&& match r {
            Ok(count) => {
                &&& count == data.len()
                &&& stored == Some(v_after)
                &&& forall|k: u64|
                    k as int % 4096 == 0 ==> #[trigger] after.page(geo, v, memory_after, k)
                        == laid_over(
                        before.sized(size).page(geo, v, memory, k),
                        k,
                        offset as int,
                        data,
                    )
                &&& forall|k: u64| #[trigger]
                    after.file_vmo.marks().contains_key(k) ==> after.file_vmo.marks()[k] == (
                    touches(k, offset as int, data.len() as int) || (marks.contains_key(k)
                        && marks[k]))
                &&& in_memory(after.file_vmo.frames(), offset as int, data.len() as int)
            },
            Err(fault) => {
                &&& fault == InvocationError::InvalidPointer
                &&& reliable ==> v_after == v
                &&& exists|n: int|
                    0 <= n <= data.len() && #[trigger] partly_written(
                        before,
                        after,
                        geo,
                        v,
                        memory,
                        memory_after,
                        offset,
                        data,
                        n,
                    )
            },
        }
    }
}

/// The first `n` bytes of the data are in the pages of the file, which are
/// marked dirty, and nothing else has changed in them.
pub open spec fn partly_written(
    before: Ext2File,
    after: Ext2File,
    geo: Geometry,
    v: Volume,
    memory: Tables,
    memory_after: Tables,
    offset: u64,
    data: Seq<u8>,
    n: int,
) -> bool {
    let base = before.sized(grown_size(before.inode_data.size, offset, data.len()));
    let marks = before.file_vmo.marks();
    &&& forall|k: u64|
        k as int % 4096 == 0 ==> #[trigger] after.page(geo, v, memory_after, k) == laid_over(
            base.page(geo, v, memory, k),
            k,
            offset as int,
            data.take(n),
        )
    &&& forall|k: u64| #[trigger]
        after.file_vmo.marks().contains_key(k) ==> after.file_vmo.marks()[k] == ((n > 0 && touches(
            k,
            offset as int,
            n,
        )) || (marks.contains_key(k) && marks[k]))
}

/// What comes of giving a file another size: the blocks go or stay as
/// `resized` says, and so do the pages in memory.
pub open spec fn was_truncated(
    before: Ext2File,
    after: Ext2File,
    geo: Geometry,
    v: Volume,
    v_after: Volume,
    reliable: bool,
    new_size: u64,
    r: Result<(), InvocationError>,
) -> bool {
    &&& after.inode_num == before.inode_num
    &&& new_size > u32::MAX ==> {
        &&& r == Err::<(), InvocationError>(InvocationError::InvalidArgument)
        &&& after == before
        &&& v_after == v
    }
    &&& new_size <= u32::MAX && (reliable || r is Ok) ==> {
        let (done, resized_volume, inode) = resized(
            geo,
            v,
            before.inode_num,
            before.inode_data,
            new_size as u32,
        );
        &&& v_after == resized_volume
        &&& after.inode_data == inode
        &&& r == (match done {
            Ok(_) => Ok(()),
            Err(_) => Err(InvocationError::UnsupportedOperation),
        })
    }
    &&& r is Ok && new_size < before.inode_data.size ==> after.file_vmo.frames() == cut(
        before.file_vmo.frames(),
        new_size,
    )
    &&& r is Ok && new_size > before.inode_data.size ==> after.file_vmo.frames() == padded(
        before.file_vmo.frames(),
        new_size,
        0u64,
    )
    &&& r is Ok && new_size == before.inode_data.size ==> after.file_vmo == before.file_vmo
    &&& r is Err ==> after == before
}

/// What a file that was given another size has given back: the frames of the
/// pages past its new end.
pub open spec fn frames_cut<A: FrameAllocator>(
    before: Ext2File,
    alloc: A,
    alloc_after: A,
    new_size: u64,
    done: bool,
) -> bool {
    if done && new_size < before.inode_data.size {
        given_back(alloc, alloc_after, frames_from(before.file_vmo.frames(), new_size))
    } else {
        alloc_after == alloc
    }
}

/// A request to a file.
pub enum FileRequest {
    Read { offset: u64, len: u64 },
    Stat,
    /// Asks for a handle to the memory object of the file; `object` is the
    /// number that the memory object gets.
    GetVmo { object: u64 },
    Write { offset: u64, data: Vec<u8> },
    Seek,
    Truncate { size: u64 },
    Other,
}

pub enum FileReply {
    Bytes(Vec<u8>),
    Stat(FileStat),
    Handle(HandleID),
    Count(u64),
    Done,
}

fn append_part(out: &mut Vec<u8>, page: &Vec<u8>, start: usize, len: usize)
    requires
        start + len <= page@.len(),
    ensures
        final(out)@ == old(out)@ + page@.subrange(start as int, start + len),
{
    let size = page.len();
    let mut i: usize = 0;
    while i < len
        invariant
            i <= len,
            size == page@.len(),
            start + len <= size,
            out@ =~= old(out)@ + page@.subrange(start as int, start + i),
        decreases len - i,
    {
        out.push(page[start + i]);
        i += 1;
    }
}

impl Ext2File {
    pub open spec fn wf<A: FrameAllocator>(&self, alloc: A, memory: Tables) -> bool {
        let vmo = self.file_vmo.anonymous_vmo;
        &&& vmo.holds(alloc, memory)
        &&& !vmo.is_physical
        &&& vmo.size == self.inode_data.size
        &&& forall|k: u64| #[trigger]
            vmo.dirty_pages@.contains_key(k) <==> page_offset(k, page_count(vmo.size as int))
        &&& forall|f: u64| #[trigger] memory.contains_key(f) ==> memory[f].len() == 512
    }

    /// The page at an offset: as it is in memory, or else as it is on disk.
    pub open spec fn page(&self, geo: Geometry, v: Volume, memory: Tables, offset: u64) -> Option<
        Seq<u8>,
    > {
        match present(self.file_vmo.anonymous_vmo.pages@, offset) {
            Some(frame) => Some(page_bytes(memory[frame])),
            None => match read_from(geo, v, self.inode_data, offset as int, 4096) {
                Some(bytes) => Some(filled_up(bytes)),
                None => None,
            },
        }
    }

    /// All pages that hold some of the bytes from `at` on can be had.
    pub open spec fn readable(&self, geo: Geometry, v: Volume, memory: Tables, at: int, len: int) -> bool {
        forall|k: u64|
            k as int % 4096 == 0 && touches(k, at, len) ==> (#[trigger] self.page(
                geo,
                v,
                memory,
                k,
            )) is Some
    }

    /// The byte at a place of the file.
    pub open spec fn has_byte(&self, geo: Geometry, v: Volume, memory: Tables, at: int, byte: u8) -> bool {
        self.page(geo, v, memory, page_start(at)) matches Some(page) && page[at % 4096] == byte
    }

    pub fn stat<D: BlockDevice>(&self, fs: &Ext2FileSystem<D>) -> (r: FileStat)
        ensures
            r == stat_of(ObjectType::File, self.inode_num, self.inode_data, fs.block_size),
    {
        status(ObjectType::File, self.inode_num, &self.inode_data, fs.block_size)
    }

    /// What the pages of the file are read through.
    pub fn node<'a, D: BlockDevice>(&self, fs: &'a Ext2FileSystem<D>) -> (r: FileNode<'a, D>)
        ensures
            r.fs == fs,
            r.inode == self.inode_data,
    {
        FileNode { fs, inode: self.inode_data }
    }

    /// The frame of a page, which is read if it is not in memory. It fails
    /// past the end of the file, when the page cannot be read, and when there
    /// is no frame left for it.
    pub fn request_page<D: BlockDevice, A: FrameAllocator>(
        &mut self,
        fs: &Ext2FileSystem<D>,
        offset: u64,
        alloc: &mut A,
        memory: &mut PhysMemory,
    ) -> (r: Result<u64, ()>)
        requires
            fs.wf(),
            old(self).wf(*old(alloc), old(memory)@),
        ensures
            final(self).wf(*final(alloc), final(memory)@),
            final(self).inode_num == old(self).inode_num,
            final(self).inode_data == old(self).inode_data,
            final(self).file_vmo.marks() == old(self).file_vmo.marks(),
            frames_brought(
                old(self).file_vmo.frames(),
                final(self).file_vmo.frames(),
                *old(alloc),
                *final(alloc),
            ),
            forall|k: u64|
                k != offset ==> #[trigger] present(final(self).file_vmo.frames(), k) == present(
                    old(self).file_vmo.frames(),
                    k,
                ),
            others_same(old(memory)@, final(memory)@, old(alloc).available()),
            forall|k: u64| #[trigger]
                final(self).page(fs.geo(), fs.volume(), final(memory)@, k) == old(self).page(
                    fs.geo(),
                    fs.volume(),
                    old(memory)@,
                    k,
                ),
            match r {
                Ok(frame) => {
                    &&& offset < old(self).inode_data.size
                    &&& present(final(self).file_vmo.frames(), offset) == Some(frame)
                    &&& old(self).page(fs.geo(), fs.volume(), old(memory)@, offset) == Some(
                        page_bytes(final(memory)@[frame]),
                    )
                    &&& present(old(self).file_vmo.frames(), offset) is None
                        ==> final(alloc).capacity() + 1 == old(alloc).capacity()
                },
                Err(_) => {
                    &&& final(alloc).capacity() == old(alloc).capacity()
                    &&& *final(self) == *old(self)
                    &&& final(memory)@ == old(memory)@
                    &&& final(alloc).available() == old(alloc).available()
                },
            },
            fs.reliable() && offset < old(self).inode_data.size && old(self).page(
                fs.geo(),
                fs.volume(),
                old(memory)@,
                offset,
            ) is Some && old(alloc).capacity() > 0 ==> r is Ok,
            offset < old(self).inode_data.size && present(old(self).file_vmo.frames(), offset) is Some
                ==> {
                &&& r is Ok
                &&& *final(self) == *old(self)
                &&& *final(alloc) == *old(alloc)
                &&& final(memory)@ == old(memory)@
            },
    {
        let ghost geo = fs.geo();
        let ghost v = fs.volume();
        let ghost before = *self;
        let ghost was = memory@;
        let node = self.node(fs);
        let r = self.file_vmo.request_page(&node, offset, alloc, memory);
        proof {
            assert forall|k: u64| #[trigger] self.page(geo, v, memory@, k) == before.page(
                geo,
                v,
                was,
                k,
            ) by {
                assert(self.file_vmo.page(node, memory@, k) == before.file_vmo.page(node, was, k));
            }
            assert(before.page(geo, v, was, offset) == before.file_vmo.page(node, was, offset));
            assert forall|f: u64| #[trigger] memory@.contains_key(f) implies memory@[f].len()
                == 512 by {
                assert(was.contains_key(f) || r is Ok);
            }
        }
        r
    }

    /// The bytes of a page, which is read if it is not in memory.
    fn read_page<D: BlockDevice, A: FrameAllocator>(
        &mut self,
        fs: &Ext2FileSystem<D>,
        offset: u64,
        alloc: &mut A,
        memory: &mut PhysMemory,
    ) -> (r: Result<Vec<u8>, ()>)
        requires
            fs.wf(),
            old(self).wf(*old(alloc), old(memory)@),
        ensures
            final(self).wf(*final(alloc), final(memory)@),
            final(self).inode_num == old(self).inode_num,
            final(self).inode_data == old(self).inode_data,
            final(self).file_vmo.marks() == old(self).file_vmo.marks(),
            frames_brought(
                old(self).file_vmo.frames(),
                final(self).file_vmo.frames(),
                *old(alloc),
                *final(alloc),
            ),
            forall|k: u64|
                k != offset ==> #[trigger] present(final(self).file_vmo.frames(), k) == present(
                    old(self).file_vmo.frames(),
                    k,
                ),
            others_same(old(memory)@, final(memory)@, old(alloc).available()),
            forall|k: u64| #[trigger]
                final(self).page(fs.geo(), fs.volume(), final(memory)@, k) == old(self).page(
                    fs.geo(),
                    fs.volume(),
                    old(memory)@,
                    k,
                ),
            match r {
                Ok(page) => {
                    &&& old(self).page(fs.geo(), fs.volume(), old(memory)@, offset) == Some(page@)
                    &&& page@.len() == 4096
                    &&& old(alloc).capacity() <= final(alloc).capacity() + 1
                },
                Err(_) => final(alloc).capacity() == old(alloc).capacity(),
            },
            fs.reliable() && offset < old(self).inode_data.size && old(self).page(
                fs.geo(),
                fs.volume(),
                old(memory)@,
                offset,
            ) is Some && old(alloc).capacity() > 0 ==> r is Ok,
            offset < old(self).inode_data.size && present(
                old(self).file_vmo.frames(),
                offset,
            ) is Some ==> r is Ok,
    {
        match self.request_page(fs, offset, alloc, memory) {
            Ok(frame) => Ok(read_frame(memory, frame)),
            Err(_) => Err(()),
        }
    }

    /// Reads from the file, no more than it has.
    #[verifier::spinoff_prover]
    #[verifier::rlimit(60)]
    pub fn read_bytes_async<D: BlockDevice, A: FrameAllocator>(
        &mut self,
        fs: &Ext2FileSystem<D>,
        offset: u64,
        req_len: u64,
        alloc: &mut A,
        memory: &mut PhysMemory,
    ) -> (r: Result<Vec<u8>, InvocationError>)
        requires
            fs.wf(),
            old(self).wf(*old(alloc), old(memory)@),
        ensures
            final(self).wf(*final(alloc), final(memory)@),
            was_read(
                *old(self),
                *final(self),
                fs.geo(),
                fs.volume(),
                fs.reliable(),
                old(alloc).capacity(),
                old(memory)@,
                final(memory)@,
                offset,
                req_len,
                match r {
                    Ok(bytes) => Ok(bytes@),
                    Err(fault) => Err(fault),
                },
            ),
            only_touched(
                *old(self),
                *final(self),
                *old(alloc),
                *final(alloc),
                offset as int,
                read_length(old(self).inode_data.size as int, offset as int, req_len as int),
            ),
            others_same(old(memory)@, final(memory)@, old(alloc).available()),
    {
        let file_size = self.inode_data.size as u64;
        let mut out: Vec<u8> = Vec::new();
        proof {
            lemma_own_frames(self.file_vmo, *alloc, memory@);
        }
        if offset >= file_size {
            return Ok(out);
        }
        let bytes_available = file_size - offset;
        let read_len = if bytes_available < req_len {
            bytes_available
        } else {
            req_len
        };
        let ghost geo = fs.geo();
        let ghost v = fs.volume();
        let ghost before = *self;
        let ghost was = memory@;
        let mut bytes_copied: u64 = 0;
        while bytes_copied < read_len
            invariant
                bytes_copied <= read_len,
                read_len == read_length(
                    before.inode_data.size as int,
                    offset as int,
                    req_len as int,
                ),
                offset < before.inode_data.size,
                before == *old(self),
                was == old(memory)@,
                geo == fs.geo(),
                v == fs.volume(),
                fs.wf(),
                self.wf(*alloc, memory@),
                self.inode_num == before.inode_num,
                self.inode_data == before.inode_data,
                self.file_vmo.marks() == before.file_vmo.marks(),
                only_touched(
                    before,
                    *self,
                    *old(alloc),
                    *alloc,
                    offset as int,
                    read_len as int,
                ),
                others_same(was, memory@, old(alloc).available()),
                bytes_copied == 0 || bytes_copied == read_len || (offset + bytes_copied) % 4096
                    == 0,
                old(alloc).capacity() <= alloc.capacity() + pages_spanned(
                    offset as int,
                    bytes_copied as int,
                ),
                forall|k: u64| #[trigger]
                    self.page(geo, v, memory@, k) == before.page(geo, v, was, k),
                out@.len() == bytes_copied,
                forall|k: int|
                    0 <= k < out@.len() ==> before.has_byte(
                        geo,
                        v,
                        was,
                        offset + k,
                        #[trigger] out@[k],
                    ),
            decreases read_len - bytes_copied,
        {
            let current = offset + bytes_copied;
            let page_offset = current / 4096 * 4096;
            let inner = current % 4096;
            let ghost here = *self;
            let ghost now = memory@;
            let ghost held = *alloc;
            proof {
                if in_memory(before.file_vmo.frames(), offset as int, read_len as int) {
                    assert(touches(page_offset, offset as int, read_len as int));
                    assert(present(before.file_vmo.frames(), page_offset) is Some);
                    assert(present(self.file_vmo.frames(), page_offset) is Some);
                }
                assert(touches(page_offset, offset as int, read_len as int));
                lemma_one_more_page(offset as int, bytes_copied as int, read_len as int);
                assert(here.page(geo, v, now, page_offset) == before.page(geo, v, was, page_offset));
            }
            let page = match self.read_page(fs, page_offset, alloc, memory) {
                Ok(page) => page,
                Err(_) => {
                    proof {
                        assert forall|k: u64| #[trigger] self.page(
                            geo,
                            v,
                            memory@,
                            k,
                        ) == before.page(geo, v, was, k) by {
                            assert(here.page(geo, v, now, k) == before.page(geo, v, was, k));
                        }
                        lemma_only_touched(
                            before,
                            here,
                            *self,
                            *old(alloc),
                            held,
                            *alloc,
                            offset as int,
                            read_len as int,
                            page_offset,
                        );
                        if fs.reliable() && before.readable(
                            geo,
                            v,
                            was,
                            offset as int,
                            read_len as int,
                        ) {
                            assert(before.page(geo, v, was, page_offset) is Some);
                        }
                    }
                    return Err(InvocationError::InvalidPointer);
                },
            };
            proof {
                lemma_only_touched(
                    before,
                    here,
                    *self,
                    *old(alloc),
                    held,
                    *alloc,
                    offset as int,
                    read_len as int,
                    page_offset,
                );
                assert forall|k: u64| #[trigger] self.page(geo, v, memory@, k) == before.page(
                    geo,
                    v,
                    was,
                    k,
                ) by {
                    assert(here.page(geo, v, now, k) == before.page(geo, v, was, k));
                }
            }
            let chunk = if 4096 - inner < read_len - bytes_copied {
                4096 - inner
            } else {
                read_len - bytes_copied
            };
            let ghost done = out@;
            append_part(&mut out, &page, inner as usize, chunk as usize);
            proof {
                lemma_read_step(
                    before,
                    geo,
                    v,
                    was,
                    offset as int,
                    done,
                    page@,
                    chunk as int,
                );
            }
            bytes_copied += chunk;
        }
        Ok(out)
    }
}

/// One more page is brought in, one that holds some of the bytes.
proof fn lemma_only_touched<A: FrameAllocator>(
    a: Ext2File,
    b: Ext2File,
    c: Ext2File,
    at_a: A,
    at_b: A,
    at_c: A,
    offset: int,
    len: int,
    page: u64,
)
    requires
        only_touched(a, b, at_a, at_b, offset, len),
        frames_brought(b.file_vmo.frames(), c.file_vmo.frames(), at_b, at_c),
        forall|k: u64|
            k != page ==> #[trigger] present(c.file_vmo.frames(), k) == present(
                b.file_vmo.frames(),
                k,
            ),
        page as int % 4096 == 0,
        touches(page, offset, len),
    ensures
        only_touched(a, c, at_a, at_c, offset, len),
        at_b.available().subset_of(at_a.available()),
        frames_of(b.file_vmo.frames()).subset_of(
            frames_of(a.file_vmo.frames()).union(at_a.available()),
        ),
{
    lemma_frames_brought(
        a.file_vmo.frames(),
        b.file_vmo.frames(),
        c.file_vmo.frames(),
        at_a,
        at_b,
        at_c,
    );
    assert forall|k: u64|
        present(a.file_vmo.frames(), k) is None && (#[trigger] present(
            c.file_vmo.frames(),
            k,
        )) is Some implies k as int % 4096 == 0 && touches(k, offset, len) by {
        if k != page {
            assert(present(b.file_vmo.frames(), k) is Some);
        }
    }
}

/// More bytes of the file are read, from a page that holds them all.
proof fn lemma_read_step(
    file: Ext2File,
    geo: Geometry,
    v: Volume,
    memory: Tables,
    offset: int,
    done: Seq<u8>,
    page: Seq<u8>,
    chunk: int,
)
    requires
        0 <= offset,
        offset + done.len() <= u32::MAX,
        page.len() == 4096,
        0 <= chunk <= 4096 - (offset + done.len()) % 4096,
        file.page(geo, v, memory, page_start(offset + done.len())) == Some(page),
        forall|k: int|
            0 <= k < done.len() ==> file.has_byte(geo, v, memory, offset + k, #[trigger] done[k]),
    ensures
        ({
            let inner = (offset + done.len()) % 4096;
            let out = done + page.subrange(inner, inner + chunk);
            forall|k: int|
                0 <= k < out.len() ==> file.has_byte(geo, v, memory, offset + k, #[trigger] out[k])
        }),
{
    let current = offset + done.len();
    let inner = current % 4096;
    let out = done + page.subrange(inner, inner + chunk);
    assert forall|k: int| 0 <= k < out.len() implies file.has_byte(
        geo,
        v,
        memory,
        offset + k,
        #[trigger] out[k],
    ) by {
        if k < done.len() {
            assert(out[k] == done[k]);
        } else {
            let i = k - done.len();
            lemma_same_page(current, i);
            assert(offset + k == current + i);
            assert(out[k] == page[inner + i]);
        }
    }
}

/// A place that is `i` bytes on, and still in the page.
proof fn lemma_same_page(at: int, i: int)
    requires
        0 <= at <= u32::MAX,
        0 <= i,
        at % 4096 + i < 4096,
    ensures
        (at + i) % 4096 == at % 4096 + i,
        page_start(at + i) == at / 4096 * 4096,
{
}

/// A page with data laid over it, where there is a page.
pub open spec fn laid_over(page: Option<Seq<u8>>, start: u64, offset: int, data: Seq<u8>) -> Option<
    Seq<u8>,
> {
    match page {
        Some(page) => Some(overlay(page, start, offset, data)),
        None => None,
    }
}

/// Bytes `c` to `c + chunk` of the data, which lie in the page at `here`, are
/// laid over after the first `c`.
proof fn lemma_overlay_step(
    base: Seq<u8>,
    start: u64,
    offset: int,
    data: Seq<u8>,
    c: int,
    chunk: int,
    here: u64,
)
    requires
        base.len() == 4096,
        0 <= offset,
        0 <= c,
        0 <= chunk,
        c + chunk <= data.len(),
        start as int % 4096 == 0,
        here as int % 4096 == 0,
        here <= offset + c,
        offset + c + chunk <= here + 4096,
    ensures
        start != here ==> overlay(base, start, offset, data.take(c + chunk)) == overlay(
            base,
            start,
            offset,
            data.take(c),
        ),
        start == here ==> overlay(base, start, offset, data.take(c + chunk)) == patched(
            overlay(base, start, offset, data.take(c)),
            offset + c - here,
            data.subrange(c, c + chunk),
        ),
{
    let after = overlay(base, start, offset, data.take(c + chunk));
    let before = overlay(base, start, offset, data.take(c));
    if start != here {
        assert(after =~= before);
    } else {
        assert(after =~= patched(before, offset + c - here, data.subrange(c, c + chunk)));
    }
}

impl Ext2File {
    /// The file with another size in its inode.
    pub open spec fn sized(&self, size: u32) -> Ext2File {
        Ext2File { inode_data: DiskInode { size, ..self.inode_data }, ..*self }
    }

    /// Writes to the file, which grows if the bytes go past its end. The pages
    /// that are written stay in memory until they are flushed.
    #[verifier::spinoff_prover]
    #[verifier::rlimit(80)]
    pub fn write_bytes_async<D: BlockDevice, A: FrameAllocator>(
        &mut self,
        fs: &mut Ext2FileSystem<D>,
        offset: u64,
        data: &Vec<u8>,
        alloc: &mut A,
        memory: &mut PhysMemory,
    ) -> (r: Result<u64, InvocationError>)
        requires
            old(fs).wf(),
            old(self).wf(*old(alloc), old(memory)@),
        ensures
            final(fs).wf(),
            final(fs).geo() == old(fs).geo(),
            old(fs).reliable() ==> final(fs).reliable(),
            final(self).wf(*final(alloc), final(memory)@),
            was_written(
                *old(self),
                *final(self),
                old(fs).geo(),
                old(fs).volume(),
                final(fs).volume(),
                old(fs).reliable(),
                old(alloc).capacity(),
                old(memory)@,
                final(memory)@,
                offset,
                data@,
                r,
            ),
            data@.len() == 0 || offset + data@.len() > u32::MAX ==> *final(fs) == *old(fs)
                && *final(alloc) == *old(alloc),
            only_touched(
                *old(self),
                *final(self),
                *old(alloc),
                *final(alloc),
                offset as int,
                data@.len() as int,
            ),
            others_same(
                old(memory)@,
                final(memory)@,
                old(alloc).available().union(frames_of(old(self).file_vmo.frames())),
            ),
    {
        proof {
            lemma_own_frames(self.file_vmo, *alloc, memory@);
        }
        let req_len = data.len() as u64;
        if req_len == 0 {
            return Ok(0);
        }
        if offset > u32::MAX as u64 || req_len > u32::MAX as u64 - offset {
            return Err(InvocationError::InvalidArgument);
        }
        let ghost geo = fs.geo();
        let ghost v = fs.volume();
        let ghost was = memory@;
        let ghost size = grown_size(self.inode_data.size, offset, data@.len());
        let ghost base = self.sized(size);
        let end = offset + req_len;
        if end > self.inode_data.size as u64 {
            self.grow_to(end as u32, alloc, memory);
        }
        proof {
            lemma_frames_kept(old(self).file_vmo.frames(), self.file_vmo.frames());
            lemma_frames_kept(self.file_vmo.frames(), old(self).file_vmo.frames());
            lemma_own_frames(self.file_vmo, *alloc, memory@);
            assert forall|k: u64| k as int % 4096 == 0 implies #[trigger] self.page(
                geo,
                v,
                memory@,
                k,
            ) == laid_over(base.page(geo, v, was, k), k, offset as int, data@.take(0)) by {
                assert(present(self.file_vmo.frames(), k) == present(base.file_vmo.frames(), k));
                if let Some(page) = base.page(geo, v, was, k) {
                    assert(overlay(page, k, offset as int, data@.take(0)) =~= page);
                }
            }
        }
        let mut bytes_copied: u64 = 0;
        while bytes_copied < req_len
            invariant
                bytes_copied <= req_len,
                req_len == data@.len(),
                end == offset + req_len,
                end <= u32::MAX,
                end <= self.inode_data.size,
                fs.wf(),
                *fs == *old(fs),
                geo == fs.geo(),
                v == fs.volume(),
                self.wf(*alloc, memory@),
                self.inode_num == old(self).inode_num,
                self.inode_data == base.inode_data,
                base == old(self).sized(size),
                only_touched(
                    *old(self),
                    *self,
                    *old(alloc),
                    *alloc,
                    offset as int,
                    req_len as int,
                ),
                others_same(
                    was,
                    memory@,
                    old(alloc).available().union(frames_of(old(self).file_vmo.frames())),
                ),
                bytes_copied == 0 || bytes_copied == req_len || (offset + bytes_copied) % 4096
                    == 0,
                old(alloc).capacity() <= alloc.capacity() + pages_spanned(
                    offset as int,
                    bytes_copied as int,
                ),
                size == grown_size(old(self).inode_data.size, offset, data@.len()),
                was == old(memory)@,
                forall|k: u64|
                    k as int % 4096 == 0 ==> #[trigger] self.page(geo, v, memory@, k)
                        == laid_over(
                        base.page(geo, v, was, k),
                        k,
                        offset as int,
                        data@.take(bytes_copied as int),
                    ),
                bytes_copied > 0 ==> in_memory(
                    self.file_vmo.frames(),
                    offset as int,
                    bytes_copied as int,
                ),
                forall|k: u64| #[trigger]
                    self.file_vmo.marks().contains_key(k) ==> self.file_vmo.marks()[k] == ((
                    bytes_copied > 0 && touches(k, offset as int, bytes_copied as int)) || (old(self).file_vmo.marks().contains_key(k) && old(self).file_vmo.marks()[k])),
            decreases req_len - bytes_copied,
        {
            let ghost here = *self;
            let ghost now = memory@;
            let ghost held = *alloc;
            let current = offset + bytes_copied;
            let page_at = current / 4096 * 4096;
            let inner = current % 4096;
            let chunk = if 4096 - inner < req_len - bytes_copied {
                4096 - inner
            } else {
                req_len - bytes_copied
            };
            let part = copy_bytes(data, bytes_copied as usize, chunk as usize);
            proof {
                if in_memory(old(self).file_vmo.frames(), offset as int, data@.len() as int) {
                    assert(touches(page_at, offset as int, data@.len() as int));
                    assert(present(old(self).file_vmo.frames(), page_at) is Some);
                    assert(present(self.file_vmo.frames(), page_at) is Some);
                }
                assert(touches(page_at, offset as int, data@.len() as int));
                lemma_one_more_page(offset as int, bytes_copied as int, req_len as int);
                assert(self.page(geo, v, memory@, page_at) is Some == base.page(
                    geo,
                    v,
                    was,
                    page_at,
                ) is Some);
            }
            let written = self.write_part(fs, page_at, inner as usize, &part, alloc, memory);
            proof {
                lemma_only_touched(
                    *old(self),
                    here,
                    *self,
                    *old(alloc),
                    held,
                    *alloc,
                    offset as int,
                    req_len as int,
                    page_at,
                );
            }
            if let Err(fault) = written {
                assert(partly_written(
                    *old(self),
                    *self,
                    geo,
                    v,
                    was,
                    memory@,
                    offset,
                    data@,
                    bytes_copied as int,
                ));
                return Err(fault);
            }
            proof {
                lemma_write_step(
                    geo,
                    v,
                    base,
                    was,
                    here,
                    now,
                    *self,
                    memory@,
                    offset as int,
                    data@,
                    bytes_copied as int,
                    chunk as int,
                    page_at,
                );
                lemma_touches(offset as int, bytes_copied as int, chunk as int, page_at);
                assert forall|k: u64| #[trigger]
                    self.file_vmo.marks().contains_key(k) implies self.file_vmo.marks()[k] == (
                touches(k, offset as int, bytes_copied + chunk) || (old(self).file_vmo.marks().contains_key(k) && old(self).file_vmo.marks()[k])) by {
                    assert(self.file_vmo.anonymous_vmo.dirty_pages@.contains_key(k));
                    assert(here.file_vmo.marks().contains_key(k));
                }
                assert forall|k: u64|
                    k as int % 4096 == 0 && touches(
                        k,
                        offset as int,
                        bytes_copied + chunk,
                    ) implies (#[trigger] present(self.file_vmo.frames(), k)) is Some by {
                    if k != page_at {
                        assert(present(here.file_vmo.frames(), k) is Some);
                    }
                }
            }
            bytes_copied += chunk;
        }
        assert(data@.take(data@.len() as int) =~= data@);
        if fs.write_inode(self.inode_num, &self.inode_data).is_err() {
            assert(partly_written(
                *old(self),
                *self,
                geo,
                v,
                was,
                memory@,
                offset,
                data@,
                data@.len() as int,
            ));
            return Err(InvocationError::InvalidPointer);
        }
        Ok(bytes_copied)
    }

    /// Writes some bytes into one page and marks it dirty.
    fn write_part<D: BlockDevice, A: FrameAllocator>(
        &mut self,
        fs: &Ext2FileSystem<D>,
        page_at: u64,
        inner: usize,
        part: &Vec<u8>,
        alloc: &mut A,
        memory: &mut PhysMemory,
    ) -> (r: Result<(), InvocationError>)
        requires
            fs.wf(),
            old(self).wf(*old(alloc), old(memory)@),
            page_at as int % 4096 == 0,
            page_at < old(self).inode_data.size,
            inner + part@.len() <= 4096,
        ensures
            final(self).wf(*final(alloc), final(memory)@),
            final(self).inode_num == old(self).inode_num,
            final(self).inode_data == old(self).inode_data,
            match r {
                Ok(_) => {
                    &&& old(self).page(fs.geo(), fs.volume(), old(memory)@, page_at) is Some
                    &&& forall|k: u64| #[trigger]
                        final(self).page(fs.geo(), fs.volume(), final(memory)@, k) == if k
                            == page_at {
                            Some(
                                patched(
                                    old(self).page(fs.geo(), fs.volume(), old(memory)@, k)->0,
                                    inner as int,
                                    part@,
                                ),
                            )
                        } else {
                            old(self).page(fs.geo(), fs.volume(), old(memory)@, k)
                        }
                    &&& final(self).file_vmo.marks() == old(self).file_vmo.marks().insert(
                        page_at,
                        true,
                    )
                    &&& present(final(self).file_vmo.frames(), page_at) is Some
                },
                Err(fault) => {
                    &&& fault == InvocationError::InvalidPointer
                    &&& present(old(self).file_vmo.frames(), page_at) is None
                    &&& *final(self) == *old(self)
                    &&& final(memory)@ == old(memory)@
                },
            },
            fs.reliable() && old(self).page(fs.geo(), fs.volume(), old(memory)@, page_at) is Some
                && old(alloc).capacity() > 0 ==> r is Ok,
            final(alloc).capacity() + 1 >= old(alloc).capacity(),
            frames_brought(
                old(self).file_vmo.frames(),
                final(self).file_vmo.frames(),
                *old(alloc),
                *final(alloc),
            ),
            forall|k: u64|
                k != page_at ==> #[trigger] present(final(self).file_vmo.frames(), k) == present(
                    old(self).file_vmo.frames(),
                    k,
                ),
            others_same(
                old(memory)@,
                final(memory)@,
                old(alloc).available().union(frames_of(old(self).file_vmo.frames())),
            ),
    {
        let ghost geo = fs.geo();
        let ghost v = fs.volume();
        let ghost here = *self;
        let ghost now = memory@;
        let frame = match self.request_page(fs, page_at, alloc, memory) {
            Ok(frame) => frame,
            Err(_) => {
                return Err(InvocationError::InvalidPointer);
            },
        };
        let ghost loaded = *self;
        let ghost held = memory@;
        let mut page = read_frame(memory, frame);
        put_bytes(&mut page, inner, part);
        write_frame(memory, frame, &page);
        proof {
            assert(loaded.file_vmo.frames().contains_key(page_at));
            assert(frames_of(loaded.file_vmo.frames()).contains(frame));
            assert(memory@.dom() =~= now.dom());
        }
        if self.file_vmo.mark_dirty(page_at).is_err() {
            return Err(InvocationError::InvalidPointer);
        }
        proof {
            lemma_page_rewritten(loaded, *self, held, memory@, page_at, frame, page@);
            assert forall|k: u64| #[trigger] self.page(geo, v, memory@, k) == if k == page_at {
                Some(patched(here.page(geo, v, now, k)->0, inner as int, part@))
            } else {
                here.page(geo, v, now, k)
            } by {
                assert(loaded.page(geo, v, held, k) == here.page(geo, v, now, k));
            }
        }
        Ok(())
    }

    fn grow_to<A: FrameAllocator>(&mut self, size: u32, alloc: &mut A, memory: &PhysMemory)
        requires
            old(self).wf(*old(alloc), memory@),
            size > old(self).inode_data.size,
        ensures
            final(self).wf(*final(alloc), memory@),
            final(self).inode_num == old(self).inode_num,
            final(self).inode_data == old(self).sized(size).inode_data,
            *final(alloc) == *old(alloc),
            forall|k: u64| #[trigger]
                present(final(self).file_vmo.frames(), k) == present(
                    old(self).file_vmo.frames(),
                    k,
                ),
            forall|k: u64| #[trigger]
                final(self).file_vmo.marks().contains_key(k) ==> final(self).file_vmo.marks()[k]
                    == (old(self).file_vmo.marks().contains_key(k)
                    && old(self).file_vmo.marks()[k]),
    {
        let ghost before = *self;
        let _ = self.file_vmo.anonymous_vmo.resize_object(size as u64, alloc, memory);
        self.inode_data.size = size;
        proof {
            let n = page_count(size as int);
            let m = page_count(before.inode_data.size as int);
            assert(m <= n);
            assert forall|k: u64| #[trigger]
                self.file_vmo.marks().contains_key(k) <==> page_offset(k, n) by {
                assert(before.file_vmo.marks().contains_key(k) <==> page_offset(k, m));
            }
        }
    }
}

/// The size of a file after bytes have been written to it.
pub open spec fn grown_size(size: u32, offset: u64, len: nat) -> u32 {
    if offset + len > size {
        (offset + len) as u32
    } else {
        size
    }
}

proof fn lemma_page_len(file: Ext2File, geo: Geometry, v: Volume, memory: Tables, k: u64)
    ensures
        file.page(geo, v, memory, k) matches Some(page) ==> page.len() == 4096,
{
}

proof fn lemma_write_step(
    geo: Geometry,
    v: Volume,
    base: Ext2File,
    was: Tables,
    here: Ext2File,
    now: Tables,
    after: Ext2File,
    memory: Tables,
    offset: int,
    data: Seq<u8>,
    c: int,
    chunk: int,
    page_at: u64,
)
    requires
        0 <= offset,
        0 <= c,
        0 <= chunk,
        c + chunk <= data.len(),
        page_at as int % 4096 == 0,
        page_at <= offset + c,
        offset + c + chunk <= page_at + 4096,
        here.page(geo, v, now, page_at) is Some,
        forall|k: u64|
            k as int % 4096 == 0 ==> #[trigger] here.page(geo, v, now, k) == laid_over(
                base.page(geo, v, was, k),
                k,
                offset,
                data.take(c),
            ),
        forall|k: u64| #[trigger]
            after.page(geo, v, memory, k) == if k == page_at {
                Some(
                    patched(
                        here.page(geo, v, now, k)->0,
                        offset + c - page_at,
                        data.subrange(c, c + chunk),
                    ),
                )
            } else {
                here.page(geo, v, now, k)
            },
    ensures
        forall|k: u64|
            k as int % 4096 == 0 ==> #[trigger] after.page(geo, v, memory, k) == laid_over(
                base.page(geo, v, was, k),
                k,
                offset,
                data.take(c + chunk),
            ),
{
    assert forall|k: u64| k as int % 4096 == 0 implies #[trigger] after.page(geo, v, memory, k)
        == laid_over(base.page(geo, v, was, k), k, offset, data.take(c + chunk)) by {
        assert(here.page(geo, v, now, k) == laid_over(
            base.page(geo, v, was, k),
            k,
            offset,
            data.take(c),
        ));
        if let Some(p) = base.page(geo, v, was, k) {
            lemma_page_len(base, geo, v, was, k);
            lemma_overlay_step(p, k, offset, data, c, chunk, page_at);
        }
    }
}

/// Bytes that start a new page span one page more than those before them.
proof fn lemma_one_more_page(offset: int, c: int, len: int)
    requires
        0 <= offset,
        0 <= c < len,
        c == 0 || (offset + c) % 4096 == 0,
    ensures
        pages_spanned(offset, c) + 1 <= pages_spanned(offset, len),
        forall|n: int|
            c < n <= len && n - c <= 4096 - (offset + c) % 4096 ==> #[trigger] pages_spanned(
                offset,
                n,
            ) == pages_spanned(offset, c) + 1,
{
}

proof fn lemma_touches(offset: int, c: int, chunk: int, page_at: u64)
    requires
        0 <= offset,
        0 <= c,
        0 < chunk,
        page_at as int % 4096 == 0,
        page_at <= offset + c,
        offset + c + chunk <= page_at + 4096,
    ensures
        touches(page_at, offset, c + chunk),
        forall|k: u64|
            k as int % 4096 == 0 && k != page_at ==> #[trigger] touches(k, offset, c + chunk) == (c
                > 0 && touches(k, offset, c)),
{
    assert forall|k: u64| k as int % 4096 == 0 && k != page_at implies #[trigger] touches(
        k,
        offset,
        c + chunk,
    ) == (c > 0 && touches(k, offset, c)) by {
        assert(k + 4096 <= page_at || page_at + 4096 <= k);
    }
}

/// Writing over the frame of one page changes that page and no other.
proof fn lemma_page_rewritten(
    before: Ext2File,
    after: Ext2File,
    held: Tables,
    memory: Tables,
    offset: u64,
    frame: u64,
    bytes: Seq<u8>,
)
    requires
        no_sharing(before.file_vmo.frames()),
        present(before.file_vmo.frames(), offset) == Some(frame),
        after.file_vmo.frames() == before.file_vmo.frames(),
        after.inode_data == before.inode_data,
        memory == held.insert(frame, page_words(bytes)),
        bytes.len() == 4096,
    ensures
        forall|geo: Geometry, v: Volume, k: u64| #[trigger]
            after.page(geo, v, memory, k) == if k == offset {
                Some(bytes)
            } else {
                before.page(geo, v, held, k)
            },
{
    law_page_reads_back(bytes);
    assert forall|geo: Geometry, v: Volume, k: u64| #[trigger]
        after.page(geo, v, memory, k) == if k == offset {
            Some(bytes)
        } else {
            before.page(geo, v, held, k)
        } by {
        if k != offset {
            let pages = before.file_vmo.frames();
            if present(pages, k) is Some {
                assert(pages.contains_key(k) && pages.contains_key(offset));
            }
        }
    }
}

/// The volume and the inode after the dirty pages of a file from page `i` on
/// have been written to it.
pub open spec fn flushed(
    geo: Geometry,
    v: Volume,
    file: Ext2File,
    inode: DiskInode,
    memory: Tables,
    i: int,
) -> (Result<(), ()>, Volume, DiskInode)
    decreases page_count(file.file_vmo.anonymous_vmo.size as int) - i,
{
    if i >= page_count(file.file_vmo.anonymous_vmo.size as int) {
        (Ok(()), v, inode)
    } else {
        let k = offset_of(i);
        match present(file.file_vmo.frames(), k) {
            Some(frame) => if file.file_vmo.marks()[k] {
                match page_stored(
                    geo,
                    v,
                    file.inode_num,
                    inode,
                    k as int,
                    page_bytes(memory[frame]),
                ) {
                    (Err(_), after, kept) => (Err(()), after, kept),
                    (Ok(_), after, kept) => flushed(geo, after, file, kept, memory, i + 1),
                }
            } else {
                flushed(geo, v, file, inode, memory, i + 1)
            },
            None => flushed(geo, v, file, inode, memory, i + 1),
        }
    }
}

/// Page `i` of a file has been written to it, if it is in memory and dirty.
pub open spec fn page_flushed(
    geo: Geometry,
    file: Ext2File,
    memory: Tables,
    before: (Volume, DiskInode),
    after: (Volume, DiskInode),
    i: int,
) -> bool {
    let k = offset_of(i);
    match present(file.file_vmo.frames(), k) {
        Some(frame) if file.file_vmo.marks()[k] => page_put(
            geo,
            before.0,
            after.0,
            file.inode_num,
            before.1,
            after.1,
            k as int,
            page_bytes(memory[frame]),
        ),
        _ => after == before,
    }
}

/// Each step of a course flushes the next page of a file.
pub open spec fn flushes(geo: Geometry, file: Ext2File, memory: Tables, course: Course) -> bool {
    forall|i: int|
        #![trigger course[i]]
        0 <= i && i + 1 < course.len() ==> page_flushed(
            geo,
            file,
            memory,
            course[i],
            course[i + 1],
            i,
        )
}

/// Every dirty page of a file that is in memory has been written to it.
pub open spec fn pages_put(
    geo: Geometry,
    file: Ext2File,
    v: Volume,
    after: Volume,
    inode_after: DiskInode,
    memory: Tables,
) -> bool {
    exists|course: Course| #[trigger]
        flushes(geo, file, memory, course) && course.len() == page_count(
            file.file_vmo.anonymous_vmo.size as int,
        ) + 1 && course[0] == (v, file.inode_data) && course.last() == (after, inode_after)
}

proof fn lemma_flush_step(
    geo: Geometry,
    file: Ext2File,
    memory: Tables,
    course: Course,
    next: (Volume, DiskInode),
) -> (after: Course)
    requires
        course.len() > 0,
        flushes(geo, file, memory, course),
        page_flushed(geo, file, memory, course.last(), next, course.len() - 1),
    ensures
        after == course.push(next),
        flushes(geo, file, memory, after),
{
    let after = course.push(next);
    assert forall|i: int|
        #![trigger after[i]]
        0 <= i && i + 1 < after.len() implies page_flushed(
        geo,
        file,
        memory,
        after[i],
        after[i + 1],
        i,
    ) by {
        assert(after[i] == course[i]);
        if i + 1 < course.len() {
            assert(after[i + 1] == course[i + 1]);
        }
    }
    after
}

/// The first `n` pages that are in memory are clean, and the marks of the others
/// are as they were.
pub open spec fn marks_cleared(before: Ext2File, after: Ext2File, n: int) -> bool {
    forall|k: u64| #[trigger]
        after.file_vmo.marks().contains_key(k) ==> after.file_vmo.marks()[k] == (
        before.file_vmo.marks()[k] && !((k as int) / 4096 < n && present(
            before.file_vmo.frames(),
            k,
        ) is Some))
}

impl Ext2File {
    /// Writes the dirty pages that are in memory to the disk.
    pub fn flush_to_disk<D: BlockDevice, A: FrameAllocator>(
        &mut self,
        fs: &mut Ext2FileSystem<D>,
        alloc: &A,
        memory: &PhysMemory,
    ) -> (r: Result<(), ()>)
        requires
            old(fs).wf(),
            old(self).wf(*alloc, memory@),
        ensures
            final(fs).wf(),
            final(fs).geo() == old(fs).geo(),
            old(fs).reliable() ==> final(fs).reliable(),
            final(self).inode_num == old(self).inode_num,
            final(self).file_vmo.frames() == old(self).file_vmo.frames(),
            final(self).file_vmo.marks().dom() == old(self).file_vmo.marks().dom(),
            old(fs).reliable() ==> flushed(
                old(fs).geo(),
                old(fs).volume(),
                *old(self),
                old(self).inode_data,
                memory@,
                0,
            ) == (r, final(fs).volume(), final(self).inode_data),
            r is Ok ==> pages_put(
                old(fs).geo(),
                *old(self),
                old(fs).volume(),
                final(fs).volume(),
                final(self).inode_data,
                memory@,
            ),
            r is Ok ==> marks_cleared(
                *old(self),
                *final(self),
                page_count(old(self).file_vmo.anonymous_vmo.size as int),
            ),
            r is Err ==> exists|n: int|
                0 <= n < page_count(old(self).file_vmo.anonymous_vmo.size as int)
                    && #[trigger] marks_cleared(*old(self), *final(self), n)
                    && old(self).file_vmo.marks()[offset_of(n)] && present(
                    old(self).file_vmo.frames(),
                    offset_of(n),
                ) is Some,
    {
        let ghost geo = fs.geo();
        let ghost v = fs.volume();
        let ghost before = *self;
        let ghost mut course: Course = seq![(v, before.inode_data)];
        let pages = pages_for(self.file_vmo.anonymous_vmo.size);
        let mut i: u64 = 0;
        while i < pages
            invariant
                i <= pages,
                before == *old(self),
                before.wf(*alloc, memory@),
                pages == page_count(before.file_vmo.anonymous_vmo.size as int),
                fs.wf(),
                geo == fs.geo(),
                geo == old(fs).geo(),
                v == old(fs).volume(),
                old(fs).reliable() ==> fs.reliable(),
                self.inode_num == before.inode_num,
                self.file_vmo.frames() == before.file_vmo.frames(),
                self.file_vmo.writable(),
                self.file_vmo.marks().dom() =~= before.file_vmo.marks().dom(),
                marks_cleared(before, *self, i as int),
                course.len() == i + 1,
                course[0] == (v, before.inode_data),
                course.last() == (fs.volume(), self.inode_data),
                flushes(geo, before, memory@, course),
                old(fs).reliable() ==> flushed(geo, v, before, before.inode_data, memory@, 0)
                    == flushed(
                    geo,
                    fs.volume(),
                    before,
                    self.inode_data,
                    memory@,
                    i as int,
                ),
            decreases pages - i,
        {
            let offset = i * 4096;
            proof {
                assert(offset == offset_of(i as int));
                assert(page_offset(offset, pages as int));
                assert(before.file_vmo.anonymous_vmo.dirty_pages@.contains_key(offset));
                assert(self.file_vmo.marks().contains_key(offset));
            }
            let ghost marks = self.file_vmo.marks();
            let ghost was = (fs.volume(), self.inode_data);
            if self.file_vmo.is_dirty(offset) {
                if let Some(frame) = self.file_vmo.peek_page(offset) {
                    proof {
                        assert(before.file_vmo.anonymous_vmo.pages@.contains_key(offset));
                    }
                    let page = read_frame(memory, frame);
                    let mut inode = self.inode_data;
                    let done = fs.write_at(self.inode_num, &mut inode, offset, &page);
                    self.inode_data = inode;
                    if done.is_err() {
                        assert(marks_cleared(*old(self), *self, i as int));
                        return Err(());
                    }
                    self.file_vmo.clear_dirty(offset);
                }
            }
            proof {
                assert(page_flushed(
                    geo,
                    before,
                    memory@,
                    was,
                    (fs.volume(), self.inode_data),
                    i as int,
                ));
                course = lemma_flush_step(
                    geo,
                    before,
                    memory@,
                    course,
                    (fs.volume(), self.inode_data),
                );
                assert forall|k: u64| #[trigger]
                    self.file_vmo.marks().contains_key(k) implies self.file_vmo.marks()[k] == (
                before.file_vmo.marks()[k] && !((k as int) / 4096 < i + 1 && present(
                    before.file_vmo.frames(),
                    k,
                ) is Some)) by {
                    assert(marks.contains_key(k));
                    assert(before.file_vmo.anonymous_vmo.dirty_pages@.contains_key(k));
                    assert(page_offset(k, pages as int));
                    if (k as int) / 4096 == i {
                        assert(k == offset);
                    }
                }
            }
            i += 1;
        }
        Ok(())
    }

    /// Gives the file another size, on disk and in memory.
    pub fn truncate<D: BlockDevice, A: FrameAllocator>(
        &mut self,
        fs: &mut Ext2FileSystem<D>,
        new_size: u64,
        alloc: &mut A,
        memory: &PhysMemory,
    ) -> (r: Result<(), InvocationError>)
        requires
            old(fs).wf(),
            old(self).wf(*old(alloc), memory@),
        ensures
            final(fs).wf(),
            final(fs).geo() == old(fs).geo(),
            old(fs).reliable() ==> final(fs).reliable(),
            final(self).wf(*final(alloc), memory@),
            was_truncated(
                *old(self),
                *final(self),
                old(fs).geo(),
                old(fs).volume(),
                final(fs).volume(),
                old(fs).reliable(),
                new_size,
                r,
            ),
            frames_cut(*old(self), *old(alloc), *final(alloc), new_size, r is Ok),
            new_size > u32::MAX ==> *final(fs) == *old(fs),
    {
        if new_size > u32::MAX as u64 {
            return Err(InvocationError::InvalidArgument);
        }
        let ghost before = *self;
        let mut inode = self.inode_data;
        if fs.resize_file(self.inode_num, &mut inode, new_size as u32).is_err() {
            return Err(InvocationError::UnsupportedOperation);
        }
        self.inode_data = inode;
        let _ = self.file_vmo.anonymous_vmo.resize_object(new_size, alloc, memory);
        proof {
            let n = page_count(new_size as int);
            let m = page_count(before.inode_data.size as int);
            assert forall|k: u64| #[trigger]
                self.file_vmo.anonymous_vmo.dirty_pages@.contains_key(k) <==> page_offset(k, n) by {
                assert(before.file_vmo.anonymous_vmo.dirty_pages@.contains_key(k) <==> page_offset(
                    k,
                    m,
                ));
            }
        }
        Ok(())
    }
}

impl Ext2File {
    /// Gives the process that asks a handle to the memory object of the file,
    /// with all rights.
    pub fn get_vmo(&self, caller: &mut Option<HandleTable>, object: u64) -> (r: Result<
        HandleID,
        InvocationError,
    >)
        ensures
            match *old(caller) {
                None => {
                    &&& r == Err::<HandleID, InvocationError>(InvocationError::UnsupportedOperation)
                    &&& *final(caller) == *old(caller)
                },
                Some(handles) => {
                    &&& r matches Ok(handle) && handle.0 == handles@.len()
                    &&& *final(caller) matches Some(after) && after@ == handles@.push(
                        Some(HandleEntry { object, rights: AccessRights(0x3F) }),
                    )
                },
            },
    {
        match caller {
            Some(handles) => Ok(handles.insert(object, AccessRights::all())),
            None => Err(InvocationError::UnsupportedOperation),
        }
    }

    /// Answers a request of a process, whose handles `caller` holds.
    pub fn invoke<D: BlockDevice, A: FrameAllocator>(
        &mut self,
        fs: &mut Ext2FileSystem<D>,
        request: &FileRequest,
        caller: &mut Option<HandleTable>,
        alloc: &mut A,
        memory: &mut PhysMemory,
    ) -> (r: Result<FileReply, InvocationError>)
        requires
            old(fs).wf(),
            old(self).wf(*old(alloc), old(memory)@),
        ensures
            final(fs).wf(),
            final(fs).geo() == old(fs).geo(),
            old(fs).reliable() ==> final(fs).reliable(),
            final(self).wf(*final(alloc), final(memory)@),
            !(request is GetVmo) ==> *final(caller) == *old(caller),
            !(request is Write || request is Truncate) ==> *final(fs) == *old(fs),
            !(request is Read || request is Write) ==> final(memory)@ == old(memory)@,
            !(request is Read || request is Write || request is Truncate) ==> *final(self) == *old(self) && *final(alloc) == *old(alloc),
            match *request {
                FileRequest::Read { offset, len } => {
                    &&& r is Ok ==> r->Ok_0 is Bytes
                    &&& was_read(
                        *old(self),
                        *final(self),
                        old(fs).geo(),
                        old(fs).volume(),
                        old(fs).reliable(),
                        old(alloc).capacity(),
                        old(memory)@,
                        final(memory)@,
                        offset,
                        len,
                        match r {
                            Ok(reply) => Ok(reply->Bytes_0@),
                            Err(fault) => Err(fault),
                        },
                    )
                    &&& only_touched(
                        *old(self),
                        *final(self),
                        *old(alloc),
                        *final(alloc),
                        offset as int,
                        read_length(old(self).inode_data.size as int, offset as int, len as int),
                    )
                    &&& others_same(old(memory)@, final(memory)@, old(alloc).available())
                },
                FileRequest::Stat => r == Ok::<FileReply, InvocationError>(
                    FileReply::Stat(
                        stat_of(
                            ObjectType::File,
                            old(self).inode_num,
                            old(self).inode_data,
                            old(fs).block_size,
                        ),
                    ),
                ),
                FileRequest::GetVmo { object } => match *old(caller) {
                    None => {
                        &&& r == Err::<FileReply, InvocationError>(
                            InvocationError::UnsupportedOperation,
                        )
                        &&& *final(caller) == *old(caller)
                    },
                    Some(handles) => {
                        &&& r matches Ok(FileReply::Handle(handle)) && handle.0 == handles@.len()
                        &&& *final(caller) matches Some(after) && after@ == handles@.push(
                            Some(HandleEntry { object, rights: AccessRights(0x3F) }),
                        )
                    },
                },
                FileRequest::Write { offset, data } => {
                    &&& r is Ok ==> r->Ok_0 is Count
                    &&& was_written(
                        *old(self),
                        *final(self),
                        old(fs).geo(),
                        old(fs).volume(),
                        final(fs).volume(),
                        old(fs).reliable(),
                        old(alloc).capacity(),
                        old(memory)@,
                        final(memory)@,
                        offset,
                        data@,
                        match r {
                            Ok(reply) => Ok(reply->Count_0),
                            Err(fault) => Err(fault),
                        },
                    )
                    &&& only_touched(
                        *old(self),
                        *final(self),
                        *old(alloc),
                        *final(alloc),
                        offset as int,
                        data@.len() as int,
                    )
                    &&& others_same(
                        old(memory)@,
                        final(memory)@,
                        old(alloc).available().union(frames_of(old(self).file_vmo.frames())),
                    )
                },
                FileRequest::Truncate { size } => {
                    &&& r is Ok ==> r->Ok_0 is Done
                    &&& frames_cut(*old(self), *old(alloc), *final(alloc), size, r is Ok)
                    &&& was_truncated(
                        *old(self),
                        *final(self),
                        old(fs).geo(),
                        old(fs).volume(),
                        final(fs).volume(),
                        old(fs).reliable(),
                        size,
                        match r {
                            Ok(_) => Ok(()),
                            Err(fault) => Err(fault),
                        },
                    )
                },
                FileRequest::Seek | FileRequest::Other => r == Err::<FileReply, InvocationError>(
                    InvocationError::UnsupportedOperation,
                ),
            },
    {
        match request {
            FileRequest::Read { offset, len } => match self.read_bytes_async(
                fs,
                *offset,
                *len,
                alloc,
                memory,
            ) {
                Ok(bytes) => Ok(FileReply::Bytes(bytes)),
                Err(fault) => Err(fault),
            },
            FileRequest::Stat => Ok(FileReply::Stat(self.stat(fs))),
            FileRequest::GetVmo { object } => match self.get_vmo(caller, *object) {
                Ok(handle) => Ok(FileReply::Handle(handle)),
                Err(fault) => Err(fault),
            },
            FileRequest::Write { offset, data } => match self.write_bytes_async(
                fs,
                *offset,
                data,
                alloc,
                memory,
            ) {
                Ok(count) => Ok(FileReply::Count(count)),
                Err(fault) => Err(fault),
            },
            FileRequest::Truncate { size } => match self.truncate(fs, *size, alloc, memory) {
                Ok(_) => Ok(FileReply::Done),
                Err(fault) => Err(fault),
            },
            FileRequest::Seek | FileRequest::Other => Err(InvocationError::UnsupportedOperation),
        }
    }
}

/// What a read that follows a write gives back: the bytes that were written.
/// `file` is the file after the write of `data` at `offset`, whose pages are
/// those of `before` with the data laid over them, and `bytes` what is then
/// read from there, whatever else the volume holds by then.
pub proof fn law_written_bytes_are_read_back(
    before: Ext2File,
    was: Tables,
    file: Ext2File,
    memory: Tables,
    geo: Geometry,
    v: Volume,
    later: Volume,
    offset: u64,
    data: Seq<u8>,
    bytes: Seq<u8>,
)
    requires
        offset + data.len() <= file.inode_data.size,
        in_memory(file.file_vmo.frames(), offset as int, data.len() as int),
        forall|k: u64|
            k as int % 4096 == 0 ==> #[trigger] file.page(geo, v, memory, k) == laid_over(
                before.page(geo, v, was, k),
                k,
                offset as int,
                data,
            ),
        bytes.len() == read_length(
            file.inode_data.size as int,
            offset as int,
            data.len() as int,
        ),
        forall|k: int|
            0 <= k < bytes.len() ==> file.has_byte(
                geo,
                later,
                memory,
                offset + k,
                #[trigger] bytes[k],
            ),
    ensures
        bytes == data,
{
    assert forall|k: int| 0 <= k < bytes.len() implies bytes[k] == data[k] by {
        let at = offset + k;
        let start = page_start(at);
        assert(file.has_byte(geo, later, memory, at, bytes[k]));
        assert(start as int % 4096 == 0 && start <= at < start + 4096);
        assert(touches(start, offset as int, data.len() as int));
        assert(present(file.file_vmo.frames(), start) is Some);
        assert(file.page(geo, v, memory, start) == file.page(geo, later, memory, start));
        assert(file.page(geo, v, memory, start) == laid_over(
            before.page(geo, v, was, start),
            start,
            offset as int,
            data,
        ));
        let page = before.page(geo, v, was, start)->0;
        assert(overlay(page, start, offset as int, data)[at % 4096] == data[k]);
    }
    assert(bytes =~= data);
}

/// What is read from the disk at page `k` of a file once its pages have been
/// flushed: what the page holds in memory, as far as the file goes, if it was
/// dirty, and otherwise what was on disk.
pub open spec fn flushed_page(
    geo: Geometry,
    v: Volume,
    file: Ext2File,
    inode: DiskInode,
    memory: Tables,
    k: u64,
) -> Option<Seq<u8>> {
    let size = file.inode_data.size as int;
    match present(file.file_vmo.frames(), k) {
        Some(frame) if file.file_vmo.marks()[k] && k < size => Some(
            page_bytes(memory[frame]).take(
                if size - k < 4096 {
                    size - k
                } else {
                    4096
                },
            ),
        ),
        _ => read_from(geo, v, inode, k as int, 4096),
    }
}

proof fn lemma_flushed_from(
    geo: Geometry,
    v: Volume,
    file: Ext2File,
    inode: DiskInode,
    memory: Tables,
    i: int,
    k: u64,
)
    requires
        laid_out(geo, v),
        sound_file(geo, v, inode),
        inode.size == file.inode_data.size,
        file.file_vmo.anonymous_vmo.size == file.inode_data.size,
        stored_inode(geo, v, file.inode_num) == Some(inode),
        flushed(geo, v, file, inode, memory, i).0 is Ok,
        0 <= i,
        k as int % 4096 == 0,
    ensures
        ({
            let (_, after, kept) = flushed(geo, v, file, inode, memory, i);
            &&& laid_out(geo, after)
            &&& sound_file(geo, after, kept)
            &&& kept.size == inode.size
            &&& stored_inode(geo, after, file.inode_num) == Some(kept)
            &&& read_from(geo, after, kept, k as int, 4096) == if k as int / 4096 >= i {
                flushed_page(geo, v, file, inode, memory, k)
            } else {
                read_from(geo, v, inode, k as int, 4096)
            }
        }),
    decreases page_count(file.file_vmo.anonymous_vmo.size as int) - i,
{
    if i < page_count(file.file_vmo.anonymous_vmo.size as int) {
        let at = offset_of(i);
        assert(at == 4096 * i);
        match present(file.file_vmo.frames(), at) {
            Some(frame) if file.file_vmo.marks()[at] => {
                let data = page_bytes(memory[frame]);
                law_stored_page_reads_back(
                    geo,
                    v,
                    file.inode_num,
                    inode,
                    at as int,
                    data,
                    k as int,
                    4096,
                );
                let (_, w, kept) = page_stored(
                    geo,
                    v,
                    file.inode_num,
                    inode,
                    at as int,
                    data,
                );
                lemma_flushed_from(geo, w, file, kept, memory, i + 1, k);
            },
            _ => {
                lemma_flushed_from(geo, v, file, inode, memory, i + 1, k);
            },
        }
    }
}

/// Once the dirty pages of a sound file have been flushed, the inode on disk is
/// that of the file, and reading a page of it from the disk gives what the page
/// held in memory, if it was dirty, and otherwise what was on disk before.
pub proof fn law_flushed_pages_are_on_disk(
    geo: Geometry,
    v: Volume,
    file: Ext2File,
    memory: Tables,
    k: u64,
)
    requires
        laid_out(geo, v),
        sound_file(geo, v, file.inode_data),
        file.file_vmo.anonymous_vmo.size == file.inode_data.size,
        stored_inode(geo, v, file.inode_num) == Some(file.inode_data),
        flushed(geo, v, file, file.inode_data, memory, 0).0 is Ok,
        k as int % 4096 == 0,
    ensures
        ({
            let (_, after, kept) = flushed(geo, v, file, file.inode_data, memory, 0);
            &&& laid_out(geo, after)
            &&& sound_file(geo, after, kept)
            &&& stored_inode(geo, after, file.inode_num) == Some(kept)
            &&& kept.size == file.inode_data.size
            &&& read_from(geo, after, kept, k as int, 4096) == flushed_page(
                geo,
                v,
                file,
                file.inode_data,
                memory,
                k,
            )
        }),
{
    lemma_flushed_from(geo, v, file, file.inode_data, memory, 0, k);
}

} // verus!
