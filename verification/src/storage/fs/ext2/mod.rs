//! The ext2 file system.

pub mod cutting;
pub mod laws;
pub mod layout;
pub mod naming;
pub mod obj;
pub mod releasing;
pub mod structs;
pub mod tree;
pub mod volume;

use crate::common::bytes::{
    copy_bytes, get16, get32, le16, le32, matches_at, put32, put_bytes, zero_bytes,
};
use crate::storage::blockdev::{blocks_of, is_block_size, BlockCache, BlockDevice};
use crate::storage::fs::ext2::structs::{
    group_of, words_at, DiskDirHeader, DiskGroupDesc, DiskInode, EXT2_MAGIC,
};
use crate::storage::fs::ext2::volume::{
    all_zero, bit, block_put, block_released, blocks_cleared, blocks_put, blocks_written, content,
    counted, data_released, each_released, file_block_cleared, file_block_taken, file_released,
    find_name, first_clear, follow, grown, inode_place, inode_released, left, lemma_course_step,
    looked_up, names, nonzero, page_block, page_blocks, page_put, page_stored, path_of, pick, pointer, pointer_in, pointer_set, pointers_of,
    pointers_of_all, pruned, read_from, recounted, released, resized, resolved, root_of, settled,
    stored_inode, table_pruned, tail_cleared, taken, with_direct, with_root, with_stored, zeroed,
    Bitmap, Course, Geometry, Volume,
};
use vstd::prelude::*;

verus! {

pub struct Ext2FileSystem<D: BlockDevice> {
    pub cache: BlockCache<D>,
    pub block_size: u32,
    pub sectors_per_block: u32,
    pub inodes_per_group: u32,
    pub blocks_per_group: u32,
    pub inode_size: u32,
    pub bgdt: Vec<DiskGroupDesc>,
}

/// What the superblock of a device says.
pub open spec fn geometry_of(disk: Seq<u8>) -> Geometry {
    let sb = disk.subrange(1024, 2048);
    Geometry {
        block_size: block_size_of(le32(sb, 24)),
        inodes_per_group: le32(sb, 40),
        blocks_per_group: le32(sb, 32),
        inode_size: if le32(sb, 76) >= 1 {
            le16(sb, 88) as u32
        } else {
            128
        },
    }
}

pub open spec fn block_size_of(log: u32) -> u32 {
    if log == 0 {
        1024
    } else if log == 1 {
        2048
    } else {
        4096
    }
}

pub open spec fn group_count(disk: Seq<u8>) -> int {
    let sb = disk.subrange(1024, 2048);
    let per_group = le32(sb, 32);
    (le32(sb, 4) + per_group - 1) / (per_group as int)
}

/// The device holds a volume that can be worked with. The superblock is one.
/// A block fits in a page, the bitmaps of a group fit in a block each, and no
/// inode runs from one block into the next, so that nothing is read or written
/// past the end of a block. The size of the descriptor table can be reckoned
/// with 32 bits. To read the table, as many blocks are read from where it starts
/// as it has bytes, less one; that is more than it takes, and all of these blocks
/// lie inside the device.
pub open spec fn mountable(disk: Seq<u8>) -> bool {
    let sb = disk.subrange(1024, 2048);
    let geo = geometry_of(disk);
    let n = group_count(disk);
    &&& disk.len() >= 2048
    &&& le16(sb, 56) == EXT2_MAGIC
    &&& le32(sb, 24) <= 2
    &&& geo.wf()
    &&& n > 0
    &&& n * 32 * geo.bs() <= u32::MAX
    &&& le32(sb, 4) + geo.blocks_per_group - 1 <= u32::MAX
    &&& (geo.table_start() + n * 32 - 1) * geo.bs() <= disk.len()
}

/// The group descriptors on a device.
pub open spec fn groups_on(disk: Seq<u8>) -> Seq<DiskGroupDesc> {
    let geo = geometry_of(disk);
    Seq::new(
        group_count(disk) as nat,
        |i: int| group_of(disk, geo.table_start() * geo.bs() + 32 * i),
    )
}

impl<D: BlockDevice> Ext2FileSystem<D> {
    pub open spec fn geo(&self) -> Geometry {
        Geometry {
            block_size: self.block_size,
            inodes_per_group: self.inodes_per_group,
            blocks_per_group: self.blocks_per_group,
            inode_size: self.inode_size,
        }
    }

    pub open spec fn volume(&self) -> Volume {
        Volume { blocks: self.cache@, groups: self.bgdt@ }
    }

    pub open spec fn wf(&self) -> bool {
        &&& self.cache.wf()
        &&& self.cache.size() == self.block_size
        &&& self.sectors_per_block == self.geo().sectors_per_block()
        &&& self.volume().wf(self.geo())
    }

    pub open spec fn reliable(&self) -> bool {
        self.cache.reliable()
    }

    /// Reads the superblock and the group descriptors of a device.
    pub fn mount(partition: D) -> (r: Result<Self, ()>)
        ensures
            r matches Ok(fs) ==> {
                &&& mountable(partition.content())
                &&& fs.wf()
                &&& fs.geo() == geometry_of(partition.content())
                &&& fs.bgdt@ == groups_on(partition.content())
                &&& fs.cache.content() == partition.content()
                &&& fs.volume().blocks == blocks_of(partition.content(), fs.block_size as int)
                &&& fs.reliable() == partition.reliable()
            },
            partition.reliable() ==> (r is Ok <==> mountable(partition.content())),
    {
        let ghost disk = partition.content();
        let sb = match partition.read_sectors(2, 2) {
            Ok(sb) => sb,
            Err(_) => {
                return Err(());
            },
        };
        assert(sb@ == disk.subrange(1024, 2048));
        if get16(&sb, 56) != EXT2_MAGIC {
            return Err(());
        }
        let log = get32(&sb, 24);
        if log > 2 {
            return Err(());
        }
        let block_size: u32 = if log == 0 {
            1024
        } else if log == 1 {
            2048
        } else {
            4096
        };
        let inode_size: u32 = if get32(&sb, 76) >= 1 {
            get16(&sb, 88) as u32
        } else {
            128
        };
        let inodes_per_group = get32(&sb, 40);
        let blocks_per_group = get32(&sb, 32);
        if inodes_per_group == 0 || inodes_per_group > 8 * block_size || blocks_per_group == 0
            || blocks_per_group > 8 * block_size || inode_size < 128 || inode_size > block_size
            || block_size % inode_size != 0 {
            return Err(());
        }
        let total_blocks = get32(&sb, 4) as u64;
        let rounded = total_blocks + blocks_per_group as u64 - 1;
        let num_groups = rounded / blocks_per_group as u64;
        let ghost geo = geometry_of(disk);
        proof {
            assert(num_groups == group_count(disk));
            assert(num_groups <= rounded) by (nonlinear_arith)
                requires
                    num_groups == rounded / blocks_per_group as u64,
                    blocks_per_group > 0,
            ;
            assert(num_groups * 32 * block_size <= 0x1_ffff_ffff * 32 * 4096) by (nonlinear_arith)
                requires
                    0 <= num_groups <= 0x1_ffff_ffff,
                    0 <= block_size <= 4096,
            ;
        }
        if num_groups == 0 || rounded > 0xFFFF_FFFF || num_groups * 32 * (block_size as u64)
            > 0xFFFF_FFFF {
            return Err(());
        }
        proof {
            assert(4 * (num_groups * blocks_per_group) <= num_groups * 32 * block_size && 4 * (
            num_groups * inodes_per_group) <= num_groups * 32 * block_size) by (nonlinear_arith)
                requires
                    0 <= num_groups,
                    blocks_per_group <= 8 * block_size,
                    inodes_per_group <= 8 * block_size,
            ;
        }
        let sectors_per_block = block_size / 512;
        let bgdt_start_block: u64 = if block_size == 1024 {
            2
        } else {
            1
        };
        let bgdt_start_sector = bgdt_start_block * sectors_per_block as u64;
        proof {
            assert(num_groups <= 131072) by (nonlinear_arith)
                requires
                    num_groups * 32 * block_size <= 0xFFFF_FFFF,
                    block_size >= 1024,
            ;
            lemma_table_sectors(
                geo.table_start(),
                num_groups as int,
                block_size as int,
                disk.len() as int,
            );
        }
        let bgdt_sectors = (num_groups * 32 - 1) * sectors_per_block as u64;
        let table = match partition.read_sectors(bgdt_start_sector, bgdt_sectors) {
            Ok(table) => table,
            Err(_) => {
                return Err(());
            },
        };
        let ghost start = geo.table_start() * geo.bs();
        let mut bgdt: Vec<DiskGroupDesc> = Vec::new();
        let mut i: usize = 0;
        while i < num_groups as usize
            invariant
                i <= num_groups <= 131072,
                table@.len() >= 32 * num_groups,
                start >= 0,
                start + table@.len() <= disk.len(),
                table@ == disk.subrange(start, start + table@.len()),
                bgdt@ =~= Seq::new(i as nat, |k: int| group_of(disk, start + 32 * k)),
            decreases num_groups - i,
        {
            let group = DiskGroupDesc::read(&table, 32 * i);
            proof {
                lemma_group_in_part(disk, start, table@.len() as int, 32 * i as int);
            }
            bgdt.push(group);
            i += 1;
        }
        let cache = BlockCache::new(partition, block_size);
        let fs = Ext2FileSystem {
            cache,
            block_size,
            sectors_per_block,
            inodes_per_group,
            blocks_per_group,
            inode_size,
            bgdt,
        };
        proof {
            assert(fs.bgdt@ =~= groups_on(disk));
            fs.cache.lemma_blocks();
            assert forall|g: int| 0 <= g < fs.bgdt@.len() implies #[trigger] fs.geo().group_block(g)
                < fs.volume().blocks.len() by {
                lemma_descriptor_fits(g, block_size as int);
            }
        }
        Ok(fs)
    }

    /// Reads a block; block zero stands for a hole, which reads as zeroes.
    pub fn read_block(&self, block_id: u32) -> (r: Result<Vec<u8>, ()>)
        requires
            self.wf(),
        ensures
            r matches Ok(data) ==> content(self.geo(), self.volume(), block_id as int) == Some(
                data@,
            ) && data@.len() == self.block_size,
            self.reliable() ==> (r is Ok <==> content(
                self.geo(),
                self.volume(),
                block_id as int,
            ) is Some),
    {
        if block_id == 0 {
            return Ok(zero_bytes(self.block_size as usize));
        }
        self.cache.read_block(block_id)
    }

    /// The block of an inode and the place in it.
    fn locate(&self, inode_num: u32) -> (r: Option<(u32, usize)>)
        requires
            self.wf(),
        ensures
            match r {
                Some((block, at)) => inode_place(self.geo(), self.volume(), inode_num) == Some(
                    (block as int, at as int),
                ) && at + 128 <= self.block_size,
                None => inode_place(self.geo(), self.volume(), inode_num) is None,
            },
    {
        if inode_num == 0 {
            return None;
        }
        let bg_index = (inode_num - 1) / self.inodes_per_group;
        let local_inode_idx = (inode_num - 1) % self.inodes_per_group;
        if bg_index as usize >= self.bgdt.len() {
            return None;
        }
        let inode_table_start_block = self.bgdt[bg_index as usize].inode_table;
        proof {
            lemma_inode_fits(
                local_inode_idx as int,
                self.inodes_per_group as int,
                self.inode_size as int,
                self.block_size as int,
            );
        }
        let byte_offset = local_inode_idx * self.inode_size;
        match inode_table_start_block.checked_add(byte_offset / self.block_size) {
            Some(block) => Some((block, (byte_offset % self.block_size) as usize)),
            None => None,
        }
    }

    pub fn read_inode(&self, inode_num: u32) -> (r: Result<DiskInode, ()>)
        requires
            self.wf(),
        ensures
            r matches Ok(inode) ==> stored_inode(self.geo(), self.volume(), inode_num) == Some(
                inode,
            ),
            self.reliable() ==> (r is Ok <==> stored_inode(
                self.geo(),
                self.volume(),
                inode_num,
            ) is Some),
    {
        match self.locate(inode_num) {
            Some((block, at)) => match self.read_block(block) {
                Ok(data) => Ok(DiskInode::read(&data, at)),
                Err(_) => Err(()),
            },
            None => Err(()),
        }
    }

    pub fn write_inode(&mut self, inode_num: u32, inode: &DiskInode) -> (r: Result<(), ()>)
        requires
            old(self).wf(),
        ensures
            final(self).wf(),
            final(self).geo() == old(self).geo(),
            final(self).volume().blocks.len() == old(self).volume().blocks.len(),
            old(self).reliable() ==> final(self).reliable(),
            r is Ok || old(self).reliable() ==> match with_stored(
                old(self).geo(),
                old(self).volume(),
                inode_num,
                *inode,
            ) {
                Some(after) => r is Ok && final(self).volume() == after,
                None => r is Err && final(self).volume() == old(self).volume(),
            },
    {
        match self.locate(inode_num) {
            Some((block, at)) => match self.read_block(block) {
                Ok(data) => {
                    let mut data = data;
                    inode.write(&mut data, at);
                    self.put_block(block, &data)
                },
                Err(_) => Err(()),
            },
            None => Err(()),
        }
    }

    /// The inode under a name in the first twelve blocks of a directory.
    pub fn lookup_in_dir(&self, inode: &DiskInode, name: &Vec<u8>) -> (r: Result<Option<u32>, ()>)
        requires
            self.wf(),
        ensures
            r is Ok || self.reliable() ==> r == looked_up(
                self.geo(),
                self.volume(),
                *inode,
                name@,
                0,
            ),
    {
        let mut direct_idx: usize = 0;
        while direct_idx < 12
            invariant
                direct_idx <= 12,
                self.wf(),
                looked_up(self.geo(), self.volume(), *inode, name@, 0) == looked_up(
                    self.geo(),
                    self.volume(),
                    *inode,
                    name@,
                    direct_idx as int,
                ),
            decreases 12 - direct_idx,
        {
            let block_id = inode.data.direct[direct_idx];
            if block_id != 0 {
                let data = match self.read_block(block_id) {
                    Ok(data) => data,
                    Err(_) => {
                        return Err(());
                    },
                };
                if let Some(at) = find_entry(&data, name) {
                    return Ok(Some(DiskDirHeader::read(&data, at).inode));
                }
            }
            direct_idx += 1;
        }
        Ok(None)
    }

    /// The disk block of a block of a file; zero where the file has a hole.
    pub fn resolve_file_block(&self, inode: &DiskInode, file_block_idx: u64) -> (r: Result<u32, ()>)
        requires
            self.wf(),
        ensures
            r matches Ok(block) ==> resolved(
                self.geo(),
                self.volume(),
                *inode,
                file_block_idx as int,
            ) == Some(block),
            self.reliable() ==> (r is Ok <==> resolved(
                self.geo(),
                self.volume(),
                *inode,
                file_block_idx as int,
            ) is Some),
    {
        let (depth, indices) = match self.indirect_path(file_block_idx) {
            Ok(path) => path,
            Err(_) => {
                return Err(());
            },
        };
        if depth == 0 {
            return Ok(inode.data.direct[file_block_idx as usize]);
        }
        let ghost path = (path_of(self.geo(), file_block_idx as int)->0).1;
        let mut table = Self::get_indirect_root(inode, depth);
        let mut level: usize = 0;
        assert(path.skip(0) =~= path);
        while level < depth
            invariant
                level <= depth <= 3,
                self.wf(),
                path_of(self.geo(), file_block_idx as int) == Some((depth as nat, path)),
                path_fits(self.geo(), path, indices),
                path.len() == depth,
                resolved(self.geo(), self.volume(), *inode, file_block_idx as int) == follow(
                    self.geo(),
                    self.volume(),
                    table,
                    path.skip(level as int),
                ),
            decreases depth - level,
        {
            if table == 0 {
                return Ok(0);
            }
            let data = match self.read_block(table) {
                Ok(data) => data,
                Err(_) => {
                    return Err(());
                },
            };
            proof {
                assert(path.skip(level as int).skip(1) =~= path.skip(level + 1));
            }
            table = get32(&data, 4 * indices[level]);
            level += 1;
        }
        Ok(table)
    }

    fn add_inode_block(&self, inode: &mut DiskInode)
        ensures
            *final(inode) == counted(*old(inode), self.sectors_per_block as int),
    {
        inode.blocks = inode.blocks.saturating_add(self.sectors_per_block);
    }

    fn remove_inode_block(&self, inode: &mut DiskInode)
        ensures
            *final(inode) == counted(*old(inode), -self.sectors_per_block),
    {
        inode.blocks = inode.blocks.saturating_sub(self.sectors_per_block);
    }

    fn read_pointer(&self, table_block: u32, index: usize) -> (r: Result<u32, ()>)
        requires
            self.wf(),
        ensures
            r matches Ok(value) ==> pointer_in(
                self.geo(),
                self.volume(),
                table_block,
                index as int,
            ) == Some(value),
            self.reliable() ==> (r is Ok <==> pointer_in(
                self.geo(),
                self.volume(),
                table_block,
                index as int,
            ) is Some),
    {
        let pointers = (self.block_size / 4) as usize;
        if table_block == 0 || index >= pointers {
            return Err(());
        }
        match self.read_block(table_block) {
            Ok(data) => Ok(get32(&data, 4 * index)),
            Err(_) => Err(()),
        }
    }

    /// Writes a pointer into a block of pointers, and tells whether the block
    /// holds none after that.
    fn write_pointer(&mut self, table_block: u32, index: usize, value: u32) -> (r: Result<
        bool,
        (),
    >)
        requires
            old(self).wf(),
        ensures
            final(self).wf(),
            final(self).geo() == old(self).geo(),
            old(self).reliable() ==> final(self).reliable(),
            r is Ok || old(self).reliable() ==> pointer_set(
                old(self).geo(),
                old(self).volume(),
                table_block,
                index as int,
                value,
            ) == (match r {
                Ok(empty) => Some((empty, final(self).volume())),
                Err(_) => None,
            }) && (r is Err ==> final(self).volume() == old(self).volume()),
    {
        let pointers = (self.block_size / 4) as usize;
        if table_block == 0 || index >= pointers {
            return Err(());
        }
        let mut data = match self.read_block(table_block) {
            Ok(data) => data,
            Err(_) => {
                return Err(());
            },
        };
        put32(&mut data, 4 * index, value);
        let empty = no_pointers(&data, pointers);
        match self.put_block(table_block, &data) {
            Ok(_) => Ok(empty),
            Err(_) => Err(()),
        }
    }

    /// How many levels of indirection lead to a block of a file, and the index
    /// at each of them.
    pub fn indirect_path(&self, file_block_idx: u64) -> (r: Result<(usize, [usize; 3]), ()>)
        requires
            self.wf(),
        ensures
            match path_of(self.geo(), file_block_idx as int) {
                Some((depth, path)) => r matches Ok((d, indices)) && {
                    &&& d == depth
                    &&& depth <= 3
                    &&& path_fits(self.geo(), path, indices)
                    &&& depth == 0 ==> file_block_idx < 12 && path.len() == 1
                    &&& depth > 0 ==> path.len() == depth
                },
                None => r is Err,
            },
    {
        let pointers = (self.block_size / 4) as u64;
        proof {
            assert(pointers == 256 || pointers == 512 || pointers == 1024);
            assert(pointers * pointers <= 0x10_0000 && pointers * pointers * pointers
                <= 0x4000_0000) by (nonlinear_arith)
                requires
                    0 <= pointers <= 1024,
            ;
            assert(pointers * pointers > 0) by (nonlinear_arith)
                requires
                    pointers > 0,
            ;
        }
        let double = pointers * pointers;
        let triple = double * pointers;
        if file_block_idx < 12 {
            return Ok((0, [file_block_idx as usize, 0, 0]));
        }
        let mut remaining = file_block_idx - 12;
        if remaining < pointers {
            return Ok((1, [remaining as usize, 0, 0]));
        }
        remaining = remaining - pointers;
        if remaining < double {
            proof {
                lemma_quotient(remaining as int, pointers as int, pointers as int);
            }
            return Ok(
                (2, [(remaining / pointers) as usize, (remaining % pointers) as usize, 0]),
            );
        }
        remaining = remaining - double;
        if remaining < triple {
            proof {
                lemma_quotient(remaining as int, double as int, pointers as int);
                lemma_quotient(remaining as int % double as int, pointers as int, pointers as int);
            }
            return Ok(
                (
                    3,
                    [
                        (remaining / double) as usize,
                        ((remaining % double) / pointers) as usize,
                        (remaining % pointers) as usize,
                    ],
                ),
            );
        }
        Err(())
    }

    fn get_indirect_root(inode: &DiskInode, depth: usize) -> (r: u32)
        ensures
            r == root_of(*inode, depth as nat),
    {
        match depth {
            1 => inode.data.single_indirect,
            2 => inode.data.double_indirect,
            3 => inode.data.triple_indirect,
            _ => 0,
        }
    }

    fn set_indirect_root(inode: &mut DiskInode, depth: usize, value: u32)
        ensures
            *final(inode) == with_root(*old(inode), depth as nat, value),
    {
        match depth {
            1 => {
                inode.data.single_indirect = value;
            },
            2 => {
                inode.data.double_indirect = value;
            },
            3 => {
                inode.data.triple_indirect = value;
            },
            _ => {},
        }
    }

    /// Brings a group descriptor and the superblock up to date.
    fn settle(&mut self, index: usize, group: DiskGroupDesc, kind: Bitmap, freed: bool) -> (r:
        Result<(), ()>)
        requires
            old(self).wf(),
            index < old(self).bgdt@.len(),
        ensures
            final(self).wf(),
            final(self).geo() == old(self).geo(),
            final(self).volume().blocks.len() == old(self).volume().blocks.len(),
            old(self).reliable() ==> final(self).reliable(),
            r is Ok || old(self).reliable() ==> r is Ok && final(self).volume() == settled(
                old(self).geo(),
                old(self).volume(),
                index as int,
                group,
                kind,
                if freed {
                    1
                } else {
                    -1
                },
            ),
    {
        let ghost geo = self.geo();
        let ghost v = self.volume();
        self.bgdt[index] = group;
        let start: u32 = if self.block_size == 1024 {
            2
        } else {
            1
        };
        proof {
            lemma_descriptor_fits(index as int, self.block_size as int);
            assert(geo.group_block(index as int) < self.cache@.len());
            assert(self.volume().groups =~= v.groups.update(index as int, group));
        }
        let descriptor_offset = index as u32 * 32;
        let target = start + descriptor_offset / self.block_size;
        let at = (descriptor_offset % self.block_size) as usize;
        let mut data = match self.cache.read_block(target) {
            Ok(data) => data,
            Err(_) => {
                return Err(());
            },
        };
        group.write(&mut data, at);
        if self.put_block(target, &data).is_err() {
            return Err(());
        }
        let sb_block: u32 = if self.block_size == 1024 {
            1
        } else {
            0
        };
        let sb_at: usize = if self.block_size == 1024 {
            0
        } else {
            1024
        };
        let mut data = match self.cache.read_block(sb_block) {
            Ok(data) => data,
            Err(_) => {
                return Err(());
            },
        };
        let field = match kind {
            Bitmap::Blocks => sb_at + 12,
            Bitmap::Inodes => sb_at + 16,
        };
        let count = get32(&data, field);
        let count = if freed {
            count.saturating_add(1)
        } else {
            count.saturating_sub(1)
        };
        put32(&mut data, field, count);
        self.put_block(sb_block, &data)
    }

    /// Takes the first free block or inode.
    fn take(&mut self, kind: Bitmap, is_dir: bool) -> (r: Result<u32, ()>)
        requires
            old(self).wf(),
        ensures
            final(self).wf(),
            final(self).geo() == old(self).geo(),
            final(self).volume().blocks.len() == old(self).volume().blocks.len(),
            old(self).reliable() ==> final(self).reliable(),
            r is Ok || old(self).reliable() ==> taken(
                old(self).geo(),
                old(self).volume(),
                kind,
                is_dir,
            ) == (r.ok(), final(self).volume()),
    {
        let num_groups = self.bgdt.len();
        let ghost geo = self.geo();
        let ghost v = self.volume();
        let mut index: usize = 0;
        while index < num_groups
            invariant
                index <= num_groups,
                num_groups == v.groups.len(),
                self.wf(),
                *self == *old(self),
                geo == self.geo(),
                v == self.volume(),
                pick(geo, v, kind, 0) == pick(geo, v, kind, index as int),
            decreases num_groups - index,
        {
            let group = self.bgdt[index];
            let (count, bitmap) = match kind {
                Bitmap::Blocks => (group.free_blocks_count, group.block_bitmap),
                Bitmap::Inodes => (group.free_inodes_count, group.inode_bitmap),
            };
            if count > 0 {
                let mut data = match self.read_block(bitmap) {
                    Ok(data) => data,
                    Err(_) => {
                        return Err(());
                    },
                };
                if let Some(bit_idx) = find_clear_bit(&data) {
                    let byte = bit_idx / 8;
                    let shift = (bit_idx % 8) as u8;
                    let val = data[byte];
                    data[byte] = val | (1u8 << shift);
                    if self.put_block(bitmap, &data).is_err() {
                        return Err(());
                    }
                    let mut changed = group;
                    proof {
                        lemma_number_fits(
                            index as int,
                            v.groups.len() as int,
                            geo.blocks_per_group as int,
                        );
                        lemma_number_fits(
                            index as int,
                            v.groups.len() as int,
                            geo.inodes_per_group as int,
                        );
                    }
                    let number = match kind {
                        Bitmap::Blocks => {
                            changed.free_blocks_count = changed.free_blocks_count - 1;
                            let first: u32 = if self.block_size == 1024 {
                                1
                            } else {
                                0
                            };
                            index as u32 * self.blocks_per_group + bit_idx as u32 + first
                        },
                        Bitmap::Inodes => {
                            changed.free_inodes_count = changed.free_inodes_count - 1;
                            if is_dir {
                                changed.used_dirs_count = changed.used_dirs_count.saturating_add(1);
                            }
                            index as u32 * self.inodes_per_group + bit_idx as u32 + 1
                        },
                    };
                    assert(changed == recounted(group, kind, -1, is_dir));
                    return match self.settle(index, changed, kind, false) {
                        Ok(_) => Ok(number),
                        Err(_) => Err(()),
                    };
                }
            }
            index += 1;
        }
        Err(())
    }

    /// Gives a block or an inode back.
    fn give_back(&mut self, kind: Bitmap, number: u32, is_dir: bool) -> (r: Result<(), ()>)
        requires
            old(self).wf(),
            number > 0,
        ensures
            final(self).wf(),
            final(self).geo() == old(self).geo(),
            final(self).volume().blocks.len() == old(self).volume().blocks.len(),
            old(self).reliable() ==> final(self).reliable(),
            r is Ok || old(self).reliable() ==> match released(
                old(self).geo(),
                old(self).volume(),
                kind,
                number as int,
                is_dir,
            ) {
                Some(after) => r is Ok && final(self).volume() == after,
                None => r is Err && final(self).volume() == old(self).volume(),
            },
    {
        let (relative, per_group) = match kind {
            Bitmap::Blocks => {
                let first: u32 = if self.block_size == 1024 {
                    1
                } else {
                    0
                };
                (number - first, self.blocks_per_group)
            },
            Bitmap::Inodes => (number - 1, self.inodes_per_group),
        };
        let index = (relative / per_group) as usize;
        let local_idx = relative % per_group;
        if index >= self.bgdt.len() {
            return Err(());
        }
        let group = self.bgdt[index];
        let bitmap = match kind {
            Bitmap::Blocks => group.block_bitmap,
            Bitmap::Inodes => group.inode_bitmap,
        };
        let mut data = match self.read_block(bitmap) {
            Ok(data) => data,
            Err(_) => {
                return Err(());
            },
        };
        let byte_idx = (local_idx / 8) as usize;
        let shift = (local_idx % 8) as u8;
        let val = data[byte_idx];
        if (val & (1u8 << shift)) == 0 {
            return Err(());
        }
        data[byte_idx] = val & !(1u8 << shift);
        proof {
            lemma_zero_bits();
        }
        if self.put_block(bitmap, &data).is_err() {
            return Err(());
        }
        let mut changed = group;
        match kind {
            Bitmap::Blocks => {
                changed.free_blocks_count = changed.free_blocks_count.saturating_add(1);
            },
            Bitmap::Inodes => {
                changed.free_inodes_count = changed.free_inodes_count.saturating_add(1);
                if is_dir {
                    changed.used_dirs_count = changed.used_dirs_count.saturating_sub(1);
                }
            },
        }
        assert(changed == recounted(group, kind, 1, is_dir));
        self.settle(index, changed, kind, true)
    }

    pub fn allocate_block(&mut self) -> (r: Result<u32, ()>)
        requires
            old(self).wf(),
        ensures
            final(self).wf(),
            final(self).geo() == old(self).geo(),
            final(self).volume().blocks.len() == old(self).volume().blocks.len(),
            old(self).reliable() ==> final(self).reliable(),
            r is Ok || old(self).reliable() ==> taken(
                old(self).geo(),
                old(self).volume(),
                Bitmap::Blocks,
                false,
            ) == (r.ok(), final(self).volume()),
    {
        self.take(Bitmap::Blocks, false)
    }

    pub fn allocate_inode(&mut self, is_dir: bool) -> (r: Result<u32, ()>)
        requires
            old(self).wf(),
        ensures
            final(self).wf(),
            final(self).geo() == old(self).geo(),
            final(self).volume().blocks.len() == old(self).volume().blocks.len(),
            old(self).reliable() ==> final(self).reliable(),
            r is Ok || old(self).reliable() ==> taken(
                old(self).geo(),
                old(self).volume(),
                Bitmap::Inodes,
                is_dir,
            ) == (r.ok(), final(self).volume()),
    {
        self.take(Bitmap::Inodes, is_dir)
    }

    pub fn free_inode(&mut self, inode_num: u32, is_dir: bool) -> (r: Result<(), ()>)
        requires
            old(self).wf(),
        ensures
            final(self).wf(),
            final(self).geo() == old(self).geo(),
            final(self).volume().blocks.len() == old(self).volume().blocks.len(),
            old(self).reliable() ==> final(self).reliable(),
            r is Ok || old(self).reliable() ==> match inode_released(
                old(self).geo(),
                old(self).volume(),
                inode_num,
                is_dir,
            ) {
                Some(after) => r is Ok && final(self).volume() == after,
                None => r is Err && final(self).volume() == old(self).volume(),
            },
    {
        if inode_num == 0 {
            return Err(());
        }
        self.give_back(Bitmap::Inodes, inode_num, is_dir)
    }

    pub fn free_block(&mut self, block_id: u32) -> (r: Result<(), ()>)
        requires
            old(self).wf(),
        ensures
            final(self).wf(),
            final(self).geo() == old(self).geo(),
            final(self).volume().blocks.len() == old(self).volume().blocks.len(),
            old(self).reliable() ==> final(self).reliable(),
            r is Ok || old(self).reliable() ==> match block_released(
                old(self).geo(),
                old(self).volume(),
                block_id,
            ) {
                Some(after) => r is Ok && final(self).volume() == after,
                None => r is Err && final(self).volume() == old(self).volume(),
            },
    {
        if block_id == 0 {
            return Ok(());
        }
        self.give_back(Bitmap::Blocks, block_id, false)
    }

    fn allocate_zeroed_block(&mut self) -> (r: Result<u32, ()>)
        requires
            old(self).wf(),
        ensures
            final(self).wf(),
            final(self).geo() == old(self).geo(),
            old(self).reliable() ==> final(self).reliable(),
            r is Ok || old(self).reliable() ==> zeroed(old(self).geo(), old(self).volume()) == (
                r.ok(),
                final(self).volume(),
            ),
    {
        let block = match self.allocate_block() {
            Ok(block) => block,
            Err(_) => {
                return Err(());
            },
        };
        let data = zero_bytes(self.block_size as usize);
        if self.put_block(block, &data).is_err() {
            let _ = self.free_block(block);
            return Err(());
        }
        Ok(block)
    }

    /// The block at the end of a path below a block of pointers, taking what
    /// is missing.
    fn grow(&mut self, inode: &mut DiskInode, table: u32, indices: &[usize; 3], level: usize, depth:
        usize, path: Ghost<Seq<int>>) -> (r: Result<u32, ()>)
        requires
            old(self).wf(),
            level < depth <= 3,
            path_fits(old(self).geo(), path@, *indices),
            path@.len() == depth,
        ensures
            final(self).wf(),
            final(self).geo() == old(self).geo(),
            old(self).reliable() ==> final(self).reliable(),
            r is Ok || old(self).reliable() ==> grown(
                old(self).geo(),
                old(self).volume(),
                *old(inode),
                table,
                path@.skip(level as int),
            ) == (r.ok(), final(self).volume(), *final(inode)),
        decreases depth - level,
    {
        let ghost rest = path@.skip(level as int);
        proof {
            assert(rest[0] == path@[level as int]);
            assert(rest.skip(1) =~= path@.skip(level + 1));
        }
        let last = level + 1 == depth;
        let child = match self.read_pointer(table, indices[level]) {
            Ok(child) => child,
            Err(_) => {
                return Err(());
            },
        };
        if child != 0 {
            if last {
                return Ok(child);
            }
            return self.grow(inode, child, indices, level + 1, depth, path);
        }
        let fresh = if last {
            self.allocate_block()
        } else {
            self.allocate_zeroed_block()
        };
        let block = match fresh {
            Ok(block) => block,
            Err(_) => {
                return Err(());
            },
        };
        if self.write_pointer(table, indices[level], block).is_err() {
            let _ = self.free_block(block);
            return Err(());
        }
        self.add_inode_block(inode);
        if last {
            return Ok(block);
        }
        self.grow(inode, block, indices, level + 1, depth, path)
    }

    /// The disk block of a block of a file; a hole gets one.
    pub fn allocate_file_block(&mut self, inode: &mut DiskInode, file_block_idx: u64) -> (r: Result<
        u32,
        (),
    >)
        requires
            old(self).wf(),
        ensures
            final(self).wf(),
            final(self).geo() == old(self).geo(),
            old(self).reliable() ==> final(self).reliable(),
            r is Ok || old(self).reliable() ==> file_block_taken(
                old(self).geo(),
                old(self).volume(),
                *old(inode),
                file_block_idx as int,
            ) == (r.ok(), final(self).volume(), *final(inode)),
    {
        proof {
            reveal(file_block_taken);
        }
        let (depth, indices) = match self.indirect_path(file_block_idx) {
            Ok(path) => path,
            Err(_) => {
                return Err(());
            },
        };
        let ghost path = (path_of(self.geo(), file_block_idx as int)->0).1;
        if depth == 0 {
            let idx = file_block_idx as usize;
            let existing = inode.data.direct[idx];
            if existing != 0 {
                return Ok(existing);
            }
            let data = match self.allocate_block() {
                Ok(data) => data,
                Err(_) => {
                    return Err(());
                },
            };
            let ghost before = *inode;
            inode.data.direct[idx] = data;
            assert(inode.data.direct =~= with_direct(before, idx as int, data).data.direct);
            self.add_inode_block(inode);
            return Ok(data);
        }
        let mut root = Self::get_indirect_root(inode, depth);
        if root == 0 {
            root = match self.allocate_zeroed_block() {
                Ok(root) => root,
                Err(_) => {
                    return Err(());
                },
            };
            Self::set_indirect_root(inode, depth, root);
            self.add_inode_block(inode);
        }
        assert(path.skip(0) =~= path);
        self.grow(inode, root, &indices, 0, depth, Ghost(path))
    }

    /// Gives a block of pointers back if it is empty.
    fn prune_table(&mut self, inode: &mut DiskInode, table: u32, empty: bool) -> (r: Result<
        bool,
        (),
    >)
        requires
            old(self).wf(),
        ensures
            final(self).wf(),
            final(self).geo() == old(self).geo(),
            old(self).reliable() ==> final(self).reliable(),
            r is Ok || old(self).reliable() ==> table_pruned(
                old(self).geo(),
                old(self).volume(),
                *old(inode),
                table,
                empty,
            ) == (r, final(self).volume(), *final(inode)),
    {
        if !empty {
            return Ok(false);
        }
        if self.free_block(table).is_err() {
            return Err(());
        }
        self.remove_inode_block(inode);
        Ok(true)
    }

    /// Takes the block at the end of a path out of the file, and tells whether
    /// `table` went with it.
    fn prune(&mut self, inode: &mut DiskInode, table: u32, indices: &[usize; 3], level: usize, depth:
        usize, path: Ghost<Seq<int>>) -> (r: Result<bool, ()>)
        requires
            old(self).wf(),
            level < depth <= 3,
            path_fits(old(self).geo(), path@, *indices),
            path@.len() == depth,
        ensures
            final(self).wf(),
            final(self).geo() == old(self).geo(),
            old(self).reliable() ==> final(self).reliable(),
            r is Ok || old(self).reliable() ==> pruned(
                old(self).geo(),
                old(self).volume(),
                *old(inode),
                table,
                path@.skip(level as int),
            ) == (r, final(self).volume(), *final(inode)),
        decreases depth - level,
    {
        let ghost rest = path@.skip(level as int);
        proof {
            assert(rest[0] == path@[level as int]);
            assert(rest.skip(1) =~= path@.skip(level + 1));
        }
        let child = match self.read_pointer(table, indices[level]) {
            Ok(child) => child,
            Err(_) => {
                return Err(());
            },
        };
        if child == 0 {
            return Ok(false);
        }
        if level + 1 == depth {
            let empty = match self.write_pointer(table, indices[level], 0) {
                Ok(empty) => empty,
                Err(_) => {
                    return Err(());
                },
            };
            if self.free_block(child).is_err() {
                return Err(());
            }
            self.remove_inode_block(inode);
            return self.prune_table(inode, table, empty);
        }
        match self.prune(inode, child, indices, level + 1, depth, path) {
            Ok(true) => {
                let empty = match self.write_pointer(table, indices[level], 0) {
                    Ok(empty) => empty,
                    Err(_) => {
                        return Err(());
                    },
                };
                self.prune_table(inode, table, empty)
            },
            other => other,
        }
    }

    /// Makes a block of a file a hole.
    pub fn clear_file_block(&mut self, inode: &mut DiskInode, file_block_idx: u64) -> (r: Result<
        (),
        (),
    >)
        requires
            old(self).wf(),
        ensures
            final(self).wf(),
            final(self).geo() == old(self).geo(),
            old(self).reliable() ==> final(self).reliable(),
            r is Ok || old(self).reliable() ==> file_block_cleared(
                old(self).geo(),
                old(self).volume(),
                *old(inode),
                file_block_idx as int,
            ) == (r, final(self).volume(), *final(inode)),
    {
        proof {
            reveal(file_block_cleared);
        }
        let (depth, indices) = match self.indirect_path(file_block_idx) {
            Ok(path) => path,
            Err(_) => {
                return Err(());
            },
        };
        let ghost path = (path_of(self.geo(), file_block_idx as int)->0).1;
        if depth == 0 {
            let idx = file_block_idx as usize;
            let data = inode.data.direct[idx];
            if data != 0 {
                let ghost before = *inode;
                inode.data.direct[idx] = 0;
                assert(inode.data.direct =~= with_direct(before, idx as int, 0).data.direct);
                if self.free_block(data).is_err() {
                    return Err(());
                }
                self.remove_inode_block(inode);
            }
            return Ok(());
        }
        let root = Self::get_indirect_root(inode, depth);
        if root == 0 {
            return Ok(());
        }
        assert(path.skip(0) =~= path);
        match self.prune(inode, root, &indices, 0, depth, Ghost(path)) {
            Ok(gone) => {
                if gone {
                    Self::set_indirect_root(inode, depth, 0);
                }
                Ok(())
            },
            Err(_) => Err(()),
        }
    }

    /// The pointers that a block of pointers holds, none if it cannot be read.
    fn pointers_in(&self, table: u32) -> (r: Vec<u32>)
        requires
            self.wf(),
        ensures
            self.reliable() ==> r@ == pointers_of(self.geo(), self.volume(), table),
    {
        let mut out: Vec<u32> = Vec::new();
        let data = match self.read_block(table) {
            Ok(data) => data,
            Err(_) => {
                return out;
            },
        };
        let pointers = (self.block_size / 4) as usize;
        let mut i: usize = 0;
        while i < pointers
            invariant
                i <= pointers <= 1024,
                4 * pointers <= data@.len(),
                out@ == nonzero(data@, i as int),
            decreases pointers - i,
        {
            let block = get32(&data, 4 * i);
            if block != 0 {
                out.push(block);
            }
            i += 1;
        }
        out
    }

    /// The pointers that all blocks of pointers hold.
    fn pointers_in_all(&self, tables: &Vec<u32>) -> (r: Vec<u32>)
        requires
            self.wf(),
        ensures
            self.reliable() ==> r@ == pointers_of_all(self.geo(), self.volume(), tables@),
    {
        let mut out: Vec<u32> = Vec::new();
        let mut i: usize = 0;
        assert(tables@.take(0) =~= Seq::empty());
        while i < tables.len()
            invariant
                i <= tables@.len(),
                self.wf(),
                self.reliable() ==> out@ == pointers_of_all(
                    self.geo(),
                    self.volume(),
                    tables@.take(i as int),
                ),
            decreases tables@.len() - i,
        {
            let mut more = self.pointers_in(tables[i]);
            proof {
                let next = tables@.take(i + 1);
                assert(next.drop_last() =~= tables@.take(i as int));
                assert(next.last() == tables@[i as int]);
            }
            out.append(&mut more);
            i += 1;
        }
        assert(tables@.take(tables@.len() as int) =~= tables@);
        out
    }

    /// Gives blocks back, those that can.
    fn free_each(&mut self, blocks: &Vec<u32>)
        requires
            old(self).wf(),
        ensures
            final(self).wf(),
            final(self).geo() == old(self).geo(),
            old(self).reliable() ==> final(self).reliable(),
            old(self).reliable() ==> final(self).volume() == each_released(
                old(self).geo(),
                old(self).volume(),
                blocks@,
            ),
    {
        let mut i: usize = 0;
        assert(blocks@.take(0) =~= Seq::empty());
        while i < blocks.len()
            invariant
                i <= blocks@.len(),
                self.wf(),
                self.geo() == old(self).geo(),
                old(self).reliable() ==> self.reliable(),
                old(self).reliable() ==> self.volume() == each_released(
                    old(self).geo(),
                    old(self).volume(),
                    blocks@.take(i as int),
                ),
            decreases blocks@.len() - i,
        {
            proof {
                let next = blocks@.take(i + 1);
                assert(next.drop_last() =~= blocks@.take(i as int));
                assert(next.last() == blocks@[i as int]);
            }
            let _ = self.free_block(blocks[i]);
            i += 1;
        }
        assert(blocks@.take(blocks@.len() as int) =~= blocks@);
    }

    /// Gives the data blocks of a file back.
    fn free_data(&mut self, inode: &DiskInode) -> (r: Result<(), ()>)
        requires
            old(self).wf(),
        ensures
            final(self).wf(),
            final(self).geo() == old(self).geo(),
            old(self).reliable() ==> final(self).reliable(),
            old(self).reliable() ==> data_released(
                old(self).geo(),
                old(self).volume(),
                *inode,
                0,
            ) == (r, final(self).volume()),
    {
        let total_blocks = (inode.size / self.block_size) as u64;
        let mut idx: u64 = 0;
        while idx < total_blocks
            invariant
                idx <= total_blocks,
                total_blocks == inode.size as int / self.geo().bs(),
                self.wf(),
                self.geo() == old(self).geo(),
                old(self).reliable() ==> self.reliable(),
                old(self).reliable() ==> data_released(
                    old(self).geo(),
                    old(self).volume(),
                    *inode,
                    0,
                ) == data_released(self.geo(), self.volume(), *inode, idx as int),
            decreases total_blocks - idx,
        {
            let block = match self.resolve_file_block(inode, idx) {
                Ok(block) => block,
                Err(_) => 0,
            };
            if block != 0 {
                if self.free_block(block).is_err() {
                    return Err(());
                }
            }
            idx += 1;
        }
        Ok(())
    }

    /// Gives all blocks of a file back.
    fn free_file(&mut self, inode: &DiskInode) -> (r: Result<(), ()>)
        requires
            old(self).wf(),
        ensures
            final(self).wf(),
            final(self).geo() == old(self).geo(),
            old(self).reliable() ==> final(self).reliable(),
            old(self).reliable() ==> file_released(
                old(self).geo(),
                old(self).volume(),
                *inode,
            ) == (r, final(self).volume()),
    {
        if self.free_data(inode).is_err() {
            return Err(());
        }
        if self.free_block(inode.data.single_indirect).is_err() {
            return Err(());
        }
        let double = inode.data.double_indirect;
        if double != 0 {
            let inner = self.pointers_in(double);
            self.free_each(&inner);
        }
        if self.free_block(double).is_err() {
            return Err(());
        }
        let triple = inode.data.triple_indirect;
        if triple != 0 {
            let outer = self.pointers_in(triple);
            let inner = self.pointers_in_all(&outer);
            self.free_each(&inner);
            self.free_each(&outer);
        }
        if self.free_block(triple).is_err() {
            return Err(());
        }
        Ok(())
    }

    /// Reads up to a page of a file.
    fn read_at(&self, inode: &DiskInode, offset: u64, len: u64) -> (r: Result<Vec<u8>, ()>)
        requires
            self.wf(),
            len <= 4096,
        ensures
            r is Ok || self.reliable() ==> (match r {
                Ok(data) => Some(data@),
                Err(_) => None,
            }) == read_from(self.geo(), self.volume(), *inode, offset as int, len as int),
            r matches Ok(data) ==> data@.len() <= len,
    {
        let size = inode.size as u64;
        if offset >= size || len == 0 {
            return Ok(Vec::new());
        }
        let read_len = if size - offset < len {
            size - offset
        } else {
            len
        };
        let blocks_per_page = (4096 / self.block_size) as u64;
        let start = offset / self.block_size as u64;
        let mut page: Vec<u8> = Vec::new();
        let mut i: u64 = 0;
        proof {
            assert(start <= u32::MAX) by (nonlinear_arith)
                requires
                    start == offset / self.block_size as u64,
                    offset <= u32::MAX,
                    self.block_size > 0,
            ;
        }
        while i < blocks_per_page
            invariant
                i <= blocks_per_page <= 4,
                blocks_per_page == 4096int / self.geo().bs(),
                start <= u32::MAX,
                start == offset as int / self.geo().bs(),
                self.wf(),
                offset < inode.size,
                len > 0,
                page@.len() == i * self.block_size,
                page_blocks(self.geo(), self.volume(), *inode, offset as int, i as int) == Some(
                    page@,
                ),
            decreases blocks_per_page - i,
        {
            let resolved_block = self.resolve_file_block(inode, start + i);
            proof {
                if resolved_block is Err && self.reliable() {
                    lemma_page_blocks_stop(
                        self.geo(),
                        self.volume(),
                        *inode,
                        offset as int,
                        i as int,
                        blocks_per_page as int,
                    );
                }
            }
            let block = match resolved_block {
                Ok(block) => block,
                Err(_) => {
                    return Err(());
                },
            };
            let mut data = if block == 0 {
                zero_bytes(self.block_size as usize)
            } else {
                let raw = self.read_raw(block);
                proof {
                    if raw is Err && self.reliable() {
                        lemma_page_blocks_stop(
                            self.geo(),
                            self.volume(),
                            *inode,
                            offset as int,
                            i as int,
                            blocks_per_page as int,
                        );
                    }
                }
                match raw {
                    Ok(data) => data,
                    Err(_) => {
                        return Err(());
                    },
                }
            };
            assert((i + 1) * self.block_size == i * self.block_size + self.block_size)
                by (nonlinear_arith);
            page.append(&mut data);
            i += 1;
        }
        proof {
            assert(page@.len() == 4096);
        }
        Ok(copy_bytes(&page, 0, read_len as usize))
    }

    /// Writes whole blocks to a file, giving it those that it lacks, and stores
    /// its inode.
    fn write_at(&mut self, num: u32, inode: &mut DiskInode, offset: u64, data: &Vec<u8>) -> (r: Result<
        (),
        (),
    >)
        requires
            old(self).wf(),
            data@.len() <= 4096,
        ensures
            final(self).wf(),
            final(self).geo() == old(self).geo(),
            old(self).reliable() ==> final(self).reliable(),
            old(self).reliable() ==> page_stored(
                old(self).geo(),
                old(self).volume(),
                num,
                *old(inode),
                offset as int,
                data@,
            ) == (r, final(self).volume(), *final(inode)),
            r is Ok ==> page_put(
                old(self).geo(),
                old(self).volume(),
                final(self).volume(),
                num,
                *old(inode),
                *final(inode),
                offset as int,
                data@,
            ),
    {
        let ghost geo = self.geo();
        let ghost v = self.volume();
        let ghost first = *inode;
        let ghost mut course: Course = seq![(v, first)];
        let block_size = self.block_size as usize;
        let blocks = data.len() / block_size;
        let start = offset / self.block_size as u64;
        proof {
            lemma_whole_blocks(data@.len() as int, block_size as int);
            assert(start <= 0x3F_FFFF_FFFF_FFFF) by (nonlinear_arith)
                requires
                    start == offset / block_size as u64,
                    block_size >= 1024,
            ;
        }
        let mut i: usize = 0;
        while i < blocks
            invariant
                i <= blocks <= 4,
                blocks == data@.len() as int / geo.bs(),
                start == offset as int / geo.bs(),
                start <= 0x3F_FFFF_FFFF_FFFF,
                block_size == geo.bs(),
                blocks * block_size <= data@.len() <= 4096,
                self.wf(),
                self.geo() == geo,
                geo == old(self).geo(),
                v == old(self).volume(),
                first == *old(inode),
                old(self).reliable() ==> self.reliable(),
                course.len() == i + 1,
                course[0] == (v, first),
                course.last() == (self.volume(), *inode),
                blocks_put(geo, course, offset as int, data@),
                old(self).reliable() ==> blocks_written(geo, v, first, offset as int, data@, 0)
                    == blocks_written(
                    geo,
                    self.volume(),
                    *inode,
                    offset as int,
                    data@,
                    i as int,
                ),
            decreases blocks - i,
        {
            let idx = start + i as u64;
            let ghost was = (self.volume(), *inode);
            let mut block = match self.resolve_file_block(inode, idx) {
                Ok(block) => block,
                Err(_) => 0,
            };
            if block == 0 {
                let mut changed = *inode;
                block = match self.allocate_file_block(&mut changed, idx) {
                    Ok(block) => block,
                    Err(_) => {
                        return Err(());
                    },
                };
                *inode = changed;
            }
            proof {
                lemma_block_inside_data(i as int, blocks as int, block_size as int);
            }
            let part = copy_bytes(data, i * block_size, block_size);
            let ghost held = self.volume();
            if self.put_block(block, &part).is_err() {
                return Err(());
            }
            proof {
                assert(self.volume() == held.with_block(block as int, part@));
                assert(block_put(
                    geo,
                    was.0,
                    self.volume(),
                    was.1,
                    *inode,
                    idx as int,
                    part@,
                ));
                course = lemma_course_step(
                    geo,
                    course,
                    (self.volume(), *inode),
                    offset as int,
                    data@,
                );
            }
            i += 1;
        }
        if self.write_inode(num, inode).is_err() {
            return Err(());
        }
        Ok(())
    }

    /// Gives a file another size on disk.
    fn resize_file(&mut self, num: u32, inode: &mut DiskInode, new_size: u32) -> (r: Result<(), ()>)
        requires
            old(self).wf(),
        ensures
            final(self).wf(),
            final(self).geo() == old(self).geo(),
            old(self).reliable() ==> final(self).reliable(),
            r is Ok || old(self).reliable() ==> resized(
                old(self).geo(),
                old(self).volume(),
                num,
                *old(inode),
                new_size,
            ) == (r, final(self).volume(), *final(inode)),
            r is Ok ==> final(inode).size == new_size,
            r is Err ==> *final(inode) == *old(inode),
    {
        let old_size = inode.size;
        if new_size == old_size {
            return Ok(());
        }
        let mut changed = *inode;
        if new_size < old_size {
            if self.clear_tail(inode, new_size).is_err() {
                return Err(());
            }
            let bs = self.block_size as u64;
            let first = (new_size as u64 + bs - 1) / bs;
            let end = (old_size as u64 + bs - 1) / bs;
            proof {
                assert(first <= end) by (nonlinear_arith)
                    requires
                        first == (new_size as u64 + bs - 1) / bs as int,
                        end == (old_size as u64 + bs - 1) / bs as int,
                        new_size < old_size,
                        bs > 0,
                ;
            }
            if self.clear_range(&mut changed, first, end).is_err() {
                return Err(());
            }
        }
        changed.size = new_size;
        if self.write_inode(num, &changed).is_err() {
            return Err(());
        }
        *inode = changed;
        Ok(())
    }

    /// Makes the blocks of a file from `first` to `end` holes.
    fn clear_range(&mut self, inode: &mut DiskInode, first: u64, end: u64) -> (r: Result<(), ()>)
        requires
            old(self).wf(),
            first <= end,
        ensures
            final(self).wf(),
            final(self).geo() == old(self).geo(),
            old(self).reliable() ==> final(self).reliable(),
            r is Ok || old(self).reliable() ==> blocks_cleared(
                old(self).geo(),
                old(self).volume(),
                *old(inode),
                first as int,
                end as int,
            ) == (r, final(self).volume(), *final(inode)),
    {
        let ghost geo = self.geo();
        let ghost v = self.volume();
        let ghost before = *inode;
        let mut idx: u64 = first;
        while idx < end
            invariant
                first <= idx <= end,
                self.wf(),
                self.geo() == geo,
                geo == old(self).geo(),
                v == old(self).volume(),
                before == *old(inode),
                old(self).reliable() ==> self.reliable(),
                blocks_cleared(geo, v, before, first as int, end as int) == blocks_cleared(
                    geo,
                    self.volume(),
                    *inode,
                    idx as int,
                    end as int,
                ),
            decreases end - idx,
        {
            if self.clear_file_block(inode, idx).is_err() {
                return Err(());
            }
            idx += 1;
        }
        Ok(())
    }

    /// Clears the bytes of a file from `size` to the end of its block.
    fn clear_tail(&mut self, inode: &DiskInode, size: u32) -> (r: Result<(), ()>)
        requires
            old(self).wf(),
        ensures
            final(self).wf(),
            final(self).geo() == old(self).geo(),
            old(self).reliable() ==> final(self).reliable(),
            r is Ok || old(self).reliable() ==> match tail_cleared(
                old(self).geo(),
                old(self).volume(),
                *inode,
                size as int,
            ) {
                Some(after) => r is Ok && final(self).volume() == after,
                None => r is Err && final(self).volume() == old(self).volume(),
            },
    {
        let at = (size % self.block_size) as usize;
        if at == 0 {
            return Ok(());
        }
        let block = match self.resolve_file_block(inode, (size / self.block_size) as u64) {
            Ok(block) => block,
            Err(_) => {
                return Err(());
            },
        };
        if block == 0 {
            return Ok(());
        }
        let mut data = match self.read_block(block) {
            Ok(data) => data,
            Err(_) => {
                return Err(());
            },
        };
        let zero = zero_bytes(self.block_size as usize - at);
        put_bytes(&mut data, at, &zero);
        self.put_block(block, &data)
    }

    /// Reads a block, block zero like any other.
    fn read_raw(&self, block: u32) -> (r: Result<Vec<u8>, ()>)
        requires
            self.wf(),
        ensures
            r matches Ok(data) ==> {
                &&& block < self.volume().blocks.len()
                &&& data@ == self.volume().blocks[block as int]
                &&& data@.len() == self.block_size
            },
            self.reliable() && block < self.volume().blocks.len() ==> r is Ok,
    {
        self.cache.read_block(block)
    }

    /// Writes a block.
    fn put_block(&mut self, block: u32, data: &Vec<u8>) -> (r: Result<(), ()>)
        requires
            old(self).wf(),
            data@.len() == old(self).block_size,
        ensures
            final(self).wf(),
            final(self).geo() == old(self).geo(),
            final(self).volume().blocks.len() == old(self).volume().blocks.len(),
            final(self).bgdt == old(self).bgdt,
            old(self).reliable() ==> final(self).reliable(),
            r is Ok || old(self).reliable() ==> if block < old(self).volume().blocks.len() {
                r is Ok && final(self).volume() == old(self).volume().with_block(
                    block as int,
                    data@,
                )
            } else {
                r is Err && final(self).volume() == old(self).volume()
            },
    {
        let r = self.cache.write_block(block, data);
        proof {
            self.cache.lemma_blocks();
        }
        r
    }
}

/// The indices are those of a path.
pub open spec fn path_fits(geo: Geometry, path: Seq<int>, indices: [usize; 3]) -> bool {
    &&& path.len() <= 3
    &&& forall|i: int| 0 <= i < path.len() ==> #[trigger] indices[i] == path[i]
    &&& forall|i: int| path.len() <= i < 3 ==> #[trigger] indices[i] == 0
    &&& forall|i: int| 0 <= i < path.len() ==> 0 <= #[trigger] path[i] < geo.pointers()
}

proof fn lemma_quotient(a: int, b: int, n: int)
    requires
        0 <= a < b * n,
        b > 0,
        n > 0,
    ensures
        0 <= a / b < n,
        0 <= a % b < b,
        0 <= a % n < n,
{
    assert(0 <= a / b < n) by (nonlinear_arith)
        requires
            0 <= a < b * n,
            b > 0,
            n > 0,
    ;
}

/// The offset of the first record that is in use under a name.
fn find_entry(data: &Vec<u8>, name: &Vec<u8>) -> (r: Option<usize>)
    requires
        data@.len() <= 4096,
    ensures
        find_name(data@, 0, name@) == (match r {
            Some(at) => Some(at as int),
            None => None,
        }),
        r matches Some(at) ==> at + 8 <= data@.len(),
{
    let mut offset: usize = 0;
    while offset + 8 <= data.len()
        invariant_except_break
            offset <= 0x2_0000,
            data@.len() <= 4096,
            find_name(data@, 0, name@) == find_name(data@, offset as int, name@),
        ensures
            find_name(data@, 0, name@) is None,
        decreases left(data@, offset as int),
    {
        let header = DiskDirHeader::read(data, offset);
        let rec_len = header.record_length as usize;
        let name_len = header.name_length as usize;
        if rec_len == 0 {
            break;
        }
        if header.inode != 0 && name_len > 0 && offset + 8 + name_len <= data.len() && name_len
            == name.len() && matches_at(data, offset + 8, name) {
            return Some(offset);
        }
        proof {
            if names(data@, offset as int, name@) {
                assert(data@.subrange(offset + 8, offset + 8 + name_len).len() == name_len);
            }
        }
        offset += rec_len;
    }
    None
}

/// The first bit of a bitmap that is clear.
fn find_clear_bit(data: &Vec<u8>) -> (r: Option<usize>)
    requires
        data@.len() <= 4096,
    ensures
        first_clear(data@, 0) == (match r {
            Some(i) => Some(i as int),
            None => None,
        }),
        r matches Some(i) ==> i < 8 * data@.len(),
{
    let mut byte_idx: usize = 0;
    while byte_idx < data.len()
        invariant
            byte_idx <= data@.len() <= 4096,
            first_clear(data@, 0) == first_clear(data@, 8 * byte_idx),
        decreases data@.len() - byte_idx,
    {
        let val = data[byte_idx];
        if val != 0xFF {
            let mut shift: u8 = 0;
            while shift < 8
                invariant
                    shift <= 8,
                    byte_idx < data@.len() <= 4096,
                    val == data@[byte_idx as int],
                    first_clear(data@, 0) == first_clear(data@, 8 * byte_idx + shift),
                decreases 8 - shift,
            {
                if (val & (1u8 << shift)) == 0 {
                    return Some(byte_idx * 8 + shift as usize);
                }
                shift += 1;
            }
        } else {
            proof {
                lemma_full_byte(data@, byte_idx as int);
            }
        }
        byte_idx += 1;
    }
    None
}

proof fn lemma_full_byte(data: Seq<u8>, b: int)
    requires
        0 <= b < data.len(),
        data[b] == 0xFF,
    ensures
        first_clear(data, 8 * b) == first_clear(data, 8 * b + 8),
{
    lemma_zero_bits();
    reveal_with_fuel(first_clear, 9);
    assert forall|i: int| 8 * b <= i < 8 * b + 8 implies #[trigger] bit(data, i) by {
        assert(i / 8 == b);
    }
}

proof fn lemma_zero_bits()
    ensures
        forall|c: u8| c < 8 ==> #[trigger] (1u8 << c) & 0xFF == 1u8 << c,
        forall|c: u8| c < 8 ==> 0xFFu8 & #[trigger] (1u8 << c) != 0,
        forall|c: u8| 0u8 & #[trigger] (1u8 << c) == 0,
{
    assert forall|c: u8| c < 8 implies #[trigger] (1u8 << c) & 0xFF == 1u8 << c && 0xFFu8 & (1u8
        << c) != 0 by {
        assert((1u8 << c) & 0xFF == 1u8 << c && 0xFFu8 & (1u8 << c) != 0) by (bit_vector)
            requires
                c < 8,
        ;
    }
    assert forall|c: u8| 0u8 & #[trigger] (1u8 << c) == 0 by {
        assert(0u8 & (1u8 << c) == 0) by (bit_vector);
    }
}

proof fn lemma_descriptor_fits(index: int, bs: int)
    requires
        0 <= index,
        is_block_size(bs),
    ensures
        (32 * index) % bs + 32 <= bs,
        (32 * index) / bs <= index,
{
    let k = bs / 32;
    vstd::arithmetic::div_mod::lemma_truncate_middle(index, 32, k);
    assert(bs == 32 * k);
    vstd::arithmetic::div_mod::lemma_mod_bound(index, k);
    assert((32 * index) / bs <= index) by (nonlinear_arith)
        requires
            0 <= index,
            bs >= 32,
    ;
}

proof fn lemma_number_fits(index: int, groups: int, per_group: int)
    requires
        0 <= index < groups,
        0 < per_group,
    ensures
        0 <= index * per_group <= groups * per_group,
{
    assert(0 <= index * per_group <= groups * per_group) by (nonlinear_arith)
        requires
            0 <= index < groups,
            0 < per_group,
    ;
}

fn no_pointers(data: &Vec<u8>, pointers: usize) -> (r: bool)
    requires
        4 * pointers <= data@.len(),
    ensures
        r == all_zero(data@, pointers as int),
{
    let size = data.len();
    let mut i: usize = 0;
    while i < pointers
        invariant
            i <= pointers,
            size == data@.len(),
            4 * pointers <= data@.len(),
            forall|j: int| 0 <= j < i ==> #[trigger] pointer(data@, j) == 0,
        decreases pointers - i,
    {
        if get32(data, 4 * i) != 0 {
            assert(pointer(data@, i as int) != 0);
            return false;
        }
        i += 1;
    }
    true
}

proof fn lemma_table_sectors(start: int, groups: int, bs: int, len: int)
    requires
        is_block_size(bs),
        1 <= start <= 2,
        1 <= groups <= 131072,
    ensures
        start * (bs / 512) * 512 == start * bs,
        (groups * 32 - 1) * (bs / 512) * 512 == (groups * 32 - 1) * bs,
        (start * (bs / 512) + (groups * 32 - 1) * (bs / 512)) * 512 == (start + groups * 32 - 1)
            * bs,
        (groups * 32 - 1) * (bs / 512) <= u64::MAX,
        (groups * 32 - 1) * bs >= groups * 32,
        (start + groups * 32 - 1) * bs <= len ==> start + groups * 32 - 1 <= len / bs,
{
    if bs == 1024 {
        assert(bs / 512 == 2);
    } else if bs == 2048 {
        assert(bs / 512 == 4);
    } else {
        assert(bs / 512 == 8);
    }
}

proof fn lemma_group_in_part(disk: Seq<u8>, start: int, len: int, at: int)
    requires
        0 <= start,
        start + len <= disk.len(),
        0 <= at,
        at + 32 <= len,
    ensures
        group_of(disk.subrange(start, start + len), at) == group_of(disk, start + at),
{
    reveal(words_at);
    let part = disk.subrange(start, start + len);
    assert(words_at(part, at, 8) =~= words_at(disk, start + at, 8)) by {
        assert forall|j: int| 0 <= j < 8 implies #[trigger] words_at(part, at, 8)[j] == words_at(
            disk,
            start + at,
            8,
        )[j] by {
            let here = at + 4 * j;
            assert(part[here] == disk[start + here]);
            assert(part[here + 1] == disk[start + here + 1]);
            assert(part[here + 2] == disk[start + here + 2]);
            assert(part[here + 3] == disk[start + here + 3]);
        }
    }
}

proof fn lemma_page_blocks_stop(
    geo: Geometry,
    v: Volume,
    inode: DiskInode,
    offset: int,
    i: int,
    n: int,
)
    requires
        0 <= i < n,
        page_block(geo, v, inode, offset, i) is None,
    ensures
        page_blocks(geo, v, inode, offset, n) is None,
    decreases n,
{
    if i < n - 1 {
        lemma_page_blocks_stop(geo, v, inode, offset, i, n - 1);
    }
}

proof fn lemma_whole_blocks(len: int, bs: int)
    requires
        0 <= len <= 4096,
        is_block_size(bs),
    ensures
        0 <= len / bs <= 4,
        len / bs * bs <= len,
{
    if bs == 1024 {
    } else if bs == 2048 {
    } else {
    }
}

proof fn lemma_block_inside_data(i: int, blocks: int, bs: int)
    requires
        0 <= i < blocks,
        is_block_size(bs),
    ensures
        0 <= i * bs,
        i * bs + bs <= blocks * bs,
{
    assert(0 <= i * bs && i * bs + bs <= blocks * bs) by (nonlinear_arith)
        requires
            0 <= i < blocks,
            bs > 0,
    ;
}

proof fn lemma_inode_fits(local: int, per_group: int, size: int, bs: int)
    requires
        0 <= local < per_group <= 8 * bs,
        128 <= size <= bs,
        is_block_size(bs),
        bs % size == 0,
    ensures
        0 <= local * size <= u32::MAX,
        0 <= (local * size) % bs,
        (local * size) % bs + 128 <= bs,
{
    assert(0 <= local * size <= 32768 * 4096) by (nonlinear_arith)
        requires
            0 <= local <= 32768,
            0 <= size <= 4096,
    ;
    let k = bs / size;
    assert(bs == k * size) by (nonlinear_arith)
        requires
            k == bs / size,
            bs % size == 0,
            size > 0,
    ;
    assert(k > 0) by (nonlinear_arith)
        requires
            bs == k * size,
            bs > 0,
            size > 0,
    ;
    assert((local * size) % (k * size) == (local % k) * size && local % k < k) by {
        vstd::arithmetic::div_mod::lemma_truncate_middle(local, size, k);
        assert(local * size == size * local && k * size == size * k && (local % k) * size == size
            * (local % k)) by (nonlinear_arith);
    }
    assert((local % k) * size + size <= bs) by (nonlinear_arith)
        requires
            local % k < k,
            bs == k * size,
            size > 0,
    ;
}

} // verus!
