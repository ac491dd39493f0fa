//! What an ext2 volume holds: the model that the file system's contracts are
//! stated over.

use crate::common::bytes::{bytes32, le32, patched, zeroes};
use crate::storage::blockdev::is_block_size;
use crate::storage::fs::ext2::structs::{
    header_of, inode_of, with_group, with_inode, DiskBlockPointers, DiskGroupDesc, DiskInode,
};
use vstd::prelude::*;

verus! {

/// The sizes that a volume is laid out by.
#[derive(Debug, Clone, Copy, PartialEq, Eq, Structural)]
pub struct Geometry {
    pub block_size: u32,
    pub inodes_per_group: u32,
    pub blocks_per_group: u32,
    pub inode_size: u32,
}

/// The blocks on disk and the group descriptors in memory.
pub struct Volume {
    pub blocks: Seq<Seq<u8>>,
    pub groups: Seq<DiskGroupDesc>,
}

impl Geometry {
    pub open spec fn bs(&self) -> int {
        self.block_size as int
    }

    /// How many pointers a block of pointers holds.
    pub open spec fn pointers(&self) -> int {
        self.block_size as int / 4
    }

    pub open spec fn sectors_per_block(&self) -> u32 {
        (self.block_size / 512) as u32
    }

    pub open spec fn wf(&self) -> bool {
        &&& is_block_size(self.bs())
        &&& 0 < self.inodes_per_group <= 8 * self.bs()
        &&& 0 < self.blocks_per_group <= 8 * self.bs()
        &&& 128 <= self.inode_size <= self.bs()
        &&& self.bs() % (self.inode_size as int) == 0
    }

    /// The block that holds the superblock, and where in it.
    pub open spec fn super_block(&self) -> int {
        if self.block_size == 1024 {
            1
        } else {
            0
        }
    }

    pub open spec fn super_offset(&self) -> int {
        if self.block_size == 1024 {
            0
        } else {
            1024
        }
    }

    pub open spec fn first_data_block(&self) -> int {
        if self.block_size == 1024 {
            1
        } else {
            0
        }
    }

    /// The first block of the group descriptors.
    pub open spec fn table_start(&self) -> int {
        if self.block_size == 1024 {
            2
        } else {
            1
        }
    }

    /// The block that holds the descriptor of a group, and where in it.
    pub open spec fn group_block(&self, group: int) -> int {
        self.table_start() + (32 * group) / self.bs()
    }

    pub open spec fn group_offset(&self, group: int) -> int {
        (32 * group) % self.bs()
    }
}

impl Volume {
    /// The volume is one that `geo` describes.
    pub open spec fn wf(&self, geo: Geometry) -> bool {
        &&& geo.wf()
        &&& forall|i: int|
            0 <= i < self.blocks.len() ==> (#[trigger] self.blocks[i]).len() == geo.bs()
        &&& self.groups.len() * geo.blocks_per_group + 8 * geo.bs() < u32::MAX
        &&& self.groups.len() * geo.inodes_per_group + 8 * geo.bs() < u32::MAX
        &&& self.groups.len() <= 0x100_0000
        &&& geo.super_block() < self.blocks.len()
        &&& forall|g: int|
            0 <= g < self.groups.len() ==> #[trigger] geo.group_block(g) < self.blocks.len()
    }

    pub open spec fn with_block(&self, id: int, data: Seq<u8>) -> Volume {
        Volume { blocks: self.blocks.update(id, data), groups: self.groups }
    }
}

/// What reading a block gives; block zero stands for a hole, which reads as
/// zeroes.
pub open spec fn content(geo: Geometry, v: Volume, id: int) -> Option<Seq<u8>> {
    if id == 0 {
        Some(zeroes(geo.bs() as nat))
    } else if 0 < id < v.blocks.len() {
        Some(v.blocks[id])
    } else {
        None
    }
}

/// The block that holds an inode, and where in it.
pub open spec fn inode_place(geo: Geometry, v: Volume, num: u32) -> Option<(int, int)> {
    let group = (num - 1) / (geo.inodes_per_group as int);
    let at = (num - 1) % (geo.inodes_per_group as int) * geo.inode_size;
    if num == 0 || group >= v.groups.len() || v.groups[group].inode_table + at / geo.bs()
        > u32::MAX {
        None
    } else {
        Some((v.groups[group].inode_table + at / geo.bs(), at % geo.bs()))
    }
}

pub open spec fn stored_inode(geo: Geometry, v: Volume, num: u32) -> Option<DiskInode> {
    match inode_place(geo, v, num) {
        Some((block, at)) => match content(geo, v, block) {
            Some(data) => Some(inode_of(data, at)),
            None => None,
        },
        None => None,
    }
}

/// The volume after an inode has been stored.
pub open spec fn with_stored(geo: Geometry, v: Volume, num: u32, inode: DiskInode) -> Option<
    Volume,
> {
    match inode_place(geo, v, num) {
        Some((block, at)) => match content(geo, v, block) {
            Some(data) => if block < v.blocks.len() {
                Some(v.with_block(block, with_inode(data, at, inode)))
            } else {
                None
            },
            None => None,
        },
        None => None,
    }
}

/// The pointer at an index of a block of pointers.
pub open spec fn pointer(data: Seq<u8>, index: int) -> u32 {
    le32(data, 4 * index)
}

/// How many levels of indirection lead to a block of a file, and the index at
/// each of them.
pub open spec fn path_of(geo: Geometry, idx: int) -> Option<(nat, Seq<int>)> {
    let p = geo.pointers();
    if idx < 12 {
        Some((0, seq![idx]))
    } else if idx - 12 < p {
        Some((1, seq![idx - 12]))
    } else if idx - 12 - p < p * p {
        Some((2, seq![(idx - 12 - p) / p, (idx - 12 - p) % p]))
    } else if idx - 12 - p - p * p < p * p * p {
        let rest = idx - 12 - p - p * p;
        Some((3, seq![rest / (p * p), rest % (p * p) / p, rest % p]))
    } else {
        None
    }
}

/// The block of a file that a path leads to.
pub open spec fn index_on(geo: Geometry, depth: nat, path: Seq<int>) -> int {
    let p = geo.pointers();
    if depth == 0 {
        path[0]
    } else if depth == 1 {
        12 + path[0]
    } else if depth == 2 {
        12 + p + path[0] * p + path[1]
    } else {
        12 + p + p * p + path[0] * (p * p) + path[1] * p + path[2]
    }
}

/// A path has an index for each level, each of them inside its block, and leads
/// back to the block of the file that it was made for. Every block has one up
/// to the last that three levels reach.
pub proof fn law_path_leads_to_its_block(geo: Geometry, idx: int)
    requires
        geo.pointers() > 0,
        0 <= idx,
    ensures
        path_of(geo, idx) is Some <==> idx < 12 + geo.pointers() + geo.pointers() * geo.pointers()
            + geo.pointers() * geo.pointers() * geo.pointers(),
        path_of(geo, idx) matches Some((depth, path)) ==> {
            &&& depth <= 3
            &&& path.len() == if depth == 0 {
                1
            } else {
                depth
            }
            &&& depth == 0 ==> 0 <= path[0] < 12
            &&& depth > 0 ==> forall|k: int|
                0 <= k < path.len() ==> 0 <= #[trigger] path[k] < geo.pointers()
            &&& index_on(geo, depth, path) == idx
        },
{
    let p = geo.pointers() as int;
    assert(p * p >= 0 && p * p * p >= 0 && p * p > 0) by (nonlinear_arith)
        requires
            p > 0,
    ;
    let two = idx - 12 - p;
    if 0 <= two < p * p {
        vstd::arithmetic::div_mod::lemma_fundamental_div_mod(two, p);
        assert(0 <= two / p < p && p * (two / p) == (two / p) * p) by (nonlinear_arith)
            requires
                0 <= two < p * p,
                p > 0,
        ;
    }
    let rest = idx - 12 - p - p * p;
    if 0 <= rest < p * p * p {
        let q = p * p;
        let low = rest % q;
        vstd::arithmetic::div_mod::lemma_fundamental_div_mod(rest, q);
        vstd::arithmetic::div_mod::lemma_fundamental_div_mod(low, p);
        vstd::arithmetic::div_mod::lemma_mod_mod(rest, p, p);
        assert(0 <= rest / q < p && q * (rest / q) == (rest / q) * q) by (nonlinear_arith)
            requires
                0 <= rest < p * p * p,
                q == p * p,
                p > 0,
        ;
        assert(0 <= low < q);
        assert(0 <= low / p < p && p * (low / p) == (low / p) * p) by (nonlinear_arith)
            requires
                0 <= low < q,
                q == p * p,
                p > 0,
        ;
    }
}

/// No two blocks of a file have the same path.
pub proof fn law_blocks_have_their_own_paths(geo: Geometry, a: int, b: int)
    requires
        geo.pointers() > 0,
        0 <= a,
        0 <= b,
        path_of(geo, a) is Some,
        path_of(geo, a) == path_of(geo, b),
    ensures
        a == b,
{
    law_path_leads_to_its_block(geo, a);
    law_path_leads_to_its_block(geo, b);
}

pub open spec fn root_of(inode: DiskInode, depth: nat) -> u32 {
    if depth == 1 {
        inode.data.single_indirect
    } else if depth == 2 {
        inode.data.double_indirect
    } else if depth == 3 {
        inode.data.triple_indirect
    } else {
        0
    }
}

pub open spec fn with_root(inode: DiskInode, depth: nat, value: u32) -> DiskInode {
    let data = if depth == 1 {
        DiskBlockPointers { single_indirect: value, ..inode.data }
    } else if depth == 2 {
        DiskBlockPointers { double_indirect: value, ..inode.data }
    } else if depth == 3 {
        DiskBlockPointers { triple_indirect: value, ..inode.data }
    } else {
        inode.data
    };
    DiskInode { data, ..inode }
}

/// An inode with its count of sectors moved by `sectors`.
pub open spec fn counted(inode: DiskInode, sectors: int) -> DiskInode {
    let blocks = inode.blocks + sectors;
    DiskInode {
        blocks: if blocks < 0 {
            0
        } else if blocks > u32::MAX {
            u32::MAX
        } else {
            blocks as u32
        },
        ..inode
    }
}

pub open spec fn all_zero(data: Seq<u8>, pointers: int) -> bool {
    forall|i: int| 0 <= i < pointers ==> #[trigger] pointer(data, i) == 0
}

/// The pointer at an index of a block of pointers, where both exist.
pub open spec fn pointer_in(geo: Geometry, v: Volume, table: u32, index: int) -> Option<u32> {
    if table == 0 || index >= geo.pointers() {
        None
    } else {
        match content(geo, v, table as int) {
            Some(data) => Some(pointer(data, index)),
            None => None,
        }
    }
}

/// The volume after a pointer has been written, and whether its block holds
/// none after that.
pub open spec fn pointer_set(geo: Geometry, v: Volume, table: u32, index: int, value: u32) -> Option<
    (bool, Volume),
> {
    if table == 0 || index >= geo.pointers() {
        None
    } else {
        match content(geo, v, table as int) {
            Some(data) => {
                let after = patched(data, 4 * index, bytes32(value));
                Some((all_zero(after, geo.pointers()), v.with_block(table as int, after)))
            },
            None => None,
        }
    }
}

/// The block at the end of a path of pointers; a hole anywhere on it is a hole
/// at its end.
pub open spec fn follow(geo: Geometry, v: Volume, table: u32, path: Seq<int>) -> Option<u32>
    decreases path.len(),
{
    if path.len() == 0 || table == 0 {
        Some(table)
    } else {
        match content(geo, v, table as int) {
            Some(data) => follow(geo, v, pointer(data, path[0]), path.skip(1)),
            None => None,
        }
    }
}

/// The disk block of a block of a file, zero for a hole.
pub open spec fn resolved(geo: Geometry, v: Volume, inode: DiskInode, idx: int) -> Option<u32> {
    match path_of(geo, idx) {
        Some((depth, path)) => if depth == 0 {
            Some(inode.data.direct[idx])
        } else {
            follow(geo, v, root_of(inode, depth), path)
        },
        None => None,
    }
}

/// The record at an offset of a directory block is in use under a name.
pub open spec fn names(data: Seq<u8>, at: int, name: Seq<u8>) -> bool {
    let h = header_of(data, at);
    &&& h.inode != 0
    &&& h.name_length > 0
    &&& at + 8 + h.name_length <= data.len()
    &&& data.subrange(at + 8, at + 8 + h.name_length) == name
}

/// There is a record at an offset of a directory block.
pub open spec fn has_record(data: Seq<u8>, at: int) -> bool {
    0 <= at && at + 8 <= data.len() && header_of(data, at).record_length > 0
}

/// How many bytes are left from an offset on.
pub open spec fn left(data: Seq<u8>, at: int) -> int {
    if at <= data.len() {
        data.len() - at
    } else {
        0
    }
}

/// The first record from `at` on that is in use under a name.
pub open spec fn find_name(data: Seq<u8>, at: int, name: Seq<u8>) -> Option<int>
    decreases left(data, at),
{
    if !has_record(data, at) {
        None
    } else if names(data, at, name) {
        Some(at)
    } else {
        find_name(data, at + header_of(data, at).record_length, name)
    }
}

/// The inode under a name in the direct blocks of a directory from block
/// `idx` on.
pub open spec fn looked_up(
    geo: Geometry,
    v: Volume,
    inode: DiskInode,
    name: Seq<u8>,
    idx: int,
) -> Result<Option<u32>, ()>
    decreases 12 - idx,
{
    if idx >= 12 {
        Ok(None)
    } else if inode.data.direct[idx] == 0 {
        looked_up(geo, v, inode, name, idx + 1)
    } else {
        match content(geo, v, inode.data.direct[idx] as int) {
            Some(data) => match find_name(data, 0, name) {
                Some(at) => Ok(Some(header_of(data, at).inode)),
                None => looked_up(geo, v, inode, name, idx + 1),
            },
            None => Err(()),
        }
    }
}

/// Bit `i` of a bitmap.
pub open spec fn bit(data: Seq<u8>, i: int) -> bool {
    data[i / 8] & (1u8 << ((i % 8) as u8)) != 0
}

pub open spec fn with_bit(data: Seq<u8>, i: int) -> Seq<u8> {
    data.update(i / 8, data[i / 8] | (1u8 << ((i % 8) as u8)))
}

pub open spec fn without_bit(data: Seq<u8>, i: int) -> Seq<u8> {
    data.update(i / 8, data[i / 8] & !(1u8 << ((i % 8) as u8)))
}

/// The first bit from `i` on that is clear.
pub open spec fn first_clear(data: Seq<u8>, i: int) -> Option<int>
    decreases 8 * data.len() - i,
{
    if i < 0 || i >= 8 * data.len() {
        None
    } else if !bit(data, i) {
        Some(i)
    } else {
        first_clear(data, i + 1)
    }
}

/// What a bitmap keeps account of.
#[derive(Debug, Clone, Copy, PartialEq, Eq, Structural)]
pub enum Bitmap {
    Blocks,
    Inodes,
}

pub open spec fn bitmap_of(group: DiskGroupDesc, kind: Bitmap) -> u32 {
    match kind {
        Bitmap::Blocks => group.block_bitmap,
        Bitmap::Inodes => group.inode_bitmap,
    }
}

pub open spec fn free_count(group: DiskGroupDesc, kind: Bitmap) -> u16 {
    match kind {
        Bitmap::Blocks => group.free_blocks_count,
        Bitmap::Inodes => group.free_inodes_count,
    }
}

/// Where in the superblock the count of what is free stands.
pub open spec fn count_offset(kind: Bitmap) -> int {
    match kind {
        Bitmap::Blocks => 12,
        Bitmap::Inodes => 16,
    }
}

/// A count moved by `step`, within what it can hold.
pub open spec fn moved(count: int, step: int, max: int) -> int {
    if count + step < 0 {
        0
    } else if count + step > max {
        max
    } else {
        count + step
    }
}

/// A group descriptor after `step` more are free. `is_dir` tells that what
/// became free, or in use, is the inode of a directory.
pub open spec fn recounted(group: DiskGroupDesc, kind: Bitmap, step: int, is_dir: bool) -> DiskGroupDesc {
    match kind {
        Bitmap::Blocks => DiskGroupDesc {
            free_blocks_count: moved(group.free_blocks_count as int, step, 0xFFFF) as u16,
            ..group
        },
        Bitmap::Inodes => DiskGroupDesc {
            free_inodes_count: moved(group.free_inodes_count as int, step, 0xFFFF) as u16,
            used_dirs_count: if is_dir {
                moved(group.used_dirs_count as int, -step, 0xFFFF) as u16
            } else {
                group.used_dirs_count
            },
            ..group
        },
    }
}

/// The volume after a group descriptor and the count in the superblock have
/// been brought up to date.
pub open spec fn settled(
    geo: Geometry,
    v: Volume,
    index: int,
    group: DiskGroupDesc,
    kind: Bitmap,
    step: int,
) -> Volume {
    let block = geo.group_block(index);
    let described = Volume {
        blocks: v.blocks.update(block, with_group(v.blocks[block], geo.group_offset(index), group)),
        groups: v.groups.update(index, group),
    };
    let sb = described.blocks[geo.super_block()];
    let at = geo.super_offset() + count_offset(kind);
    described.with_block(
        geo.super_block(),
        patched(sb, at, bytes32(moved(le32(sb, at) as int, step, 0xFFFF_FFFF) as u32)),
    )
}

/// The first free bit in the bitmaps from group `index` on.
pub open spec fn pick(geo: Geometry, v: Volume, kind: Bitmap, index: int) -> Result<
    Option<(int, int)>,
    (),
>
    decreases v.groups.len() - index,
{
    if index < 0 || index >= v.groups.len() {
        Ok(None)
    } else if free_count(v.groups[index], kind) == 0 {
        pick(geo, v, kind, index + 1)
    } else {
        match content(geo, v, bitmap_of(v.groups[index], kind) as int) {
            None => Err(()),
            Some(data) => match first_clear(data, 0) {
                Some(i) => Ok(Some((index, i))),
                None => pick(geo, v, kind, index + 1),
            },
        }
    }
}

/// What bit `i` of the bitmap of a group stands for.
pub open spec fn number_of(geo: Geometry, kind: Bitmap, index: int, i: int) -> int {
    match kind {
        Bitmap::Blocks => index * geo.blocks_per_group + i + geo.first_data_block(),
        Bitmap::Inodes => index * geo.inodes_per_group + i + 1,
    }
}

/// The volume after bit `i` of a group has been taken.
pub open spec fn with_taken(
    geo: Geometry,
    v: Volume,
    kind: Bitmap,
    index: int,
    i: int,
    is_dir: bool,
) -> Volume {
    let group = v.groups[index];
    let bitmap = bitmap_of(group, kind) as int;
    settled(
        geo,
        v.with_block(bitmap, with_bit(content(geo, v, bitmap)->0, i)),
        index,
        recounted(group, kind, -1, is_dir),
        kind,
        -1,
    )
}

/// The first free block or inode, and the volume after it has been taken.
pub open spec fn taken(geo: Geometry, v: Volume, kind: Bitmap, is_dir: bool) -> (
    Option<u32>,
    Volume,
) {
    match pick(geo, v, kind, 0) {
        Ok(Some((index, i))) => (
            Some(number_of(geo, kind, index, i) as u32),
            with_taken(geo, v, kind, index, i, is_dir),
        ),
        _ => (None, v),
    }
}

/// The group and the bit that stand for a block or an inode.
pub open spec fn place_of(geo: Geometry, kind: Bitmap, number: int) -> (int, int) {
    match kind {
        Bitmap::Blocks => (
            (number - geo.first_data_block()) / (geo.blocks_per_group as int),
            (number - geo.first_data_block()) % (geo.blocks_per_group as int),
        ),
        Bitmap::Inodes => (
            (number - 1) / (geo.inodes_per_group as int),
            (number - 1) % (geo.inodes_per_group as int),
        ),
    }
}

/// The volume after a block or an inode has been given back; nothing when it
/// was not in use.
pub open spec fn released(
    geo: Geometry,
    v: Volume,
    kind: Bitmap,
    number: int,
    is_dir: bool,
) -> Option<Volume> {
    let (index, i) = place_of(geo, kind, number);
    if index >= v.groups.len() {
        None
    } else {
        let group = v.groups[index];
        let bitmap = bitmap_of(group, kind) as int;
        match content(geo, v, bitmap) {
            Some(data) => if bit(data, i) {
                Some(
                    settled(
                        geo,
                        v.with_block(bitmap, without_bit(data, i)),
                        index,
                        recounted(group, kind, 1, is_dir),
                        kind,
                        1,
                    ),
                )
            } else {
                None
            },
            None => None,
        }
    }
}

/// The volume after a block has been given back. Block zero is a hole, which
/// there is nothing to give back of.
pub open spec fn block_released(geo: Geometry, v: Volume, block: u32) -> Option<Volume> {
    if block == 0 {
        Some(v)
    } else {
        released(geo, v, Bitmap::Blocks, block as int, false)
    }
}

pub open spec fn inode_released(geo: Geometry, v: Volume, num: u32, is_dir: bool) -> Option<Volume> {
    if num == 0 {
        None
    } else {
        released(geo, v, Bitmap::Inodes, num as int, is_dir)
    }
}

/// A block that is taken and filled with zeroes, and the volume after that. A
/// block that cannot be written is given back.
pub open spec fn zeroed(geo: Geometry, v: Volume) -> (Option<u32>, Volume) {
    match taken(geo, v, Bitmap::Blocks, false) {
        (None, after) => (None, after),
        (Some(block), after) => if block < after.blocks.len() {
            (Some(block), after.with_block(block as int, zeroes(geo.bs() as nat)))
        } else {
            (None, or_else(block_released(geo, after, block), after))
        },
    }
}

pub open spec fn or_else(v: Option<Volume>, other: Volume) -> Volume {
    match v {
        Some(v) => v,
        None => other,
    }
}

/// An inode with one of its direct blocks replaced.
pub open spec fn with_direct(inode: DiskInode, idx: int, block: u32) -> DiskInode {
    let d = inode.data.direct;
    DiskInode {
        data: DiskBlockPointers {
            direct: [
                choice(idx == 0, block, d[0]),
                choice(idx == 1, block, d[1]),
                choice(idx == 2, block, d[2]),
                choice(idx == 3, block, d[3]),
                choice(idx == 4, block, d[4]),
                choice(idx == 5, block, d[5]),
                choice(idx == 6, block, d[6]),
                choice(idx == 7, block, d[7]),
                choice(idx == 8, block, d[8]),
                choice(idx == 9, block, d[9]),
                choice(idx == 10, block, d[10]),
                choice(idx == 11, block, d[11]),
            ],
            ..inode.data
        },
        ..inode
    }
}

pub open spec fn choice(first: bool, a: u32, b: u32) -> u32 {
    if first {
        a
    } else {
        b
    }
}

/// The block at the end of a path below a block of pointers. What is missing
/// on the path, and the block itself, are taken where there are none.
pub open spec fn grown(geo: Geometry, v: Volume, inode: DiskInode, table: u32, path: Seq<int>) -> (
    Option<u32>,
    Volume,
    DiskInode,
)
    decreases path.len(),
{
    let more = geo.sectors_per_block() as int;
    if path.len() == 0 {
        (None, v, inode)
    } else {
        match pointer_in(geo, v, table, path[0]) {
            None => (None, v, inode),
            Some(child) => if child != 0 {
                if path.len() == 1 {
                    (Some(child), v, inode)
                } else {
                    grown(geo, v, inode, child, path.skip(1))
                }
            } else {
                let (fresh, after) = if path.len() == 1 {
                    taken(geo, v, Bitmap::Blocks, false)
                } else {
                    zeroed(geo, v)
                };
                match fresh {
                    None => (None, after, inode),
                    Some(block) => match pointer_set(geo, after, table, path[0], block) {
                        None => (None, or_else(block_released(geo, after, block), after), inode),
                        Some((_, linked)) => if path.len() == 1 {
                            (Some(block), linked, counted(inode, more))
                        } else {
                            grown(geo, linked, counted(inode, more), block, path.skip(1))
                        },
                    },
                }
            },
        }
    }
}

/// The disk block of a block of a file, which is taken where the file has a
/// hole; the volume and the inode after that.
#[verifier::opaque]
pub open spec fn file_block_taken(geo: Geometry, v: Volume, inode: DiskInode, idx: int) -> (
    Option<u32>,
    Volume,
    DiskInode,
) {
    let more = geo.sectors_per_block() as int;
    match path_of(geo, idx) {
        None => (None, v, inode),
        Some((depth, path)) => if depth == 0 {
            if inode.data.direct[idx] != 0 {
                (Some(inode.data.direct[idx]), v, inode)
            } else {
                match taken(geo, v, Bitmap::Blocks, false) {
                    (None, after) => (None, after, inode),
                    (Some(block), after) => (
                        Some(block),
                        after,
                        counted(with_direct(inode, idx, block), more),
                    ),
                }
            }
        } else if root_of(inode, depth) != 0 {
            grown(geo, v, inode, root_of(inode, depth), path)
        } else {
            match zeroed(geo, v) {
                (None, after) => (None, after, inode),
                (Some(root), after) => grown(
                    geo,
                    after,
                    counted(with_root(inode, depth, root), more),
                    root,
                    path,
                ),
            }
        },
    }
}

/// Takes the block at the end of a path out of the file. A block of pointers
/// that becomes empty is given back too, which `Ok(true)` tells of `table`.
pub open spec fn pruned(geo: Geometry, v: Volume, inode: DiskInode, table: u32, path: Seq<int>) -> (
    Result<bool, ()>,
    Volume,
    DiskInode,
)
    decreases path.len(),
{
    let less = -geo.sectors_per_block();
    if path.len() == 0 {
        (Err(()), v, inode)
    } else {
        match pointer_in(geo, v, table, path[0]) {
            None => (Err(()), v, inode),
            Some(child) => if child == 0 {
                (Ok(false), v, inode)
            } else if path.len() == 1 {
                match pointer_set(geo, v, table, path[0], 0) {
                    None => (Err(()), v, inode),
                    Some((empty, unlinked)) => match block_released(geo, unlinked, child) {
                        None => (Err(()), unlinked, inode),
                        Some(after) => table_pruned(
                            geo,
                            after,
                            counted(inode, less),
                            table,
                            empty,
                        ),
                    },
                }
            } else {
                match pruned(geo, v, inode, child, path.skip(1)) {
                    (Ok(true), below, kept) => match pointer_set(geo, below, table, path[0], 0) {
                        None => (Err(()), below, kept),
                        Some((empty, unlinked)) => table_pruned(
                            geo,
                            unlinked,
                            kept,
                            table,
                            empty,
                        ),
                    },
                    other => other,
                }
            },
        }
    }
}

/// Gives a block of pointers back if it is empty.
pub open spec fn table_pruned(
    geo: Geometry,
    v: Volume,
    inode: DiskInode,
    table: u32,
    empty: bool,
) -> (Result<bool, ()>, Volume, DiskInode) {
    if !empty {
        (Ok(false), v, inode)
    } else {
        match block_released(geo, v, table) {
            None => (Err(()), v, inode),
            Some(after) => (Ok(true), after, counted(inode, -geo.sectors_per_block())),
        }
    }
}

/// The volume and the inode after a block of a file has been made a hole.
#[verifier::opaque]
pub open spec fn file_block_cleared(geo: Geometry, v: Volume, inode: DiskInode, idx: int) -> (
    Result<(), ()>,
    Volume,
    DiskInode,
) {
    match path_of(geo, idx) {
        None => (Err(()), v, inode),
        Some((depth, path)) => if depth == 0 {
            let block = inode.data.direct[idx];
            if block == 0 {
                (Ok(()), v, inode)
            } else {
                match block_released(geo, v, block) {
                    None => (Err(()), v, with_direct(inode, idx, 0)),
                    Some(after) => (
                        Ok(()),
                        after,
                        counted(with_direct(inode, idx, 0), -geo.sectors_per_block()),
                    ),
                }
            }
        } else if root_of(inode, depth) == 0 {
            (Ok(()), v, inode)
        } else {
            match pruned(geo, v, inode, root_of(inode, depth), path) {
                (Ok(true), after, kept) => (Ok(()), after, with_root(kept, depth, 0)),
                (Ok(false), after, kept) => (Ok(()), after, kept),
                (Err(_), after, kept) => (Err(()), after, kept),
            }
        },
    }
}

/// The pointers among the first `n` of a block that are not holes.
pub open spec fn nonzero(data: Seq<u8>, n: int) -> Seq<u32>
    decreases n,
{
    if n <= 0 {
        Seq::empty()
    } else if pointer(data, n - 1) != 0 {
        nonzero(data, n - 1).push(pointer(data, n - 1))
    } else {
        nonzero(data, n - 1)
    }
}

/// The pointers that a block of pointers holds, none if it cannot be read.
pub open spec fn pointers_of(geo: Geometry, v: Volume, table: u32) -> Seq<u32> {
    match content(geo, v, table as int) {
        Some(data) => nonzero(data, geo.pointers()),
        None => Seq::empty(),
    }
}

/// The pointers that all blocks of pointers hold.
pub open spec fn pointers_of_all(geo: Geometry, v: Volume, tables: Seq<u32>) -> Seq<u32>
    decreases tables.len(),
{
    if tables.len() == 0 {
        Seq::empty()
    } else {
        pointers_of_all(geo, v, tables.drop_last()) + pointers_of(geo, v, tables.last())
    }
}

/// The volume after blocks have been given back, those that can.
pub open spec fn each_released(geo: Geometry, v: Volume, blocks: Seq<u32>) -> Volume
    decreases blocks.len(),
{
    if blocks.len() == 0 {
        v
    } else {
        let before = each_released(geo, v, blocks.drop_last());
        or_else(block_released(geo, before, blocks.last()), before)
    }
}

/// The volume after the data blocks of a file from block `idx` on have been
/// given back.
pub open spec fn data_released(geo: Geometry, v: Volume, inode: DiskInode, idx: int) -> (
    Result<(), ()>,
    Volume,
)
    decreases inode.size as int / geo.bs() - idx,
{
    if idx >= inode.size as int / geo.bs() {
        (Ok(()), v)
    } else {
        match resolved(geo, v, inode, idx) {
            Some(block) => match block_released(geo, v, block) {
                None => (Err(()), v),
                Some(after) => data_released(geo, after, inode, idx + 1),
            },
            None => data_released(geo, v, inode, idx + 1),
        }
    }
}

/// The volume after all blocks of a file have been given back.
pub open spec fn file_released(geo: Geometry, v: Volume, inode: DiskInode) -> (
    Result<(), ()>,
    Volume,
) {
    match data_released(geo, v, inode, 0) {
        (Err(_), v) => (Err(()), v),
        (Ok(_), v) => match block_released(geo, v, inode.data.single_indirect) {
            None => (Err(()), v),
            Some(v) => {
                let double = inode.data.double_indirect;
                let v = if double == 0 {
                    v
                } else {
                    each_released(geo, v, pointers_of(geo, v, double))
                };
                match block_released(geo, v, double) {
                    None => (Err(()), v),
                    Some(v) => {
                        let triple = inode.data.triple_indirect;
                        let v = if triple == 0 {
                            v
                        } else {
                            let outer = pointers_of(geo, v, triple);
                            let inner = pointers_of_all(geo, v, outer);
                            each_released(geo, each_released(geo, v, inner), outer)
                        };
                        match block_released(geo, v, triple) {
                            None => (Err(()), v),
                            Some(v) => (Ok(()), v),
                        }
                    },
                }
            },
        },
    }
}

pub open spec fn is_directory(inode: DiskInode) -> bool {
    inode.mode as int / 0x1000 == 4
}

/// Block `i` of the page at `offset` of a file.
pub open spec fn page_block(geo: Geometry, v: Volume, inode: DiskInode, offset: int, i: int) -> Option<
    Seq<u8>,
> {
    match resolved(geo, v, inode, offset / geo.bs() + i) {
        Some(block) => if block == 0 {
            Some(zeroes(geo.bs() as nat))
        } else if block < v.blocks.len() {
            Some(v.blocks[block as int])
        } else {
            None
        },
        None => None,
    }
}

/// The first `n` blocks of the page at `offset` of a file.
pub open spec fn page_blocks(geo: Geometry, v: Volume, inode: DiskInode, offset: int, n: int) -> Option<
    Seq<u8>,
>
    decreases n,
{
    if n <= 0 {
        Some(Seq::empty())
    } else {
        match (
            page_blocks(geo, v, inode, offset, n - 1),
            page_block(geo, v, inode, offset, n - 1),
        ) {
            (Some(before), Some(block)) => Some(before + block),
            _ => None,
        }
    }
}

/// What reading `len` bytes at `offset` of a file gives: no more than the file
/// has.
pub open spec fn read_from(geo: Geometry, v: Volume, inode: DiskInode, offset: int, len: int) -> Option<
    Seq<u8>,
> {
    if offset >= inode.size || len == 0 {
        Some(Seq::empty())
    } else {
        match page_blocks(geo, v, inode, offset, 4096int / geo.bs()) {
            Some(page) => Some(
                page.take(
                    if inode.size - offset < len {
                        inode.size - offset
                    } else {
                        len
                    },
                ),
            ),
            None => None,
        }
    }
}

/// The volume and the inode after the blocks of `data` from block `i` on have
/// been written to the file at `offset`.
pub open spec fn blocks_written(
    geo: Geometry,
    v: Volume,
    inode: DiskInode,
    offset: int,
    data: Seq<u8>,
    i: int,
) -> (Result<(), ()>, Volume, DiskInode)
    decreases data.len() as int / geo.bs() - i,
{
    if i >= data.len() as int / geo.bs() {
        (Ok(()), v, inode)
    } else {
        let idx = offset / geo.bs() + i;
        let (block, after, kept) = match resolved(geo, v, inode, idx) {
            Some(block) => if block != 0 {
                (Some(block), v, inode)
            } else {
                file_block_taken(geo, v, inode, idx)
            },
            None => file_block_taken(geo, v, inode, idx),
        };
        match block {
            None => (Err(()), after, inode),
            Some(block) => if block >= after.blocks.len() {
                (Err(()), after, kept)
            } else {
                blocks_written(
                    geo,
                    after.with_block(
                        block as int,
                        data.subrange(i * geo.bs(), i * geo.bs() + geo.bs()),
                    ),
                    kept,
                    offset,
                    data,
                    i + 1,
                )
            },
        }
    }
}

/// The volume and the inode after a page has been written to a file and its
/// inode stored.
pub open spec fn page_stored(
    geo: Geometry,
    v: Volume,
    num: u32,
    inode: DiskInode,
    offset: int,
    data: Seq<u8>,
) -> (Result<(), ()>, Volume, DiskInode) {
    match blocks_written(geo, v, inode, offset, data, 0) {
        (Err(_), after, kept) => (Err(()), after, kept),
        (Ok(_), after, kept) => match with_stored(geo, after, num, kept) {
            None => (Err(()), after, kept),
            Some(end) => (Ok(()), end, kept),
        },
    }
}

/// Block `idx` of a file holds `data`, in the disk block that it had or in one
/// that was taken for it. On a device that fails, one can be taken for a block
/// that could not be found.
pub open spec fn block_put(
    geo: Geometry,
    v: Volume,
    after: Volume,
    inode: DiskInode,
    inode_after: DiskInode,
    idx: int,
    data: Seq<u8>,
) -> bool {
    exists|block: u32, held: Volume|
        {
            &&& {
                ||| block != 0 && resolved(geo, v, inode, idx) == Some(block) && held == v
                    && inode_after == inode
                ||| file_block_taken(geo, v, inode, idx) == (Some(block), held, inode_after)
            }
            &&& block < held.blocks.len()
            &&& after == #[trigger] held.with_block(block as int, data)
        }
}

/// A state of a volume and of the inode of a file, after each of a number of
/// steps.
pub type Course = Seq<(Volume, DiskInode)>;

/// Every block of a page has been written to a file, one after the other, and
/// then its inode.
pub open spec fn page_put(
    geo: Geometry,
    v: Volume,
    after: Volume,
    num: u32,
    inode: DiskInode,
    inode_after: DiskInode,
    offset: int,
    data: Seq<u8>,
) -> bool {
    exists|course: Course| #[trigger]
        blocks_put(geo, course, offset, data) && course.len() == data.len() as int / geo.bs() + 1
            && course[0] == (v, inode) && course.last().1 == inode_after && with_stored(
            geo,
            course.last().0,
            num,
            inode_after,
        ) == Some(after)
}

/// Each step of a course writes the next block of `data`.
pub open spec fn blocks_put(geo: Geometry, course: Course, offset: int, data: Seq<u8>) -> bool {
    forall|i: int|
        #![trigger course[i]]
        0 <= i && i + 1 < course.len() ==> block_put(
            geo,
            course[i].0,
            course[i + 1].0,
            course[i].1,
            course[i + 1].1,
            offset / geo.bs() + i,
            data.subrange(i * geo.bs(), i * geo.bs() + geo.bs()),
        )
}

/// A course with one more block written.
pub proof fn lemma_course_step(
    geo: Geometry,
    course: Course,
    next: (Volume, DiskInode),
    offset: int,
    data: Seq<u8>,
) -> (after: Course)
    requires
        course.len() > 0,
        blocks_put(geo, course, offset, data),
        ({
            let i = course.len() - 1;
            block_put(
                geo,
                course.last().0,
                next.0,
                course.last().1,
                next.1,
                offset / geo.bs() + i,
                data.subrange(i * geo.bs(), i * geo.bs() + geo.bs()),
            )
        }),
    ensures
        after == course.push(next),
        blocks_put(geo, after, offset, data),
{
    let after = course.push(next);
    assert forall|i: int|
        #![trigger after[i]]
        0 <= i && i + 1 < after.len() implies block_put(
        geo,
        after[i].0,
        after[i + 1].0,
        after[i].1,
        after[i + 1].1,
        offset / geo.bs() + i,
        data.subrange(i * geo.bs(), i * geo.bs() + geo.bs()),
    ) by {
        assert(after[i] == course[i]);
        if i + 1 < course.len() {
            assert(after[i + 1] == course[i + 1]);
        }
    }
    after
}

/// The volume and the inode after the blocks of a file from `idx` to `end`
/// have been made holes.
pub open spec fn blocks_cleared(geo: Geometry, v: Volume, inode: DiskInode, idx: int, end: int) -> (
    Result<(), ()>,
    Volume,
    DiskInode,
)
    decreases end - idx,
{
    if idx >= end {
        (Ok(()), v, inode)
    } else {
        match file_block_cleared(geo, v, inode, idx) {
            (Err(_), after, kept) => (Err(()), after, kept),
            (Ok(_), after, kept) => blocks_cleared(geo, after, kept, idx + 1, end),
        }
    }
}

/// How many blocks `size` bytes take.
pub open spec fn block_count(geo: Geometry, size: int) -> int {
    (size + geo.bs() - 1) / geo.bs()
}

/// The volume after the bytes of a file from `size` to the end of its block
/// have been cleared.
pub open spec fn tail_cleared(geo: Geometry, v: Volume, inode: DiskInode, size: int) -> Option<Volume> {
    let at = size % geo.bs();
    if at == 0 {
        Some(v)
    } else {
        match resolved(geo, v, inode, size / geo.bs()) {
            None => None,
            Some(block) => if block == 0 {
                Some(v)
            } else {
                match content(geo, v, block as int) {
                    None => None,
                    Some(data) => Some(
                        v.with_block(
                            block as int,
                            patched(data, at, zeroes((geo.bs() - at) as nat)),
                        ),
                    ),
                }
            },
        }
    }
}

/// The volume and the inode after a file has been given another size.
pub open spec fn resized(geo: Geometry, v: Volume, num: u32, inode: DiskInode, size: u32) -> (
    Result<(), ()>,
    Volume,
    DiskInode,
) {
    if size == inode.size {
        (Ok(()), v, inode)
    } else {
        let (cut, after, kept) = if size > inode.size {
            (Ok(()), v, inode)
        } else {
            match tail_cleared(geo, v, inode, size as int) {
                None => (Err(()), v, inode),
                Some(cleared) => blocks_cleared(
                    geo,
                    cleared,
                    inode,
                    block_count(geo, size as int),
                    block_count(geo, inode.size as int),
                ),
            }
        };
        match cut {
            Err(_) => (Err(()), after, inode),
            Ok(_) => match with_stored(geo, after, num, DiskInode { size, ..kept }) {
                None => (Err(()), after, inode),
                Some(end) => (Ok(()), end, DiskInode { size, ..kept }),
            },
        }
    }
}

} // verus!
