//! Where on a volume things lie, byte by byte.

use crate::common::bytes::{le16, le32};
use crate::storage::blockdev::blocks_of;
use crate::storage::fs::ext2::laws::lemma_pick;
use crate::storage::fs::ext2::structs::{group_of, header_of, inode_of, words_at, DiskInode};
use crate::storage::fs::ext2::volume::{
    bit, bitmap_of, content, first_clear, follow, free_count, inode_place, path_of, pick, pointer,
    resolved, taken, with_taken, Bitmap, Geometry, Volume,
};
use crate::storage::fs::ext2::{geometry_of, group_count, groups_on, mountable};
use vstd::prelude::*;

verus! {

/// The number that two bytes stand for, the lower one first.
pub open spec fn half(s: Seq<u8>, at: int) -> int {
    s[at] + 256 * s[at + 1]
}

/// The number that four bytes stand for, the lowest one first.
pub open spec fn word(s: Seq<u8>, at: int) -> int {
    half(s, at) + 65536 * half(s, at + 2)
}

proof fn lemma_word(s: Seq<u8>, at: int, len: nat, j: int)
    requires
        0 <= j < len,
    ensures
        words_at(s, at, len)[j] == word(s, at + 4 * j),
        words_at(s, at, len)[j] as int % 0x1_0000 == half(s, at + 4 * j),
        words_at(s, at, len)[j] as int / 0x1_0000 == half(s, at + 4 * j + 2),
        words_at(s, at, len)[j] as int / 0x1_0000 % 0x100 == s[at + 4 * j + 2],
        words_at(s, at, len)[j] as int / 0x100_0000 == s[at + 4 * j + 3],
{
    reveal(words_at);
    assert(words_at(s, at, len)[j] == le32(s, at + 4 * j));
}

/// The header of a directory record takes up eight bytes: four for the inode,
/// two for the length of the record, and one each for the length of the name
/// and the type.
pub proof fn law_header_lies_in_its_bytes(s: Seq<u8>, at: int)
    ensures
        header_of(s, at).inode == word(s, at),
        header_of(s, at).record_length == half(s, at + 4),
        header_of(s, at).name_length == s[at + 6],
        header_of(s, at).file_type == s[at + 7],
{
    lemma_word(s, at, 2, 0);
    lemma_word(s, at, 2, 1);
}

/// The fields of an inode follow one another, with the pointers to its blocks
/// from byte 40 on.
pub proof fn law_inode_lies_in_its_bytes(s: Seq<u8>, at: int, i: int)
    requires
        0 <= i < 12,
    ensures
        ({
            let inode = inode_of(s, at);
            &&& inode.mode == half(s, at)
            &&& inode.uid == half(s, at + 2)
            &&& inode.size == word(s, at + 4)
            &&& inode.atime == word(s, at + 8)
            &&& inode.ctime == word(s, at + 12)
            &&& inode.mtime == word(s, at + 16)
            &&& inode.dtime == word(s, at + 20)
            &&& inode.gid == half(s, at + 24)
            &&& inode.links_count == half(s, at + 26)
            &&& inode.blocks == word(s, at + 28)
            &&& inode.data.direct[i] == word(s, at + 40 + 4 * i)
            &&& inode.data.single_indirect == word(s, at + 88)
            &&& inode.data.double_indirect == word(s, at + 92)
            &&& inode.data.triple_indirect == word(s, at + 96)
        }),
{
    lemma_word(s, at, 32, 0);
    lemma_word(s, at, 32, 1);
    lemma_word(s, at, 32, 2);
    lemma_word(s, at, 32, 3);
    lemma_word(s, at, 32, 4);
    lemma_word(s, at, 32, 5);
    lemma_word(s, at, 32, 6);
    lemma_word(s, at, 32, 7);
    lemma_word(s, at, 32, 10 + i);
    lemma_word(s, at, 32, 22);
    lemma_word(s, at, 32, 23);
    lemma_word(s, at, 32, 24);
}

/// The fields of a group descriptor follow one another.
pub proof fn law_group_lies_in_its_bytes(s: Seq<u8>, at: int)
    ensures
        ({
            let group = group_of(s, at);
            &&& group.block_bitmap == word(s, at)
            &&& group.inode_bitmap == word(s, at + 4)
            &&& group.inode_table == word(s, at + 8)
            &&& group.free_blocks_count == half(s, at + 12)
            &&& group.free_inodes_count == half(s, at + 14)
            &&& group.used_dirs_count == half(s, at + 16)
        }),
{
    lemma_word(s, at, 8, 0);
    lemma_word(s, at, 8, 1);
    lemma_word(s, at, 8, 2);
    lemma_word(s, at, 8, 3);
    lemma_word(s, at, 8, 4);
}

/// The superblock stands behind the first 1024 bytes of a device. It is marked
/// as one, and gives the sizes that the volume is laid out by: that of a block
/// as the number of times that 1024 is doubled, and that of an inode unless the
/// volume is of the first revision, whose inodes have 128 bytes.
pub proof fn law_superblock_gives_the_sizes(disk: Seq<u8>)
    requires
        mountable(disk),
    ensures
        ({
            let geo = geometry_of(disk);
            &&& half(disk, 1080) == 0xEF53
            &&& word(disk, 1048) == 0 ==> geo.block_size == 1024
            &&& word(disk, 1048) == 1 ==> geo.block_size == 2048
            &&& word(disk, 1048) == 2 ==> geo.block_size == 4096
            &&& word(disk, 1048) <= 2
            &&& geo.blocks_per_group == word(disk, 1056)
            &&& geo.inodes_per_group == word(disk, 1064)
            &&& word(disk, 1100) == 0 ==> geo.inode_size == 128
            &&& word(disk, 1100) > 0 ==> geo.inode_size == half(disk, 1112)
        }),
{
    let sb = disk.subrange(1024, 2048);
    assert(forall|k: int| 0 <= k < 1024 ==> #[trigger] sb[k] == disk[1024 + k]);
    assert(le32(sb, 24) == word(disk, 1048));
    assert(le32(sb, 32) == word(disk, 1056));
    assert(le32(sb, 40) == word(disk, 1064));
    assert(le32(sb, 76) == word(disk, 1100));
    assert(le16(sb, 56) == half(disk, 1080));
    assert(le16(sb, 88) == half(disk, 1112));
}

/// There are as many groups as it takes for all the blocks that the superblock
/// counts, and none is without a block. Their descriptors follow one another
/// from the block behind the superblock on.
pub proof fn law_groups_stand_in_their_table(disk: Seq<u8>, g: int)
    requires
        mountable(disk),
        0 <= g < groups_on(disk).len(),
    ensures
        ({
            let geo = geometry_of(disk);
            let groups = groups_on(disk);
            let n = groups.len();
            let blocks = word(disk, 1028);
            let table = if geo.block_size == 1024 {
                2048
            } else {
                geo.block_size as int
            };
            &&& (n - 1) * geo.blocks_per_group < blocks <= n * geo.blocks_per_group
            &&& groups[g].block_bitmap == word(disk, table + 32 * g)
            &&& groups[g].inode_bitmap == word(disk, table + 32 * g + 4)
            &&& groups[g].inode_table == word(disk, table + 32 * g + 8)
            &&& groups[g].free_blocks_count == half(disk, table + 32 * g + 12)
            &&& groups[g].free_inodes_count == half(disk, table + 32 * g + 14)
            &&& groups[g].used_dirs_count == half(disk, table + 32 * g + 16)
        }),
{
    let geo = geometry_of(disk);
    let sb = disk.subrange(1024, 2048);
    assert(forall|k: int| 0 <= k < 1024 ==> #[trigger] sb[k] == disk[1024 + k]);
    assert(le32(sb, 4) == word(disk, 1028));
    assert(geo.table_start() * geo.bs() == if geo.block_size == 1024 {
        2048
    } else {
        geo.block_size as int
    });
    law_group_lies_in_its_bytes(disk, geo.table_start() * geo.bs() + 32 * g);
    let n = group_count(disk);
    let per = geo.blocks_per_group as int;
    let blocks = le32(sb, 4) as int;
    assert((n - 1) * per < blocks <= n * per) by (nonlinear_arith)
        requires
            n == (blocks + per - 1) / per,
            per > 0,
    ;
}

/// The inodes of a volume are numbered from one on, group by group, and follow
/// one another in the table of their group. None runs past the end of its
/// block.
pub proof fn law_inode_lies_in_its_table(geo: Geometry, v: Volume, num: u32, g: int)
    requires
        geo.wf(),
        0 <= g < v.groups.len(),
        g * geo.inodes_per_group < num <= (g + 1) * geo.inodes_per_group,
        inode_place(geo, v, num) is Some,
    ensures
        ({
            let (block, at) = inode_place(geo, v, num)->0;
            &&& (block - v.groups[g].inode_table) * geo.bs() + at == (num - 1 - g
                * geo.inodes_per_group) * geo.inode_size
            &&& 0 <= at
            &&& at + geo.inode_size <= geo.bs()
        }),
{
    let per = geo.inodes_per_group as int;
    let k = num - 1 - g * per;
    assert((g + 1) * per == g * per + per) by (nonlinear_arith);
    vstd::arithmetic::div_mod::lemma_fundamental_div_mod_converse(num - 1, per, g, k);
    let size = geo.inode_size as int;
    let bs = geo.bs();
    let at = k * size;
    assert(at >= 0) by (nonlinear_arith)
        requires
            k >= 0,
            size >= 0,
            at == k * size,
    ;
    vstd::arithmetic::div_mod::lemma_fundamental_div_mod(at, bs);
    let count = bs / size;
    vstd::arithmetic::div_mod::lemma_fundamental_div_mod(bs, size);
    assert(at == count * size * (at / bs) + at % bs);
    let low = k - count * (at / bs);
    assert(at % bs == low * size) by (nonlinear_arith)
        requires
            at == k * size,
            at == count * size * (at / bs) + at % bs,
            low == k - count * (at / bs),
    ;
    assert(low < count) by (nonlinear_arith)
        requires
            low * size < count * size,
            size > 0,
    ;
    assert(low * size + size <= count * size) by (nonlinear_arith)
        requires
            low + 1 <= count,
            size > 0,
    ;
    assert((at / bs) * bs == bs * (at / bs)) by (nonlinear_arith);
}

/// Block `i` of a table of pointers, where the table is there.
pub open spec fn entry(v: Volume, table: int, i: int) -> int {
    if table == 0 {
        0
    } else {
        word(v.blocks[table], 4 * i)
    }
}

/// The first twelve blocks of a file are those that its inode points to. The
/// ones after them stand in the table that the inode points to next, as many
/// as a block has room for, and after those come the ones that stand in the
/// tables of the next table. A table that is missing points to nothing.
pub proof fn law_pointers_lead_to_the_block(geo: Geometry, v: Volume, inode: DiskInode, idx: int)
    requires
        v.wf(geo),
        0 <= idx,
    ensures
        idx < 12 ==> resolved(geo, v, inode, idx) == Some(inode.data.direct[idx]),
        0 <= idx - 12 < geo.bs() / 4 && inode.data.single_indirect < v.blocks.len() ==> {
            &&& resolved(geo, v, inode, idx) is Some
            &&& resolved(geo, v, inode, idx)->0 == entry(
                v,
                inode.data.single_indirect as int,
                idx - 12,
            )
        },
        ({
            let p = geo.bs() / 4;
            let k = idx - 12 - p;
            let table = entry(v, inode.data.double_indirect as int, k / p);
            0 <= k < p * p && inode.data.double_indirect < v.blocks.len() && table < v.blocks.len()
                ==> {
                &&& resolved(geo, v, inode, idx) is Some
                &&& resolved(geo, v, inode, idx)->0 == entry(v, table, k % p)
            }
        }),
{
    reveal_with_fuel(follow, 4);
    let p = geo.pointers();
    if 0 <= idx - 12 < p {
        let t = inode.data.single_indirect as int;
        lemma_entry(v, t, idx - 12);
        assert(path_of(geo, idx) == Some((1nat, seq![idx - 12])));
        assert(seq![idx - 12].skip(1).len() == 0);
    }
    let k = idx - 12 - p;
    if 0 <= k < p * p {
        let path = seq![k / p, k % p];
        let t = inode.data.double_indirect as int;
        lemma_entry(v, t, k / p);
        lemma_entry(v, entry(v, t, k / p), k % p);
        assert(path_of(geo, idx) == Some((2nat, path)));
        assert(path.skip(1) =~= seq![k % p]);
        assert(path.skip(1).skip(1).len() == 0);
    }
}

proof fn lemma_entry(v: Volume, table: int, i: int)
    ensures
        table > 0 ==> pointer(v.blocks[table], i) == entry(v, table, i),
{
}

/// Every bit before bit `i` of a bitmap is set.
pub open spec fn full_before(data: Seq<u8>, i: int) -> bool {
    forall|j: int| 0 <= j < i ==> #[trigger] bit(data, j)
}

proof fn lemma_first_clear_is_first(data: Seq<u8>, from: int, j: int)
    requires
        0 <= from <= j < 8 * data.len(),
    ensures
        first_clear(data, from) matches Some(i) ==> j < i ==> bit(data, j),
        first_clear(data, from) is None ==> bit(data, j),
    decreases j - from,
{
    if from < j && bit(data, from) {
        lemma_first_clear_is_first(data, from + 1, j);
    }
}

/// What is taken is the first that is free, in the first group that says it
/// has one free: blocks are numbered on from the first one behind the boot
/// block, and inodes from one. Its bit is set and one less is free in its
/// group, which has one more directory if it is for one. The other groups stay.
pub proof fn law_first_free_is_taken(geo: Geometry, v: Volume, kind: Bitmap, is_dir: bool)
    requires
        v.wf(geo),
        taken(geo, v, kind, is_dir).0 is Some,
    ensures
        ({
            let (number, after) = taken(geo, v, kind, is_dir);
            exists|g: int, i: int| #[trigger] is_first_free(geo, v, kind, g, i) && {
                &&& number->0 == (match kind {
                    Bitmap::Blocks => g * geo.blocks_per_group + i + if geo.block_size == 1024 {
                        1int
                    } else {
                        0
                    },
                    Bitmap::Inodes => g * geo.inodes_per_group + i + 1,
                }) as u32
                &&& after.groups.len() == v.groups.len()
                &&& free_count(after.groups[g], kind) == free_count(v.groups[g], kind) - 1
                &&& kind is Inodes && is_dir && v.groups[g].used_dirs_count < 0xFFFF
                    ==> after.groups[g].used_dirs_count == v.groups[g].used_dirs_count + 1
                &&& !(kind is Inodes && is_dir) ==> after.groups[g].used_dirs_count
                    == v.groups[g].used_dirs_count
                &&& after.groups[g].inode_table == v.groups[g].inode_table
                &&& forall|h: int|
                    0 <= h < v.groups.len() && h != g ==> #[trigger] after.groups[h] == v.groups[h]
            }
        }),
{
    let (g, i) = (pick(geo, v, kind, 0)->Ok_0)->0;
    lemma_pick(geo, v, kind, 0);
    lemma_pick_is_first(geo, v, kind, 0);
    assert(is_first_free(geo, v, kind, g, i));
    let after = with_taken(geo, v, kind, g, i, is_dir);
    assert(taken(geo, v, kind, is_dir).1 == after);
}

/// Bit `i` is the first that is clear in the bitmap of group `g`, which counts
/// something as free; the groups before it count nothing as free, or have no
/// bit that is clear.
pub open spec fn is_first_free(geo: Geometry, v: Volume, kind: Bitmap, g: int, i: int) -> bool {
    &&& 0 <= g < v.groups.len()
    &&& free_count(v.groups[g], kind) > 0
    &&& content(geo, v, bitmap_of(v.groups[g], kind) as int) matches Some(data) && {
        &&& 0 <= i < 8 * data.len()
        &&& !bit(data, i)
        &&& full_before(data, i)
    }
    &&& forall|h: int| 0 <= h < g ==> #[trigger] has_none(geo, v, kind, h)
}

/// A group counts nothing as free, or has no bit that is clear.
pub open spec fn has_none(geo: Geometry, v: Volume, kind: Bitmap, h: int) -> bool {
    free_count(v.groups[h], kind) == 0 || (content(geo, v, bitmap_of(v.groups[h], kind) as int)
        matches Some(data) && full_before(data, 8 * data.len() as int))
}

proof fn lemma_pick_is_first(geo: Geometry, v: Volume, kind: Bitmap, index: int)
    requires
        0 <= index,
    ensures
        pick(geo, v, kind, index) matches Ok(Some((g, i))) ==> {
            &&& forall|h: int| index <= h < g ==> #[trigger] has_none(geo, v, kind, h)
            &&& content(geo, v, bitmap_of(v.groups[g], kind) as int) matches Some(data)
                && full_before(data, i)
        },
    decreases v.groups.len() - index,
{
    if index < v.groups.len() {
        lemma_pick_is_first(geo, v, kind, index + 1);
        if free_count(v.groups[index], kind) != 0 {
            if let Some(data) = content(geo, v, bitmap_of(v.groups[index], kind) as int) {
                let end = match first_clear(data, 0) {
                    Some(i) => i,
                    None => 8 * data.len() as int,
                };
                lemma_clear_inside(data, 0);
                assert forall|j: int| 0 <= j < end implies #[trigger] bit(data, j) by {
                    lemma_first_clear_is_first(data, 0, j);
                }
            }
        }
    }
}

proof fn lemma_clear_inside(data: Seq<u8>, from: int)
    requires
        0 <= from,
    ensures
        first_clear(data, from) matches Some(i) ==> i < 8 * data.len(),
    decreases 8 * data.len() - from,
{
    if from < 8 * data.len() {
        lemma_clear_inside(data, from + 1);
    }
}

/// The blocks of a device follow one another: a byte of a block is the one that
/// lies as far behind the start of the device as all the blocks before it are
/// long, and as it lies behind the start of its block.
pub proof fn law_blocks_make_up_the_device(bytes: Seq<u8>, block_size: int, i: int, j: int)
    requires
        block_size > 0,
        0 <= i < blocks_of(bytes, block_size).len(),
        0 <= j < block_size,
    ensures
        blocks_of(bytes, block_size)[i].len() == block_size,
        blocks_of(bytes, block_size)[i][j] == bytes[i * block_size + j],
        (blocks_of(bytes, block_size).len() + 1) * block_size > bytes.len(),
{
    let n = bytes.len() as int / block_size;
    assert(i * block_size + block_size <= bytes.len() && i * block_size >= 0 && (n + 1) * block_size
        > bytes.len()) by (nonlinear_arith)
        requires
            0 <= i < n,
            n == bytes.len() as int / block_size,
            block_size > 0,
    ;
}

} // verus!
