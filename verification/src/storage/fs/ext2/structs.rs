//! The structures of an ext2 volume, as they lie on disk.

use crate::common::bytes::{bytes32, get32, law_put_get32, le32, patched, put32, same_outside};
use vstd::prelude::*;

verus! {

pub const EXT2_MAGIC: u16 = 0xEF53;

/// The words that `len` words of bytes from `at` on stand for.
#[verifier::opaque]
pub open spec fn words_at(s: Seq<u8>, at: int, len: nat) -> Seq<u32> {
    Seq::new(len, |j: int| le32(s, at + 4 * j))
}

/// `s` with words written from `at` on.
#[verifier::opaque]
pub open spec fn with_words(s: Seq<u8>, at: int, words: Seq<u32>) -> Seq<u8> {
    Seq::new(
        s.len(),
        |k: int|
            if at <= k < at + 4 * words.len() {
                bytes32(words[(k - at) / 4])[(k - at) % 4]
            } else {
                s[k]
            },
    )
}

/// Words read back as they were written, and everything beside them stays.
pub proof fn law_words_read_back(s: Seq<u8>, at: int, words: Seq<u32>)
    requires
        0 <= at,
        at + 4 * words.len() <= s.len(),
    ensures
        words_at(with_words(s, at, words), at, words.len()) == words,
        same_outside(s, with_words(s, at, words), at, 4 * words.len() as int),
{
    reveal(words_at);
    reveal(with_words);
    let t = with_words(s, at, words);
    assert forall|j: int| 0 <= j < words.len() implies #[trigger] words_at(
        t,
        at,
        words.len(),
    )[j] == words[j] by {
        let here = at + 4 * j;
        law_put_get32(s, here, words[j]);
        let p = patched(s, here, bytes32(words[j]));
        assert(t[here] == p[here]);
        assert(t[here + 1] == p[here + 1]);
        assert(t[here + 2] == p[here + 2]);
        assert(t[here + 3] == p[here + 3]);
    }
    assert(words_at(t, at, words.len()) =~= words);
}

fn write_words(s: &mut Vec<u8>, at: usize, words: &Vec<u32>)
    requires
        at + 4 * words@.len() <= old(s)@.len(),
    ensures
        final(s)@ == with_words(old(s)@, at as int, words@),
        final(s)@.len() == old(s)@.len(),
{
    let size = s.len();
    let mut j: usize = 0;
    proof {
        reveal(with_words);
    }
    assert(s@ =~= with_words(old(s)@, at as int, words@.take(0)));
    while j < words.len()
        invariant
            j <= words@.len(),
            size == s@.len(),
            s@.len() == old(s)@.len(),
            at + 4 * words@.len() <= s@.len(),
            s@ == with_words(old(s)@, at as int, words@.take(j as int)),
        decreases words@.len() - j,
    {
        proof {
            reveal(with_words);
        }
        put32(s, at + 4 * j, words[j]);
        assert(s@ =~= with_words(old(s)@, at as int, words@.take(j + 1)));
        j += 1;
    }
    assert(words@.take(words@.len() as int) =~= words@);
}

pub open spec fn low16(word: u32) -> u16 {
    (word % 0x1_0000) as u16
}

pub open spec fn high16(word: u32) -> u16 {
    (word / 0x1_0000) as u16
}

pub open spec fn halves(low: u16, high: u16) -> u32 {
    (low + 0x1_0000 * high) as u32
}

fn join(low: u16, high: u16) -> (r: u32)
    ensures
        r == halves(low, high),
{
    low as u32 + 0x1_0000 * (high as u32)
}

/// Where the data blocks of a file lie.
#[derive(Debug, Clone, Copy)]
pub struct DiskBlockPointers {
    pub direct: [u32; 12],
    pub single_indirect: u32,
    pub double_indirect: u32,
    pub triple_indirect: u32,
}

#[derive(Debug, Clone, Copy)]
pub struct DiskInode {
    pub mode: u16,
    pub uid: u16,
    pub size: u32,
    pub atime: u32,
    pub ctime: u32,
    pub mtime: u32,
    pub dtime: u32,
    pub gid: u16,
    pub links_count: u16,
    pub blocks: u32,
    pub flags: u32,
    pub osd1: u32,
    pub data: DiskBlockPointers,
    pub generation: u32,
    pub file_acl: u32,
    pub dir_acl: u32,
    pub faddr: u32,
    pub osd2: [u32; 3],
}

pub const INODE_BYTES: u32 = 128;

pub open spec fn inode_of_words(w: Seq<u32>) -> DiskInode {
    DiskInode {
        mode: low16(w[0]),
        uid: high16(w[0]),
        size: w[1],
        atime: w[2],
        ctime: w[3],
        mtime: w[4],
        dtime: w[5],
        gid: low16(w[6]),
        links_count: high16(w[6]),
        blocks: w[7],
        flags: w[8],
        osd1: w[9],
        data: DiskBlockPointers {
            direct: [
                w[10],
                w[11],
                w[12],
                w[13],
                w[14],
                w[15],
                w[16],
                w[17],
                w[18],
                w[19],
                w[20],
                w[21],
            ],
            single_indirect: w[22],
            double_indirect: w[23],
            triple_indirect: w[24],
        },
        generation: w[25],
        file_acl: w[26],
        dir_acl: w[27],
        faddr: w[28],
        osd2: [w[29], w[30], w[31]],
    }
}

pub open spec fn inode_words(i: DiskInode) -> Seq<u32> {
    seq![
        halves(i.mode, i.uid),
        i.size,
        i.atime,
        i.ctime,
        i.mtime,
        i.dtime,
        halves(i.gid, i.links_count),
        i.blocks,
        i.flags,
        i.osd1,
        i.data.direct[0],
        i.data.direct[1],
        i.data.direct[2],
        i.data.direct[3],
        i.data.direct[4],
        i.data.direct[5],
        i.data.direct[6],
        i.data.direct[7],
        i.data.direct[8],
        i.data.direct[9],
        i.data.direct[10],
        i.data.direct[11],
        i.data.single_indirect,
        i.data.double_indirect,
        i.data.triple_indirect,
        i.generation,
        i.file_acl,
        i.dir_acl,
        i.faddr,
        i.osd2[0],
        i.osd2[1],
        i.osd2[2],
    ]
}

/// The inode that lies at a place in a block.
pub open spec fn inode_of(s: Seq<u8>, at: int) -> DiskInode {
    inode_of_words(words_at(s, at, 32))
}

/// A block with an inode written at a place.
pub open spec fn with_inode(s: Seq<u8>, at: int, inode: DiskInode) -> Seq<u8> {
    with_words(s, at, inode_words(inode))
}

/// An inode that is written reads back, and the rest of the block stays.
pub proof fn law_inode_reads_back(s: Seq<u8>, at: int, inode: DiskInode)
    requires
        0 <= at,
        at + 128 <= s.len(),
    ensures
        inode_of(with_inode(s, at, inode), at) == inode,
        same_outside(s, with_inode(s, at, inode), at, 128),
{
    law_words_read_back(s, at, inode_words(inode));
    lemma_inode_words(inode);
}

proof fn lemma_inode_words(inode: DiskInode)
    ensures
        inode_of_words(inode_words(inode)) == inode,
        inode_words(inode).len() == 32,
{
    let back = inode_of_words(inode_words(inode));
    assert(back.data.direct =~= inode.data.direct);
    assert(back.osd2 =~= inode.osd2);
}

impl DiskInode {
    pub fn read(s: &Vec<u8>, at: usize) -> (r: Self)
        requires
            at + 128 <= s@.len(),
        ensures
            r == inode_of(s@, at as int),
    {
        let size = s.len();
        assert(at + 128 <= size);
        proof {
            reveal(words_at);
        }
        let first = get32(s, at);
        let links = get32(s, at + 24);
        DiskInode {
            mode: (first % 0x1_0000) as u16,
            uid: (first / 0x1_0000) as u16,
            size: get32(s, at + 4),
            atime: get32(s, at + 8),
            ctime: get32(s, at + 12),
            mtime: get32(s, at + 16),
            dtime: get32(s, at + 20),
            gid: (links % 0x1_0000) as u16,
            links_count: (links / 0x1_0000) as u16,
            blocks: get32(s, at + 28),
            flags: get32(s, at + 32),
            osd1: get32(s, at + 36),
            data: DiskBlockPointers {
                direct: [
                    get32(s, at + 40),
                    get32(s, at + 44),
                    get32(s, at + 48),
                    get32(s, at + 52),
                    get32(s, at + 56),
                    get32(s, at + 60),
                    get32(s, at + 64),
                    get32(s, at + 68),
                    get32(s, at + 72),
                    get32(s, at + 76),
                    get32(s, at + 80),
                    get32(s, at + 84),
                ],
                single_indirect: get32(s, at + 88),
                double_indirect: get32(s, at + 92),
                triple_indirect: get32(s, at + 96),
            },
            generation: get32(s, at + 100),
            file_acl: get32(s, at + 104),
            dir_acl: get32(s, at + 108),
            faddr: get32(s, at + 112),
            osd2: [get32(s, at + 116), get32(s, at + 120), get32(s, at + 124)],
        }
    }

    pub fn write(&self, s: &mut Vec<u8>, at: usize)
        requires
            at + 128 <= old(s)@.len(),
        ensures
            final(s)@ == with_inode(old(s)@, at as int, *self),
            final(s)@.len() == old(s)@.len(),
    {
        let words: Vec<u32> = vec![
            join(self.mode, self.uid),
            self.size,
            self.atime,
            self.ctime,
            self.mtime,
            self.dtime,
            join(self.gid, self.links_count),
            self.blocks,
            self.flags,
            self.osd1,
            self.data.direct[0],
            self.data.direct[1],
            self.data.direct[2],
            self.data.direct[3],
            self.data.direct[4],
            self.data.direct[5],
            self.data.direct[6],
            self.data.direct[7],
            self.data.direct[8],
            self.data.direct[9],
            self.data.direct[10],
            self.data.direct[11],
            self.data.single_indirect,
            self.data.double_indirect,
            self.data.triple_indirect,
            self.generation,
            self.file_acl,
            self.dir_acl,
            self.faddr,
            self.osd2[0],
            self.osd2[1],
            self.osd2[2],
        ];
        assert(words@ =~= inode_words(*self));
        write_words(s, at, &words);
    }
}

/// The descriptor of a block group.
#[derive(Debug, Clone, Copy, PartialEq, Eq, Structural)]
pub struct DiskGroupDesc {
    pub block_bitmap: u32,
    pub inode_bitmap: u32,
    pub inode_table: u32,
    pub free_blocks_count: u16,
    pub free_inodes_count: u16,
    pub used_dirs_count: u16,
    pub pad: u16,
    pub reserved0: u32,
    pub reserved1: u32,
    pub reserved2: u32,
}

pub const GROUP_DESC_BYTES: u32 = 32;

pub open spec fn group_of_words(w: Seq<u32>) -> DiskGroupDesc {
    DiskGroupDesc {
        block_bitmap: w[0],
        inode_bitmap: w[1],
        inode_table: w[2],
        free_blocks_count: low16(w[3]),
        free_inodes_count: high16(w[3]),
        used_dirs_count: low16(w[4]),
        pad: high16(w[4]),
        reserved0: w[5],
        reserved1: w[6],
        reserved2: w[7],
    }
}

pub open spec fn group_words(g: DiskGroupDesc) -> Seq<u32> {
    seq![
        g.block_bitmap,
        g.inode_bitmap,
        g.inode_table,
        halves(g.free_blocks_count, g.free_inodes_count),
        halves(g.used_dirs_count, g.pad),
        g.reserved0,
        g.reserved1,
        g.reserved2,
    ]
}

pub open spec fn group_of(s: Seq<u8>, at: int) -> DiskGroupDesc {
    group_of_words(words_at(s, at, 8))
}

pub open spec fn with_group(s: Seq<u8>, at: int, group: DiskGroupDesc) -> Seq<u8> {
    with_words(s, at, group_words(group))
}

/// A group descriptor that is written reads back, and the rest of the block
/// stays.
pub proof fn law_group_reads_back(s: Seq<u8>, at: int, group: DiskGroupDesc)
    requires
        0 <= at,
        at + 32 <= s.len(),
    ensures
        group_of(with_group(s, at, group), at) == group,
        same_outside(s, with_group(s, at, group), at, 32),
{
    law_words_read_back(s, at, group_words(group));
}

impl DiskGroupDesc {
    pub fn read(s: &Vec<u8>, at: usize) -> (r: Self)
        requires
            at + 32 <= s@.len(),
        ensures
            r == group_of(s@, at as int),
    {
        let size = s.len();
        assert(at + 32 <= size);
        proof {
            reveal(words_at);
        }
        let counts = get32(s, at + 12);
        let dirs = get32(s, at + 16);
        DiskGroupDesc {
            block_bitmap: get32(s, at),
            inode_bitmap: get32(s, at + 4),
            inode_table: get32(s, at + 8),
            free_blocks_count: (counts % 0x1_0000) as u16,
            free_inodes_count: (counts / 0x1_0000) as u16,
            used_dirs_count: (dirs % 0x1_0000) as u16,
            pad: (dirs / 0x1_0000) as u16,
            reserved0: get32(s, at + 20),
            reserved1: get32(s, at + 24),
            reserved2: get32(s, at + 28),
        }
    }

    pub fn write(&self, s: &mut Vec<u8>, at: usize)
        requires
            at + 32 <= old(s)@.len(),
        ensures
            final(s)@ == with_group(old(s)@, at as int, *self),
            final(s)@.len() == old(s)@.len(),
    {
        let words: Vec<u32> = vec![
            self.block_bitmap,
            self.inode_bitmap,
            self.inode_table,
            join(self.free_blocks_count, self.free_inodes_count),
            join(self.used_dirs_count, self.pad),
            self.reserved0,
            self.reserved1,
            self.reserved2,
        ];
        assert(words@ =~= group_words(*self));
        write_words(s, at, &words);
    }
}

/// The head of a directory entry; the name follows it.
#[derive(Debug, Clone, Copy, PartialEq, Eq, Structural)]
pub struct DiskDirHeader {
    pub inode: u32,
    pub record_length: u16,
    pub name_length: u8,
    pub file_type: u8,
}

pub const DIR_HEADER_BYTES: u32 = 8;

pub open spec fn header_of_words(w: Seq<u32>) -> DiskDirHeader {
    DiskDirHeader {
        inode: w[0],
        record_length: low16(w[1]),
        name_length: (w[1] / 0x1_0000 % 0x100) as u8,
        file_type: (w[1] / 0x100_0000) as u8,
    }
}

pub open spec fn header_words(h: DiskDirHeader) -> Seq<u32> {
    seq![
        h.inode,
        (h.record_length + 0x1_0000 * h.name_length + 0x100_0000 * h.file_type) as u32,
    ]
}

pub open spec fn header_of(s: Seq<u8>, at: int) -> DiskDirHeader {
    header_of_words(words_at(s, at, 2))
}

pub open spec fn with_header(s: Seq<u8>, at: int, header: DiskDirHeader) -> Seq<u8> {
    with_words(s, at, header_words(header))
}

/// A directory header that is written reads back, and the rest of the block
/// stays.
pub proof fn law_header_reads_back(s: Seq<u8>, at: int, header: DiskDirHeader)
    requires
        0 <= at,
        at + 8 <= s.len(),
    ensures
        header_of(with_header(s, at, header), at) == header,
        same_outside(s, with_header(s, at, header), at, 8),
{
    law_words_read_back(s, at, header_words(header));
}

impl DiskDirHeader {
    pub fn read(s: &Vec<u8>, at: usize) -> (r: Self)
        requires
            at + 8 <= s@.len(),
        ensures
            r == header_of(s@, at as int),
    {
        let size = s.len();
        assert(at + 8 <= size);
        proof {
            reveal(words_at);
        }
        let second = get32(s, at + 4);
        DiskDirHeader {
            inode: get32(s, at),
            record_length: (second % 0x1_0000) as u16,
            name_length: (second / 0x1_0000 % 0x100) as u8,
            file_type: (second / 0x100_0000) as u8,
        }
    }

    pub fn write(&self, s: &mut Vec<u8>, at: usize)
        requires
            at + 8 <= old(s)@.len(),
        ensures
            final(s)@ == with_header(old(s)@, at as int, *self),
            final(s)@.len() == old(s)@.len(),
    {
        let second = self.record_length as u32 + 0x1_0000 * (self.name_length as u32) + 0x100_0000
            * (self.file_type as u32);
        let words: Vec<u32> = vec![self.inode, second];
        assert(words@ =~= header_words(*self));
        write_words(s, at, &words);
    }
}

} // verus!
