//! Devices that hold sectors, and the blocks of a file system on them.

use crate::common::bytes::{copy_bytes, patched, put_bytes};
use vstd::prelude::*;

verus! {

pub const SECTOR_SIZE: u64 = 512;

/// The bytes that a device holds.
pub type Content = Seq<u8>;

/// A device that is read and written by sectors.
pub trait BlockDevice {
    /// The bytes on the device.
    spec fn content(&self) -> Content;

    /// No transfer inside the device fails.
    spec fn reliable(&self) -> bool;

    fn read_sectors(&self, sector: u64, count: u64) -> (r: Result<Vec<u8>, ()>)
        ensures
            r matches Ok(data) ==> {
                &&& in_device(self.content(), sector, count as int)
                &&& data@ == self.content().subrange(sector * 512, (sector + count) * 512)
            },
            self.reliable() && in_device(self.content(), sector, count as int) ==> r is Ok,
    ;

    fn write_sectors(&mut self, sector: u64, data: &Vec<u8>) -> (r: Result<(), ()>)
        requires
            data@.len() % 512 == 0,
        ensures
            final(self).content().len() == old(self).content().len(),
            old(self).reliable() ==> final(self).reliable(),
            r is Ok ==> {
                &&& in_device(old(self).content(), sector, data@.len() as int / 512)
                &&& final(self).content() == patched(old(self).content(), sector * 512, data@)
            },
            !in_device(old(self).content(), sector, data@.len() as int / 512) ==> final(self).content() == old(self).content(),
            old(self).reliable() && in_device(
                old(self).content(),
                sector,
                data@.len() as int / 512,
            ) ==> r is Ok,
    ;
}

/// The sectors lie inside the device.
pub open spec fn in_device(content: Seq<u8>, sector: u64, count: int) -> bool {
    (sector + count) * 512 <= content.len()
}

/// A device in memory.
pub struct MemoryDisk {
    data: Vec<u8>,
}

impl MemoryDisk {
    pub fn new(data: Vec<u8>) -> (r: Self)
        ensures
            r.content() == data@,
            r.reliable(),
    {
        MemoryDisk { data }
    }

    pub fn data(&self) -> (r: &Vec<u8>)
        ensures
            r@ == self.content(),
    {
        &self.data
    }
}

impl BlockDevice for MemoryDisk {
    closed spec fn content(&self) -> Seq<u8> {
        self.data@
    }

    open spec fn reliable(&self) -> bool {
        true
    }

    fn read_sectors(&self, sector: u64, count: u64) -> (r: Result<Vec<u8>, ()>) {
        let sectors = self.data.len() as u64 / 512;
        if sector > sectors || count > sectors - sector {
            return Err(());
        }
        let size = self.data.len();
        assert((sector + count) * 512 <= size);
        Ok(copy_bytes(&self.data, (sector * 512) as usize, (count * 512) as usize))
    }

    fn write_sectors(&mut self, sector: u64, data: &Vec<u8>) -> (r: Result<(), ()>) {
        let sectors = self.data.len() as u64 / 512;
        let count = data.len() as u64 / 512;
        if sector > sectors || count > sectors - sector {
            return Err(());
        }
        let size = self.data.len();
        assert((sector + count) * 512 <= size);
        put_bytes(&mut self.data, (sector * 512) as usize, data);
        Ok(())
    }
}

/// The whole blocks that bytes divide into.
pub open spec fn blocks_of(content: Seq<u8>, block_size: int) -> Seq<Seq<u8>> {
    Seq::new(
        (content.len() as int / block_size) as nat,
        |i: int| content.subrange(i * block_size, i * block_size + block_size),
    )
}

pub open spec fn is_block_size(block_size: int) -> bool {
    block_size == 1024 || block_size == 2048 || block_size == 4096
}

/// A device seen as blocks of one size.
pub struct BlockCache<D: BlockDevice> {
    device: D,
    block_size: u32,
}

impl<D: BlockDevice> View for BlockCache<D> {
    type V = Seq<Seq<u8>>;

    closed spec fn view(&self) -> Seq<Seq<u8>> {
        blocks_of(self.device.content(), self.block_size as int)
    }
}

impl<D: BlockDevice> BlockCache<D> {
    pub closed spec fn wf(&self) -> bool {
        is_block_size(self.block_size as int)
    }

    pub closed spec fn size(&self) -> int {
        self.block_size as int
    }

    pub closed spec fn reliable(&self) -> bool {
        self.device.reliable()
    }

    pub closed spec fn content(&self) -> Seq<u8> {
        self.device.content()
    }

    pub fn new(device: D, block_size: u32) -> (r: Self)
        requires
            is_block_size(block_size as int),
        ensures
            r.wf(),
            r.size() == block_size,
            r@ == blocks_of(device.content(), block_size as int),
            r.content() == device.content(),
            r.reliable() == device.reliable(),
    {
        BlockCache { device, block_size }
    }

    pub fn device(&self) -> (r: &D)
        ensures
            r.content() == self.content(),
            r.reliable() == self.reliable(),
    {
        &self.device
    }

    pub proof fn lemma_blocks(&self)
        requires
            self.wf(),
        ensures
            is_block_size(self.size()),
            self@ == blocks_of(self.content(), self.size()),
            forall|i: int| 0 <= i < self@.len() ==> (#[trigger] self@[i]).len() == self.size(),
    {
        let bs = self.block_size as int;
        assert forall|i: int| 0 <= i < self@.len() implies (#[trigger] self@[i]).len() == bs by {
            lemma_block_inside(self.device.content().len() as int, bs, i);
        }
    }

    pub fn read_block(&self, block: u32) -> (r: Result<Vec<u8>, ()>)
        requires
            self.wf(),
        ensures
            r matches Ok(data) ==> block < self@.len() && data@ == self@[block as int],
            self.reliable() && block < self@.len() ==> r is Ok,
    {
        let per_block = self.block_size as u64 / 512;
        proof {
            lemma_sectors(self.device.content().len() as int, self.block_size as int, block as int);
        }
        let sector = block as u64 * per_block;
        self.device.read_sectors(sector, per_block)
    }

    pub fn write_block(&mut self, block: u32, data: &Vec<u8>) -> (r: Result<(), ()>)
        requires
            old(self).wf(),
            data@.len() == old(self).size(),
        ensures
            final(self).wf(),
            final(self).size() == old(self).size(),
            final(self)@.len() == old(self)@.len(),
            old(self).reliable() ==> final(self).reliable(),
            r is Ok ==> {
                &&& block < old(self)@.len()
                &&& final(self)@ == old(self)@.update(block as int, data@)
            },
            block >= old(self)@.len() ==> final(self)@ == old(self)@,
            old(self).reliable() && block < old(self)@.len() ==> r is Ok,
    {
        let per_block = self.block_size as u64 / 512;
        let ghost before = self.device.content();
        let ghost bs = self.block_size as int;
        proof {
            lemma_sectors(before.len() as int, bs, block as int);
        }
        let sector = block as u64 * per_block;
        let r = self.device.write_sectors(sector, data);
        proof {
            if r is Ok {
                lemma_block_written(before, bs, block as int, data@);
                assert(sector * 512 == block * bs);
            }
        }
        r
    }
}

proof fn lemma_block_inside(len: int, bs: int, i: int)
    requires
        is_block_size(bs),
        0 <= i < len / bs,
    ensures
        0 <= i * bs,
        i * bs + bs <= len,
{
    assert(0 <= i * bs && i * bs + bs <= len) by (nonlinear_arith)
        requires
            bs > 0,
            0 <= i < len / bs,
    ;
}

proof fn lemma_sectors(len: int, bs: int, block: int)
    requires
        is_block_size(bs),
        0 <= block <= u32::MAX,
        0 <= len,
    ensures
        block * (bs / 512) * 512 == block * bs,
        (block * (bs / 512) + bs / 512) * 512 == block * bs + bs,
        (block * (bs / 512) + bs / 512) * 512 <= len <==> block < len / bs,
        block * (bs / 512) <= u64::MAX,
{
    if bs == 1024 {
        assert(bs / 512 == 2);
    } else if bs == 2048 {
        assert(bs / 512 == 4);
    } else {
        assert(bs / 512 == 8);
    }
}

proof fn lemma_block_written(content: Seq<u8>, bs: int, block: int, data: Seq<u8>)
    requires
        is_block_size(bs),
        0 <= block < content.len() as int / bs,
        data.len() == bs,
    ensures
        blocks_of(patched(content, block * bs, data), bs) == blocks_of(content, bs).update(
            block,
            data,
        ),
{
    let after = patched(content, block * bs, data);
    let len = content.len() as int;
    lemma_block_inside(len, bs, block);
    assert forall|i: int| 0 <= i < len / bs implies #[trigger] blocks_of(after, bs)[i]
        == blocks_of(content, bs).update(block, data)[i] by {
        lemma_block_inside(len, bs, i);
        let b = after.subrange(i * bs, i * bs + bs);
        if i == block {
            assert(b =~= data);
        } else {
            assert(i * bs + bs <= block * bs || block * bs + bs <= i * bs) by {
                if bs == 1024 {
                } else if bs == 2048 {
                } else {
                }
            }
            assert(b =~= content.subrange(i * bs, i * bs + bs));
        }
    }
    assert(blocks_of(after, bs) =~= blocks_of(content, bs).update(block, data));
}

} // verus!
