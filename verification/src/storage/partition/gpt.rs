//! The GUID partition table.

use crate::common::bytes::{get16, get32, get64, le16, le32, le64, patched};
use crate::storage::blockdev::BlockDevice;
use vstd::prelude::*;

verus! {

/// "EFI PART".
pub const GPT_SIGNATURE: u64 = 0x5452415020494645;

#[derive(Debug, Clone, Copy, PartialEq, Eq)]
pub struct GptGuid {
    pub a: u32,
    pub b: u16,
    pub c: u16,
    pub d: [u8; 2],
    pub e: [u8; 6],
}

/// A GUID is the one at a place.
pub open spec fn is_guid(guid: GptGuid, s: Seq<u8>, at: int) -> bool {
    &&& guid.a == le32(s, at)
    &&& guid.b == le16(s, at + 4)
    &&& guid.c == le16(s, at + 6)
    &&& guid.d@ == s.subrange(at + 8, at + 10)
    &&& guid.e@ == s.subrange(at + 10, at + 16)
}

/// What stands at the start of a table. Neither checksum is looked at.
#[derive(Debug, Clone, Copy, PartialEq, Eq)]
pub struct GptHeader {
    pub signature: u64,
    pub revision: u32,
    pub header_size: u32,
    pub header_checksum: u32,
    pub reserved_zero: u32,
    pub current_lba: u64,
    pub backup_lba: u64,
    pub first_lba: u64,
    pub last_lba: u64,
    pub disk_guid: GptGuid,
    pub entry_table_lba: u64,
    pub num_entries: u32,
    pub entry_size: u32,
    pub table_checksum: u32,
}

/// A header is the one at a place.
pub open spec fn is_header(header: GptHeader, s: Seq<u8>, at: int) -> bool {
    &&& header.signature == le64(s, at)
    &&& header.revision == le32(s, at + 8)
    &&& header.header_size == le32(s, at + 12)
    &&& header.header_checksum == le32(s, at + 16)
    &&& header.reserved_zero == le32(s, at + 20)
    &&& header.current_lba == le64(s, at + 24)
    &&& header.backup_lba == le64(s, at + 32)
    &&& header.first_lba == le64(s, at + 40)
    &&& header.last_lba == le64(s, at + 48)
    &&& is_guid(header.disk_guid, s, at + 56)
    &&& header.entry_table_lba == le64(s, at + 72)
    &&& header.num_entries == le32(s, at + 80)
    &&& header.entry_size == le32(s, at + 84)
    &&& header.table_checksum == le32(s, at + 88)
}

/// One entry of a table. The name is in UTF-16.
#[derive(Debug, Clone, Copy)]
pub struct GptEntry {
    pub part_type_guid: GptGuid,
    pub uniq_part_guid: GptGuid,
    pub starting_lba: u64,
    pub ending_lba: u64,
    pub attrs: u64,
    pub partition_name: [u16; 36],
}

/// The name in the entry at a place.
pub open spec fn name_at(s: Seq<u8>, at: int) -> Seq<u16> {
    Seq::new(36, |k: int| le16(s, at + 56 + 2 * k))
}

/// An entry is the one at a place.
pub open spec fn is_entry(entry: GptEntry, s: Seq<u8>, at: int) -> bool {
    &&& is_guid(entry.part_type_guid, s, at)
    &&& is_guid(entry.uniq_part_guid, s, at + 16)
    &&& entry.starting_lba == le64(s, at + 32)
    &&& entry.ending_lba == le64(s, at + 40)
    &&& entry.attrs == le64(s, at + 48)
    &&& entry.partition_name@ == name_at(s, at)
}

impl GptGuid {
    pub fn read(s: &Vec<u8>, at: usize) -> (r: Self)
        requires
            at + 16 <= s@.len(),
        ensures
            is_guid(r, s@, at as int),
    {
        let size = s.len();
        assert(at + 16 <= size);
        let d = [s[at + 8], s[at + 9]];
        let e = [s[at + 10], s[at + 11], s[at + 12], s[at + 13], s[at + 14], s[at + 15]];
        assert(d@ =~= s@.subrange(at + 8, at + 10));
        assert(e@ =~= s@.subrange(at + 10, at + 16));
        GptGuid { a: get32(s, at), b: get16(s, at + 4), c: get16(s, at + 6), d, e }
    }
}

impl GptHeader {
    pub fn read(s: &Vec<u8>, at: usize) -> (r: Self)
        requires
            at + 92 <= s@.len(),
        ensures
            is_header(r, s@, at as int),
    {
        let size = s.len();
        assert(at + 92 <= size);
        GptHeader {
            signature: get64(s, at),
            revision: get32(s, at + 8),
            header_size: get32(s, at + 12),
            header_checksum: get32(s, at + 16),
            reserved_zero: get32(s, at + 20),
            current_lba: get64(s, at + 24),
            backup_lba: get64(s, at + 32),
            first_lba: get64(s, at + 40),
            last_lba: get64(s, at + 48),
            disk_guid: GptGuid::read(s, at + 56),
            entry_table_lba: get64(s, at + 72),
            num_entries: get32(s, at + 80),
            entry_size: get32(s, at + 84),
            table_checksum: get32(s, at + 88),
        }
    }
}

impl GptEntry {
    pub fn read(s: &Vec<u8>, at: usize) -> (r: Self)
        requires
            at + 128 <= s@.len(),
        ensures
            is_entry(r, s@, at as int),
    {
        let size = s.len();
        assert(at + 128 <= size);
        let mut partition_name: [u16; 36] = [0;36];
        let mut k: usize = 0;
        while k < 36
            invariant
                k <= 36,
                size == s@.len(),
                at + 128 <= size,
                forall|j: int|
                    0 <= j < k ==> #[trigger] partition_name@[j] == name_at(s@, at as int)[j],
            decreases 36 - k,
        {
            partition_name[k] = get16(s, at + 56 + 2 * k);
            k += 1;
        }
        assert(partition_name@ =~= name_at(s@, at as int));
        GptEntry {
            part_type_guid: GptGuid::read(s, at),
            uniq_part_guid: GptGuid::read(s, at + 16),
            starting_lba: get64(s, at + 32),
            ending_lba: get64(s, at + 40),
            attrs: get64(s, at + 48),
            partition_name,
        }
    }
}

/// Where a partition lies on its device.
#[derive(Debug, Clone, Copy, PartialEq, Eq, Structural)]
pub struct PartitionExtent {
    pub start_sector: u64,
    pub total_sectors: u64,
}

/// A device that is a part of another.
pub struct GptPartition<D: BlockDevice> {
    pub raw_device: D,
    pub start_sector: u64,
    pub total_sectors: u64,
}

/// The bytes of a part of a device, as far as the device has them.
pub open spec fn part_of(disk: Seq<u8>, start: u64, total: u64) -> Seq<u8> {
    let from = start * 512;
    let to = if (start + total) * 512 < disk.len() {
        (start + total) * 512
    } else {
        disk.len() as int
    };
    if from <= to {
        disk.subrange(from, to)
    } else {
        Seq::empty()
    }
}

impl<D: BlockDevice> GptPartition<D> {
    pub fn new(raw_device: D, extent: PartitionExtent) -> (r: Self)
        ensures
            r.raw_device == raw_device,
            r.start_sector == extent.start_sector,
            r.total_sectors == extent.total_sectors,
    {
        GptPartition {
            raw_device,
            start_sector: extent.start_sector,
            total_sectors: extent.total_sectors,
        }
    }

    /// The sector of the device that a range of sectors of the partition
    /// starts at, if the range lies in the partition.
    fn absolute(&self, sector: u64, count: u64) -> (r: Option<u64>)
        ensures
            match r {
                Some(absolute) => absolute == self.start_sector + sector && sector + count
                    <= self.total_sectors,
                None => sector + count > self.total_sectors || self.start_sector + sector
                    > u64::MAX,
            },
    {
        match sector.checked_add(count) {
            Some(end) => if end <= self.total_sectors {
                self.start_sector.checked_add(sector)
            } else {
                None
            },
            None => None,
        }
    }
}

impl<D: BlockDevice> BlockDevice for GptPartition<D> {
    open spec fn content(&self) -> Seq<u8> {
        part_of(self.raw_device.content(), self.start_sector, self.total_sectors)
    }

    open spec fn reliable(&self) -> bool {
        &&& self.raw_device.reliable()
        &&& self.start_sector * 512 <= self.raw_device.content().len()
        &&& self.start_sector + self.total_sectors <= u64::MAX
    }

    fn read_sectors(&self, sector: u64, count: u64) -> (r: Result<Vec<u8>, ()>)
        ensures
            r matches Ok(data) ==> {
                &&& sector + count <= self.total_sectors
                &&& data@ == self.raw_device.content().subrange(
                    512 * (self.start_sector + sector),
                    512 * (self.start_sector + sector + count),
                )
            },
    {
        match self.absolute(sector, count) {
            Some(absolute_sector) => {
                let r = self.raw_device.read_sectors(absolute_sector, count);
                proof {
                    if r is Ok {
                        assert(r->Ok_0@ =~= self.content().subrange(
                            sector * 512,
                            (sector + count) * 512,
                        ));
                    }
                }
                r
            },
            None => Err(()),
        }
    }

    fn write_sectors(&mut self, sector: u64, data: &Vec<u8>) -> (r: Result<(), ()>)
        ensures
            final(self).start_sector == old(self).start_sector,
            final(self).total_sectors == old(self).total_sectors,
            r is Ok ==> {
                &&& sector * 512 + data@.len() <= old(self).total_sectors * 512
                &&& final(self).raw_device.content() == patched(
                    old(self).raw_device.content(),
                    512 * (old(self).start_sector + sector),
                    data@,
                )
            },
    {
        let count = data.len() as u64 / 512;
        match self.absolute(sector, count) {
            Some(absolute_sector) => {
                let ghost before = self.content();
                let r = self.raw_device.write_sectors(absolute_sector, data);
                proof {
                    if r is Ok {
                        assert(self.content() =~= patched(before, sector * 512, data@));
                    }
                }
                r
            },
            None => Err(()),
        }
    }
}

/// What is written to one partition does not change another that lies apart
/// from it on the same device.
pub proof fn law_partitions_are_apart(
    disk: Seq<u8>,
    a: PartitionExtent,
    b: PartitionExtent,
    sector: u64,
    data: Seq<u8>,
)
    requires
        a.start_sector + a.total_sectors <= b.start_sector || b.start_sector + b.total_sectors
            <= a.start_sector,
        sector * 512 + data.len() <= a.total_sectors * 512,
    ensures
        part_of(
            patched(disk, (a.start_sector + sector) * 512, data),
            b.start_sector,
            b.total_sectors,
        ) == part_of(disk, b.start_sector, b.total_sectors),
{
    let after = patched(disk, (a.start_sector + sector) * 512, data);
    assert(part_of(after, b.start_sector, b.total_sectors) =~= part_of(
        disk,
        b.start_sector,
        b.total_sectors,
    ));
}

/// The entry at a place is in use: its type is not zero where that is looked
/// at.
pub open spec fn in_use(table: Seq<u8>, at: int) -> bool {
    le32(table, at) != 0 || le16(table, at + 4) != 0
}

/// The partitions with that of the entry at a place.
pub open spec fn extended(
    before: Seq<PartitionExtent>,
    table: Seq<u8>,
    at: int,
) -> Option<Seq<PartitionExtent>> {
    let start = le64(table, at + 32);
    let end = le64(table, at + 40);
    if !in_use(table, at) {
        Some(before)
    } else if end < start || end - start == u64::MAX {
        None
    } else {
        Some(
            before.push(
                PartitionExtent { start_sector: start, total_sectors: (end - start + 1) as u64 },
            ),
        )
    }
}

/// The partitions among the first `n` entries of a table; nothing if one of
/// them ends before it starts, or is larger than can be.
pub open spec fn extents(table: Seq<u8>, n: int) -> Option<Seq<PartitionExtent>>
    decreases n,
{
    if n <= 0 {
        Some(Seq::empty())
    } else {
        match extents(table, n - 1) {
            None => None,
            Some(before) => extended(before, table, 128 * (n - 1)),
        }
    }
}

/// The partitions of a device.
pub open spec fn partitions_on(disk: Seq<u8>) -> Option<Seq<PartitionExtent>> {
    let header = disk.subrange(512, 1024);
    let first = le64(header, 72);
    let n = le32(header, 80) as int;
    let sectors = (n * 128 + 511) / 512;
    if disk.len() < 1024 || le64(header, 0) != GPT_SIGNATURE || n > 128 || le32(header, 84) != 128
        || (first + sectors) * 512 > disk.len() {
        None
    } else {
        extents(disk.subrange(first * 512, (first + sectors) * 512), n)
    }
}

pub struct GptTable {
    pub partitions: Vec<PartitionExtent>,
}

impl GptTable {
    /// Reads the partition table of a device.
    pub fn parse<D: BlockDevice>(raw_device: &D) -> (r: Result<Self, ()>)
        ensures
            r is Ok || raw_device.reliable() ==> (match r {
                Ok(table) => Some(table.partitions@),
                Err(_) => None,
            }) == partitions_on(raw_device.content()),
    {
        let ghost disk = raw_device.content();
        let sector = match raw_device.read_sectors(1, 1) {
            Ok(sector) => sector,
            Err(_) => {
                return Err(());
            },
        };
        assert(sector@ == disk.subrange(512, 1024));
        let header = GptHeader::read(&sector, 0);
        if header.signature != GPT_SIGNATURE {
            return Err(());
        }
        if header.num_entries > 128 || header.entry_size != 128 {
            return Err(());
        }
        let num_entries = header.num_entries as usize;
        let total_table_bytes = header.num_entries as u64 * 128;
        let table_sectors = (total_table_bytes + 511) / 512;
        let table = match raw_device.read_sectors(header.entry_table_lba, table_sectors) {
            Ok(table) => table,
            Err(_) => {
                return Err(());
            },
        };
        match read_extents(&table, num_entries) {
            Ok(partitions) => Ok(GptTable { partitions }),
            Err(_) => Err(()),
        }
    }
}

fn read_extents(table: &Vec<u8>, num_entries: usize) -> (r: Result<Vec<PartitionExtent>, ()>)
    requires
        num_entries <= 128,
        num_entries * 128 <= table@.len(),
    ensures
        extents(table@, num_entries as int) == (match r {
            Ok(partitions) => Some(partitions@),
            Err(_) => None,
        }),
{
    let mut partitions: Vec<PartitionExtent> = Vec::new();
    let mut i: usize = 0;
    while i < num_entries
        invariant
            i <= num_entries <= 128,
            num_entries * 128 <= table@.len(),
            extents(table@, i as int) == Some(partitions@),
        decreases num_entries - i,
    {
        let entry = GptEntry::read(table, 128 * i);
        if entry.part_type_guid.a != 0 || entry.part_type_guid.b != 0 {
            if entry.ending_lba < entry.starting_lba || entry.ending_lba - entry.starting_lba
                == u64::MAX {
                proof {
                    lemma_extents_step(table@, i as int);
                    lemma_extents_stop(table@, i as int, num_entries as int);
                }
                return Err(());
            }
            let total_sectors = entry.ending_lba - entry.starting_lba + 1;
            partitions.push(PartitionExtent { start_sector: entry.starting_lba, total_sectors });
        }
        proof {
            lemma_extents_step(table@, i as int);
        }
        i += 1;
    }
    Ok(partitions)
}

proof fn lemma_extents_step(table: Seq<u8>, i: int)
    requires
        0 <= i,
        extents(table, i) is Some,
    ensures
        extents(table, i + 1) == extended(extents(table, i)->0, table, 128 * i),
{
}

proof fn lemma_extents_stop(table: Seq<u8>, i: int, n: int)
    requires
        0 <= i < n,
        extents(table, i + 1) is None,
    ensures
        extents(table, n) is None,
    decreases n,
{
    if i + 1 < n {
        lemma_extents_stop(table, i, n - 1);
    }
}

} // verus!
