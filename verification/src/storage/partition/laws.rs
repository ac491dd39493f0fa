//! What a partition table gives of the device that it stands on.

use crate::common::bytes::{le16, le32, le64};
use crate::storage::partition::gpt::{extents, part_of, partitions_on, PartitionExtent};
use vstd::prelude::*;

verus! {

/// Entry `i` of a table is used: its type does not start with zeroes.
pub open spec fn used(table: Seq<u8>, i: int) -> bool {
    le32(table, 128 * i) != 0 || le16(table, 128 * i + 4) != 0
}

/// How many of the first `n` entries of a table are used.
pub open spec fn used_count(table: Seq<u8>, n: int) -> nat
    decreases n,
{
    if n <= 0 {
        0
    } else {
        used_count(table, n - 1) + if used(table, n - 1) {
            1nat
        } else {
            0
        }
    }
}

/// The first and the last sector of entry `i` of a table.
pub open spec fn first_sector(table: Seq<u8>, i: int) -> u64 {
    le64(table, 128 * i + 32)
}

pub open spec fn last_sector(table: Seq<u8>, i: int) -> u64 {
    le64(table, 128 * i + 40)
}

/// Every used entry of a table gives a partition, in the order of the entries,
/// and no other does. The partition goes from the first sector of the entry to
/// its last.
pub proof fn law_used_entries_give_partitions(table: Seq<u8>, n: int, i: int)
    requires
        0 <= i < n,
    ensures
        extents(table, n) matches Some(parts) ==> {
            &&& parts.len() == used_count(table, n)
            &&& used(table, i) ==> {
                let part = parts[used_count(table, i) as int];
                &&& used_count(table, i) < parts.len()
                &&& part.start_sector == first_sector(table, i)
                &&& part.start_sector + part.total_sectors == last_sector(table, i) + 1
                &&& part.total_sectors > 0
            }
        },
    decreases n,
{
    lemma_parts_counted(table, n - 1);
    lemma_used_count(table, i, n - 1);
    if i < n - 1 && extents(table, n - 1) is Some {
        law_used_entries_give_partitions(table, n - 1, i);
    }
}

proof fn lemma_parts_counted(table: Seq<u8>, n: int)
    ensures
        extents(table, n) matches Some(parts) ==> parts.len() == used_count(table, n),
    decreases n,
{
    if n > 0 {
        lemma_parts_counted(table, n - 1);
    }
}

proof fn lemma_used_count(table: Seq<u8>, low: int, high: int)
    requires
        low <= high,
    ensures
        used_count(table, low) <= used_count(table, high),
    decreases high - low,
{
    if low < high {
        lemma_used_count(table, low, high - 1);
    }
}

/// A table is refused exactly if one of its used entries ends before it starts,
/// or is as large as nothing can be.
pub proof fn law_tables_are_refused_for_an_entry(table: Seq<u8>, n: int)
    ensures
        extents(table, n) is None <==> exists|i: int|
            0 <= i < n && #[trigger] used(table, i) && (last_sector(table, i) < first_sector(
                table,
                i,
            ) || last_sector(table, i) - first_sector(table, i) == u64::MAX),
    decreases n,
{
    if n > 0 {
        law_tables_are_refused_for_an_entry(table, n - 1);
        if extents(table, n) is None && extents(table, n - 1) is Some {
            assert(used(table, n - 1));
        }
        if extents(table, n) is Some {
            assert forall|i: int|
                0 <= i < n && #[trigger] used(table, i) implies last_sector(table, i)
                >= first_sector(table, i) && last_sector(table, i) - first_sector(table, i)
                != u64::MAX by {}
        }
    }
}

/// Entry `i` of the table of a device is the one that stands as far behind the
/// sector that the header names. A device has partitions exactly if the header
/// in its second sector has the signature, names at most so many entries of the
/// one size that is known, the table lies on the device, and no entry is
/// unsound.
pub proof fn law_partitions_come_from_the_device(disk: Seq<u8>)
    ensures
        ({
            let count = le32(disk, 592) as int;
            let first = le64(disk, 584) * 512;
            let last = first + (count * 128 + 511) / 512 * 512;
            let sound = disk.len() >= 1024 && le64(disk, 512) == 0x5452_4150_2049_4645 && count
                <= 128 && le32(disk, 596) == 128 && last <= disk.len();
            &&& partitions_on(disk) is Some ==> sound
            &&& sound ==> partitions_on(disk) == extents(disk.subrange(first, last), count)
        }),
{
    if disk.len() >= 1024 {
        let header = disk.subrange(512, 1024);
        lemma_part(disk, 512, 1024, 0);
        lemma_part(disk, 512, 1024, 72);
        lemma_part(disk, 512, 1024, 80);
        lemma_part(disk, 512, 1024, 84);
        assert(le64(disk, 512) == le64(header, 0));
    }
}

proof fn lemma_part(disk: Seq<u8>, from: int, to: int, at: int)
    requires
        0 <= from <= to <= disk.len(),
        0 <= at,
        at + 8 <= to - from,
    ensures
        le64(disk.subrange(from, to), at) == le64(disk, from + at),
        le32(disk.subrange(from, to), at) == le32(disk, from + at),
        le16(disk.subrange(from, to), at) == le16(disk, from + at),
{
}

/// Sector `k` of a partition is the sector of the device that lies `k` sectors
/// behind the start of the partition, and the partition has as many sectors as
/// it is said to have, where the device has them.
pub proof fn law_partition_shows_its_sectors(disk: Seq<u8>, part: PartitionExtent, k: int)
    requires
        0 <= k < part.total_sectors,
        (part.start_sector + part.total_sectors) * 512 <= disk.len(),
    ensures
        part_of(disk, part.start_sector, part.total_sectors).len() == part.total_sectors * 512,
        part_of(disk, part.start_sector, part.total_sectors).subrange(512 * k, 512 * k + 512)
            == disk.subrange(
            512 * (part.start_sector + k),
            512 * (part.start_sector + k) + 512,
        ),
{
    let s = part_of(disk, part.start_sector, part.total_sectors);
    assert(s.subrange(512 * k, 512 * k + 512) =~= disk.subrange(
        512 * (part.start_sector + k),
        512 * (part.start_sector + k) + 512,
    ));
}

} // verus!
