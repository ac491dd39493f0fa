use vespertine::common::bytes::put32;
use vespertine::storage::blockdev::{BlockDevice, MemoryDisk};
use vespertine::storage::partition::gpt::{
    GptEntry, GptHeader, GptPartition, GptTable, PartitionExtent,
};

fn put64(disk: &mut Vec<u8>, at: usize, x: u64) {
    put32(disk, at, (x & 0xFFFF_FFFF) as u32);
    put32(disk, at + 4, (x >> 32) as u32);
}

fn put_entry(disk: &mut Vec<u8>, i: usize, start: u64, end: u64) {
    let at = 1024 + 128 * i;
    put32(disk, at, 0x0FC6_3DAF);
    put64(disk, at + 32, start);
    put64(disk, at + 40, end);
}

fn image() -> Vec<u8> {
    let mut disk = vec![0u8; 64 * 512];
    let magic = b"EFI PART";
    for i in 0..8 {
        disk[512 + i] = magic[i];
    }
    put64(&mut disk, 512 + 72, 2);
    put32(&mut disk, 512 + 80, 8);
    put32(&mut disk, 512 + 84, 128);
    put_entry(&mut disk, 0, 10, 19);
    put_entry(&mut disk, 2, 30, 30);
    disk
}

#[test]
fn partitions_are_found() {
    let table = GptTable::parse(&MemoryDisk::new(image())).unwrap();
    assert_eq!(table.partitions.len(), 2);
    assert_eq!(table.partitions[0], PartitionExtent { start_sector: 10, total_sectors: 10 });
    assert_eq!(table.partitions[1], PartitionExtent { start_sector: 30, total_sectors: 1 });
}

#[test]
fn entry_has_a_name_and_header_its_checksums() {
    let mut disk = image();
    put32(&mut disk, 512 + 16, 0x1111_2222);
    put32(&mut disk, 512 + 88, 0x3333_4444);
    let header = GptHeader::read(&disk, 512);
    assert_eq!((header.header_checksum, header.reserved_zero), (0x1111_2222, 0));
    assert_eq!(header.table_checksum, 0x3333_4444);
    for i in 0..16 {
        disk[512 + 56 + i] = i as u8;
    }
    let guid = GptHeader::read(&disk, 512).disk_guid;
    assert_eq!((guid.a, guid.b, guid.c), (0x0302_0100, 0x0504, 0x0706));
    assert_eq!(guid.d, [8, 9]);
    assert_eq!(guid.e, [10, 11, 12, 13, 14, 15]);
    let name: Vec<u16> = "root".encode_utf16().collect();
    for i in 0..4 {
        disk[1024 + 56 + 2 * i] = name[i] as u8;
    }
    disk[1024 + 56 + 71] = 1;
    let entry = GptEntry::read(&disk, 1024);
    assert_eq!(entry.partition_name[0..4].to_vec(), name);
    assert_eq!(entry.partition_name[4], 0);
    assert_eq!(entry.partition_name[35], 0x100);
    assert_eq!((entry.starting_lba, entry.ending_lba), (10, 19));
}

#[test]
fn broken_tables_are_refused() {
    let mut disk = image();
    disk[512] = 0;
    assert!(GptTable::parse(&MemoryDisk::new(disk)).is_err());
    let mut disk = image();
    put32(&mut disk, 512 + 84, 256);
    assert!(GptTable::parse(&MemoryDisk::new(disk)).is_err());
    let mut disk = image();
    put32(&mut disk, 512 + 80, 129);
    assert!(GptTable::parse(&MemoryDisk::new(disk)).is_err());
    let mut disk = image();
    put_entry(&mut disk, 1, 20, 10);
    assert!(GptTable::parse(&MemoryDisk::new(disk)).is_err());
    assert!(GptTable::parse(&MemoryDisk::new(vec![0; 512])).is_err());
}

#[test]
fn partition_is_a_device_of_its_own() {
    let mut disk = image();
    disk[10 * 512] = 0xAB;
    disk[20 * 512] = 0xCD;
    let extent = PartitionExtent { start_sector: 10, total_sectors: 10 };
    let mut part = GptPartition::new(MemoryDisk::new(disk), extent);
    assert_eq!(part.read_sectors(0, 1).unwrap()[0], 0xAB);
    assert!(part.read_sectors(10, 1).is_err());
    assert!(part.read_sectors(9, 2).is_err());
    part.write_sectors(9, &vec![1u8; 512]).unwrap();
    assert!(part.write_sectors(10, &vec![1u8; 512]).is_err());
    assert_eq!(part.raw_device.data()[19 * 512], 1);
    assert_eq!(part.raw_device.data()[20 * 512], 0xCD);
}
