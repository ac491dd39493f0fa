//! What is told of files and directories: their status and their names.

use crate::common::bytes::copy_bytes;
use crate::common::text::is_utf8;
use crate::object::directory::is_dots;
use crate::object::packet::{stream_header, PacketHeader, PacketType, DIR_ENTRY_LEN};
use crate::storage::fs::ext2::structs::{header_of, DiskDirHeader, DiskInode};
use crate::storage::fs::ext2::volume::{content, has_record, left, Geometry, Volume};
use vstd::prelude::*;
use vstd::utf8::valid_utf8;

verus! {

#[derive(Debug, Clone, Copy, PartialEq, Eq, Structural)]
pub enum ObjectType {
    File,
    Directory,
}

#[derive(Debug, Clone, Copy, PartialEq, Eq, Structural)]
pub struct FileStat {
    pub object_type: ObjectType,
    pub mode: u32,
    pub user: u32,
    pub group: u32,
    pub inode: u64,
    pub device: u64,
    pub size: u64,
    pub block_size: u32,
    pub blocks: u64,
    pub nlink: u32,
    pub atime_sec: i64,
    pub atime_nsec: i64,
    pub mtime_sec: i64,
    pub mtime_nsec: i64,
    pub ctime_sec: i64,
    pub ctime_nsec: i64,
}

pub open spec fn stat_of(object_type: ObjectType, num: u32, inode: DiskInode, block_size: u32) -> FileStat {
    FileStat {
        object_type,
        mode: inode.mode as u32,
        user: inode.uid as u32,
        group: 0,
        inode: num as u64,
        device: 1,
        size: inode.size as u64,
        block_size,
        blocks: inode.blocks as u64,
        nlink: inode.links_count as u32,
        atime_sec: inode.atime as i64,
        atime_nsec: 0,
        mtime_sec: inode.mtime as i64,
        mtime_nsec: 0,
        ctime_sec: inode.ctime as i64,
        ctime_nsec: 0,
    }
}

pub fn status(object_type: ObjectType, num: u32, inode: &DiskInode, block_size: u32) -> (r: FileStat)
    ensures
        r == stat_of(object_type, num, *inode, block_size),
{
    FileStat {
        object_type,
        mode: inode.mode as u32,
        user: inode.uid as u32,
        group: 0,
        inode: num as u64,
        device: 1,
        size: inode.size as u64,
        block_size,
        blocks: inode.blocks as u64,
        nlink: inode.links_count as u32,
        atime_sec: inode.atime as i64,
        atime_nsec: 0,
        mtime_sec: inode.mtime as i64,
        mtime_nsec: 0,
        ctime_sec: inode.ctime as i64,
        ctime_nsec: 0,
    }
}

/// A name in a directory, and the type of what it names.
pub struct ListedName {
    pub name: Vec<u8>,
    pub file_type: u8,
}

impl View for ListedName {
    type V = (Seq<u8>, u8);

    open spec fn view(&self) -> (Seq<u8>, u8) {
        (self.name@, self.file_type)
    }
}

/// The names as values.
pub open spec fn views(names: Seq<ListedName>) -> Seq<(Seq<u8>, u8)> {
    names.map_values(|n: ListedName| n@)
}

/// The record at an offset is one to be listed: it is in use, under a name in
/// UTF-8 that is neither that of the directory itself nor that of its parent.
pub open spec fn is_listed(data: Seq<u8>, at: int) -> bool {
    let h = header_of(data, at);
    let name = data.subrange(at + 8, at + 8 + h.name_length);
    &&& h.inode != 0
    &&& h.name_length > 0
    &&& at + 8 + h.name_length <= data.len()
    &&& valid_utf8(name)
    &&& name != seq![0x2Eu8]
    &&& name != seq![0x2Eu8, 0x2E]
}

/// The names in a directory block from an offset on.
pub open spec fn names_in(data: Seq<u8>, at: int) -> Seq<(Seq<u8>, u8)>
    decreases left(data, at),
{
    if !has_record(data, at) {
        Seq::empty()
    } else {
        let h = header_of(data, at);
        let rest = names_in(data, at + h.record_length);
        if is_listed(data, at) {
            seq![(data.subrange(at + 8, at + 8 + h.name_length), h.file_type)] + rest
        } else {
            rest
        }
    }
}

/// The names in the direct blocks of a directory from block `idx` on.
pub open spec fn names_of(geo: Geometry, v: Volume, inode: DiskInode, idx: int) -> Option<
    Seq<(Seq<u8>, u8)>,
>
    decreases 12 - idx,
{
    if idx >= 12 {
        Some(Seq::empty())
    } else if inode.data.direct[idx] == 0 {
        names_of(geo, v, inode, idx + 1)
    } else {
        match content(geo, v, inode.data.direct[idx] as int) {
            None => None,
            Some(data) => match names_of(geo, v, inode, idx + 1) {
                None => None,
                Some(rest) => Some(names_in(data, 0) + rest),
            },
        }
    }
}

/// Appends the names in a directory block.
pub fn list_block(data: &Vec<u8>, out: &mut Vec<ListedName>)
    requires
        data@.len() <= 4096,
    ensures
        views(final(out)@) == views(old(out)@) + names_in(data@, 0),
{
    let mut offset: usize = 0;
    assert(views(out@) + names_in(data@, 0) =~= views(old(out)@) + names_in(data@, 0));
    while offset + 8 <= data.len()
        invariant_except_break
            offset <= 0x2_0000,
            data@.len() <= 4096,
            views(out@) + names_in(data@, offset as int) == views(old(out)@) + names_in(data@, 0),
        ensures
            views(out@) == views(old(out)@) + names_in(data@, 0),
        decreases left(data@, offset as int),
    {
        let header = DiskDirHeader::read(data, offset);
        let rec_len = header.record_length as usize;
        let name_len = header.name_length as usize;
        if rec_len == 0 {
            assert(names_in(data@, offset as int) =~= Seq::empty());
            assert(views(out@) + names_in(data@, offset as int) =~= views(out@));
            break;
        }
        let ghost rest = names_in(data@, offset + rec_len);
        let ghost before = out@;
        let mut listed = false;
        if header.inode != 0 && name_len > 0 && offset + 8 + name_len <= data.len() {
            let name = copy_bytes(data, offset + 8, name_len);
            if is_utf8(&name) && !is_dots(&name) {
                listed = true;
                let ghost item = (name@, header.file_type);
                out.push(ListedName { name, file_type: header.file_type });
                proof {
                    assert(views(out@) =~= views(before).push(item));
                    assert(views(before).push(item) + rest =~= views(before) + (seq![item] + rest));
                }
            }
        }
        assert(listed == is_listed(data@, offset as int));
        assert(views(out@) + rest =~= views(before) + names_in(data@, offset as int));
        offset += rec_len;
    }
    proof {
        assert(views(out@) + Seq::<(Seq<u8>, u8)>::empty() =~= views(out@));
    }
    assert(views(out@) == views(old(out)@) + names_in(data@, 0));
}

#[derive(Debug, Clone, Copy, PartialEq, Eq, Structural)]
pub enum DirEntryType {
    File,
    Directory,
    Object,
}

/// One packet of a listing: a name of at most 254 bytes. The header says
/// whether another packet follows.
pub struct ListPacket {
    pub header: PacketHeader,
    pub entry_type: DirEntryType,
    pub name: Vec<u8>,
}

pub open spec fn entry_type_of(file_type: u8) -> DirEntryType {
    if file_type == 2 {
        DirEntryType::Directory
    } else if file_type == 1 {
        DirEntryType::File
    } else {
        DirEntryType::Object
    }
}

/// The bytes of a name that a packet has room for.
pub open spec fn packet_name(name: Seq<u8>) -> Seq<u8> {
    if name.len() < 254 {
        name
    } else {
        name.take(254)
    }
}

/// A packet is the one for name `i` of a listing.
pub open spec fn is_packet(packet: ListPacket, names: Seq<(Seq<u8>, u8)>, i: int) -> bool {
    &&& packet.header == stream_header(
        PacketType::DirectoryEntry,
        DIR_ENTRY_LEN,
        i + 1 < names.len(),
    )
    &&& packet.entry_type == entry_type_of(names[i].1)
    &&& packet.name@ == packet_name(names[i].0)
}

/// The packets that a listing is sent as.
pub fn packets(names: &Vec<ListedName>) -> (r: Vec<ListPacket>)
    ensures
        r@.len() == names@.len(),
        forall|i: int|
            0 <= i < r@.len() ==> is_packet(#[trigger] r@[i], views(names@), i),
{
    let mut out: Vec<ListPacket> = Vec::new();
    let mut i: usize = 0;
    while i < names.len()
        invariant
            i <= names@.len(),
            out@.len() == i,
            forall|j: int| 0 <= j < i ==> is_packet(#[trigger] out@[j], views(names@), j),
        decreases names@.len() - i,
    {
        let item = &names[i];
        let entry_type = match item.file_type {
            2 => DirEntryType::Directory,
            1 => DirEntryType::File,
            _ => DirEntryType::Object,
        };
        let len = if item.name.len() < 254 {
            item.name.len()
        } else {
            254
        };
        let name = copy_bytes(&item.name, 0, len);
        proof {
            assert(views(names@)[i as int] == item@);
            assert(name@ =~= packet_name(item.name@));
        }
        let header = PacketHeader::stream(
            PacketType::DirectoryEntry,
            DIR_ENTRY_LEN,
            i + 1 < names.len(),
        );
        out.push(ListPacket { header, entry_type, name });
        i += 1;
    }
    out
}

} // verus!
