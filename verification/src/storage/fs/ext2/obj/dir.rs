//! Directories.

use crate::common::bytes::{bytes32, get32, matches_at, patched, put32, put_bytes, zero_bytes, zeroes};
use crate::object::directory::{name_fault, validate_child_name, FILENAME_LEN_MAX};
use crate::object::handle::{HandleEntry, HandleID};
use crate::object::invoke::InvocationError;
use crate::object::rights::AccessRights;
use crate::process::procman::CallingProcess;
use crate::storage::blockdev::{is_block_size, BlockDevice};
use crate::storage::fs::ext2::obj::listing::{
    is_packet, list_block, names_in, names_of, packets, stat_of, status, views, FileStat,
    ListPacket, ListedName, ObjectType,
};
use crate::storage::fs::ext2::structs::{
    header_of, with_header, DiskBlockPointers, DiskDirHeader, DiskInode,
};
use crate::storage::fs::ext2::volume::{
    content, counted, file_released, has_record, inode_released, is_directory, left, looked_up,
    names, path_of, pointer, resolved, root_of, stored_inode, taken, with_direct, with_root,
    with_stored, Bitmap, Geometry, Volume,
};
use crate::storage::fs::ext2::{path_fits, Ext2FileSystem};
use vstd::prelude::*;

verus! {

/// An open directory.
pub struct Ext2Directory {
    pub inode_num: u32,
    pub inode_data: DiskInode,
}

/// How many bytes a record takes for a name of `len` bytes.
pub open spec fn record_size(len: int) -> int {
    (len + 11) / 4 * 4
}

fn record_bytes(len: usize) -> (r: usize)
    requires
        len <= 255,
    ensures
        r == record_size(len as int),
{
    (len + 11) / 4 * 4
}

/// The last record of a directory block, if it has room to spare for another
/// of `needed` bytes.
pub open spec fn room(data: Seq<u8>, at: int, needed: int) -> Option<int>
    decreases left(data, at),
{
    if !has_record(data, at) {
        None
    } else {
        let h = header_of(data, at);
        if at + h.record_length == data.len() && h.record_length - record_size(
            h.name_length as int,
        ) >= needed {
            Some(at)
        } else {
            room(data, at + h.record_length, needed)
        }
    }
}

fn find_room(data: &Vec<u8>, needed: usize) -> (r: Option<usize>)
    requires
        data@.len() <= 4096,
        needed <= 0x1000,
    ensures
        room(data@, 0, needed as int) == (match r {
            Some(at) => Some(at as int),
            None => None,
        }),
        r matches Some(at) ==> at + 8 <= data@.len(),
{
    let mut offset: usize = 0;
    while offset + 8 <= data.len()
        invariant_except_break
            offset <= 0x2_0000,
            data@.len() <= 4096,
            needed <= 0x1000,
            room(data@, 0, needed as int) == room(data@, offset as int, needed as int),
        ensures
            room(data@, 0, needed as int) is None,
        decreases left(data@, offset as int),
    {
        let header = DiskDirHeader::read(data, offset);
        let rec_len = header.record_length as usize;
        if rec_len == 0 {
            break;
        }
        if offset + rec_len == data.len() {
            let last_used_len = record_bytes(header.name_length as usize);
            if rec_len >= last_used_len && rec_len - last_used_len >= needed {
                return Some(offset);
            }
        }
        offset += rec_len;
    }
    None
}

/// A directory block after the record at `at` has ceded the room that it does
/// not need to a new one.
pub open spec fn with_entry(
    data: Seq<u8>,
    at: int,
    name: Seq<u8>,
    inode: u32,
    file_type: u8,
) -> Seq<u8> {
    let h = header_of(data, at);
    let used = record_size(h.name_length as int);
    let shortened = with_header(
        data,
        at,
        DiskDirHeader { record_length: used as u16, ..h },
    );
    let entry = DiskDirHeader {
        inode,
        record_length: (h.record_length - used) as u16,
        name_length: name.len() as u8,
        file_type,
    };
    patched(with_header(shortened, at + used, entry), at + used + 8, name)
}

fn add_entry(data: &mut Vec<u8>, at: usize, name: &Vec<u8>, inode: u32, file_type: u8)
    requires
        old(data)@.len() <= 4096,
        name@.len() <= 254,
        at + header_of(old(data)@, at as int).record_length == old(data)@.len(),
        header_of(old(data)@, at as int).record_length >= record_size(
            header_of(old(data)@, at as int).name_length as int,
        ) + record_size(name@.len() as int),
    ensures
        final(data)@ == with_entry(old(data)@, at as int, name@, inode, file_type),
        final(data)@.len() == old(data)@.len(),
{
    let header = DiskDirHeader::read(data, at);
    let used = record_bytes(header.name_length as usize);
    let padding = header.record_length - used as u16;
    let shortened = DiskDirHeader { record_length: used as u16, ..header };
    shortened.write(data, at);
    let entry = DiskDirHeader {
        inode,
        record_length: padding,
        name_length: name.len() as u8,
        file_type,
    };
    entry.write(data, at + used);
    put_bytes(data, at + used + 8, name);
}

/// A directory block that holds one record.
pub open spec fn block_of_entry(geo: Geometry, name: Seq<u8>, inode: u32, file_type: u8) -> Seq<u8> {
    let entry = DiskDirHeader {
        inode,
        record_length: geo.block_size as u16,
        name_length: name.len() as u8,
        file_type,
    };
    patched(with_header(zeroes(geo.bs() as nat), 0, entry), 8, name)
}

/// Where a new record of `needed` bytes fits among the blocks of a directory
/// from block `idx` on.
pub open spec fn place_for(
    geo: Geometry,
    v: Volume,
    inode: DiskInode,
    needed: int,
    idx: int,
    total: int,
) -> Result<Option<(u32, int)>, ()>
    decreases total - idx,
{
    if idx >= total {
        Ok(None)
    } else {
        match resolved(geo, v, inode, idx) {
            Some(block) => if block == 0 {
                place_for(geo, v, inode, needed, idx + 1, total)
            } else {
                match content(geo, v, block as int) {
                    None => Err(()),
                    Some(data) => match room(data, 0, needed) {
                        Some(at) => Ok(Some((block, at))),
                        None => place_for(geo, v, inode, needed, idx + 1, total),
                    },
                }
            },
            None => place_for(geo, v, inode, needed, idx + 1, total),
        }
    }
}

/// The volume after a block has been hung in at the end of a path below a
/// block of pointers. What is missing on the path is taken.
pub open spec fn linked(geo: Geometry, v: Volume, table: u32, path: Seq<int>, block: u32) -> (
    Result<(), ()>,
    Volume,
)
    decreases path.len(),
{
    if path.len() == 0 || table >= v.blocks.len() {
        (Err(()), v)
    } else {
        let data = v.blocks[table as int];
        if path.len() == 1 {
            (Ok(()), v.with_block(table as int, patched(data, 4 * path[0], bytes32(block))))
        } else if pointer(data, path[0]) != 0 {
            linked(geo, v, pointer(data, path[0]), path.skip(1), block)
        } else {
            match taken(geo, v, Bitmap::Blocks, false) {
                (None, after) => (Err(()), after),
                (Some(child), after) => {
                    let hung = after.with_block(
                        table as int,
                        patched(data, 4 * path[0], bytes32(child)),
                    );
                    if child >= hung.blocks.len() {
                        (Err(()), hung)
                    } else {
                        linked(
                            geo,
                            hung.with_block(child as int, zeroes(geo.bs() as nat)),
                            child,
                            path.skip(1),
                            block,
                        )
                    }
                },
            }
        }
    }
}

/// The volume and the inode after a disk block has been made block `idx` of a
/// directory.
pub open spec fn block_mapped(geo: Geometry, v: Volume, inode: DiskInode, idx: int, block: u32) -> (
    Result<(), ()>,
    Volume,
    DiskInode,
) {
    match path_of(geo, idx) {
        None => (Err(()), v, inode),
        Some((depth, path)) => if depth == 0 {
            (Ok(()), v, with_direct(inode, idx, block))
        } else if root_of(inode, depth) != 0 {
            let (r, after) = linked(geo, v, root_of(inode, depth), path, block);
            (r, after, inode)
        } else {
            match taken(geo, v, Bitmap::Blocks, false) {
                (None, after) => (Err(()), after, inode),
                (Some(root), after) => {
                    let rooted = with_root(inode, depth, root);
                    if root >= after.blocks.len() {
                        (Err(()), after, rooted)
                    } else {
                        let (r, end) = linked(
                            geo,
                            after.with_block(root as int, zeroes(geo.bs() as nat)),
                            root,
                            path,
                            block,
                        );
                        (r, end, rooted)
                    }
                },
            }
        },
    }
}

/// An inode after its file has grown by a block.
pub open spec fn extended(geo: Geometry, inode: DiskInode) -> DiskInode {
    counted(
        DiskInode { size: (inode.size + geo.block_size) as u32, ..inode },
        geo.sectors_per_block() as int,
    )
}

/// The volume and the directory's inode after a record has been put into a
/// block of its own.
pub open spec fn entry_appended(
    geo: Geometry,
    v: Volume,
    num: u32,
    inode: DiskInode,
    name: Seq<u8>,
    child: u32,
    file_type: u8,
) -> (Result<(), ()>, Volume, DiskInode) {
    match taken(geo, v, Bitmap::Blocks, false) {
        (None, after) => (Err(()), after, inode),
        (Some(block), after) => if block >= after.blocks.len() {
            (Err(()), after, inode)
        } else {
            let filled = after.with_block(
                block as int,
                block_of_entry(geo, name, child, file_type),
            );
            match block_mapped(geo, filled, inode, inode.size as int / geo.bs(), block) {
                (Err(_), end, kept) => (Err(()), end, kept),
                (Ok(_), end, kept) => if kept.size + geo.bs() > u32::MAX {
                    (Err(()), end, kept)
                } else {
                    match with_stored(geo, end, num, extended(geo, kept)) {
                        None => (Err(()), end, extended(geo, kept)),
                        Some(saved) => (Ok(()), saved, extended(geo, kept)),
                    }
                },
            }
        },
    }
}

/// The volume and the directory's inode after a record has been added.
pub open spec fn entry_added(
    geo: Geometry,
    v: Volume,
    num: u32,
    inode: DiskInode,
    name: Seq<u8>,
    child: u32,
    file_type: u8,
) -> (Result<(), ()>, Volume, DiskInode) {
    if name.len() > 254 || name.len() == 0 {
        (Err(()), v, inode)
    } else {
        match place_for(
            geo,
            v,
            inode,
            record_size(name.len() as int),
            0,
            inode.size as int / geo.bs(),
        ) {
            Err(_) => (Err(()), v, inode),
            Ok(Some((block, at))) => (
                Ok(()),
                v.with_block(
                    block as int,
                    with_entry(v.blocks[block as int], at, name, child, file_type),
                ),
                inode,
            ),
            Ok(None) => entry_appended(geo, v, num, inode, name, child, file_type),
        }
    }
}

/// Block `idx` of a directory, which is `block` on disk, has got a record in
/// the room that the record at `at` did not need.
pub open spec fn entry_put(
    geo: Geometry,
    v: Volume,
    after: Volume,
    inode: DiskInode,
    name: Seq<u8>,
    child: u32,
    file_type: u8,
    idx: int,
    block: u32,
    at: int,
) -> bool {
    &&& 0 <= idx < inode.size as int / geo.bs()
    &&& block != 0
    &&& resolved(geo, v, inode, idx) == Some(block)
    &&& content(geo, v, block as int) matches Some(data) && {
        &&& room(data, 0, record_size(name.len() as int)) == Some(at)
        &&& after == v.with_block(block as int, with_entry(data, at, name, child, file_type))
    }
}

/// A record has been added to a directory, in one of its blocks or in a new
/// one. On a device that fails, a block that could not be found is passed over.
pub open spec fn was_listed(
    geo: Geometry,
    v: Volume,
    after: Volume,
    num: u32,
    inode: DiskInode,
    inode_after: DiskInode,
    name: Seq<u8>,
    child: u32,
    file_type: u8,
) -> bool {
    &&& 0 < name.len() <= 254
    &&& {
        ||| inode_after == inode && exists|idx: int, block: u32, at: int| #[trigger]
            entry_put(geo, v, after, inode, name, child, file_type, idx, block, at)
        ||| entry_appended(geo, v, num, inode, name, child, file_type) == (
            Ok::<(), ()>(()),
            after,
            inode_after,
        )
    }
}

proof fn lemma_room(data: Seq<u8>, at: int, needed: int)
    requires
        0 <= at,
    ensures
        room(data, at, needed) matches Some(end) ==> {
            let h = header_of(data, end);
            &&& at <= end
            &&& has_record(data, end)
            &&& end + h.record_length == data.len()
            &&& h.record_length >= record_size(h.name_length as int) + needed
        },
    decreases left(data, at),
{
    if has_record(data, at) {
        lemma_room(data, at + header_of(data, at).record_length, needed);
    }
}

/// The first record from `at` on that is in use under a name, and the record
/// before it.
pub open spec fn find_with_previous(
    data: Seq<u8>,
    at: int,
    previous: Option<int>,
    name: Seq<u8>,
) -> Option<(int, Option<int>)>
    decreases left(data, at),
{
    if !has_record(data, at) {
        None
    } else if names(data, at, name) {
        Some((at, previous))
    } else {
        find_with_previous(data, at + header_of(data, at).record_length, Some(at), name)
    }
}

/// A directory block without the record at `at`: the record before it takes
/// its room, or it is marked as not in use where it is the first.
pub open spec fn without_entry(data: Seq<u8>, at: int, previous: Option<int>) -> Seq<u8> {
    let h = header_of(data, at);
    match previous {
        Some(before) => {
            let p = header_of(data, before);
            with_header(
                data,
                before,
                DiskDirHeader {
                    record_length: ((p.record_length + h.record_length) % 0x1_0000) as u16,
                    ..p
                },
            )
        },
        None => with_header(data, at, DiskDirHeader { inode: 0, ..h }),
    }
}

/// Takes the record under a name out of a directory block.
fn remove_entry(data: &mut Vec<u8>, name: &Vec<u8>) -> (r: bool)
    requires
        old(data)@.len() <= 4096,
    ensures
        final(data)@.len() == old(data)@.len(),
        match find_with_previous(old(data)@, 0, None, name@) {
            Some((at, previous)) => r && final(data)@ == without_entry(old(data)@, at, previous),
            None => !r && final(data)@ == old(data)@,
        },
{
    let mut offset: usize = 0;
    let mut previous: Option<usize> = None;
    while offset + 8 <= data.len()
        invariant_except_break
            offset <= 0x2_0000,
            data@ == old(data)@,
            data@.len() <= 4096,
            previous matches Some(p) ==> p + 8 <= data@.len(),
            find_with_previous(data@, 0, None, name@) == find_with_previous(
                data@,
                offset as int,
                as_place(previous),
                name@,
            ),
        ensures
            data@ == old(data)@,
            find_with_previous(data@, 0, None, name@) is None,
        decreases left(data@, offset as int),
    {
        let header = DiskDirHeader::read(data, offset);
        let rec_len = header.record_length as usize;
        let name_len = header.name_length as usize;
        if rec_len == 0 {
            break;
        }
        if header.inode != 0 && name_len > 0 && offset + 8 + name_len <= data.len() && name_len
            == name.len() && matches_at(data, offset + 8, name) {
            match previous {
                Some(before) => {
                    let mut changed = DiskDirHeader::read(data, before);
                    let sum = (changed.record_length as u32 + header.record_length as u32)
                        % 0x1_0000;
                    changed.record_length = sum as u16;
                    changed.write(data, before);
                },
                None => {
                    let mut changed = header;
                    changed.inode = 0;
                    changed.write(data, offset);
                },
            }
            return true;
        }
        proof {
            if names(data@, offset as int, name@) {
                assert(data@.subrange(offset + 8, offset + 8 + name_len).len() == name_len);
            }
        }
        previous = Some(offset);
        offset += rec_len;
    }
    false
}

spec fn as_place(at: Option<usize>) -> Option<int> {
    match at {
        Some(at) => Some(at as int),
        None => None,
    }
}

/// The volume after the record under a name has been taken out of the blocks
/// of a directory from block `idx` on; nothing when there is none.
pub open spec fn entry_removed(
    geo: Geometry,
    v: Volume,
    inode: DiskInode,
    name: Seq<u8>,
    idx: int,
) -> Option<Volume>
    decreases inode.size as int / geo.bs() - idx,
{
    if idx >= inode.size as int / geo.bs() {
        None
    } else {
        match resolved(geo, v, inode, idx) {
            Some(block) => if block == 0 {
                entry_removed(geo, v, inode, name, idx + 1)
            } else {
                match content(geo, v, block as int) {
                    None => None,
                    Some(data) => match find_with_previous(data, 0, None, name) {
                        Some((at, previous)) => Some(
                            v.with_block(block as int, without_entry(data, at, previous)),
                        ),
                        None => entry_removed(geo, v, inode, name, idx + 1),
                    },
                }
            },
            None => entry_removed(geo, v, inode, name, idx + 1),
        }
    }
}

pub open spec fn unlisted(geo: Geometry, v: Volume, inode: DiskInode, name: Seq<u8>) -> Option<
    Volume,
> {
    if name.len() > 254 || name.len() == 0 {
        None
    } else {
        entry_removed(geo, v, inode, name, 0)
    }
}

/// Block `idx` of a directory, which is `block` on disk, has lost the record
/// under a name.
pub open spec fn entry_cut(
    geo: Geometry,
    v: Volume,
    after: Volume,
    inode: DiskInode,
    name: Seq<u8>,
    idx: int,
    block: u32,
) -> bool {
    &&& 0 <= idx < inode.size as int / geo.bs()
    &&& block != 0
    &&& resolved(geo, v, inode, idx) == Some(block)
    &&& content(geo, v, block as int) matches Some(data) && find_with_previous(
        data,
        0,
        None,
        name,
    ) matches Some((at, previous)) && after == v.with_block(
        block as int,
        without_entry(data, at, previous),
    )
}

/// A directory has lost a record under a name. On a device that fails, a block
/// that could not be found is passed over.
pub open spec fn was_unlisted(
    geo: Geometry,
    v: Volume,
    after: Volume,
    inode: DiskInode,
    name: Seq<u8>,
) -> bool {
    &&& 0 < name.len() <= 254
    &&& exists|idx: int, block: u32| #[trigger] entry_cut(geo, v, after, inode, name, idx, block)
}

/// The inode under a name.
pub open spec fn child_of(geo: Geometry, v: Volume, inode: DiskInode, name: Seq<u8>) -> Result<
    (u32, DiskInode),
    InvocationError,
> {
    if name.len() > FILENAME_LEN_MAX {
        Err(InvocationError::NameTooLong)
    } else {
        match looked_up(geo, v, inode, name, 0) {
            Ok(Some(num)) => match stored_inode(geo, v, num) {
                Some(child) => Ok((num, child)),
                None => Err(InvocationError::PathNotFound),
            },
            _ => Err(InvocationError::PathNotFound),
        }
    }
}

/// The volume after the name of something has been removed, and the thing
/// itself if that was its last name.
pub open spec fn unlinked(geo: Geometry, v: Volume, inode: DiskInode, name: Seq<u8>) -> (
    Result<(), InvocationError>,
    Volume,
) {
    match name_fault(name) {
        Some(fault) => (Err(fault), v),
        None => match looked_up(geo, v, inode, name, 0) {
            Ok(Some(num)) => match stored_inode(geo, v, num) {
                None => (Err(InvocationError::UnsupportedOperation), v),
                Some(child) => match unlisted(geo, v, inode, name) {
                    None => (Err(InvocationError::UnsupportedOperation), v),
                    Some(after) => dropped(geo, after, num, one_link_less(child)),
                },
            },
            _ => (Err(InvocationError::PathNotFound), v),
        },
    }
}

/// The volume after an inode has lost a name: it is stored, or given back with
/// all its blocks if it has none left.
pub open spec fn dropped(geo: Geometry, v: Volume, num: u32, child: DiskInode) -> (
    Result<(), InvocationError>,
    Volume,
) {
    if child.links_count > 0 {
        match with_stored(geo, v, num, child) {
            None => (Err(InvocationError::UnsupportedOperation), v),
            Some(after) => (Ok(()), after),
        }
    } else {
        match file_released(geo, v, child) {
            (Err(_), after) => (Err(InvocationError::UnsupportedOperation), after),
            (Ok(_), after) => match inode_released(geo, after, num, is_directory(child)) {
                None => (Err(InvocationError::UnsupportedOperation), after),
                Some(end) => (Ok(()), end),
            },
        }
    }
}

/// An inode with one name less.
pub open spec fn one_link_less(child: DiskInode) -> DiskInode {
    DiskInode {
        links_count: if child.links_count > 0 {
            (child.links_count - 1) as u16
        } else {
            0
        },
        ..child
    }
}

/// The inode has been stored, or given back where it has no name left. On a
/// device that fails, not all of its blocks need have been given back.
pub open spec fn was_dropped(
    geo: Geometry,
    v: Volume,
    between: Volume,
    after: Volume,
    num: u32,
    child: DiskInode,
) -> bool {
    if child.links_count > 0 {
        between == v && with_stored(geo, v, num, child) == Some(after)
    } else {
        inode_released(geo, between, num, is_directory(child)) == Some(after)
    }
}

/// A name has been removed, and what it named if that has no other.
pub open spec fn was_unlinked(
    geo: Geometry,
    v: Volume,
    after: Volume,
    inode: DiskInode,
    name: Seq<u8>,
) -> bool {
    &&& name_fault(name) is None
    &&& looked_up(geo, v, inode, name, 0) matches Ok(Some(num)) && stored_inode(
        geo,
        v,
        num,
    ) matches Some(child) && exists|cut: Volume, between: Volume| #[trigger]
        was_dropped(geo, cut, between, after, num, one_link_less(child)) && was_unlisted(
            geo,
            v,
            cut,
            inode,
            name,
        )
}

/// The inode of a new regular file.
pub open spec fn file_inode(uid: u16, now: u32) -> DiskInode {
    DiskInode {
        mode: 0x81A4,
        uid,
        size: 0,
        atime: now,
        ctime: now,
        mtime: now,
        dtime: 0,
        gid: 0,
        links_count: 1,
        blocks: 0,
        flags: 0,
        osd1: 0,
        data: DiskBlockPointers {
            direct: [0, 0, 0, 0, 0, 0, 0, 0, 0, 0, 0, 0],
            single_indirect: 0,
            double_indirect: 0,
            triple_indirect: 0,
        },
        generation: 0,
        file_acl: 0,
        dir_acl: 0,
        faddr: 0,
        osd2: [0, 0, 0],
    }
}

/// The inode of a new directory with one block.
pub open spec fn dir_inode(geo: Geometry, uid: u16, now: u32, block: u32) -> DiskInode {
    DiskInode {
        mode: 0x41ED,
        size: geo.block_size,
        links_count: 2,
        blocks: geo.sectors_per_block(),
        data: DiskBlockPointers {
            direct: [block, 0, 0, 0, 0, 0, 0, 0, 0, 0, 0, 0],
            single_indirect: 0,
            double_indirect: 0,
            triple_indirect: 0,
        },
        ..file_inode(uid, now)
    }
}

/// The block of a new directory: one record for itself and one for its parent.
pub open spec fn dir_block(geo: Geometry, own: u32, parent: u32) -> Seq<u8> {
    let first = DiskDirHeader { inode: own, record_length: 12, name_length: 1, file_type: 2 };
    let second = DiskDirHeader {
        inode: parent,
        record_length: (geo.block_size - 12) as u16,
        name_length: 2,
        file_type: 2,
    };
    let named = patched(with_header(zeroes(geo.bs() as nat), 0, first), 8, seq![0x2Eu8]);
    patched(with_header(named, 12, second), 20, seq![0x2Eu8, 0x2E])
}

/// What stands against making something new under a name.
pub open spec fn create_fault(
    geo: Geometry,
    v: Volume,
    inode: DiskInode,
    name: Seq<u8>,
    owner: u32,
) -> Option<InvocationError> {
    match name_fault(name) {
        Some(fault) => Some(fault),
        None => if owner > 0xFFFF {
            Some(InvocationError::InvalidArgument)
        } else {
            match looked_up(geo, v, inode, name, 0) {
                Err(_) => Some(InvocationError::UnsupportedOperation),
                Ok(Some(_)) => Some(InvocationError::InvalidArgument),
                Ok(None) => None,
            }
        },
    }
}

/// The volume and the directory's inode after a file has been made in it.
pub open spec fn file_created(
    geo: Geometry,
    v: Volume,
    num: u32,
    inode: DiskInode,
    name: Seq<u8>,
    owner: u32,
    now: u32,
) -> (Result<(u32, DiskInode), InvocationError>, Volume, DiskInode) {
    match create_fault(geo, v, inode, name, owner) {
        Some(fault) => (Err(fault), v, inode),
        None => match taken(geo, v, Bitmap::Inodes, false) {
            (None, v) => (Err(InvocationError::OutOfMemory), v, inode),
            (Some(own), v) => {
                let child = file_inode(owner as u16, now);
                match with_stored(geo, v, own, child) {
                    None => (Err(InvocationError::UnsupportedOperation), v, inode),
                    Some(v) => match entry_added(geo, v, num, inode, name, own, 1) {
                        (Err(_), v, inode) => (
                            Err(InvocationError::UnsupportedOperation),
                            v,
                            inode,
                        ),
                        (Ok(_), v, inode) => (Ok((own, child)), v, inode),
                    },
                }
            },
        },
    }
}

/// The volume and the directory's inode after a directory has been made in it.
pub open spec fn dir_created(
    geo: Geometry,
    v: Volume,
    num: u32,
    inode: DiskInode,
    name: Seq<u8>,
    owner: u32,
    now: u32,
) -> (Result<(u32, DiskInode), InvocationError>, Volume, DiskInode) {
    let unsupported = Err(InvocationError::UnsupportedOperation);
    match create_fault(geo, v, inode, name, owner) {
        Some(fault) => (Err(fault), v, inode),
        None => match taken(geo, v, Bitmap::Inodes, true) {
            (None, v) => (Err(InvocationError::OutOfMemory), v, inode),
            (Some(own), v) => match taken(geo, v, Bitmap::Blocks, false) {
                (None, v) => (Err(InvocationError::OutOfMemory), v, inode),
                (Some(block), v) => if block >= v.blocks.len() {
                    (unsupported, v, inode)
                } else {
                    let v = v.with_block(block as int, dir_block(geo, own, num));
                    let child = dir_inode(geo, owner as u16, now, block);
                    match with_stored(geo, v, own, child) {
                        None => (unsupported, v, inode),
                        Some(v) => match entry_added(geo, v, num, inode, name, own, 2) {
                            (Err(_), v, inode) => (unsupported, v, inode),
                            (Ok(_), v, inode) => {
                                let parent = one_more_link(inode);
                                match with_stored(geo, v, num, parent) {
                                    None => (unsupported, v, inode),
                                    Some(v) => (Ok((own, child)), v, parent),
                                }
                            },
                        },
                    }
                },
            },
        },
    }
}

/// What stands against making something new under a name, whatever the
/// directory holds.
pub open spec fn request_fault(name: Seq<u8>, owner: u32) -> Option<InvocationError> {
    match name_fault(name) {
        Some(fault) => Some(fault),
        None => if owner > 0xFFFF {
            Some(InvocationError::InvalidArgument)
        } else {
            None
        },
    }
}

/// A file has been made: it has an inode, and the directory has a record of it.
pub open spec fn was_file_created(
    geo: Geometry,
    v: Volume,
    after: Volume,
    num: u32,
    inode: DiskInode,
    inode_after: DiskInode,
    name: Seq<u8>,
    owner: u32,
    now: u32,
    made: (u32, DiskInode),
) -> bool {
    let (own, child) = made;
    let (got, counted) = taken(geo, v, Bitmap::Inodes, false);
    &&& create_fault(geo, v, inode, name, owner) is None
    &&& got == Some(own)
    &&& child == file_inode(owner as u16, now)
    &&& with_stored(geo, counted, own, child) matches Some(stored) && was_listed(
        geo,
        stored,
        after,
        num,
        inode,
        inode_after,
        name,
        own,
        1,
    )
}

/// A directory has been made: it has an inode and a block with two records,
/// and its parent has a record of it and one link more.
pub open spec fn was_dir_created(
    geo: Geometry,
    v: Volume,
    after: Volume,
    num: u32,
    inode: DiskInode,
    inode_after: DiskInode,
    name: Seq<u8>,
    owner: u32,
    now: u32,
    made: (u32, DiskInode),
) -> bool {
    let (own, child) = made;
    let (got, counted) = taken(geo, v, Bitmap::Inodes, true);
    let (block, held) = taken(geo, counted, Bitmap::Blocks, false);
    &&& create_fault(geo, v, inode, name, owner) is None
    &&& got == Some(own)
    &&& block is Some && block->0 < held.blocks.len()
    &&& child == dir_inode(geo, owner as u16, now, block->0)
    &&& with_stored(
        geo,
        held.with_block(block->0 as int, dir_block(geo, own, num)),
        own,
        child,
    ) matches Some(stored) && exists|listed: Volume, between: DiskInode| #[trigger]
        was_listed(geo, stored, listed, num, inode, between, name, own, 2) && with_stored(
            geo,
            listed,
            num,
            one_more_link(between),
        ) == Some(after) && inode_after == one_more_link(between)
}

pub open spec fn one_more_link(inode: DiskInode) -> DiskInode {
    DiskInode {
        links_count: if inode.links_count < 0xFFFF {
            (inode.links_count + 1) as u16
        } else {
            0xFFFF
        },
        ..inode
    }
}

/// What can be asked of a directory.
pub enum DirectoryRequest {
    Lookup(Vec<u8>),
    Stat,
    /// To send the names to an object.
    List {
        sink: HandleID,
    },
    Link,
    Unlink(Vec<u8>),
    CreateFile(Vec<u8>),
    CreateDir(Vec<u8>),
    Other,
}

/// What a directory answers.
pub enum DirectoryReply {
    /// A handle to a file or a directory, with its number and its inode.
    Object(HandleID, u32, DiskInode),
    Stat(FileStat),
    /// What is sent, and the object it is sent to.
    Listing(Vec<ListPacket>, u64),
    Done,
}

/// A process that asks for an object gets a handle to it, where the object was
/// found and the process may have it. The object has the number of its inode.
pub open spec fn handed_out(
    before: Option<CallingProcess>,
    after: Option<CallingProcess>,
    object: Result<(u32, DiskInode), InvocationError>,
    rights: Result<AccessRights, InvocationError>,
    r: Result<DirectoryReply, InvocationError>,
) -> bool {
    match (object, rights, before) {
        (Err(fault), _, _) => r == Err::<DirectoryReply, InvocationError>(fault) && after == before,
        (Ok(_), Err(fault), _) => r == Err::<DirectoryReply, InvocationError>(fault) && after
            == before,
        (Ok(_), Ok(_), None) => r == Err::<DirectoryReply, InvocationError>(
            InvocationError::InvalidHandle,
        ) && after == before,
        (Ok((num, inode)), Ok(rights), Some(process)) => {
            &&& r matches Ok(DirectoryReply::Object(handle, n, node)) && handle.0
                == process.handles@.len() && n == num && node == inode
            &&& after matches Some(later) && later.credentials == process.credentials
                && later.handles@ == process.handles@.push(
                Some(HandleEntry { object: num as u64, rights }),
            )
        },
    }
}

/// The answer is the listing of the directory, for the object that the process
/// has named.
pub open spec fn lists(
    r: Result<DirectoryReply, InvocationError>,
    names: Option<Seq<(Seq<u8>, u8)>>,
    caller: Option<CallingProcess>,
    sink: HandleID,
) -> bool {
    match (names, caller) {
        (None, _) => r == Err::<DirectoryReply, InvocationError>(InvocationError::InvalidPointer),
        (Some(_), None) => r == Err::<DirectoryReply, InvocationError>(
            InvocationError::InvalidHandle,
        ),
        (Some(names), Some(process)) => match crate::object::handle::resolved(
            process.handles@,
            sink,
            AccessRights(AccessRights::WRITE),
        ) {
            Err(fault) => r == Err::<DirectoryReply, InvocationError>(fault),
            Ok(object) => r matches Ok(DirectoryReply::Listing(packets, to)) && {
                &&& to == object
                &&& packets@.len() == names.len()
                &&& forall|i: int|
                    0 <= i < packets@.len() ==> is_packet(#[trigger] packets@[i], names, i)
            },
        },
    }
}

impl Ext2Directory {
    /// Hangs a block in at the end of a path below a block of pointers, taking
    /// what is missing.
    #[verifier::rlimit(60)]
    fn link<D: BlockDevice>(
        fs: &mut Ext2FileSystem<D>,
        table: u32,
        indices: &[usize; 3],
        level: usize,
        depth: usize,
        block: u32,
        path: Ghost<Seq<int>>,
    ) -> (r: Result<(), ()>)
        requires
            old(fs).wf(),
            level < depth <= 3,
            path_fits(old(fs).geo(), path@, *indices),
            path@.len() == depth,
        ensures
            final(fs).wf(),
            final(fs).geo() == old(fs).geo(),
            old(fs).reliable() ==> final(fs).reliable(),
            r is Ok || old(fs).reliable() ==> linked(
                old(fs).geo(),
                old(fs).volume(),
                table,
                path@.skip(level as int),
                block,
            ) == (r, final(fs).volume()),
        decreases depth - level,
    {
        let ghost rest = path@.skip(level as int);
        proof {
            assert(rest[0] == path@[level as int]);
            assert(rest.skip(1) =~= path@.skip(level + 1));
        }
        let mut data = match fs.read_raw(table) {
            Ok(data) => data,
            Err(_) => {
                return Err(());
            },
        };
        let at = 4 * indices[level];
        if level + 1 == depth {
            put32(&mut data, at, block);
            if fs.put_block(table, &data).is_err() {
                return Err(());
            }
            return Ok(());
        }
        let child = get32(&data, at);
        if child != 0 {
            return Self::link(fs, child, indices, level + 1, depth, block, path);
        }
        let child = match fs.allocate_block() {
            Ok(child) => child,
            Err(_) => {
                return Err(());
            },
        };
        put32(&mut data, at, child);
        if fs.put_block(table, &data).is_err() {
            return Err(());
        }
        let zero = zero_bytes(fs.block_size as usize);
        if fs.put_block(child, &zero).is_err() {
            return Err(());
        }
        Self::link(fs, child, indices, level + 1, depth, block, path)
    }

    /// Makes a disk block the block `idx` of the directory.
    fn map_block<D: BlockDevice>(&mut self, fs: &mut Ext2FileSystem<D>, idx: u64, block: u32) -> (r:
        Result<(), ()>)
        requires
            old(fs).wf(),
        ensures
            final(fs).wf(),
            final(fs).geo() == old(fs).geo(),
            final(self).inode_num == old(self).inode_num,
            old(fs).reliable() ==> final(fs).reliable(),
            r is Ok || old(fs).reliable() ==> block_mapped(
                old(fs).geo(),
                old(fs).volume(),
                old(self).inode_data,
                idx as int,
                block,
            ) == (r, final(fs).volume(), final(self).inode_data),
    {
        let (depth, indices) = match fs.indirect_path(idx) {
            Ok(path) => path,
            Err(_) => {
                return Err(());
            },
        };
        let ghost path = (path_of(fs.geo(), idx as int)->0).1;
        assert(path.skip(0) =~= path);
        if depth == 0 {
            let ghost before = self.inode_data;
            self.inode_data.data.direct[idx as usize] = block;
            assert(self.inode_data.data.direct =~= with_direct(
                before,
                idx as int,
                block,
            ).data.direct);
            return Ok(());
        }
        let mut root = Ext2FileSystem::<D>::get_indirect_root(&self.inode_data, depth);
        if root == 0 {
            root = match fs.allocate_block() {
                Ok(root) => root,
                Err(_) => {
                    return Err(());
                },
            };
            Ext2FileSystem::<D>::set_indirect_root(&mut self.inode_data, depth, root);
            let zero = zero_bytes(fs.block_size as usize);
            if fs.put_block(root, &zero).is_err() {
                return Err(());
            }
        }
        Self::link(fs, root, &indices, 0, depth, block, Ghost(path))
    }

    /// Adds a record. It goes into the room that the last record of a block
    /// does not need, or into a new block.
    #[verifier::rlimit(60)]
    pub fn add_dir_entry<D: BlockDevice>(
        &mut self,
        fs: &mut Ext2FileSystem<D>,
        name: &Vec<u8>,
        child_inode_num: u32,
        file_type: u8,
    ) -> (r: Result<(), ()>)
        requires
            old(fs).wf(),
        ensures
            final(fs).wf(),
            final(fs).geo() == old(fs).geo(),
            final(self).inode_num == old(self).inode_num,
            old(fs).reliable() ==> final(fs).reliable(),
            old(fs).reliable() ==> entry_added(
                old(fs).geo(),
                old(fs).volume(),
                old(self).inode_num,
                old(self).inode_data,
                name@,
                child_inode_num,
                file_type,
            ) == (r, final(fs).volume(), final(self).inode_data),
            r is Ok ==> was_listed(
                old(fs).geo(),
                old(fs).volume(),
                final(fs).volume(),
                old(self).inode_num,
                old(self).inode_data,
                final(self).inode_data,
                name@,
                child_inode_num,
                file_type,
            ),
            name@.len() > 254 || name@.len() == 0 ==> {
                &&& r is Err
                &&& *final(fs) == *old(fs)
                &&& *final(self) == *old(self)
            },
    {
        if name.len() > 254 || name.len() == 0 {
            return Err(());
        }
        let needed_len = record_bytes(name.len());
        let ghost geo = fs.geo();
        let ghost v = fs.volume();
        let ghost inode = self.inode_data;
        let total_blocks = (self.inode_data.size / fs.block_size) as u64;
        let mut block_idx: u64 = 0;
        while block_idx < total_blocks
            invariant
                block_idx <= total_blocks,
                total_blocks == inode.size as int / geo.bs(),
                0 < name@.len() <= 254,
                needed_len == record_size(name@.len() as int),
                *fs == *old(fs),
                *self == *old(self),
                fs.wf(),
                geo == fs.geo(),
                v == fs.volume(),
                inode == self.inode_data,
                fs.reliable() ==> place_for(
                    geo,
                    v,
                    inode,
                    needed_len as int,
                    0,
                    total_blocks as int,
                ) == place_for(
                    geo,
                    v,
                    inode,
                    needed_len as int,
                    block_idx as int,
                    total_blocks as int,
                ),
            decreases total_blocks - block_idx,
        {
            let block_id = match fs.resolve_file_block(&self.inode_data, block_idx) {
                Ok(block_id) => block_id,
                Err(_) => 0,
            };
            if block_id != 0 {
                let mut data = match fs.read_block(block_id) {
                    Ok(data) => data,
                    Err(_) => {
                        return Err(());
                    },
                };
                if let Some(at) = find_room(&data, needed_len) {
                    proof {
                        lemma_room(data@, 0, needed_len as int);
                    }
                    add_entry(&mut data, at, name, child_inode_num, file_type);
                    if fs.put_block(block_id, &data).is_err() {
                        return Err(());
                    }
                    assert(entry_put(
                        geo,
                        v,
                        fs.volume(),
                        inode,
                        name@,
                        child_inode_num,
                        file_type,
                        block_idx as int,
                        block_id,
                        at as int,
                    ));
                    return Ok(());
                }
            }
            block_idx += 1;
        }
        let new_block_id = match fs.allocate_block() {
            Ok(id) => id,
            Err(_) => {
                return Err(());
            },
        };
        let mut data = zero_bytes(fs.block_size as usize);
        let entry = DiskDirHeader {
            inode: child_inode_num,
            record_length: fs.block_size as u16,
            name_length: name.len() as u8,
            file_type,
        };
        entry.write(&mut data, 0);
        put_bytes(&mut data, 8, name);
        if fs.put_block(new_block_id, &data).is_err() {
            return Err(());
        }
        if self.map_block(fs, total_blocks, new_block_id).is_err() {
            return Err(());
        }
        match self.inode_data.size.checked_add(fs.block_size) {
            Some(size) => {
                self.inode_data.size = size;
            },
            None => {
                return Err(());
            },
        }
        fs.add_inode_block(&mut self.inode_data);
        if fs.write_inode(self.inode_num, &self.inode_data).is_err() {
            return Err(());
        }
        Ok(())
    }

    /// Removes the record under a name.
    pub fn remove_dir_entry<D: BlockDevice>(
        &self,
        fs: &mut Ext2FileSystem<D>,
        name: &Vec<u8>,
    ) -> (r: Result<(), ()>)
        requires
            old(fs).wf(),
        ensures
            final(fs).wf(),
            final(fs).geo() == old(fs).geo(),
            old(fs).reliable() ==> final(fs).reliable(),
            old(fs).reliable() ==> match unlisted(
                old(fs).geo(),
                old(fs).volume(),
                self.inode_data,
                name@,
            ) {
                Some(after) => r is Ok && final(fs).volume() == after,
                None => r is Err && final(fs).volume() == old(fs).volume(),
            },
            r is Ok ==> was_unlisted(
                old(fs).geo(),
                old(fs).volume(),
                final(fs).volume(),
                self.inode_data,
                name@,
            ),
            name@.len() == 0 || name@.len() > 254 ==> r is Err && *final(fs) == *old(fs),
    {
        if name.len() == 0 || name.len() > 254 {
            return Err(());
        }
        let ghost geo = fs.geo();
        let ghost v = fs.volume();
        let inode = self.inode_data;
        let total_blocks = (inode.size / fs.block_size) as u64;
        let mut block_idx: u64 = 0;
        while block_idx < total_blocks
            invariant
                block_idx <= total_blocks,
                total_blocks == inode.size as int / geo.bs(),
                *fs == *old(fs),
                fs.wf(),
                geo == fs.geo(),
                v == fs.volume(),
                inode == self.inode_data,
                0 < name@.len() <= 254,
                fs.reliable() ==> entry_removed(geo, v, inode, name@, 0) == entry_removed(
                    geo,
                    v,
                    inode,
                    name@,
                    block_idx as int,
                ),
            decreases total_blocks - block_idx,
        {
            let block_id = match fs.resolve_file_block(&inode, block_idx) {
                Ok(block_id) => block_id,
                Err(_) => 0,
            };
            if block_id != 0 {
                let mut data = match fs.read_block(block_id) {
                    Ok(data) => data,
                    Err(_) => {
                        return Err(());
                    },
                };
                let ghost held = data@;
                if remove_entry(&mut data, name) {
                    let r = fs.put_block(block_id, &data);
                    proof {
                        if r is Ok {
                            assert(content(geo, v, block_id as int) == Some(held));
                            assert(entry_cut(
                                geo,
                                v,
                                fs.volume(),
                                inode,
                                name@,
                                block_idx as int,
                                block_id,
                            ));
                        }
                    }
                    return r;
                }
            }
            block_idx += 1;
        }
        Err(())
    }

    /// The inode under a name.
    pub fn lookup_child<D: BlockDevice>(&self, fs: &Ext2FileSystem<D>, name: &Vec<u8>) -> (r: Result<
        (u32, DiskInode),
        InvocationError,
    >)
        requires
            fs.wf(),
        ensures
            r is Ok || fs.reliable() || name@.len() > FILENAME_LEN_MAX ==> r == child_of(
                fs.geo(),
                fs.volume(),
                self.inode_data,
                name@,
            ),
    {
        if name.len() > FILENAME_LEN_MAX {
            return Err(InvocationError::NameTooLong);
        }
        let num = match fs.lookup_in_dir(&self.inode_data, name) {
            Ok(Some(num)) => num,
            _ => {
                return Err(InvocationError::PathNotFound);
            },
        };
        match fs.read_inode(num) {
            Ok(child) => Ok((num, child)),
            Err(_) => Err(InvocationError::PathNotFound),
        }
    }

    /// Removes a name, and what it names if that has no other.
    pub fn unlink_child<D: BlockDevice>(&self, fs: &mut Ext2FileSystem<D>, name: &Vec<u8>) -> (r:
        Result<(), InvocationError>)
        requires
            old(fs).wf(),
        ensures
            final(fs).wf(),
            final(fs).geo() == old(fs).geo(),
            old(fs).reliable() ==> final(fs).reliable(),
            old(fs).reliable() ==> unlinked(
                old(fs).geo(),
                old(fs).volume(),
                self.inode_data,
                name@,
            ) == (r, final(fs).volume()),
            name_fault(name@) matches Some(fault) ==> r == Err::<(), InvocationError>(fault)
                && *final(fs) == *old(fs),
            r is Ok ==> was_unlinked(
                old(fs).geo(),
                old(fs).volume(),
                final(fs).volume(),
                self.inode_data,
                name@,
            ),
            r == Err::<(), InvocationError>(InvocationError::PathNotFound) ==> *final(fs)
                == *old(fs),
    {
        let ghost geo = fs.geo();
        if let Err(fault) = validate_child_name(name) {
            return Err(fault);
        }
        let num = match fs.lookup_in_dir(&self.inode_data, name) {
            Ok(Some(num)) => num,
            _ => {
                return Err(InvocationError::PathNotFound);
            },
        };
        let mut child = match fs.read_inode(num) {
            Ok(child) => child,
            Err(_) => {
                return Err(InvocationError::UnsupportedOperation);
            },
        };
        let is_dir = child.mode / 0x1000 == 4;
        if self.remove_dir_entry(fs, name).is_err() {
            return Err(InvocationError::UnsupportedOperation);
        }
        let ghost cut = fs.volume();
        let ghost named = child;
        if child.links_count > 0 {
            child.links_count = child.links_count - 1;
        }
        assert(child == one_link_less(named));
        let ghost mut between = cut;
        if child.links_count == 0 {
            if fs.free_file(&child).is_err() {
                return Err(InvocationError::UnsupportedOperation);
            }
            proof {
                between = fs.volume();
            }
            if fs.free_inode(num, is_dir).is_err() {
                return Err(InvocationError::UnsupportedOperation);
            }
        } else {
            if fs.write_inode(num, &child).is_err() {
                return Err(InvocationError::UnsupportedOperation);
            }
        }
        assert(was_dropped(geo, cut, between, fs.volume(), num, child));
        Ok(())
    }

    /// Tells what stands against making something new under a name.
    fn check_new<D: BlockDevice>(&self, fs: &Ext2FileSystem<D>, name: &Vec<u8>, owner: u32) -> (r:
        Result<(), InvocationError>)
        requires
            fs.wf(),
        ensures
            r is Ok || fs.reliable() ==> match create_fault(
                fs.geo(),
                fs.volume(),
                self.inode_data,
                name@,
                owner,
            ) {
                Some(fault) => r == Err::<(), InvocationError>(fault),
                None => r is Ok,
            },
            request_fault(name@, owner) matches Some(fault) ==> r == Err::<(), InvocationError>(
                fault,
            ),
    {
        if let Err(fault) = validate_child_name(name) {
            return Err(fault);
        }
        if owner > 0xFFFF {
            return Err(InvocationError::InvalidArgument);
        }
        match fs.lookup_in_dir(&self.inode_data, name) {
            Ok(None) => Ok(()),
            Ok(Some(_)) => Err(InvocationError::InvalidArgument),
            Err(_) => Err(InvocationError::UnsupportedOperation),
        }
    }

    /// Makes a regular file. `now` is the time in seconds.
    pub fn create_child_file<D: BlockDevice>(
        &mut self,
        fs: &mut Ext2FileSystem<D>,
        name: &Vec<u8>,
        owner: u32,
        now: u32,
    ) -> (r: Result<(u32, DiskInode), InvocationError>)
        requires
            old(fs).wf(),
        ensures
            final(fs).wf(),
            final(fs).geo() == old(fs).geo(),
            final(self).inode_num == old(self).inode_num,
            old(fs).reliable() ==> final(fs).reliable(),
            old(fs).reliable() ==> file_created(
                old(fs).geo(),
                old(fs).volume(),
                old(self).inode_num,
                old(self).inode_data,
                name@,
                owner,
                now,
            ) == (r, final(fs).volume(), final(self).inode_data),
            r matches Ok(made) ==> was_file_created(
                old(fs).geo(),
                old(fs).volume(),
                final(fs).volume(),
                old(self).inode_num,
                old(self).inode_data,
                final(self).inode_data,
                name@,
                owner,
                now,
                made,
            ),
            request_fault(name@, owner) matches Some(fault) ==> {
                &&& r == Err::<(u32, DiskInode), InvocationError>(fault)
                &&& *final(fs) == *old(fs)
                &&& *final(self) == *old(self)
            },
    {
        if let Err(fault) = self.check_new(fs, name, owner) {
            return Err(fault);
        }
        let own = match fs.allocate_inode(false) {
            Ok(own) => own,
            Err(_) => {
                return Err(InvocationError::OutOfMemory);
            },
        };
        let child = new_file_inode(owner as u16, now);
        if fs.write_inode(own, &child).is_err() {
            return Err(InvocationError::UnsupportedOperation);
        }
        if self.add_dir_entry(fs, name, own, 1).is_err() {
            return Err(InvocationError::UnsupportedOperation);
        }
        Ok((own, child))
    }

    /// Makes a directory. `now` is the time in seconds.
    pub fn create_child_dir<D: BlockDevice>(
        &mut self,
        fs: &mut Ext2FileSystem<D>,
        name: &Vec<u8>,
        owner: u32,
        now: u32,
    ) -> (r: Result<(u32, DiskInode), InvocationError>)
        requires
            old(fs).wf(),
        ensures
            final(fs).wf(),
            final(fs).geo() == old(fs).geo(),
            final(self).inode_num == old(self).inode_num,
            old(fs).reliable() ==> final(fs).reliable(),
            old(fs).reliable() ==> dir_created(
                old(fs).geo(),
                old(fs).volume(),
                old(self).inode_num,
                old(self).inode_data,
                name@,
                owner,
                now,
            ) == (r, final(fs).volume(), final(self).inode_data),
            r matches Ok(made) ==> was_dir_created(
                old(fs).geo(),
                old(fs).volume(),
                final(fs).volume(),
                old(self).inode_num,
                old(self).inode_data,
                final(self).inode_data,
                name@,
                owner,
                now,
                made,
            ),
            request_fault(name@, owner) matches Some(fault) ==> {
                &&& r == Err::<(u32, DiskInode), InvocationError>(fault)
                &&& *final(fs) == *old(fs)
                &&& *final(self) == *old(self)
            },
    {
        if let Err(fault) = self.check_new(fs, name, owner) {
            return Err(fault);
        }
        let own = match fs.allocate_inode(true) {
            Ok(own) => own,
            Err(_) => {
                return Err(InvocationError::OutOfMemory);
            },
        };
        let block = match fs.allocate_block() {
            Ok(block) => block,
            Err(_) => {
                return Err(InvocationError::OutOfMemory);
            },
        };
        let data = new_dir_block(fs.block_size, own, self.inode_num);
        if fs.put_block(block, &data).is_err() {
            return Err(InvocationError::UnsupportedOperation);
        }
        let mut child = new_file_inode(owner as u16, now);
        child.mode = 0x41ED;
        child.size = fs.block_size;
        child.links_count = 2;
        child.blocks = fs.sectors_per_block;
        child.data.direct[0] = block;
        assert(child.data.direct =~= dir_inode(fs.geo(), owner as u16, now, block).data.direct);
        if fs.write_inode(own, &child).is_err() {
            return Err(InvocationError::UnsupportedOperation);
        }
        if self.add_dir_entry(fs, name, own, 2).is_err() {
            return Err(InvocationError::UnsupportedOperation);
        }
        let mut parent = self.inode_data;
        parent.links_count = parent.links_count.saturating_add(1);
        if fs.write_inode(self.inode_num, &parent).is_err() {
            return Err(InvocationError::UnsupportedOperation);
        }
        self.inode_data = parent;
        Ok((own, child))
    }
}

impl Ext2Directory {
    pub fn stat<D: BlockDevice>(&self, fs: &Ext2FileSystem<D>) -> (r: FileStat)
        ensures
            r == stat_of(ObjectType::Directory, self.inode_num, self.inode_data, fs.block_size),
    {
        status(ObjectType::Directory, self.inode_num, &self.inode_data, fs.block_size)
    }

    /// The names in the directory.
    pub fn list<D: BlockDevice>(&self, fs: &Ext2FileSystem<D>) -> (r: Result<Vec<ListedName>, ()>)
        requires
            fs.wf(),
        ensures
            r is Ok || fs.reliable() ==> (match r {
                Ok(names) => Some(views(names@)),
                Err(_) => None,
            }) == names_of(fs.geo(), fs.volume(), self.inode_data, 0),
    {
        let mut names: Vec<ListedName> = Vec::new();
        let ghost geo = fs.geo();
        let ghost v = fs.volume();
        let ghost inode = self.inode_data;
        let mut idx: usize = 0;
        assert(views(names@) =~= Seq::empty());
        while idx < 12
            invariant
                idx <= 12,
                fs.wf(),
                geo == fs.geo(),
                v == fs.volume(),
                inode == self.inode_data,
                names_of(geo, v, inode, 0) == prefixed(
                    views(names@),
                    names_of(geo, v, inode, idx as int),
                ),
            decreases 12 - idx,
        {
            let block_id = self.inode_data.data.direct[idx];
            if block_id != 0 {
                let data = match fs.read_block(block_id) {
                    Ok(data) => data,
                    Err(_) => {
                        return Err(());
                    },
                };
                let ghost before = views(names@);
                list_block(&data, &mut names);
                proof {
                    let rest = names_of(geo, v, inode, idx + 1);
                    if rest is Some {
                        assert(before + (names_in(data@, 0) + rest->0) =~= views(names@)
                            + rest->0);
                    }
                }
            }
            idx += 1;
        }
        assert(views(names@) + Seq::<(Seq<u8>, u8)>::empty() =~= views(names@));
        Ok(names)
    }

    /// Answers a request. `caller` is the process that asks, where there is
    /// one, `allowed` what rights it may have to an object that it makes, and
    /// `now` the time in seconds.
    pub fn invoke<D: BlockDevice>(
        &mut self,
        fs: &mut Ext2FileSystem<D>,
        request: &DirectoryRequest,
        caller: &mut Option<CallingProcess>,
        allowed: Result<AccessRights, InvocationError>,
        now: u32,
    ) -> (r: Result<DirectoryReply, InvocationError>)
        requires
            old(fs).wf(),
        ensures
            final(fs).wf(),
            final(fs).geo() == old(fs).geo(),
            final(self).inode_num == old(self).inode_num,
            old(fs).reliable() ==> final(fs).reliable(),
            request is Lookup || request is Stat || request is List || request is Link
                || request is Other ==> *final(fs) == *old(fs) && *final(self) == *old(self),
            r is Err || !(request is Lookup || request is CreateFile || request is CreateDir)
                ==> *final(caller) == *old(caller),
            match *request {
                DirectoryRequest::Lookup(name) => old(fs).reliable() || r is Ok || name@.len()
                    > FILENAME_LEN_MAX ==> handed_out(
                    *old(caller),
                    *final(caller),
                    child_of(old(fs).geo(), old(fs).volume(), old(self).inode_data, name@),
                    Ok(AccessRights(0x3F)),
                    r,
                ),
                DirectoryRequest::Stat => r == Ok::<DirectoryReply, InvocationError>(
                    DirectoryReply::Stat(
                        stat_of(
                            ObjectType::Directory,
                            old(self).inode_num,
                            old(self).inode_data,
                            old(fs).block_size,
                        ),
                    ),
                ),
                DirectoryRequest::List { sink } => old(fs).reliable() || r is Ok ==> lists(
                    r,
                    names_of(old(fs).geo(), old(fs).volume(), old(self).inode_data, 0),
                    *old(caller),
                    sink,
                ),
                DirectoryRequest::Link | DirectoryRequest::Other => r == Err::<
                    DirectoryReply,
                    InvocationError,
                >(InvocationError::UnsupportedOperation),
                DirectoryRequest::Unlink(name) => {
                    &&& *final(self) == *old(self)
                    &&& old(fs).reliable() ==> {
                        let (done, after) = unlinked(
                            old(fs).geo(),
                            old(fs).volume(),
                            old(self).inode_data,
                            name@,
                        );
                        &&& r == (match done {
                            Ok(_) => Ok(DirectoryReply::Done),
                            Err(fault) => Err(fault),
                        })
                        &&& final(fs).volume() == after
                    }
                    &&& r is Ok ==> r->Ok_0 is Done && was_unlinked(
                        old(fs).geo(),
                        old(fs).volume(),
                        final(fs).volume(),
                        old(self).inode_data,
                        name@,
                    )
                    &&& name_fault(name@) matches Some(fault) ==> r == Err::<
                        DirectoryReply,
                        InvocationError,
                    >(fault) && *final(fs) == *old(fs)
                },
                DirectoryRequest::CreateFile(name) => match *old(caller) {
                    None => r == Err::<DirectoryReply, InvocationError>(
                        InvocationError::InvalidHandle,
                    ) && *final(fs) == *old(fs) && *final(self) == *old(self),
                    Some(process) => {
                        &&& old(fs).reliable() ==> {
                            let (made, after, inode) = file_created(
                                old(fs).geo(),
                                old(fs).volume(),
                                old(self).inode_num,
                                old(self).inode_data,
                                name@,
                                process.credentials.user,
                                now,
                            );
                            &&& handed_out(*old(caller), *final(caller), made, allowed, r)
                            &&& final(fs).volume() == after
                            &&& final(self).inode_data == inode
                        }
                        &&& r matches Ok(reply) ==> (reply matches DirectoryReply::Object(
                            _,
                            own,
                            child,
                        ) && {
                            &&& was_file_created(
                                old(fs).geo(),
                                old(fs).volume(),
                                final(fs).volume(),
                                old(self).inode_num,
                                old(self).inode_data,
                                final(self).inode_data,
                                name@,
                                process.credentials.user,
                                now,
                                (own, child),
                            )
                            &&& handed_out(
                                *old(caller),
                                *final(caller),
                                Ok((own, child)),
                                allowed,
                                r,
                            )
                        })
                        &&& request_fault(name@, process.credentials.user) matches Some(fault)
                            ==> {
                            &&& r == Err::<DirectoryReply, InvocationError>(fault)
                            &&& *final(fs) == *old(fs)
                            &&& *final(self) == *old(self)
                        }
                    },
                },
                DirectoryRequest::CreateDir(name) => match *old(caller) {
                    None => r == Err::<DirectoryReply, InvocationError>(
                        InvocationError::InvalidHandle,
                    ) && *final(fs) == *old(fs) && *final(self) == *old(self),
                    Some(process) => {
                        &&& old(fs).reliable() ==> {
                            let (made, after, inode) = dir_created(
                                old(fs).geo(),
                                old(fs).volume(),
                                old(self).inode_num,
                                old(self).inode_data,
                                name@,
                                process.credentials.user,
                                now,
                            );
                            &&& handed_out(*old(caller), *final(caller), made, allowed, r)
                            &&& final(fs).volume() == after
                            &&& final(self).inode_data == inode
                        }
                        &&& r matches Ok(reply) ==> (reply matches DirectoryReply::Object(
                            _,
                            own,
                            child,
                        ) && {
                            &&& was_dir_created(
                                old(fs).geo(),
                                old(fs).volume(),
                                final(fs).volume(),
                                old(self).inode_num,
                                old(self).inode_data,
                                final(self).inode_data,
                                name@,
                                process.credentials.user,
                                now,
                                (own, child),
                            )
                            &&& handed_out(
                                *old(caller),
                                *final(caller),
                                Ok((own, child)),
                                allowed,
                                r,
                            )
                        })
                        &&& request_fault(name@, process.credentials.user) matches Some(fault)
                            ==> {
                            &&& r == Err::<DirectoryReply, InvocationError>(fault)
                            &&& *final(fs) == *old(fs)
                            &&& *final(self) == *old(self)
                        }
                    },
                },
            },
    {
        match request {
            DirectoryRequest::Lookup(name) => register_created_object(
                self.lookup_child(fs, name),
                Ok(AccessRights::all()),
                caller,
            ),
            DirectoryRequest::Stat => Ok(DirectoryReply::Stat(self.stat(fs))),
            DirectoryRequest::List { sink } => match self.list(fs) {
                Ok(names) => match caller {
                    Some(process) => match process.handles.resolve(
                        *sink,
                        AccessRights(AccessRights::WRITE),
                    ) {
                        Ok(object) => Ok(DirectoryReply::Listing(packets(&names), object)),
                        Err(fault) => Err(fault),
                    },
                    None => Err(InvocationError::InvalidHandle),
                },
                Err(_) => Err(InvocationError::InvalidPointer),
            },
            DirectoryRequest::Unlink(name) => match self.unlink_child(fs, name) {
                Ok(_) => Ok(DirectoryReply::Done),
                Err(fault) => Err(fault),
            },
            DirectoryRequest::CreateFile(name) => match caller {
                Some(process) => {
                    let owner = process.credentials.user;
                    let made = self.create_child_file(fs, name, owner, now);
                    register_created_object(made, allowed, caller)
                },
                None => Err(InvocationError::InvalidHandle),
            },
            DirectoryRequest::CreateDir(name) => match caller {
                Some(process) => {
                    let owner = process.credentials.user;
                    let made = self.create_child_dir(fs, name, owner, now);
                    register_created_object(made, allowed, caller)
                },
                None => Err(InvocationError::InvalidHandle),
            },
            _ => Err(InvocationError::UnsupportedOperation),
        }
    }
}

/// Gives the process that asks a handle to an object.
fn register_created_object(
    object: Result<(u32, DiskInode), InvocationError>,
    rights: Result<AccessRights, InvocationError>,
    caller: &mut Option<CallingProcess>,
) -> (r: Result<DirectoryReply, InvocationError>)
    ensures
        handed_out(*old(caller), *final(caller), object, rights, r),
{
    let (num, inode) = match object {
        Ok(object) => object,
        Err(fault) => {
            return Err(fault);
        },
    };
    let rights = match rights {
        Ok(rights) => rights,
        Err(fault) => {
            return Err(fault);
        },
    };
    match caller {
        Some(process) => {
            let handle = process.handles.insert(num as u64, rights);
            Ok(DirectoryReply::Object(handle, num, inode))
        },
        None => Err(InvocationError::InvalidHandle),
    }
}

spec fn prefixed(first: Seq<(Seq<u8>, u8)>, rest: Option<Seq<(Seq<u8>, u8)>>) -> Option<
    Seq<(Seq<u8>, u8)>,
> {
    match rest {
        Some(rest) => Some(first + rest),
        None => None,
    }
}

fn new_file_inode(uid: u16, now: u32) -> (r: DiskInode)
    ensures
        r == file_inode(uid, now),
{
    let r = DiskInode {
        mode: 0x81A4,
        uid,
        size: 0,
        atime: now,
        ctime: now,
        mtime: now,
        dtime: 0,
        gid: 0,
        links_count: 1,
        blocks: 0,
        flags: 0,
        osd1: 0,
        data: DiskBlockPointers {
            direct: [0;12],
            single_indirect: 0,
            double_indirect: 0,
            triple_indirect: 0,
        },
        generation: 0,
        file_acl: 0,
        dir_acl: 0,
        faddr: 0,
        osd2: [0;3],
    };
    assert(r.data.direct =~= file_inode(uid, now).data.direct);
    assert(r.osd2 =~= file_inode(uid, now).osd2);
    r
}

fn new_dir_block(block_size: u32, own: u32, parent: u32) -> (r: Vec<u8>)
    requires
        is_block_size(block_size as int),
    ensures
        forall|geo: Geometry| geo.block_size == block_size ==> r@ == #[trigger] dir_block(geo, own, parent),
        r@.len() == block_size,
{
    let mut data = zero_bytes(block_size as usize);
    let first = DiskDirHeader { inode: own, record_length: 12, name_length: 1, file_type: 2 };
    first.write(&mut data, 0);
    let own_name: Vec<u8> = vec![0x2E];
    assert(own_name@ =~= seq![0x2Eu8]);
    put_bytes(&mut data, 8, &own_name);
    let second = DiskDirHeader {
        inode: parent,
        record_length: (block_size - 12) as u16,
        name_length: 2,
        file_type: 2,
    };
    second.write(&mut data, 12);
    let parent_name: Vec<u8> = vec![0x2E, 0x2E];
    assert(parent_name@ =~= seq![0x2Eu8, 0x2E]);
    put_bytes(&mut data, 20, &parent_name);
    data
}

} // verus!
