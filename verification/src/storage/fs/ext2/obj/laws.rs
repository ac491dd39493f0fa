//! What a listing tells of a directory.

use crate::object::handle::{resolved, HandleEntry, HandleID};
use crate::object::invoke::InvocationError;
use crate::object::packet::PacketType;
use crate::object::rights::AccessRights;
use crate::process::procman::CallingProcess;
use crate::storage::fs::ext2::laws::is_typed;
use crate::storage::fs::ext2::naming::{
    law_created_directory_is_looked_up, law_created_file_is_looked_up, law_unlinked_name_is_gone,
    sound_dir, stands_once,
};
use crate::storage::fs::ext2::obj::dir::{
    dir_created, file_created, handed_out, lists, unlinked, DirectoryReply,
};
use crate::storage::fs::ext2::obj::listing::{
    is_packet, names_in, names_of, DirEntryType, ListPacket,
};
use crate::storage::fs::ext2::structs::{header_of, DiskInode};
use crate::storage::fs::ext2::tree::{laid_out, marked};
use crate::storage::fs::ext2::volume::{
    content, find_name, has_record, left, looked_up, names, Bitmap, Geometry, Volume,
};
use vstd::prelude::*;
use vstd::utf8::valid_utf8;

verus! {

/// A name that a listing can show: it is text, and neither "." nor "..".
pub open spec fn shown(name: Seq<u8>) -> bool {
    &&& valid_utf8(name)
    &&& name != seq![0x2Eu8]
    &&& name != seq![0x2Eu8, 0x2E]
}

/// How often a listing has a name.
pub open spec fn times(list: Seq<(Seq<u8>, u8)>, name: Seq<u8>) -> nat
    decreases list.len(),
{
    if list.len() == 0 {
        0
    } else {
        times(list.drop_last(), name) + if list.last().0 == name {
            1nat
        } else {
            0
        }
    }
}

/// How many records of a directory block from `at` on a lookup takes for those
/// of a name.
pub open spec fn records(data: Seq<u8>, at: int, name: Seq<u8>) -> nat
    decreases left(data, at),
{
    if !has_record(data, at) {
        0
    } else {
        records(data, at + header_of(data, at).record_length, name) + if names(data, at, name) {
            1nat
        } else {
            0
        }
    }
}

proof fn lemma_times_add(a: Seq<(Seq<u8>, u8)>, b: Seq<(Seq<u8>, u8)>, name: Seq<u8>)
    ensures
        times(a + b, name) == times(a, name) + times(b, name),
    decreases b.len(),
{
    if b.len() == 0 {
        assert(a + b =~= a);
    } else {
        assert((a + b).drop_last() =~= a + b.drop_last());
        lemma_times_add(a, b.drop_last(), name);
    }
}

proof fn lemma_times_one(item: (Seq<u8>, u8), name: Seq<u8>)
    ensures
        times(seq![item], name) == if item.0 == name {
            1nat
        } else {
            0
        },
{
    assert(seq![item].drop_last() =~= Seq::empty());
    assert(times(seq![item].drop_last(), name) == 0);
}

proof fn lemma_times(list: Seq<(Seq<u8>, u8)>, name: Seq<u8>)
    ensures
        times(list, name) > 0 <==> exists|i: int|
            0 <= i < list.len() && (#[trigger] list[i]).0 == name,
    decreases list.len(),
{
    if list.len() > 0 {
        let less = list.drop_last();
        lemma_times(less, name);
        if times(less, name) > 0 {
            let i = choose|i: int| 0 <= i < less.len() && (#[trigger] less[i]).0 == name;
            assert(list[i].0 == name);
        }
        if exists|i: int| 0 <= i < list.len() && (#[trigger] list[i]).0 == name {
            let i = choose|i: int| 0 <= i < list.len() && (#[trigger] list[i]).0 == name;
            if i < less.len() {
                assert(less[i].0 == name);
            }
        }
    }
}

/// The listing of a directory block has every name that can be shown as often
/// as there are records that a lookup takes for those of the name, whole, and
/// no other name.
pub proof fn law_block_lists_its_records(data: Seq<u8>, at: int, name: Seq<u8>)
    ensures
        times(names_in(data, at), name) == if shown(name) {
            records(data, at, name)
        } else {
            0
        },
    decreases left(data, at),
{
    if has_record(data, at) {
        let h = header_of(data, at);
        let rest = names_in(data, at + h.record_length);
        law_block_lists_its_records(data, at + h.record_length, name);
        let own = data.subrange(at + 8, at + 8 + h.name_length);
        lemma_times_one((own, h.file_type), name);
        lemma_times_add(seq![(own, h.file_type)], rest, name);
    }
}

proof fn lemma_found(data: Seq<u8>, at: int, name: Seq<u8>)
    ensures
        find_name(data, at, name) is Some <==> records(data, at, name) > 0,
    decreases left(data, at),
{
    if has_record(data, at) {
        lemma_found(data, at + header_of(data, at).record_length, name);
    }
}

/// How many records of a directory from block `idx` on a lookup takes for those
/// of a name.
pub open spec fn dir_records(geo: Geometry, v: Volume, inode: DiskInode, idx: int, name: Seq<u8>) -> nat
    decreases 12 - idx,
{
    if idx >= 12 {
        0
    } else {
        dir_records(geo, v, inode, idx + 1, name) + if inode.data.direct[idx] == 0 {
            0
        } else {
            records(content(geo, v, inode.data.direct[idx] as int)->0, 0, name)
        }
    }
}

/// The listing of a directory has every name that can be shown as often as the
/// directory has records of it, and no other name.
pub proof fn law_directory_lists_its_records(
    geo: Geometry,
    v: Volume,
    inode: DiskInode,
    idx: int,
    name: Seq<u8>,
)
    ensures
        names_of(geo, v, inode, idx) matches Some(list) ==> times(list, name) == if shown(name) {
            dir_records(geo, v, inode, idx, name)
        } else {
            0
        },
    decreases 12 - idx,
{
    if idx < 12 && names_of(geo, v, inode, idx) is Some {
        law_directory_lists_its_records(geo, v, inode, idx + 1, name);
        if inode.data.direct[idx] != 0 {
            let data = content(geo, v, inode.data.direct[idx] as int)->0;
            law_block_lists_its_records(data, 0, name);
            lemma_times_add(names_in(data, 0), names_of(geo, v, inode, idx + 1)->0, name);
        }
    }
}

proof fn lemma_looked_up_records(
    geo: Geometry,
    v: Volume,
    inode: DiskInode,
    idx: int,
    name: Seq<u8>,
)
    requires
        names_of(geo, v, inode, idx) is Some,
    ensures
        looked_up(geo, v, inode, name, idx) is Ok,
        looked_up(geo, v, inode, name, idx)->Ok_0 is Some <==> dir_records(
            geo,
            v,
            inode,
            idx,
            name,
        ) > 0,
    decreases 12 - idx,
{
    if idx < 12 {
        lemma_looked_up_records(geo, v, inode, idx + 1, name);
        if inode.data.direct[idx] != 0 {
            lemma_found(content(geo, v, inode.data.direct[idx] as int)->0, 0, name);
        }
    }
}

/// A name is in the listing of a directory exactly if it is text, is neither "."
/// nor "..", and a lookup of it in that directory finds an inode.
pub proof fn law_listing_is_what_lookup_finds(
    geo: Geometry,
    v: Volume,
    inode: DiskInode,
    name: Seq<u8>,
)
    requires
        names_of(geo, v, inode, 0) is Some,
    ensures
        ({
            let list = names_of(geo, v, inode, 0)->0;
            (exists|i: int| 0 <= i < list.len() && (#[trigger] list[i]).0 == name) <==> shown(name)
                && looked_up(geo, v, inode, name, 0) matches Ok(Some(_))
        }),
{
    law_directory_lists_its_records(geo, v, inode, 0, name);
    lemma_looked_up_records(geo, v, inode, 0, name);
    lemma_times(names_of(geo, v, inode, 0)->0, name);
}

/// The record that a lookup finds in a block is listed with its own type.
pub proof fn law_found_record_is_listed_with_its_type(data: Seq<u8>, at: int, name: Seq<u8>)
    requires
        shown(name),
        find_name(data, at, name) is Some,
    ensures
        names_in(data, at).contains((name, header_of(data, find_name(data, at, name)->0).file_type)),
    decreases left(data, at),
{
    let h = header_of(data, at);
    let next = at + h.record_length;
    let rest = names_in(data, next);
    let item = (name, header_of(data, find_name(data, at, name)->0).file_type);
    if names(data, at, name) {
        assert(names_in(data, at)[0] == item);
    } else {
        law_found_record_is_listed_with_its_type(data, next, name);
        let i = rest.index_of(item);
        if names_in(data, at).len() == rest.len() {
            assert(names_in(data, at)[i] == item);
        } else {
            assert(names_in(data, at)[i + 1] == item);
        }
    }
}

proof fn lemma_typed_is_listed(
    geo: Geometry,
    v: Volume,
    inode: DiskInode,
    i: int,
    name: Seq<u8>,
    file_type: u8,
    idx: int,
)
    requires
        0 <= idx <= i,
        shown(name),
        is_typed(v, inode, i, name, file_type),
        names_of(geo, v, inode, idx) is Some,
    ensures
        names_of(geo, v, inode, idx)->0.contains((name, file_type)),
    decreases i - idx,
{
    let item = (name, file_type);
    let list = names_of(geo, v, inode, idx)->0;
    if idx == i {
        let data = v.blocks[inode.data.direct[i] as int];
        law_found_record_is_listed_with_its_type(data, 0, name);
        let k = names_in(data, 0).index_of(item);
        assert(list[k] == item);
    } else {
        lemma_typed_is_listed(geo, v, inode, i, name, file_type, idx + 1);
        let rest = names_of(geo, v, inode, idx + 1)->0;
        let k = rest.index_of(item);
        assert(list[list.len() - rest.len() + k] == item);
    }
}

/// A listing has a name.
pub open spec fn lists_name(list: Seq<(Seq<u8>, u8)>, name: Seq<u8>) -> bool {
    exists|i: int| 0 <= i < list.len() && (#[trigger] list[i]).0 == name
}

/// A file that has been made in a sound directory is listed there as one, under its
/// whole name, where that can be shown, and any other name is listed exactly if
/// it was before.
pub proof fn law_created_file_is_listed(
    geo: Geometry,
    v: Volume,
    num: u32,
    inode: DiskInode,
    name: Seq<u8>,
    owner: u32,
    now: u32,
    other: Seq<u8>,
)
    requires
        laid_out(geo, v),
        sound_dir(geo, v, inode),
        inode.size as int / geo.bs() < 12,
        marked(geo, v, Bitmap::Inodes, num as int),
        file_created(geo, v, num, inode, name, owner, now).0 is Ok,
        names_of(geo, v, inode, 0) is Some,
        names_of(
            geo,
            file_created(geo, v, num, inode, name, owner, now).1,
            file_created(geo, v, num, inode, name, owner, now).2,
            0,
        ) is Some,
    ensures
        ({
            let (_, after, kept) = file_created(geo, v, num, inode, name, owner, now);
            let before = names_of(geo, v, inode, 0)->0;
            let list = names_of(geo, after, kept, 0)->0;
            &&& shown(name) ==> lists_name(list, name) && list.contains((name, 1u8))
            &&& other != name ==> lists_name(list, other) == lists_name(before, other)
        }),
{
    let (_, after, kept) = file_created(geo, v, num, inode, name, owner, now);
    law_created_file_is_looked_up(geo, v, num, inode, name, owner, now, other);
    if shown(name) {
        let i = choose|i: int| is_typed(after, kept, i, name, 1);
        lemma_typed_is_listed(geo, after, kept, i, name, 1, 0);
    }
    law_listing_is_what_lookup_finds(geo, after, kept, name);
    law_listing_is_what_lookup_finds(geo, after, kept, other);
    law_listing_is_what_lookup_finds(geo, v, inode, other);
}

/// A directory that has been made in a sound directory is listed there as one, under its
/// whole name, where that can be shown, and any other name is listed exactly if
/// it was before.
pub proof fn law_created_directory_is_listed(
    geo: Geometry,
    v: Volume,
    num: u32,
    inode: DiskInode,
    name: Seq<u8>,
    owner: u32,
    now: u32,
    other: Seq<u8>,
)
    requires
        laid_out(geo, v),
        sound_dir(geo, v, inode),
        inode.size as int / geo.bs() < 12,
        marked(geo, v, Bitmap::Inodes, num as int),
        dir_created(geo, v, num, inode, name, owner, now).0 is Ok,
        names_of(geo, v, inode, 0) is Some,
        names_of(
            geo,
            dir_created(geo, v, num, inode, name, owner, now).1,
            dir_created(geo, v, num, inode, name, owner, now).2,
            0,
        ) is Some,
    ensures
        ({
            let (_, after, kept) = dir_created(geo, v, num, inode, name, owner, now);
            let before = names_of(geo, v, inode, 0)->0;
            let list = names_of(geo, after, kept, 0)->0;
            &&& shown(name) ==> lists_name(list, name) && list.contains((name, 2u8))
            &&& other != name ==> lists_name(list, other) == lists_name(before, other)
        }),
{
    let (_, after, kept) = dir_created(geo, v, num, inode, name, owner, now);
    law_created_directory_is_looked_up(geo, v, num, inode, name, owner, now, other);
    if shown(name) {
        let i = choose|i: int| is_typed(after, kept, i, name, 2);
        lemma_typed_is_listed(geo, after, kept, i, name, 2, 0);
    }
    law_listing_is_what_lookup_finds(geo, after, kept, name);
    law_listing_is_what_lookup_finds(geo, after, kept, other);
    law_listing_is_what_lookup_finds(geo, v, inode, other);
}

/// A name that has been unlinked from a sound directory that had it once is not
/// listed any more, and any other name is listed exactly if it was before.
pub proof fn law_unlinked_name_is_not_listed(
    geo: Geometry,
    v: Volume,
    inode: DiskInode,
    name: Seq<u8>,
    other: Seq<u8>,
)
    requires
        laid_out(geo, v),
        sound_dir(geo, v, inode),
        inode.size as int / geo.bs() <= 12,
        stands_once(v, inode, name),
        unlinked(geo, v, inode, name).0 is Ok,
        names_of(geo, v, inode, 0) is Some,
        names_of(geo, unlinked(geo, v, inode, name).1, inode, 0) is Some,
    ensures
        ({
            let before = names_of(geo, v, inode, 0)->0;
            let list = names_of(geo, unlinked(geo, v, inode, name).1, inode, 0)->0;
            &&& !lists_name(list, name)
            &&& other != name ==> lists_name(list, other) == lists_name(before, other)
        }),
{
    let after = unlinked(geo, v, inode, name).1;
    law_unlinked_name_is_gone(geo, v, inode, name, other);
    law_listing_is_what_lookup_finds(geo, after, inode, name);
    law_listing_is_what_lookup_finds(geo, after, inode, other);
    law_listing_is_what_lookup_finds(geo, v, inode, other);
}

/// The packets of a listing have its names, in order and whole as far as a
/// packet has room for them, with the type that the directory says. Each but
/// the last says that another follows.
pub proof fn law_packets_carry_the_listing(
    packet: ListPacket,
    list: Seq<(Seq<u8>, u8)>,
    i: int,
)
    requires
        0 <= i < list.len(),
        is_packet(packet, list, i),
    ensures
        list[i].0.len() <= 254 ==> packet.name@ == list[i].0,
        list[i].0.len() > 254 ==> packet.name@.len() == 254 && packet.name@ == list[i].0.subrange(
            0,
            254,
        ),
        list[i].1 == 1 <==> packet.entry_type == DirEntryType::File,
        list[i].1 == 2 <==> packet.entry_type == DirEntryType::Directory,
        packet.header.has_next <==> i < list.len() - 1,
        packet.header.is_stream,
        packet.header.packet_type == PacketType::DirectoryEntry,
        packet.header.payload_len == 256,
{
    assert(list[i].0.len() == 254 ==> list[i].0.take(254) =~= list[i].0);
    assert(list[i].0.len() > 254 ==> list[i].0.take(254) =~= list[i].0.subrange(0, 254));
}

/// A process that has asked for a file or a directory and may have it gets a new
/// handle to it, with the rights that it may have, and keeps its other handles.
pub proof fn law_found_object_is_handed_out(
    before: CallingProcess,
    after: Option<CallingProcess>,
    object: Result<(u32, DiskInode), InvocationError>,
    rights: Result<AccessRights, InvocationError>,
    r: Result<DirectoryReply, InvocationError>,
    i: int,
)
    requires
        handed_out(Some(before), after, object, rights, r),
        0 <= i < before.handles@.len(),
    ensures
        r is Ok <==> object is Ok && rights is Ok,
        r matches Ok(reply) ==> {
            &&& reply matches DirectoryReply::Object(handle, num, inode)
            &&& object == Ok::<(u32, DiskInode), InvocationError>((num, inode))
            &&& after matches Some(now)
            &&& now.handles@.len() == before.handles@.len() + 1
            &&& handle.0 == before.handles@.len()
            &&& now.handles@[handle.0 as int] == Some(
                HandleEntry { object: num as u64, rights: rights->Ok_0 },
            )
            &&& now.handles@[i] == before.handles@[i]
            &&& now.credentials == before.credentials
        },
        r is Err ==> after == Some(before),
        object matches Err(fault) ==> r == Err::<DirectoryReply, InvocationError>(fault),
{
}

/// A listing is sent to the object that the process has named and can write to,
/// with a packet for each name in its order.
pub proof fn law_listing_is_sent_where_it_is_asked_for(
    r: Result<DirectoryReply, InvocationError>,
    names: Seq<(Seq<u8>, u8)>,
    caller: CallingProcess,
    sink: HandleID,
)
    requires
        lists(r, Some(names), Some(caller), sink),
    ensures
        r is Ok <==> resolved(caller.handles@, sink, AccessRights(AccessRights::WRITE)) is Ok,
        r matches Ok(reply) ==> {
            &&& reply matches DirectoryReply::Listing(packets, to)
            &&& sink.0 < caller.handles@.len()
            &&& caller.handles@[sink.0 as int] matches Some(entry)
            &&& to == entry.object
            &&& entry.rights.covers(AccessRights(AccessRights::WRITE))
            &&& packets@.len() == names.len()
            &&& forall|i: int|
                0 <= i < names.len() && names[i].0.len() <= 254 ==> (#[trigger] packets@[i]).name@
                    == names[i].0
        },
{
    if let Ok(DirectoryReply::Listing(packets, _)) = r {
        assert forall|i: int| 0 <= i < names.len() && names[i].0.len() <= 254 implies (
        #[trigger] packets@[i]).name@ == names[i].0 by {
            law_packets_carry_the_listing(packets@[i], names, i);
        }
    }
}

} // verus!
