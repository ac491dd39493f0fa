//! What holds of the file system as a whole.

use crate::common::bytes::{bytes32, law_get_put32, law_put_get32, le32, patched, zeroes};
use crate::storage::fs::ext2::obj::dir::{
    dir_block, entry_added, find_with_previous, place_for, record_size, room, with_entry,
    without_entry,
};
use crate::storage::fs::ext2::structs::{
    group_of, group_words, header_of, law_header_reads_back, law_inode_reads_back, with_group,
    with_header, with_inode, with_words, words_at, DiskDirHeader, DiskInode,
};
use crate::storage::fs::ext2::volume::{
    bit, bitmap_of, content, count_offset, find_name, first_clear, free_count, has_record,
    inode_place, left, looked_up, moved, names, number_of, pick, place_of, recounted, released,
    stored_inode, taken, with_bit, with_stored, without_bit, Bitmap, Geometry, Volume,
};
use crate::storage::fs::ext2::lemma_descriptor_fits;
use vstd::prelude::*;

verus! {

/// The bytes of a structure lie apart from those of another.
pub open spec fn apart(a: int, b: int, len: int) -> bool {
    a + len <= b || b + len <= a
}

pub proof fn lemma_words_same(s: Seq<u8>, t: Seq<u8>, at: int, n: nat)
    requires
        0 <= at,
        at + 4 * n <= s.len(),
        s.len() == t.len(),
        forall|i: int| at <= i < at + 4 * n ==> s[i] == t[i],
    ensures
        words_at(s, at, n) == words_at(t, at, n),
{
    reveal(words_at);
    assert forall|j: int| 0 <= j < n implies #[trigger] words_at(s, at, n)[j] == words_at(
        t,
        at,
        n,
    )[j] by {
        let here = at + 4 * j;
        assert(s[here] == t[here] && s[here + 1] == t[here + 1] && s[here + 2] == t[here + 2]
            && s[here + 3] == t[here + 3]);
    }
    assert(words_at(s, at, n) =~= words_at(t, at, n));
}

/// The place of an inode lies apart from another place.
pub open spec fn lies_apart(geo: Geometry, v: Volume, num: u32, block: int, at: int) -> bool {
    match inode_place(geo, v, num) {
        Some((b, a)) => a + 128 <= geo.bs() && (b != block || apart(a, at, 128)),
        None => true,
    }
}

/// An inode that is stored is the one that is read, and the inodes beside it
/// stay as they were. An inode whose place would be in block zero has none.
pub proof fn law_stored_inode_reads_back(
    geo: Geometry,
    v: Volume,
    num: u32,
    inode: DiskInode,
    other: u32,
)
    requires
        v.wf(geo),
        with_stored(geo, v, num, inode) is Some,
        (inode_place(geo, v, num)->0).0 != 0,
        (inode_place(geo, v, num)->0).1 + 128 <= geo.bs(),
    ensures
        ({
            let after = with_stored(geo, v, num, inode)->0;
            let (block, at) = inode_place(geo, v, num)->0;
            &&& stored_inode(geo, after, num) == Some(inode)
            &&& lies_apart(geo, v, other, block, at) ==> stored_inode(geo, after, other)
                == stored_inode(geo, v, other)
        }),
{
    let (block, at) = inode_place(geo, v, num)->0;
    let data = content(geo, v, block)->0;
    let after = with_stored(geo, v, num, inode)->0;
    law_inode_reads_back(data, at, inode);
    assert(after.groups == v.groups);
    if let Some((b, a)) = inode_place(geo, v, other) {
        if b == block && a + 128 <= geo.bs() && apart(a, at, 128) {
            lemma_words_same(data, with_inode(data, at, inode), a, 32);
        }
    }
}

/// From an offset on, the records of a directory block follow each other to
/// its end, and each has room for its name.
pub open spec fn sound_from(data: Seq<u8>, at: int) -> bool
    decreases left(data, at),
{
    if at == data.len() {
        true
    } else {
        &&& has_record(data, at)
        &&& header_of(data, at).record_length >= 8 + header_of(data, at).name_length
        &&& at + header_of(data, at).record_length <= data.len()
        &&& sound_from(data, at + header_of(data, at).record_length)
    }
}

/// Two blocks agree on the record at an offset, its name included.
proof fn lemma_same_record(s: Seq<u8>, t: Seq<u8>, at: int, name: Seq<u8>)
    requires
        s.len() == t.len(),
        has_record(s, at),
        at + 8 + header_of(s, at).name_length <= s.len(),
        forall|i: int|
            at <= i < at + 8 + header_of(s, at).name_length ==> #[trigger] s[i] == t[i],
    ensures
        header_of(t, at) == header_of(s, at),
        names(t, at, name) == names(s, at, name),
{
    lemma_words_same(s, t, at, 2);
    let n = header_of(s, at).name_length;
    assert(s.subrange(at + 8, at + 8 + n) =~= t.subrange(at + 8, at + 8 + n));
}

/// Direct block `i` of a directory has a record under a name, with the given
/// type.
pub open spec fn is_typed(v: Volume, inode: DiskInode, i: int, name: Seq<u8>, file_type: u8) -> bool {
    let block = inode.data.direct[i];
    let data = v.blocks[block as int];
    &&& 0 <= i < 12
    &&& block != 0
    &&& block < v.blocks.len()
    &&& find_name(data, 0, name) matches Some(at) && header_of(data, at).file_type == file_type
}

/// Two blocks have the same inode in the record at an offset, if there is one.
pub open spec fn same_inode(s: Seq<u8>, t: Seq<u8>, at: Option<int>) -> bool {
    at matches Some(at) ==> header_of(s, at).inode == header_of(t, at).inode
}

proof fn lemma_entry_found_from(
    data: Seq<u8>,
    at: int,
    end: int,
    name: Seq<u8>,
    inode: u32,
    file_type: u8,
    sought: Seq<u8>,
)
    requires
        0 <= at <= end,
        room(data, at, record_size(name.len() as int)) == Some(end),
        sound_from(data, at),
        0 < name.len() <= 254,
        data.len() <= 4096,
        inode != 0,
        find_name(data, at, name) is None,
    ensures
        ({
            let used = record_size(header_of(data, end).name_length as int);
            let after = with_entry(data, end, name, inode, file_type);
            &&& after.len() == data.len()
            &&& sound_from(after, at)
            &&& header_of(after, end + used).inode == inode
            &&& header_of(after, end + used).file_type == file_type
            &&& find_name(after, at, sought) == if sought == name {
                Some(end + used)
            } else {
                find_name(data, at, sought)
            }
            &&& sought != name ==> same_inode(data, after, find_name(data, at, sought))
        }),
    decreases left(data, at),
{
    let h = header_of(data, at);
    let last = header_of(data, end);
    let used = record_size(last.name_length as int);
    let needed = record_size(name.len() as int);
    let after = with_entry(data, end, name, inode, file_type);
    let shortened = DiskDirHeader { record_length: used as u16, ..last };
    let entry = DiskDirHeader {
        inode,
        record_length: (last.record_length - used) as u16,
        name_length: name.len() as u8,
        file_type,
    };
    lemma_room_end(data, at, needed);
    let d1 = with_header(data, end, shortened);
    let d2 = with_header(d1, end + used, entry);
    law_header_reads_back(data, end, shortened);
    law_header_reads_back(d1, end + used, entry);
    if at < end {
        lemma_same_record(data, after, at, sought);
        lemma_same_record(data, after, at, name);
        lemma_entry_found_from(
            data,
            at + h.record_length,
            end,
            name,
            inode,
            file_type,
            sought,
        );
    } else {
        // The record that cedes its room keeps its name.
        lemma_words_same(d1, d2, end, 2);
        lemma_words_same(d2, after, end, 2);
        lemma_words_same(d2, after, end + used, 2);
        assert(header_of(after, end) == shortened);
        assert(header_of(after, end + used) == entry);
        let n = last.name_length as int;
        assert(after.subrange(end + 8, end + 8 + n) =~= data.subrange(end + 8, end + 8 + n));
        assert(names(after, end, sought) == names(data, end, sought));
        assert(names(after, end, name) == names(data, end, name));
        // The new record ends the block.
        let new_at = end + used;
        assert(after.subrange(new_at + 8, new_at + 8 + name.len()) =~= name);
        assert(new_at + entry.record_length == data.len());
        assert(names(after, new_at, sought) == (sought == name));
        assert(!has_record(after, data.len() as int));
        reveal_with_fuel(find_name, 3);
        reveal_with_fuel(sound_from, 3);
    }
}

proof fn lemma_room_end(data: Seq<u8>, at: int, needed: int)
    requires
        0 <= at,
        room(data, at, needed) is Some,
        sound_from(data, at),
    ensures
        ({
            let end = room(data, at, needed)->0;
            let h = header_of(data, end);
            &&& at <= end
            &&& at < end ==> at + header_of(data, at).record_length <= end
            &&& has_record(data, end)
            &&& end + h.record_length == data.len()
            &&& h.record_length >= record_size(h.name_length as int) + needed
        }),
    decreases left(data, at),
{
    let h = header_of(data, at);
    if !(at + h.record_length == data.len() && h.record_length - record_size(h.name_length as int)
        >= needed) {
        lemma_room_end(data, at + h.record_length, needed);
    }
}

/// A name that has been added to a directory block is found, with the inode
/// and the type that it was added with, and every other name is found where it
/// was before.
pub proof fn law_added_entry_is_found(
    data: Seq<u8>,
    name: Seq<u8>,
    inode: u32,
    file_type: u8,
    sought: Seq<u8>,
)
    requires
        room(data, 0, record_size(name.len() as int)) is Some,
        sound_from(data, 0),
        0 < name.len() <= 254,
        data.len() <= 4096,
        inode != 0,
        find_name(data, 0, name) is None,
    ensures
        ({
            let end = room(data, 0, record_size(name.len() as int))->0;
            let after = with_entry(data, end, name, inode, file_type);
            &&& sound_from(after, 0)
            &&& find_name(after, 0, name) matches Some(at) && header_of(after, at).inode == inode
                && header_of(after, at).file_type == file_type
            &&& sought != name ==> find_name(after, 0, sought) == find_name(data, 0, sought)
                && same_inode(data, after, find_name(data, 0, sought))
        }),
{
    let end = room(data, 0, record_size(name.len() as int))->0;
    lemma_room_end(data, 0, record_size(name.len() as int));
    lemma_entry_found_from(data, 0, end, name, inode, file_type, sought);
    lemma_entry_found_from(data, 0, end, name, inode, file_type, name);
}

/// The record at `p` reaches to `next` in `after`, where the search goes on as
/// in `data`.
spec fn skips(data: Seq<u8>, after: Seq<u8>, p: int, next: int, sought: Seq<u8>) -> bool {
    &&& after.len() == data.len()
    &&& header_of(after, p) == (DiskDirHeader {
        record_length: (next - p) as u16,
        ..header_of(data, p)
    })
    &&& names(after, p, sought) == names(data, p, sought)
    &&& sound_from(after, next)
    &&& find_name(after, next, sought) == find_name(data, next, sought)
    &&& same_inode(data, after, find_name(data, next, sought))
}

/// From `at` on, the first record under `name` is gone from `after`, and the
/// search for anything else gives what it gives in `data`.
spec fn without_first(
    data: Seq<u8>,
    after: Seq<u8>,
    at: int,
    next: int,
    name: Seq<u8>,
    sought: Seq<u8>,
) -> bool {
    &&& after.len() == data.len()
    &&& sound_from(after, at)
    &&& find_name(after, at, sought) == if sought == name {
        find_name(data, next, name)
    } else {
        find_name(data, at, sought)
    }
    &&& sought != name ==> same_inode(data, after, find_name(data, at, sought))
}

/// A record with another that follows it, each with room for its name.
spec fn precedes(data: Seq<u8>, p: int, at: int) -> bool {
    let h = header_of(data, p);
    0 <= p && has_record(data, p) && p + h.record_length == at && h.record_length >= 8
        + h.name_length
}

proof fn lemma_gap(data: Seq<u8>, p: int, gone: int, sought: Seq<u8>)
    requires
        data.len() <= 4096,
        precedes(data, p, gone),
        sound_from(data, gone),
        gone < data.len(),
    ensures
        skips(
            data,
            without_entry(data, gone, Some(p)),
            p,
            gone + header_of(data, gone).record_length,
            sought,
        ),
{
    let h = header_of(data, gone);
    let ph = header_of(data, p);
    let next = gone + h.record_length;
    let after = without_entry(data, gone, Some(p));
    let changed = DiskDirHeader {
        record_length: ((ph.record_length + h.record_length) % 0x1_0000) as u16,
        ..ph
    };
    law_header_reads_back(data, p, changed);
    assert(ph.record_length + h.record_length == next - p);
    let n = ph.name_length as int;
    assert(after.subrange(p + 8, p + 8 + n) =~= data.subrange(p + 8, p + 8 + n));
    lemma_tail_same(data, after, next, sought);
}

proof fn lemma_cleared(data: Seq<u8>, at: int, name: Seq<u8>, sought: Seq<u8>)
    requires
        data.len() <= 4096,
        0 <= at < data.len(),
        sound_from(data, at),
        names(data, at, name),
    ensures
        without_first(
            data,
            without_entry(data, at, None),
            at,
            at + header_of(data, at).record_length,
            name,
            sought,
        ),
{
    let h = header_of(data, at);
    let next = at + h.record_length;
    let after = without_entry(data, at, None);
    law_header_reads_back(data, at, DiskDirHeader { inode: 0, ..h });
    lemma_tail_same(data, after, next, sought);
    assert(!names(after, at, sought));
    assert(names(data, at, sought) ==> sought == name);
}

/// The record at `at` cedes nothing: it is passed over, or it takes the room
/// of the one behind it.
proof fn lemma_passed(
    data: Seq<u8>,
    after: Seq<u8>,
    at: int,
    gone: int,
    name: Seq<u8>,
    sought: Seq<u8>,
)
    requires
        0 <= at,
        data.len() <= 4096,
        sound_from(data, at),
        at < data.len(),
        !names(data, at, name),
        names(data, gone, name),
        ({
            let next = gone + header_of(data, gone).record_length;
            let follow = at + header_of(data, at).record_length;
            ||| gone == follow && skips(data, after, at, next, sought) && next <= data.len()
            ||| without_first(data, after, follow, next, name, sought) && header_of(after, at)
                == header_of(data, at) && names(after, at, sought) == names(data, at, sought)
        }),
    ensures
        without_first(
            data,
            after,
            at,
            gone + header_of(data, gone).record_length,
            name,
            sought,
        ),
{
    let next = gone + header_of(data, gone).record_length;
    let follow = at + header_of(data, at).record_length;
    if gone == follow && skips(data, after, at, next, sought) && next <= data.len() {
        assert(header_of(after, at).record_length == next - at);
        assert(names(data, gone, sought) ==> sought == name);
    }
}

proof fn lemma_removed_from(
    data: Seq<u8>,
    at: int,
    previous: Option<int>,
    name: Seq<u8>,
    sought: Seq<u8>,
)
    requires
        0 <= at,
        data.len() <= 4096,
        sound_from(data, at),
        find_with_previous(data, at, previous, name) is Some,
        previous matches Some(p) ==> precedes(data, p, at),
    ensures
        ({
            let (gone, before) = find_with_previous(data, at, previous, name)->0;
            let next = gone + header_of(data, gone).record_length;
            let after = without_entry(data, gone, before);
            &&& at <= gone < data.len()
            &&& next <= data.len()
            &&& names(data, gone, name)
            &&& previous is Some ==> before is Some
            &&& before matches Some(p) ==> 0 <= p && p + 8 <= data.len() && (previous == Some(p)
                || at <= p)
            &&& before == previous && previous is Some ==> gone == at && skips(
                data,
                after,
                previous->0,
                next,
                sought,
            )
            &&& !(before == previous && previous is Some) ==> without_first(
                data,
                after,
                at,
                next,
                name,
                sought,
            )
        }),
    decreases left(data, at),
{
    let h = header_of(data, at);
    let follow = at + h.record_length;
    let (gone, before) = find_with_previous(data, at, previous, name)->0;
    let next = gone + header_of(data, gone).record_length;
    let after = without_entry(data, gone, before);
    if names(data, at, name) {
        match previous {
            Some(p) => {
                lemma_gap(data, p, at, sought);
            },
            None => {
                lemma_cleared(data, at, name, sought);
            },
        }
    } else {
        assert(precedes(data, at, follow));
        lemma_removed_from(data, follow, Some(at), name, sought);
        if before != Some(at) {
            let p = before->0;
            let ph = header_of(data, p);
            let changed = DiskDirHeader {
                record_length: ((ph.record_length + header_of(data, gone).record_length)
                    % 0x1_0000) as u16,
                ..ph
            };
            law_header_reads_back(data, p, changed);
            lemma_same_record(data, after, at, sought);
        }
        lemma_passed(data, after, at, gone, name, sought);
    }
}

/// Blocks that agree from an offset on are searched alike from there.
proof fn lemma_tail_same(s: Seq<u8>, t: Seq<u8>, at: int, sought: Seq<u8>)
    requires
        0 <= at <= s.len(),
        s.len() == t.len(),
        sound_from(s, at),
        forall|i: int| at <= i < s.len() ==> #[trigger] s[i] == t[i],
    ensures
        sound_from(t, at),
        find_name(t, at, sought) == find_name(s, at, sought),
        same_inode(s, t, find_name(s, at, sought)),
    decreases left(s, at),
{
    if at < s.len() {
        let h = header_of(s, at);
        lemma_same_record(s, t, at, sought);
        lemma_tail_same(s, t, at + h.record_length, sought);
    }
}

/// A name that has been removed from a directory block in which it stood once
/// is no longer found there, and every other name is found where it was
/// before.
pub proof fn law_removed_entry_is_gone(data: Seq<u8>, name: Seq<u8>, sought: Seq<u8>)
    requires
        sound_from(data, 0),
        data.len() <= 4096,
        find_with_previous(data, 0, None, name) is Some,
    ensures
        ({
            let (gone, before) = find_with_previous(data, 0, None, name)->0;
            let after = without_entry(data, gone, before);
            &&& sound_from(after, 0)
            &&& find_name(after, 0, name) == find_name(
                data,
                gone + header_of(data, gone).record_length,
                name,
            )
            &&& sought != name ==> find_name(after, 0, sought) == find_name(data, 0, sought)
                && same_inode(data, after, find_name(data, 0, sought))
        }),
{
    lemma_removed_from(data, 0, None, name, sought);
    lemma_removed_from(data, 0, None, name, name);
}

/// A directory's blocks with one of them replaced are looked through alike,
/// but for that one.
proof fn lemma_looked_up_after(
    geo: Geometry,
    v: Volume,
    inode: DiskInode,
    block: u32,
    data: Seq<u8>,
    sought: Seq<u8>,
    idx: int,
)
    requires
        0 <= idx <= 12,
        0 < block < v.blocks.len(),
        find_name(data, 0, sought) == find_name(v.blocks[block as int], 0, sought),
        same_inode(
            v.blocks[block as int],
            data,
            find_name(v.blocks[block as int], 0, sought),
        ),
    ensures
        looked_up(geo, v.with_block(block as int, data), inode, sought, idx) == looked_up(
            geo,
            v,
            inode,
            sought,
            idx,
        ),
    decreases 12 - idx,
{
    if idx < 12 {
        lemma_looked_up_after(geo, v, inode, block, data, sought, idx + 1);
    }
}

proof fn lemma_looked_up_new(
    geo: Geometry,
    v: Volume,
    inode: DiskInode,
    block: u32,
    data: Seq<u8>,
    name: Seq<u8>,
    child: u32,
    idx: int,
    at: int,
)
    requires
        0 <= idx <= at < 12,
        0 < block < v.blocks.len(),
        inode.data.direct[at] == block,
        looked_up(geo, v, inode, name, idx) == Ok::<Option<u32>, ()>(None),
        find_name(data, 0, name) is Some,
        header_of(data, find_name(data, 0, name)->0).inode == child,
    ensures
        looked_up(geo, v.with_block(block as int, data), inode, name, idx) == Ok::<
            Option<u32>,
            (),
        >(Some(child)),
    decreases 12 - idx,
{
    if inode.data.direct[idx] != block {
        lemma_looked_up_new(geo, v, inode, block, data, name, child, idx + 1, at);
    }
}

/// A name that was not in a directory is looked up with success once it has
/// been added to one of its first twelve blocks, and looking up any other name
/// gives what it gave before.
pub proof fn law_added_name_is_looked_up(
    geo: Geometry,
    v: Volume,
    num: u32,
    inode: DiskInode,
    name: Seq<u8>,
    child: u32,
    file_type: u8,
    block: u32,
    at: int,
    direct: int,
    sought: Seq<u8>,
)
    requires
        v.wf(geo),
        place_for(
            geo,
            v,
            inode,
            record_size(name.len() as int),
            0,
            inode.size as int / geo.bs(),
        ) == Ok::<Option<(u32, int)>, ()>(Some((block, at))),
        0 <= direct < 12,
        inode.data.direct[direct] == block,
        sound_from(v.blocks[block as int], 0),
        looked_up(geo, v, inode, name, 0) == Ok::<Option<u32>, ()>(None),
        0 < name.len() <= 254,
        child != 0,
    ensures
        ({
            let (r, after, kept) = entry_added(geo, v, num, inode, name, child, file_type);
            &&& r is Ok
            &&& kept == inode
            &&& looked_up(geo, after, inode, name, 0) == Ok::<Option<u32>, ()>(Some(child))
            &&& is_typed(after, inode, direct, name, file_type)
            &&& sought != name ==> looked_up(geo, after, inode, sought, 0) == looked_up(
                geo,
                v,
                inode,
                sought,
                0,
            )
        }),
{
    let needed = record_size(name.len() as int);
    lemma_place_has_room(geo, v, inode, needed, 0, inode.size as int / geo.bs());
    let data = v.blocks[block as int];
    assert(find_name(data, 0, name) is None) by {
        lemma_not_looked_up(geo, v, inode, name, 0, direct);
    }
    law_added_entry_is_found(data, name, child, file_type, sought);
    let changed = with_entry(data, at, name, child, file_type);
    lemma_looked_up_new(geo, v, inode, block, changed, name, child, 0, direct);
    assert(v.with_block(block as int, changed).blocks[block as int] == changed);
    if sought != name {
        lemma_looked_up_after(geo, v, inode, block, changed, sought, 0);
    }
}

pub proof fn lemma_place_has_room(
    geo: Geometry,
    v: Volume,
    inode: DiskInode,
    needed: int,
    idx: int,
    total: int,
)
    ensures
        place_for(geo, v, inode, needed, idx, total) matches Ok(Some((block, at))) ==> 0 < block
            < v.blocks.len() && room(v.blocks[block as int], 0, needed) == Some(at),
    decreases total - idx,
{
    if idx < total {
        lemma_place_has_room(geo, v, inode, needed, idx + 1, total);
    }
}

pub proof fn lemma_not_looked_up(
    geo: Geometry,
    v: Volume,
    inode: DiskInode,
    name: Seq<u8>,
    idx: int,
    at: int,
)
    requires
        0 <= idx <= at < 12,
        looked_up(geo, v, inode, name, idx) == Ok::<Option<u32>, ()>(None),
        0 < inode.data.direct[at] < v.blocks.len(),
    ensures
        find_name(v.blocks[inode.data.direct[at] as int], 0, name) is None,
    decreases at - idx,
{
    if idx < at {
        lemma_not_looked_up(geo, v, inode, name, idx + 1, at);
    }
}

/// The block of a new directory leads from the name of the directory itself to
/// its own inode, and from the name of its parent to the parent's.
pub proof fn law_new_directory_has_dots(geo: Geometry, own: u32, parent: u32)
    requires
        geo.wf(),
        own != 0,
        parent != 0,
    ensures
        ({
            let data = dir_block(geo, own, parent);
            &&& sound_from(data, 0)
            &&& find_name(data, 0, seq![0x2Eu8]) == Some(0int)
            &&& header_of(data, 0).inode == own
            &&& find_name(data, 0, seq![0x2Eu8, 0x2E]) == Some(12int)
            &&& header_of(data, 12).inode == parent
        }),
{
    let blank = zeroes(geo.bs() as nat);
    let first = DiskDirHeader { inode: own, record_length: 12, name_length: 1, file_type: 2 };
    let second = DiskDirHeader {
        inode: parent,
        record_length: (geo.block_size - 12) as u16,
        name_length: 2,
        file_type: 2,
    };
    let a = with_header(blank, 0, first);
    law_header_reads_back(blank, 0, first);
    let b = patched(a, 8, seq![0x2Eu8]);
    lemma_words_same(a, b, 0, 2);
    let c = with_header(b, 12, second);
    law_header_reads_back(b, 12, second);
    lemma_words_same(b, c, 0, 2);
    let d = patched(c, 20, seq![0x2Eu8, 0x2E]);
    lemma_words_same(c, d, 0, 2);
    lemma_words_same(c, d, 12, 2);
    assert(d == dir_block(geo, own, parent));
    assert(header_of(d, 0) == first);
    assert(header_of(d, 12) == second);
    assert(b[8] == 0x2E && b[8] == c[8]);
    assert(d.subrange(8, 9) =~= seq![0x2Eu8]);
    assert(d.subrange(20, 22) =~= seq![0x2Eu8, 0x2E]);
    assert(seq![0x2Eu8].len() == 1 && seq![0x2Eu8, 0x2E].len() == 2);
    reveal_with_fuel(find_name, 3);
    reveal_with_fuel(sound_from, 3);
}

/// Removing a name that stands in a directory block, and in none of its first
/// twelve blocks twice, makes it one that is not looked up with success.
pub proof fn law_removed_name_is_not_looked_up(
    geo: Geometry,
    v: Volume,
    inode: DiskInode,
    name: Seq<u8>,
    block: u32,
    sought: Seq<u8>,
)
    requires
        v.wf(geo),
        0 < block < v.blocks.len(),
        sound_from(v.blocks[block as int], 0),
        find_with_previous(v.blocks[block as int], 0, None, name) is Some,
        ({
            let data = v.blocks[block as int];
            let (gone, _) = find_with_previous(data, 0, None, name)->0;
            find_name(data, gone + header_of(data, gone).record_length, name) is None
        }),
        forall|i: int|
            0 <= i < 12 && inode.data.direct[i] != 0 && inode.data.direct[i] != block ==> (
            #[trigger] inode.data.direct[i]) < v.blocks.len() && find_name(
                v.blocks[inode.data.direct[i] as int],
                0,
                name,
            ) is None,
    ensures
        ({
            let data = v.blocks[block as int];
            let (gone, before) = find_with_previous(data, 0, None, name)->0;
            let after = v.with_block(block as int, without_entry(data, gone, before));
            &&& looked_up(geo, after, inode, name, 0) == Ok::<Option<u32>, ()>(None)
            &&& sought != name ==> looked_up(geo, after, inode, sought, 0) == looked_up(
                geo,
                v,
                inode,
                sought,
                0,
            )
        }),
{
    let data = v.blocks[block as int];
    let (gone, before) = find_with_previous(data, 0, None, name)->0;
    let changed = without_entry(data, gone, before);
    law_removed_entry_is_gone(data, name, sought);
    lemma_none_anywhere(geo, v.with_block(block as int, changed), inode, name, 0);
    if sought != name {
        lemma_looked_up_after(geo, v, inode, block, changed, sought, 0);
    }
}

proof fn lemma_none_anywhere(geo: Geometry, v: Volume, inode: DiskInode, name: Seq<u8>, idx: int)
    requires
        0 <= idx <= 12,
        forall|i: int|
            0 <= i < 12 && inode.data.direct[i] != 0 ==> (#[trigger] inode.data.direct[i])
                < v.blocks.len() && find_name(v.blocks[inode.data.direct[i] as int], 0, name) is None,
    ensures
        looked_up(geo, v, inode, name, idx) == Ok::<Option<u32>, ()>(None),
    decreases 12 - idx,
{
    if idx < 12 {
        lemma_none_anywhere(geo, v, inode, name, idx + 1);
    }
}

/// Writing the words that are there changes nothing, and of two writes to one
/// place the second stands.
proof fn lemma_words_written(s: Seq<u8>, at: int, first: Seq<u32>, second: Seq<u32>)
    requires
        0 <= at,
        at + 4 * second.len() <= s.len(),
        first.len() == second.len(),
    ensures
        with_words(with_words(s, at, first), at, second) == with_words(s, at, second),
        words_at(s, at, second.len()) == second ==> with_words(s, at, second) == s,
{
    reveal(with_words);
    reveal(words_at);
    assert(with_words(with_words(s, at, first), at, second) =~= with_words(s, at, second));
    if words_at(s, at, second.len()) == second {
        assert forall|k: int| 0 <= k < s.len() implies #[trigger] with_words(s, at, second)[k]
            == s[k] by {
            if at <= k < at + 4 * second.len() {
                let j = (k - at) / 4;
                let here = at + 4 * j;
                assert(words_at(s, at, second.len())[j] == second[j]);
                law_get_put32(s, here);
                assert(s.subrange(here, here + 4)[(k - at) % 4] == s[k]);
            }
        }
        assert(with_words(s, at, second) =~= s);
    }
}

/// Writing a number over the one that is there and then the old one again
/// changes nothing.
proof fn lemma_number_restored(s: Seq<u8>, at: int, x: u32)
    requires
        0 <= at,
        at + 4 <= s.len(),
    ensures
        patched(patched(s, at, bytes32(x)), at, bytes32(le32(s, at))) == s,
        le32(patched(s, at, bytes32(x)), at) == x,
{
    law_get_put32(s, at);
    law_put_get32(s, at, x);
    let t = patched(patched(s, at, bytes32(x)), at, bytes32(le32(s, at)));
    assert forall|k: int| 0 <= k < s.len() implies #[trigger] t[k] == s[k] by {
        if at <= k < at + 4 {
            assert(s.subrange(at, at + 4)[k - at] == s[k]);
        }
    }
    assert(t =~= s);
}

proof fn lemma_bit_restored(data: Seq<u8>, i: int)
    requires
        0 <= i < 8 * data.len(),
        !bit(data, i),
    ensures
        bit(with_bit(data, i), i),
        without_bit(with_bit(data, i), i) == data,
{
    let val = data[i / 8];
    let shift = (i % 8) as u8;
    assert((val | (1u8 << shift)) & (1u8 << shift) != 0 && (val | (1u8 << shift)) & !(1u8 << shift)
        == val) by (bit_vector)
        requires
            shift < 8,
            val & (1u8 << shift) == 0,
    ;
    assert(without_bit(with_bit(data, i), i) =~= data);
}

pub proof fn lemma_pick(geo: Geometry, v: Volume, kind: Bitmap, index: int)
    requires
        0 <= index,
    ensures
        pick(geo, v, kind, index) matches Ok(Some((g, i))) ==> {
            &&& index <= g < v.groups.len()
            &&& free_count(v.groups[g], kind) > 0
            &&& content(geo, v, bitmap_of(v.groups[g], kind) as int) matches Some(data)
            &&& 0 <= i < 8 * data.len()
            &&& !bit(data, i)
        },
    decreases v.groups.len() - index,
{
    if index < v.groups.len() {
        if let Some(data) = content(geo, v, bitmap_of(v.groups[index], kind) as int) {
            lemma_first_clear(data, 0);
        }
        lemma_pick(geo, v, kind, index + 1);
    }
}

proof fn lemma_first_clear(data: Seq<u8>, from: int)
    requires
        0 <= from,
    ensures
        first_clear(data, from) matches Some(i) ==> from <= i < 8 * data.len() && !bit(data, i),
    decreases 8 * data.len() - from,
{
    if from < 8 * data.len() {
        lemma_first_clear(data, from + 1);
    }
}

pub open spec fn per_group(geo: Geometry, kind: Bitmap) -> int {
    match kind {
        Bitmap::Blocks => geo.blocks_per_group as int,
        Bitmap::Inodes => geo.inodes_per_group as int,
    }
}

/// What is kept account of in a group is kept in places of its own: its bitmap
/// is neither a hole nor one of the blocks that hold the descriptors and the
/// superblock, and its descriptor on disk is the one in memory.
pub open spec fn kept_apart(geo: Geometry, v: Volume, kind: Bitmap, index: int) -> bool {
    let bitmap = bitmap_of(v.groups[index], kind) as int;
    let table = geo.group_block(index);
    &&& 0 < bitmap < v.blocks.len()
    &&& bitmap != table
    &&& bitmap != geo.super_block()
    &&& table != geo.super_block()
    &&& group_of(v.blocks[table], geo.group_offset(index)) == v.groups[index]
}

/// What is taken was free, and giving it back leaves the volume as it was
/// before: the bitmap, the counts, and every block.
#[verifier::spinoff_prover]
#[verifier::rlimit(40)]
pub proof fn law_giving_back_undoes_taking(geo: Geometry, v: Volume, kind: Bitmap, is_dir: bool)
    requires
        v.wf(geo),
        ({
            let (index, i) = (pick(geo, v, kind, 0)->Ok_0)->0;
            let sb = v.blocks[geo.super_block()];
            &&& pick(geo, v, kind, 0) is Ok
            &&& pick(geo, v, kind, 0)->Ok_0 is Some
            &&& kept_apart(geo, v, kind, index)
            &&& i < per_group(geo, kind)
            &&& le32(sb, geo.super_offset() + count_offset(kind)) > 0
            &&& is_dir && kind is Inodes ==> v.groups[index].used_dirs_count < 0xFFFF
        }),
    ensures
        ({
            let (number, after) = taken(geo, v, kind, is_dir);
            let (index, i) = (pick(geo, v, kind, 0)->Ok_0)->0;
            &&& number matches Some(n)
            &&& place_of(geo, kind, n as int) == (index, i)
            &&& !bit(v.blocks[bitmap_of(v.groups[index], kind) as int], i)
            &&& bit(after.blocks[bitmap_of(v.groups[index], kind) as int], i)
            &&& released(geo, after, kind, n as int, is_dir) == Some(v)
        }),
{
    lemma_pick(geo, v, kind, 0);
    let (index, i) = (pick(geo, v, kind, 0)->Ok_0)->0;
    let (number, after) = taken(geo, v, kind, is_dir);
    let n = number->0;
    let group = v.groups[index];
    let b = bitmap_of(group, kind) as int;
    let table = geo.group_block(index);
    let off = geo.group_offset(index);
    let sb = geo.super_block();
    let at = geo.super_offset() + count_offset(kind);
    let per = per_group(geo, kind);
    lemma_number_place(geo, v, kind, index, i);
    lemma_bit_restored(v.blocks[b], i);
    lemma_descriptor_fits(index, geo.bs());
    let less = recounted(group, kind, -1, is_dir);
    assert(recounted(less, kind, 1, is_dir) == group);
    let words = group_words(group);
    let fewer = group_words(less);
    lemma_group_words(v.blocks[table], off);
    lemma_words_written(v.blocks[table], off, fewer, words);
    let count = le32(v.blocks[sb], at);
    lemma_number_restored(v.blocks[sb], at, (count - 1) as u32);
    assert(moved(count - 1, 1, 0xFFFF_FFFF) == count);
    assert(after.blocks[b] == with_bit(v.blocks[b], i));
    assert(after.blocks[table] == with_group(v.blocks[table], off, less));
    assert(after.blocks[sb] == patched(v.blocks[sb], at, bytes32((count - 1) as u32)));
    let back = released(geo, after, kind, n as int, is_dir)->0;
    assert(after.groups[index] == less);
    assert(back.groups =~= v.groups);
    assert(back.blocks =~= v.blocks);
}

proof fn lemma_group_words(s: Seq<u8>, at: int)
    ensures
        words_at(s, at, 8) == group_words(group_of(s, at)),
{
    reveal(words_at);
    assert(words_at(s, at, 8) =~= group_words(group_of(s, at)));
}

pub proof fn lemma_number_place(geo: Geometry, v: Volume, kind: Bitmap, index: int, i: int)
    requires
        v.wf(geo),
        0 <= index < v.groups.len(),
        0 <= i < per_group(geo, kind),
    ensures
        0 <= number_of(geo, kind, index, i) <= u32::MAX,
        place_of(geo, kind, number_of(geo, kind, index, i)) == (index, i),
{
    let per = per_group(geo, kind);
    vstd::arithmetic::div_mod::lemma_fundamental_div_mod_converse(
        index * per + i,
        per,
        index,
        i,
    );
    assert(0 <= index * per <= v.groups.len() * per) by (nonlinear_arith)
        requires
            0 <= index < v.groups.len(),
            0 < per,
    ;
}

} // verus!
