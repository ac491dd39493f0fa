//! What becomes of the names in a directory when something is made in it.

use crate::common::bytes::zeroes;
use crate::storage::fs::ext2::laws::{
    is_typed, law_added_name_is_looked_up, law_removed_name_is_not_looked_up,
    law_stored_inode_reads_back, lemma_place_has_room, lies_apart, per_group, sound_from,
};
use crate::storage::fs::ext2::obj::dir::{
    block_mapped, block_of_entry, child_of, dir_block, dir_created, dir_inode, dropped,
    entry_added, entry_appended, entry_removed, extended, file_created, file_inode,
    find_with_previous, one_more_link, place_for, record_size, unlinked, with_entry, without_entry,
};
use crate::storage::fs::ext2::structs::{
    header_of, law_header_reads_back, with_header, with_words, DiskDirHeader, DiskInode,
};
use crate::storage::fs::ext2::tree::{
    holds_inode, in_use, inodes_apart, is_file_block, is_meta, is_place, laid_out, lemma_block_written,
    lemma_inode_stored, lemma_layout_after_storing, lemma_same_layout, lemma_sound_after,
    lemma_taken, lemma_taken_kind, marked, node, own_bitmap, own_inode_block, same_layout,
    serves_group, sound_file,
};
use crate::storage::fs::ext2::volume::{
    bitmap_of, block_released, content, data_released, each_released, file_released, find_name,
    has_record, inode_place, is_directory, left, looked_up, names, number_of, path_of, place_of,
    pointers_of, pointers_of_all, released, resolved, stored_inode, taken, with_direct,
    with_stored, Bitmap, Geometry, Volume,
};
use vstd::prelude::*;

verus! {

/// A directory whose blocks are all direct ones, up to its size and not beyond,
/// with records that follow each other to the end of each block.
pub open spec fn sound_dir(geo: Geometry, v: Volume, inode: DiskInode) -> bool {
    &&& sound_file(geo, v, inode)
    &&& forall|i: int|
        0 <= i < 12 && (#[trigger] inode.data.direct[i]) != 0 ==> i < inode.size as int / geo.bs()
            && sound_from(v.blocks[inode.data.direct[i] as int], 0)
}

/// Nothing that a directory's direct blocks hold has changed.
pub open spec fn same_names(
    v: Volume,
    w: Volume,
    inode: DiskInode,
    kept: DiskInode,
    from: int,
    to: int,
) -> bool {
    &&& w.blocks.len() == v.blocks.len()
    &&& forall|i: int|
        from <= i < to ==> {
            &&& (#[trigger] kept.data.direct[i]) == inode.data.direct[i]
            &&& inode.data.direct[i] != 0 ==> w.blocks[inode.data.direct[i] as int]
                == v.blocks[inode.data.direct[i] as int]
        }
}

proof fn lemma_same_names(
    geo: Geometry,
    v: Volume,
    w: Volume,
    inode: DiskInode,
    kept: DiskInode,
    name: Seq<u8>,
    idx: int,
)
    requires
        0 <= idx,
        same_names(v, w, inode, kept, idx, 12),
    ensures
        looked_up(geo, w, kept, name, idx) == looked_up(geo, v, inode, name, idx),
    decreases 12 - idx,
{
    if idx < 12 {
        assert(kept.data.direct[idx] == inode.data.direct[idx]);
        lemma_same_names(geo, v, w, inode, kept, name, idx + 1);
    }
}

/// A direct block of a sound file is one that a file can have.
proof fn lemma_direct(geo: Geometry, v: Volume, inode: DiskInode, i: int)
    requires
        sound_file(geo, v, inode),
        0 <= i < 12,
        inode.data.direct[i] != 0,
    ensures
        is_file_block(geo, v, inode.data.direct[i] as int),
{
    let path = seq![i];
    assert(is_place(geo, 0, path));
    assert(node(geo, v, inode, 0, path) == Some(inode.data.direct[i]));
}

/// The one record of a block is found under its name, and nothing else is.
proof fn lemma_block_of_entry(
    geo: Geometry,
    name: Seq<u8>,
    own: u32,
    file_type: u8,
    sought: Seq<u8>,
)
    requires
        geo.wf(),
        0 < name.len() <= 254,
        own != 0,
    ensures
        ({
            let data = block_of_entry(geo, name, own, file_type);
            &&& data.len() == geo.bs()
            &&& sound_from(data, 0)
            &&& header_of(data, 0).inode == own
            &&& header_of(data, 0).file_type == file_type
            &&& find_name(data, 0, sought) == if sought == name {
                Some(0int)
            } else {
                None
            }
        }),
{
    let entry = DiskDirHeader {
        inode: own,
        record_length: geo.block_size as u16,
        name_length: name.len() as u8,
        file_type,
    };
    let blank = zeroes(geo.bs() as nat);
    let headed = with_header(blank, 0, entry);
    let data = block_of_entry(geo, name, own, file_type);
    law_header_reads_back(blank, 0, entry);
    assert(header_of(data, 0) == entry) by {
        crate::storage::fs::ext2::laws::lemma_words_same(headed, data, 0, 2);
    }
    assert(data.subrange(8, 8 + name.len() as int) =~= name);
    assert(names(data, 0, sought) == (sought == name));
    assert(!has_record(data, geo.bs()));
    reveal_with_fuel(find_name, 2);
    reveal_with_fuel(sound_from, 2);
}

/// A record that fits into a directory fits into one of its direct blocks, if
/// there are no others.
proof fn lemma_place_is_direct(
    geo: Geometry,
    v: Volume,
    inode: DiskInode,
    needed: int,
    idx: int,
    total: int,
) -> (i: int)
    requires
        0 <= idx,
        total <= 12,
        place_for(geo, v, inode, needed, idx, total) matches Ok(Some(_)),
    ensures
        0 <= i < 12,
        place_for(geo, v, inode, needed, idx, total) matches Ok(Some((block, _)))
            && inode.data.direct[i] == block,
    decreases total - idx,
{
    assert(path_of(geo, idx) == Some((0nat, seq![idx])));
    let block = inode.data.direct[idx];
    assert(resolved(geo, v, inode, idx) == Some(block));
    if block != 0 && crate::storage::fs::ext2::obj::dir::room(
        content(geo, v, block as int)->0,
        0,
        needed,
    ) is Some {
        idx
    } else {
        lemma_place_is_direct(geo, v, inode, needed, idx + 1, total)
    }
}

/// Up to a direct block that comes new, a name is looked for in vain.
proof fn lemma_looked_up_at(
    geo: Geometry,
    v: Volume,
    w: Volume,
    inode: DiskInode,
    kept: DiskInode,
    name: Seq<u8>,
    own: u32,
    idx: int,
    k: int,
)
    requires
        0 <= idx <= k < 12,
        looked_up(geo, v, inode, name, idx) == Ok::<Option<u32>, ()>(None),
        same_names(v, w, inode, kept, idx, k),
        0 < kept.data.direct[k] < w.blocks.len(),
        find_name(w.blocks[kept.data.direct[k] as int], 0, name) matches Some(at) && header_of(
            w.blocks[kept.data.direct[k] as int],
            at,
        ).inode == own,
    ensures
        looked_up(geo, w, kept, name, idx) == Ok::<Option<u32>, ()>(Some(own)),
    decreases k - idx,
{
    if idx < k {
        assert(kept.data.direct[idx] == inode.data.direct[idx]);
        lemma_looked_up_at(geo, v, w, inode, kept, name, own, idx + 1, k);
    }
}

/// A direct block that comes new does not change what other names lead to.
proof fn lemma_looked_up_past(
    geo: Geometry,
    v: Volume,
    w: Volume,
    inode: DiskInode,
    kept: DiskInode,
    name: Seq<u8>,
    idx: int,
    k: int,
)
    requires
        0 <= idx <= k < 12,
        same_names(v, w, inode, kept, idx, k),
        same_names(v, w, inode, kept, k + 1, 12),
        inode.data.direct[k] == 0,
        0 < kept.data.direct[k] < w.blocks.len(),
        find_name(w.blocks[kept.data.direct[k] as int], 0, name) is None,
    ensures
        looked_up(geo, w, kept, name, idx) == looked_up(geo, v, inode, name, idx),
    decreases k - idx,
{
    if idx < k {
        assert(kept.data.direct[idx] == inode.data.direct[idx]);
        lemma_looked_up_past(geo, v, w, inode, kept, name, idx + 1, k);
    } else {
        lemma_same_names(geo, v, w, inode, kept, name, k + 1);
    }
}

/// A directory has a record under a name in one of its direct blocks, with the
/// given type.
pub open spec fn has_type(v: Volume, inode: DiskInode, name: Seq<u8>, file_type: u8) -> bool {
    exists|i: int| #[trigger] is_typed(v, inode, i, name, file_type)
}

/// What a new name in a directory makes of it: the name leads to the inode that
/// it was added for, every other name leads where it led, and no inode but the
/// directory's own changes.
pub open spec fn name_added(
    geo: Geometry,
    v: Volume,
    num: u32,
    inode: DiskInode,
    w: Volume,
    kept: DiskInode,
    name: Seq<u8>,
    own: u32,
) -> bool {
    &&& laid_out(geo, w)
    &&& same_layout(v, w)
    &&& looked_up(geo, w, kept, name, 0) == Ok::<Option<u32>, ()>(Some(own))
    &&& forall|sought: Seq<u8>|
        sought != name ==> #[trigger] looked_up(geo, w, kept, sought, 0) == looked_up(
            geo,
            v,
            inode,
            sought,
            0,
        )
    &&& forall|n: u32|
        n != num ==> #[trigger] stored_inode(geo, w, n) == stored_inode(geo, v, n)
}

proof fn lemma_entry_put(
    geo: Geometry,
    v: Volume,
    num: u32,
    inode: DiskInode,
    name: Seq<u8>,
    own: u32,
    file_type: u8,
)
    requires
        laid_out(geo, v),
        sound_dir(geo, v, inode),
        inode.size as int / geo.bs() <= 12,
        0 < name.len() <= 254,
        own != 0,
        looked_up(geo, v, inode, name, 0) == Ok::<Option<u32>, ()>(None),
        place_for(
            geo,
            v,
            inode,
            record_size(name.len() as int),
            0,
            inode.size as int / geo.bs(),
        ) matches Ok(Some(_)),
    ensures
        ({
            let (r, w, kept) = entry_added(geo, v, num, inode, name, own, file_type);
            &&& r is Ok
            &&& name_added(geo, v, num, inode, w, kept, name, own)
            &&& has_type(w, kept, name, file_type)
        }),
{
    let needed = record_size(name.len() as int);
    let total = inode.size as int / geo.bs();
    let (block, at) = (place_for(geo, v, inode, needed, 0, total)->Ok_0)->0;
    let direct = lemma_place_is_direct(geo, v, inode, needed, 0, total);
    lemma_place_has_room(geo, v, inode, needed, 0, total);
    lemma_direct(geo, v, inode, direct);
    let data = v.blocks[block as int];
    let changed = with_entry(data, at, name, own, file_type);
    let w = v.with_block(block as int, changed);
    assert(changed.len() == data.len()) by {
        reveal(with_words);
    }
    lemma_block_written(geo, v, block, changed);
    assert forall|sought: Seq<u8>| sought != name implies #[trigger] looked_up(
        geo,
        w,
        inode,
        sought,
        0,
    ) == looked_up(geo, v, inode, sought, 0) by {
        law_added_name_is_looked_up(
            geo,
            v,
            num,
            inode,
            name,
            own,
            file_type,
            block,
            at,
            direct,
            sought,
        );
    }
    law_added_name_is_looked_up(
        geo,
        v,
        num,
        inode,
        name,
        own,
        file_type,
        block,
        at,
        direct,
        name,
    );
    assert(is_typed(w, inode, direct, name, file_type));
    assert forall|n: u32| n != num implies #[trigger] stored_inode(geo, w, n) == stored_inode(
        geo,
        v,
        n,
    ) by {
        if let Some((x, _)) = inode_place(geo, v, n) {
            assert(holds_inode(geo, v, n, x));
            assert(is_meta(geo, v, x));
        }
    }
}

proof fn lemma_entry_appended(
    geo: Geometry,
    v: Volume,
    num: u32,
    inode: DiskInode,
    name: Seq<u8>,
    own: u32,
    file_type: u8,
)
    requires
        laid_out(geo, v),
        sound_dir(geo, v, inode),
        inode.size as int / geo.bs() < 12,
        0 < name.len() <= 254,
        own != 0,
        looked_up(geo, v, inode, name, 0) == Ok::<Option<u32>, ()>(None),
        entry_appended(geo, v, num, inode, name, own, file_type).0 is Ok,
    ensures
        ({
            let (_, w, kept) = entry_appended(geo, v, num, inode, name, own, file_type);
            &&& name_added(geo, v, num, inode, w, kept, name, own)
            &&& has_type(w, kept, name, file_type)
        }),
{
    let k = inode.size as int / geo.bs();
    let (fresh, taken_volume) = taken(geo, v, Bitmap::Blocks, false);
    let b = fresh->0;
    let data = block_of_entry(geo, name, own, file_type);
    let filled = taken_volume.with_block(b as int, data);
    let rooted = with_direct(inode, k, b);
    let kept = extended(geo, rooted);
    assert(path_of(geo, k) == Some((0nat, seq![k])));
    assert(block_mapped(geo, filled, inode, k, b) == (Ok::<(), ()>(()), filled, rooted));
    let w = with_stored(geo, filled, num, kept)->0;
    assert(entry_appended(geo, v, num, inode, name, own, file_type).1 == w);
    assert(entry_appended(geo, v, num, inode, name, own, file_type).2 == kept);
    lemma_taken(geo, v);
    lemma_block_of_entry(geo, name, own, file_type, name);
    assert(is_meta(geo, taken_volume, b as int) == is_meta(geo, v, b as int));
    lemma_block_written(geo, taken_volume, b, data);
    assert(inode.data.direct[k] == 0);
    let (place, at) = inode_place(geo, filled, num)->0;
    assert(own_inode_block(geo, filled, num));
    assert(holds_inode(geo, filled, num, place));
    assert(is_meta(geo, filled, place));
    assert(is_meta(geo, taken_volume, place) == is_meta(geo, v, place));
    assert(kept.data.direct[k] == b);
    assert forall|i: int| 0 <= i < 12 && i != k implies {
        &&& (#[trigger] kept.data.direct[i]) == inode.data.direct[i]
        &&& inode.data.direct[i] != 0 ==> w.blocks[inode.data.direct[i] as int]
            == v.blocks[inode.data.direct[i] as int]
    } by {
        let x = inode.data.direct[i] as int;
        if x != 0 {
            lemma_direct(geo, v, inode, i);
            assert(taken_volume.blocks[x] == v.blocks[x]);
            assert(x != b);
            assert(is_meta(geo, filled, x) == is_meta(geo, v, x));
        }
    }
    assert(w.blocks[b as int] == data);
    assert(is_typed(w, kept, k, name, file_type));
    assert forall|x: int| #[trigger] is_meta(geo, filled, x) == is_meta(geo, v, x) by {
        assert(is_meta(geo, taken_volume, x) == is_meta(geo, v, x));
    }
    assert forall|x: int| #[trigger] in_use(geo, v, x) implies in_use(geo, filled, x) by {
        assert(in_use(geo, taken_volume, x));
        assert(in_use(geo, filled, x) == in_use(geo, taken_volume, x));
    }
    assert(same_layout(v, filled)) by {
        assert(filled.groups == taken_volume.groups);
    }
    lemma_sound_after(geo, v, filled, inode);
    lemma_inode_stored(geo, filled, num, kept, inode);
    assert(same_layout(v, w)) by {
        assert(w.groups == filled.groups);
    }
    lemma_looked_up_at(geo, v, w, inode, kept, name, own, 0, k);
    assert forall|sought: Seq<u8>| sought != name implies #[trigger] looked_up(
        geo,
        w,
        kept,
        sought,
        0,
    ) == looked_up(geo, v, inode, sought, 0) by {
        lemma_block_of_entry(geo, name, own, file_type, sought);
        lemma_looked_up_past(geo, v, w, inode, kept, sought, 0, k);
    }
    assert forall|n: u32| n != num implies #[trigger] stored_inode(geo, w, n) == stored_inode(
        geo,
        v,
        n,
    ) by {
        law_stored_inode_reads_back(geo, filled, num, kept, n);
        assert(own_inode_block(geo, filled, n));
        assert(inodes_apart(geo, filled, n, num));
        assert(lies_apart(geo, filled, n, place, at));
        assert(stored_inode(geo, filled, n) == stored_inode(geo, taken_volume, n));
        assert(stored_inode(geo, taken_volume, n) == stored_inode(geo, v, n));
    }
}

proof fn lemma_entry_added(
    geo: Geometry,
    v: Volume,
    num: u32,
    inode: DiskInode,
    name: Seq<u8>,
    own: u32,
    file_type: u8,
)
    requires
        laid_out(geo, v),
        sound_dir(geo, v, inode),
        inode.size as int / geo.bs() < 12,
        0 < name.len() <= 254,
        own != 0,
        looked_up(geo, v, inode, name, 0) == Ok::<Option<u32>, ()>(None),
        entry_added(geo, v, num, inode, name, own, file_type).0 is Ok,
    ensures
        ({
            let (_, w, kept) = entry_added(geo, v, num, inode, name, own, file_type);
            &&& name_added(geo, v, num, inode, w, kept, name, own)
            &&& has_type(w, kept, name, file_type)
        }),
{
    let total = inode.size as int / geo.bs();
    match place_for(geo, v, inode, record_size(name.len() as int), 0, total) {
        Ok(Some(_)) => {
            lemma_entry_put(geo, v, num, inode, name, own, file_type);
        },
        _ => {
            lemma_entry_appended(geo, v, num, inode, name, own, file_type);
        },
    }
}

/// Two volumes have the same in every block that a file can have.
pub open spec fn files_same(geo: Geometry, v: Volume, w: Volume) -> bool {
    &&& same_layout(v, w)
    &&& forall|x: int| #[trigger] is_meta(geo, w, x) == is_meta(geo, v, x)
    &&& forall|x: int| #[trigger] in_use(geo, v, x) ==> in_use(geo, w, x)
    &&& forall|x: int|
        #![trigger w.blocks[x]]
        is_file_block(geo, v, x) ==> w.blocks[x] == v.blocks[x]
}

/// A directory is as it was where the blocks of files are.
proof fn lemma_dir_same(geo: Geometry, v: Volume, w: Volume, inode: DiskInode)
    requires
        sound_dir(geo, v, inode),
        files_same(geo, v, w),
    ensures
        sound_dir(geo, w, inode),
        forall|name: Seq<u8>| #[trigger]
            looked_up(geo, w, inode, name, 0) == looked_up(geo, v, inode, name, 0),
{
    lemma_sound_after(geo, v, w, inode);
    assert forall|i: int| 0 <= i < 12 && (#[trigger] inode.data.direct[i])
        != 0 implies w.blocks[inode.data.direct[i] as int]
        == v.blocks[inode.data.direct[i] as int] by {
        lemma_direct(geo, v, inode, i);
    }
    assert forall|name: Seq<u8>| #[trigger] looked_up(geo, w, inode, name, 0) == looked_up(
        geo,
        v,
        inode,
        name,
        0,
    ) by {
        lemma_same_names(geo, v, w, inode, inode, name, 0);
    }
}

/// Storing an inode leaves the blocks of files alone.
proof fn lemma_files_after_storing(geo: Geometry, v: Volume, num: u32, inode: DiskInode)
    requires
        laid_out(geo, v),
        with_stored(geo, v, num, inode) is Some,
    ensures
        ({
            let w = with_stored(geo, v, num, inode)->0;
            &&& laid_out(geo, w)
            &&& files_same(geo, v, w)
            &&& stored_inode(geo, w, num) == Some(inode)
            &&& forall|n: u32|
                n != num ==> #[trigger] stored_inode(geo, w, n) == stored_inode(geo, v, n)
        }),
{
    let w = with_stored(geo, v, num, inode)->0;
    let (place, at) = inode_place(geo, v, num)->0;
    assert(own_inode_block(geo, v, num));
    assert(holds_inode(geo, v, num, place));
    assert(is_meta(geo, v, place));
    lemma_layout_after_storing(geo, v, num, inode);
    assert forall|n: u32| n != num implies #[trigger] stored_inode(geo, w, n) == stored_inode(
        geo,
        v,
        n,
    ) by {
        law_stored_inode_reads_back(geo, v, num, inode, n);
        assert(own_inode_block(geo, v, n));
        assert(inodes_apart(geo, v, n, num));
        assert(lies_apart(geo, v, n, place, at));
    }
    law_stored_inode_reads_back(geo, v, num, inode, num);
}

/// A file that has been made in a sound directory is found there under its name,
/// as a file and with the inode that it was made with, and every other name leads where it led
/// before. The directory has its records in its direct blocks, which are the
/// ones that are searched.
pub proof fn law_created_file_is_looked_up(
    geo: Geometry,
    v: Volume,
    num: u32,
    inode: DiskInode,
    name: Seq<u8>,
    owner: u32,
    now: u32,
    sought: Seq<u8>,
)
    requires
        laid_out(geo, v),
        sound_dir(geo, v, inode),
        inode.size as int / geo.bs() < 12,
        marked(geo, v, Bitmap::Inodes, num as int),
        file_created(geo, v, num, inode, name, owner, now).0 is Ok,
    ensures
        ({
            let (r, after, kept) = file_created(geo, v, num, inode, name, owner, now);
            &&& child_of(geo, after, kept, name) == r
            &&& has_type(after, kept, name, 1)
            &&& sought != name ==> looked_up(geo, after, kept, sought, 0) == looked_up(
                geo,
                v,
                inode,
                sought,
                0,
            )
        }),
{
    let (fresh, v1) = taken(geo, v, Bitmap::Inodes, false);
    let own = fresh->0;
    let child = file_inode(owner as u16, now);
    let v2 = with_stored(geo, v1, own, child)->0;
    lemma_taken_kind(geo, v, Bitmap::Inodes, false);
    assert(own != num);
    assert(files_same(geo, v, v1)) by {
        assert forall|x: int| #[trigger] in_use(geo, v, x) implies in_use(geo, v1, x) by {
            assert(marked(geo, v, Bitmap::Blocks, x));
        }
    }
    lemma_dir_same(geo, v, v1, inode);
    lemma_files_after_storing(geo, v1, own, child);
    lemma_dir_same(geo, v1, v2, inode);
    assert(looked_up(geo, v2, inode, name, 0) == looked_up(geo, v1, inode, name, 0));
    lemma_entry_added(geo, v2, num, inode, name, own, 1);
    let (_, after, kept) = entry_added(geo, v2, num, inode, name, own, 1);
    assert(stored_inode(geo, after, own) == stored_inode(geo, v2, own));
    if sought != name {
        assert(looked_up(geo, after, kept, sought, 0) == looked_up(geo, v2, inode, sought, 0));
        assert(looked_up(geo, v2, inode, sought, 0) == looked_up(geo, v1, inode, sought, 0));
    }
}

/// The volume with the block and the inode of a new directory, before it has a
/// name.
pub open spec fn dir_prepared(geo: Geometry, v: Volume, num: u32, owner: u32, now: u32) -> (
    u32,
    DiskInode,
    Volume,
) {
    let (fresh, v) = taken(geo, v, Bitmap::Inodes, true);
    let own = fresh->0;
    let (block, v) = taken(geo, v, Bitmap::Blocks, false);
    let v = v.with_block(block->0 as int, dir_block(geo, own, num));
    let child = dir_inode(geo, owner as u16, now, block->0);
    (own, child, with_stored(geo, v, own, child)->0)
}

proof fn lemma_dir_prepared(
    geo: Geometry,
    v: Volume,
    num: u32,
    inode: DiskInode,
    name: Seq<u8>,
    owner: u32,
    now: u32,
)
    requires
        laid_out(geo, v),
        sound_dir(geo, v, inode),
        marked(geo, v, Bitmap::Inodes, num as int),
        dir_created(geo, v, num, inode, name, owner, now).0 is Ok,
    ensures
        ({
            let (own, child, w) = dir_prepared(geo, v, num, owner, now);
            &&& own != 0
            &&& own != num
            &&& laid_out(geo, w)
            &&& sound_dir(geo, w, inode)
            &&& stored_inode(geo, w, own) == Some(child)
            &&& forall|sought: Seq<u8>| #[trigger]
                looked_up(geo, w, inode, sought, 0) == looked_up(geo, v, inode, sought, 0)
        }),
{
    let (fresh, v1) = taken(geo, v, Bitmap::Inodes, true);
    let own = fresh->0;
    let (block, v2) = taken(geo, v1, Bitmap::Blocks, false);
    let b = block->0;
    let data = dir_block(geo, own, num);
    let v3 = v2.with_block(b as int, data);
    let child = dir_inode(geo, owner as u16, now, b);
    let v4 = with_stored(geo, v3, own, child)->0;
    lemma_taken_kind(geo, v, Bitmap::Inodes, true);
    assert(own != num);
    assert(files_same(geo, v, v1)) by {
        assert forall|x: int| #[trigger] in_use(geo, v, x) implies in_use(geo, v1, x) by {
            assert(marked(geo, v, Bitmap::Blocks, x));
        }
    }
    lemma_dir_same(geo, v, v1, inode);
    lemma_taken(geo, v1);
    assert(data.len() == geo.bs()) by {
        reveal(with_words);
    }
    assert(is_meta(geo, v2, b as int) == is_meta(geo, v1, b as int));
    lemma_block_written(geo, v2, b, data);
    assert(files_same(geo, v1, v3)) by {
        assert forall|x: int| #[trigger] is_meta(geo, v3, x) == is_meta(geo, v1, x) by {
            assert(is_meta(geo, v2, x) == is_meta(geo, v1, x));
        }
        assert forall|x: int| #[trigger] in_use(geo, v1, x) implies in_use(geo, v3, x) by {
            assert(in_use(geo, v2, x));
            assert(in_use(geo, v3, x) == in_use(geo, v2, x));
        }
        assert(v3.groups == v2.groups);
        assert forall|x: int|
            #![trigger v3.blocks[x]]
            is_file_block(geo, v1, x) implies v3.blocks[x] == v1.blocks[x] by {
            assert(x != b);
            assert(v2.blocks[x] == v1.blocks[x]);
        }
    }
    lemma_dir_same(geo, v1, v3, inode);
    lemma_files_after_storing(geo, v3, own, child);
    lemma_dir_same(geo, v3, v4, inode);
    assert forall|sought: Seq<u8>| #[trigger] looked_up(geo, v4, inode, sought, 0) == looked_up(
        geo,
        v,
        inode,
        sought,
        0,
    ) by {
        assert(looked_up(geo, v3, inode, sought, 0) == looked_up(geo, v1, inode, sought, 0));
    }
}

/// A directory that has been made in a sound directory is found there under its
/// name, as a directory and with the inode that it was made with, and every other name leads where
/// it led before.
pub proof fn law_created_directory_is_looked_up(
    geo: Geometry,
    v: Volume,
    num: u32,
    inode: DiskInode,
    name: Seq<u8>,
    owner: u32,
    now: u32,
    sought: Seq<u8>,
)
    requires
        laid_out(geo, v),
        sound_dir(geo, v, inode),
        inode.size as int / geo.bs() < 12,
        marked(geo, v, Bitmap::Inodes, num as int),
        dir_created(geo, v, num, inode, name, owner, now).0 is Ok,
    ensures
        ({
            let (r, after, kept) = dir_created(geo, v, num, inode, name, owner, now);
            &&& child_of(geo, after, kept, name) == r
            &&& has_type(after, kept, name, 2)
            &&& sought != name ==> looked_up(geo, after, kept, sought, 0) == looked_up(
                geo,
                v,
                inode,
                sought,
                0,
            )
        }),
{
    let (own, child, w) = dir_prepared(geo, v, num, owner, now);
    lemma_dir_prepared(geo, v, num, inode, name, owner, now);
    assert(looked_up(geo, w, inode, name, 0) == looked_up(geo, v, inode, name, 0));
    lemma_entry_added(geo, w, num, inode, name, own, 2);
    lemma_entry_blocks(geo, w, num, inode, name, own, 2);
    let (_, listed, grown) = entry_added(geo, w, num, inode, name, own, 2);
    let kept = one_more_link(grown);
    let after = with_stored(geo, listed, num, kept)->0;
    lemma_files_after_storing(geo, listed, num, kept);
    lemma_layout_after_storing(geo, listed, num, kept);
    assert(stored_inode(geo, after, own) == stored_inode(geo, listed, own));
    assert(stored_inode(geo, listed, own) == stored_inode(geo, w, own));
    assert(same_names(listed, after, grown, kept, 0, 12));
    let i = choose|i: int| is_typed(listed, grown, i, name, 2);
    assert(after.blocks[grown.data.direct[i] as int] == listed.blocks[grown.data.direct[i] as int]);
    assert(is_typed(after, kept, i, name, 2));
    lemma_same_names(geo, listed, after, grown, kept, name, 0);
    lemma_same_names(geo, listed, after, grown, kept, sought, 0);
    if sought != name {
        assert(looked_up(geo, listed, grown, sought, 0) == looked_up(geo, w, inode, sought, 0));
    }
}

/// The direct blocks of a directory with a new name are blocks that a file can
/// have.
proof fn lemma_entry_blocks(
    geo: Geometry,
    v: Volume,
    num: u32,
    inode: DiskInode,
    name: Seq<u8>,
    own: u32,
    file_type: u8,
)
    requires
        laid_out(geo, v),
        sound_dir(geo, v, inode),
        inode.size as int / geo.bs() < 12,
        entry_added(geo, v, num, inode, name, own, file_type).0 is Ok,
    ensures
        ({
            let (_, w, kept) = entry_added(geo, v, num, inode, name, own, file_type);
            forall|i: int|
                0 <= i < 12 && (#[trigger] kept.data.direct[i]) != 0 ==> !is_meta(
                    geo,
                    w,
                    kept.data.direct[i] as int,
                ) && kept.data.direct[i] < w.blocks.len()
        }),
{
    let (_, w, kept) = entry_added(geo, v, num, inode, name, own, file_type);
    let total = inode.size as int / geo.bs();
    let needed = record_size(name.len() as int);
    match place_for(geo, v, inode, needed, 0, total) {
        Ok(Some((block, at))) => {
            let direct = lemma_place_is_direct(geo, v, inode, needed, 0, total);
            lemma_place_has_room(geo, v, inode, needed, 0, total);
            lemma_direct(geo, v, inode, direct);
            let changed = with_entry(v.blocks[block as int], at, name, own, file_type);
            assert(changed.len() == geo.bs()) by {
                reveal(with_words);
            }
            lemma_block_written(geo, v, block, changed);
            assert forall|i: int| 0 <= i < 12 && (#[trigger] kept.data.direct[i])
                != 0 implies !is_meta(geo, w, kept.data.direct[i] as int) && kept.data.direct[i]
                < w.blocks.len() by {
                lemma_direct(geo, v, inode, i);
                assert(is_meta(geo, w, kept.data.direct[i] as int) == is_meta(
                    geo,
                    v,
                    kept.data.direct[i] as int,
                ));
            }
        },
        _ => {
            let (fresh, taken_volume) = taken(geo, v, Bitmap::Blocks, false);
            let b = fresh->0;
            let data = block_of_entry(geo, name, own, file_type);
            let filled = taken_volume.with_block(b as int, data);
            assert(path_of(geo, total) == Some((0nat, seq![total])));
            lemma_taken(geo, v);
            assert(data.len() == geo.bs()) by {
                reveal(with_words);
            }
            assert(is_meta(geo, taken_volume, b as int) == is_meta(geo, v, b as int));
            lemma_block_written(geo, taken_volume, b, data);
            lemma_layout_after_storing(geo, filled, num, kept);
            assert forall|i: int| 0 <= i < 12 && (#[trigger] kept.data.direct[i])
                != 0 implies !is_meta(geo, w, kept.data.direct[i] as int) && kept.data.direct[i]
                < w.blocks.len() by {
                let x = kept.data.direct[i] as int;
                assert(is_meta(geo, w, x) == is_meta(geo, filled, x));
                assert(is_meta(geo, filled, x) == is_meta(geo, taken_volume, x));
                assert(is_meta(geo, taken_volume, x) == is_meta(geo, v, x));
                if i != total {
                    lemma_direct(geo, v, inode, i);
                }
            }
        },
    }
}

/// Giving things back changed nothing but what the volume is managed by.
pub open spec fn only_meta_changed(geo: Geometry, v: Volume, w: Volume) -> bool {
    &&& w.wf(geo)
    &&& same_layout(v, w)
    &&& forall|x: int|
        #![trigger w.blocks[x]]
        0 <= x < v.blocks.len() && !is_meta(geo, v, x) ==> w.blocks[x] == v.blocks[x]
}

/// The bitmaps of all groups exist.
pub open spec fn has_bitmaps(v: Volume) -> bool {
    forall|g: int, kind: Bitmap|
        0 <= g < v.groups.len() ==> 0 < #[trigger] bitmap_of(v.groups[g], kind) < v.blocks.len()
}

proof fn lemma_released(geo: Geometry, v: Volume, kind: Bitmap, number: int, is_dir: bool)
    requires
        v.wf(geo),
        has_bitmaps(v),
        number >= number_of(geo, kind, 0, 0),
        released(geo, v, kind, number, is_dir) is Some,
    ensures
        ({
            let w = released(geo, v, kind, number, is_dir)->0;
            &&& only_meta_changed(geo, v, w)
            &&& has_bitmaps(w)
        }),
{
    let w = released(geo, v, kind, number, is_dir)->0;
    let (g, i) = place_of(geo, kind, number);
    let per = per_group(geo, kind);
    let from = number_of(geo, kind, 0, 0);
    assert(0 * per == 0);
    assert((number - from) / per >= 0) by (nonlinear_arith)
        requires
            number >= from,
            per > 0,
    ;
    assert(0 <= g < v.groups.len());
    let m = bitmap_of(v.groups[g], kind) as int;
    let table = geo.group_block(g);
    reveal(with_words);
    assert(0 < m < v.blocks.len());
    assert(content(geo, v, m) == Some(v.blocks[m]));
    assert(serves_group(geo, v, g, table));
    assert(serves_group(geo, v, g, m));
    assert forall|x: int|
        #![trigger w.blocks[x]]
        0 <= x < v.blocks.len() && !is_meta(geo, v, x) implies w.blocks[x] == v.blocks[x] by {
        assert(x != table && x != m && x != geo.super_block());
    }
    assert forall|h: int, k: Bitmap| 0 <= h < w.groups.len() implies 0 < #[trigger] bitmap_of(
        w.groups[h],
        k,
    ) < w.blocks.len() by {
        assert(0 < bitmap_of(v.groups[h], k) < v.blocks.len());
    }
    assert forall|x: int| 0 <= x < w.blocks.len() implies (#[trigger] w.blocks[x]).len()
        == geo.bs() by {
        assert(v.blocks[x].len() == geo.bs());
    }
}

/// `only_meta_changed` twice over.
proof fn lemma_only_meta_twice(geo: Geometry, u: Volume, v: Volume, w: Volume)
    requires
        geo.wf(),
        only_meta_changed(geo, u, v),
        only_meta_changed(geo, v, w),
    ensures
        only_meta_changed(geo, u, w),
{
    lemma_same_layout(geo, u, v);
    assert forall|x: int|
        #![trigger w.blocks[x]]
        0 <= x < u.blocks.len() && !is_meta(geo, u, x) implies w.blocks[x] == u.blocks[x] by {
        assert(is_meta(geo, v, x) == is_meta(geo, u, x));
        assert(v.blocks[x] == u.blocks[x]);
    }
    assert(same_layout(u, w)) by {
        assert forall|g: int| 0 <= g < u.groups.len() implies (#[trigger] w.groups[g]).block_bitmap
            == u.groups[g].block_bitmap && w.groups[g].inode_bitmap == u.groups[g].inode_bitmap
            && w.groups[g].inode_table == u.groups[g].inode_table by {
            assert(v.groups[g].block_bitmap == u.groups[g].block_bitmap);
        }
    }
}

/// The volume has changed from `u` on in what it is managed by alone.
pub open spec fn still_same(geo: Geometry, u: Volume, v: Volume) -> bool {
    only_meta_changed(geo, u, v) && has_bitmaps(v)
}

proof fn lemma_block_released(geo: Geometry, u: Volume, v: Volume, block: u32)
    requires
        still_same(geo, u, v),
        block_released(geo, v, block) is Some,
    ensures
        still_same(geo, u, block_released(geo, v, block)->0),
{
    if block != 0 {
        lemma_released(geo, v, Bitmap::Blocks, block as int, false);
        lemma_only_meta_twice(geo, u, v, block_released(geo, v, block)->0);
    }
}

proof fn lemma_each_released(geo: Geometry, u: Volume, v: Volume, blocks: Seq<u32>)
    requires
        still_same(geo, u, v),
    ensures
        still_same(geo, u, each_released(geo, v, blocks)),
    decreases blocks.len(),
{
    if blocks.len() > 0 {
        lemma_each_released(geo, u, v, blocks.drop_last());
        let before = each_released(geo, v, blocks.drop_last());
        if block_released(geo, before, blocks.last()) is Some {
            lemma_block_released(geo, u, before, blocks.last());
        }
    }
}

proof fn lemma_data_released(geo: Geometry, u: Volume, v: Volume, inode: DiskInode, idx: int)
    requires
        still_same(geo, u, v),
    ensures
        still_same(geo, u, data_released(geo, v, inode, idx).1),
    decreases inode.size as int / geo.bs() - idx,
{
    if idx < inode.size as int / geo.bs() {
        match resolved(geo, v, inode, idx) {
            Some(block) => {
                if block_released(geo, v, block) is Some {
                    lemma_block_released(geo, u, v, block);
                    lemma_data_released(
                        geo,
                        u,
                        block_released(geo, v, block)->0,
                        inode,
                        idx + 1,
                    );
                }
            },
            None => {
                lemma_data_released(geo, u, v, inode, idx + 1);
            },
        }
    }
}

proof fn lemma_file_released(geo: Geometry, u: Volume, v: Volume, inode: DiskInode)
    requires
        still_same(geo, u, v),
        file_released(geo, v, inode).0 is Ok,
    ensures
        still_same(geo, u, file_released(geo, v, inode).1),
{
    lemma_data_released(geo, u, v, inode, 0);
    let a = data_released(geo, v, inode, 0).1;
    lemma_block_released(geo, u, a, inode.data.single_indirect);
    let b = block_released(geo, a, inode.data.single_indirect)->0;
    let double = inode.data.double_indirect;
    lemma_each_released(geo, u, b, pointers_of(geo, b, double));
    let c = if double == 0 {
        b
    } else {
        each_released(geo, b, pointers_of(geo, b, double))
    };
    lemma_block_released(geo, u, c, double);
    let d = block_released(geo, c, double)->0;
    let triple = inode.data.triple_indirect;
    let outer = pointers_of(geo, d, triple);
    let inner = pointers_of_all(geo, d, outer);
    lemma_each_released(geo, u, d, inner);
    lemma_each_released(geo, u, each_released(geo, d, inner), outer);
    let e = if triple == 0 {
        d
    } else {
        each_released(geo, each_released(geo, d, inner), outer)
    };
    lemma_block_released(geo, u, e, triple);
}

/// What becomes of the thing itself when its name is removed concerns no
/// directory.
proof fn lemma_dropped(geo: Geometry, v: Volume, num: u32, child: DiskInode)
    requires
        laid_out(geo, v),
        dropped(geo, v, num, child).0 is Ok,
    ensures
        only_meta_changed(geo, v, dropped(geo, v, num, child).1),
{
    if child.links_count > 0 {
        lemma_layout_after_storing(geo, v, num, child);
    } else {
        assert(has_bitmaps(v)) by {
            assert forall|g: int, kind: Bitmap| 0 <= g < v.groups.len() implies 0
                < #[trigger] bitmap_of(v.groups[g], kind) < v.blocks.len() by {
                assert(own_bitmap(geo, v, kind, g));
            }
        }
        lemma_file_released(geo, v, v, child);
        let w = file_released(geo, v, child).1;
        lemma_released(geo, w, Bitmap::Inodes, num as int, is_directory(child));
        lemma_only_meta_twice(geo, v, w, dropped(geo, v, num, child).1);
    }
}

proof fn lemma_found_with_previous(data: Seq<u8>, at: int, previous: Option<int>, name: Seq<u8>)
    ensures
        match find_name(data, at, name) {
            Some(found) => find_with_previous(data, at, previous, name) matches Some((gone, _))
                && gone == found,
            None => find_with_previous(data, at, previous, name) is None,
        },
    decreases left(data, at),
{
    if has_record(data, at) && !names(data, at, name) {
        lemma_found_with_previous(
            data,
            at + header_of(data, at).record_length,
            Some(at),
            name,
        );
    }
}

/// A name stands in the direct blocks of a directory at most once.
pub open spec fn stands_once(v: Volume, inode: DiskInode, name: Seq<u8>) -> bool {
    &&& forall|i: int, j: int|
        {
            &&& 0 <= i < 12 && 0 <= j < 12
            &&& #[trigger] has_name(v, inode, i, name)
            &&& #[trigger] has_name(v, inode, j, name)
        } ==> i == j
    &&& forall|i: int|
        0 <= i < 12 && #[trigger] has_name(v, inode, i, name) ==> {
            let data = v.blocks[inode.data.direct[i] as int];
            let at = find_name(data, 0, name)->0;
            find_name(data, at + header_of(data, at).record_length, name) is None
        }
}

/// A name stands in a direct block of a directory.
pub open spec fn has_name(v: Volume, inode: DiskInode, i: int, name: Seq<u8>) -> bool {
    inode.data.direct[i] != 0 && find_name(
        v.blocks[inode.data.direct[i] as int],
        0,
        name,
    ) is Some
}

/// The record that is removed stood in the direct block that has the name.
proof fn lemma_removed_direct(
    geo: Geometry,
    v: Volume,
    inode: DiskInode,
    name: Seq<u8>,
    idx: int,
) -> (i: int)
    requires
        0 <= idx,
        inode.size as int / geo.bs() <= 12,
        entry_removed(geo, v, inode, name, idx) is Some,
    ensures
        0 <= i < 12,
        0 < inode.data.direct[i] < v.blocks.len(),
        has_name(v, inode, i, name),
        ({
            let block = inode.data.direct[i] as int;
            let (gone, before) = find_with_previous(v.blocks[block], 0, None, name)->0;
            &&& find_with_previous(v.blocks[block], 0, None, name) is Some
            &&& entry_removed(geo, v, inode, name, idx) == Some(
                v.with_block(block, without_entry(v.blocks[block], gone, before)),
            )
        }),
    decreases inode.size as int / geo.bs() - idx,
{
    assert(path_of(geo, idx) == Some((0nat, seq![idx])));
    let block = inode.data.direct[idx];
    assert(resolved(geo, v, inode, idx) == Some(block));
    if block == 0 {
        lemma_removed_direct(geo, v, inode, name, idx + 1)
    } else {
        lemma_found_with_previous(v.blocks[block as int], 0, None, name);
        if find_with_previous(v.blocks[block as int], 0, None, name) is Some {
            idx
        } else {
            lemma_removed_direct(geo, v, inode, name, idx + 1)
        }
    }
}

/// A name that has been unlinked from a sound directory, where it stood once, is
/// looked up no more, and every other name leads where it led before.
pub proof fn law_unlinked_name_is_gone(
    geo: Geometry,
    v: Volume,
    inode: DiskInode,
    name: Seq<u8>,
    sought: Seq<u8>,
)
    requires
        laid_out(geo, v),
        sound_dir(geo, v, inode),
        inode.size as int / geo.bs() <= 12,
        stands_once(v, inode, name),
        unlinked(geo, v, inode, name).0 is Ok,
    ensures
        ({
            let after = unlinked(geo, v, inode, name).1;
            &&& looked_up(geo, after, inode, name, 0) == Ok::<Option<u32>, ()>(None)
            &&& sought != name ==> looked_up(geo, after, inode, sought, 0) == looked_up(
                geo,
                v,
                inode,
                sought,
                0,
            )
        }),
{
    let after = unlinked(geo, v, inode, name).1;
    let i = lemma_removed_direct(geo, v, inode, name, 0);
    let block = inode.data.direct[i];
    let data = v.blocks[block as int];
    lemma_found_with_previous(data, 0, None, name);
    let (gone, before) = find_with_previous(data, 0, None, name)->0;
    let changed = without_entry(data, gone, before);
    let w = v.with_block(block as int, changed);
    lemma_direct(geo, v, inode, i);
    assert forall|j: int|
        0 <= j < 12 && inode.data.direct[j] != 0 && inode.data.direct[j] != block implies (
    #[trigger] inode.data.direct[j]) < v.blocks.len() && find_name(
        v.blocks[inode.data.direct[j] as int],
        0,
        name,
    ) is None by {
        lemma_direct(geo, v, inode, j);
        if has_name(v, inode, j, name) {
            assert(has_name(v, inode, i, name));
            assert(i == j);
        }
    }
    law_removed_name_is_not_looked_up(geo, v, inode, name, block, sought);
    assert(changed.len() == geo.bs()) by {
        reveal(with_words);
    }
    lemma_block_written(geo, v, block, changed);
    let num = (looked_up(geo, v, inode, name, 0)->Ok_0)->0;
    let child = stored_inode(geo, v, num)->0;
    let less = DiskInode {
        links_count: if child.links_count > 0 {
            (child.links_count - 1) as u16
        } else {
            0
        },
        ..child
    };
    lemma_dropped(geo, w, num, less);
    assert(same_names(w, after, inode, inode, 0, 12)) by {
        assert forall|j: int| 0 <= j < 12 && (#[trigger] inode.data.direct[j])
            != 0 implies after.blocks[inode.data.direct[j] as int]
            == w.blocks[inode.data.direct[j] as int] by {
            lemma_direct(geo, v, inode, j);
            assert(is_meta(geo, w, inode.data.direct[j] as int) == is_meta(
                geo,
                v,
                inode.data.direct[j] as int,
            ));
        }
    }
    lemma_same_names(geo, w, after, inode, inode, name, 0);
    lemma_same_names(geo, w, after, inode, inode, sought, 0);
}

} // verus!
