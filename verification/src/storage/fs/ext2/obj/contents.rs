//! What a file holds after it has been made, written, read or given another
//! size.

use crate::hal::mmu::pager::Tables;
use crate::memory::vmo::{present, PagedBackingStore};
use crate::object::invoke::InvocationError;
use crate::storage::fs::ext2::laws::law_stored_inode_reads_back;
use crate::storage::fs::ext2::obj::dir::{
    create_fault, dir_created, dropped, file_created, one_link_less, request_fault,
};
use crate::storage::fs::ext2::obj::file::{
    law_written_bytes_are_read_back, page_start, was_read, was_truncated, was_written, Ext2File,
};
use crate::storage::fs::ext2::obj::listing::{stat_of, ObjectType};
use crate::storage::fs::ext2::structs::DiskInode;
use crate::storage::fs::ext2::volume::{
    inode_place, looked_up, page_block, page_blocks, resolved, stored_inode, Geometry, Volume,
};
use vstd::prelude::*;

verus! {

/// A write takes all of its bytes, and a read from the same place after it
/// gives them back, whatever has become of the volume and of other pages in
/// between.
pub proof fn law_read_follows_the_write(
    before: Ext2File,
    written: Ext2File,
    read: Ext2File,
    geo: Geometry,
    v: Volume,
    v_written: Volume,
    later: Volume,
    reliable: bool,
    capacity: nat,
    m: Tables,
    m_written: Tables,
    m_read: Tables,
    offset: u64,
    data: Seq<u8>,
    count: u64,
    bytes: Seq<u8>,
)
    requires
        was_written(
            before,
            written,
            geo,
            v,
            v_written,
            reliable,
            capacity,
            m,
            m_written,
            offset,
            data,
            Ok(count),
        ),
        was_read(
            written,
            read,
            geo,
            later,
            reliable,
            capacity,
            m_written,
            m_read,
            offset,
            data.len() as u64,
            Ok(bytes),
        ),
        data.len() <= u64::MAX,
    ensures
        count == data.len(),
        bytes == data,
{
    if data.len() > 0 {
        law_written_bytes_are_read_back(
            before.sized(written.inode_data.size),
            m,
            written,
            m_written,
            geo,
            v,
            later,
            offset,
            data,
            bytes,
        );
    } else {
        assert(bytes =~= data);
    }
}

/// A file that is written is as long as it was, or long enough for what is
/// written, whichever is more; nothing else in its inode changes. A file that
/// would be too long stays as it is.
pub proof fn law_written_file_is_long_enough(
    before: Ext2File,
    after: Ext2File,
    geo: Geometry,
    v: Volume,
    v_after: Volume,
    reliable: bool,
    capacity: nat,
    m: Tables,
    m_after: Tables,
    offset: u64,
    data: Seq<u8>,
    r: Result<u64, InvocationError>,
)
    requires
        was_written(before, after, geo, v, v_after, reliable, capacity, m, m_after, offset, data, r),
        data.len() > 0,
    ensures
        offset + data.len() <= u32::MAX ==> {
            &&& offset + data.len() <= before.inode_data.size ==> after.inode_data.size
                == before.inode_data.size
            &&& offset + data.len() > before.inode_data.size ==> after.inode_data.size == offset
                + data.len()
            &&& after.inode_data == (DiskInode { size: after.inode_data.size, ..before.inode_data })
        },
        offset + data.len() > u32::MAX ==> {
            &&& r == Err::<u64, InvocationError>(InvocationError::InvalidArgument)
            &&& after == before
            &&& v_after == v
        },
        after.inode_num == before.inode_num,
{
}

proof fn lemma_same_blocks(
    geo: Geometry,
    v: Volume,
    a: DiskInode,
    b: DiskInode,
    offset: int,
    n: int,
)
    requires
        v.wf(geo),
        a.data == b.data,
    ensures
        page_blocks(geo, v, a, offset, n) == page_blocks(geo, v, b, offset, n),
        n >= 0 ==> (page_blocks(geo, v, a, offset, n) matches Some(page) ==> page.len() == n
            * geo.bs()),
    decreases n,
{
    if n > 0 {
        lemma_same_blocks(geo, v, a, b, offset, n - 1);
        let idx = offset / geo.bs() + n - 1;
        assert(resolved(geo, v, a, idx) == resolved(geo, v, b, idx));
        assert(page_block(geo, v, a, offset, n - 1) == page_block(geo, v, b, offset, n - 1));
        assert((n - 1) * geo.bs() + geo.bs() == n * geo.bs()) by (nonlinear_arith);
    }
}

/// What is not written over stays: every byte of the file outside of what is
/// written is what it was.
pub proof fn law_write_leaves_the_rest(
    before: Ext2File,
    after: Ext2File,
    geo: Geometry,
    v: Volume,
    v_after: Volume,
    reliable: bool,
    capacity: nat,
    m: Tables,
    m_after: Tables,
    offset: u64,
    data: Seq<u8>,
    count: u64,
    at: int,
    byte: u8,
)
    requires
        v.wf(geo),
        was_written(
            before,
            after,
            geo,
            v,
            v_after,
            reliable,
            capacity,
            m,
            m_after,
            offset,
            data,
            Ok(count),
        ),
        0 <= at < before.inode_data.size,
        at < offset || offset + data.len() <= at,
        before.has_byte(geo, v, m, at, byte),
    ensures
        after.has_byte(geo, v, m_after, at, byte),
{
    if data.len() > 0 {
        let start = page_start(at);
        let grown = before.sized(after.inode_data.size);
        assert(start as int % 4096 == 0 && start + at % 4096 == at);
        lemma_same_blocks(
            geo,
            v,
            before.inode_data,
            grown.inode_data,
            start as int,
            4096int / geo.bs(),
        );
        let bs = geo.bs();
        assert(4096int / bs * bs == 4096) by (nonlinear_arith)
            requires
                bs == 1024 || bs == 2048 || bs == 4096,
        ;
        assert(grown.has_byte(geo, v, m, at, byte));
        assert(after.page(geo, v, m_after, start) is Some);
    }
}

/// A read gives as many bytes as are asked for and the file has, none from its
/// end on, and each of them is the one that the file has there. The file is
/// what it was.
pub proof fn law_read_gives_what_is_there(
    before: Ext2File,
    after: Ext2File,
    geo: Geometry,
    v: Volume,
    reliable: bool,
    capacity: nat,
    m: Tables,
    m_after: Tables,
    offset: u64,
    len: u64,
    bytes: Seq<u8>,
    k: int,
    byte: u8,
)
    requires
        was_read(before, after, geo, v, reliable, capacity, m, m_after, offset, len, Ok(bytes)),
    ensures
        offset + len <= before.inode_data.size ==> bytes.len() == len,
        offset < before.inode_data.size < offset + len ==> offset + bytes.len()
            == before.inode_data.size,
        before.inode_data.size <= offset ==> bytes.len() == 0,
        0 <= k < bytes.len() && before.has_byte(geo, v, m, offset + k, byte) ==> bytes[k] == byte,
        after.inode_data == before.inode_data,
        0 <= k && before.has_byte(geo, v, m, offset + k, byte) ==> after.has_byte(
            geo,
            v,
            m_after,
            offset + k,
            byte,
        ),
{
    if 0 <= k < bytes.len() {
        assert(before.has_byte(geo, v, m, offset + k, bytes[k]));
    }
    assert(after.page(geo, v, m_after, page_start(offset + k)) == before.page(
        geo,
        v,
        m,
        page_start(offset + k),
    ));
}

/// A file that is given another size has it, if a file can be that long. The
/// pages before its new end stay in memory, and those from there on go.
pub proof fn law_truncated_file_has_its_size(
    before: Ext2File,
    after: Ext2File,
    geo: Geometry,
    v: Volume,
    v_after: Volume,
    reliable: bool,
    new_size: u64,
    r: Result<(), InvocationError>,
    k: u64,
)
    requires
        was_truncated(before, after, geo, v, v_after, reliable, new_size, r),
    ensures
        r is Ok ==> new_size <= u32::MAX && after.inode_data.size == new_size,
        r is Ok && k as int % 4096 == 0 && k < new_size && k < before.inode_data.size ==> present(
            after.file_vmo.frames(),
            k,
        ) == present(before.file_vmo.frames(), k),
        r is Ok && new_size < before.inode_data.size && k >= new_size ==> present(
            after.file_vmo.frames(),
            k,
        ) is None,
        r is Err ==> after == before,
        new_size > u32::MAX ==> r == Err::<(), InvocationError>(InvocationError::InvalidArgument),
{
}

/// Something new can be made under a name if the name is not taken, is neither
/// empty nor too long, has no slash in it and is neither that of the directory
/// itself nor that of its parent, and if the owner's number fits in an inode.
pub proof fn law_new_names_are_free(
    geo: Geometry,
    v: Volume,
    inode: DiskInode,
    name: Seq<u8>,
    owner: u32,
)
    ensures
        create_fault(geo, v, inode, name, owner) is None <==> {
            &&& 1 <= name.len() <= 254
            &&& forall|i: int| 0 <= i < name.len() ==> #[trigger] name[i] != 0x2F
            &&& name != seq![0x2Eu8]
            &&& name != seq![0x2Eu8, 0x2E]
            &&& owner <= 0xFFFF
            &&& looked_up(geo, v, inode, name, 0) == Ok::<Option<u32>, ()>(None)
        },
        name.len() > 254 ==> create_fault(geo, v, inode, name, owner) == Some(
            InvocationError::NameTooLong,
        ),
        create_fault(geo, v, inode, name, owner) is None ==> request_fault(name, owner) is None,
{
    if name.contains(0x2F) {
        let i = choose|i: int| 0 <= i < name.len() && name[i] == 0x2F;
        assert(name[i] == 0x2F);
    } else {
        assert forall|i: int| 0 <= i < name.len() implies #[trigger] name[i] != 0x2F by {
            assert(name.contains(name[i]));
        }
    }
}

/// A new file is an empty regular one with one name, which belongs to the one
/// it was made for and was made now.
pub proof fn law_new_file_is_empty(
    geo: Geometry,
    v: Volume,
    num: u32,
    inode: DiskInode,
    name: Seq<u8>,
    owner: u32,
    now: u32,
    i: int,
)
    requires
        file_created(geo, v, num, inode, name, owner, now).0 is Ok,
        0 <= i < 12,
    ensures
        ({
            let child = (file_created(geo, v, num, inode, name, owner, now).0->Ok_0).1;
            &&& child.mode == 0x8000 + 0x1A4
            &&& child.uid == owner
            &&& child.size == 0
            &&& child.links_count == 1
            &&& child.blocks == 0
            &&& child.data.direct[i] == 0
            &&& child.data.single_indirect == 0
            &&& child.data.double_indirect == 0
            &&& child.data.triple_indirect == 0
            &&& child.atime == now && child.ctime == now && child.mtime == now && child.dtime == 0
        }),
        create_fault(geo, v, inode, name, owner) is None,
{
}

/// A new directory has one block, and two names: that under which it was made,
/// and its own. It belongs to the one it was made for and was made now. The
/// directory that it is in has a name more, by which the new one knows it.
pub proof fn law_new_directory_has_one_block(
    geo: Geometry,
    v: Volume,
    num: u32,
    inode: DiskInode,
    name: Seq<u8>,
    owner: u32,
    now: u32,
    i: int,
)
    requires
        v.wf(geo),
        dir_created(geo, v, num, inode, name, owner, now).0 is Ok,
        1 <= i < 12,
    ensures
        ({
            let (r, _, parent) = dir_created(geo, v, num, inode, name, owner, now);
            let child = (r->Ok_0).1;
            &&& child.mode == 0x4000 + 0x1ED
            &&& child.uid == owner
            &&& child.size == geo.block_size
            &&& child.links_count == 2
            &&& child.blocks * 512 == geo.block_size
            &&& child.data.direct[i] == 0
            &&& child.data.single_indirect == 0
            &&& child.atime == now && child.ctime == now && child.mtime == now && child.dtime == 0
            &&& inode.links_count < 0xFFFF ==> parent.links_count == inode.links_count + 1
        }),
        create_fault(geo, v, inode, name, owner) is None,
{
}

/// Something that has another name still has its inode after one of its names
/// has been removed, with a link less and otherwise as it was.
pub proof fn law_unlinked_file_keeps_its_other_names(
    geo: Geometry,
    v: Volume,
    num: u32,
    child: DiskInode,
)
    requires
        v.wf(geo),
        child.links_count >= 2,
        dropped(geo, v, num, one_link_less(child)).0 is Ok,
        (inode_place(geo, v, num)->0).0 != 0,
        (inode_place(geo, v, num)->0).1 + 128 <= geo.bs(),
    ensures
        stored_inode(geo, dropped(geo, v, num, one_link_less(child)).1, num) == Some(
            DiskInode { links_count: (child.links_count - 1) as u16, ..child },
        ),
{
    law_stored_inode_reads_back(geo, v, num, one_link_less(child), num);
}

/// What is told of a file is what its inode says.
pub proof fn law_status_tells_the_inode(
    object_type: ObjectType,
    num: u32,
    inode: DiskInode,
    block_size: u32,
)
    ensures
        ({
            let told = stat_of(object_type, num, inode, block_size);
            &&& told.object_type == object_type
            &&& told.inode == num
            &&& told.size == inode.size
            &&& told.mode == inode.mode
            &&& told.user == inode.uid
            &&& told.nlink == inode.links_count
            &&& told.blocks == inode.blocks
            &&& told.block_size == block_size
            &&& told.atime_sec == inode.atime
            &&& told.mtime_sec == inode.mtime
            &&& told.ctime_sec == inode.ctime
        }),
{
}

} // verus!
