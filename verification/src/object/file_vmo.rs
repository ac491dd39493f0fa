//! The memory objects of files as they are handed to processes.

use crate::hal::mmu::pager::{PhysMemory, Tables};
use crate::hal::mmu::FrameAllocator;
use crate::memory::file_pages::{
    fetched, is_step, others_same, read_in, step, was_fetched, VfsNode,
};
use crate::memory::vma::{offsets_fit, USER_SPACE_LIMIT};
use crate::memory::vmm::{PageOps, VirtMemManager};
use crate::memory::vmm2::types::VmoId;
use crate::memory::vmo::{
    frames_of, padded, page_count, present, range_fits, FileVmo, PagedBackingStore,
};
use crate::object::handle::{HandleEntry, HandleID, HandleTable};
use crate::object::invoke::InvocationError;
use crate::object::rights::AccessRights;
use crate::object::vmo::{
    map_answered, map_object, pages_answered, to_reply, value_of, was_resized, VmoObject, VmoReply,
    VmoRequest,
};
use vstd::prelude::*;

verus! {

/// What comes of asking for the page at an offset: its frame, which holds what
/// the file does. A page past the end of the object, one that cannot be read
/// and one that there is no frame for are refused.
pub open spec fn file_page_given<N: VfsNode, A: FrameAllocator>(
    before: FileVmo,
    after: FileVmo,
    node: N,
    alloc: A,
    alloc_after: A,
    memory: Tables,
    memory_after: Tables,
    offset: u64,
    r: Result<u64, InvocationError>,
) -> bool {
    let was = present(before.frames(), offset);
    let size = before.anonymous_vmo.size;
    let readable = node.bytes_at(offset) is Some && alloc.capacity() > 0;
    &&& read_in(before, after, node, memory, memory_after)
    &&& others_same(memory, memory_after, alloc.available())
    &&& r is Ok || node.reliable() || was is Some ==> (r is Ok <==> offset < size && (was is Some
        || readable))
    &&& match r {
        Ok(frame) => {
            &&& present(after.frames(), offset) == Some(frame)
            &&& match was {
                Some(_) => after == before && alloc_after == alloc && memory_after == memory,
                None => {
                    &&& after.frames() == before.frames().insert(offset, frame)
                    &&& alloc.available().contains(frame)
                    &&& alloc_after.available() == alloc.available().remove(frame)
                    &&& alloc_after.capacity() + 1 == alloc.capacity()
                },
            }
        },
        Err(fault) => {
            &&& fault == InvocationError::InvalidArgument
            &&& after == before
            &&& memory_after == memory
            &&& alloc_after.available() == alloc.available()
            &&& alloc_after.capacity() == alloc.capacity()
        },
    }
}

/// What comes of copying a part of the object for the process that asks: its
/// pages are read in as far as they can be, the copy holds what is in memory
/// then, and the process has a handle to it with all rights.
pub open spec fn file_cloned<N: VfsNode, A: FrameAllocator>(
    before: FileVmo,
    after: FileVmo,
    node: N,
    caller: Option<HandleTable>,
    caller_after: Option<HandleTable>,
    alloc: A,
    alloc_after: A,
    memory: Tables,
    memory_after: Tables,
    offset: u64,
    len: u64,
    object: u64,
    id: VmoId,
    r: Result<(HandleID, VmoObject), InvocationError>,
) -> bool {
    let n = page_count(len as int);
    let taken = fetched(before.frames(), after.frames(), offset, n);
    let possible = range_fits(offset, len) && taken + n <= alloc.capacity();
    &&& read_in(before, after, node, memory, memory_after)
    &&& forall|f: u64|
        memory.contains_key(f) && !alloc.available().contains(f) ==> #[trigger] memory_after[f]
            == memory[f]
    &&& forall|k: u64| #[trigger]
        after.frames().contains_key(k) ==> before.frames().contains_key(k) || is_step(k, offset, n)
    &&& !range_fits(offset, len) ==> after == before && memory_after == memory
    &&& range_fits(offset, len) && node.reliable() ==> forall|i: int|
        0 <= i < n && step(offset, i) < before.anonymous_vmo.size ==> (present(
            after.frames(),
            #[trigger] step(offset, i),
        ) is Some <==> was_fetched(
            before.frames(),
            after.frames(),
            node,
            offset,
            i,
            alloc.capacity(),
        ))
    &&& match r {
        Err(fault) => {
            &&& !possible || caller is None
            &&& fault == if possible {
                InvocationError::UnsupportedOperation
            } else {
                InvocationError::InvalidArgument
            }
            &&& caller_after == caller
            &&& alloc_after.available() == alloc.available().difference(frames_of(after.frames()))
            &&& range_fits(offset, len) ==> alloc_after.capacity() + taken == alloc.capacity()
            &&& !range_fits(offset, len) ==> alloc_after.capacity() == alloc.capacity()
        },
        Ok((handle, child)) => {
            &&& possible
            &&& alloc_after.capacity() + taken + n == alloc.capacity()
            &&& caller is Some && caller_after is Some
            &&& handle.0 == caller->0@.len()
            &&& caller_after->0@ == caller->0@.push(
                Some(HandleEntry { object, rights: AccessRights(0x3F) }),
            )
            &&& child.id == id
            &&& child.vmo.holds(alloc_after, memory_after)
            &&& child.vmo.size == len
            &&& child.vmo.dirty_pages@ == padded(Map::empty(), len, false)
            &&& child.vmo.pages@.dom() == padded(Map::empty(), len, false).dom()
            &&& forall|k: u64| #[trigger]
                child.vmo.pages@.contains_key(k) ==> memory_after[child.vmo.pages@[k]]
                    == after.anonymous_vmo.content(offset + k, memory_after)
        },
    }
}

/// The object under the name that mappings know it by, without its file.
pub open spec fn named(vmo: FileVmo, id: VmoId) -> VmoObject {
    VmoObject { vmo: vmo.anonymous_vmo, id }
}

impl FileVmo {
    /// Makes a copy of a part of the object, and gives the process that asks a
    /// handle to it with all rights. `object` and `id` are the numbers that
    /// the copy gets.
    pub fn clone_for<N: VfsNode, A: FrameAllocator>(
        &mut self,
        node: &N,
        offset: u64,
        len: u64,
        caller: &mut Option<HandleTable>,
        object: u64,
        id: VmoId,
        alloc: &mut A,
        memory: &mut PhysMemory,
    ) -> (r: Result<(HandleID, VmoObject), InvocationError>)
        requires
            node.ready(),
            old(self).holds(*old(alloc), old(memory)@),
        ensures
            final(self).holds(*final(alloc), final(memory)@),
            file_cloned(
                *old(self),
                *final(self),
                *node,
                *old(caller),
                *final(caller),
                *old(alloc),
                *final(alloc),
                old(memory)@,
                final(memory)@,
                offset,
                len,
                object,
                id,
                r,
            ),
    {
        let mut child = match self.clone_range(node, offset, len, alloc, memory) {
            Ok(child) => child,
            Err(_) => {
                return Err(InvocationError::InvalidArgument);
            },
        };
        match caller {
            Some(handles) => {
                let handle = handles.insert(object, AccessRights::all());
                Ok((handle, VmoObject { vmo: child, id }))
            },
            None => {
                let ghost frames = frames_of(child.pages@);
                let ghost between = *alloc;
                child.release(alloc, memory);
                proof {
                    let free = old(alloc).available().difference(frames_of(self.frames()));
                    assert(alloc.available() =~= free);
                    assert forall|k: u64| #[trigger]
                        self.anonymous_vmo.pages@.contains_key(k) && self.anonymous_vmo.pages@[k]
                            != 0 implies alloc.accepts(self.anonymous_vmo.pages@[k])
                        && !alloc.available().contains(self.anonymous_vmo.pages@[k]) by {
                        let f = self.anonymous_vmo.pages@[k];
                        assert(between.accepts(f));
                        assert(frames_of(self.frames()).contains(f));
                        assert(!frames.contains(f));
                    }
                }
                Err(InvocationError::UnsupportedOperation)
            },
        }
    }

    /// Answers a request of a process to the memory object of a file, which
    /// mappings know by the name `id`. The handles and the address space of
    /// the process are given where there is one.
    pub fn invoke<N: VfsNode, A: FrameAllocator, P: PageOps>(
        &mut self,
        id: VmoId,
        node: &N,
        request: VmoRequest,
        caller: &mut Option<HandleTable>,
        space: &mut Option<VirtMemManager>,
        alloc: &mut A,
        memory: &mut PhysMemory,
        pages: &mut P,
    ) -> (r: Result<VmoReply, InvocationError>)
        requires
            node.ready(),
            old(self).holds(*old(alloc), old(memory)@),
            *old(space) matches Some(vmm) ==> {
                &&& vmm.wf()
                &&& offsets_fit(vmm@)
                &&& vmm.books().reserved_bytes <= u64::MAX - USER_SPACE_LIMIT
                &&& vmm.books().committed_bytes <= u64::MAX - USER_SPACE_LIMIT
            },
            old(pages).ready(),
        ensures
            final(self).holds(*final(alloc), final(memory)@),
            final(pages).ready(),
            *final(space) matches Some(vmm) ==> vmm.wf(),
            request is MapIntoProc || request is Other ==> *final(self) == *old(self),
            !(request is Clone) ==> *final(caller) == *old(caller),
            !(request is MapIntoProc) ==> *final(space) == *old(space) && *final(pages) == *old(
                pages,
            ),
            !(request is GetPage || request is Clone) ==> final(memory)@ == old(memory)@,
            request is MapIntoProc || request is Other ==> *final(alloc) == *old(alloc),
            !(request is Clone) && r is Ok ==> r->Ok_0 is Value,
            match request {
                VmoRequest::GetPage { offset } => file_page_given(
                    *old(self),
                    *final(self),
                    *node,
                    *old(alloc),
                    *final(alloc),
                    old(memory)@,
                    final(memory)@,
                    offset,
                    value_of(r),
                ),
                VmoRequest::Resize { new_size } => was_resized(
                    named(*old(self), id),
                    named(*final(self), id),
                    *old(alloc),
                    *final(alloc),
                    new_size,
                    value_of(r),
                ),
                VmoRequest::Clone { offset, len, object, id } => {
                    &&& r is Ok ==> r->Ok_0 is Clone
                    &&& file_cloned(
                        *old(self),
                        *final(self),
                        *node,
                        *old(caller),
                        *final(caller),
                        *old(alloc),
                        *final(alloc),
                        old(memory)@,
                        final(memory)@,
                        offset,
                        len,
                        object,
                        id,
                        match r {
                            Ok(reply) => Ok((reply->Clone_0, reply->Clone_1)),
                            Err(fault) => Err(fault),
                        },
                    )
                },
                VmoRequest::MapIntoProc { vaddr, len, vm_flags } => match *old(space) {
                    None => {
                        &&& r == Err::<VmoReply, InvocationError>(
                            InvocationError::UnsupportedOperation,
                        )
                        &&& *final(space) == *old(space)
                        &&& *final(pages) == *old(pages)
                    },
                    Some(vmm) => {
                        &&& *final(space) is Some
                        &&& map_answered(
                            vmm,
                            (*final(space))->0,
                            id,
                            vaddr,
                            len,
                            vm_flags,
                            value_of(r),
                        )
                        &&& pages_answered(
                            *old(pages),
                            *final(pages),
                            vmm,
                            vaddr,
                            len,
                            r is Ok,
                        )
                    },
                },
                VmoRequest::Other => r == Err::<VmoReply, InvocationError>(
                    InvocationError::UnsupportedOperation,
                ),
            },
    {
        match request {
            VmoRequest::GetPage { offset } => match self.request_page(
                node,
                offset,
                alloc,
                memory,
            ) {
                Ok(frame) => Ok(VmoReply::Value(frame)),
                Err(_) => Err(InvocationError::InvalidArgument),
            },
            VmoRequest::Resize { new_size } => match self.resize_object(new_size, alloc, memory) {
                Ok(_) => Ok(VmoReply::Value(0)),
                Err(_) => Err(InvocationError::UnsupportedOperation),
            },
            VmoRequest::Clone { offset, len, object, id } => match self.clone_for(
                node,
                offset,
                len,
                caller,
                object,
                id,
                alloc,
                memory,
            ) {
                Ok((handle, child)) => Ok(VmoReply::Clone(handle, child)),
                Err(fault) => Err(fault),
            },
            VmoRequest::MapIntoProc { vaddr, len, vm_flags } => match space {
                Some(vmm) => to_reply(map_object(id, vmm, vaddr, len, vm_flags, pages)),
                None => Err(InvocationError::UnsupportedOperation),
            },
            VmoRequest::Other => Err(InvocationError::UnsupportedOperation),
        }
    }
}

} // verus!
