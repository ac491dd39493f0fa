//! Memory objects as they are handed to processes.

use crate::hal::mmu::pager::{given_back, PhysMemory, Tables};
use crate::hal::mmu::FrameAllocator;
use crate::memory::vma::{offsets_fit, USER_SPACE_LIMIT};
use crate::memory::vmm::{
    is_map, is_reserve, map_request, pages_mapped, PageOps, VirtMemManager, VmaBacking,
};
use crate::memory::vmm2::types::{
    CachePolicy, MapBehavior, PageSize, VmError, VmOptions, VmPermissions, VmaChargeKind, VmoId,
};
use crate::memory::vmo::{
    cut, frames_from, frames_of, law_physical_object_has_its_frames, padded, page_count, pages_at,
    present, range_fits, zero_page, Vmo,
};
use crate::object::handle::{HandleEntry, HandleID, HandleTable};
use crate::object::invoke::InvocationError;
use crate::object::rights::AccessRights;
use vstd::prelude::*;

verus! {

/// A memory object, under the name that mappings know it by.
pub struct VmoObject {
    pub vmo: Vmo,
    pub id: VmoId,
}

/// The options that a memory object is mapped with on request: the lowest bit
/// of the flags asks for pages that can be written, the next one for pages
/// that can be executed.
pub open spec fn map_options(vm_flags: u64) -> VmOptions {
    VmOptions::plain(
        VmPermissions::USER | (if vm_flags & 1 != 0 {
            VmPermissions::WRITE
        } else {
            0
        }) | (if vm_flags & 2 != 0 {
            VmPermissions::EXECUTE
        } else {
            0
        }),
        VmaChargeKind::Private,
    )
}

pub fn options_for(vm_flags: u64) -> (r: VmOptions)
    ensures
        r == map_options(vm_flags),
{
    let writable: u16 = if vm_flags & 1 != 0 {
        VmPermissions::WRITE
    } else {
        0
    };
    let executable: u16 = if vm_flags & 2 != 0 {
        VmPermissions::EXECUTE
    } else {
        0
    };
    VmOptions {
        permissions: VmPermissions(VmPermissions::USER | writable | executable),
        cache: CachePolicy::Normal,
        page_size: PageSize::Size4K,
        charge: VmaChargeKind::Private,
    }
}

/// A request to map a memory object was served as the address space allows:
/// anywhere where no address was asked for, otherwise in place of what was
/// there.
pub open spec fn is_mapped(
    before: VirtMemManager,
    after: VirtMemManager,
    id: VmoId,
    vaddr: u64,
    len: u64,
    vm_flags: u64,
    r: Result<u64, VmError>,
) -> bool {
    if vaddr == 0 {
        is_reserve(before, after, len, map_options(vm_flags), VmaBacking::Vmo(id), r)
    } else {
        is_map(
            before,
            after,
            vaddr,
            len,
            map_options(vm_flags),
            VmaBacking::Vmo(id),
            0,
            MapBehavior::ReplaceContained,
            r,
        )
    }
}

/// A request to map a memory object was answered: whatever stood in the way,
/// the answer is that there is no room.
pub open spec fn map_answered(
    before: VirtMemManager,
    after: VirtMemManager,
    id: VmoId,
    vaddr: u64,
    len: u64,
    vm_flags: u64,
    r: Result<u64, InvocationError>,
) -> bool {
    match r {
        Ok(addr) => is_mapped(before, after, id, vaddr, len, vm_flags, Ok(addr)),
        Err(fault) => fault == InvocationError::OutOfMemory && exists|e: VmError| #[trigger]
            is_mapped(before, after, id, vaddr, len, vm_flags, Err(e)),
    }
}

/// The page tables followed a request to map a memory object.
pub open spec fn pages_answered<P: PageOps>(
    pages: P,
    pages_after: P,
    vmm: VirtMemManager,
    vaddr: u64,
    len: u64,
    done: bool,
) -> bool {
    if vaddr == 0 {
        pages_after == pages
    } else {
        pages_mapped(
            pages,
            pages_after,
            vmm@,
            map_request(vaddr, len, 0, PageSize::Size4K),
            MapBehavior::ReplaceContained,
            done,
        )
    }
}

/// What comes of asking for the page at an offset: its frame, which is a fresh
/// one full of zeroes where there was none, or zero where none could be had.
pub open spec fn page_given<A: FrameAllocator>(
    before: VmoObject,
    after: VmoObject,
    alloc: A,
    alloc_after: A,
    memory: Tables,
    memory_after: Tables,
    offset: u64,
    r: Result<u64, InvocationError>,
) -> bool {
    let pages = before.vmo.pages@;
    &&& after.id == before.id
    &&& after.vmo.size == before.vmo.size
    &&& if offset >= before.vmo.size || (before.vmo.is_physical && present(pages, offset) is None) {
        &&& r == Err::<u64, InvocationError>(InvocationError::InvalidArgument)
        &&& after == before
        &&& alloc_after == alloc
        &&& memory_after == memory
    } else {
        match present(pages, offset) {
            Some(frame) => {
                &&& r == Ok::<u64, InvocationError>(frame)
                &&& after == before
                &&& alloc_after == alloc
                &&& memory_after == memory
            },
            None => {
                &&& r matches Ok(frame) && after.vmo.pages@ == pages.insert(offset, frame)
                &&& after.vmo.is_physical == before.vmo.is_physical
                &&& after.vmo.dirty_pages@ == before.vmo.dirty_pages@
                &&& r->Ok_0 != 0 <==> alloc.capacity() > 0
                &&& if r->Ok_0 != 0 {
                    &&& alloc.available().contains(r->Ok_0)
                    &&& alloc_after.available() == alloc.available().remove(r->Ok_0)
                    &&& alloc_after.capacity() + 1 == alloc.capacity()
                    &&& memory_after == memory.insert(r->Ok_0, zero_page())
                } else {
                    &&& alloc_after.available() == alloc.available()
                    &&& alloc_after.capacity() == 0
                    &&& memory_after == memory
                }
            },
        }
    }
}

/// What comes of changing the size: pages past the end are given back, and
/// added ones have no frame yet.
pub open spec fn was_resized<A: FrameAllocator>(
    before: VmoObject,
    after: VmoObject,
    alloc: A,
    alloc_after: A,
    new_size: u64,
    r: Result<u64, InvocationError>,
) -> bool {
    let pages = before.vmo.pages@;
    &&& after.id == before.id
    &&& if before.vmo.is_physical {
        &&& r == Err::<u64, InvocationError>(InvocationError::UnsupportedOperation)
        &&& after == before
        &&& alloc_after == alloc
    } else {
        &&& r == Ok::<u64, InvocationError>(0)
        &&& after.vmo.size == new_size
        &&& after.vmo.is_physical == before.vmo.is_physical
        &&& new_size < before.vmo.size ==> {
            &&& after.vmo.pages@ == cut(pages, new_size)
            &&& after.vmo.dirty_pages@ == Map::new(
                |k: u64| before.vmo.dirty_pages@.contains_key(k) && k < new_size,
                |k: u64| before.vmo.dirty_pages@[k],
            )
            &&& given_back(alloc, alloc_after, frames_from(pages, new_size))
        }
        &&& new_size == before.vmo.size ==> after.vmo == before.vmo
        &&& new_size > before.vmo.size ==> {
            &&& after.vmo.pages@ == padded(pages, new_size, 0u64)
            &&& after.vmo.dirty_pages@ == padded(before.vmo.dirty_pages@, new_size, false)
        }
        &&& new_size >= before.vmo.size ==> alloc_after == alloc
    }
}

/// What comes of copying a part of the object for the process that asks: the
/// copy holds what the part did, and the process has a handle to it with all
/// rights. A copy that cannot be made takes no frame.
pub open spec fn was_cloned<A: FrameAllocator>(
    source: VmoObject,
    caller: Option<HandleTable>,
    caller_after: Option<HandleTable>,
    alloc: A,
    alloc_after: A,
    memory: Tables,
    memory_after: Tables,
    offset: u64,
    len: u64,
    object: u64,
    id: VmoId,
    r: Result<(HandleID, VmoObject), InvocationError>,
) -> bool {
    let possible = !source.vmo.is_physical && range_fits(offset, len) && page_count(len as int)
        <= alloc.capacity();
    &&& forall|f: u64|
        memory.contains_key(f) && !alloc.available().contains(f) ==> #[trigger] memory_after[f]
            == memory[f]
    &&& match r {
        Err(fault) => {
            &&& !possible || caller is None
            &&& fault == if possible {
                InvocationError::UnsupportedOperation
            } else {
                InvocationError::InvalidArgument
            }
            &&& caller_after == caller
            &&& alloc_after.available() == alloc.available()
            &&& alloc_after.capacity() == alloc.capacity()
        },
        Ok((handle, child)) => {
            &&& possible
            &&& alloc_after.capacity() + page_count(len as int) == alloc.capacity()
            &&& caller is Some && caller_after is Some
            &&& handle.0 == caller->0@.len()
            &&& caller_after->0@ == caller->0@.push(
                Some(HandleEntry { object, rights: AccessRights(0x3F) }),
            )
            &&& child.id == id
            &&& child.vmo.holds(alloc_after, memory_after)
            &&& child.vmo.size == len
            &&& child.vmo.dirty_pages@ == padded(Map::empty(), len, false)
            &&& child.vmo.pages@.dom() == padded(Map::empty(), len, false).dom()
            &&& forall|k: u64| #[trigger]
                child.vmo.pages@.contains_key(k) ==> memory_after[child.vmo.pages@[k]]
                    == source.vmo.content(offset + k, memory)
        },
    }
}

/// The object stands for the physical memory from an address on.
pub open spec fn is_physical_at(object: VmoObject, phys_addr: u64) -> bool {
    &&& phys_addr != 0
    &&& phys_addr + object.vmo.size <= u64::MAX
    &&& object.vmo.is_physical
    &&& object.vmo.pages@ == pages_at(phys_addr, object.vmo.size)
}

/// A page of physical memory is asked for: the answer is the frame at that
/// distance from where the memory starts, or a refusal where there is none.
/// Nothing is allocated, and nothing changes.
pub proof fn law_physical_page_is_fixed<A: FrameAllocator>(
    before: VmoObject,
    after: VmoObject,
    alloc: A,
    alloc_after: A,
    memory: Tables,
    memory_after: Tables,
    phys_addr: u64,
    offset: u64,
    r: Result<u64, InvocationError>,
)
    requires
        is_physical_at(before, phys_addr),
        page_given(before, after, alloc, alloc_after, memory, memory_after, offset, r),
    ensures
        r == if offset % 4096 == 0 && offset < before.vmo.size {
            Ok((phys_addr + offset) as u64)
        } else {
            Err(InvocationError::InvalidArgument)
        },
        after == before,
        alloc_after == alloc,
        memory_after == memory,
{
    law_physical_object_has_its_frames(before.vmo, phys_addr, offset);
}

/// Physical memory is given another size: that is refused, and nothing
/// changes.
pub proof fn law_physical_size_is_fixed<A: FrameAllocator>(
    before: VmoObject,
    after: VmoObject,
    alloc: A,
    alloc_after: A,
    phys_addr: u64,
    new_size: u64,
    r: Result<u64, InvocationError>,
)
    requires
        is_physical_at(before, phys_addr),
        was_resized(before, after, alloc, alloc_after, new_size, r),
    ensures
        r == Err::<u64, InvocationError>(InvocationError::UnsupportedOperation),
        after == before,
        alloc_after == alloc,
{
}

/// A copy of physical memory is asked for: that is refused, no frame is taken
/// for it, and the process that asked has no handle more.
pub proof fn law_physical_memory_is_not_copied<A: FrameAllocator>(
    source: VmoObject,
    caller: Option<HandleTable>,
    caller_after: Option<HandleTable>,
    alloc: A,
    alloc_after: A,
    memory: Tables,
    memory_after: Tables,
    phys_addr: u64,
    offset: u64,
    len: u64,
    object: u64,
    id: VmoId,
    r: Result<(HandleID, VmoObject), InvocationError>,
)
    requires
        is_physical_at(source, phys_addr),
        was_cloned(
            source,
            caller,
            caller_after,
            alloc,
            alloc_after,
            memory,
            memory_after,
            offset,
            len,
            object,
            id,
            r,
        ),
    ensures
        r == Err::<(HandleID, VmoObject), InvocationError>(InvocationError::InvalidArgument),
        caller_after == caller,
        alloc_after.available() == alloc.available(),
        alloc_after.capacity() == alloc.capacity(),
{
}

/// A request to a memory object.
#[derive(Debug, Clone, Copy, PartialEq, Eq, Structural)]
pub enum VmoRequest {
    GetPage { offset: u64 },
    Resize { new_size: u64 },
    /// `object` and `id` are the numbers that the copy gets.
    Clone { offset: u64, len: u64, object: u64, id: VmoId },
    MapIntoProc { vaddr: u64, len: u64, vm_flags: u64 },
    Other,
}

pub enum VmoReply {
    Value(u64),
    Clone(HandleID, VmoObject),
}

/// The number that a request was answered with.
pub open spec fn value_of(r: Result<VmoReply, InvocationError>) -> Result<u64, InvocationError> {
    match r {
        Ok(reply) => Ok(reply->Value_0),
        Err(fault) => Err(fault),
    }
}

impl VmoObject {
    pub fn new(vmo: Vmo, id: VmoId) -> (r: Self)
        ensures
            r.vmo == vmo,
            r.id == id,
    {
        VmoObject { vmo, id }
    }

    /// The frame of the page at an offset. Where there was none and the
    /// allocator has none left, the answer is zero.
    pub fn get_page<A: FrameAllocator>(
        &mut self,
        offset: u64,
        alloc: &mut A,
        memory: &mut PhysMemory,
    ) -> (r: Result<u64, InvocationError>)
        requires
            old(self).vmo.holds(*old(alloc), old(memory)@),
        ensures
            final(self).vmo.holds(*final(alloc), final(memory)@),
            final(self).id == old(self).id,
            page_given(
                *old(self),
                *final(self),
                *old(alloc),
                *final(alloc),
                old(memory)@,
                final(memory)@,
                offset,
                r,
            ),
    {
        match self.vmo.request_page(offset, alloc, memory) {
            Ok(frame) => Ok(frame),
            Err(_) => Err(InvocationError::InvalidArgument),
        }
    }

    /// Changes the size of the object, where it has frames of its own.
    pub fn resize<A: FrameAllocator>(
        &mut self,
        new_size: u64,
        alloc: &mut A,
        memory: &PhysMemory,
    ) -> (r: Result<u64, InvocationError>)
        requires
            old(self).vmo.holds(*old(alloc), memory@),
        ensures
            final(self).vmo.holds(*final(alloc), memory@),
            final(self).id == old(self).id,
            was_resized(*old(self), *final(self), *old(alloc), *final(alloc), new_size, r),
    {
        match self.vmo.resize_object(new_size, alloc, memory) {
            Ok(_) => Ok(0),
            Err(_) => Err(InvocationError::UnsupportedOperation),
        }
    }

    /// Makes a copy of a part of the object, and gives the process that asks a
    /// handle to it with all rights. `object` and `id` are the numbers that
    /// the copy gets.
    pub fn clone_for<A: FrameAllocator>(
        &self,
        offset: u64,
        len: u64,
        caller: &mut Option<HandleTable>,
        object: u64,
        id: VmoId,
        alloc: &mut A,
        memory: &mut PhysMemory,
    ) -> (r: Result<(HandleID, VmoObject), InvocationError>)
        requires
            self.vmo.holds(*old(alloc), old(memory)@),
        ensures
            self.vmo.holds(*final(alloc), final(memory)@),
            was_cloned(
                *self,
                *old(caller),
                *final(caller),
                *old(alloc),
                *final(alloc),
                old(memory)@,
                final(memory)@,
                offset,
                len,
                object,
                id,
                r,
            ),
    {
        let mut child = match self.vmo.clone_range(offset, len, alloc, memory) {
            Ok(child) => child,
            Err(_) => {
                return Err(InvocationError::InvalidArgument);
            },
        };
        let ghost cloned = child.pages@;
        match caller {
            Some(handles) => {
                let handle = handles.insert(object, AccessRights::all());
                Ok((handle, VmoObject { vmo: child, id }))
            },
            None => {
                let ghost frames = frames_of(child.pages@);
                let ghost between = *alloc;
                child.release(alloc, memory);
                proof {
                    assert forall|f: u64| frames.contains(f) implies old(alloc).available().contains(
                        f,
                    ) by {
                        let k = choose|k: u64| #[trigger]
                            cloned.contains_key(k) && cloned[k] == f;
                    }
                    assert(alloc.available() =~= old(alloc).available());
                    assert forall|k: u64| #[trigger]
                        self.vmo.pages@.contains_key(k) && self.vmo.pages@[k]
                            != 0 && !self.vmo.is_physical implies alloc.accepts(
                        self.vmo.pages@[k],
                    ) by {
                        assert(between.accepts(self.vmo.pages@[k]));
                    }
                }
                Err(InvocationError::UnsupportedOperation)
            },
        }
    }

    /// Maps the object into the address space of the process that asks.
    pub fn map_into<P: PageOps>(
        &self,
        vmm: &mut VirtMemManager,
        vaddr: u64,
        len: u64,
        vm_flags: u64,
        pages: &mut P,
    ) -> (r: Result<u64, InvocationError>)
        requires
            old(vmm).wf(),
            old(pages).ready(),
            old(vmm).books().reserved_bytes <= u64::MAX - USER_SPACE_LIMIT,
            old(vmm).books().committed_bytes <= u64::MAX - USER_SPACE_LIMIT,
            offsets_fit(old(vmm)@),
        ensures
            final(vmm).wf(),
            final(pages).ready(),
            pages_answered(*old(pages), *final(pages), *old(vmm), vaddr, len, r is Ok),
            map_answered(*old(vmm), *final(vmm), self.id, vaddr, len, vm_flags, r),
    {
        map_object(self.id, vmm, vaddr, len, vm_flags, pages)
    }

    /// Answers a request of a process, whose handles and address space are
    /// given where there is one.
    pub fn invoke<A: FrameAllocator, P: PageOps>(
        &mut self,
        request: VmoRequest,
        caller: &mut Option<HandleTable>,
        space: &mut Option<VirtMemManager>,
        alloc: &mut A,
        memory: &mut PhysMemory,
        pages: &mut P,
    ) -> (r: Result<VmoReply, InvocationError>)
        requires
            old(self).vmo.holds(*old(alloc), old(memory)@),
            *old(space) matches Some(vmm) ==> {
                &&& vmm.wf()
                &&& offsets_fit(vmm@)
                &&& vmm.books().reserved_bytes <= u64::MAX - USER_SPACE_LIMIT
                &&& vmm.books().committed_bytes <= u64::MAX - USER_SPACE_LIMIT
            },
            old(pages).ready(),
        ensures
            final(self).vmo.holds(*final(alloc), final(memory)@),
            final(pages).ready(),
            *final(space) matches Some(vmm) ==> vmm.wf(),
            !(request is GetPage || request is Resize) ==> *final(self) == *old(self),
            !(request is Clone) ==> *final(caller) == *old(caller),
            !(request is MapIntoProc) ==> *final(space) == *old(space) && *final(pages) == *old(
                pages,
            ),
            !(request is GetPage || request is Clone) ==> final(memory)@ == old(memory)@,
            request is MapIntoProc || request is Other ==> *final(alloc) == *old(alloc),
            !(request is Clone) && r is Ok ==> r->Ok_0 is Value,
            match request {
                VmoRequest::GetPage { offset } => page_given(
                    *old(self),
                    *final(self),
                    *old(alloc),
                    *final(alloc),
                    old(memory)@,
                    final(memory)@,
                    offset,
                    value_of(r),
                ),
                VmoRequest::Resize { new_size } => was_resized(
                    *old(self),
                    *final(self),
                    *old(alloc),
                    *final(alloc),
                    new_size,
                    value_of(r),
                ),
                VmoRequest::Clone { offset, len, object, id } => {
                    &&& r is Ok ==> r->Ok_0 is Clone
                    &&& was_cloned(
                        *old(self),
                        *old(caller),
                        *final(caller),
                        *old(alloc),
                        *final(alloc),
                        old(memory)@,
                        final(memory)@,
                        offset,
                        len,
                        object,
                        id,
                        match r {
                            Ok(reply) => Ok((reply->Clone_0, reply->Clone_1)),
                            Err(fault) => Err(fault),
                        },
                    )
                },
                VmoRequest::MapIntoProc { vaddr, len, vm_flags } => match *old(space) {
                    None => {
                        &&& r == Err::<VmoReply, InvocationError>(
                            InvocationError::UnsupportedOperation,
                        )
                        &&& *final(space) == *old(space)
                        &&& *final(pages) == *old(pages)
                    },
                    Some(vmm) => {
                        &&& *final(space) is Some
                        &&& map_answered(
                            vmm,
                            (*final(space))->0,
                            old(self).id,
                            vaddr,
                            len,
                            vm_flags,
                            value_of(r),
                        )
                        &&& pages_answered(
                            *old(pages),
                            *final(pages),
                            vmm,
                            vaddr,
                            len,
                            r is Ok,
                        )
                    },
                },
                VmoRequest::Other => r == Err::<VmoReply, InvocationError>(
                    InvocationError::UnsupportedOperation,
                ),
            },
    {
        match request {
            VmoRequest::GetPage { offset } => to_reply(self.get_page(offset, alloc, memory)),
            VmoRequest::Resize { new_size } => to_reply(self.resize(new_size, alloc, memory)),
            VmoRequest::Clone { offset, len, object, id } => match self.clone_for(
                offset,
                len,
                caller,
                object,
                id,
                alloc,
                memory,
            ) {
                Ok((handle, child)) => Ok(VmoReply::Clone(handle, child)),
                Err(fault) => Err(fault),
            },
            VmoRequest::MapIntoProc { vaddr, len, vm_flags } => match space {
                Some(vmm) => to_reply(self.map_into(vmm, vaddr, len, vm_flags, pages)),
                None => Err(InvocationError::UnsupportedOperation),
            },
            VmoRequest::Other => Err(InvocationError::UnsupportedOperation),
        }
    }
}

/// Maps the memory object of a name into an address space.
pub fn map_object<P: PageOps>(
    id: VmoId,
    vmm: &mut VirtMemManager,
    vaddr: u64,
    len: u64,
    vm_flags: u64,
    pages: &mut P,
) -> (r: Result<u64, InvocationError>)
    requires
        old(vmm).wf(),
        old(pages).ready(),
        old(vmm).books().reserved_bytes <= u64::MAX - USER_SPACE_LIMIT,
        old(vmm).books().committed_bytes <= u64::MAX - USER_SPACE_LIMIT,
        offsets_fit(old(vmm)@),
    ensures
        final(vmm).wf(),
        final(pages).ready(),
        pages_answered(*old(pages), *final(pages), *old(vmm), vaddr, len, r is Ok),
        map_answered(*old(vmm), *final(vmm), id, vaddr, len, vm_flags, r),
{
    let options = options_for(vm_flags);
    let backing = VmaBacking::Vmo(id);
    let mapped = if vaddr == 0 {
        vmm.reserve(len, options, backing, pages)
    } else {
        vmm.map_at(vaddr, len, options, backing, 0, MapBehavior::ReplaceContained, pages)
    };
    assert(is_mapped(*old(vmm), *vmm, id, vaddr, len, vm_flags, mapped));
    match mapped {
        Ok(addr) => Ok(addr),
        Err(_) => Err(InvocationError::OutOfMemory),
    }
}

pub(crate) fn to_reply(r: Result<u64, InvocationError>) -> (reply: Result<VmoReply, InvocationError>)
    ensures
        value_of(reply) == r,
        reply is Ok ==> reply->Ok_0 is Value,
{
    match r {
        Ok(value) => Ok(VmoReply::Value(value)),
        Err(fault) => Err(fault),
    }
}

} // verus!
