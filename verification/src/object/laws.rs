//! What a process sees of a memory object that it has mapped.

use crate::memory::laws::lemma_permission_bits;
use crate::memory::vma::{offsets_fit, segment_at};
use crate::memory::vmm::laws::{
    asks, grants, law_mapped_object_answers_faults, law_reserved_object_answers_faults,
};
use crate::memory::vmm::{fault_target_of, FaultTarget, MapBehavior, VirtMemManager, VmoId};
use crate::memory::FaultError;
use crate::object::invoke::InvocationError;
use crate::object::vmo::{map_answered, map_options};
use vstd::prelude::*;

verus! {

/// The error code of a fault speaks of an access that was asked for with the
/// flags of a mapping: any may be read, the lowest flag is for writing and the
/// next one for executing.
pub open spec fn asked_for(vm_flags: u64, error_code: u64) -> bool {
    &&& error_code & 0x2 != 0 ==> vm_flags & 1 != 0
    &&& error_code & 0x10 != 0 ==> vm_flags & 2 != 0
}

/// A memory object that was mapped on request lies at the address that was
/// asked for, or where nothing was if none was asked for. At every address of
/// the mapping a fault asks the object for the page that lies as far behind its
/// start, and is denied if the access was not asked for.
pub proof fn law_requested_mapping_shows_the_object(
    before: VirtMemManager,
    after: VirtMemManager,
    id: VmoId,
    vaddr: u64,
    len: u64,
    vm_flags: u64,
    addr: u64,
    a: u64,
    error_code: u64,
)
    requires
        before.wf(),
        after.wf(),
        offsets_fit(before@),
        offsets_fit(after@),
        map_answered(before, after, id, vaddr, len, vm_flags, Ok(addr)),
        addr <= a < addr + len,
    ensures
        vaddr != 0 ==> addr == vaddr,
        vaddr == 0 ==> segment_at(before@, a as int) is None,
        ({
            let r = fault_target_of(after@, a, error_code);
            if asked_for(vm_flags, error_code) {
                asks(r, id, a - a as int % 4096 - addr, a, map_options(vm_flags).permissions)
            } else {
                r == Err::<FaultTarget, FaultError>(FaultError::AccessDenied)
            }
        }),
{
    let options = map_options(vm_flags);
    lemma_permission_bits(vm_flags & 1 != 0, true, false, vm_flags & 2 != 0, 0);
    assert(grants(options.permissions.0, error_code) == asked_for(vm_flags, error_code));
    if vaddr == 0 {
        law_reserved_object_answers_faults(before, after, len, options, id, addr, a, error_code);
    } else {
        law_mapped_object_answers_faults(
            before,
            after,
            vaddr,
            len,
            options,
            id,
            0,
            MapBehavior::ReplaceContained,
            a,
            error_code,
        );
    }
}

/// A request that fails leaves the address space as it was.
pub proof fn law_refused_mapping_changes_nothing(
    before: VirtMemManager,
    after: VirtMemManager,
    id: VmoId,
    vaddr: u64,
    len: u64,
    vm_flags: u64,
    fault: InvocationError,
)
    requires
        map_answered(before, after, id, vaddr, len, vm_flags, Err(fault)),
    ensures
        after == before,
        fault == InvocationError::OutOfMemory,
{
}

} // verus!
