//! What a page fault finds after regions have been mapped, unmapped and
//! protected.

use crate::hal::mmu::pager::{
    frame, group, is_page, law_mapped_page_translates, leaf_entry, leaf_level, mapping, page_number,
    search, translation, PagerError, Tables,
};
use crate::memory::laws::lemma_permission_bits;
use crate::memory::range_tree::disjoint;
use crate::memory::vma::{
    granularity, holds, law_protect_is_local, law_unmap_is_local, lemma_demoted_once,
    lemma_normalized, lemma_segment_at, normalized, offsets_fit, position, protected, refined,
    segment_at, segment_of, unmapped, Regions, VmaSegment,
};
use crate::memory::vmm::{
    fault_answered, fault_target_of, is_map, is_reserve, map_request, whole_pages, FaultTarget,
    MapBehavior, PageOps, PageSize, PageStep, PagerOp, VirtMemManager, VmError, VmOptions,
    VmPermissions, VmaBacking, VmoId, VmoSource,
};
use crate::memory::vmm::pages::{
    entry_bits, highest, lowest, op_end, op_fits, op_page, op_start, stepped, steps_of,
};
use crate::memory::FaultError;
use vstd::prelude::*;

verus! {

/// A memory object is asked for a page for a fault at `a`: the one at
/// `backing_offset` of `vmo`, for the page that `a` lies in.
pub open spec fn asks(
    r: Result<FaultTarget, FaultError>,
    vmo: VmoId,
    backing_offset: int,
    a: u64,
    permissions: VmPermissions,
) -> bool {
    r matches Ok(t) && {
        &&& t.vmo == vmo
        &&& t.backing_offset == backing_offset
        &&& t.page as int % 4096 == 0
        &&& t.page <= a < t.page + 4096
        &&& t.permissions == permissions
    }
}

/// The error code of a fault speaks of an access that these permissions grant:
/// bit 1 is a write, bit 4 the fetch of an instruction, bit 2 an access by a
/// user. A guard grants none.
pub open spec fn grants(permissions: u16, error_code: u64) -> bool {
    &&& error_code & 0x2 != 0 ==> permissions & 1 == 1
    &&& error_code & 0x10 != 0 ==> permissions & 2 == 2
    &&& error_code & 0x4 != 0 ==> permissions & 4 == 4
    &&& permissions & 16 != 16
}

/// A fault at an address of a region is answered with the page of the region's
/// memory object that lies as far behind the region's place in the object as
/// the page of the address lies behind the region's start. It is denied where
/// the region does not grant the access, or has no memory object.
pub proof fn law_fault_follows_its_region(
    m: Regions<VmaBacking>,
    k: u64,
    a: u64,
    error_code: u64,
)
    requires
        disjoint(m),
        offsets_fit(m),
        whole_pages(m),
        m.contains_key(k),
        k <= a < m[k].0,
    ensures
        ({
            let (end, vma) = m[k];
            let r = fault_target_of(m, a, error_code);
            match vma.backing {
                VmaBacking::Vmo(vmo) if grants(vma.permissions.0, error_code) => asks(
                    r,
                    vmo,
                    vma.backing_offset + (a - a as int % 4096 - k),
                    a,
                    vma.permissions,
                ),
                _ => r == Err::<FaultTarget, FaultError>(FaultError::AccessDenied),
            }
        }),
{
    lemma_segment_at(m);
    assert(holds(m, k, a as int));
    let s = segment_of(m, k);
    assert(s.fits());
    lemma_starts_a_page(s);
}

proof fn lemma_starts_a_page(s: VmaSegment<VmaBacking>)
    requires
        s.start as int % s.vma.page_size.bytes() as int == 0,
    ensures
        s.start as int % 4096 == 0,
{
    match s.vma.page_size {
        PageSize::Size4K => {},
        PageSize::Size2M => {},
        PageSize::Size1G => {},
    }
}

proof fn lemma_page_not_before(first: int, a: int)
    requires
        0 <= first <= a,
        first % 4096 == 0,
    ensures
        first <= a - a % 4096,
{
}

/// A fault at an address that no region holds is invalid.
pub proof fn law_fault_outside_is_invalid(m: Regions<VmaBacking>, a: u64, error_code: u64)
    requires
        disjoint(m),
        forall|k: u64| #[trigger] m.contains_key(k) ==> !(k <= a < m[k].0),
    ensures
        fault_target_of(m, a, error_code) == Err::<FaultTarget, FaultError>(
            FaultError::InvalidAddress,
        ),
{
    assert(forall|k: u64| !holds(m, k, a as int));
}

/// Two faults in one region ask for pages that lie as far apart in the memory
/// object as the pages of the two addresses do.
pub proof fn law_faults_keep_their_distance(
    m: Regions<VmaBacking>,
    k: u64,
    a: u64,
    b: u64,
    error_code: u64,
)
    requires
        disjoint(m),
        offsets_fit(m),
        whole_pages(m),
        m.contains_key(k),
        k <= a < m[k].0,
        k <= b < m[k].0,
        fault_target_of(m, a, error_code) is Ok,
    ensures
        ({
            let s = fault_target_of(m, a, error_code)->Ok_0;
            fault_target_of(m, b, error_code) matches Ok(t) && {
                &&& s.vmo == t.vmo
                &&& t.backing_offset - s.backing_offset == t.page - s.page
            }
        }),
{
    law_fault_follows_its_region(m, k, a, error_code);
    law_fault_follows_its_region(m, k, b, error_code);
}

/// Two regions that were mapped from different places of one memory object ask
/// it for different pages, at the same distance from their starts.
pub proof fn law_regions_ask_for_their_own_pages(
    m: Regions<VmaBacking>,
    j: u64,
    k: u64,
    distance: u64,
    error_code: u64,
)
    requires
        disjoint(m),
        offsets_fit(m),
        whole_pages(m),
        m.contains_key(j),
        m.contains_key(k),
        j + distance < m[j].0,
        k + distance < m[k].0,
        m[j].1.backing_offset != m[k].1.backing_offset,
        fault_target_of(m, (j + distance) as u64, error_code) is Ok,
        fault_target_of(m, (k + distance) as u64, error_code) is Ok,
    ensures
        fault_target_of(m, (k + distance) as u64, error_code)->Ok_0.backing_offset
            - fault_target_of(m, (j + distance) as u64, error_code)->Ok_0.backing_offset
            == m[k].1.backing_offset - m[j].1.backing_offset,
{
    law_fault_follows_its_region(m, j, (j + distance) as u64, error_code);
    law_fault_follows_its_region(m, k, (k + distance) as u64, error_code);
    lemma_segment_at(m);
    assert(segment_of(m, j).start as int % 4096 == 0) by {
        lemma_starts_a_page(segment_of(m, j));
    }
    assert(segment_of(m, k).start as int % 4096 == 0) by {
        lemma_starts_a_page(segment_of(m, k));
    }
}

/// After a memory object has been mapped at an address from a place in it on, a
/// fault at any address of the mapping asks the object for the page at that
/// place, as far on as the page of the fault lies behind the address.
#[verifier::spinoff_prover]
#[verifier::rlimit(30)]
pub proof fn law_mapped_object_answers_faults(
    before: VirtMemManager,
    after: VirtMemManager,
    addr: u64,
    size: u64,
    options: VmOptions,
    vmo: VmoId,
    backing_offset: u64,
    behavior: MapBehavior,
    a: u64,
    error_code: u64,
)
    requires
        before.wf(),
        after.wf(),
        offsets_fit(before@),
        offsets_fit(after@),
        is_map(
            before,
            after,
            addr,
            size,
            options,
            VmaBacking::Vmo(vmo),
            backing_offset,
            behavior,
            Ok(addr),
        ),
        addr <= a < addr + size,
    ensures
        ({
            let r = fault_target_of(after@, a, error_code);
            if grants(options.permissions.0, error_code) {
                asks(
                    r,
                    vmo,
                    backing_offset + (a - a as int % 4096 - addr),
                    a,
                    options.permissions,
                )
            } else {
                r == Err::<FaultTarget, FaultError>(FaultError::AccessDenied)
            }
        }),
{
    lemma_normalized(addr, size, options.page_size);
    before.lemma_disjoint();
    after.lemma_disjoint();
    lemma_segment_at(before@);
    lemma_segment_at(after@);
    let req = map_request(addr, size, backing_offset, options.page_size)->Ok_0;
    lemma_map_request(addr, size, backing_offset, options.page_size);
    match behavior {
        MapBehavior::RequireVacant => {
            assert(holds(after@, addr, a as int));
        },
        MapBehavior::ReplaceContained => {
            let s = segment_at(before@, a as int)->0;
            let required = granularity(req.start, req.end);
            assert(segment_at(before@, a as int) is Some);
            let d = crate::memory::vma::demoted_once(s, req.start, req.end, required, a as int);
            lemma_demoted_once(s, req.start, req.end, required, a as int);
            lemma_demoted_once(d, req.start, req.end, required, a as int);
            assert(segment_at(after@, a as int) is Some);
        },
    }
    let t = segment_at(after@, a as int)->0;
    assert(t.start == addr);
    assert(after@.contains_key(addr));
    assert(t.fits());
    lemma_starts_a_page(t);
}

proof fn lemma_map_request(addr: u64, size: u64, backing_offset: u64, page_size: PageSize)
    ensures
        map_request(addr, size, backing_offset, page_size) matches Ok(req) ==> {
            &&& req.start == addr
            &&& addr + size <= req.end <= 0x8000_0000_0000
            &&& req.end < addr + size + page_size.bytes()
            &&& req.backing_offset == backing_offset
            &&& req.size == req.end - addr
            &&& addr as int % page_size.bytes() as int == 0
        },
{
    lemma_normalized(addr, size, page_size);
    match page_size {
        PageSize::Size4K => {},
        PageSize::Size2M => {},
        PageSize::Size1G => {},
    }
}

/// Mapping where nothing was leaves the faults at all other addresses as they
/// were.
pub proof fn law_mapping_leaves_other_faults(
    before: VirtMemManager,
    after: VirtMemManager,
    addr: u64,
    size: u64,
    options: VmOptions,
    backing: VmaBacking,
    backing_offset: u64,
    a: u64,
    error_code: u64,
)
    requires
        before.wf(),
        after.wf(),
        is_map(
            before,
            after,
            addr,
            size,
            options,
            backing,
            backing_offset,
            MapBehavior::RequireVacant,
            Ok(addr),
        ),
        a < addr || a >= addr + size + options.page_size.bytes(),
    ensures
        fault_target_of(after@, a, error_code) == fault_target_of(before@, a, error_code),
{
    before.lemma_disjoint();
    after.lemma_disjoint();
    lemma_segment_at(before@);
    lemma_segment_at(after@);
    lemma_normalized(addr, size, options.page_size);
    lemma_map_request(addr, size, backing_offset, options.page_size);
    let req = map_request(addr, size, backing_offset, options.page_size)->Ok_0;
    assert(segment_at(after@, a as int) == segment_at(before@, a as int)) by {
        if let Some(s) = segment_at(before@, a as int) {
            assert(s.start != addr);
            assert(holds(after@, s.start, a as int));
        }
        if let Some(s) = segment_at(after@, a as int) {
            assert(holds(before@, s.start, a as int));
        }
    }
}

/// A request for an address gets that address: mapping succeeds wherever the
/// request is sound and nothing is in the way, and only there.
pub proof fn law_vacant_place_is_mapped(
    before: VirtMemManager,
    after: VirtMemManager,
    addr: u64,
    size: u64,
    options: VmOptions,
    backing: VmaBacking,
    backing_offset: u64,
    r: Result<u64, VmError>,
)
    requires
        before.wf(),
        is_map(
            before,
            after,
            addr,
            size,
            options,
            backing,
            backing_offset,
            MapBehavior::RequireVacant,
            r,
        ),
        options.page_size is Size4K,
    ensures
        r is Ok ==> r == Ok::<u64, VmError>(addr),
        r is Ok <==> {
            &&& size > 0
            &&& addr as int % 4096 == 0
            &&& backing_offset as int % 4096 == 0
            &&& addr >= 0x1_0000
            &&& addr + size <= 0x8000_0000_0000
            &&& forall|k: u64| #[trigger]
                before@.contains_key(k) ==> before@[k].0 <= addr || addr + size <= k - k as int
                    % 4096
        },
        r is Err ==> after == before,
{
    lemma_normalized(addr, size, options.page_size);
    lemma_map_request(addr, size, backing_offset, options.page_size);
}

/// What has been reserved for a memory object is answered from the start of the
/// object on, and it lies where nothing was.
pub proof fn law_reserved_object_answers_faults(
    before: VirtMemManager,
    after: VirtMemManager,
    size: u64,
    options: VmOptions,
    vmo: VmoId,
    start: u64,
    a: u64,
    error_code: u64,
)
    requires
        before.wf(),
        after.wf(),
        is_reserve(before, after, size, options, VmaBacking::Vmo(vmo), Ok(start)),
        start <= a < start + size,
    ensures
        segment_at(before@, a as int) is None,
        ({
            let r = fault_target_of(after@, a, error_code);
            if grants(options.permissions.0, error_code) {
                asks(r, vmo, a - a as int % 4096 - start, a, options.permissions)
            } else {
                r == Err::<FaultTarget, FaultError>(FaultError::AccessDenied)
            }
        }),
{
    before.lemma_disjoint();
    after.lemma_disjoint();
    lemma_segment_at(before@);
    lemma_segment_at(after@);
    match options.page_size {
        PageSize::Size4K => {},
        PageSize::Size2M => {},
        PageSize::Size1G => {},
    }
    assert(holds(after@, start, a as int));
    let t = segment_at(after@, a as int)->0;
    lemma_starts_a_page(t);
}

/// Answering a fault asks the memory object once, for the page of the target,
/// and puts the frame that comes back at the page of the target, with the
/// target's permissions. Where none comes back there is no memory.
pub proof fn law_answered_fault_installs_what_it_got<S: VmoSource, P: PageOps>(
    vmos: S,
    vmos_after: S,
    pages: P,
    pages_after: P,
    target: FaultTarget,
    r: Result<(), FaultError>,
)
    requires
        fault_answered(vmos, vmos_after, pages, pages_after, target, r),
    ensures
        ({
            let asked = vmos_after.requests().last();
            &&& vmos_after.requests().len() == vmos.requests().len() + 1
            &&& vmos_after.requests().drop_last() == vmos.requests()
            &&& asked.0 == target.vmo
            &&& asked.1 == target.backing_offset
            &&& asked.2 is None ==> r == Err::<(), FaultError>(FaultError::OutOfMemory)
                && pages_after == pages
            &&& asked.2 matches Some(phys) ==> {
                &&& pages_after.log().len() == pages.log().len() + 1
                &&& pages_after.log().drop_last() == pages.log()
                &&& pages_after.log().last().0 == (PageStep::Install {
                    virt: target.page,
                    phys,
                    page_size: PageSize::Size4K,
                    permissions: target.permissions,
                })
                &&& r is Ok <==> pages_after.log().last().1 is Ok
                &&& r is Err ==> r == Err::<(), FaultError>(FaultError::OutOfMemory)
            }
        }),
{
    assert(vmos_after.requests().drop_last() =~= vmos.requests());
    if vmos_after.requests().last().2 is Some {
        assert(pages_after.log().drop_last() =~= pages.log());
    }
}

/// Nothing is found any more where a stretch has been unmapped, and everywhere
/// outside its whole pages a fault finds what it found before.
pub proof fn law_unmapped_stretch_is_gone(
    m: Regions<VmaBacking>,
    after: Regions<VmaBacking>,
    addr: u64,
    size: u64,
    a: u64,
    error_code: u64,
)
    requires
        disjoint(m),
        disjoint(after),
        offsets_fit(m),
        normalized(addr, size, PageSize::Size4K) is Ok,
        ({
            let range = normalized(addr, size, PageSize::Size4K)->Ok_0;
            segment_at(after, a as int) == unmapped(
                refined(
                    segment_at(m, a as int),
                    range.start,
                    range.end,
                    granularity(range.start, range.end),
                    a as int,
                ),
                range.start,
                range.end,
                a as int,
            )
        }),
    ensures
        addr <= a < addr + size ==> fault_target_of(after, a, error_code) == Err::<
            FaultTarget,
            FaultError,
        >(FaultError::InvalidAddress),
        a < addr - 4095 || a >= addr + size + 4095 ==> fault_target_of(after, a, error_code)
            == fault_target_of(m, a, error_code),
{
    lemma_normalized(addr, size, PageSize::Size4K);
    lemma_segment_at(m);
    lemma_segment_at(after);
    let range = normalized(addr, size, PageSize::Size4K)->Ok_0;
    assert(addr - 4095 <= range.start && range.end < addr + size + 4096);
    law_unmap_is_local(
        segment_at(m, a as int),
        range.start,
        range.end,
        granularity(range.start, range.end),
        a as int,
    );
}

/// Where a stretch has been protected a fault finds the same page, as far as
/// the new permissions grant it, and everywhere outside its whole pages it
/// finds what it found before.
pub proof fn law_protected_stretch_keeps_its_pages(
    m: Regions<VmaBacking>,
    after: Regions<VmaBacking>,
    addr: u64,
    size: u64,
    permissions: VmPermissions,
    k: u64,
    a: u64,
    error_code: u64,
)
    requires
        disjoint(m),
        disjoint(after),
        offsets_fit(m),
        whole_pages(m),
        normalized(addr, size, PageSize::Size4K) is Ok,
        m.contains_key(k),
        k <= a < m[k].0,
        ({
            let range = normalized(addr, size, PageSize::Size4K)->Ok_0;
            segment_at(after, a as int) == protected(
                refined(
                    segment_at(m, a as int),
                    range.start,
                    range.end,
                    granularity(range.start, range.end),
                    a as int,
                ),
                range.start,
                range.end,
                permissions,
                a as int,
            )
        }),
    ensures
        ({
            let r = fault_target_of(after, a, error_code);
            let (end, vma) = m[k];
            &&& addr <= a < addr + size ==> match vma.backing {
                VmaBacking::Vmo(vmo) if grants(permissions.0, error_code) => asks(
                    r,
                    vmo,
                    vma.backing_offset + (a - a as int % 4096 - k),
                    a,
                    permissions,
                ),
                _ => r == Err::<FaultTarget, FaultError>(FaultError::AccessDenied),
            }
            &&& a < addr - 4095 || a >= addr + size + 4095 ==> r == fault_target_of(
                m,
                a,
                error_code,
            )
        }),
{
    lemma_normalized(addr, size, PageSize::Size4K);
    lemma_segment_at(m);
    lemma_segment_at(after);
    assert(holds(m, k, a as int));
    let s = segment_of(m, k);
    lemma_starts_a_page(s);
    assert(s.fits());
    let range = normalized(addr, size, PageSize::Size4K)->Ok_0;
    assert(addr - 4095 <= range.start && range.end < addr + size + 4096);
    law_protect_is_local(
        segment_at(m, a as int),
        range.start,
        range.end,
        granularity(range.start, range.end),
        permissions,
        a as int,
    );
    let t = segment_at(after, a as int)->0;
    assert(position(t, a as int) == position(s, a as int));
    assert(t.vma.backing_offset + (a - a as int % 4096 - t.start) == s.vma.backing_offset + (a - a
        as int % 4096 - k));
    assert(t.vma.backing == s.vma.backing);
    lemma_page_not_before(k as int, a as int);
    assert(0 <= s.vma.backing_offset + (a - a as int % 4096 - k) <= u64::MAX);
    if addr <= a < addr + size {
        assert(t.vma.permissions == permissions);
    } else if a < addr - 4095 || a >= addr + size + 4095 {
        assert(t.vma.permissions == s.vma.permissions);
        assert(fault_target_of(after, a, error_code) == fault_target_of(m, a, error_code));
    }
}

/// Every address that one of the operations is about is among those whose cached
/// translations are dropped, and these begin and end where one of the operations
/// does.
pub proof fn law_shootdown_covers_the_operations(ops: Seq<PagerOp>, i: int, a: u64)
    requires
        0 <= i < ops.len(),
        op_start(ops[i]) <= a < op_end(ops[i]),
    ensures
        lowest(ops) <= a < highest(ops),
        exists|j: int| 0 <= j < ops.len() && op_start(#[trigger] ops[j]) == lowest(ops),
        exists|j: int| 0 <= j < ops.len() && op_end(#[trigger] ops[j]) == highest(ops),
{
    lemma_bounds(ops);
    lemma_within_bounds(ops, i);
}

proof fn lemma_bounds(ops: Seq<PagerOp>)
    requires
        ops.len() > 0,
    ensures
        exists|j: int| 0 <= j < ops.len() && op_start(#[trigger] ops[j]) == lowest(ops),
        exists|j: int| 0 <= j < ops.len() && op_end(#[trigger] ops[j]) == highest(ops),
    decreases ops.len(),
{
    let n = ops.len() - 1;
    let rest = ops.drop_last();
    if rest.len() > 0 {
        lemma_bounds(rest);
        let j = choose|j: int| 0 <= j < rest.len() && op_start(#[trigger] rest[j]) == lowest(rest);
        let k = choose|k: int| 0 <= k < rest.len() && op_end(#[trigger] rest[k]) == highest(rest);
        assert(ops[j] == rest[j] && ops[k] == rest[k]);
    } else {
        assert(lowest(rest) == u64::MAX && highest(rest) == 0);
    }
    assert(ops[n] == ops.last());
}

proof fn lemma_within_bounds(ops: Seq<PagerOp>, i: int)
    requires
        0 <= i < ops.len(),
    ensures
        lowest(ops) <= op_start(ops[i]),
        op_end(ops[i]) <= highest(ops),
    decreases ops.len(),
{
    if i < ops.len() - 1 {
        assert(ops.drop_last()[i] == ops[i]);
        lemma_within_bounds(ops.drop_last(), i);
    }
}

/// The page that a step is about, and how large it is.
pub open spec fn step_page(step: PageStep) -> (u64, u64) {
    match step {
        PageStep::Unmap { virt, page_size } => (virt, page_size.bytes()),
        PageStep::Protect { virt, page_size, .. } => (virt, page_size.bytes()),
        PageStep::Demote { virt, from } => (virt, from.bytes()),
        PageStep::Install { virt, page_size, .. } => (virt, page_size.bytes()),
    }
}

/// An operation takes a step for every page of its stretch: each address of it
/// lies in the page of one of the steps, which does to that page what the
/// operation is for. A frame that is mapped lies as far behind the first one as
/// its page.
pub proof fn law_operation_takes_every_page(op: PagerOp, a: u64)
    requires
        op_fits(op),
        op_start(op) <= a < op_end(op),
    ensures
        exists|i: int|
            0 <= i < steps_of(op).len() && #[trigger] is_step_for(op, steps_of(op)[i], a),
{
    let page = op_page(op) as int;
    let start = op_start(op) as int;
    let i = (a - start) / page;
    vstd::arithmetic::div_mod::lemma_fundamental_div_mod(a - start, page);
    let total = op_end(op) - start + page - 1;
    vstd::arithmetic::div_mod::lemma_fundamental_div_mod(total, page);
    assert(i >= 0 && i < total / page && i * page == page * i) by (nonlinear_arith)
        requires
            i == (a - start) / page,
            page > 0,
            0 <= a - start,
            a - start + page <= total,
    ;
    assert(is_step_for(op, steps_of(op)[i], a));
}

/// A step of an operation that is about the page of an address.
pub open spec fn is_step_for(op: PagerOp, step: PageStep, a: u64) -> bool {
    let (virt, size) = step_page(step);
    &&& virt <= a < virt + size
    &&& match op {
        PagerOp::Unmap { page_size, .. } => step matches PageStep::Unmap { page_size: s, .. } && s
            == page_size,
        PagerOp::Protect { page_size, permissions, .. } => step matches PageStep::Protect {
            page_size: s,
            permissions: p,
            ..
        } && s == page_size && p == permissions,
        PagerOp::Demote { from, .. } => step matches PageStep::Demote { from: f, .. } && f == from,
        PagerOp::MapRange { start, phys, page_size, permissions, .. } => step
            matches PageStep::Install { phys: f, page_size: s, permissions: p, .. } && f - phys
            == virt - start && s == page_size && p == permissions,
    }
}

/// An address is translated to the place that lies as far behind `phys` as the
/// address lies behind the start of its page, and what the page may be used for
/// is what the permissions grant.
pub open spec fn leads_to(
    mem: Tables,
    root: u64,
    virt: u64,
    phys: u64,
    page_size: PageSize,
    permissions: VmPermissions,
) -> bool {
    translation(mem, root, virt) matches Some((at, size, flags)) && {
        &&& at.0 == phys + virt % page_size.bytes()
        &&& size == page_size
        &&& flags.0 & 0x2 != 0 <==> permissions.0 & 1 == 1
        &&& flags.0 & 0x4 != 0 <==> permissions.0 & 4 == 4
        &&& flags.0 & 0x8000_0000_0000_0000 == 0 <==> permissions.0 & 2 == 2
    }
}

proof fn lemma_leads_to(
    mem: Tables,
    root: u64,
    virt: u64,
    phys: u64,
    page_size: PageSize,
    permissions: VmPermissions,
)
    requires
        frame(phys) == phys,
        phys + page_size.bytes() <= u64::MAX,
        mapping(mem, root, page_number(virt)) == Some(
            (leaf_level(page_size), leaf_entry(phys, entry_bits(permissions), page_size)),
        ),
    ensures
        leads_to(mem, root, virt, phys, page_size, permissions),
{
    lemma_permission_bits(
        permissions.0 & 1 == 1,
        permissions.0 & 4 == 4,
        permissions.0 & 8 == 8,
        permissions.0 & 2 == 2,
        0,
    );
    law_mapped_page_translates(mem, root, virt, phys, entry_bits(permissions), page_size);
}

/// A page that has been installed leads to its frame, with the permissions that
/// it was installed with. Pages beside it lead where they led.
pub proof fn law_installed_page_leads_to_its_frame(
    mem: Tables,
    after: Tables,
    root: u64,
    capacity: nat,
    virt: u64,
    phys: u64,
    page_size: PageSize,
    permissions: VmPermissions,
    other: int,
)
    requires
        is_page(other),
        frame(phys) == phys,
        phys + page_size.bytes() <= u64::MAX,
        stepped(
            mem,
            after,
            root,
            capacity,
            PageStep::Install { virt, phys, page_size, permissions },
            Ok(()),
        ),
    ensures
        leads_to(after, root, virt, phys, page_size, permissions),
        group(other, leaf_level(page_size)) != group(page_number(virt), leaf_level(page_size))
            ==> mapping(after, root, other) == mapping(mem, root, other),
{
    assert(mapping(after, root, page_number(virt)) is Some);
    lemma_leads_to(after, root, virt, phys, page_size, permissions);
}

/// A page that has been protected leads to the frame that it led to, with the
/// new permissions. Pages beside it lead where they led.
pub proof fn law_protected_page_keeps_its_frame(
    mem: Tables,
    after: Tables,
    root: u64,
    capacity: nat,
    virt: u64,
    page_size: PageSize,
    permissions: VmPermissions,
    entry: u64,
    other: int,
)
    requires
        is_page(other),
        search(mem, root, page_number(virt), 3, leaf_level(page_size)) == Ok::<u64, PagerError>(
            entry,
        ),
        frame(entry) + page_size.bytes() <= u64::MAX,
        stepped(
            mem,
            after,
            root,
            capacity,
            PageStep::Protect { virt, page_size, permissions },
            Ok(()),
        ),
    ensures
        leads_to(after, root, virt, frame(entry), page_size, permissions),
        group(other, leaf_level(page_size)) != group(page_number(virt), leaf_level(page_size))
            ==> mapping(after, root, other) == mapping(mem, root, other),
{
    lemma_permission_bits(false, false, false, false, entry);
    assert(mapping(after, root, page_number(virt)) is Some);
    lemma_leads_to(after, root, virt, frame(entry), page_size, permissions);
}

/// A page that has been unmapped leads nowhere. Pages beside it lead where they
/// led.
pub proof fn law_unmapped_page_leads_nowhere(
    mem: Tables,
    after: Tables,
    root: u64,
    capacity: nat,
    virt: u64,
    page_size: PageSize,
    other: int,
)
    requires
        is_page(other),
        stepped(mem, after, root, capacity, PageStep::Unmap { virt, page_size }, Ok(())),
    ensures
        translation(after, root, virt) is None,
        group(other, leaf_level(page_size)) != group(page_number(virt), leaf_level(page_size))
            ==> mapping(after, root, other) == mapping(mem, root, other),
{
    assert(mapping(after, root, page_number(virt)) is None);
}

} // verus!
