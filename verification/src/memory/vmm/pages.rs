//! What the page tables of an address space have to do for a change of its
//! regions, page by page.

use crate::hal::mmu::growth::{added, emptied_below};
use crate::hal::mmu::pager::{
    blocked, frame, given_back, group, is_page, is_table, leaf_entry, leaf_level,
    lemma_nothing_mapped, mapping, missing, page_number, present, returnable, search, slot, spare,
    unmap_outcome, Pager, PagerError, PhysMemory, Tables,
};
use crate::hal::mmu::{FrameAllocator, PageFlags, PhysAddr, VirtAddr};
use crate::memory::vma::{max, min};
use crate::memory::vmm2::transaction::PagerOp;
use crate::memory::vmm2::types::{PageSize, VmError, VmPermissions};
use vstd::prelude::*;

verus! {

/// One change to one page of the page tables.
#[derive(Debug, Clone, Copy, PartialEq, Eq, Structural)]
pub enum PageStep {
    Unmap { virt: u64, page_size: PageSize },
    Protect { virt: u64, page_size: PageSize, permissions: VmPermissions },
    Demote { virt: u64, from: PageSize },
    Install { virt: u64, phys: u64, page_size: PageSize, permissions: VmPermissions },
}

/// Where the page of a step starts, and how large it is.
pub open spec fn step_page(step: PageStep) -> (u64, PageSize) {
    match step {
        PageStep::Unmap { virt, page_size } => (virt, page_size),
        PageStep::Protect { virt, page_size, .. } => (virt, page_size),
        PageStep::Demote { virt, from } => (virt, from),
        PageStep::Install { virt, page_size, .. } => (virt, page_size),
    }
}

/// Base page `n` belongs to the page of a step.
pub open spec fn step_holds(step: PageStep, n: int) -> bool {
    let (virt, size) = step_page(step);
    group(n, leaf_level(size)) == group(page_number(virt), leaf_level(size))
}

/// What the page tables were told and what they answered, in order.
pub type PageLog = Seq<(PageStep, Result<(), PagerError>)>;

/// The number of a base page.
pub type PageNumber = int;

/// Stretches of addresses, each with its start and its size.
pub type Flushes = Seq<(u64, u64)>;

/// The page tables of an address space, and the means to make the other
/// processors forget what they cached of them.
pub trait PageOps {
    spec fn ready(&self) -> bool;

    /// The steps so far, with their answers.
    spec fn log(&self) -> PageLog;

    /// The stretches that the processors were told to forget.
    spec fn flushes(&self) -> Flushes;

    /// A page, given by its number, leads somewhere.
    spec fn maps(&self, page: PageNumber) -> bool;

    fn apply(&mut self, step: PageStep) -> (r: Result<(), PagerError>)
        requires
            old(self).ready(),
        ensures
            final(self).ready(),
            final(self).log() == old(self).log().push((step, r)),
            final(self).flushes() == old(self).flushes(),
            forall|n: int|
                !step_holds(step, n) || step is Demote ==> #[trigger] final(self).maps(n) == old(self).maps(n),
            step is Unmap ==> forall|n: int| #[trigger] final(self).maps(n) ==> old(self).maps(n),
            step is Unmap && (r is Ok || r == Err::<(), PagerError>(PagerError::NotMapped))
                ==> forall|n: int| step_holds(step, n) ==> !#[trigger] final(self).maps(n),
            step is Install && r is Ok ==> forall|n: int|
                is_page(n) && step_holds(step, n) ==> #[trigger] final(self).maps(n),
    ;

    fn shootdown(&mut self, start: u64, size: u64)
        requires
            old(self).ready(),
        ensures
            final(self).ready(),
            final(self).log() == old(self).log(),
            final(self).flushes() == old(self).flushes().push((start, size)),
            forall|n: int| #[trigger] final(self).maps(n) == old(self).maps(n),
    ;
}

/// The `i`-th page of an operation.
pub open spec fn step_of(op: PagerOp, i: int) -> PageStep {
    match op {
        PagerOp::Unmap { start, end: _, page_size } => PageStep::Unmap {
            virt: (start + i * page_size.bytes()) as u64,
            page_size,
        },
        PagerOp::Protect { start, end: _, page_size, permissions } => PageStep::Protect {
            virt: (start + i * page_size.bytes()) as u64,
            page_size,
            permissions,
        },
        PagerOp::Demote { start, end: _, from } => PageStep::Demote {
            virt: (start + i * from.bytes()) as u64,
            from,
        },
        PagerOp::MapRange { start, end: _, phys, page_size, permissions } => PageStep::Install {
            virt: (start + i * page_size.bytes()) as u64,
            phys: (phys + i * page_size.bytes()) as u64,
            page_size,
            permissions,
        },
    }
}

pub open spec fn op_start(op: PagerOp) -> u64 {
    match op {
        PagerOp::Unmap { start, .. } => start,
        PagerOp::Protect { start, .. } => start,
        PagerOp::Demote { start, .. } => start,
        PagerOp::MapRange { start, .. } => start,
    }
}

pub open spec fn op_end(op: PagerOp) -> u64 {
    match op {
        PagerOp::Unmap { end, .. } => end,
        PagerOp::Protect { end, .. } => end,
        PagerOp::Demote { end, .. } => end,
        PagerOp::MapRange { end, .. } => end,
    }
}

pub open spec fn op_page(op: PagerOp) -> u64 {
    match op {
        PagerOp::Unmap { page_size, .. } => page_size.bytes(),
        PagerOp::Protect { page_size, .. } => page_size.bytes(),
        PagerOp::Demote { from, .. } => from.bytes(),
        PagerOp::MapRange { page_size, .. } => page_size.bytes(),
    }
}

/// How many pages an operation takes: as many as begin in its stretch.
pub open spec fn op_pages(op: PagerOp) -> int {
    if op_end(op) <= op_start(op) {
        0
    } else {
        (op_end(op) - op_start(op) + op_page(op) - 1) / op_page(op) as int
    }
}

/// None of the operation's addresses overflows.
pub open spec fn op_fits(op: PagerOp) -> bool {
    &&& op_end(op) + op_page(op) <= u64::MAX
    &&& op matches PagerOp::MapRange { start, end, phys, page_size, .. } ==> phys + (end - start)
        + page_size.bytes() <= u64::MAX
}

/// The steps of an operation, page by page.
pub open spec fn steps_of(op: PagerOp) -> Seq<PageStep> {
    Seq::new(op_pages(op) as nat, |i: int| step_of(op, i))
}

pub fn page_steps(op: PagerOp) -> (r: Vec<PageStep>)
    requires
        op_fits(op),
    ensures
        r@ == steps_of(op),
{
    let start = match op {
        PagerOp::Unmap { start, .. } => start,
        PagerOp::Protect { start, .. } => start,
        PagerOp::Demote { start, .. } => start,
        PagerOp::MapRange { start, .. } => start,
    };
    let end = match op {
        PagerOp::Unmap { end, .. } => end,
        PagerOp::Protect { end, .. } => end,
        PagerOp::Demote { end, .. } => end,
        PagerOp::MapRange { end, .. } => end,
    };
    let page = match op {
        PagerOp::Unmap { page_size, .. } => page_size.bytes(),
        PagerOp::Protect { page_size, .. } => page_size.bytes(),
        PagerOp::Demote { from, .. } => from.bytes(),
        PagerOp::MapRange { page_size, .. } => page_size.bytes(),
    };
    let phys = match op {
        PagerOp::MapRange { phys, .. } => phys,
        _ => 0,
    };
    let mut steps: Vec<PageStep> = Vec::new();
    let mut current = start;
    let mut current_phys = phys;
    let ghost mut i: int = 0;
    while current < end
        invariant
            op_fits(op),
            start == op_start(op),
            end == op_end(op),
            page == op_page(op),
            page > 0,
            0 <= i,
            steps@.len() == i,
            current == start + i * page,
            op matches PagerOp::MapRange { phys: p, .. } ==> phys == p && current_phys == phys + i
                * page,
            !(op is MapRange) ==> phys == 0,
            op is MapRange ==> current_phys - phys == current - start,
            !(op is MapRange) ==> current_phys == 0,
            forall|j: int| 0 <= j < i ==> #[trigger] steps@[j] == step_of(op, j),
            i > 0 ==> current - page < end,
        decreases end + page - current,
    {
        let step = match op {
            PagerOp::Unmap { page_size, .. } => PageStep::Unmap { virt: current, page_size },
            PagerOp::Protect { page_size, permissions, .. } => PageStep::Protect {
                virt: current,
                page_size,
                permissions,
            },
            PagerOp::Demote { from, .. } => PageStep::Demote { virt: current, from },
            PagerOp::MapRange { page_size, permissions, .. } => PageStep::Install {
                virt: current,
                phys: current_phys,
                page_size,
                permissions,
            },
        };
        assert(step == step_of(op, i));
        steps.push(step);
        assert((i + 1) * page == i * page + page) by (nonlinear_arith);
        current += page;
        if let PagerOp::MapRange { .. } = op {
            current_phys += page;
        }
        proof {
            i = i + 1;
        }
    }
    proof {
        if start < end {
            let d = end - start;
            let b = page as int;
            vstd::arithmetic::div_mod::lemma_fundamental_div_mod_converse(
                d + b - 1,
                b,
                i,
                d + b - 1 - i * b,
            );
            assert(b * i == i * b) by (nonlinear_arith);
        } else {
            assert(i == 0) by {
                if i > 0 {
                    assert(i * page >= page) by (nonlinear_arith)
                        requires
                            i > 0,
                            page > 0,
                    ;
                }
            }
        }
        assert(steps@ =~= steps_of(op));
    }
    steps
}

/// An answer of the page tables that does not stop an operation: there is
/// nothing to change where nothing was mapped, and nothing to install where
/// something is.
pub open spec fn tolerated(step: PageStep, e: PagerError) -> bool {
    match step {
        PageStep::Install { .. } => e == PagerError::AlreadyMapped,
        _ => e == PagerError::NotMapped,
    }
}

pub fn is_tolerated(step: PageStep, e: PagerError) -> (r: bool)
    ensures
        r == tolerated(step, e),
{
    match step {
        PageStep::Install { .. } => e == PagerError::AlreadyMapped,
        _ => e == PagerError::NotMapped,
    }
}

/// The first address that any of the operations touches.
pub open spec fn lowest(ops: Seq<PagerOp>) -> u64
    decreases ops.len(),
{
    if ops.len() == 0 {
        u64::MAX
    } else {
        min(lowest(ops.drop_last()), op_start(ops.last()))
    }
}

/// The end of the last address that any of the operations touches.
pub open spec fn highest(ops: Seq<PagerOp>) -> u64
    decreases ops.len(),
{
    if ops.len() == 0 {
        0
    } else {
        max(highest(ops.drop_last()), op_end(ops.last()))
    }
}

/// The stretch whose cached translations have to be dropped after the
/// operations: where it starts and how long it is.
pub fn shootdown_range(ops: &Vec<PagerOp>) -> (r: Option<(u64, u64)>)
    ensures
        r == (if highest(ops@) > lowest(ops@) {
            Some((lowest(ops@), (highest(ops@) - lowest(ops@)) as u64))
        } else {
            None
        }),
{
    let mut min_start = u64::MAX;
    let mut max_end: u64 = 0;
    let mut i: usize = 0;
    assert(ops@.take(0) =~= Seq::empty());
    while i < ops.len()
        invariant
            i <= ops@.len(),
            min_start == lowest(ops@.take(i as int)),
            max_end == highest(ops@.take(i as int)),
        decreases ops@.len() - i,
    {
        let (start, end) = match ops[i] {
            PagerOp::Unmap { start, end, .. } => (start, end),
            PagerOp::Protect { start, end, .. } => (start, end),
            PagerOp::Demote { start, end, .. } => (start, end),
            PagerOp::MapRange { start, end, .. } => (start, end),
        };
        proof {
            let t = ops@.take(i + 1);
            assert(t.drop_last() =~= ops@.take(i as int));
            assert(t.last() == ops@[i as int]);
        }
        if start < min_start {
            min_start = start;
        }
        if end > max_end {
            max_end = end;
        }
        i += 1;
    }
    assert(ops@.take(i as int) =~= ops@);
    if max_end > min_start {
        Some((min_start, max_end - min_start))
    } else {
        None
    }
}

/// The answer lets an operation go on.
pub open spec fn accepted(entry: (PageStep, Result<(), PagerError>)) -> bool {
    entry.1 matches Err(e) ==> tolerated(entry.0, e)
}

/// The steps of all operations, in order.
pub open spec fn all_steps(ops: Seq<PagerOp>) -> Seq<PageStep>
    decreases ops.len(),
{
    if ops.len() == 0 {
        Seq::empty()
    } else {
        all_steps(ops.drop_last()) + steps_of(ops.last())
    }
}

/// The log went on by `steps`, and every answer let it.
pub open spec fn followed(before: PageLog, after: PageLog, steps: Seq<PageStep>) -> bool {
    &&& after.len() == before.len() + steps.len()
    &&& forall|i: int| 0 <= i < before.len() ==> #[trigger] after[i] == before[i]
    &&& forall|i: int|
        before.len() <= i < after.len() ==> (#[trigger] after[i]).0 == steps[i - before.len()]
            && accepted(after[i])
}

/// The log went on by the first of `steps`, up to one whose answer ended it.
pub open spec fn refused(before: PageLog, after: PageLog, steps: Seq<PageStep>) -> bool {
    let n = after.len() - before.len() - 1;
    &&& 0 <= n < steps.len()
    &&& followed(before, after.drop_last(), steps.take(n))
    &&& after.last().0 == steps[n]
    &&& !accepted(after.last())
}

/// The page tables took the operations, all of them and with the processors
/// told, or up to the step that they refused.
pub open spec fn carried_out<P: PageOps>(
    before: P,
    after: P,
    ops: Seq<PagerOp>,
    done: bool,
) -> bool {
    if done {
        &&& followed(before.log(), after.log(), all_steps(ops))
        &&& after.flushes() == if highest(ops) > lowest(ops) {
            before.flushes().push((lowest(ops), (highest(ops) - lowest(ops)) as u64))
        } else {
            before.flushes()
        }
    } else {
        &&& refused(before.log(), after.log(), all_steps(ops))
        &&& after.flushes() == before.flushes()
    }
}

/// The operations only take pages away, and split them.
pub open spec fn only_unmaps(ops: Seq<PagerOp>) -> bool {
    forall|i: int|
        0 <= i < ops.len() ==> (#[trigger] ops[i]) is Unmap || ops[i] is Demote
}

/// No page that one of the operations takes away leads anywhere.
pub open spec fn cleared<P: PageOps>(pages: P, ops: Seq<PagerOp>) -> bool {
    forall|i: int, j: int, n: int|
        {
            &&& 0 <= i < ops.len()
            &&& ops[i] is Unmap
            &&& 0 <= j < op_pages(ops[i])
            &&& #[trigger] step_holds(step_of(ops[i], j), n)
        } ==> !pages.maps(n)
}

/// The steps of the first operations come first.
proof fn lemma_first_steps(ops: Seq<PagerOp>, k: int)
    requires
        0 <= k <= ops.len(),
    ensures
        all_steps(ops.take(k)).len() <= all_steps(ops).len(),
        all_steps(ops).take(all_steps(ops.take(k)).len() as int) == all_steps(ops.take(k)),
    decreases ops.len(),
{
    if k < ops.len() {
        assert(ops.drop_last().take(k) =~= ops.take(k));
        lemma_first_steps(ops.drop_last(), k);
        assert(all_steps(ops).take(all_steps(ops.take(k)).len() as int) =~= all_steps(
            ops.drop_last(),
        ).take(all_steps(ops.take(k)).len() as int));
    } else {
        assert(ops.take(k) =~= ops);
        assert(all_steps(ops).take(all_steps(ops).len() as int) =~= all_steps(ops));
    }
}

/// Has the page tables follow, step by step; an answer that is not tolerated
/// ends it.
pub(crate) fn execute_pager_ops<P: PageOps>(ops: &Vec<PagerOp>, pages: &mut P) -> (r: Result<
    (),
    VmError,
>)
    requires
        old(pages).ready(),
        forall|i: int| 0 <= i < ops@.len() ==> op_fits(#[trigger] ops@[i]),
    ensures
        final(pages).ready(),
        carried_out(*old(pages), *final(pages), ops@, r is Ok),
        only_unmaps(ops@) && r is Ok ==> cleared(*final(pages), ops@),
        r == Ok::<(), VmError>(()) || r == Err::<(), VmError>(VmError::MappingFailed),
        ops@.len() == 0 ==> r is Ok && *final(pages) == *old(pages),
{
    if ops.len() == 0 {
        return Ok(());
    }
    let ghost log = pages.log();
    let mut i: usize = 0;
    assert(ops@.take(0) =~= Seq::empty());
    while i < ops.len()
        invariant
            i <= ops@.len(),
            ops@.len() > 0,
            pages.ready(),
            forall|i: int| 0 <= i < ops@.len() ==> op_fits(#[trigger] ops@[i]),
            log == old(pages).log(),
            followed(log, pages.log(), all_steps(ops@.take(i as int))),
            pages.flushes() == old(pages).flushes(),
            only_unmaps(ops@) ==> cleared(*pages, ops@.take(i as int)),
        decreases ops@.len() - i,
    {
        let steps = page_steps(ops[i]);
        let ghost done = all_steps(ops@.take(i as int));
        proof {
            let t = ops@.take(i + 1);
            assert(t.drop_last() =~= ops@.take(i as int));
            assert(t.last() == ops@[i as int]);
            assert(all_steps(t) == done + steps@);
            assert(done + steps@.take(0) =~= done);
        }
        let mut j: usize = 0;
        while j < steps.len()
            invariant
                j <= steps@.len(),
                i < ops@.len(),
                pages.ready(),
                log == old(pages).log(),
                all_steps(ops@.take(i + 1)) == done + steps@,
                followed(log, pages.log(), done + steps@.take(j as int)),
                pages.flushes() == old(pages).flushes(),
                steps@ == steps_of(ops@[i as int]),
                only_unmaps(ops@) ==> cleared(*pages, ops@.take(i as int)),
                only_unmaps(ops@) && ops@[i as int] is Unmap ==> forall|k: int, n: int|
                    0 <= k < j && #[trigger] step_holds(steps@[k], n) ==> !pages.maps(n),
            decreases steps@.len() - j,
        {
            let ghost before = pages.log();
            let ghost held = *pages;
            assert(steps@[j as int] == step_of(ops@[i as int], j as int));
            if let Err(e) = pages.apply(steps[j]) {
                if !is_tolerated(steps[j], e) {
                    proof {
                        let all = all_steps(ops@);
                        let part = done + steps@;
                        let n = done.len() + j;
                        lemma_first_steps(ops@, i + 1);
                        assert(all.take(part.len() as int)[n] == part[n]);
                        assert(all.take(n) =~= done + steps@.take(j as int)) by {
                            assert(all.take(n) =~= all.take(part.len() as int).take(n));
                        }
                        assert(pages.log().drop_last() =~= before);
                    }
                    return Err(VmError::MappingFailed);
                }
            }
            proof {
                if only_unmaps(ops@) {
                    assert(ops@[i as int] is Unmap || ops@[i as int] is Demote);
                    assert forall|n: int| #[trigger] pages.maps(n) implies held.maps(n) by {}
                    assert(cleared(*pages, ops@.take(i as int)));
                }
                assert(steps@.take(j + 1) =~= steps@.take(j as int).push(steps@[j as int]));
                assert forall|k: int| log.len() <= k < pages.log().len() implies (
                #[trigger] pages.log()[k]).0 == (done + steps@.take(j + 1))[k - log.len()]
                    && accepted(pages.log()[k]) by {
                    if k < before.len() {
                        assert(before[k].0 == (done + steps@.take(j as int))[k - log.len()]);
                    }
                }
            }
            j += 1;
        }
        assert(steps@.take(j as int) =~= steps@);
        proof {
            if only_unmaps(ops@) {
                let t = ops@.take(i + 1);
                assert forall|a: int, b: int, n: int|
                    {
                        &&& 0 <= a < t.len()
                        &&& t[a] is Unmap
                        &&& 0 <= b < op_pages(t[a])
                        &&& #[trigger] step_holds(step_of(t[a], b), n)
                    } implies !pages.maps(n) by {
                    if a < i {
                        assert(step_holds(step_of(ops@.take(i as int)[a], b), n));
                    } else {
                        assert(step_holds(steps@[b], n));
                    }
                }
            }
        }
        i += 1;
    }
    assert(ops@.take(i as int) =~= ops@);
    if let Some((start, size)) = shootdown_range(ops) {
        pages.shootdown(start, size);
    }
    Ok(())
}

/// The entry that a step leaves for its page.
pub open spec fn entry_bits(permissions: VmPermissions) -> u64 {
    permissions.hardware_bits() | PageFlags::PRESENT
}

/// The pages of `n`'s group at `leaf` rest on `entry`, and no other page
/// changed.
pub open spec fn remapped(
    mem: Tables,
    after: Tables,
    root: u64,
    n: int,
    leaf: nat,
    entry: Option<(nat, u64)>,
) -> bool {
    forall|i: int|
        is_page(i) ==> #[trigger] mapping(after, root, i) == if group(i, leaf) == group(n, leaf) {
            entry
        } else {
            mapping(mem, root, i)
        }
}

/// What a step does to page tables at `root`, and what they answer. They can
/// grow by `capacity` tables.
pub open spec fn stepped(
    mem: Tables,
    after: Tables,
    root: u64,
    capacity: nat,
    step: PageStep,
    r: Result<(), PagerError>,
) -> bool {
    match step {
        PageStep::Unmap { virt, page_size } => {
            let leaf = leaf_level(page_size);
            &&& r == unmap_outcome(mem, root, page_number(virt), 3, leaf)
            &&& r is Ok ==> remapped(mem, after, root, page_number(virt), leaf, None)
            &&& r is Err ==> after == mem
        },
        PageStep::Protect { virt, page_size, permissions } => {
            let leaf = leaf_level(page_size);
            match search(mem, root, page_number(virt), 3, leaf) {
                Err(_) => r == Err::<(), PagerError>(PagerError::NotMapped) && after == mem,
                Ok(entry) => {
                    let bits = leaf_entry(frame(entry), entry_bits(permissions), page_size);
                    &&& r == Ok::<(), PagerError>(())
                    &&& remapped(mem, after, root, page_number(virt), leaf, Some((leaf, bits)))
                },
            }
        },
        PageStep::Demote { virt, from } => {
            &&& after == mem
            &&& r == match mapping(mem, root, page_number(virt)) {
                None => Err::<(), PagerError>(PagerError::NotMapped),
                Some((level, _)) => if level < leaf_level(from) {
                    Ok(())
                } else {
                    Err(PagerError::HugePageClash)
                },
            }
        },
        PageStep::Install { virt, phys, page_size, permissions } => {
            let n = page_number(virt);
            let leaf = leaf_level(page_size);
            let at = slot(mem, root, leaf, group(n, leaf));
            let bits = leaf_entry(phys, entry_bits(permissions), page_size);
            match r {
                Ok(()) => {
                    &&& !blocked(mem, root, n, leaf)
                    &&& !(at is Some && present(at->0))
                    &&& missing(mem, root, n, 3, leaf) <= capacity
                    &&& remapped(mem, after, root, n, leaf, Some((leaf, bits)))
                },
                Err(PagerError::HugePageClash) => blocked(mem, root, n, leaf) && after == mem,
                Err(PagerError::AlreadyMapped) => {
                    &&& !blocked(mem, root, n, leaf)
                    &&& at is Some && present(at->0)
                    &&& after == mem
                },
                Err(e) => {
                    &&& e == PagerError::OutOfMemory
                    &&& !blocked(mem, root, n, leaf) && at is None
                    &&& capacity < missing(mem, root, n, 3, leaf)
                    &&& forall|i: int|
                        is_page(i) ==> #[trigger] mapping(after, root, i) == mapping(mem, root, i)
                },
            }
        },
    }
}

/// What a step does to the frames that page tables grow by: unmapping gives
/// back the tables that it leaves empty, and a mapping takes what it adds.
pub open spec fn frames_moved<A: FrameAllocator>(
    frames: A,
    frames_after: A,
    mem: Tables,
    after: Tables,
    root: u64,
    step: PageStep,
    r: Result<(), PagerError>,
) -> bool {
    match step {
        PageStep::Unmap { virt, page_size } => {
            let (n, leaf) = (page_number(virt), leaf_level(page_size));
            &&& r is Ok ==> given_back(frames, frames_after, emptied_below(mem, root, n, leaf, 3))
            &&& r is Err ==> frames_after == frames
        },
        PageStep::Install { virt, page_size, .. } => {
            let (n, leaf) = (page_number(virt), leaf_level(page_size));
            r is Ok ==> {
                &&& frames_after.available() == frames.available().difference(
                    added(mem, after, root, n, leaf),
                )
                &&& frames_after.capacity() + missing(mem, root, n, 3, leaf) == frames.capacity()
            }
        },
        _ => frames_after == frames,
    }
}

/// The page tables of an address space in memory, with the frames that they
/// grow by. Pages are not split here: where a page is still larger than a
/// demotion asks for, the demotion is refused.
pub struct TablePages<A> {
    pub pager: Pager,
    pub memory: PhysMemory,
    pub frames: A,
    /// The stretches that the processors have to be told of, each with its
    /// start and its size.
    pub pending: Vec<(u64, u64)>,
    pub told: Ghost<PageLog>,
}

impl<A: FrameAllocator> TablePages<A> {
    pub fn new(pager: Pager, memory: PhysMemory, frames: A) -> (r: Self)
        ensures
            r.pager == pager,
            r.memory == memory,
            r.frames == frames,
            r.flushes() == Flushes::empty(),
            r.log() == PageLog::empty(),
    {
        TablePages { pager, memory, frames, pending: Vec::new(), told: Ghost(Seq::empty()) }
    }
}

impl<A: FrameAllocator> PageOps for TablePages<A> {
    open spec fn ready(&self) -> bool {
        let root = self.pager.root().0;
        &&& self.pager.wf(self.memory@)
        &&& self.memory@.contains_key(root)
        &&& self.frames.ready()
        &&& spare(self.memory@, root, self.frames.available())
        &&& returnable(self.memory@, root, self.frames)
    }

    open spec fn log(&self) -> PageLog {
        self.told@
    }

    open spec fn flushes(&self) -> Flushes {
        self.pending@
    }

    open spec fn maps(&self, page: PageNumber) -> bool {
        is_page(page) && mapping(self.memory@, self.pager.root().0, page) is Some
    }

    fn apply(&mut self, step: PageStep) -> (r: Result<(), PagerError>)
        ensures
            final(self).pager == old(self).pager,
            stepped(
                old(self).memory@,
                final(self).memory@,
                old(self).pager.root().0,
                old(self).frames.capacity(),
                step,
                r,
            ),
            frames_moved(
                old(self).frames,
                final(self).frames,
                old(self).memory@,
                final(self).memory@,
                old(self).pager.root().0,
                step,
                r,
            ),
            forall|t: u64|
                !is_table(old(self).memory@, old(self).pager.root().0, t) && !old(self).frames.available().contains(t) ==> #[trigger] final(self).memory@[t] == old(self).memory@[t],
    {
        let r = match step {
            PageStep::Unmap { virt, page_size } => self.pager.unmap_page_no_flush(
                &mut self.memory,
                VirtAddr(virt),
                page_size,
                &mut self.frames,
            ),
            PageStep::Protect { virt, page_size, permissions } => {
                let flags = permissions.to_hardware_flags().insert(PageFlags(PageFlags::PRESENT));
                self.pager.change_flags_no_flush(&mut self.memory, VirtAddr(virt), flags, page_size)
            },
            PageStep::Demote { virt, from } => match self.pager.translate(
                &self.memory,
                VirtAddr(virt),
            ) {
                None => Err(PagerError::NotMapped),
                Some((_, size, _)) => if from.exceeds(size) {
                    Ok(())
                } else {
                    Err(PagerError::HugePageClash)
                },
            },
            PageStep::Install { virt, phys, page_size, permissions } => {
                let flags = permissions.to_hardware_flags().insert(PageFlags(PageFlags::PRESENT));
                self.pager.map_page(
                    &mut self.memory,
                    VirtAddr(virt),
                    PhysAddr(phys),
                    flags,
                    page_size,
                    &mut self.frames,
                )
            },
        };
        proof {
            self.told@ = self.told@.push((step, r));
            let mem = old(self).memory@;
            let root = self.pager.root().0;
            if let PageStep::Unmap { virt, page_size } = step {
                let leaf = leaf_level(page_size);
                if r == Err::<(), PagerError>(PagerError::NotMapped) {
                    assert forall|n: int| step_holds(step, n) implies !#[trigger] self.maps(n) by {
                        if is_page(n) {
                            lemma_nothing_mapped(mem, root, page_number(virt), n, leaf);
                        }
                    }
                }
            }
        }
        r
    }

    fn shootdown(&mut self, start: u64, size: u64)
        ensures
            final(self).pager == old(self).pager,
            final(self).memory == old(self).memory,
            final(self).frames == old(self).frames,
    {
        self.pending.push((start, size));
    }
}

} // verus!
