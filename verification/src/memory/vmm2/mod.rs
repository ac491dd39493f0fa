//! The virtual memory manager that edits its map of regions in place.

pub mod accounting;
pub mod transaction;
pub mod types;

use crate::hal::mmu::pager::{process_root, spare, synced, well_linked, Pager, PhysMemory};
use crate::hal::mmu::{FrameAllocator, PhysAddr};
use crate::memory::align::{align_down, align_up_checked, lemma_mask, lemma_page_sizes};
use crate::memory::range_tree::{
    aligned_up, disjoint, gap_at, unoccupied, RangeEntry, RangeMap,
};
use crate::memory::vma::{
    coarseness, collect_overlapping_vmas_from, committed_in, covered, demote_end, demote_start,
    demoted_once, demoted_vma, granularity, holds, lemma_coarseness_falls, lemma_coverage,
    lemma_demoted_once, lemma_next_segment, lemma_normalized, lemma_refined_keeps,
    lemma_refined_stable, reached, lemma_segment_at, listing, normalize_range, normalized,
    offsets_fit, protected, refined, replaced, require_full_coverage,
    required_granularity_for_range, roundable, segment_at, segment_of, splice, unmapped, within,
    Backing, Regions, VmaSegment,
};
use vstd::prelude::*;

pub use crate::memory::vma::{
    USER_DYNAMIC_BASE, USER_IMAGE_BASE, USER_INTERPRETER_BASE, USER_NULL_GUARD_END,
    USER_SPACE_LIMIT, USER_STACK_TOP,
};
pub use accounting::{lowered, raised, VmAccounting, VmAccountingSnapshot};
pub use types::{
    CachePolicy, MapBehavior, PageSize, VmError, VmOptions, VmPermissions, VmaAccounting,
    VmaBacking, VmaChargeKind, VmoId,
};

verus! {

pub type Vma = crate::memory::vma::Vma<VmaBacking>;

pub struct VirtMemManager {
    vmas: RangeMap<Vma>,
    pager: Pager,
    accounting: VmAccounting,
}

impl VirtMemManager {
    pub closed spec fn wf(&self) -> bool {
        self.vmas.wf()
    }

    /// The regions of the address space.
    pub closed spec fn view(&self) -> Regions<VmaBacking> {
        self.vmas@
    }

    pub closed spec fn books(&self) -> VmAccountingSnapshot {
        self.accounting@
    }

    pub closed spec fn root(&self) -> u64 {
        self.pager.root().0
    }

    /// The regions of an address space are disjoint.
    pub proof fn lemma_disjoint(&self)
        requires
            self.wf(),
        ensures
            disjoint(self@),
    {
        self.vmas.lemma_shape();
    }

    /// An empty address space over page tables of its own, which have what the
    /// kernel's tables at `kernel_root` have in the upper half. There is none
    /// where no frame is left for the root table.
    pub fn new<A: FrameAllocator>(
        alloc: &mut A,
        memory: &mut PhysMemory,
        kernel_root: PhysAddr,
    ) -> (r: Option<Self>)
        requires
            old(alloc).ready(),
            well_linked(old(memory)@, kernel_root.0),
            spare(old(memory)@, kernel_root.0, old(alloc).available()),
        ensures
            final(alloc).ready(),
            old(alloc).drawn(final(alloc)),
            r is Some <==> old(alloc).capacity() > 0,
            match r {
                Some(vmm) => {
                    &&& vmm.wf()
                    &&& vmm@ == Map::<u64, (u64, Vma)>::empty()
                    &&& vmm.books() == VmAccountingSnapshot::zero()
                    &&& old(alloc).available().contains(vmm.root())
                    &&& final(alloc).available() == old(alloc).available().remove(vmm.root())
                    &&& final(alloc).accepts(vmm.root())
                    &&& final(alloc).capacity() + 1 == old(alloc).capacity()
                    &&& final(memory)@ == old(memory)@.insert(
                        vmm.root(),
                        process_root(old(memory)@[kernel_root.0]),
                    )
                    &&& well_linked(final(memory)@, vmm.root())
                    &&& spare(final(memory)@, vmm.root(), final(alloc).available())
                },
                None => {
                    &&& final(memory)@ == old(memory)@
                    &&& final(alloc).available() == old(alloc).available()
                    &&& final(alloc).capacity() == 0
                },
            },
    {
        match Pager::for_process(alloc, memory, kernel_root) {
            Some(pager) => Some(Self::over(pager)),
            None => None,
        }
    }

    /// An empty address space over the page tables of `pager`.
    pub fn over(pager: Pager) -> (r: Self)
        ensures
            r.wf(),
            r@ == Map::<u64, (u64, Vma)>::empty(),
            r.books() == VmAccountingSnapshot::zero(),
            r.root() == pager.root().0,
    {
        Self { vmas: RangeMap::new(), pager, accounting: VmAccounting::new() }
    }

    pub fn accounting(&self) -> (r: &VmAccounting)
        ensures
            r@ == self.books(),
    {
        &self.accounting
    }

    pub fn find_vma(&self, addr: u64) -> (r: Result<RangeEntry<'_, Vma>, VmError>)
        requires
            self.wf(),
        ensures
            match r {
                Ok(e) => segment_at(self@, addr as int) == Some(
                    VmaSegment { start: e.start, end: e.end, vma: *e.value },
                ),
                Err(e) => e == VmError::NotFound && segment_at(self@, addr as int) is None,
            },
    {
        proof {
            self.vmas.lemma_shape();
            lemma_segment_at(self@);
        }
        match self.vmas.get(addr) {
            Some(entry) => {
                assert(holds(self@, entry.start, addr as int));
                Ok(entry)
            },
            None => Err(VmError::NotFound),
        }
    }

    pub fn find_vma_by_start(&self, start: u64) -> (r: Result<RangeEntry<'_, Vma>, VmError>)
        requires
            self.wf(),
        ensures
            match r {
                Ok(e) => e.start == start && self@.contains_pair(start, (e.end, *e.value)),
                Err(e) => e == VmError::NotFound && !self@.contains_key(start),
            },
    {
        match self.vmas.get_by_start(start) {
            Some(entry) => Ok(entry),
            None => Err(VmError::NotFound),
        }
    }

    pub fn find_vma_mut(&mut self, addr: u64) -> (r: Result<(u64, u64, &mut Vma), VmError>)
        requires
            old(self).wf(),
        ensures
            final(self).wf(),
            final(self).books() == old(self).books(),
            final(self).root() == old(self).root(),
            match r {
                Ok((start, end, vma)) => {
                    &&& segment_at(old(self)@, addr as int) == Some(
                        VmaSegment { start, end, vma: *vma },
                    )
                    &&& final(self)@ == old(self)@.insert(start, (end, *final(vma)))
                },
                Err(e) => {
                    &&& e == VmError::NotFound
                    &&& segment_at(old(self)@, addr as int) is None
                    &&& *final(self) == *old(self)
                },
            },
    {
        proof {
            self.vmas.lemma_shape();
            lemma_segment_at(self@);
        }
        let ghost m = self@;
        match self.vmas.get_mut(addr) {
            Some(found) => {
                assert(holds(m, found.0, addr as int));
                Ok(found)
            },
            None => Err(VmError::NotFound),
        }
    }

    /// Reserves `size` bytes, rounded up to whole pages, at the lowest free
    /// place above the dynamic base.
    pub fn reserve(&mut self, size: u64, options: VmOptions, backing: VmaBacking) -> (r: Result<
        u64,
        VmError,
    >)
        requires
            old(self).wf(),
        ensures
            final(self).wf(),
            final(self).root() == old(self).root(),
            r is Err ==> *final(self) == *old(self),
            ({
                let align = options.page_size.bytes();
                let bytes = aligned_up(size as int, align as int);
                let fits = |at: u64|
                    gap_at(
                        old(self)@,
                        bytes as u64,
                        align,
                        USER_DYNAMIC_BASE,
                        USER_SPACE_LIMIT,
                        at,
                    );
                match r {
                    Ok(start) => {
                        &&& 0 < bytes <= u64::MAX
                        &&& fits(start)
                        &&& forall|b: u64| #[trigger] fits(b) ==> start <= b
                        &&& final(self)@ == old(self)@.insert(
                            start,
                            (
                                (start + bytes) as u64,
                                crate::memory::vma::Vma {
                                    permissions: options.permissions,
                                    cache: options.cache,
                                    page_size: options.page_size,
                                    backing,
                                    backing_offset: 0,
                                    accounting: VmaAccounting { charge: options.charge },
                                },
                            ),
                        )
                        &&& final(self).books() == (VmAccountingSnapshot {
                            reserved_bytes: raised(old(self).books().reserved_bytes, bytes),
                            committed_bytes: raised(
                                old(self).books().committed_bytes,
                                if backing.commits() {
                                    bytes
                                } else {
                                    0
                                },
                            ),
                            ..old(self).books()
                        })
                    },
                    Err(VmError::Overflow) => bytes > u64::MAX,
                    Err(e) => {
                        &&& e == VmError::OutOfMemory
                        &&& bytes <= u64::MAX
                        &&& bytes == 0 || forall|b: u64| !#[trigger] fits(b)
                    },
                }
            }),
    {
        let align = options.page_size.bytes();
        proof {
            lemma_page_sizes();
        }
        let size = match align_up_checked(size, align) {
            Ok(size) => size,
            Err(e) => {
                return Err(e);
            },
        };
        let ghost m = self@;
        let start = match self.vmas.find_gap(size, align, USER_DYNAMIC_BASE, USER_SPACE_LIMIT) {
            Ok(Some(start)) => start,
            Ok(None) => {
                return Err(VmError::OutOfMemory);
            },
            Err(e) => {
                return Err(VmError::from(e));
            },
        };
        assert(gap_at(m, size, align, USER_DYNAMIC_BASE, USER_SPACE_LIMIT, start));
        let vma = Vma::new(options, backing, 0);
        self.accounting.add_reserved(size);
        self.accounting.add_committed(vma.committed_bytes(size));
        match self.vmas.insert_size(start, size, vma) {
            Ok(()) => Ok(start),
            Err(e) => Err(VmError::from(e)),
        }
    }

    /// Splits the pages of one region that touch `[target_start, target_end)`
    /// into pages of the next smaller size. Only the affected pages are
    /// demoted, so a large region falls into up to three.
    fn demote_segment_once(
        &mut self,
        segment: &VmaSegment<VmaBacking>,
        target_start: u64,
        target_end: u64,
    ) -> (r: Result<bool, VmError>)
        requires
            old(self).wf(),
            old(self)@.contains_key(segment.start),
            *segment == segment_of(old(self)@, segment.start),
            segment.fits(),
        ensures
            final(self).wf(),
            final(self).books() == old(self).books(),
            final(self).root() == old(self).root(),
            ({
                let align = segment.vma.page_size.bytes() as int;
                let lo = demote_start(*segment, target_start);
                let hi = demote_end(*segment, target_end);
                if segment.vma.page_size is Size4K {
                    r == Ok::<bool, VmError>(false) && *final(self) == *old(self)
                } else if aligned_up(target_end as int, align) > u64::MAX {
                    r == Err::<bool, VmError>(VmError::Overflow) && *final(self) == *old(self)
                } else if lo >= hi {
                    r == Ok::<bool, VmError>(false) && *final(self) == *old(self)
                } else {
                    &&& r == Ok::<bool, VmError>(true)
                    &&& forall|a: int| #[trigger]
                        segment_at(final(self)@, a) == if segment.start <= a < segment.end {
                            segment.cut(lo, hi, Some(demoted_vma(*segment, target_start)), a)
                        } else {
                            segment_at(old(self)@, a)
                        }
                }
            }),
    {
        let next_page_size = match segment.vma.page_size.demoted() {
            Some(next) => next,
            None => {
                return Ok(false);
            },
        };
        let old_align = segment.vma.page_size.bytes();
        proof {
            lemma_page_sizes();
        }
        let down = align_down(target_start, old_align);
        let lo = if down >= segment.start {
            down
        } else {
            segment.start
        };
        let up = match align_up_checked(target_end, old_align) {
            Ok(up) => up,
            Err(e) => {
                return Err(e);
            },
        };
        let hi = if up <= segment.end {
            up
        } else {
            segment.end
        };
        if lo >= hi {
            return Ok(false);
        }
        let mut demoted = segment.vma;
        demoted.page_size = next_page_size;
        demoted.backing_offset = demoted.backing_offset + (lo - segment.start);
        splice(&mut self.vmas, segment, lo, hi, Some(demoted));
        Ok(true)
    }

    /// Demotes pages until none that touches `[start, end)` is larger than
    /// `required`.
    fn ensure_range_granularity(&mut self, start: u64, end: u64, required: PageSize) -> (r: Result<
        (),
        VmError,
    >)
        requires
            old(self).wf(),
            offsets_fit(old(self)@),
            start < end,
            roundable(end),
        ensures
            final(self).wf(),
            offsets_fit(final(self)@),
            final(self).books() == old(self).books(),
            final(self).root() == old(self).root(),
            r == (if covered(old(self)@, start, end) {
                Ok::<(), VmError>(())
            } else {
                Err(VmError::NotFound)
            }),
            r is Err ==> *final(self) == *old(self),
            r is Ok ==> forall|a: int| #[trigger]
                segment_at(final(self)@, a) == refined(
                    segment_at(old(self)@, a),
                    start,
                    end,
                    required,
                    a,
                ),
    {
        loop
            invariant
                self.wf(),
                offsets_fit(self@),
                start < end,
                roundable(end),
                self.books() == old(self).books(),
                self.root() == old(self).root(),
                covered(self@, start, end) == covered(old(self)@, start, end),
                *self == *old(self) || covered(self@, start, end),
                forall|a: int|
                    #![trigger segment_at(self@, a)]
                    #![trigger segment_at(old(self)@, a)]
                    refined(segment_at(self@, a), start, end, required, a) == refined(
                        segment_at(old(self)@, a),
                        start,
                        end,
                        required,
                        a,
                    ),
            decreases coarseness(self@, start as int, end as int),
        {
            let ghost m = self@;
            let segments = collect_overlapping_vmas_from(&self.vmas, start, end);
            proof {
                self.lemma_disjoint();
                lemma_segment_at(m);
                lemma_coverage(m, segments@, start, end);
            }
            match require_full_coverage(start, end, &segments) {
                Ok(()) => {},
                Err(e) => {
                    return Err(e);
                },
            }
            let mut changed = false;
            let mut i: usize = 0;
            while i < segments.len() && !changed
                invariant
                    i <= segments@.len(),
                    disjoint(m),
                    offsets_fit(m),
                    covered(m, start, end),
                    covered(old(self)@, start, end),
                    listing(m, segments@, start, end),
                    start < end,
                    roundable(end),
                    self.wf(),
                    self.books() == old(self).books(),
                    self.root() == old(self).root(),
                    !changed ==> self@ == m && forall|j: int|
                        0 <= j < i ==> (#[trigger] segments@[j]).vma.page_size.bytes()
                            <= required.bytes(),
                    changed ==> {
                        &&& offsets_fit(self@)
                        &&& covered(self@, start, end)
                        &&& coarseness(self@, start as int, end as int) < coarseness(
                            m,
                            start as int,
                            end as int,
                        )
                    },
                    forall|a: int|
                        #![trigger segment_at(self@, a)]
                        #![trigger segment_at(old(self)@, a)]
                        refined(segment_at(self@, a), start, end, required, a) == refined(
                            segment_at(old(self)@, a),
                            start,
                            end,
                            required,
                            a,
                        ),
                decreases segments@.len() - i,
            {
                let segment = &segments[i];
                if segment.vma.page_size.exceeds(required) {
                    proof {
                        lemma_segment_at(m);
                        assert(m.contains_key(segment.start));
                        lemma_demoted_once(*segment, start, end, required, segment.start as int);
                    }
                    let _ = self.demote_segment_once(segment, start, end);
                    changed = true;
                    proof {
                        let n = self@;
                        self.lemma_disjoint();
                        assert forall|a: int| segment.start <= a
                            < segment.end implies #[trigger] segment_at(m, a) == Some(*segment) by {
                            assert(holds(m, segment.start, a));
                        }
                        assert forall|a: int| #[trigger] segment_at(n, a) == if segment.start <= a
                            < segment.end {
                            Some(demoted_once(*segment, start, end, required, a))
                        } else {
                            segment_at(m, a)
                        } by {}
                        lemma_coarseness_falls(m, n, *segment, start, end, required);
                        lemma_segment_at(n);
                        assert forall|a: int|
                            #![trigger segment_at(n, a)]
                            #![trigger segment_at(old(self)@, a)]
                            refined(segment_at(n, a), start, end, required, a) == refined(
                                segment_at(old(self)@, a),
                                start,
                                end,
                                required,
                                a,
                            ) by {
                            assert(refined(segment_at(m, a), start, end, required, a) == refined(
                                segment_at(old(self)@, a),
                                start,
                                end,
                                required,
                                a,
                            ));
                            if segment.start <= a < segment.end {
                                assert(segment_at(m, a) == Some(*segment));
                                lemma_refined_stable(*segment, start, end, required, a);
                            }
                        }
                        assert forall|k: u64| #[trigger] n.contains_key(k) implies segment_of(
                            n,
                            k,
                        ).fits() by {
                            assert(segment_at(n, k as int) == Some(segment_of(n, k)));
                            if segment.start <= k < segment.end {
                                lemma_demoted_once(*segment, start, end, required, k as int);
                            } else {
                                assert(segment_at(m, k as int) == Some(segment_of(n, k)));
                                assert(m.contains_key(k));
                            }
                        }
                        assert forall|a: int| start <= a < end implies #[trigger] segment_at(
                            n,
                            a,
                        ) is Some by {
                            assert(segment_at(m, a) is Some);
                        }
                    }
                }
                i += 1;
            }
            if !changed {
                proof {
                    assert forall|a: int| #[trigger] segment_at(self@, a) == refined(
                        segment_at(old(self)@, a),
                        start,
                        end,
                        required,
                        a,
                    ) by {
                        if let Some(s) = segment_at(m, a) {
                            if s.overlaps(start, end) {
                                assert(within(segments@, a));
                                let j = choose|j: int|
                                    0 <= j < segments@.len() && (#[trigger] segments@[j]).start
                                        <= a < segments@[j].end;
                                assert(segment_at(m, a) == Some(segments@[j]));
                            }
                        }
                    }
                }
                return Ok(());
            }
        }
    }

    /// Takes the whole pages around `[addr, addr + size)` out of the address
    /// space, if every one of them lies in a region.
    pub fn unmap_range(&mut self, addr: u64, size: u64) -> (r: Result<(), VmError>)
        requires
            old(self).wf(),
            offsets_fit(old(self)@),
        ensures
            final(self).wf(),
            offsets_fit(final(self)@),
            final(self).root() == old(self).root(),
            r is Err ==> *final(self) == *old(self),
            match normalized(addr, size, PageSize::Size4K) {
                Err(e) => r == Err::<(), VmError>(e),
                Ok(range) => if !covered(old(self)@, range.start, range.end) {
                    r == Err::<(), VmError>(VmError::NotFound)
                } else {
                    &&& r == Ok::<(), VmError>(())
                    &&& forall|a: int| #[trigger]
                        segment_at(final(self)@, a) == unmapped(
                            refined(
                                segment_at(old(self)@, a),
                                range.start,
                                range.end,
                                granularity(range.start, range.end),
                                a,
                            ),
                            range.start,
                            range.end,
                            a,
                        )
                    &&& final(self).books() == (VmAccountingSnapshot {
                        reserved_bytes: lowered(
                            old(self).books().reserved_bytes,
                            range.end - range.start,
                        ),
                        committed_bytes: lowered(
                            old(self).books().committed_bytes,
                            committed_in(old(self)@, range.start as int, range.end as int) as int,
                        ),
                        ..old(self).books()
                    })
                },
            },
    {
        proof {
            lemma_normalized(addr, size, PageSize::Size4K);
        }
        let range = match normalize_range(addr, size, PageSize::Size4K) {
            Ok(range) => range,
            Err(e) => {
                return Err(e);
            },
        };
        let start = range.start;
        let end = range.end;
        let required = required_granularity_for_range(start, end);
        let ghost m0 = self@;
        proof {
            self.lemma_disjoint();
        }
        match self.ensure_range_granularity(start, end, required) {
            Ok(()) => {},
            Err(e) => {
                return Err(e);
            },
        }
        let ghost m1 = self@;
        let ghost b0 = self.books();
        let segments = collect_overlapping_vmas_from(&self.vmas, start, end);
        proof {
            self.lemma_disjoint();
            lemma_refined_keeps(m0, m1, start, end, required);
            assert(covered(m1, start, end));
            lemma_coverage(m1, segments@, start, end);
        }
        match require_full_coverage(start, end, &segments) {
            Ok(()) => {},
            Err(e) => {
                return Err(e);
            },
        }
        let mut i: usize = 0;
        while i < segments.len()
            invariant
                i <= segments@.len(),
                start < end,
                disjoint(m1),
                offsets_fit(m1),
                covered(m1, start, end),
                listing(m1, segments@, start, end),
                self.wf(),
                offsets_fit(self@),
                self.root() == old(self).root(),
                forall|a: int| #[trigger]
                    segment_at(self@, a) == if within(segments@.take(i as int), a) {
                        unmapped(segment_at(m1, a), start, end, a)
                    } else {
                        segment_at(m1, a)
                    },
                self.books() == (VmAccountingSnapshot {
                    reserved_bytes: lowered(
                        b0.reserved_bytes,
                        reached(segments@, i as int, start, end) - start,
                    ),
                    committed_bytes: lowered(
                        b0.committed_bytes,
                        committed_in(
                            m1,
                            start as int,
                            reached(segments@, i as int, start, end) as int,
                        ) as int,
                    ),
                    ..b0
                }),
            decreases segments@.len() - i,
        {
            let segment = &segments[i];
            let ghost before = self@;
            proof {
                lemma_next_segment(m1, segments@, i as int, start, end);
                self.lemma_disjoint();
                lemma_segment_at(m1);
                lemma_segment_at(before);
                lemma_taken(m1, segments@, i as int, start, end);
                assert(m1.contains_key(segment.start));
                assert(segment_at(m1, segment.start as int) == Some(*segment));
                assert(segment_at(before, segment.start as int) == Some(*segment));
            }
            let cut_start = if segment.start >= start {
                segment.start
            } else {
                start
            };
            let cut_end = if segment.end <= end {
                segment.end
            } else {
                end
            };
            let cut_size = cut_end - cut_start;
            splice(&mut self.vmas, segment, cut_start, cut_end, None);
            self.accounting.sub_reserved(cut_size);
            self.accounting.sub_committed(segment.vma.committed_bytes(cut_size));
            proof {
                self.lemma_disjoint();
                lemma_segment_at(self@);
                assert forall|a: int| #[trigger] segment_at(self@, a) == if within(
                    segments@.take(i + 1),
                    a,
                ) {
                    unmapped(segment_at(m1, a), start, end, a)
                } else {
                    segment_at(m1, a)
                } by {
                    if segment.start <= a < segment.end {
                        assert(holds(m1, segment.start, a));
                    }
                    assert(segment_at(before, a) == if within(segments@.take(i as int), a) {
                        unmapped(segment_at(m1, a), start, end, a)
                    } else {
                        segment_at(m1, a)
                    });
                }
                assert forall|k: u64| #[trigger] self@.contains_key(k) implies segment_of(
                    self@,
                    k,
                ).fits() by {
                    assert(segment_at(self@, k as int) == Some(segment_of(self@, k)));
                    if !(segment.start <= k < segment.end) {
                        assert(segment_at(before, k as int) == Some(segment_of(self@, k)));
                        assert(before.contains_key(k));
                    }
                }
            }
            i += 1;
        }
        proof {
            lemma_next_segment(m1, segments@, i as int, start, end);
            assert(segments@.take(i as int) =~= segments@);
            assert forall|a: int| #[trigger] segment_at(self@, a) == unmapped(
                refined(segment_at(m0, a), start, end, required, a),
                start,
                end,
                a,
            ) by {
                assert(segment_at(m1, a) == refined(segment_at(m0, a), start, end, required, a));
                assert(within(segments@, a) <==> (segment_at(m1, a) matches Some(s) && s.overlaps(
                    start,
                    end,
                )));
            }
        }
        Ok(())
    }

    /// Gives the whole pages around `[addr, addr + size)` other permissions, if
    /// every one of them lies in a region.
    pub fn protect_range(&mut self, addr: u64, size: u64, permissions: VmPermissions) -> (r: Result<
        (),
        VmError,
    >)
        requires
            old(self).wf(),
            offsets_fit(old(self)@),
        ensures
            final(self).wf(),
            offsets_fit(final(self)@),
            final(self).root() == old(self).root(),
            final(self).books() == old(self).books(),
            r is Err ==> *final(self) == *old(self),
            match normalized(addr, size, PageSize::Size4K) {
                Err(e) => r == Err::<(), VmError>(e),
                Ok(range) => if !covered(old(self)@, range.start, range.end) {
                    r == Err::<(), VmError>(VmError::NotFound)
                } else {
                    &&& r == Ok::<(), VmError>(())
                    &&& forall|a: int| #[trigger]
                        segment_at(final(self)@, a) == protected(
                            refined(
                                segment_at(old(self)@, a),
                                range.start,
                                range.end,
                                granularity(range.start, range.end),
                                a,
                            ),
                            range.start,
                            range.end,
                            permissions,
                            a,
                        )
                },
            },
    {
        proof {
            lemma_normalized(addr, size, PageSize::Size4K);
        }
        let range = match normalize_range(addr, size, PageSize::Size4K) {
            Ok(range) => range,
            Err(e) => {
                return Err(e);
            },
        };
        let start = range.start;
        let end = range.end;
        let required = required_granularity_for_range(start, end);
        let ghost m0 = self@;
        proof {
            self.lemma_disjoint();
        }
        match self.ensure_range_granularity(start, end, required) {
            Ok(()) => {},
            Err(e) => {
                return Err(e);
            },
        }
        let ghost m1 = self@;
        let segments = collect_overlapping_vmas_from(&self.vmas, start, end);
        proof {
            self.lemma_disjoint();
            lemma_refined_keeps(m0, m1, start, end, required);
            assert(covered(m1, start, end));
            lemma_coverage(m1, segments@, start, end);
        }
        match require_full_coverage(start, end, &segments) {
            Ok(()) => {},
            Err(e) => {
                return Err(e);
            },
        }
        let mut i: usize = 0;
        while i < segments.len()
            invariant
                i <= segments@.len(),
                start < end,
                disjoint(m1),
                offsets_fit(m1),
                covered(m1, start, end),
                listing(m1, segments@, start, end),
                self.wf(),
                offsets_fit(self@),
                self.root() == old(self).root(),
                self.books() == old(self).books(),
                forall|a: int| #[trigger]
                    segment_at(self@, a) == if within(segments@.take(i as int), a) {
                        protected(segment_at(m1, a), start, end, permissions, a)
                    } else {
                        segment_at(m1, a)
                    },
            decreases segments@.len() - i,
        {
            let segment = &segments[i];
            let ghost before = self@;
            proof {
                lemma_next_segment(m1, segments@, i as int, start, end);
                self.lemma_disjoint();
                lemma_segment_at(m1);
                lemma_segment_at(before);
                lemma_taken(m1, segments@, i as int, start, end);
                assert(m1.contains_key(segment.start));
                assert(segment_at(m1, segment.start as int) == Some(*segment));
                assert(segment_at(before, segment.start as int) == Some(*segment));
            }
            let cut_start = if segment.start >= start {
                segment.start
            } else {
                start
            };
            let cut_end = if segment.end <= end {
                segment.end
            } else {
                end
            };
            let mut middle = segment.vma;
            middle.permissions = permissions;
            middle.backing_offset = middle.backing_offset + (cut_start - segment.start);
            splice(&mut self.vmas, segment, cut_start, cut_end, Some(middle));
            proof {
                self.lemma_disjoint();
                lemma_segment_at(self@);
                assert forall|a: int| #[trigger] segment_at(self@, a) == if within(
                    segments@.take(i + 1),
                    a,
                ) {
                    protected(segment_at(m1, a), start, end, permissions, a)
                } else {
                    segment_at(m1, a)
                } by {
                    if segment.start <= a < segment.end {
                        assert(holds(m1, segment.start, a));
                    }
                    assert(segment_at(before, a) == if within(segments@.take(i as int), a) {
                        protected(segment_at(m1, a), start, end, permissions, a)
                    } else {
                        segment_at(m1, a)
                    });
                }
                assert forall|k: u64| #[trigger] self@.contains_key(k) implies segment_of(
                    self@,
                    k,
                ).fits() by {
                    assert(segment_at(self@, k as int) == Some(segment_of(self@, k)));
                    if !(segment.start <= k < segment.end) {
                        assert(segment_at(before, k as int) == Some(segment_of(self@, k)));
                        assert(before.contains_key(k));
                    }
                }
            }
            i += 1;
        }
        proof {
            assert(segments@.take(i as int) =~= segments@);
            assert forall|a: int| #[trigger] segment_at(self@, a) == protected(
                refined(segment_at(m0, a), start, end, required, a),
                start,
                end,
                permissions,
                a,
            ) by {
                assert(segment_at(m1, a) == refined(segment_at(m0, a), start, end, required, a));
                assert(within(segments@, a) <==> (segment_at(m1, a) matches Some(s) && s.overlaps(
                    start,
                    end,
                )));
            }
        }
        Ok(())
    }

    /// Puts `replacement` in the place of `[start, end)`, which must lie in one
    /// region.
    fn replace_contained_range(&mut self, start: u64, end: u64, replacement: Vma) -> (r: Result<
        (),
        VmError,
    >)
        requires
            old(self).wf(),
            offsets_fit(old(self)@),
        ensures
            final(self).wf(),
            final(self).root() == old(self).root(),
            r is Err ==> *final(self) == *old(self),
            match segment_at(old(self)@, start as int) {
                _ if start >= end => r == Err::<(), VmError>(VmError::InvalidRange),
                None => r == Err::<(), VmError>(VmError::NotFound),
                Some(s) => if end > s.end {
                    r == Err::<(), VmError>(VmError::NotContained)
                } else {
                    &&& r == Ok::<(), VmError>(())
                    &&& forall|a: int| #[trigger]
                        segment_at(final(self)@, a) == replaced(
                            segment_at(old(self)@, a),
                            start,
                            end,
                            replacement,
                            a,
                        )
                    &&& final(self).books() == (VmAccountingSnapshot {
                        committed_bytes: recommitted(
                            old(self).books().committed_bytes,
                            s.vma.backing,
                            replacement.backing,
                            end - start,
                        ),
                        ..old(self).books()
                    })
                },
            },
    {
        if start >= end {
            return Err(VmError::InvalidRange);
        }
        proof {
            self.lemma_disjoint();
            lemma_segment_at(self@);
        }
        let ghost m = self@;
        let old = match self.vmas.get(start) {
            Some(entry) => VmaSegment { start: entry.start, end: entry.end, vma: *entry.value },
            None => {
                return Err(VmError::NotFound);
            },
        };
        assert(holds(m, old.start, start as int));
        if end > old.end {
            return Err(VmError::NotContained);
        }
        let replaced_size = end - start;
        let old_committed = old.vma.committed_bytes(replaced_size);
        let new_committed = replacement.committed_bytes(replaced_size);
        splice(&mut self.vmas, &old, start, end, Some(replacement));
        if new_committed > old_committed {
            self.accounting.add_committed(new_committed - old_committed);
        } else {
            self.accounting.sub_committed(old_committed - new_committed);
        }
        proof {
            assert forall|a: int| #[trigger] segment_at(self@, a) == replaced(
                segment_at(m, a),
                start,
                end,
                replacement,
                a,
            ) by {
                if old.start <= a < old.end {
                    assert(holds(m, old.start, a));
                } else if let Some(s) = segment_at(m, a) {
                    assert(m.contains_key(s.start) && m.contains_key(old.start));
                }
            }
        }
        Ok(())
    }

    /// Places a region at `addr`, widened to whole pages: either where nothing
    /// is mapped yet, or in the middle of one region, which then gives way.
    pub fn map_at(
        &mut self,
        addr: u64,
        size: u64,
        options: VmOptions,
        backing: VmaBacking,
        backing_offset: u64,
        behavior: MapBehavior,
    ) -> (r: Result<u64, VmError>)
        requires
            old(self).wf(),
            behavior is ReplaceContained ==> offsets_fit(old(self)@),
        ensures
            final(self).wf(),
            final(self).root() == old(self).root(),
            match map_request(addr, size, backing_offset, options.page_size) {
                Err(e) => r == Err::<u64, VmError>(e) && *final(self) == *old(self),
                Ok(req) => {
                    let vma = crate::memory::vma::Vma {
                        permissions: options.permissions,
                        cache: options.cache,
                        page_size: options.page_size,
                        backing,
                        backing_offset: req.backing_offset,
                        accounting: VmaAccounting { charge: options.charge },
                    };
                    match behavior {
                        MapBehavior::RequireVacant => if !unoccupied(
                            old(self)@,
                            req.start,
                            req.end,
                        ) {
                            r == Err::<u64, VmError>(VmError::Overlap) && *final(self) == *old(
                                self,
                            )
                        } else {
                            &&& r == Ok::<u64, VmError>(addr)
                            &&& final(self)@ == old(self)@.insert(req.start, (req.end, vma))
                            &&& final(self).books() == (VmAccountingSnapshot {
                                reserved_bytes: raised(
                                    old(self).books().reserved_bytes,
                                    req.size as int,
                                ),
                                committed_bytes: raised(
                                    old(self).books().committed_bytes,
                                    if backing.commits() {
                                        req.size as int
                                    } else {
                                        0
                                    },
                                ),
                                ..old(self).books()
                            })
                        },
                        MapBehavior::ReplaceContained => {
                            let fine = |a: int|
                                refined(
                                    segment_at(old(self)@, a),
                                    req.start,
                                    req.end,
                                    granularity(req.start, req.end),
                                    a,
                                );
                            if !covered(old(self)@, req.start, req.end) {
                                r == Err::<u64, VmError>(VmError::NotFound) && *final(self) == *old(
                                    self,
                                )
                            } else if req.end > fine(req.start as int)->0.end {
                                &&& r == Err::<u64, VmError>(VmError::NotContained)
                                &&& forall|a: int| #[trigger] segment_at(final(self)@, a) == fine(a)
                                &&& final(self).books() == old(self).books()
                            } else {
                                &&& r == Ok::<u64, VmError>(addr)
                                &&& forall|a: int| #[trigger]
                                    segment_at(final(self)@, a) == replaced(
                                        fine(a),
                                        req.start,
                                        req.end,
                                        vma,
                                        a,
                                    )
                                &&& final(self).books() == (VmAccountingSnapshot {
                                    committed_bytes: recommitted(
                                        old(self).books().committed_bytes,
                                        fine(req.start as int)->0.vma.backing,
                                        backing,
                                        req.size as int,
                                    ),
                                    ..old(self).books()
                                })
                            }
                        },
                    }
                },
            },
    {
        let req = match normalize_map_request(addr, size, backing_offset, options.page_size) {
            Ok(req) => req,
            Err(e) => {
                return Err(e);
            },
        };
        proof {
            lemma_normalized(addr, size, options.page_size);
            self.lemma_disjoint();
        }
        let new_vma = Vma::new(options, backing, req.backing_offset);
        match behavior {
            MapBehavior::RequireVacant => {
                if self.vmas.find_overlap(req.start, req.end).is_some() {
                    return Err(VmError::Overlap);
                }
                self.accounting.add_reserved(req.size);
                self.accounting.add_committed(new_vma.committed_bytes(req.size));
                match self.vmas.insert(req.start, req.end, new_vma) {
                    Ok(()) => Ok(req.returned_addr),
                    Err(e) => Err(VmError::from(e)),
                }
            },
            MapBehavior::ReplaceContained => {
                let required = required_granularity_for_range(req.start, req.end);
                match self.ensure_range_granularity(req.start, req.end, required) {
                    Ok(()) => {},
                    Err(e) => {
                        return Err(e);
                    },
                }
                proof {
                    assert(segment_at(self@, req.start as int) is Some) by {
                        assert(segment_at(old(self)@, req.start as int) is Some);
                    }
                }
                match self.replace_contained_range(req.start, req.end, new_vma) {
                    Ok(()) => Ok(req.returned_addr),
                    Err(e) => Err(e),
                }
            },
        }
    }

    pub fn address_space_root(&self) -> (r: u64)
        ensures
            r == self.root(),
    {
        self.pager.pml4_phys().0
    }

    /// Takes the kernel's half of the address space over from `kernel_root`.
    pub fn refresh_kernel_mappings(&mut self, memory: &mut PhysMemory, kernel_root: u64)
        requires
            old(self).wf(),
            old(memory).has(old(self).root()),
            old(memory).has(kernel_root),
        ensures
            final(self).wf(),
            final(self)@ == old(self)@,
            final(self).books() == old(self).books(),
            final(self).root() == old(self).root(),
            final(memory)@ == synced(old(memory)@, old(self).root(), kernel_root),
    {
        self.pager.sync_kernel_mappings(memory, PhysAddr(kernel_root));
    }

    /// The region map is in order, balanced and rightly counted.
    pub closed spec fn consistent(&self) -> bool {
        self.vmas.consistent()
    }

    pub fn validate(&self) -> (r: bool)
        ensures
            r == self.consistent(),
            self.wf() ==> r,
    {
        self.vmas.validate()
    }
}

/// The committed bytes once `size` bytes have another backing.
pub open spec fn recommitted<B: Backing>(counter: u64, before: B, after: B, size: int) -> u64 {
    if after.commits() && !before.commits() {
        raised(counter, size)
    } else if before.commits() && !after.commits() {
        lowered(counter, size)
    } else {
        counter
    }
}

#[derive(Debug, Clone, Copy, PartialEq, Eq, Structural)]
pub struct NormalizedMap {
    pub returned_addr: u64,
    pub start: u64,
    pub size: u64,
    pub end: u64,
    pub backing_offset: u64,
}

/// A mapping request widened to whole pages. The backing is read from the
/// start of the first page on, so its offset moves down with it.
pub open spec fn map_request(
    addr: u64,
    size: u64,
    backing_offset: u64,
    page_size: PageSize,
) -> Result<NormalizedMap, VmError> {
    match normalized(addr, size, page_size) {
        Err(e) => Err(e),
        Ok(range) => if backing_offset < addr - range.start {
            Err(VmError::InvalidArgument)
        } else {
            Ok(
                NormalizedMap {
                    returned_addr: addr,
                    start: range.start,
                    size: range.size,
                    end: range.end,
                    backing_offset: (backing_offset - (addr - range.start)) as u64,
                },
            )
        },
    }
}

fn normalize_map_request(addr: u64, size: u64, backing_offset: u64, page_size: PageSize) -> (r:
    Result<NormalizedMap, VmError>)
    ensures
        r == map_request(addr, size, backing_offset, page_size),
{
    let range = match normalize_range(addr, size, page_size) {
        Ok(range) => range,
        Err(e) => {
            return Err(e);
        },
    };
    proof {
        lemma_page_sizes();
        lemma_mask(addr, page_size.bytes());
        lemma_normalized(addr, size, page_size);
    }
    let page_offset = addr & (page_size.bytes() - 1);
    match backing_offset.checked_sub(page_offset) {
        Some(backing_offset) => Ok(
            NormalizedMap {
                returned_addr: addr,
                start: range.start,
                size: range.size,
                end: range.end,
                backing_offset,
            },
        ),
        None => Err(VmError::InvalidArgument),
    }
}

/// One more segment taken holds just the addresses of that segment more.
proof fn lemma_taken<B: Backing>(
    m: Regions<B>,
    segments: Seq<VmaSegment<B>>,
    i: int,
    start: u64,
    end: u64,
)
    requires
        0 <= i < segments.len(),
        listing(m, segments, start, end),
    ensures
        forall|a: int| #[trigger]
            within(segments.take(i + 1), a) <==> within(segments.take(i), a) || segments[i].start
                <= a < segments[i].end,
        forall|a: int|
            segments[i].start <= a < segments[i].end ==> !#[trigger] within(segments.take(i), a),
{
    let s = segments.take(i);
    let t = segments.take(i + 1);
    assert forall|a: int| #[trigger] within(t, a) <==> within(s, a) || segments[i].start <= a
        < segments[i].end by {
        if within(t, a) {
            let j = choose|j: int| 0 <= j < t.len() && (#[trigger] t[j]).start <= a < t[j].end;
            if j < i {
                assert(s[j].start <= a < s[j].end);
            }
        }
        if within(s, a) {
            let j = choose|j: int| 0 <= j < s.len() && (#[trigger] s[j]).start <= a < s[j].end;
            assert(t[j].start <= a < t[j].end);
        }
        if segments[i].start <= a < segments[i].end {
            assert(t[i].start <= a < t[i].end);
        }
    }
    assert forall|a: int| segments[i].start <= a < segments[i].end implies !#[trigger] within(
        s,
        a,
    ) by {
        assert forall|j: int| 0 <= j < s.len() implies !((#[trigger] s[j]).start <= a
            < s[j].end) by {
            assert(segments[j].end <= segments[i].start);
        }
    }
}

} // verus!
