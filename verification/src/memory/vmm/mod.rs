//! The virtual memory manager that changes its regions by transactions.
//!
//! An operation plans its changes on a copy of the region map, has the page
//! tables follow, and only then takes the copy over. A failure on the way
//! leaves the address space as it was.

use crate::hal::mmu::pager::{
    group, leaf_level, page_number, process_root, spare, synced, well_linked, Pager, PhysMemory,
};
use crate::hal::mmu::{FrameAllocator, PhysAddr};
use crate::memory::align::{align_down, align_up_checked, lemma_page_sizes};
use crate::memory::range_tree::{aligned_up, disjoint, gap_at, unoccupied, RangeEntry, RangeMap};
use crate::memory::vma::{
    coarseness, collect_overlapping_vmas_from, committed_in, covered, demote_end, demote_start,
    demoted_once, demoted_vma, granularity, holds, is_aligned_to, law_alignment_is_kept,
    lemma_coarseness_falls, lemma_coverage, lemma_demoted_once, lemma_next_segment,
    lemma_normalized, lemma_refined_keeps, lemma_refined_stable, lemma_segment_at, listing, max,
    min, normalize_range, normalized, offsets_fit, page_aligned, protected, range_is_aligned_to,
    reached, refined, replaced, require_full_coverage, required_granularity_for_range, roundable,
    segment_at, segment_of, split_right_vma, unmapped, within, Regions, VmaSegment,
};
use crate::memory::vmm2::accounting::{lowered, raised, VmAccounting, VmAccountingSnapshot};
use crate::memory::vmm2::recommitted;
use crate::memory::vmm2::transaction::{
    all_cuts, all_removes, applied, cut_inserts, gone, inserted_at, law_transaction_applies,
    lemma_all_cuts, lemma_cut_inserts, one_insert, removes_regions, AccountingDelta, PagerOp,
    VmaInsert, VmaRemove, VmaTransaction,
};
use crate::memory::FaultError;
use self::pages::{cleared, execute_pager_ops, only_unmaps, step_holds, step_of};
use vstd::prelude::*;

pub use crate::memory::vma::{
    Backing, USER_DYNAMIC_BASE, USER_IMAGE_BASE, USER_INTERPRETER_BASE, USER_NULL_GUARD_END,
    USER_SPACE_LIMIT, USER_STACK_TOP,
};
pub use crate::memory::vmm2::types::{
    CachePolicy, MapBehavior, PageSize, VmError, VmOptions, VmPermissions, VmaAccounting,
    VmaChargeKind, VmoId,
};

pub mod laws;
mod pages;
mod source;

pub use self::pages::{
    accepted, all_steps, carried_out, followed, op_end, op_fits, op_page, op_pages, op_start,
    page_steps, refused, remapped, shootdown_range, stepped, steps_of, Flushes, PageLog,
    PageNumber, PageOps, PageStep, TablePages,
};
pub use self::source::{PageRequests, VmoSource, VmoTable};

verus! {

/// What stands behind a mapping.
#[derive(Debug, Clone, Copy, PartialEq, Eq, Structural)]
pub enum VmaBacking {
    Reserved,
    Vmo(VmoId),
}

impl Backing for VmaBacking {
    open spec fn commits(&self) -> bool {
        *self is Vmo
    }

    fn is_committed(&self) -> (r: bool) {
        match self {
            VmaBacking::Reserved => false,
            VmaBacking::Vmo(_) => true,
        }
    }
}

pub type Vma = crate::memory::vma::Vma<VmaBacking>;

pub type Transaction = VmaTransaction<VmaBacking>;

/// The operations of all transactions, in order.
pub open spec fn ops_of(txs: Seq<Transaction>) -> Seq<PagerOp>
    decreases txs.len(),
{
    if txs.len() == 0 {
        Seq::empty()
    } else {
        ops_of(txs.drop_last()) + txs.last().pager_ops@
    }
}

fn collect_ops(txs: &Vec<Transaction>, last: &Transaction) -> (r: Vec<PagerOp>)
    ensures
        r@ == ops_of(txs@) + last.pager_ops@,
{
    let mut ops: Vec<PagerOp> = Vec::new();
    let mut i: usize = 0;
    assert(txs@.take(0) =~= Seq::empty());
    while i < txs.len()
        invariant
            i <= txs@.len(),
            ops@ == ops_of(txs@.take(i as int)),
        decreases txs@.len() - i,
    {
        proof {
            let t = txs@.take(i + 1);
            assert(t.drop_last() =~= txs@.take(i as int));
            assert(t.last() == txs@[i as int]);
        }
        append_ops(&mut ops, &txs[i].pager_ops);
        i += 1;
    }
    assert(txs@.take(i as int) =~= txs@);
    append_ops(&mut ops, &last.pager_ops);
    ops
}

fn append_ops(ops: &mut Vec<PagerOp>, more: &Vec<PagerOp>)
    ensures
        final(ops)@ == old(ops)@ + more@,
{
    let mut i: usize = 0;
    assert(ops@ =~= ops@ + more@.take(0));
    while i < more.len()
        invariant
            i <= more@.len(),
            ops@ == old(ops)@ + more@.take(i as int),
        decreases more@.len() - i,
    {
        ops.push(more[i]);
        i += 1;
        assert(ops@ =~= old(ops)@ + more@.take(i as int));
    }
    assert(more@.take(i as int) =~= more@);
}

/// The transaction that demotes the pages of `s` that touch `[start, end)`.
pub open spec fn demotes(
    tx: Transaction,
    s: VmaSegment<VmaBacking>,
    start: u64,
    end: u64,
) -> bool {
    let lo = demote_start(s, start);
    let hi = demote_end(s, end);
    &&& tx.removes@ == seq![VmaRemove { start: s.start, end: s.end }]
    &&& tx.inserts@ == cut_inserts(s, lo, hi, Some(demoted_vma(s, start)))
    &&& tx.pager_ops@ == seq![PagerOp::Demote { start: lo, end: hi, from: s.vma.page_size }]
    &&& tx.accounting == AccountingDelta::none()
}

/// Notes that `segment` gives way to its parts around `[lo, hi)`, with `middle`
/// between them.
fn push_cut(
    tx: &mut Transaction,
    segment: &VmaSegment<VmaBacking>,
    lo: u64,
    hi: u64,
    middle: Option<Vma>,
)
    requires
        segment.start <= lo < hi <= segment.end,
        segment.fits(),
    ensures
        final(tx).removes@ == old(tx).removes@.push(
            VmaRemove { start: segment.start, end: segment.end },
        ),
        final(tx).inserts@ == old(tx).inserts@ + cut_inserts(*segment, lo, hi, middle),
        final(tx).pager_ops == old(tx).pager_ops,
        final(tx).accounting == old(tx).accounting,
{
    tx.remove(segment.start, segment.end);
    if segment.start < lo {
        tx.insert(segment.start, lo, segment.vma);
    }
    if let Some(vma) = middle {
        tx.insert(lo, hi, vma);
    }
    if hi < segment.end {
        let right = split_right_vma(&segment.vma, segment.start, hi);
        tx.insert(hi, segment.end, right);
    }
    assert(tx.inserts@ =~= old(tx).inserts@ + cut_inserts(*segment, lo, hi, middle));
}

fn build_demote_segment_once_transaction(
    segment: &VmaSegment<VmaBacking>,
    target_start: u64,
    target_end: u64,
) -> (r: Result<Option<Transaction>, VmError>)
    requires
        segment.fits(),
        segment.start < segment.end,
    ensures
        ({
            let align = segment.vma.page_size.bytes() as int;
            if segment.vma.page_size is Size4K {
                r == Ok::<Option<Transaction>, VmError>(None)
            } else if aligned_up(target_end as int, align) > u64::MAX {
                r == Err::<Option<Transaction>, VmError>(VmError::Overflow)
            } else if demote_start(*segment, target_start) >= demote_end(*segment, target_end) {
                r == Ok::<Option<Transaction>, VmError>(None)
            } else {
                r matches Ok(Some(tx)) && demotes(tx, *segment, target_start, target_end)
            }
        }),
{
    let next_page_size = match segment.vma.page_size.demoted() {
        Some(next) => next,
        None => {
            return Ok(None);
        },
    };
    let old_align = segment.vma.page_size.bytes();
    proof {
        lemma_page_sizes();
    }
    let down = align_down(target_start, old_align);
    let lo = if down >= segment.start {
        down
    } else {
        segment.start
    };
    let up = match align_up_checked(target_end, old_align) {
        Ok(up) => up,
        Err(e) => {
            return Err(e);
        },
    };
    let hi = if up <= segment.end {
        up
    } else {
        segment.end
    };
    if lo >= hi {
        return Ok(None);
    }
    let mut tx: Transaction = VmaTransaction::new();
    tx.push_pager_demote(lo, hi, segment.vma.page_size);
    let mut demoted = segment.vma;
    demoted.page_size = next_page_size;
    demoted.backing_offset = demoted.backing_offset + (lo - segment.start);
    push_cut(&mut tx, segment, lo, hi, Some(demoted));
    proof {
        assert(tx.removes@ =~= seq![VmaRemove { start: segment.start, end: segment.end }]);
        assert(tx.pager_ops@ =~= seq![
            PagerOp::Demote { start: lo, end: hi, from: segment.vma.page_size },
        ]);
        assert(tx.inserts@ =~= cut_inserts(
            *segment,
            lo,
            hi,
            Some(demoted_vma(*segment, target_start)),
        ));
    }
    Ok(Some(tx))
}

/// What a transaction that cuts one region does to the map.
proof fn lemma_cut_transaction(
    m: Regions<VmaBacking>,
    s: VmaSegment<VmaBacking>,
    lo: u64,
    hi: u64,
    middle: Option<Vma>,
)
    requires
        disjoint(m),
        m.contains_key(s.start),
        s == segment_of(m, s.start),
        s.start <= lo < hi <= s.end,
    ensures
        ({
            let removes = seq![VmaRemove { start: s.start, end: s.end }];
            let (n, error) = applied(m, removes, cut_inserts(s, lo, hi, middle));
            &&& error is None
            &&& disjoint(n)
            &&& forall|a: int| #[trigger]
                segment_at(n, a) == if s.start <= a < s.end {
                    s.cut(lo, hi, middle, a)
                } else {
                    segment_at(m, a)
                }
        }),
{
    let removes = seq![VmaRemove { start: s.start, end: s.end }];
    let inserts = cut_inserts(s, lo, hi, middle);
    lemma_cut_inserts(s, lo, hi, middle);
    assert forall|a: int| #[trigger] gone(removes, a) <==> s.start <= a < s.end by {
        if s.start <= a < s.end {
            assert(removes[0].start <= a < removes[0].end);
        }
    }
    law_transaction_applies(m, removes, inserts);
}

/// What a transaction that replaces the middle of one region does to the map.
proof fn lemma_replace_transaction(m: Regions<VmaBacking>, start: u64, end: u64, vma: Vma)
    requires
        disjoint(m),
        start < end,
        segment_at(m, start as int) is Some,
        end <= segment_at(m, start as int)->0.end,
    ensures
        ({
            let s = segment_at(m, start as int)->0;
            let removes = seq![VmaRemove { start: s.start, end: s.end }];
            let (n, error) = applied(m, removes, cut_inserts(s, start, end, Some(vma)));
            &&& error is None
            &&& disjoint(n)
            &&& forall|a: int| #[trigger]
                segment_at(n, a) == replaced(segment_at(m, a), start, end, vma, a)
        }),
{
    lemma_segment_at(m);
    let s = segment_at(m, start as int)->0;
    lemma_cut_transaction(m, s, start, end, Some(vma));
    let removes = seq![VmaRemove { start: s.start, end: s.end }];
    let n = applied(m, removes, cut_inserts(s, start, end, Some(vma))).0;
    assert forall|a: int| #[trigger] segment_at(n, a) == replaced(
        segment_at(m, a),
        start,
        end,
        vma,
        a,
    ) by {
        if s.start <= a < s.end {
            assert(holds(m, s.start, a));
        } else if let Some(t) = segment_at(m, a) {
            assert(m.contains_key(s.start) && m.contains_key(t.start));
        }
    }
}

/// One of the operations splits the page of size `from` at `a`.
pub open spec fn demoted_from(ops: Seq<PagerOp>, from: PageSize, a: int) -> bool {
    exists|i: int| 0 <= i < ops.len() && splits_at(#[trigger] ops[i], from, a)
}

pub open spec fn splits_at(op: PagerOp, from: PageSize, a: int) -> bool {
    op matches PagerOp::Demote { start, end, from: size } && size == from && start <= a < end
}

/// Wherever the pages of `[start, end)` are smaller in `n` than in `m`, the
/// operations split them, one size after the other.
#[verifier::opaque]
pub open spec fn noted(
    ops: Seq<PagerOp>,
    m: Regions<VmaBacking>,
    n: Regions<VmaBacking>,
    start: u64,
    end: u64,
) -> bool {
    forall|from: PageSize, a: int|
        {
            &&& start <= a < end
            &&& segment_at(m, a) is Some
            &&& segment_at(n, a) is Some
            &&& segment_at(n, a)->0.vma.page_size.bytes() < from.bytes()
            &&& from.bytes() <= segment_at(m, a)->0.vma.page_size.bytes()
        } ==> #[trigger] demoted_from(ops, from, a)
}

proof fn lemma_nothing_noted(m: Regions<VmaBacking>, start: u64, end: u64)
    ensures
        noted(ops_of(Seq::empty()), m, m, start, end),
{
    reveal(noted);
}

/// A demotion that is carried out is noted by its operation.
proof fn lemma_demotion_noted(
    txs: Seq<Transaction>,
    tx: Transaction,
    m0: Regions<VmaBacking>,
    m: Regions<VmaBacking>,
    n: Regions<VmaBacking>,
    s: VmaSegment<VmaBacking>,
    start: u64,
    end: u64,
    required: PageSize,
)
    requires
        noted(ops_of(txs), m0, m, start, end),
        demotes(tx, s, start, end),
        start < end,
        roundable(end),
        s.overlaps(start, end),
        s.vma.page_size.bytes() > required.bytes(),
        forall|a: int| #[trigger]
            segment_at(n, a) == if s.start <= a < s.end {
                Some(demoted_once(s, start, end, required, a))
            } else {
                segment_at(m, a)
            },
        forall|a: int| s.start <= a < s.end ==> #[trigger] segment_at(m, a) == Some(s),
    ensures
        noted(ops_of(txs.push(tx)), m0, n, start, end),
{
    reveal(noted);
    let before = ops_of(txs);
    let ops = ops_of(txs.push(tx));
    assert(txs.push(tx).drop_last() =~= txs);
    assert(ops == before + tx.pager_ops@);
    assert forall|from: PageSize, a: int|
        {
            &&& start <= a < end
            &&& segment_at(m0, a) is Some
            &&& segment_at(n, a) is Some
            &&& segment_at(n, a)->0.vma.page_size.bytes() < from.bytes()
            &&& from.bytes() <= segment_at(m0, a)->0.vma.page_size.bytes()
        } implies #[trigger] demoted_from(ops, from, a) by {
        let size = s.vma.page_size;
        if s.start <= a < s.end && size == from {
            assert(segment_at(m, a) == Some(s));
            let i = before.len() as int;
            assert(ops[i] == tx.pager_ops@[0]);
            assert(demote_start(s, start) <= a < demote_end(s, end));
            assert(splits_at(ops[i], from, a));
        } else {
            if s.start <= a < s.end {
                assert(segment_at(m, a) == Some(s));
                assert(demote_start(s, start) <= a < demote_end(s, end));
                assert(size.bytes() < from.bytes());
            }
            assert(demoted_from(before, from, a));
            let i = choose|i: int| 0 <= i < before.len() && splits_at(#[trigger] before[i], from, a);
            assert(ops[i] == before[i]);
        }
    }
}

/// A demotion brings the map one step closer to what is wanted, and changes
/// nothing of what is wanted.
proof fn lemma_one_demotion(
    m0: Regions<VmaBacking>,
    m: Regions<VmaBacking>,
    n: Regions<VmaBacking>,
    s: VmaSegment<VmaBacking>,
    start: u64,
    end: u64,
    required: PageSize,
)
    requires
        disjoint(m),
        disjoint(n),
        offsets_fit(m),
        covered(m, start, end),
        start < end,
        roundable(end),
        m.contains_key(s.start),
        s == segment_of(m, s.start),
        s.overlaps(start, end),
        s.vma.page_size.bytes() > required.bytes(),
        forall|a: int|
            #![trigger segment_at(m, a)]
            #![trigger segment_at(m0, a)]
            refined(segment_at(m, a), start, end, required, a) == refined(
                segment_at(m0, a),
                start,
                end,
                required,
                a,
            ),
        forall|a: int| #[trigger]
            segment_at(n, a) == if s.start <= a < s.end {
                s.cut(demote_start(s, start), demote_end(s, end), Some(demoted_vma(s, start)), a)
            } else {
                segment_at(m, a)
            },
    ensures
        offsets_fit(n),
        covered(n, start, end),
        coarseness(n, start as int, end as int) < coarseness(m, start as int, end as int),
        forall|a: int|
            #![trigger segment_at(n, a)]
            #![trigger segment_at(m0, a)]
            refined(segment_at(n, a), start, end, required, a) == refined(
                segment_at(m0, a),
                start,
                end,
                required,
                a,
            ),
        forall|a: int| s.start <= a < s.end ==> #[trigger] segment_at(m, a) == Some(s),
        forall|a: int| #[trigger]
            segment_at(n, a) == if s.start <= a < s.end {
                Some(demoted_once(s, start, end, required, a))
            } else {
                segment_at(m, a)
            },
{
    lemma_segment_at(m);
    lemma_demoted_once(s, start, end, required, s.start as int);
    assert forall|a: int| s.start <= a < s.end implies #[trigger] segment_at(m, a) == Some(s) by {
        assert(holds(m, s.start, a));
    }
    assert forall|a: int| #[trigger] segment_at(n, a) == if s.start <= a < s.end {
        Some(demoted_once(s, start, end, required, a))
    } else {
        segment_at(m, a)
    } by {}
    lemma_coarseness_falls(m, n, s, start, end, required);
    lemma_segment_at(n);
    assert forall|a: int|
        #![trigger segment_at(n, a)]
        #![trigger segment_at(m0, a)]
        refined(segment_at(n, a), start, end, required, a) == refined(
            segment_at(m0, a),
            start,
            end,
            required,
            a,
        ) by {
        assert(refined(segment_at(m, a), start, end, required, a) == refined(
            segment_at(m0, a),
            start,
            end,
            required,
            a,
        ));
        if s.start <= a < s.end {
            assert(segment_at(m, a) == Some(s));
            lemma_refined_stable(s, start, end, required, a);
        }
    }
    assert forall|k: u64| #[trigger] n.contains_key(k) implies segment_of(n, k).fits() by {
        assert(segment_at(n, k as int) == Some(segment_of(n, k)));
        if s.start <= k < s.end {
            lemma_demoted_once(s, start, end, required, k as int);
        } else {
            assert(segment_at(m, k as int) == Some(segment_of(n, k)));
            assert(m.contains_key(k));
        }
    }
    assert forall|a: int| start <= a < end implies #[trigger] segment_at(n, a) is Some by {
        assert(segment_at(m, a) is Some);
    }
}

/// Plans and carries out demotions on `working` until no page that touches
/// `[start, end)` is larger than `required`.
#[verifier::spinoff_prover]
#[verifier::rlimit(60)]
fn plan_demotions(
    working: &mut RangeMap<Vma>,
    start: u64,
    end: u64,
    required: PageSize,
) -> (r: Result<Vec<Transaction>, VmError>)
    requires
        old(working).wf(),
        offsets_fit(old(working)@),
        start < end,
        roundable(end),
    ensures
        final(working).wf(),
        offsets_fit(final(working)@),
        match r {
            Err(e) => e == VmError::NotFound && !covered(old(working)@, start, end),
            Ok(txs) => {
                &&& covered(old(working)@, start, end)
                &&& forall|a: int| #[trigger]
                    segment_at(final(working)@, a) == refined(
                        segment_at(old(working)@, a),
                        start,
                        end,
                        required,
                        a,
                    )
                &&& forall|i: int|
                    0 <= i < txs@.len() ==> is_demotion(#[trigger] txs@[i], start, end, required)
                &&& noted(ops_of(txs@), old(working)@, final(working)@, start, end)
            },
        },
{
    let mut txs: Vec<Transaction> = Vec::new();
    proof {
        lemma_nothing_noted(working@, start, end);
        assert(txs@ =~= Seq::empty());
    }
    loop
        invariant
            working.wf(),
            offsets_fit(working@),
            start < end,
            roundable(end),
            covered(working@, start, end) == covered(old(working)@, start, end),
            forall|a: int|
                #![trigger segment_at(working@, a)]
                #![trigger segment_at(old(working)@, a)]
                refined(segment_at(working@, a), start, end, required, a) == refined(
                    segment_at(old(working)@, a),
                    start,
                    end,
                    required,
                    a,
                ),
            forall|i: int|
                0 <= i < txs@.len() ==> is_demotion(#[trigger] txs@[i], start, end, required),
            noted(ops_of(txs@), old(working)@, working@, start, end),
        decreases coarseness(working@, start as int, end as int),
    {
        let ghost m = working@;
        let segments = collect_overlapping_vmas_from(&*working, start, end);
        proof {
            working.lemma_shape();
            lemma_segment_at(m);
            lemma_coverage(m, segments@, start, end);
        }
        match require_full_coverage(start, end, &segments) {
            Ok(()) => {},
            Err(e) => {
                return Err(e);
            },
        }
        let mut changed = false;
        let mut i: usize = 0;
        while i < segments.len() && !changed
            invariant
                i <= segments@.len(),
                disjoint(m),
                offsets_fit(m),
                covered(m, start, end),
                covered(old(working)@, start, end),
                listing(m, segments@, start, end),
                start < end,
                roundable(end),
                working.wf(),
                !changed ==> working@ == m && forall|j: int|
                    0 <= j < i ==> (#[trigger] segments@[j]).vma.page_size.bytes()
                        <= required.bytes(),
                changed ==> {
                    &&& offsets_fit(working@)
                    &&& covered(working@, start, end)
                    &&& coarseness(working@, start as int, end as int) < coarseness(
                        m,
                        start as int,
                        end as int,
                    )
                },
                forall|a: int|
                    #![trigger segment_at(working@, a)]
                    #![trigger segment_at(old(working)@, a)]
                    refined(segment_at(working@, a), start, end, required, a) == refined(
                        segment_at(old(working)@, a),
                        start,
                        end,
                        required,
                        a,
                    ),
                forall|i: int|
                    0 <= i < txs@.len() ==> is_demotion(#[trigger] txs@[i], start, end, required),
                noted(ops_of(txs@), old(working)@, working@, start, end),
            decreases segments@.len() - i,
        {
            let segment = &segments[i];
            if segment.vma.page_size.exceeds(required) {
                proof {
                    lemma_segment_at(m);
                    assert(m.contains_key(segment.start));
                    lemma_demoted_once(*segment, start, end, required, segment.start as int);
                }
                let tx = match build_demote_segment_once_transaction(segment, start, end) {
                    Ok(Some(tx)) => tx,
                    Ok(None) => {
                        i += 1;
                        continue;
                    },
                    Err(e) => {
                        return Err(e);
                    },
                };
                proof {
                    lemma_cut_transaction(
                        m,
                        *segment,
                        demote_start(*segment, start),
                        demote_end(*segment, end),
                        Some(demoted_vma(*segment, start)),
                    );
                }
                match tx.apply_to_map(working) {
                    Ok(()) => {},
                    Err(e) => {
                        return Err(e);
                    },
                }
                changed = true;
                proof {
                    let n = working@;
                    lemma_one_demotion(old(working)@, m, n, *segment, start, end, required);
                    assert(demotes(tx, *segment, start, end));
                    assert(is_demotion(tx, start, end, required));
                    lemma_demotion_noted(
                        txs@,
                        tx,
                        old(working)@,
                        m,
                        n,
                        *segment,
                        start,
                        end,
                        required,
                    );
                }
                txs.push(tx);
            }
            i += 1;
        }
        if !changed {
            proof {
                assert forall|a: int| #[trigger] segment_at(working@, a) == refined(
                    segment_at(old(working)@, a),
                    start,
                    end,
                    required,
                    a,
                ) by {
                    if let Some(s) = segment_at(m, a) {
                        if s.overlaps(start, end) {
                            assert(within(segments@, a));
                            let j = choose|j: int|
                                0 <= j < segments@.len() && (#[trigger] segments@[j]).start <= a
                                    < segments@[j].end;
                            assert(segment_at(m, a) == Some(segments@[j]));
                        }
                    }
                }
            }
            return Ok(txs);
        }
    }
}

/// The transaction demotes a region with pages larger than `required` that
/// touch `[start, end)`.
pub open spec fn is_demotion(tx: Transaction, start: u64, end: u64, required: PageSize) -> bool {
    exists|s: VmaSegment<VmaBacking>|
        {
            &&& #[trigger] demotes(tx, s, start, end)
            &&& s.overlaps(start, end)
            &&& s.start < s.end
            &&& s.vma.page_size.bytes() > required.bytes()
        }
}

pub open spec fn unmap_op(s: VmaSegment<VmaBacking>, start: u64, end: u64) -> PagerOp {
    PagerOp::Unmap {
        start: max(s.start, start),
        end: min(s.end, end),
        page_size: s.vma.page_size,
    }
}

pub open spec fn protect_op(
    s: VmaSegment<VmaBacking>,
    start: u64,
    end: u64,
    permissions: VmPermissions,
) -> PagerOp {
    PagerOp::Protect {
        start: max(s.start, start),
        end: min(s.end, end),
        page_size: s.vma.page_size,
        permissions,
    }
}

/// What the page tables do for the part of a region in `[start, end)`: the
/// pages go, or they get the permissions.
pub open spec fn piece_op(
    s: VmaSegment<VmaBacking>,
    start: u64,
    end: u64,
    permissions: Option<VmPermissions>,
) -> PagerOp {
    match permissions {
        Some(p) => protect_op(s, start, end, p),
        None => unmap_op(s, start, end),
    }
}

/// The region at `a` once the pages that touch `[start, end)` are no larger
/// than the stretch allows.
pub open spec fn fine(m: Regions<VmaBacking>, start: u64, end: u64, a: int) -> Option<
    VmaSegment<VmaBacking>,
> {
    refined(segment_at(m, a), start, end, granularity(start, end), a)
}

/// The operations split the pages that touch `[start, end)` and are too large
/// for it, down to what it allows, and no others.
pub open spec fn demoting(
    ops: Seq<PagerOp>,
    m: Regions<VmaBacking>,
    start: u64,
    end: u64,
) -> bool {
    let required = granularity(start, end);
    &&& forall|i: int|
        0 <= i < ops.len() ==> (#[trigger] ops[i] matches PagerOp::Demote {
            start: lo,
            end: hi,
            from,
        } && lo < end && start < hi && required.bytes() < from.bytes())
    &&& forall|from: PageSize, a: int|
        {
            &&& start <= a < end
            &&& segment_at(m, a) is Some
            &&& required.bytes() < from.bytes()
            &&& from.bytes() <= segment_at(m, a)->0.vma.page_size.bytes()
        } ==> #[trigger] demoted_from(ops, from, a)
}

/// The operations are those of the regions in `[start, end)`, one for each, in
/// address order.
pub open spec fn region_ops(
    ops: Seq<PagerOp>,
    m: Regions<VmaBacking>,
    start: u64,
    end: u64,
    permissions: Option<VmPermissions>,
) -> bool {
    &&& forall|a: int|
        start <= a < end ==> ops.contains(
            piece_op((#[trigger] fine(m, start, end, a))->0, start, end, permissions),
        )
    &&& forall|i: int|
        0 <= i < ops.len() ==> exists|a: int|
            start <= a < end && #[trigger] ops[i] == piece_op(
                (#[trigger] fine(m, start, end, a))->0,
                start,
                end,
                permissions,
            )
    &&& forall|i: int, j: int|
        #![trigger ops[i], ops[j]]
        0 <= i < j < ops.len() ==> op_end(ops[i]) <= op_start(ops[j])
}

/// What the page tables have to do for a change of `[start, end)`: first the
/// splits, then the regions.
#[verifier::opaque]
pub open spec fn change_ops(
    ops: Seq<PagerOp>,
    m: Regions<VmaBacking>,
    start: u64,
    end: u64,
    permissions: Option<VmPermissions>,
) -> bool {
    exists|k: int|
        {
            &&& 0 <= k <= ops.len()
            &&& demoting(#[trigger] ops.take(k), m, start, end)
            &&& region_ops(ops.skip(k), m, start, end, permissions)
        }
}

/// The page tables followed a change of `[start, end)`, or refused it.
pub open spec fn pages_changed<P: PageOps>(
    before: P,
    after: P,
    m: Regions<VmaBacking>,
    start: u64,
    end: u64,
    permissions: Option<VmPermissions>,
    done: bool,
) -> bool {
    exists|ops: Seq<PagerOp>| #[trigger]
        change_ops(ops, m, start, end, permissions) && carried_out(before, after, ops, done)
}

proof fn lemma_demoting(
    txs: Seq<Transaction>,
    m: Regions<VmaBacking>,
    n: Regions<VmaBacking>,
    start: u64,
    end: u64,
)
    requires
        start < end <= USER_SPACE_LIMIT,
        roundable(end),
        forall|a: int| #[trigger] segment_at(n, a) == fine(m, start, end, a),
        disjoint(m),
        offsets_fit(m),
        forall|i: int|
            0 <= i < txs.len() ==> is_demotion(
                #[trigger] txs[i],
                start,
                end,
                granularity(start, end),
            ),
        noted(ops_of(txs), m, n, start, end),
    ensures
        demoting(ops_of(txs), m, start, end),
{
    let required = granularity(start, end);
    let ops = ops_of(txs);
    lemma_demotion_ops(txs, start, end, required);
    lemma_segment_at(m);
    reveal(noted);
    assert forall|from: PageSize, a: int|
        {
            &&& start <= a < end
            &&& segment_at(m, a) is Some
            &&& required.bytes() < from.bytes()
            &&& from.bytes() <= segment_at(m, a)->0.vma.page_size.bytes()
        } implies #[trigger] demoted_from(ops, from, a) by {
        let s = segment_at(m, a)->0;
        let d = demoted_once(s, start, end, required, a);
        assert(m.contains_key(s.start));
        lemma_demote_reach(s, start, end, a);
        lemma_demoted_once(s, start, end, required, a);
        lemma_demote_reach(d, start, end, a);
        assert(segment_at(n, a) == Some(demoted_once(d, start, end, required, a)));
        assert(segment_at(n, a)->0.vma.page_size.bytes() <= required.bytes());
    }
}

/// The part of a region that is split holds every address of `[start, end)` in
/// the region.
proof fn lemma_demote_reach(s: VmaSegment<VmaBacking>, start: u64, end: u64, a: int)
    requires
        s.start <= a < s.end,
        start <= a < end <= USER_SPACE_LIMIT,
    ensures
        demote_start(s, start) <= a < demote_end(s, end),
{
    match s.vma.page_size {
        PageSize::Size4K => {},
        PageSize::Size2M => {},
        PageSize::Size1G => {},
    }
}

proof fn lemma_demotion_ops(txs: Seq<Transaction>, start: u64, end: u64, required: PageSize)
    requires
        start < end <= USER_SPACE_LIMIT,
        forall|i: int| 0 <= i < txs.len() ==> is_demotion(#[trigger] txs[i], start, end, required),
    ensures
        forall|i: int|
            0 <= i < ops_of(txs).len() ==> (#[trigger] ops_of(txs)[i] matches PagerOp::Demote {
                start: lo,
                end: hi,
                from,
            } && lo < end && start < hi && required.bytes() < from.bytes()),
    decreases txs.len(),
{
    if txs.len() > 0 {
        let t = txs.drop_last();
        assert forall|i: int| 0 <= i < t.len() implies is_demotion(
            #[trigger] t[i],
            start,
            end,
            required,
        ) by {
            assert(t[i] == txs[i]);
        }
        lemma_demotion_ops(t, start, end, required);
        let tx = txs[txs.len() - 1];
        assert(is_demotion(tx, start, end, required));
        let s = choose|s: VmaSegment<VmaBacking>|
            {
                &&& #[trigger] demotes(tx, s, start, end)
                &&& s.overlaps(start, end)
                &&& s.start < s.end
                &&& s.vma.page_size.bytes() > required.bytes()
            };
        lemma_demote_reach(s, start, end, max(s.start, start) as int);
        assert forall|i: int| 0 <= i < ops_of(txs).len() implies (#[trigger] ops_of(
            txs,
        )[i] matches PagerOp::Demote { start: lo, end: hi, from } && lo < end && start < hi
            && required.bytes() < from.bytes()) by {
            if i < ops_of(t).len() {
                assert(ops_of(txs)[i] == ops_of(t)[i]);
            } else {
                assert(ops_of(txs)[i] == tx.pager_ops@[i - ops_of(t).len()]);
            }
        }
    }
}

/// The regions that a stretch lists give its operations.
proof fn lemma_region_ops(
    m: Regions<VmaBacking>,
    n: Regions<VmaBacking>,
    segments: Seq<VmaSegment<VmaBacking>>,
    ops: Seq<PagerOp>,
    start: u64,
    end: u64,
    permissions: Option<VmPermissions>,
)
    requires
        start < end,
        disjoint(n),
        covered(n, start, end),
        listing(n, segments, start, end),
        forall|a: int| #[trigger] segment_at(n, a) == fine(m, start, end, a),
        ops.len() == segments.len(),
        forall|i: int|
            0 <= i < ops.len() ==> #[trigger] ops[i] == piece_op(
                segments[i],
                start,
                end,
                permissions,
            ),
    ensures
        region_ops(ops, m, start, end, permissions),
{
    lemma_segment_at(n);
    lemma_coverage(n, segments, start, end);
    assert forall|a: int| start <= a < end implies ops.contains(
        piece_op((#[trigger] fine(m, start, end, a))->0, start, end, permissions),
    ) by {
        assert(segment_at(n, a) is Some);
        let s = segment_at(n, a)->0;
        assert(n.contains_key(s.start) && segment_of(n, s.start).overlaps(start, end));
        let i = segments.index_of(s);
        assert(segments[i] == s);
        assert(ops[i] == piece_op(s, start, end, permissions));
    }
    assert forall|i: int| 0 <= i < ops.len() implies exists|a: int|
        start <= a < end && #[trigger] ops[i] == piece_op(
            (#[trigger] fine(m, start, end, a))->0,
            start,
            end,
            permissions,
        ) by {
        let s = segments[i];
        let a = max(s.start, start) as int;
        assert(n.contains_key(s.start));
        assert(holds(n, s.start, a));
        assert(segment_at(n, a) == fine(m, start, end, a));
        assert(ops[i] == piece_op(fine(m, start, end, a)->0, start, end, permissions));
    }
    assert forall|i: int, j: int|
        #![trigger ops[i], ops[j]]
        0 <= i < j < ops.len() implies op_end(ops[i]) <= op_start(ops[j]) by {
        assert(segments[i].end <= segments[j].start);
        assert(segments[i].overlaps(start, end) && segments[j].overlaps(start, end));
    }
}

/// A stretch in the middle of one region has one operation.
proof fn lemma_one_region_op(
    m: Regions<VmaBacking>,
    n: Regions<VmaBacking>,
    ops: Seq<PagerOp>,
    start: u64,
    end: u64,
)
    requires
        start < end,
        disjoint(n),
        forall|a: int| #[trigger] segment_at(n, a) == fine(m, start, end, a),
        segment_at(n, start as int) is Some,
        end <= segment_at(n, start as int)->0.end,
        ops == seq![
            PagerOp::Unmap {
                start,
                end,
                page_size: segment_at(n, start as int)->0.vma.page_size,
            },
        ],
    ensures
        region_ops(ops, m, start, end, None),
{
    lemma_segment_at(n);
    let s = segment_at(n, start as int)->0;
    assert(ops[0] == piece_op(s, start, end, None));
    assert forall|a: int| start <= a < end implies ops.contains(
        piece_op((#[trigger] fine(m, start, end, a))->0, start, end, None),
    ) by {
        assert(holds(n, s.start, a));
        assert(segment_at(n, a) == fine(m, start, end, a));
    }
    assert forall|i: int| 0 <= i < ops.len() implies exists|a: int|
        start <= a < end && #[trigger] ops[i] == piece_op(
            (#[trigger] fine(m, start, end, a))->0,
            start,
            end,
            None,
        ) by {
        assert(ops[i] == piece_op(fine(m, start, end, start as int)->0, start, end, None));
    }
}

/// What is planned for a stretch is what its change needs.
proof fn lemma_change_ops(
    m: Regions<VmaBacking>,
    first: Seq<PagerOp>,
    rest: Seq<PagerOp>,
    start: u64,
    end: u64,
    permissions: Option<VmPermissions>,
)
    requires
        demoting(first, m, start, end),
        region_ops(rest, m, start, end, permissions),
    ensures
        change_ops(first + rest, m, start, end, permissions),
{
    reveal(change_ops);
    let ops = first + rest;
    let k = first.len() as int;
    assert(ops.take(k) =~= first);
    assert(ops.skip(k) =~= rest);
}

/// `lemma_change_ops` for a stretch whose regions are listed.
proof fn lemma_listed_change(
    m: Regions<VmaBacking>,
    n: Regions<VmaBacking>,
    txs: Seq<Transaction>,
    segments: Seq<VmaSegment<VmaBacking>>,
    ops: Seq<PagerOp>,
    start: u64,
    end: u64,
    permissions: Option<VmPermissions>,
)
    requires
        start < end <= USER_SPACE_LIMIT,
        disjoint(m),
        disjoint(n),
        offsets_fit(m),
        covered(n, start, end),
        listing(n, segments, start, end),
        forall|a: int| #[trigger]
            segment_at(n, a) == refined(
                segment_at(m, a),
                start,
                end,
                granularity(start, end),
                a,
            ),
        forall|i: int|
            0 <= i < txs.len() ==> is_demotion(
                #[trigger] txs[i],
                start,
                end,
                granularity(start, end),
            ),
        noted(ops_of(txs), m, n, start, end),
        ops == segments.map_values(
            |s: VmaSegment<VmaBacking>| piece_op(s, start, end, permissions),
        ),
    ensures
        change_ops(ops_of(txs) + ops, m, start, end, permissions),
{
    assert forall|a: int| #[trigger] segment_at(n, a) == fine(m, start, end, a) by {}
    lemma_demoting(txs, m, n, start, end);
    lemma_region_ops(m, n, segments, ops, start, end, permissions);
    lemma_change_ops(m, ops_of(txs), ops, start, end, permissions);
}

/// `lemma_change_ops` for a stretch in the middle of one region.
proof fn lemma_contained_change(
    m: Regions<VmaBacking>,
    n: Regions<VmaBacking>,
    txs: Seq<Transaction>,
    ops: Seq<PagerOp>,
    start: u64,
    end: u64,
)
    requires
        start < end <= USER_SPACE_LIMIT,
        disjoint(m),
        disjoint(n),
        offsets_fit(m),
        forall|a: int| #[trigger]
            segment_at(n, a) == refined(
                segment_at(m, a),
                start,
                end,
                granularity(start, end),
                a,
            ),
        forall|i: int|
            0 <= i < txs.len() ==> is_demotion(
                #[trigger] txs[i],
                start,
                end,
                granularity(start, end),
            ),
        noted(ops_of(txs), m, n, start, end),
        segment_at(n, start as int) is Some,
        end <= segment_at(n, start as int)->0.end,
        ops == seq![
            PagerOp::Unmap {
                start,
                end,
                page_size: segment_at(n, start as int)->0.vma.page_size,
            },
        ],
    ensures
        change_ops(ops_of(txs) + ops, m, start, end, None),
{
    assert forall|a: int| #[trigger] segment_at(n, a) == fine(m, start, end, a) by {}
    lemma_demoting(txs, m, n, start, end);
    lemma_one_region_op(m, n, ops, start, end);
    lemma_change_ops(m, ops_of(txs), ops, start, end, None);
}

/// No page of `[start, end)` leads anywhere.
pub open spec fn range_cleared<P: PageOps>(pages: P, start: u64, end: u64) -> bool {
    forall|a: u64| start <= a < end ==> !pages.maps(#[trigger] page_number(a))
}

/// Taking regions away needs no other operations than unmapping and splitting.
proof fn lemma_only_unmaps(ops: Seq<PagerOp>, m: Regions<VmaBacking>, start: u64, end: u64)
    requires
        change_ops(ops, m, start, end, None),
    ensures
        only_unmaps(ops),
{
    reveal(change_ops);
    let k = choose|k: int|
        {
            &&& 0 <= k <= ops.len()
            &&& demoting(#[trigger] ops.take(k), m, start, end)
            &&& region_ops(ops.skip(k), m, start, end, None)
        };
    assert forall|i: int| 0 <= i < ops.len() implies (#[trigger] ops[i]) is Unmap
        || ops[i] is Demote by {
        if i < k {
            assert(ops.take(k)[i] == ops[i]);
        } else {
            assert(ops.skip(k)[i - k] == ops[i]);
        }
    }
}

/// The page of a region that holds an address is one of those that the
/// operation for the region takes.
proof fn lemma_step_for(s: VmaSegment<VmaBacking>, start: u64, end: u64, a: u64) -> (j: int)
    requires
        max(s.start, start) <= a < min(s.end, end),
        end <= USER_SPACE_LIMIT,
        s.start as int % s.vma.page_size.bytes() as int == 0,
        start as int % s.vma.page_size.bytes() as int == 0,
    ensures
        0 <= j < op_pages(unmap_op(s, start, end)),
        step_holds(step_of(unmap_op(s, start, end), j), page_number(a)),
{
    let op = unmap_op(s, start, end);
    let b = s.vma.page_size.bytes() as int;
    let lo = max(s.start, start) as int;
    let hi = min(s.end, end) as int;
    let j = (a - lo) / b;
    assert(b == 4096 || b == 0x20_0000 || b == 0x4000_0000);
    assert(lo % b == 0);
    vstd::arithmetic::div_mod::lemma_fundamental_div_mod(a - lo, b);
    vstd::arithmetic::div_mod::lemma_mod_bound(a - lo, b);
    assert(j * b == b * j) by (nonlinear_arith);
    let virt = lo + j * b;
    assert(0 <= j) by (nonlinear_arith)
        requires
            a >= lo,
            b > 0,
            j == (a - lo) / b,
    ;
    assert(j < (hi - lo + b - 1) / b) by (nonlinear_arith)
        requires
            j * b <= a - lo,
            a < hi,
            b > 0,
    ;
    assert(0 <= j * b) by (nonlinear_arith)
        requires
            0 <= j,
            b > 0,
    ;
    assert(virt <= a < virt + b);
    vstd::arithmetic::div_mod::lemma_mod_multiples_vanish(j, lo, b);
    assert(virt % b == 0);
    assert(group(page_number(virt as u64), leaf_level(s.vma.page_size)) == group(
        page_number(a),
        leaf_level(s.vma.page_size),
    )) by {
        match s.vma.page_size {
            PageSize::Size4K => {},
            PageSize::Size2M => {},
            PageSize::Size1G => {},
        }
    }
    j
}

/// The region at an address of a stretch, once its pages are small enough, is
/// made of whole pages, and so is the stretch.
proof fn lemma_fine_region(m: Regions<VmaBacking>, start: u64, end: u64, a: u64)
    requires
        disjoint(m),
        offsets_fit(m),
        whole_pages(m),
        covered(m, start, end),
        start <= a < end <= USER_SPACE_LIMIT,
        start as int % 4096 == 0,
        end as int % 4096 == 0,
    ensures
        ({
            let t = fine(m, start, end, a as int)->0;
            let b = t.vma.page_size.bytes() as int;
            &&& t.start <= a < t.end
            &&& t.start as int % b == 0
            &&& start as int % b == 0
        }),
{
    lemma_segment_at(m);
    let required = granularity(start, end);
    assert(segment_at(m, a as int) is Some);
    let s = segment_at(m, a as int)->0;
    assert(m.contains_key(s.start));
    assert(page_aligned(s));
    let d = demoted_once(s, start, end, required, a as int);
    let t = fine(m, start, end, a as int)->0;
    lemma_demote_reach(s, start, end, a as int);
    lemma_demoted_once(s, start, end, required, a as int);
    lemma_demote_reach(d, start, end, a as int);
    lemma_demoted_once(d, start, end, required, a as int);
    law_alignment_is_kept(s, start, end, VmPermissions(0), a as int);
    assert(t.vma.page_size.bytes() <= required.bytes());
    lemma_ends_aligned(start, end, t.vma.page_size);
}

/// Once the operations for a stretch have been taken, no page of it leads
/// anywhere.
proof fn lemma_range_cleared<P: PageOps>(
    pages: P,
    ops: Seq<PagerOp>,
    m: Regions<VmaBacking>,
    start: u64,
    end: u64,
)
    requires
        disjoint(m),
        offsets_fit(m),
        whole_pages(m),
        covered(m, start, end),
        start < end <= USER_SPACE_LIMIT,
        start as int % 4096 == 0,
        end as int % 4096 == 0,
        change_ops(ops, m, start, end, None),
        cleared(pages, ops),
    ensures
        range_cleared(pages, start, end),
{
    reveal(change_ops);
    let k = choose|k: int|
        {
            &&& 0 <= k <= ops.len()
            &&& demoting(#[trigger] ops.take(k), m, start, end)
            &&& region_ops(ops.skip(k), m, start, end, None)
        };
    assert forall|a: u64| start <= a < end implies !pages.maps(#[trigger] page_number(a)) by {
        let t = fine(m, start, end, a as int)->0;
        lemma_fine_region(m, start, end, a);
        let op = piece_op(t, start, end, None);
        assert(ops.skip(k).contains(op));
        let i = ops.skip(k).index_of(op);
        assert(ops[k + i] == op);
        let j = lemma_step_for(t, start, end, a);
        assert(step_holds(step_of(ops[k + i], j), page_number(a)));
    }
}

/// The ends of a stretch are aligned to every page size that it allows.
proof fn lemma_ends_aligned(start: u64, end: u64, size: PageSize)
    requires
        start as int % 4096 == 0,
        end as int % 4096 == 0,
        size.bytes() <= granularity(start, end).bytes(),
    ensures
        start as int % size.bytes() as int == 0,
{
    match size {
        PageSize::Size4K => {},
        PageSize::Size2M => {},
        PageSize::Size1G => {},
    }
}

/// The transaction that takes `[start, end)` out of the regions of `m`, which
/// `segments` lists.
#[verifier::spinoff_prover]
#[verifier::rlimit(40)]
fn build_unmap_transaction(
    start: u64,
    end: u64,
    segments: &Vec<VmaSegment<VmaBacking>>,
    Ghost(m): Ghost<Regions<VmaBacking>>,
) -> (r: Result<Transaction, VmError>)
    requires
        disjoint(m),
        offsets_fit(m),
        listing(m, segments@, start, end),
        covered(m, start, end),
        start < end,
    ensures
        r matches Ok(tx) && {
            &&& tx.removes@ == all_removes(segments@)
            &&& tx.inserts@ == all_cuts(segments@, start, end, None)
            &&& tx.pager_ops@ == segments@.map_values(
                |s: VmaSegment<VmaBacking>| unmap_op(s, start, end),
            )
            &&& tx.accounting == (AccountingDelta {
                reserved_sub: (end - start) as u64,
                committed_sub: committed_in(m, start as int, end as int) as u64,
                ..AccountingDelta::none()
            })
            &&& committed_in(m, start as int, end as int) <= end - start
        },
{
    let mut tx: Transaction = VmaTransaction::new();
    let mut i: usize = 0;
    proof {
        assert(segments@.take(0) =~= Seq::empty());
        assert(tx.removes@ =~= all_removes(segments@.take(0)));
        assert(tx.pager_ops@ =~= segments@.take(0).map_values(
            |s: VmaSegment<VmaBacking>| unmap_op(s, start, end),
        ));
        lemma_next_segment(m, segments@, 0, start, end);
    }
    while i < segments.len()
        invariant
            i <= segments@.len(),
            disjoint(m),
            offsets_fit(m),
            listing(m, segments@, start, end),
            covered(m, start, end),
            start < end,
            start <= reached(segments@, i as int, start, end) <= end,
            tx.removes@ == all_removes(segments@.take(i as int)),
            tx.inserts@ == all_cuts(segments@.take(i as int), start, end, None),
            tx.pager_ops@ == segments@.take(i as int).map_values(
                |s: VmaSegment<VmaBacking>| unmap_op(s, start, end),
            ),
            tx.accounting.reserved_sub == reached(segments@, i as int, start, end) - start,
            tx.accounting.committed_sub == committed_in(
                m,
                start as int,
                reached(segments@, i as int, start, end) as int,
            ),
            tx.accounting.committed_sub <= tx.accounting.reserved_sub,
            tx.accounting == (AccountingDelta {
                reserved_sub: tx.accounting.reserved_sub,
                committed_sub: tx.accounting.committed_sub,
                ..AccountingDelta::none()
            }),
        decreases segments@.len() - i,
    {
        let segment = &segments[i];
        proof {
            lemma_next_segment(m, segments@, i as int, start, end);
            lemma_next_segment(m, segments@, i + 1, start, end);
            assert(m.contains_key(segment.start));
            let t = segments@.take(i + 1);
            assert(t.drop_last() =~= segments@.take(i as int));
            assert(t.last() == *segment);
        }
        let cut_start = if segment.start >= start {
            segment.start
        } else {
            start
        };
        let cut_end = if segment.end <= end {
            segment.end
        } else {
            end
        };
        let cut_size = cut_end - cut_start;
        tx.push_pager_unmap(cut_start, cut_end, segment.vma.page_size);
        push_cut(&mut tx, segment, cut_start, cut_end, None);
        match tx.sub_reserved(cut_size) {
            Ok(()) => {},
            Err(e) => {
                return Err(e);
            },
        }
        match tx.sub_committed(segment.vma.committed_bytes(cut_size)) {
            Ok(()) => {},
            Err(e) => {
                return Err(e);
            },
        }
        proof {
            let t = segments@.take(i + 1);
            assert(tx.removes@ =~= all_removes(t));
            assert(tx.pager_ops@ =~= t.map_values(
                |s: VmaSegment<VmaBacking>| unmap_op(s, start, end),
            ));
            assert(tx.inserts@ =~= all_cuts(t, start, end, None));
        }
        i += 1;
    }
    proof {
        lemma_next_segment(m, segments@, i as int, start, end);
        assert(segments@.take(i as int) =~= segments@);
    }
    Ok(tx)
}

/// The transaction that gives `[start, end)` other permissions.
fn build_protect_transaction(
    start: u64,
    end: u64,
    permissions: VmPermissions,
    segments: &Vec<VmaSegment<VmaBacking>>,
    Ghost(m): Ghost<Regions<VmaBacking>>,
) -> (r: Result<Transaction, VmError>)
    requires
        disjoint(m),
        offsets_fit(m),
        listing(m, segments@, start, end),
        covered(m, start, end),
        start < end,
    ensures
        r matches Ok(tx) && {
            &&& tx.removes@ == all_removes(segments@)
            &&& tx.inserts@ == all_cuts(segments@, start, end, Some(permissions))
            &&& tx.pager_ops@ == segments@.map_values(
                |s: VmaSegment<VmaBacking>| protect_op(s, start, end, permissions),
            )
            &&& tx.accounting == AccountingDelta::none()
        },
{
    let mut tx: Transaction = VmaTransaction::new();
    let mut i: usize = 0;
    proof {
        assert(segments@.take(0) =~= Seq::empty());
        assert(tx.removes@ =~= all_removes(segments@.take(0)));
        assert(tx.pager_ops@ =~= segments@.take(0).map_values(
            |s: VmaSegment<VmaBacking>| protect_op(s, start, end, permissions),
        ));
    }
    while i < segments.len()
        invariant
            i <= segments@.len(),
            disjoint(m),
            offsets_fit(m),
            listing(m, segments@, start, end),
            covered(m, start, end),
            start < end,
            tx.removes@ == all_removes(segments@.take(i as int)),
            tx.inserts@ == all_cuts(segments@.take(i as int), start, end, Some(permissions)),
            tx.pager_ops@ == segments@.take(i as int).map_values(
                |s: VmaSegment<VmaBacking>| protect_op(s, start, end, permissions),
            ),
            tx.accounting == AccountingDelta::none(),
        decreases segments@.len() - i,
    {
        let segment = &segments[i];
        proof {
            lemma_next_segment(m, segments@, i as int, start, end);
            lemma_segment_at(m);
            assert(m.contains_key(segment.start));
            let t = segments@.take(i + 1);
            assert(t.drop_last() =~= segments@.take(i as int));
            assert(t.last() == *segment);
        }
        let cut_start = if segment.start >= start {
            segment.start
        } else {
            start
        };
        let cut_end = if segment.end <= end {
            segment.end
        } else {
            end
        };
        tx.push_pager_protect(cut_start, cut_end, segment.vma.page_size, permissions);
        let mut middle = segment.vma;
        middle.permissions = permissions;
        middle.backing_offset = middle.backing_offset + (cut_start - segment.start);
        push_cut(&mut tx, segment, cut_start, cut_end, Some(middle));
        proof {
            let t = segments@.take(i + 1);
            assert(tx.removes@ =~= all_removes(t));
            assert(tx.pager_ops@ =~= t.map_values(
                |s: VmaSegment<VmaBacking>| protect_op(s, start, end, permissions),
            ));
            assert(tx.inserts@ =~= all_cuts(t, start, end, Some(permissions)));
        }
        i += 1;
    }
    assert(segments@.take(i as int) =~= segments@);
    Ok(tx)
}

/// The transaction that puts `replacement` in the place of `[start, end)`,
/// which must lie in one region of `map`.
fn build_replace_contained_transaction(
    start: u64,
    end: u64,
    replacement: Vma,
    map: &RangeMap<Vma>,
) -> (r: Result<Transaction, VmError>)
    requires
        map.wf(),
        offsets_fit(map@),
        start < end,
    ensures
        match segment_at(map@, start as int) {
            None => r == Err::<Transaction, VmError>(VmError::NotFound),
            Some(s) => if end > s.end {
                r == Err::<Transaction, VmError>(VmError::NotContained)
            } else {
                r matches Ok(tx) && {
                    &&& tx.removes@ == seq![VmaRemove { start: s.start, end: s.end }]
                    &&& tx.inserts@ == cut_inserts(s, start, end, Some(replacement))
                    &&& tx.pager_ops@ == seq![
                        PagerOp::Unmap { start, end, page_size: s.vma.page_size },
                    ]
                    &&& tx.accounting == (AccountingDelta {
                        committed_add: if replacement.backing.commits()
                            && !s.vma.backing.commits() {
                            (end - start) as u64
                        } else {
                            0
                        },
                        committed_sub: if s.vma.backing.commits()
                            && !replacement.backing.commits() {
                            (end - start) as u64
                        } else {
                            0
                        },
                        ..AccountingDelta::none()
                    })
                }
            },
        },
{
    proof {
        map.lemma_shape();
        lemma_segment_at(map@);
    }
    let old = match map.get(start) {
        Some(entry) => VmaSegment { start: entry.start, end: entry.end, vma: *entry.value },
        None => {
            return Err(VmError::NotFound);
        },
    };
    assert(holds(map@, old.start, start as int));
    if end > old.end {
        return Err(VmError::NotContained);
    }
    let replaced_size = end - start;
    let old_committed = old.vma.committed_bytes(replaced_size);
    let new_committed = replacement.committed_bytes(replaced_size);
    let mut tx: Transaction = VmaTransaction::new();
    tx.push_pager_unmap(start, end, old.vma.page_size);
    push_cut(&mut tx, &old, start, end, Some(replacement));
    if new_committed > old_committed {
        match tx.add_committed(new_committed - old_committed) {
            Ok(()) => {},
            Err(e) => {
                return Err(e);
            },
        }
    } else {
        match tx.sub_committed(old_committed - new_committed) {
            Ok(()) => {},
            Err(e) => {
                return Err(e);
            },
        }
    }
    proof {
        assert(tx.removes@ =~= seq![VmaRemove { start: old.start, end: old.end }]);
        assert(tx.pager_ops@ =~= seq![
            PagerOp::Unmap { start, end, page_size: old.vma.page_size },
        ]);
        assert(tx.inserts@ =~= cut_inserts(old, start, end, Some(replacement)));
    }
    Ok(tx)
}

/// What a transaction that cuts all listed regions at the ends of a stretch
/// does to the map.
proof fn lemma_cuts_transaction(
    m: Regions<VmaBacking>,
    segments: Seq<VmaSegment<VmaBacking>>,
    start: u64,
    end: u64,
    permissions: Option<VmPermissions>,
)
    requires
        disjoint(m),
        listing(m, segments, start, end),
        start < end,
    ensures
        ({
            let (n, error) = applied(
                m,
                all_removes(segments),
                all_cuts(segments, start, end, permissions),
            );
            &&& error is None
            &&& disjoint(n)
            &&& forall|a: int| #[trigger]
                segment_at(n, a) == match permissions {
                    Some(p) => protected(segment_at(m, a), start, end, p, a),
                    None => unmapped(segment_at(m, a), start, end, a),
                }
        }),
{
    let removes = all_removes(segments);
    let inserts = all_cuts(segments, start, end, permissions);
    lemma_segment_at(m);
    lemma_coverage(m, segments, start, end);
    assert forall|i: int| 0 <= i < segments.len() implies (#[trigger] segments[i]).start
        < segments[i].end by {
        assert(m.contains_key(segments[i].start));
    }
    lemma_all_cuts(segments, start, end, permissions);
    assert forall|i: int| 0 <= i < removes.len() implies #[trigger] removes[i] == (VmaRemove {
        start: segments[i].start,
        end: segments[i].end,
    }) by {}
    assert(removes_regions(m, removes)) by {
        assert forall|i: int| 0 <= i < removes.len() implies m.contains_key(
            (#[trigger] removes[i]).start,
        ) && m[removes[i].start].0 == removes[i].end by {
            assert(m.contains_key(segments[i].start));
        }
        assert forall|i: int, j: int|
            #![trigger removes[i], removes[j]]
            0 <= i < j < removes.len() implies removes[i].start != removes[j].start by {
            assert(segments[i].end <= segments[j].start);
        }
    }
    assert forall|a: int| #[trigger] gone(removes, a) <==> within(segments, a) by {
        if gone(removes, a) {
            let i = choose|i: int|
                0 <= i < removes.len() && (#[trigger] removes[i]).start <= a < removes[i].end;
            assert(segments[i].start <= a < segments[i].end);
        }
        if within(segments, a) {
            let i = choose|i: int|
                0 <= i < segments.len() && (#[trigger] segments[i]).start <= a < segments[i].end;
            assert(removes[i].start <= a < removes[i].end);
        }
    }
    assert forall|a: int| (#[trigger] inserted_at(inserts, a)) is Some implies gone(removes, a) by {
        assert(within(segments, a));
        assert(gone(removes, a) <==> within(segments, a));
    }
    law_transaction_applies(m, removes, inserts);
    let n = applied(m, removes, inserts).0;
    assert forall|a: int| #[trigger] segment_at(n, a) == match permissions {
        Some(p) => protected(segment_at(m, a), start, end, p, a),
        None => unmapped(segment_at(m, a), start, end, a),
    } by {
        assert(gone(removes, a) <==> within(segments, a));
        if within(segments, a) {
            let i = choose|i: int|
                0 <= i < segments.len() && (#[trigger] segments[i]).start <= a < segments[i].end;
            assert(segment_at(m, a) == Some(segments[i]));
            assert(inserted_at(inserts, a) == segments[i].cut(
                max(segments[i].start, start),
                min(segments[i].end, end),
                crate::memory::vmm2::transaction::middle_of(segments[i], start, permissions),
                a,
            ));
        }
    }
}

proof fn lemma_ops_fit(txs: Seq<Transaction>, start: u64, end: u64, required: PageSize)
    requires
        start < end <= USER_SPACE_LIMIT,
        forall|i: int| 0 <= i < txs.len() ==> is_demotion(#[trigger] txs[i], start, end, required),
    ensures
        forall|i: int| 0 <= i < ops_of(txs).len() ==> op_fits(#[trigger] ops_of(txs)[i]),
    decreases txs.len(),
{
    if txs.len() > 0 {
        let t = txs.drop_last();
        let last = txs.len() - 1;
        assert forall|i: int| 0 <= i < t.len() implies is_demotion(
            #[trigger] t[i],
            start,
            end,
            required,
        ) by {
            assert(t[i] == txs[i]);
        }
        lemma_ops_fit(t, start, end, required);
        let tx = txs[last];
        assert(is_demotion(tx, start, end, required));
        let s = choose|s: VmaSegment<VmaBacking>|
            {
                &&& #[trigger] demotes(tx, s, start, end)
                &&& s.overlaps(start, end)
                &&& s.start < s.end
                &&& s.vma.page_size.bytes() > required.bytes()
            };
        let hi = demote_end(s, end);
        assert(aligned_up(end as int, s.vma.page_size.bytes() as int) <= 0x8000_0000_0000
            + 0x4000_0000);
        assert(op_fits(tx.pager_ops@[0]));
        assert forall|i: int| 0 <= i < ops_of(txs).len() implies op_fits(
            #[trigger] ops_of(txs)[i],
        ) by {
            if i < ops_of(t).len() {
                assert(ops_of(txs)[i] == ops_of(t)[i]);
            } else {
                assert(ops_of(txs)[i] == tx.pager_ops@[i - ops_of(t).len()]);
            }
        }
    }
}

proof fn lemma_whole_pages_added(start: int, size: int, page_size: PageSize)
    requires
        start % page_size.bytes() as int == 0,
        size % page_size.bytes() as int == 0,
    ensures
        (start + size) % page_size.bytes() as int == 0,
{
    let b = page_size.bytes() as int;
    assert(b > 0);
    vstd::arithmetic::div_mod::lemma_add_mod_noop(start, size, b);
    vstd::arithmetic::div_mod::lemma_small_mod(0, b as nat);
}

/// Every region is made of whole pages of its own size.
pub open spec fn whole_pages(m: Regions<VmaBacking>) -> bool {
    forall|k: u64| #[trigger] m.contains_key(k) ==> page_aligned(segment_of(m, k))
}

/// The first error that the removals of a transaction run into.
pub open spec fn removes_error(m: Regions<VmaBacking>, removes: Seq<VmaRemove>) -> Option<VmError>
    decreases removes.len(),
{
    if removes.len() == 0 {
        None
    } else if !m.contains_key(removes[0].start) {
        Some(VmError::NotFound)
    } else if m[removes[0].start].0 != removes[0].end {
        Some(VmError::InvalidRange)
    } else {
        removes_error(m, removes.skip(1))
    }
}

/// The first error that the insertions of a transaction run into.
pub open spec fn inserts_error(inserts: Seq<VmaInsert<VmaBacking>>) -> Option<VmError>
    decreases inserts.len(),
{
    if inserts.len() == 0 {
        None
    } else if inserts[0].start >= inserts[0].end {
        Some(VmError::InvalidRange)
    } else if !page_aligned(
        VmaSegment { start: inserts[0].start, end: inserts[0].end, vma: inserts[0].vma },
    ) {
        Some(VmError::InvalidAlignment)
    } else {
        inserts_error(inserts.skip(1))
    }
}

/// What is wrong with a transaction before it is applied.
pub open spec fn transaction_error(
    m: Regions<VmaBacking>,
    books: VmAccountingSnapshot,
    tx: Transaction,
) -> Option<VmError> {
    if removes_error(m, tx.removes@) is Some {
        removes_error(m, tx.removes@)
    } else if inserts_error(tx.inserts@) is Some {
        inserts_error(tx.inserts@)
    } else if tx.accounting.reserved_sub > books.reserved_bytes + tx.accounting.reserved_add
        || tx.accounting.committed_sub > books.committed_bytes + tx.accounting.committed_add {
        Some(VmError::Overflow)
    } else {
        None
    }
}

/// A counter after what is added and what is taken off.
pub open spec fn changed(counter: u64, more: u64, less: u64) -> u64 {
    lowered(raised(counter, more as int), less as int)
}

/// The counters after a transaction.
pub open spec fn charged(books: VmAccountingSnapshot, d: AccountingDelta) -> VmAccountingSnapshot {
    VmAccountingSnapshot {
        reserved_bytes: changed(books.reserved_bytes, d.reserved_add, d.reserved_sub),
        committed_bytes: changed(books.committed_bytes, d.committed_add, d.committed_sub),
        ..books
    }
}

#[derive(Debug, Clone, Copy, PartialEq, Eq, Structural)]
pub struct NormalizedMap {
    pub start: u64,
    pub size: u64,
    pub end: u64,
    pub backing_offset: u64,
}

/// A mapping request in whole pages. The address and the place in the backing
/// must be aligned to the page size.
pub open spec fn map_request(
    addr: u64,
    size: u64,
    backing_offset: u64,
    page_size: PageSize,
) -> Result<NormalizedMap, VmError> {
    let align = page_size.bytes() as int;
    if size == 0 {
        Err(VmError::InvalidRange)
    } else if addr as int % align != 0 || backing_offset as int % align != 0 {
        Err(VmError::InvalidArgument)
    } else {
        match normalized(addr, size, page_size) {
            Err(e) => Err(e),
            Ok(range) => Ok(
                NormalizedMap {
                    start: range.start,
                    size: range.size,
                    end: range.end,
                    backing_offset,
                },
            ),
        }
    }
}

fn normalize_map_request(addr: u64, size: u64, backing_offset: u64, page_size: PageSize) -> (r:
    Result<NormalizedMap, VmError>)
    ensures
        r == map_request(addr, size, backing_offset, page_size),
{
    if size == 0 {
        return Err(VmError::InvalidRange);
    }
    if !is_aligned_to(addr, page_size) || !is_aligned_to(backing_offset, page_size) {
        return Err(VmError::InvalidArgument);
    }
    match normalize_range(addr, size, page_size) {
        Ok(range) => Ok(
            NormalizedMap { start: range.start, size: range.size, end: range.end, backing_offset },
        ),
        Err(e) => Err(e),
    }
}

/// What has to be done for a page fault: which page of which memory object
/// goes where, and with which permissions.
#[derive(Debug, Clone, Copy, PartialEq, Eq, Structural)]
pub struct FaultTarget {
    pub vmo: VmoId,
    pub backing_offset: u64,
    pub page: u64,
    pub permissions: VmPermissions,
}

/// The access that faulted is one that the permissions allow.
pub open spec fn allowed(permissions: VmPermissions, error_code: u64) -> bool {
    &&& error_code & 0x2 != 0 ==> permissions.has(VmPermissions::WRITE)
    &&& error_code & 0x10 != 0 ==> permissions.has(VmPermissions::EXECUTE)
    &&& error_code & 0x4 != 0 ==> permissions.has(VmPermissions::USER)
    &&& !permissions.has(VmPermissions::GUARD)
}

pub open spec fn fault_target_of(m: Regions<VmaBacking>, addr: u64, error_code: u64) -> Result<
    FaultTarget,
    FaultError,
> {
    match segment_at(m, addr as int) {
        None => Err(FaultError::InvalidAddress),
        Some(s) => if !allowed(s.vma.permissions, error_code) {
            Err(FaultError::AccessDenied)
        } else {
            let page = addr - addr % 4096;
            match s.vma.backing {
                VmaBacking::Reserved => Err(FaultError::AccessDenied),
                VmaBacking::Vmo(vmo) => Ok(
                    FaultTarget {
                        vmo,
                        backing_offset: (s.vma.backing_offset + (page - s.start)) as u64,
                        page: page as u64,
                        permissions: s.vma.permissions,
                    },
                ),
            }
        },
    }
}

/// The step that answers a fault.
pub open spec fn install_step(target: FaultTarget, phys: u64) -> PageStep {
    PageStep::Install {
        virt: target.page,
        phys,
        page_size: PageSize::Size4K,
        permissions: target.permissions,
    }
}

/// The frame was put in place for a fault, or the page tables refused it.
pub open spec fn installed<P: PageOps>(
    before: P,
    after: P,
    target: FaultTarget,
    phys: u64,
    r: Result<(), FaultError>,
) -> bool {
    let answer = after.log().last().1;
    &&& after.log() == before.log().push((install_step(target, phys), answer))
    &&& after.flushes() == before.flushes()
    &&& r == match answer {
        Ok(()) => Ok::<(), FaultError>(()),
        Err(_) => Err(FaultError::OutOfMemory),
    }
    &&& r is Ok ==> after.maps(page_number(target.page))
}

/// The memory object was asked for the page of a fault, and what came back was
/// put in place.
pub open spec fn fault_answered<S: VmoSource, P: PageOps>(
    vmos: S,
    vmos_after: S,
    pages: P,
    pages_after: P,
    target: FaultTarget,
    r: Result<(), FaultError>,
) -> bool {
    let frame = vmos_after.requests().last().2;
    &&& vmos_after.requests() == vmos.requests().push((target.vmo, target.backing_offset, frame))
    &&& match frame {
        None => r == Err::<(), FaultError>(FaultError::OutOfMemory) && pages_after == pages,
        Some(phys) => installed(pages, pages_after, target, phys, r),
    }
}

/// Installs the frame that came back for a fault, if one did.
pub fn finish_fault<P: PageOps>(target: FaultTarget, frame: Option<u64>, pages: &mut P) -> (r:
    Result<(), FaultError>)
    requires
        old(pages).ready(),
    ensures
        final(pages).ready(),
        match frame {
            None => {
                &&& r == Err::<(), FaultError>(FaultError::OutOfMemory)
                &&& *final(pages) == *old(pages)
            },
            Some(phys) => installed(*old(pages), *final(pages), target, phys, r),
        },
{
    let phys = match frame {
        Some(phys) => phys,
        None => {
            return Err(FaultError::OutOfMemory);
        },
    };
    let step = PageStep::Install {
        virt: target.page,
        phys,
        page_size: PageSize::Size4K,
        permissions: target.permissions,
    };
    match pages.apply(step) {
        Ok(()) => Ok(()),
        Err(_) => Err(FaultError::OutOfMemory),
    }
}

pub struct VirtMemManager {
    vmas: RangeMap<Vma>,
    pager: Pager,
    accounting: VmAccounting,
}

impl VirtMemManager {
    pub closed spec fn wf(&self) -> bool {
        self.vmas.wf()
    }

    /// The regions of the address space.
    pub closed spec fn view(&self) -> Regions<VmaBacking> {
        self.vmas@
    }

    pub closed spec fn books(&self) -> VmAccountingSnapshot {
        self.accounting@
    }

    pub closed spec fn root(&self) -> u64 {
        self.pager.root().0
    }

    pub proof fn lemma_disjoint(&self)
        requires
            self.wf(),
        ensures
            disjoint(self@),
    {
        self.vmas.lemma_shape();
    }

    /// An empty address space over page tables of its own, which have what the
    /// kernel's tables at `kernel_root` have in the upper half. There is none
    /// where no frame is left for the root table.
    pub fn new<A: FrameAllocator>(
        alloc: &mut A,
        memory: &mut PhysMemory,
        kernel_root: PhysAddr,
    ) -> (r: Option<Self>)
        requires
            old(alloc).ready(),
            well_linked(old(memory)@, kernel_root.0),
            spare(old(memory)@, kernel_root.0, old(alloc).available()),
        ensures
            final(alloc).ready(),
            old(alloc).drawn(final(alloc)),
            r is Some <==> old(alloc).capacity() > 0,
            match r {
                Some(vmm) => {
                    &&& vmm.wf()
                    &&& vmm@ == Map::<u64, (u64, Vma)>::empty()
                    &&& vmm.books() == VmAccountingSnapshot::zero()
                    &&& old(alloc).available().contains(vmm.root())
                    &&& final(alloc).available() == old(alloc).available().remove(vmm.root())
                    &&& final(alloc).accepts(vmm.root())
                    &&& final(alloc).capacity() + 1 == old(alloc).capacity()
                    &&& final(memory)@ == old(memory)@.insert(
                        vmm.root(),
                        process_root(old(memory)@[kernel_root.0]),
                    )
                    &&& well_linked(final(memory)@, vmm.root())
                    &&& spare(final(memory)@, vmm.root(), final(alloc).available())
                },
                None => {
                    &&& final(memory)@ == old(memory)@
                    &&& final(alloc).available() == old(alloc).available()
                    &&& final(alloc).capacity() == 0
                },
            },
    {
        match Pager::for_process(alloc, memory, kernel_root) {
            Some(pager) => Some(Self::over(pager)),
            None => None,
        }
    }

    /// An empty address space over the page tables of `pager`.
    pub fn over(pager: Pager) -> (r: Self)
        ensures
            r.wf(),
            r@ == Map::<u64, (u64, Vma)>::empty(),
            r.books() == VmAccountingSnapshot::zero(),
            r.root() == pager.root().0,
    {
        Self { vmas: RangeMap::new(), pager, accounting: VmAccounting::new() }
    }

    pub fn accounting(&self) -> (r: &VmAccounting)
        ensures
            r@ == self.books(),
    {
        &self.accounting
    }

    pub fn find_vma(&self, addr: u64) -> (r: Result<RangeEntry<'_, Vma>, VmError>)
        requires
            self.wf(),
        ensures
            match r {
                Ok(e) => segment_at(self@, addr as int) == Some(
                    VmaSegment { start: e.start, end: e.end, vma: *e.value },
                ),
                Err(e) => e == VmError::NotFound && segment_at(self@, addr as int) is None,
            },
    {
        proof {
            self.vmas.lemma_shape();
            lemma_segment_at(self@);
        }
        match self.vmas.get(addr) {
            Some(entry) => {
                assert(holds(self@, entry.start, addr as int));
                Ok(entry)
            },
            None => Err(VmError::NotFound),
        }
    }

    pub fn find_vma_by_start(&self, start: u64) -> (r: Result<RangeEntry<'_, Vma>, VmError>)
        requires
            self.wf(),
        ensures
            match r {
                Ok(e) => e.start == start && self@.contains_pair(start, (e.end, *e.value)),
                Err(e) => e == VmError::NotFound && !self@.contains_key(start),
            },
    {
        match self.vmas.get_by_start(start) {
            Some(entry) => Ok(entry),
            None => Err(VmError::NotFound),
        }
    }

    pub fn find_vma_mut(&mut self, addr: u64) -> (r: Result<(u64, u64, &mut Vma), VmError>)
        requires
            old(self).wf(),
        ensures
            final(self).wf(),
            final(self).books() == old(self).books(),
            final(self).root() == old(self).root(),
            match r {
                Ok((start, end, vma)) => {
                    &&& segment_at(old(self)@, addr as int) == Some(
                        VmaSegment { start, end, vma: *vma },
                    )
                    &&& final(self)@ == old(self)@.insert(start, (end, *final(vma)))
                },
                Err(e) => {
                    &&& e == VmError::NotFound
                    &&& segment_at(old(self)@, addr as int) is None
                    &&& *final(self) == *old(self)
                },
            },
    {
        proof {
            self.vmas.lemma_shape();
            lemma_segment_at(self@);
        }
        let ghost m = self@;
        match self.vmas.get_mut(addr) {
            Some(found) => {
                assert(holds(m, found.0, addr as int));
                Ok(found)
            },
            None => Err(VmError::NotFound),
        }
    }

    fn validate_transaction(&self, tx: &Transaction) -> (r: Result<(), VmError>)
        requires
            self.wf(),
            self.books().reserved_bytes + tx.accounting.reserved_add <= u64::MAX,
            self.books().committed_bytes + tx.accounting.committed_add <= u64::MAX,
        ensures
            r == match transaction_error(self@, self.books(), *tx) {
                Some(e) => Err::<(), VmError>(e),
                None => Ok(()),
            },
    {
        let mut i: usize = 0;
        assert(tx.removes@.skip(0) =~= tx.removes@);
        while i < tx.removes.len()
            invariant
                i <= tx.removes@.len(),
                self.wf(),
                removes_error(self@, tx.removes@) == removes_error(
                    self@,
                    tx.removes@.skip(i as int),
                ),
            decreases tx.removes@.len() - i,
        {
            let remove = &tx.removes[i];
            proof {
                assert(tx.removes@.skip(i as int)[0] == *remove);
                assert(tx.removes@.skip(i as int).skip(1) =~= tx.removes@.skip(i + 1));
            }
            match self.vmas.get_by_start(remove.start) {
                None => {
                    return Err(VmError::NotFound);
                },
                Some(existing) => {
                    if existing.end != remove.end {
                        return Err(VmError::InvalidRange);
                    }
                },
            }
            i += 1;
        }
        let mut i: usize = 0;
        assert(tx.inserts@.skip(0) =~= tx.inserts@);
        while i < tx.inserts.len()
            invariant
                i <= tx.inserts@.len(),
                removes_error(self@, tx.removes@) is None,
                inserts_error(tx.inserts@) == inserts_error(tx.inserts@.skip(i as int)),
            decreases tx.inserts@.len() - i,
        {
            let insert = &tx.inserts[i];
            proof {
                assert(tx.inserts@.skip(i as int)[0] == *insert);
                assert(tx.inserts@.skip(i as int).skip(1) =~= tx.inserts@.skip(i + 1));
            }
            if insert.start >= insert.end {
                return Err(VmError::InvalidRange);
            }
            if !range_is_aligned_to(insert.start, insert.end, insert.vma.page_size) {
                return Err(VmError::InvalidAlignment);
            }
            i += 1;
        }
        let snap = self.accounting.snapshot();
        if tx.accounting.reserved_sub > snap.reserved_bytes + tx.accounting.reserved_add {
            return Err(VmError::Overflow);
        }
        if tx.accounting.committed_sub > snap.committed_bytes + tx.accounting.committed_add {
            return Err(VmError::Overflow);
        }
        Ok(())
    }

    fn apply_accounting_delta(&mut self, accounting: AccountingDelta)
        ensures
            final(self).vmas == old(self).vmas,
            final(self).pager == old(self).pager,
            final(self).books() == charged(old(self).books(), accounting),
    {
        self.accounting.add_reserved(accounting.reserved_add);
        self.accounting.sub_reserved(accounting.reserved_sub);
        self.accounting.add_committed(accounting.committed_add);
        self.accounting.sub_committed(accounting.committed_sub);
    }

    /// Checks a transaction, tries it on a copy of the regions, has the page
    /// tables follow and takes the copy over.
    fn apply_transaction<P: PageOps>(&mut self, tx: Transaction, pages: &mut P) -> (r: Result<
        (),
        VmError,
    >)
        requires
            old(self).wf(),
            old(pages).ready(),
            old(self).books().reserved_bytes + tx.accounting.reserved_add <= u64::MAX,
            old(self).books().committed_bytes + tx.accounting.committed_add <= u64::MAX,
            forall|i: int| 0 <= i < tx.pager_ops@.len() ==> op_fits(#[trigger] tx.pager_ops@[i]),
        ensures
            final(self).wf(),
            final(pages).ready(),
            final(self).root() == old(self).root(),
            r is Err ==> *final(self) == *old(self),
            ({
                let (n, error) = applied(old(self)@, tx.removes@, tx.inserts@);
                match transaction_error(old(self)@, old(self).books(), tx) {
                    Some(e) => r == Err::<(), VmError>(e) && *final(pages) == *old(pages),
                    None => match error {
                        Some(e) => r == Err::<(), VmError>(e) && *final(pages) == *old(pages),
                        None => {
                            &&& r == Ok::<(), VmError>(()) || r == Err::<(), VmError>(
                                VmError::MappingFailed,
                            )
                            &&& carried_out(*old(pages), *final(pages), tx.pager_ops@, r is Ok)
                            &&& tx.pager_ops@.len() == 0 ==> r is Ok && *final(pages) == *old(pages)
                            &&& r is Ok ==> final(self)@ == n && final(self).books() == charged(
                                old(self).books(),
                                tx.accounting,
                            )
                        },
                    },
                }
            }),
    {
        match self.validate_transaction(&tx) {
            Ok(()) => {},
            Err(e) => {
                return Err(e);
            },
        }
        let mut next = self.vmas.clone();
        assert(next@ =~= self@);
        match tx.apply_to_map(&mut next) {
            Ok(()) => {},
            Err(e) => {
                return Err(e);
            },
        }
        if !next.validate() {
            return Err(VmError::InvalidRange);
        }
        match execute_pager_ops(&tx.pager_ops, pages) {
            Ok(()) => {},
            Err(e) => {
                return Err(e);
            },
        }
        self.vmas = next;
        self.apply_accounting_delta(tx.accounting);
        Ok(())
    }

    /// Reserves `size` bytes, rounded up to whole pages, at the lowest free
    /// place above the dynamic base.
    pub fn reserve<P: PageOps>(
        &mut self,
        size: u64,
        options: VmOptions,
        backing: VmaBacking,
        pages: &mut P,
    ) -> (r: Result<u64, VmError>)
        requires
            old(self).wf(),
            old(pages).ready(),
            old(self).books().reserved_bytes <= u64::MAX - USER_SPACE_LIMIT,
            old(self).books().committed_bytes <= u64::MAX - USER_SPACE_LIMIT,
        ensures
            final(self).wf(),
            *final(pages) == *old(pages),
            final(self).root() == old(self).root(),
            is_reserve(*old(self), *final(self), size, options, backing, r),
    {
        let align = options.page_size.bytes();
        proof {
            lemma_page_sizes();
            self.lemma_disjoint();
        }
        let size = match align_up_checked(size, align) {
            Ok(size) => size,
            Err(e) => {
                return Err(e);
            },
        };
        let ghost m = self@;
        let start = match self.vmas.find_gap(size, align, USER_DYNAMIC_BASE, USER_SPACE_LIMIT) {
            Ok(Some(start)) => start,
            Ok(None) => {
                return Err(VmError::OutOfMemory);
            },
            Err(e) => {
                return Err(VmError::from(e));
            },
        };
        assert(gap_at(m, size, align, USER_DYNAMIC_BASE, USER_SPACE_LIMIT, start));
        let vma = Vma::new(options, backing, 0);
        match self.place(start, size, vma, pages) {
            Ok(()) => Ok(start),
            Err(e) => Err(e),
        }
    }

    /// Adds a region where nothing is mapped.
    fn place<P: PageOps>(&mut self, start: u64, size: u64, vma: Vma, pages: &mut P) -> (r: Result<
        (),
        VmError,
    >)
        requires
            old(self).wf(),
            old(pages).ready(),
            0 < size,
            start + size <= USER_SPACE_LIMIT,
            start as int % vma.page_size.bytes() as int == 0,
            size as int % vma.page_size.bytes() as int == 0,
            unoccupied(old(self)@, start, (start + size) as u64),
            old(self).books().reserved_bytes <= u64::MAX - USER_SPACE_LIMIT,
            old(self).books().committed_bytes <= u64::MAX - USER_SPACE_LIMIT,
        ensures
            final(self).wf(),
            *final(pages) == *old(pages),
            final(self).root() == old(self).root(),
            r == Ok::<(), VmError>(()),
            final(self)@ == old(self)@.insert(start, ((start + size) as u64, vma)),
            final(self).books() == (VmAccountingSnapshot {
                reserved_bytes: (old(self).books().reserved_bytes + size) as u64,
                committed_bytes: (old(self).books().committed_bytes
                    + if vma.backing.commits() {
                    size as int
                } else {
                    0
                }) as u64,
                ..old(self).books()
            }),
    {
        let committed_bytes = vma.committed_bytes(size);
        let mut tx: Transaction = VmaTransaction::new();
        tx.insert(start, start + size, vma);
        match tx.add_reserved(size) {
            Ok(()) => {},
            Err(e) => {
                return Err(e);
            },
        }
        match tx.add_committed(committed_bytes) {
            Ok(()) => {},
            Err(e) => {
                return Err(e);
            },
        }
        proof {
            let end = (start + size) as u64;
            let s = VmaSegment { start, end, vma };
            assert(tx.inserts@ =~= one_insert(s));
            assert(tx.removes@ =~= Seq::empty());
            lemma_whole_pages_added(start as int, size as int, vma.page_size);
            assert(page_aligned(s));
            assert(tx.inserts@.skip(1) =~= Seq::empty());
            assert(inserts_error(tx.inserts@.skip(1)) is None);
            assert(inserts_error(tx.inserts@) is None);
            assert(tx.inserts@.drop_last() =~= Seq::empty());
            assert(crate::memory::vmm2::transaction::after_inserts(
                self@,
                tx.inserts@.drop_last(),
            ) == (self@, None::<VmError>));
            assert(applied(self@, tx.removes@, tx.inserts@) == (
                self@.insert(start, (end, vma)),
                None::<VmError>,
            ));
        }
        self.apply_transaction(tx, pages)
    }

    /// Puts a plan in force: the page tables follow the demotions and then the
    /// transaction, and the copy becomes the region map.
    fn commit<P: PageOps>(
        &mut self,
        working: RangeMap<Vma>,
        demotions: &Vec<Transaction>,
        tx: &Transaction,
        pages: &mut P,
    ) -> (r: Result<(), VmError>)
        requires
            working.wf(),
            old(pages).ready(),
            forall|i: int|
                0 <= i < ops_of(demotions@).len() ==> op_fits(#[trigger] ops_of(demotions@)[i]),
            forall|i: int| 0 <= i < tx.pager_ops@.len() ==> op_fits(#[trigger] tx.pager_ops@[i]),
        ensures
            final(pages).ready(),
            final(self).root() == old(self).root(),
            r == Ok::<(), VmError>(()) || r == Err::<(), VmError>(VmError::MappingFailed),
            r is Err ==> *final(self) == *old(self),
            r is Ok ==> final(self).wf() && final(self)@ == working@ && final(self).books()
                == charged(old(self).books(), tx.accounting),
            carried_out(
                *old(pages),
                *final(pages),
                ops_of(demotions@) + tx.pager_ops@,
                r is Ok,
            ),
            only_unmaps(ops_of(demotions@) + tx.pager_ops@) && r is Ok ==> cleared(
                *final(pages),
                ops_of(demotions@) + tx.pager_ops@,
            ),
    {
        if !working.validate() {
            return Err(VmError::InvalidRange);
        }
        let ops = collect_ops(demotions, tx);
        proof {
            assert forall|i: int| 0 <= i < ops@.len() implies op_fits(#[trigger] ops@[i]) by {
                let d = ops_of(demotions@);
                if i < d.len() {
                    assert(ops@[i] == d[i]);
                } else {
                    assert(ops@[i] == tx.pager_ops@[i - d.len()]);
                }
            }
        }
        match execute_pager_ops(&ops, pages) {
            Ok(()) => {},
            Err(e) => {
                return Err(e);
            },
        }
        self.vmas = working;
        self.apply_accounting_delta(tx.accounting);
        Ok(())
    }

    /// Takes the whole pages around `[addr, addr + size)` out of the address
    /// space, if every one of them lies in a region.
    #[verifier::spinoff_prover]
    #[verifier::rlimit(40)]
    pub fn unmap_range<P: PageOps>(&mut self, addr: u64, size: u64, pages: &mut P) -> (r: Result<
        (),
        VmError,
    >)
        requires
            old(self).wf(),
            old(pages).ready(),
            offsets_fit(old(self)@),
        ensures
            final(self).wf(),
            final(pages).ready(),
            offsets_fit(final(self)@),
            whole_pages(old(self)@) ==> whole_pages(final(self)@),
            final(self).root() == old(self).root(),
            r is Err ==> *final(self) == *old(self),
            match normalized(addr, size, PageSize::Size4K) {
                Err(e) => r == Err::<(), VmError>(e) && *final(pages) == *old(pages),
                Ok(range) => if !covered(old(self)@, range.start, range.end) {
                    r == Err::<(), VmError>(VmError::NotFound) && *final(pages) == *old(pages)
                } else {
                    &&& pages_changed(
                        *old(pages),
                        *final(pages),
                        old(self)@,
                        range.start,
                        range.end,
                        None,
                        r is Ok,
                    )
                    &&& r == Ok::<(), VmError>(()) || r == Err::<(), VmError>(
                        VmError::MappingFailed,
                    )
                    &&& r is Ok && whole_pages(old(self)@) ==> range_cleared(
                        *final(pages),
                        range.start,
                        range.end,
                    )
                    &&& r is Ok ==> forall|a: int| #[trigger]
                        segment_at(final(self)@, a) == unmapped(
                            refined(
                                segment_at(old(self)@, a),
                                range.start,
                                range.end,
                                granularity(range.start, range.end),
                                a,
                            ),
                            range.start,
                            range.end,
                            a,
                        )
                    &&& r is Ok ==> final(self).books() == (VmAccountingSnapshot {
                        reserved_bytes: lowered(
                            old(self).books().reserved_bytes,
                            range.end - range.start,
                        ),
                        committed_bytes: lowered(
                            old(self).books().committed_bytes,
                            committed_in(old(self)@, range.start as int, range.end as int) as int,
                        ),
                        ..old(self).books()
                    })
                },
            },
    {
        proof {
            lemma_normalized(addr, size, PageSize::Size4K);
            self.lemma_disjoint();
        }
        let range = match normalize_range(addr, size, PageSize::Size4K) {
            Ok(range) => range,
            Err(e) => {
                return Err(e);
            },
        };
        let start = range.start;
        let end = range.end;
        let required = required_granularity_for_range(start, end);
        let ghost m0 = self@;
        let mut working = self.vmas.clone();
        assert(working@ =~= m0);
        let demotions = match plan_demotions(&mut working, start, end, required) {
            Ok(demotions) => demotions,
            Err(e) => {
                return Err(e);
            },
        };
        let ghost m1 = working@;
        let segments = collect_overlapping_vmas_from(&working, start, end);
        proof {
            working.lemma_shape();
            lemma_refined_keeps(m0, m1, start, end, required);
            assert(covered(m1, start, end));
            lemma_coverage(m1, segments@, start, end);
        }
        match require_full_coverage(start, end, &segments) {
            Ok(()) => {},
            Err(e) => {
                return Err(e);
            },
        }
        let tx = match build_unmap_transaction(start, end, &segments, Ghost(m1)) {
            Ok(tx) => tx,
            Err(e) => {
                return Err(e);
            },
        };
        proof {
            lemma_cuts_transaction(m1, segments@, start, end, None);
            lemma_ops_fit(demotions@, start, end, required);
        }
        match tx.apply_to_map(&mut working) {
            Ok(()) => {},
            Err(e) => {
                return Err(e);
            },
        }
        proof {
            assert(tx.pager_ops@ =~= segments@.map_values(
                |s: VmaSegment<VmaBacking>| piece_op(s, start, end, None),
            ));
            lemma_listed_change(
                m0,
                m1,
                demotions@,
                segments@,
                tx.pager_ops@,
                start,
                end,
                None,
            );
            lemma_after_cut(m0, working@, start, end, None);
        }
        let done = self.commit(working, &demotions, &tx, pages);
        proof {
            let ops = ops_of(demotions@) + tx.pager_ops@;
            lemma_only_unmaps(ops, m0, start, end);
            if done is Ok && whole_pages(m0) {
                lemma_range_cleared(*pages, ops, m0, start, end);
            }
        }
        done
    }

    /// Gives the whole pages around `[addr, addr + size)` other permissions, if
    /// every one of them lies in a region.
    #[verifier::spinoff_prover]
    #[verifier::rlimit(40)]
    pub fn protect_range<P: PageOps>(
        &mut self,
        addr: u64,
        size: u64,
        permissions: VmPermissions,
        pages: &mut P,
    ) -> (r: Result<(), VmError>)
        requires
            old(self).wf(),
            old(pages).ready(),
            offsets_fit(old(self)@),
        ensures
            final(self).wf(),
            final(pages).ready(),
            offsets_fit(final(self)@),
            whole_pages(old(self)@) ==> whole_pages(final(self)@),
            final(self).root() == old(self).root(),
            final(self).books() == old(self).books(),
            r is Err ==> *final(self) == *old(self),
            match normalized(addr, size, PageSize::Size4K) {
                Err(e) => r == Err::<(), VmError>(e) && *final(pages) == *old(pages),
                Ok(range) => if !covered(old(self)@, range.start, range.end) {
                    r == Err::<(), VmError>(VmError::NotFound) && *final(pages) == *old(pages)
                } else {
                    &&& pages_changed(
                        *old(pages),
                        *final(pages),
                        old(self)@,
                        range.start,
                        range.end,
                        Some(permissions),
                        r is Ok,
                    )
                    &&& r == Ok::<(), VmError>(()) || r == Err::<(), VmError>(
                        VmError::MappingFailed,
                    )
                    &&& r is Ok ==> forall|a: int| #[trigger]
                        segment_at(final(self)@, a) == protected(
                            refined(
                                segment_at(old(self)@, a),
                                range.start,
                                range.end,
                                granularity(range.start, range.end),
                                a,
                            ),
                            range.start,
                            range.end,
                            permissions,
                            a,
                        )
                },
            },
    {
        proof {
            lemma_normalized(addr, size, PageSize::Size4K);
            self.lemma_disjoint();
        }
        let range = match normalize_range(addr, size, PageSize::Size4K) {
            Ok(range) => range,
            Err(e) => {
                return Err(e);
            },
        };
        let start = range.start;
        let end = range.end;
        let required = required_granularity_for_range(start, end);
        let ghost m0 = self@;
        let mut working = self.vmas.clone();
        assert(working@ =~= m0);
        let demotions = match plan_demotions(&mut working, start, end, required) {
            Ok(demotions) => demotions,
            Err(e) => {
                return Err(e);
            },
        };
        let ghost m1 = working@;
        let segments = collect_overlapping_vmas_from(&working, start, end);
        proof {
            working.lemma_shape();
            lemma_refined_keeps(m0, m1, start, end, required);
            assert(covered(m1, start, end));
            lemma_coverage(m1, segments@, start, end);
        }
        match require_full_coverage(start, end, &segments) {
            Ok(()) => {},
            Err(e) => {
                return Err(e);
            },
        }
        let tx = match build_protect_transaction(start, end, permissions, &segments, Ghost(m1)) {
            Ok(tx) => tx,
            Err(e) => {
                return Err(e);
            },
        };
        proof {
            lemma_cuts_transaction(m1, segments@, start, end, Some(permissions));
            lemma_ops_fit(demotions@, start, end, required);
        }
        match tx.apply_to_map(&mut working) {
            Ok(()) => {},
            Err(e) => {
                return Err(e);
            },
        }
        proof {
            assert(tx.pager_ops@ =~= segments@.map_values(
                |s: VmaSegment<VmaBacking>| piece_op(s, start, end, Some(permissions)),
            ));
            lemma_listed_change(
                m0,
                m1,
                demotions@,
                segments@,
                tx.pager_ops@,
                start,
                end,
                Some(permissions),
            );
            lemma_after_cut(m0, working@, start, end, Some(permissions));
        }
        self.commit(working, &demotions, &tx, pages)
    }

    /// Puts `new_vma` in the place of `[start, end)`, in the middle of one
    /// region.
    #[verifier::spinoff_prover]
    #[verifier::rlimit(40)]
    fn map_contained<P: PageOps>(&mut self, start: u64, end: u64, new_vma: Vma, pages: &mut P) -> (r:
        Result<u64, VmError>)
        requires
            old(self).wf(),
            old(pages).ready(),
            offsets_fit(old(self)@),
            start < end <= USER_SPACE_LIMIT,
            start as int % 4096 == 0,
            end as int % 4096 == 0,
        ensures
            final(self).wf(),
            final(pages).ready(),
            final(self).root() == old(self).root(),
            r is Err ==> *final(self) == *old(self),
            ({
                let fine = |a: int| fine(old(self)@, start, end, a);
                if !covered(old(self)@, start, end) {
                    r == Err::<u64, VmError>(VmError::NotFound) && *final(pages) == *old(pages)
                } else if end > fine(start as int)->0.end {
                    r == Err::<u64, VmError>(VmError::NotContained) && *final(pages) == *old(pages)
                } else {
                    &&& pages_changed(
                        *old(pages),
                        *final(pages),
                        old(self)@,
                        start,
                        end,
                        None,
                        r is Ok,
                    )
                    &&& r is Ok && whole_pages(old(self)@) ==> range_cleared(
                        *final(pages),
                        start,
                        end,
                    )
                    &&& r == Ok::<u64, VmError>(start) || r == Err::<u64, VmError>(
                        VmError::MappingFailed,
                    )
                    &&& r is Ok ==> forall|a: int| #[trigger]
                        segment_at(final(self)@, a) == replaced(fine(a), start, end, new_vma, a)
                    &&& r is Ok ==> final(self).books() == (VmAccountingSnapshot {
                        committed_bytes: recommitted(
                            old(self).books().committed_bytes,
                            fine(start as int)->0.vma.backing,
                            new_vma.backing,
                            end - start,
                        ),
                        ..old(self).books()
                    })
                }
            }),
    {
        proof {
            self.lemma_disjoint();
        }
        let required = required_granularity_for_range(start, end);
        let ghost m0 = self@;
        let mut working = self.vmas.clone();
        assert(working@ =~= m0);
        let demotions = match plan_demotions(&mut working, start, end, required) {
            Ok(demotions) => demotions,
            Err(e) => {
                return Err(e);
            },
        };
        let ghost m1 = working@;
        proof {
            working.lemma_shape();
            assert(segment_at(m0, start as int) is Some);
            assert(segment_at(m1, start as int) is Some);
        }
        let tx = match build_replace_contained_transaction(start, end, new_vma, &working) {
            Ok(tx) => tx,
            Err(e) => {
                return Err(e);
            },
        };
        proof {
            lemma_replace_transaction(m1, start, end, new_vma);
            lemma_ops_fit(demotions@, start, end, required);
            lemma_contained_change(m0, m1, demotions@, tx.pager_ops@, start, end);
        }
        match tx.apply_to_map(&mut working) {
            Ok(()) => {},
            Err(e) => {
                return Err(e);
            },
        }
        let done = self.commit(working, &demotions, &tx, pages);
        proof {
            let ops = ops_of(demotions@) + tx.pager_ops@;
            lemma_only_unmaps(ops, m0, start, end);
            if done is Ok && whole_pages(m0) {
                lemma_range_cleared(*pages, ops, m0, start, end);
            }
        }
        match done {
            Ok(()) => Ok(start),
            Err(e) => Err(e),
        }
    }

    /// Places a region at `addr`: either where nothing is mapped yet, or in the
    /// middle of one region, which then gives way.
    pub fn map_at<P: PageOps>(
        &mut self,
        addr: u64,
        size: u64,
        options: VmOptions,
        backing: VmaBacking,
        backing_offset: u64,
        behavior: MapBehavior,
        pages: &mut P,
    ) -> (r: Result<u64, VmError>)
        requires
            old(self).wf(),
            old(pages).ready(),
            old(self).books().reserved_bytes <= u64::MAX - USER_SPACE_LIMIT,
            old(self).books().committed_bytes <= u64::MAX - USER_SPACE_LIMIT,
            behavior is ReplaceContained ==> offsets_fit(old(self)@),
        ensures
            final(self).wf(),
            final(pages).ready(),
            final(self).root() == old(self).root(),
            is_map(
                *old(self),
                *final(self),
                addr,
                size,
                options,
                backing,
                backing_offset,
                behavior,
                r,
            ),
            pages_mapped(
                *old(pages),
                *final(pages),
                old(self)@,
                map_request(addr, size, backing_offset, options.page_size),
                behavior,
                r is Ok,
            ),
    {
        let req = match normalize_map_request(addr, size, backing_offset, options.page_size) {
            Ok(req) => req,
            Err(e) => {
                return Err(e);
            },
        };
        let start = req.start;
        let end = req.end;
        proof {
            lemma_normalized(addr, size, options.page_size);
            lemma_base_aligned(start as int, options.page_size);
            lemma_base_aligned(end as int, options.page_size);
            self.lemma_disjoint();
        }
        let new_vma = Vma::new(options, backing, req.backing_offset);
        match behavior {
            MapBehavior::RequireVacant => {
                if self.vmas.find_overlap(start, end).is_some() {
                    return Err(VmError::Overlap);
                }
                match self.place(start, req.size, new_vma, pages) {
                    Ok(()) => Ok(start),
                    Err(e) => Err(e),
                }
            },
            MapBehavior::ReplaceContained => self.map_contained(start, end, new_vma, pages),
        }
    }

    /// What has to be done for a fault at `addr`.
    pub fn fault_target(&self, addr: u64, error_code: u64) -> (r: Result<FaultTarget, FaultError>)
        requires
            self.wf(),
            offsets_fit(self@),
            whole_pages(self@),
        ensures
            r == fault_target_of(self@, addr, error_code),
    {
        let is_write = (error_code & 0x2) != 0;
        let is_user = (error_code & 0x4) != 0;
        let is_instruction_fetch = (error_code & 0x10) != 0;
        proof {
            self.lemma_disjoint();
            lemma_segment_at(self@);
        }
        let entry = match self.find_vma(addr) {
            Ok(entry) => entry,
            Err(_) => {
                return Err(FaultError::InvalidAddress);
            },
        };
        let vma = entry.value;
        if is_write && !vma.permissions.contains(VmPermissions::WRITE) {
            return Err(FaultError::AccessDenied);
        }
        if is_instruction_fetch && !vma.permissions.contains(VmPermissions::EXECUTE) {
            return Err(FaultError::AccessDenied);
        }
        if is_user && !vma.permissions.contains(VmPermissions::USER) {
            return Err(FaultError::AccessDenied);
        }
        if vma.permissions.contains(VmPermissions::GUARD) {
            return Err(FaultError::AccessDenied);
        }
        proof {
            assert(self@.contains_key(entry.start));
            lemma_page_in_region(segment_of(self@, entry.start), addr);
            lemma_page_sizes();
        }
        let page = align_down(addr, 4096);
        let offset_in_vma = page - entry.start;
        let backing_offset = vma.backing_offset + offset_in_vma;
        match vma.backing {
            VmaBacking::Reserved => Err(FaultError::AccessDenied),
            VmaBacking::Vmo(vmo) => Ok(
                FaultTarget { vmo, backing_offset, page, permissions: vma.permissions },
            ),
        }
    }

    /// Answers a page fault: finds the page that belongs at `addr`, asks its
    /// memory object for it and installs it.
    pub fn handle_page_fault<S: VmoSource, P: PageOps>(
        &self,
        addr: u64,
        error_code: u64,
        vmos: &mut S,
        pages: &mut P,
    ) -> (r: Result<(), FaultError>)
        requires
            self.wf(),
            offsets_fit(self@),
            whole_pages(self@),
            old(vmos).ready(),
            old(pages).ready(),
        ensures
            final(vmos).ready(),
            final(pages).ready(),
            match fault_target_of(self@, addr, error_code) {
                Err(e) => r == Err::<(), FaultError>(e) && *final(vmos) == *old(vmos)
                    && *final(pages) == *old(pages),
                Ok(target) => fault_answered(
                    *old(vmos),
                    *final(vmos),
                    *old(pages),
                    *final(pages),
                    target,
                    r,
                ),
            },
    {
        let target = match self.fault_target(addr, error_code) {
            Ok(target) => target,
            Err(e) => {
                return Err(e);
            },
        };
        let frame = vmos.request_page(target.vmo, target.backing_offset);
        finish_fault(target, frame, pages)
    }

    pub fn address_space_root(&self) -> (r: u64)
        ensures
            r == self.root(),
    {
        self.pager.pml4_phys().0
    }

    /// Takes the kernel's half of the address space over from `kernel_root`.
    pub fn refresh_kernel_mappings(&mut self, memory: &mut PhysMemory, kernel_root: u64)
        requires
            old(self).wf(),
            old(memory).has(old(self).root()),
            old(memory).has(kernel_root),
        ensures
            final(self).wf(),
            final(self)@ == old(self)@,
            final(self).books() == old(self).books(),
            final(self).root() == old(self).root(),
            final(memory)@ == synced(old(memory)@, old(self).root(), kernel_root),
    {
        self.pager.sync_kernel_mappings(memory, PhysAddr(kernel_root));
    }

    /// The region map is in order, balanced and rightly counted.
    pub closed spec fn consistent(&self) -> bool {
        self.vmas.consistent()
    }

    pub fn validate(&self) -> (r: bool)
        ensures
            r == self.consistent(),
            self.wf() ==> r,
    {
        self.vmas.validate()
    }
}

/// Offsets and alignment survive a cut.
proof fn lemma_after_cut(
    m: Regions<VmaBacking>,
    n: Regions<VmaBacking>,
    start: u64,
    end: u64,
    permissions: Option<VmPermissions>,
)
    requires
        disjoint(m),
        disjoint(n),
        offsets_fit(m),
        start < end,
        roundable(end),
        start as int % 4096 == 0,
        end as int % 4096 == 0,
        forall|a: int| #[trigger]
            segment_at(n, a) == match permissions {
                Some(p) => protected(
                    refined(segment_at(m, a), start, end, granularity(start, end), a),
                    start,
                    end,
                    p,
                    a,
                ),
                None => unmapped(
                    refined(segment_at(m, a), start, end, granularity(start, end), a),
                    start,
                    end,
                    a,
                ),
            },
    ensures
        offsets_fit(n),
        whole_pages(m) ==> whole_pages(n),
{
    lemma_segment_at(m);
    lemma_segment_at(n);
    assert forall|k: u64| #[trigger] n.contains_key(k) implies segment_of(n, k).fits() && (
    whole_pages(m) ==> page_aligned(segment_of(n, k))) by {
        let a = k as int;
        assert(segment_at(n, a) == Some(segment_of(n, k)));
        let s = segment_at(m, a)->0;
        assert(m.contains_key(s.start));
        assert(whole_pages(m) ==> page_aligned(s));
        lemma_piece_after_cut(s, segment_of(n, k), start, end, permissions, a);
    }
}

proof fn lemma_piece_after_cut(
    s: VmaSegment<VmaBacking>,
    t: VmaSegment<VmaBacking>,
    start: u64,
    end: u64,
    permissions: Option<VmPermissions>,
    a: int,
)
    requires
        start < end,
        roundable(end),
        start as int % 4096 == 0,
        end as int % 4096 == 0,
        s.start <= a < s.end,
        s.fits(),
        ({
            let r = refined(Some(s), start, end, granularity(start, end), a);
            Some(t) == match permissions {
                Some(p) => protected(r, start, end, p, a),
                None => unmapped(r, start, end, a),
            }
        }),
    ensures
        t.fits(),
        page_aligned(s) ==> page_aligned(t),
{
    let required = granularity(start, end);
    let d = demoted_once(s, start, end, required, a);
    let e = demoted_once(d, start, end, required, a);
    lemma_demoted_once(s, start, end, required, a);
    lemma_demoted_once(d, start, end, required, a);
    assert(t.fits()) by {
        assert(e.fits());
    }
    if page_aligned(s) {
        let p = match permissions {
            Some(p) => p,
            None => VmPermissions(0),
        };
        law_alignment_is_kept(s, start, end, p, a);
    }
}

/// The base page at an address of a region lies in the region, and so does its
/// place in the backing.
proof fn lemma_page_in_region(s: VmaSegment<VmaBacking>, addr: u64)
    requires
        page_aligned(s),
        s.fits(),
        s.start <= addr < s.end,
    ensures
        s.start <= addr - addr as int % 4096,
        s.vma.backing_offset + (addr - addr as int % 4096 - s.start) <= u64::MAX,
{
    let first = s.start as int;
    assert(first % s.vma.page_size.bytes() as int == 0);
    lemma_base_aligned(first, s.vma.page_size);
    lemma_page_not_before(first, addr as int);
}

proof fn lemma_base_aligned(x: int, size: PageSize)
    requires
        x % size.bytes() as int == 0,
    ensures
        x % 4096 == 0,
{
    match size {
        PageSize::Size4K => {},
        PageSize::Size2M => {
            assert(x % 0x20_0000 == 0);
        },
        PageSize::Size1G => {
            assert(x % 0x4000_0000 == 0);
        },
    }
}

proof fn lemma_page_not_before(first: int, addr: int)
    requires
        0 <= first <= addr,
        first % 4096 == 0,
    ensures
        first <= addr - addr % 4096,
{
}

/// What comes of reserving room: the first gap that is large enough is taken
/// for a new region. A request that fails changes nothing.
pub open spec fn is_reserve(
    before: VirtMemManager,
    after: VirtMemManager,
    size: u64,
    options: VmOptions,
    backing: VmaBacking,
    r: Result<u64, VmError>,
) -> bool {
    &&& r is Err ==> after == before
    &&& {
        let align = options.page_size.bytes();
        let bytes = aligned_up(size as int, align as int);
        let fits = |at: u64|
            gap_at(
                before@,
                bytes as u64,
                align,
                USER_DYNAMIC_BASE,
                USER_SPACE_LIMIT,
                at,
            );
        match r {
            Ok(start) => {
                &&& 0 < bytes <= u64::MAX
                &&& fits(start)
                &&& forall|b: u64| #[trigger] fits(b) ==> start <= b
                &&& after@ == before@.insert(
                    start,
                    ((start + bytes) as u64, new_vma(options, backing, 0)),
                )
                &&& after.books() == (VmAccountingSnapshot {
                    reserved_bytes: (before.books().reserved_bytes + bytes) as u64,
                    committed_bytes: (before.books().committed_bytes
                        + if backing.commits() {
                        bytes
                    } else {
                        0
                    }) as u64,
                    ..before.books()
                })
            },
            Err(VmError::Overflow) => bytes > u64::MAX,
            Err(e) => {
                &&& e == VmError::OutOfMemory
                &&& bytes <= u64::MAX
                &&& bytes == 0 || forall|b: u64| !#[trigger] fits(b)
            },
        }
    }
}

/// What comes of mapping at a given address: the region stands where nothing
/// was, or takes the place of a part of one region, which only the page tables
/// can then refuse. A request that fails changes nothing.
pub open spec fn is_map(
    before: VirtMemManager,
    after: VirtMemManager,
    addr: u64,
    size: u64,
    options: VmOptions,
    backing: VmaBacking,
    backing_offset: u64,
    behavior: MapBehavior,
    r: Result<u64, VmError>,
) -> bool {
    &&& r is Err ==> after == before
    &&& match map_request(addr, size, backing_offset, options.page_size) {
        Err(e) => r == Err::<u64, VmError>(e),
        Ok(req) => {
            let vma = new_vma(options, backing, req.backing_offset);
            match behavior {
                MapBehavior::RequireVacant => if !unoccupied(
                    before@,
                    req.start,
                    req.end,
                ) {
                    r == Err::<u64, VmError>(VmError::Overlap)
                } else {
                    &&& r == Ok::<u64, VmError>(req.start)
                    &&& after@ == before@.insert(req.start, (req.end, vma))
                    &&& after.books() == (VmAccountingSnapshot {
                        reserved_bytes: (before.books().reserved_bytes
                            + req.size) as u64,
                        committed_bytes: (before.books().committed_bytes
                            + if backing.commits() {
                            req.size as int
                        } else {
                            0
                        }) as u64,
                        ..before.books()
                    })
                },
                MapBehavior::ReplaceContained => {
                    let fine = |a: int| fine(before@, req.start, req.end, a);
                    if !covered(before@, req.start, req.end) {
                        r == Err::<u64, VmError>(VmError::NotFound)
                    } else if req.end > fine(req.start as int)->0.end {
                        r == Err::<u64, VmError>(VmError::NotContained)
                    } else {
                        &&& r == Ok::<u64, VmError>(req.start) || r == Err::<u64, VmError>(
                            VmError::MappingFailed,
                        )
                        &&& r is Ok ==> forall|a: int| #[trigger]
                            segment_at(after@, a) == replaced(
                                fine(a),
                                req.start,
                                req.end,
                                vma,
                                a,
                            )
                        &&& r is Ok ==> after.books() == (VmAccountingSnapshot {
                            committed_bytes: recommitted(
                                before.books().committed_bytes,
                                fine(req.start as int)->0.vma.backing,
                                backing,
                                req.size as int,
                            ),
                            ..before.books()
                        })
                    }
                },
            }
        },
    }
}

/// The request takes the place of a part of one region.
pub open spec fn replaces(
    m: Regions<VmaBacking>,
    request: NormalizedMap,
    behavior: MapBehavior,
) -> bool {
    &&& behavior is ReplaceContained
    &&& covered(m, request.start, request.end)
    &&& request.end <= fine(m, request.start, request.end, request.start as int)->0.end
}

/// The page tables follow a mapping only where it takes the place of another,
/// of which then no page is left.
pub open spec fn pages_mapped<P: PageOps>(
    before: P,
    after: P,
    m: Regions<VmaBacking>,
    request: Result<NormalizedMap, VmError>,
    behavior: MapBehavior,
    done: bool,
) -> bool {
    match request {
        Ok(range) if replaces(m, range, behavior) => {
            &&& pages_changed(before, after, m, range.start, range.end, None, done)
            &&& done && whole_pages(m) ==> range_cleared(after, range.start, range.end)
        },
        _ => after == before,
    }
}

/// A region as its options say.
pub open spec fn new_vma(options: VmOptions, backing: VmaBacking, backing_offset: u64) -> Vma {
    crate::memory::vma::Vma {
        permissions: options.permissions,
        cache: options.cache,
        page_size: options.page_size,
        backing,
        backing_offset,
        accounting: VmaAccounting { charge: options.charge },
    }
}

} // verus!
