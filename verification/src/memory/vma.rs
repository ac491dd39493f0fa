//! Regions of an address space and how they are cut.
//!
//! A region map is read address by address: `segment_at` gives the region that
//! holds an address. Cutting, protecting and demoting are functions on what an
//! address sees, so what an operation does to the whole map is said in one
//! line, and two operations compose by composing those functions.

use crate::hal::mmu::PageSize;
use crate::memory::align::{
    align_down, align_up_checked, aligned_down, lemma_mask, lemma_page_sizes,
};
use crate::memory::range_tree::{
    aligned_up, disjoint, lemma_span_map, ordered, span_map, unoccupied, RangeMap,
};
use crate::memory::vmm2::types::{
    CachePolicy, VmError, VmOptions, VmPermissions, VmaAccounting,
};
use vstd::prelude::*;

verus! {

/// What stands behind a region.
pub trait Backing: Copy {
    /// Whether the region's bytes count as committed.
    spec fn commits(&self) -> bool;

    fn is_committed(&self) -> (r: bool)
        ensures
            r == self.commits(),
    ;
}

/// One region of an address space.
#[derive(Debug)]
pub struct Vma<B> {
    pub permissions: VmPermissions,
    pub cache: CachePolicy,
    pub page_size: PageSize,
    pub backing: B,
    pub backing_offset: u64,
    pub accounting: VmaAccounting,
}

impl<B: Copy> Copy for Vma<B> {

}

impl<B: Copy> Clone for Vma<B> {
    fn clone(&self) -> (r: Self)
        ensures
            r == *self,
    {
        *self
    }
}

impl<B: Backing> Vma<B> {
    pub fn new(options: VmOptions, backing: B, backing_offset: u64) -> (r: Self)
        ensures
            r == (Vma {
                permissions: options.permissions,
                cache: options.cache,
                page_size: options.page_size,
                backing,
                backing_offset,
                accounting: VmaAccounting { charge: options.charge },
            }),
    {
        Self {
            permissions: options.permissions,
            cache: options.cache,
            page_size: options.page_size,
            backing,
            backing_offset,
            accounting: VmaAccounting { charge: options.charge },
        }
    }

    pub fn committed_bytes(&self, size: u64) -> (r: u64)
        ensures
            r == (if self.backing.commits() {
                size
            } else {
                0
            }),
    {
        if self.backing.is_committed() {
            size
        } else {
            0
        }
    }
}

/// A region together with the addresses it covers.
#[derive(Debug)]
pub struct VmaSegment<B> {
    pub start: u64,
    pub end: u64,
    pub vma: Vma<B>,
}

impl<B: Copy> Copy for VmaSegment<B> {

}

impl<B: Copy> Clone for VmaSegment<B> {
    fn clone(&self) -> (r: Self)
        ensures
            r == *self,
    {
        *self
    }
}

/// The regions of an address space, by where they start.
pub type Regions<B> = Map<u64, (u64, Vma<B>)>;

pub open spec fn segment_of<B>(m: Regions<B>, k: u64) -> VmaSegment<B> {
    VmaSegment { start: k, end: m[k].0, vma: m[k].1 }
}

/// The region that starts at `k` holds address `a`.
pub open spec fn holds<B>(m: Regions<B>, k: u64, a: int) -> bool {
    m.contains_key(k) && k <= a < m[k].0
}

/// The region that holds address `a`.
pub open spec fn segment_at<B>(m: Regions<B>, a: int) -> Option<VmaSegment<B>> {
    if exists|k: u64| holds(m, k, a) {
        Some(segment_of(m, choose|k: u64| holds(m, k, a)))
    } else {
        None
    }
}

/// Every address of `[start, end)` lies in a region.
pub open spec fn covered<B>(m: Regions<B>, start: u64, end: u64) -> bool {
    forall|a: int| start <= a < end ==> #[trigger] segment_at(m, a) is Some
}

pub open spec fn max(a: u64, b: u64) -> u64 {
    if a >= b {
        a
    } else {
        b
    }
}

pub open spec fn min(a: u64, b: u64) -> u64 {
    if a <= b {
        a
    } else {
        b
    }
}

impl<B> VmaSegment<B> {
    pub open spec fn overlaps(self, start: u64, end: u64) -> bool {
        self.start < end && start < self.end
    }

    /// Every offset into the backing that the region reaches can be written.
    pub open spec fn fits(self) -> bool {
        self.vma.backing_offset + (self.end - self.start) <= u64::MAX
    }

    /// The part of the region that covers `[lo, hi)`.
    pub open spec fn piece(self, lo: u64, hi: u64) -> Self {
        VmaSegment {
            start: lo,
            end: hi,
            vma: Vma {
                backing_offset: (self.vma.backing_offset + (lo - self.start)) as u64,
                ..self.vma
            },
        }
    }

    /// What address `a` of the region sees once `[lo, hi)` holds `middle`.
    pub open spec fn cut(self, lo: u64, hi: u64, middle: Option<Vma<B>>, a: int) -> Option<Self> {
        if a < lo {
            Some(self.piece(self.start, lo))
        } else if a >= hi {
            Some(self.piece(hi, self.end))
        } else {
            match middle {
                Some(vma) => Some(VmaSegment { start: lo, end: hi, vma }),
                None => None,
            }
        }
    }
}

/// No offset into a backing overflows.
pub open spec fn offsets_fit<B>(m: Regions<B>) -> bool {
    forall|k: u64| #[trigger] m.contains_key(k) ==> segment_of(m, k).fits()
}

pub proof fn lemma_segment_at<B>(m: Regions<B>)
    requires
        disjoint(m),
    ensures
        forall|k: u64, a: int| #[trigger]
            holds(m, k, a) ==> segment_at(m, a) == Some(segment_of(m, k)),
        forall|k: u64| #[trigger]
            m.contains_key(k) ==> k < m[k].0 && segment_at(m, k as int) == Some(segment_of(m, k)),
        forall|a: int|
            (#[trigger] segment_at(m, a)) matches Some(s) ==> m.contains_key(s.start) && s
                == segment_of(m, s.start) && s.start <= a < s.end,
{
    assert forall|k: u64, a: int| #[trigger] holds(m, k, a) implies segment_at(m, a) == Some(
        segment_of(m, k),
    ) by {
        let j = choose|j: u64| holds(m, j, a);
        assert(holds(m, j, a));
        assert(j == k) by {
            assert(m.contains_key(j) && m.contains_key(k));
        }
    }
    assert forall|k: u64| #[trigger] m.contains_key(k) implies k < m[k].0 && segment_at(m, k as int)
        == Some(segment_of(m, k)) by {
        assert(holds(m, k, k as int));
    }
    assert forall|a: int| (#[trigger] segment_at(m, a)) matches Some(s) ==> m.contains_key(s.start)
        && s == segment_of(m, s.start) && s.start <= a < s.end by {
        if exists|k: u64| holds(m, k, a) {
            let k = choose|k: u64| holds(m, k, a);
            assert(holds(m, k, a));
        }
    }
}

/// A region map is known by what each address sees.
pub proof fn law_regions_are_what_addresses_see<B>(m: Regions<B>, n: Regions<B>)
    requires
        disjoint(m),
        disjoint(n),
        forall|a: int| #[trigger] segment_at(m, a) == segment_at(n, a),
    ensures
        m == n,
{
    lemma_segment_at(m);
    lemma_segment_at(n);
    assert forall|k: u64| m.contains_key(k) <==> n.contains_key(k) by {
        if m.contains_key(k) {
            assert(segment_at(m, k as int) == segment_at(n, k as int));
        }
        if n.contains_key(k) {
            assert(segment_at(m, k as int) == segment_at(n, k as int));
        }
    }
    assert forall|k: u64| m.contains_key(k) implies m[k] == n[k] by {
        assert(segment_at(m, k as int) == segment_at(n, k as int));
    }
    assert(m =~= n);
}

pub proof fn lemma_remove_at<B>(m: Regions<B>, k: u64)
    requires
        disjoint(m),
        m.contains_key(k),
    ensures
        disjoint(m.remove(k)),
        forall|a: int| #[trigger]
            segment_at(m.remove(k), a) == if k <= a < m[k].0 {
                None
            } else {
                segment_at(m, a)
            },
{
    let n = m.remove(k);
    assert forall|j: u64| #[trigger] n.contains_key(j) implies m.contains_key(j) && j != k && n[j]
        == m[j] by {}
    assert(disjoint(n)) by {
        assert forall|i: u64, j: u64| #[trigger]
            n.contains_key(i) && #[trigger] n.contains_key(j) && i < j implies n[i].0 <= j by {
            assert(m.contains_key(i) && m.contains_key(j));
        }
    }
    lemma_segment_at(m);
    lemma_segment_at(n);
    assert forall|a: int| #[trigger] segment_at(n, a) == if k <= a < m[k].0 {
        None
    } else {
        segment_at(m, a)
    } by {
        if k <= a < m[k].0 {
            assert(holds(m, k, a));
            if segment_at(n, a) is Some {
                let s = segment_at(n, a)->0;
                assert(holds(m, s.start, a));
            }
        } else {
            if segment_at(m, a) is Some {
                let s = segment_at(m, a)->0;
                assert(holds(n, s.start, a));
            }
            if segment_at(n, a) is Some {
                let s = segment_at(n, a)->0;
                assert(holds(m, s.start, a));
            }
        }
    }
}

pub proof fn lemma_insert_at<B>(m: Regions<B>, start: u64, end: u64, vma: Vma<B>)
    requires
        disjoint(m),
        start < end,
        unoccupied(m, start, end),
    ensures
        disjoint(m.insert(start, (end, vma))),
        forall|a: int| #[trigger]
            segment_at(m.insert(start, (end, vma)), a) == if start <= a < end {
                Some(VmaSegment { start, end, vma })
            } else {
                segment_at(m, a)
            },
{
    let n = m.insert(start, (end, vma));
    assert(!m.contains_key(start));
    assert forall|j: u64| #[trigger] n.contains_key(j) implies j == start || (m.contains_key(j)
        && n[j] == m[j]) by {}
    assert(disjoint(n)) by {
        assert forall|i: u64, j: u64| #[trigger]
            n.contains_key(i) && #[trigger] n.contains_key(j) && i < j implies n[i].0 <= j by {
            assert(i == start || m.contains_key(i));
            assert(j == start || m.contains_key(j));
        }
    }
    lemma_segment_at(m);
    lemma_segment_at(n);
    assert forall|a: int| #[trigger] segment_at(n, a) == if start <= a < end {
        Some(VmaSegment { start, end, vma })
    } else {
        segment_at(m, a)
    } by {
        if start <= a < end {
            assert(holds(n, start, a));
        } else {
            if segment_at(m, a) is Some {
                let s = segment_at(m, a)->0;
                assert(holds(n, s.start, a));
            }
            if segment_at(n, a) is Some {
                let s = segment_at(n, a)->0;
                assert(holds(m, s.start, a));
            }
        }
    }
}

/// A stretch is unoccupied when none of its addresses sees a region.
pub proof fn lemma_unoccupied<B>(m: Regions<B>, start: u64, end: u64)
    requires
        disjoint(m),
        start < end,
    ensures
        unoccupied(m, start, end) <==> forall|a: int|
            start <= a < end ==> #[trigger] segment_at(m, a) is None,
{
    lemma_segment_at(m);
    if unoccupied(m, start, end) {
        assert forall|a: int| start <= a < end implies #[trigger] segment_at(m, a) is None by {
            if segment_at(m, a) is Some {
                let s = segment_at(m, a)->0;
                assert(m.contains_key(s.start));
            }
        }
    }
    if forall|a: int| start <= a < end ==> #[trigger] segment_at(m, a) is None {
        assert forall|k: u64| #[trigger] m.contains_key(k) implies !(k < end && start < m[k].0) by {
            if k < end && start < m[k].0 {
                let a = max(k, start) as int;
                assert(holds(m, k, a));
                assert(segment_at(m, a) is None);
            }
        }
    }
}

/// The regions that meet `[start, end)`, in address order.
pub open spec fn listing<B>(
    m: Regions<B>,
    segments: Seq<VmaSegment<B>>,
    start: u64,
    end: u64,
) -> bool {
    &&& forall|i: int|
        0 <= i < segments.len() ==> {
            let s = #[trigger] segments[i];
            &&& m.contains_key(s.start)
            &&& s == segment_of(m, s.start)
            &&& s.overlaps(start, end)
        }
    &&& forall|i: int, j: int|
        #![trigger segments[i], segments[j]]
        0 <= i < j < segments.len() ==> segments[i].end <= segments[j].start
    &&& forall|k: u64| #[trigger]
        m.contains_key(k) && segment_of(m, k).overlaps(start, end) ==> segments.contains(
            segment_of(m, k),
        )
}

pub fn collect_overlapping_vmas_from<B: Backing>(
    map: &RangeMap<Vma<B>>,
    start: u64,
    end: u64,
) -> (r: Vec<VmaSegment<B>>)
    requires
        map.wf(),
    ensures
        listing(map@, r@, start, end),
{
    proof {
        map.lemma_shape();
        lemma_span_map(map.spans());
    }
    let mut segments: Vec<VmaSegment<B>> = Vec::new();
    let entries = map.for_each();
    let ghost m = map@;
    let ghost s = map.spans();
    let mut i: usize = 0;
    while i < entries.len()
        invariant
            i <= entries@.len(),
            ordered(s),
            m == span_map(s),
            entries@.len() == s.len(),
            forall|j: int| 0 <= j < entries@.len() ==> (#[trigger] entries@[j]).span() == s[j],
            forall|j: int|
                0 <= j < s.len() ==> #[trigger] m.contains_pair(s[j].start, (s[j].end, s[j].value)),
            forall|j: int|
                0 <= j < segments@.len() ==> {
                    let x = #[trigger] segments@[j];
                    &&& m.contains_key(x.start)
                    &&& x == segment_of(m, x.start)
                    &&& x.overlaps(start, end)
                    &&& i < s.len() ==> x.end <= s[i as int].start
                },
            forall|j: int, k: int|
                #![trigger segments@[j], segments@[k]]
                0 <= j < k < segments@.len() ==> segments@[j].end <= segments@[k].start,
            forall|j: int|
                0 <= j < i && segment_of(m, (#[trigger] s[j]).start).overlaps(start, end)
                    ==> segments@.contains(segment_of(m, s[j].start)),
        decreases entries@.len() - i,
    {
        let entry = &entries[i];
        let ghost before = segments@;
        proof {
            assert(entry.span() == s[i as int]);
            assert(m.contains_pair(s[i as int].start, (s[i as int].end, s[i as int].value)));
        }
        i += 1;
        if entry.end <= start || entry.start >= end {
            continue;
        }
        let segment = VmaSegment { start: entry.start, end: entry.end, vma: *entry.value };
        segments.push(segment);
        proof {
            assert(segments@[before.len() as int] == segment);
            assert forall|x: VmaSegment<B>| before.contains(x) implies segments@.contains(x) by {
                let j = choose|j: int| 0 <= j < before.len() && before[j] == x;
                assert(segments@[j] == x);
            }
        }
    }
    proof {
        assert forall|k: u64| #[trigger]
            m.contains_key(k) && segment_of(m, k).overlaps(start, end) implies segments@.contains(
            segment_of(m, k),
        ) by {
            let j = choose|j: int|
                0 <= j < s.len() && (#[trigger] s[j]).start == k && span_map(s)[k] == (
                    s[j].end,
                    s[j].value,
                );
            assert(s[j].start == k);
        }
    }
    segments
}

/// Address `a` lies in one of the segments.
pub open spec fn within<B>(segments: Seq<VmaSegment<B>>, a: int) -> bool {
    exists|i: int| 0 <= i < segments.len() && (#[trigger] segments[i]).start <= a < segments[i].end
}

/// Checks that the segments, which are in address order, leave no hole in
/// `[start, end)`.
pub fn require_full_coverage<B: Backing>(
    start: u64,
    end: u64,
    segments: &Vec<VmaSegment<B>>,
) -> (r: Result<(), VmError>)
    requires
        start < end,
        forall|i: int|
            0 <= i < segments@.len() ==> (#[trigger] segments@[i]).start < segments@[i].end,
        forall|i: int, j: int|
            #![trigger segments@[i], segments@[j]]
            0 <= i < j < segments@.len() ==> segments@[i].end <= segments@[j].start,
    ensures
        r == (if forall|a: int| start <= a < end ==> #[trigger] within(segments@, a) {
            Ok::<(), VmError>(())
        } else {
            Err(VmError::NotFound)
        }),
{
    let mut cursor = start;
    let mut i: usize = 0;
    while i < segments.len()
        invariant
            i <= segments@.len(),
            start <= cursor < end,
            forall|i: int|
                0 <= i < segments@.len() ==> (#[trigger] segments@[i]).start < segments@[i].end,
            forall|i: int, j: int|
                #![trigger segments@[i], segments@[j]]
                0 <= i < j < segments@.len() ==> segments@[i].end <= segments@[j].start,
            forall|j: int| 0 <= j < i ==> (#[trigger] segments@[j]).end <= cursor,
            forall|a: int| start <= a < cursor ==> #[trigger] within(segments@, a),
        decreases segments@.len() - i,
    {
        let segment = &segments[i];
        if segment.start > cursor {
            proof {
                assert(!within(segments@, cursor as int)) by {
                    assert forall|j: int| 0 <= j < segments@.len() implies !((
                    #[trigger] segments@[j]).start <= cursor < segments@[j].end) by {
                        if j > i {
                            assert(segments@[i as int].end <= segments@[j].start);
                        }
                    }
                }
            }
            return Err(VmError::NotFound);
        }
        proof {
            assert forall|a: int| start <= a < max(cursor, segment.end) implies #[trigger] within(
                segments@,
                a,
            ) by {
                if a >= cursor {
                    assert(segments@[i as int].start <= a < segments@[i as int].end);
                }
            }
        }
        if segment.end > cursor {
            cursor = segment.end;
        }
        if cursor >= end {
            return Ok(());
        }
        i += 1;
    }
    proof {
        assert(!within(segments@, cursor as int));
    }
    Err(VmError::NotFound)
}

/// The regions that meet a stretch leave no hole in it when every address of
/// it sees a region.
pub proof fn lemma_coverage<B>(m: Regions<B>, segments: Seq<VmaSegment<B>>, start: u64, end: u64)
    requires
        disjoint(m),
        listing(m, segments, start, end),
    ensures
        covered(m, start, end) <==> forall|a: int|
            start <= a < end ==> #[trigger] within(segments, a),
        forall|a: int|
            (#[trigger] within(segments, a)) <==> (segment_at(m, a) matches Some(s) && s.overlaps(
                start,
                end,
            )),
        forall|i: int, a: int|
            #![trigger segments[i], segment_at(m, a)]
            0 <= i < segments.len() && segments[i].start <= a < segments[i].end ==> segment_at(m, a)
                == Some(segments[i]),
{
    lemma_segment_at(m);
    assert forall|i: int, a: int|
        #![trigger segments[i], segment_at(m, a)]
        0 <= i < segments.len() && segments[i].start <= a
            < segments[i].end implies segment_at(m, a) == Some(segments[i]) by {
        assert(holds(m, segments[i].start, a));
    }
    assert forall|a: int|
        (#[trigger] within(segments, a)) <==> (segment_at(m, a) matches Some(s) && s.overlaps(
            start,
            end,
        )) by {
        if within(segments, a) {
            let i = choose|i: int|
                0 <= i < segments.len() && (#[trigger] segments[i]).start <= a < segments[i].end;
            assert(segment_at(m, a) == Some(segments[i]));
        }
        if segment_at(m, a) matches Some(s) && s.overlaps(start, end) {
            let s = segment_at(m, a)->0;
            assert(m.contains_key(s.start));
            assert(segments.contains(s));
            let i = choose|i: int| 0 <= i < segments.len() && segments[i] == s;
            assert(segments[i].start <= a < segments[i].end);
        }
    }
    if covered(m, start, end) {
        assert forall|a: int| start <= a < end implies #[trigger] within(segments, a) by {
            assert(segment_at(m, a) is Some);
        }
    }
    if forall|a: int| start <= a < end ==> #[trigger] within(segments, a) {
        assert forall|a: int| start <= a < end implies #[trigger] segment_at(m, a) is Some by {
            assert(within(segments, a));
        }
    }
}

pub fn split_right_vma<B: Backing>(old: &Vma<B>, old_start: u64, new_start: u64) -> (r: Vma<B>)
    requires
        old_start <= new_start,
        old.backing_offset + (new_start - old_start) <= u64::MAX,
    ensures
        r == (Vma {
            backing_offset: (old.backing_offset + (new_start - old_start)) as u64,
            ..*old
        }),
{
    let mut right = *old;
    right.backing_offset = right.backing_offset + (new_start - old_start);
    right
}

/// Cuts `[lo, hi)` out of a region and puts `middle` in its place.
pub fn splice<B: Backing>(
    map: &mut RangeMap<Vma<B>>,
    segment: &VmaSegment<B>,
    lo: u64,
    hi: u64,
    middle: Option<Vma<B>>,
)
    requires
        old(map).wf(),
        old(map)@.contains_key(segment.start),
        *segment == segment_of(old(map)@, segment.start),
        segment.start <= lo < hi <= segment.end,
        segment.fits(),
    ensures
        final(map).wf(),
        forall|a: int| #[trigger]
            segment_at(final(map)@, a) == if segment.start <= a < segment.end {
                segment.cut(lo, hi, middle, a)
            } else {
                segment_at(old(map)@, a)
            },
{
    let ghost m0 = map@;
    proof {
        map.lemma_shape();
        lemma_remove_at(m0, segment.start);
    }
    map.remove(segment.start);
    let ghost m1 = map@;
    if segment.start < lo {
        proof {
            lemma_unoccupied(m1, segment.start, lo);
            lemma_insert_at(m1, segment.start, lo, segment.vma);
        }
        let _ = map.insert(segment.start, lo, segment.vma);
    }
    let ghost m2 = map@;
    if let Some(vma) = middle {
        proof {
            lemma_unoccupied(m2, lo, hi);
            lemma_insert_at(m2, lo, hi, vma);
        }
        let _ = map.insert(lo, hi, vma);
    }
    let ghost m3 = map@;
    if hi < segment.end {
        let right = split_right_vma(&segment.vma, segment.start, hi);
        proof {
            lemma_unoccupied(m3, hi, segment.end);
            lemma_insert_at(m3, hi, segment.end, right);
        }
        let _ = map.insert(hi, segment.end, right);
    }
}

/// The addresses of a region that change page size when `[start, end)` has to
/// be reachable in pages of the next smaller size.
pub open spec fn demote_start<B>(s: VmaSegment<B>, start: u64) -> u64 {
    max(aligned_down(start as int, s.vma.page_size.bytes() as int) as u64, s.start)
}

pub open spec fn demote_end<B>(s: VmaSegment<B>, end: u64) -> u64 {
    min(aligned_up(end as int, s.vma.page_size.bytes() as int) as u64, s.end)
}

/// The part of a region whose pages are split, with pages of the next smaller
/// size.
pub open spec fn demoted_vma<B>(s: VmaSegment<B>, start: u64) -> Vma<B> {
    Vma {
        page_size: s.vma.page_size.demoted()->0,
        backing_offset: (s.vma.backing_offset + (demote_start(s, start) - s.start)) as u64,
        ..s.vma
    }
}

/// What address `a` of a region sees after one demotion step for
/// `[start, end)`: the pages that touch it take the next smaller size, as long
/// as they are larger than `required`.
pub open spec fn demoted_once<B>(
    s: VmaSegment<B>,
    start: u64,
    end: u64,
    required: PageSize,
    a: int,
) -> VmaSegment<B> {
    if s.overlaps(start, end) && s.vma.page_size.bytes() > required.bytes() {
        s.cut(demote_start(s, start), demote_end(s, end), Some(demoted_vma(s, start)), a)->0
    } else {
        s
    }
}

/// What address `a` sees once no page that touches `[start, end)` is larger
/// than `required`. Two steps do, for there are three page sizes.
pub open spec fn refined<B>(
    s: Option<VmaSegment<B>>,
    start: u64,
    end: u64,
    required: PageSize,
    a: int,
) -> Option<VmaSegment<B>> {
    match s {
        Some(s) => Some(
            demoted_once(demoted_once(s, start, end, required, a), start, end, required, a),
        ),
        None => None,
    }
}

/// What address `a` sees once `[start, end)` is unmapped.
pub open spec fn unmapped<B>(
    s: Option<VmaSegment<B>>,
    start: u64,
    end: u64,
    a: int,
) -> Option<VmaSegment<B>> {
    match s {
        Some(s) => if s.overlaps(start, end) {
            s.cut(max(s.start, start), min(s.end, end), None, a)
        } else {
            Some(s)
        },
        None => None,
    }
}

pub open spec fn protected_vma<B>(
    s: VmaSegment<B>,
    start: u64,
    permissions: VmPermissions,
) -> Vma<B> {
    Vma {
        permissions,
        backing_offset: (s.vma.backing_offset + (max(s.start, start) - s.start)) as u64,
        ..s.vma
    }
}

/// What address `a` sees once `[start, end)` has other permissions.
pub open spec fn protected<B>(
    s: Option<VmaSegment<B>>,
    start: u64,
    end: u64,
    permissions: VmPermissions,
    a: int,
) -> Option<VmaSegment<B>> {
    match s {
        Some(s) => if s.overlaps(start, end) {
            s.cut(
                max(s.start, start),
                min(s.end, end),
                Some(protected_vma(s, start, permissions)),
                a,
            )
        } else {
            Some(s)
        },
        None => None,
    }
}

/// What address `a` sees once `[start, end)` holds another region.
pub open spec fn replaced<B>(
    s: Option<VmaSegment<B>>,
    start: u64,
    end: u64,
    vma: Vma<B>,
    a: int,
) -> Option<VmaSegment<B>> {
    match s {
        Some(s) => if s.overlaps(start, end) {
            s.cut(start, end, Some(vma), a)
        } else {
            Some(s)
        },
        None => None,
    }
}

/// The highest address up to which stretches are rounded to a page of any size
/// without overflow.
pub open spec fn roundable(end: u64) -> bool {
    end <= 0xFFFF_FFFF_C000_0000
}

/// One demotion step keeps an address in a region with the same backing
/// position, and where it changes anything it lowers the page size.
pub proof fn lemma_demoted_once<B>(
    s: VmaSegment<B>,
    start: u64,
    end: u64,
    required: PageSize,
    a: int,
)
    requires
        s.start <= a < s.end,
        s.fits(),
        start < end,
        roundable(end),
    ensures
        ({
            let d = demoted_once(s, start, end, required, a);
            let lo = demote_start(s, start);
            let hi = demote_end(s, end);
            &&& d.start <= a < d.end
            &&& d.fits()
            &&& s.start <= d.start && d.end <= s.end
            &&& d.vma.permissions == s.vma.permissions
            &&& d.vma.cache == s.vma.cache
            &&& d.vma.backing == s.vma.backing
            &&& d.vma.accounting == s.vma.accounting
            &&& d.vma.backing_offset - d.start == s.vma.backing_offset - s.start
            &&& d.vma.page_size.bytes() <= s.vma.page_size.bytes()
            &&& s.overlaps(start, end) ==> s.start <= lo < hi <= s.end && lo <= max(s.start, start)
                && min(s.end, end) <= hi
            &&& s.overlaps(start, end) && d.overlaps(start, end) && s.vma.page_size.bytes()
                > required.bytes() ==> d.vma.page_size == s.vma.page_size.demoted()->0
            &&& s.overlaps(start, end) && s.vma.page_size.bytes() > required.bytes() && start <= a
                < end ==> d.overlaps(start, end)
        }),
{
}

/// A third demotion step changes nothing.
pub proof fn lemma_refined_stable<B>(
    s: VmaSegment<B>,
    start: u64,
    end: u64,
    required: PageSize,
    a: int,
)
    requires
        s.start <= a < s.end,
        s.fits(),
        start < end,
        roundable(end),
    ensures
        ({
            let d = demoted_once(s, start, end, required, a);
            refined(Some(d), start, end, required, a) == refined(Some(s), start, end, required, a)
        }),
        ({
            let r = refined(Some(s), start, end, required, a)->0;
            r.overlaps(start, end) ==> r.vma.page_size.bytes() <= required.bytes()
        }),
{
    let d = demoted_once(s, start, end, required, a);
    let e = demoted_once(d, start, end, required, a);
    lemma_demoted_once(s, start, end, required, a);
    lemma_demoted_once(d, start, end, required, a);
    lemma_demoted_once(e, start, end, required, a);
}

/// The sum of `f` over the addresses of `[lo, hi)`.
pub open spec fn tally(f: spec_fn(int) -> nat, lo: int, hi: int) -> nat
    decreases hi - lo,
{
    if hi <= lo {
        0
    } else {
        tally(f, lo, hi - 1) + f(hi - 1)
    }
}

pub proof fn lemma_tally_split(f: spec_fn(int) -> nat, lo: int, mid: int, hi: int)
    requires
        lo <= mid <= hi,
    ensures
        tally(f, lo, hi) == tally(f, lo, mid) + tally(f, mid, hi),
    decreases hi - mid,
{
    if mid < hi {
        lemma_tally_split(f, lo, mid, hi - 1);
    }
}

pub proof fn lemma_tally_equal(f: spec_fn(int) -> nat, g: spec_fn(int) -> nat, lo: int, hi: int)
    requires
        forall|a: int| lo <= a < hi ==> #[trigger] f(a) == g(a),
    ensures
        tally(f, lo, hi) == tally(g, lo, hi),
    decreases hi - lo,
{
    if lo < hi {
        lemma_tally_equal(f, g, lo, hi - 1);
        assert(f(hi - 1) == g(hi - 1));
    }
}

pub proof fn lemma_tally_constant(f: spec_fn(int) -> nat, c: nat, lo: int, hi: int)
    requires
        lo <= hi,
        c <= 1,
        forall|a: int| lo <= a < hi ==> #[trigger] f(a) == c,
    ensures
        tally(f, lo, hi) == if c == 1 {
            (hi - lo) as nat
        } else {
            0
        },
    decreases hi - lo,
{
    if lo < hi {
        lemma_tally_constant(f, c, lo, hi - 1);
        assert(f(hi - 1) == c);
    }
}

pub proof fn lemma_tally_less(
    f: spec_fn(int) -> nat,
    g: spec_fn(int) -> nat,
    lo: int,
    hi: int,
    at: int,
)
    requires
        forall|a: int| lo <= a < hi ==> #[trigger] f(a) <= g(a),
        lo <= at < hi,
        f(at) < g(at),
    ensures
        tally(f, lo, hi) < tally(g, lo, hi),
    decreases hi - lo,
{
    assert(f(hi - 1) <= g(hi - 1));
    if at < hi - 1 {
        lemma_tally_less(f, g, lo, hi - 1, at);
    } else {
        lemma_tally_at_most(f, g, lo, hi - 1);
    }
}

proof fn lemma_tally_at_most(f: spec_fn(int) -> nat, g: spec_fn(int) -> nat, lo: int, hi: int)
    requires
        forall|a: int| lo <= a < hi ==> #[trigger] f(a) <= g(a),
    ensures
        tally(f, lo, hi) <= tally(g, lo, hi),
    decreases hi - lo,
{
    if lo < hi {
        lemma_tally_at_most(f, g, lo, hi - 1);
        assert(f(hi - 1) <= g(hi - 1));
    }
}

/// One where an address lies in a region.
pub open spec fn is_reserved<B>(m: Regions<B>) -> spec_fn(int) -> nat {
    |a: int|
        if segment_at(m, a) is Some {
            1
        } else {
            0
        }
}

/// One where an address lies in a region that counts as committed.
pub open spec fn is_committed<B: Backing>(m: Regions<B>) -> spec_fn(int) -> nat {
    |a: int|
        match segment_at(m, a) {
            Some(s) => if s.vma.backing.commits() {
                1
            } else {
                0
            },
            None => 0,
        }
}

/// The bytes of `[lo, hi)` that lie in a region.
pub open spec fn reserved_in<B>(m: Regions<B>, lo: int, hi: int) -> nat {
    tally(is_reserved(m), lo, hi)
}

/// The bytes of `[lo, hi)` that lie in a region that counts as committed.
pub open spec fn committed_in<B: Backing>(m: Regions<B>, lo: int, hi: int) -> nat {
    tally(is_committed(m), lo, hi)
}

spec fn rank(p: PageSize) -> nat {
    match p {
        PageSize::Size4K => 0,
        PageSize::Size2M => 1,
        PageSize::Size1G => 2,
    }
}

pub closed spec fn coarse<B>(m: Regions<B>) -> spec_fn(int) -> nat {
    |a: int|
        match segment_at(m, a) {
            Some(s) => rank(s.vma.page_size),
            None => 0,
        }
}

/// How much demotion is left to do: it falls with every step.
pub open spec fn coarseness<B>(m: Regions<B>, lo: int, hi: int) -> nat {
    tally(coarse(m), lo, hi)
}

/// A demotion step on one region makes the whole less coarse.
pub proof fn lemma_coarseness_falls<B>(
    m: Regions<B>,
    n: Regions<B>,
    s: VmaSegment<B>,
    start: u64,
    end: u64,
    required: PageSize,
)
    requires
        start < end,
        roundable(end),
        s.fits(),
        s.start < s.end,
        s.overlaps(start, end),
        s.vma.page_size.bytes() > required.bytes(),
        forall|a: int| s.start <= a < s.end ==> #[trigger] segment_at(m, a) == Some(s),
        forall|a: int| #[trigger]
            segment_at(n, a) == if s.start <= a < s.end {
                Some(demoted_once(s, start, end, required, a))
            } else {
                segment_at(m, a)
            },
    ensures
        coarseness(n, start as int, end as int) < coarseness(m, start as int, end as int),
{
    let at = max(s.start, start) as int;
    assert forall|a: int| start <= a < end implies #[trigger] coarse(n)(a) <= coarse(m)(a) by {
        assert(segment_at(n, a) == if s.start <= a < s.end {
            Some(demoted_once(s, start, end, required, a))
        } else {
            segment_at(m, a)
        });
        if s.start <= a < s.end {
            assert(segment_at(m, a) == Some(s));
            lemma_demoted_once(s, start, end, required, a);
        }
    }
    assert(segment_at(m, at) == Some(s));
    assert(segment_at(n, at) == Some(demoted_once(s, start, end, required, at)));
    lemma_demoted_once(s, start, end, required, at);
    lemma_tally_less(coarse(n), coarse(m), start as int, end as int, at);
}

pub const USER_NULL_GUARD_END: u64 = 0x0000_0000_0001_0000;

/// Where program images are placed.
pub const USER_IMAGE_BASE: u64 = 0x0000_0000_0040_0000;

/// Where the search for room begins.
pub const USER_DYNAMIC_BASE: u64 = 0x0000_0000_4000_0000;

/// Where the dynamic loader is placed.
pub const USER_INTERPRETER_BASE: u64 = 0x0000_0040_0000_0000;

pub const USER_STACK_TOP: u64 = 0x0000_7000_0000_0000;

/// The first address that user space does not reach.
pub const USER_SPACE_LIMIT: u64 = 0x0000_8000_0000_0000;

#[derive(Debug, Clone, Copy, PartialEq, Eq, Structural)]
pub struct NormalizedRange {
    pub start: u64,
    pub size: u64,
    pub end: u64,
}

/// The whole pages around `[addr, addr + size)`, or why there are none in user
/// space.
pub open spec fn normalized(addr: u64, size: u64, page_size: PageSize) -> Result<
    NormalizedRange,
    VmError,
> {
    let align = page_size.bytes() as int;
    let start = aligned_down(addr as int, align);
    let bytes = aligned_up(size + addr as int % align, align);
    if size == 0 || start < USER_NULL_GUARD_END {
        Err(VmError::InvalidRange)
    } else if bytes > u64::MAX || start + bytes > u64::MAX {
        Err(VmError::Overflow)
    } else if start + bytes > USER_SPACE_LIMIT {
        Err(VmError::InvalidRange)
    } else {
        Ok(NormalizedRange { start: start as u64, size: bytes as u64, end: (start + bytes) as u64 })
    }
}

/// What `normalized` gives is made of whole pages and lies in user space.
pub proof fn lemma_normalized(addr: u64, size: u64, page_size: PageSize)
    ensures
        normalized(addr, size, page_size) matches Ok(r) ==> {
            let align = page_size.bytes() as int;
            &&& USER_NULL_GUARD_END <= r.start < r.end <= USER_SPACE_LIMIT
            &&& r.end == r.start + r.size
            &&& r.start as int % align == 0
            &&& r.end as int % align == 0
            &&& r.size as int % align == 0
            &&& r.start <= addr && addr + size <= r.end
        },
{
    match page_size {
        PageSize::Size4K => {},
        PageSize::Size2M => {},
        PageSize::Size1G => {},
    }
}

pub fn normalize_range(addr: u64, size: u64, page_size: PageSize) -> (r: Result<
    NormalizedRange,
    VmError,
>)
    ensures
        r == normalized(addr, size, page_size),
{
    if size == 0 {
        return Err(VmError::InvalidRange);
    }
    let align = page_size.bytes();
    proof {
        lemma_page_sizes();
        lemma_mask(addr, align);
    }
    let page_offset = addr & (align - 1);
    let start = align_down(addr, align);
    if start < USER_NULL_GUARD_END {
        return Err(VmError::InvalidRange);
    }
    let size_with_offset = match size.checked_add(page_offset) {
        Some(v) => v,
        None => {
            return Err(VmError::Overflow);
        },
    };
    let size = match align_up_checked(size_with_offset, align) {
        Ok(v) => v,
        Err(e) => {
            return Err(e);
        },
    };
    let end = match start.checked_add(size) {
        Some(v) => v,
        None => {
            return Err(VmError::Overflow);
        },
    };
    if end > USER_SPACE_LIMIT {
        return Err(VmError::InvalidRange);
    }
    Ok(NormalizedRange { start, size, end })
}

pub open spec fn aligned_to(addr: u64, page_size: PageSize) -> bool {
    addr as int % page_size.bytes() as int == 0
}

pub fn is_aligned_to(addr: u64, page_size: PageSize) -> (r: bool)
    ensures
        r == aligned_to(addr, page_size),
{
    proof {
        lemma_page_sizes();
        lemma_mask(addr, page_size.bytes());
    }
    addr & (page_size.bytes() - 1) == 0
}

pub fn range_is_aligned_to(start: u64, end: u64, page_size: PageSize) -> (r: bool)
    ensures
        r == (aligned_to(start, page_size) && aligned_to(end, page_size)),
{
    is_aligned_to(start, page_size) && is_aligned_to(end, page_size)
}

/// The largest page size that both ends of a stretch are aligned to.
pub open spec fn granularity(start: u64, end: u64) -> PageSize {
    if aligned_to(start, PageSize::Size1G) && aligned_to(end, PageSize::Size1G) {
        PageSize::Size1G
    } else if aligned_to(start, PageSize::Size2M) && aligned_to(end, PageSize::Size2M) {
        PageSize::Size2M
    } else {
        PageSize::Size4K
    }
}

pub fn required_granularity_for_range(start: u64, end: u64) -> (r: PageSize)
    ensures
        r == granularity(start, end),
{
    if range_is_aligned_to(start, end, PageSize::Size1G) {
        PageSize::Size1G
    } else if range_is_aligned_to(start, end, PageSize::Size2M) {
        PageSize::Size2M
    } else {
        PageSize::Size4K
    }
}

/// Demotion moves no address into or out of a region and leaves its backing
/// alone.
pub proof fn lemma_refined_keeps<B: Backing>(
    m: Regions<B>,
    n: Regions<B>,
    start: u64,
    end: u64,
    required: PageSize,
)
    requires
        disjoint(m),
        disjoint(n),
        offsets_fit(m),
        start < end,
        roundable(end),
        forall|a: int| #[trigger]
            segment_at(n, a) == refined(segment_at(m, a), start, end, required, a),
    ensures
        offsets_fit(n),
        forall|x: u64, y: u64| #[trigger] covered(n, x, y) == covered(m, x, y),
        forall|lo: int, hi: int| #[trigger] reserved_in(n, lo, hi) == reserved_in(m, lo, hi),
        forall|lo: int, hi: int| #[trigger] committed_in(n, lo, hi) == committed_in(m, lo, hi),
{
    lemma_segment_at(m);
    lemma_segment_at(n);
    assert forall|a: int| #[trigger] segment_at(n, a) is Some <==> segment_at(m, a) is Some by {}
    assert forall|a: int| (#[trigger] segment_at(n, a)) matches Some(d) ==> d.fits()
        && d.vma.backing == segment_at(m, a)->0.vma.backing by {
        if let Some(s) = segment_at(m, a) {
            assert(m.contains_key(s.start));
            lemma_demoted_once(s, start, end, required, a);
            lemma_demoted_once(
                demoted_once(s, start, end, required, a),
                start,
                end,
                required,
                a,
            );
        }
    }
    assert forall|k: u64| #[trigger] n.contains_key(k) implies segment_of(n, k).fits() by {
        assert(segment_at(n, k as int) == Some(segment_of(n, k)));
    }
    assert forall|x: u64, y: u64| #[trigger] covered(n, x, y) == covered(m, x, y) by {
        if covered(m, x, y) {
            assert forall|a: int| x <= a < y implies #[trigger] segment_at(n, a) is Some by {
                assert(segment_at(m, a) is Some);
            }
        }
        if covered(n, x, y) {
            assert forall|a: int| x <= a < y implies #[trigger] segment_at(m, a) is Some by {
                assert(segment_at(n, a) is Some);
            }
        }
    }
    assert forall|lo: int, hi: int| #[trigger] reserved_in(n, lo, hi) == reserved_in(m, lo, hi) by {
        assert forall|a: int| lo <= a < hi implies #[trigger] is_reserved(n)(a) == is_reserved(m)(
            a,
        ) by {
            assert(segment_at(n, a) is Some <==> segment_at(m, a) is Some);
        }
        lemma_tally_equal(is_reserved(n), is_reserved(m), lo, hi);
    }
    assert forall|lo: int, hi: int| #[trigger] committed_in(n, lo, hi) == committed_in(
        m,
        lo,
        hi,
    ) by {
        assert forall|a: int| lo <= a < hi implies #[trigger] is_committed(n)(a) == is_committed(m)(
            a,
        ) by {
            assert(segment_at(n, a) is Some <==> segment_at(m, a) is Some);
        }
        lemma_tally_equal(is_committed(n), is_committed(m), lo, hi);
    }
}

/// Up to where the first `i` segments reach into `[start, end)`.
pub open spec fn reached<B>(segments: Seq<VmaSegment<B>>, i: int, start: u64, end: u64) -> u64 {
    if i == 0 {
        start
    } else {
        min(segments[i - 1].end, end)
    }
}

/// Segments that leave no hole follow each other without a gap, and the bytes
/// that each adds are those of its part of the stretch.
pub proof fn lemma_next_segment<B: Backing>(
    m: Regions<B>,
    segments: Seq<VmaSegment<B>>,
    i: int,
    start: u64,
    end: u64,
)
    requires
        disjoint(m),
        listing(m, segments, start, end),
        covered(m, start, end),
        start < end,
        0 <= i <= segments.len(),
    ensures
        i < segments.len() ==> {
            let s = segments[i];
            let lo = max(s.start, start);
            let hi = min(s.end, end);
            &&& reached(segments, i, start, end) == lo
            &&& lo < hi
            &&& hi == reached(segments, i + 1, start, end)
            &&& committed_in(m, start as int, hi as int) == committed_in(m, start as int, lo as int)
                + if s.vma.backing.commits() {
                (hi - lo) as nat
            } else {
                0
            }
        },
        i == segments.len() ==> reached(segments, i, start, end) == end,
        start <= reached(segments, i, start, end) <= end,
{
    lemma_segment_at(m);
    lemma_coverage(m, segments, start, end);
    let done = reached(segments, i, start, end);
    if done < end {
        assert(segment_at(m, done as int) is Some);
        assert(within(segments, done as int));
        let j = choose|j: int|
            0 <= j < segments.len() && (#[trigger] segments[j]).start <= done < segments[j].end;
        if j < i {
            if j < i - 1 {
                assert(segments[j].end <= segments[i - 1].start);
                assert(segments[i - 1].start < segments[i - 1].end) by {
                    assert(m.contains_key(segments[i - 1].start));
                }
            }
        }
        if i < j {
            assert(segments[i].end <= segments[j].start);
            assert(m.contains_key(segments[i].start));
        }
        if i > 0 {
            assert(segments[i - 1].end <= segments[j].start);
            if i < segments.len() {
                assert(segments[i - 1].end <= segments[i].start);
            }
        }
    } else if i < segments.len() {
        assert(segments[i - 1].end <= segments[i].start);
    }
    if i < segments.len() {
        let s = segments[i];
        let lo = max(s.start, start) as int;
        let hi = min(s.end, end) as int;
        let c: nat = if s.vma.backing.commits() {
            1
        } else {
            0
        };
        assert forall|a: int| lo <= a < hi implies #[trigger] is_committed(m)(a) == c by {
            assert(segment_at(m, a) == Some(segments[i]));
        }
        lemma_tally_split(is_committed(m), start as int, lo, hi);
        lemma_tally_constant(is_committed(m), c, lo, hi);
    }
}

/// Where in its backing the byte at `a` is found.
pub open spec fn position<B>(s: VmaSegment<B>, a: int) -> int {
    s.vma.backing_offset + (a - s.start)
}

/// Two regions look the same from address `a`, but for the size of the pages
/// and how far they extend.
pub open spec fn same_at<B>(s: VmaSegment<B>, t: VmaSegment<B>, a: int) -> bool {
    &&& s.vma.permissions == t.vma.permissions
    &&& s.vma.cache == t.vma.cache
    &&& s.vma.backing == t.vma.backing
    &&& s.vma.accounting == t.vma.accounting
    &&& position(s, a) == position(t, a)
}

/// Unmapping a stretch empties it, and every other address keeps its region's
/// permissions, cache policy, backing and place in that backing.
pub proof fn law_unmap_is_local<B>(
    s: Option<VmaSegment<B>>,
    start: u64,
    end: u64,
    required: PageSize,
    a: int,
)
    requires
        start < end,
        roundable(end),
        s matches Some(s) ==> s.start <= a < s.end && s.fits(),
    ensures
        ({
            let t = unmapped(refined(s, start, end, required, a), start, end, a);
            &&& start <= a < end ==> t is None
            &&& !(start <= a < end) ==> (t is Some <==> s is Some)
            &&& t matches Some(t) ==> t.start <= a < t.end && same_at(s->0, t, a)
        }),
{
    if let Some(s) = s {
        let d = demoted_once(s, start, end, required, a);
        lemma_demoted_once(s, start, end, required, a);
        lemma_demoted_once(d, start, end, required, a);
    }
}

/// Protecting a stretch sets its permissions and nothing else, and leaves every
/// other address as it was.
pub proof fn law_protect_is_local<B>(
    s: Option<VmaSegment<B>>,
    start: u64,
    end: u64,
    required: PageSize,
    permissions: VmPermissions,
    a: int,
)
    requires
        start < end,
        roundable(end),
        s matches Some(s) ==> s.start <= a < s.end && s.fits(),
    ensures
        ({
            let t = protected(refined(s, start, end, required, a), start, end, permissions, a);
            &&& t is Some <==> s is Some
            &&& t matches Some(t) ==> {
                let u = VmaSegment {
                    vma: Vma {
                        permissions: if start <= a < end {
                            permissions
                        } else {
                            s->0.vma.permissions
                        },
                        ..s->0.vma
                    },
                    ..s->0
                };
                t.start <= a < t.end && same_at(u, t, a)
            }
        }),
{
    if let Some(s) = s {
        let d = demoted_once(s, start, end, required, a);
        lemma_demoted_once(s, start, end, required, a);
        lemma_demoted_once(d, start, end, required, a);
    }
}

/// A region is made of whole pages of its own size.
pub open spec fn page_aligned<B>(s: VmaSegment<B>) -> bool {
    aligned_to(s.start, s.vma.page_size) && aligned_to(s.end, s.vma.page_size)
}

/// A multiple of a page size is a multiple of the smaller ones.
proof fn lemma_aligned_smaller(x: u64, p: PageSize, q: PageSize)
    requires
        aligned_to(x, p),
        q.bytes() <= p.bytes(),
    ensures
        aligned_to(x, q),
{
    let y = x as int;
    assert(y % 0x4000_0000 == 0 ==> y % 0x20_0000 == 0) by {
        assert(y == 0x4000_0000 * (y / 0x4000_0000) + y % 0x4000_0000);
    }
    assert(y % 0x20_0000 == 0 ==> y % 0x1000 == 0) by {
        assert(y == 0x20_0000 * (y / 0x20_0000) + y % 0x20_0000);
    }
}

proof fn lemma_rounded(x: u64, p: PageSize)
    requires
        roundable(x),
    ensures
        aligned_down(x as int, p.bytes() as int) <= u64::MAX,
        aligned_to(aligned_down(x as int, p.bytes() as int) as u64, p),
        aligned_up(x as int, p.bytes() as int) <= u64::MAX,
        aligned_to(aligned_up(x as int, p.bytes() as int) as u64, p),
{
    match p {
        PageSize::Size4K => {},
        PageSize::Size2M => {},
        PageSize::Size1G => {},
    }
}

proof fn lemma_demoted_aligned<B>(
    s: VmaSegment<B>,
    start: u64,
    end: u64,
    required: PageSize,
    a: int,
)
    requires
        start < end,
        roundable(end),
        s.start <= a < s.end,
        s.fits(),
        page_aligned(s),
    ensures
        page_aligned(demoted_once(s, start, end, required, a)),
{
    let p = s.vma.page_size;
    lemma_rounded(start, p);
    lemma_rounded(end, p);
    let lo = demote_start(s, start);
    let hi = demote_end(s, end);
    assert(aligned_to(lo, p) && aligned_to(hi, p));
    if let Some(q) = p.demoted() {
        lemma_aligned_smaller(lo, p, q);
        lemma_aligned_smaller(hi, p, q);
    }
}

/// Whole-page regions stay whole-page regions when a stretch is unmapped,
/// protected or replaced: that is what the demotion before it is for.
pub proof fn law_alignment_is_kept<B>(
    s: VmaSegment<B>,
    start: u64,
    end: u64,
    permissions: VmPermissions,
    a: int,
)
    requires
        start < end,
        roundable(end),
        aligned_to(start, PageSize::Size4K),
        aligned_to(end, PageSize::Size4K),
        s.start <= a < s.end,
        s.fits(),
        page_aligned(s),
    ensures
        ({
            let r = refined(Some(s), start, end, granularity(start, end), a);
            &&& page_aligned(r->0)
            &&& unmapped(r, start, end, a) matches Some(t) ==> page_aligned(t)
            &&& protected(r, start, end, permissions, a) matches Some(t) ==> page_aligned(t)
        }),
{
    let required = granularity(start, end);
    let d = demoted_once(s, start, end, required, a);
    let e = demoted_once(d, start, end, required, a);
    lemma_demoted_once(s, start, end, required, a);
    lemma_demoted_aligned(s, start, end, required, a);
    lemma_demoted_once(d, start, end, required, a);
    lemma_demoted_aligned(d, start, end, required, a);
    lemma_refined_stable(s, start, end, required, a);
    if e.overlaps(start, end) {
        lemma_aligned_smaller(start, required, e.vma.page_size);
        lemma_aligned_smaller(end, required, e.vma.page_size);
    }
}

/// The counters agree with the regions: every mapped byte is counted once as
/// reserved, and once as committed where its backing commits it.
pub open spec fn booked<B: Backing>(m: Regions<B>, reserved: u64, committed: u64) -> bool {
    &&& reserved == reserved_in(m, 0, 0x1_0000_0000_0000_0000)
    &&& committed == committed_in(m, 0, 0x1_0000_0000_0000_0000)
}

/// Unmapping takes just the stretch's bytes off the counters.
pub proof fn law_unmap_keeps_books<B: Backing>(
    m: Regions<B>,
    n: Regions<B>,
    reserved: u64,
    committed: u64,
    start: u64,
    end: u64,
    required: PageSize,
)
    requires
        disjoint(m),
        disjoint(n),
        offsets_fit(m),
        start < end,
        roundable(end),
        covered(m, start, end),
        booked(m, reserved, committed),
        forall|a: int| #[trigger]
            segment_at(n, a) == unmapped(
                refined(segment_at(m, a), start, end, required, a),
                start,
                end,
                a,
            ),
    ensures
        ({
            let gone = committed_in(m, start as int, end as int);
            &&& reserved >= end - start
            &&& committed >= gone
            &&& booked(n, (reserved - (end - start)) as u64, (committed - gone) as u64)
        }),
{
    let top = 0x1_0000_0000_0000_0000int;
    let lo = start as int;
    let hi = end as int;
    lemma_segment_at(m);
    assert forall|a: int|
        #![trigger segment_at(n, a)]
        (start <= a < end ==> segment_at(n, a) is None) && (!(start <= a < end) ==> (segment_at(
            n,
            a,
        ) is Some <==> segment_at(m, a) is Some)) && (segment_at(n, a) is Some ==> segment_at(
            n,
            a,
        )->0.vma.backing == segment_at(m, a)->0.vma.backing) by {
        if let Some(s) = segment_at(m, a) {
            assert(m.contains_key(s.start));
        }
        law_unmap_is_local(segment_at(m, a), start, end, required, a);
    }
    let rm = is_reserved(m);
    let rn = is_reserved(n);
    let cm = is_committed(m);
    let cn = is_committed(n);
    lemma_tally_split(rm, 0, lo, top);
    lemma_tally_split(rm, lo, hi, top);
    lemma_tally_split(rn, 0, lo, top);
    lemma_tally_split(rn, lo, hi, top);
    lemma_tally_split(cm, 0, lo, top);
    lemma_tally_split(cm, lo, hi, top);
    lemma_tally_split(cn, 0, lo, top);
    lemma_tally_split(cn, lo, hi, top);
    assert forall|a: int| !(lo <= a < hi) implies #[trigger] rn(a) == rm(a) by {
        assert(segment_at(n, a) is Some <==> segment_at(m, a) is Some);
    }
    assert forall|a: int| !(lo <= a < hi) implies #[trigger] cn(a) == cm(a) by {
        assert(segment_at(n, a) is Some <==> segment_at(m, a) is Some);
    }
    assert forall|a: int| lo <= a < hi implies #[trigger] rn(a) == 0 by {
        assert(segment_at(n, a) is None);
    }
    assert forall|a: int| lo <= a < hi implies #[trigger] cn(a) == 0 by {
        assert(segment_at(n, a) is None);
    }
    assert forall|a: int| lo <= a < hi implies #[trigger] rm(a) == 1 by {
        assert(segment_at(m, a) is Some);
    }
    lemma_tally_equal(rn, rm, 0, lo);
    lemma_tally_equal(rn, rm, hi, top);
    lemma_tally_equal(cn, cm, 0, lo);
    lemma_tally_equal(cn, cm, hi, top);
    lemma_tally_constant(rn, 0, lo, hi);
    lemma_tally_constant(cn, 0, lo, hi);
    lemma_tally_constant(rm, 1, lo, hi);
}

/// Placing a region where nothing was adds just its bytes to the counters.
pub proof fn law_map_keeps_books<B: Backing>(
    m: Regions<B>,
    reserved: u64,
    committed: u64,
    start: u64,
    end: u64,
    vma: Vma<B>,
)
    requires
        disjoint(m),
        start < end,
        unoccupied(m, start, end),
        booked(m, reserved, committed),
    ensures
        ({
            let n = m.insert(start, (end, vma));
            let more = if vma.backing.commits() {
                end - start
            } else {
                0
            };
            &&& reserved_in(n, 0, 0x1_0000_0000_0000_0000) == reserved + (end - start)
            &&& committed_in(n, 0, 0x1_0000_0000_0000_0000) == committed + more
        }),
{
    let n = m.insert(start, (end, vma));
    let top = 0x1_0000_0000_0000_0000int;
    let lo = start as int;
    let hi = end as int;
    lemma_unoccupied(m, start, end);
    lemma_insert_at(m, start, end, vma);
    let rm = is_reserved(m);
    let rn = is_reserved(n);
    let cm = is_committed(m);
    let cn = is_committed(n);
    let c: nat = if vma.backing.commits() {
        1
    } else {
        0
    };
    lemma_tally_split(rm, 0, lo, top);
    lemma_tally_split(rm, lo, hi, top);
    lemma_tally_split(rn, 0, lo, top);
    lemma_tally_split(rn, lo, hi, top);
    lemma_tally_split(cm, 0, lo, top);
    lemma_tally_split(cm, lo, hi, top);
    lemma_tally_split(cn, 0, lo, top);
    lemma_tally_split(cn, lo, hi, top);
    assert forall|a: int| !(lo <= a < hi) implies #[trigger] rn(a) == rm(a) by {
        assert(segment_at(n, a) == segment_at(m, a));
    }
    assert forall|a: int| !(lo <= a < hi) implies #[trigger] cn(a) == cm(a) by {
        assert(segment_at(n, a) == segment_at(m, a));
    }
    assert forall|a: int| lo <= a < hi implies #[trigger] rn(a) == 1 by {
        assert(segment_at(n, a) is Some);
    }
    assert forall|a: int| lo <= a < hi implies #[trigger] cn(a) == c by {
        assert(segment_at(n, a) == Some(VmaSegment { start, end, vma }));
    }
    assert forall|a: int| lo <= a < hi implies #[trigger] rm(a) == 0 by {
        assert(segment_at(m, a) is None);
    }
    assert forall|a: int| lo <= a < hi implies #[trigger] cm(a) == 0 by {
        assert(segment_at(m, a) is None);
    }
    lemma_tally_equal(rn, rm, 0, lo);
    lemma_tally_equal(rn, rm, hi, top);
    lemma_tally_equal(cn, cm, 0, lo);
    lemma_tally_equal(cn, cm, hi, top);
    lemma_tally_constant(rn, 1, lo, hi);
    lemma_tally_constant(cn, c, lo, hi);
    lemma_tally_constant(rm, 0, lo, hi);
    lemma_tally_constant(cm, 0, lo, hi);
}

/// Protecting a stretch leaves the counters right as they are.
pub proof fn law_protect_keeps_books<B: Backing>(
    m: Regions<B>,
    n: Regions<B>,
    reserved: u64,
    committed: u64,
    start: u64,
    end: u64,
    required: PageSize,
    permissions: VmPermissions,
)
    requires
        disjoint(m),
        offsets_fit(m),
        start < end,
        roundable(end),
        booked(m, reserved, committed),
        forall|a: int| #[trigger]
            segment_at(n, a) == protected(
                refined(segment_at(m, a), start, end, required, a),
                start,
                end,
                permissions,
                a,
            ),
    ensures
        booked(n, reserved, committed),
{
    let top = 0x1_0000_0000_0000_0000int;
    lemma_segment_at(m);
    assert forall|a: int|
        #![trigger segment_at(n, a)]
        (segment_at(n, a) is Some <==> segment_at(m, a) is Some) && (segment_at(n, a) is Some
            ==> segment_at(n, a)->0.vma.backing == segment_at(m, a)->0.vma.backing) by {
        if let Some(s) = segment_at(m, a) {
            assert(m.contains_key(s.start));
        }
        law_protect_is_local(segment_at(m, a), start, end, required, permissions, a);
    }
    assert forall|a: int| 0 <= a < top implies #[trigger] is_reserved(n)(a) == is_reserved(m)(
        a,
    ) by {
        assert(segment_at(n, a) is Some <==> segment_at(m, a) is Some);
    }
    assert forall|a: int| 0 <= a < top implies #[trigger] is_committed(n)(a) == is_committed(m)(
        a,
    ) by {
        assert(segment_at(n, a) is Some <==> segment_at(m, a) is Some);
    }
    lemma_tally_equal(is_reserved(n), is_reserved(m), 0, top);
    lemma_tally_equal(is_committed(n), is_committed(m), 0, top);
}

} // verus!
