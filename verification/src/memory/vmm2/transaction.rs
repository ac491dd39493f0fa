//! A set of changes to an address space that is applied as one.

use super::types::{PageSize, VmError, VmPermissions};
use crate::memory::range_tree::{disjoint, unoccupied, RangeMap};
use crate::memory::vma::{
    lemma_insert_at, lemma_remove_at, lemma_unoccupied, max, min, protected_vma, segment_at,
    Backing, Regions, Vma, VmaSegment,
};
use vstd::prelude::*;

verus! {

#[derive(Debug)]
pub struct VmaInsert<B> {
    pub start: u64,
    pub end: u64,
    pub vma: Vma<B>,
}

impl<B: Copy> Clone for VmaInsert<B> {
    fn clone(&self) -> (r: Self)
        ensures
            r == *self,
    {
        VmaInsert { start: self.start, end: self.end, vma: self.vma }
    }
}

#[derive(Debug, Clone, Copy, PartialEq, Eq, Structural)]
pub struct VmaRemove {
    pub start: u64,
    pub end: u64,
}

#[derive(Debug, Clone, Copy, PartialEq, Eq, Structural)]
pub struct AccountingDelta {
    pub reserved_add: u64,
    pub reserved_sub: u64,
    pub committed_add: u64,
    pub committed_sub: u64,
    pub resident_add: u64,
    pub resident_sub: u64,
    pub private_add: u64,
    pub private_sub: u64,
    pub shared_add: u64,
    pub shared_sub: u64,
    pub page_table_add: u64,
    pub page_table_sub: u64,
}

impl AccountingDelta {
    pub open spec fn none() -> Self {
        AccountingDelta {
            reserved_add: 0,
            reserved_sub: 0,
            committed_add: 0,
            committed_sub: 0,
            resident_add: 0,
            resident_sub: 0,
            private_add: 0,
            private_sub: 0,
            shared_add: 0,
            shared_sub: 0,
            page_table_add: 0,
            page_table_sub: 0,
        }
    }
}

impl Default for AccountingDelta {
    fn default() -> (r: Self)
        ensures
            r == AccountingDelta::none(),
    {
        AccountingDelta {
            reserved_add: 0,
            reserved_sub: 0,
            committed_add: 0,
            committed_sub: 0,
            resident_add: 0,
            resident_sub: 0,
            private_add: 0,
            private_sub: 0,
            shared_add: 0,
            shared_sub: 0,
            page_table_add: 0,
            page_table_sub: 0,
        }
    }
}

/// A change to the page tables that goes with a change to the regions.
#[derive(Debug, Clone, Copy, PartialEq, Eq, Structural)]
pub enum PagerOp {
    Unmap { start: u64, end: u64, page_size: PageSize },
    Protect { start: u64, end: u64, page_size: PageSize, permissions: VmPermissions },
    Demote { start: u64, end: u64, from: PageSize },
    MapRange { start: u64, end: u64, phys: u64, page_size: PageSize, permissions: VmPermissions },
}

#[derive(Debug)]
pub struct VmaTransaction<B> {
    pub removes: Vec<VmaRemove>,
    pub inserts: Vec<VmaInsert<B>>,
    pub pager_ops: Vec<PagerOp>,
    pub accounting: AccountingDelta,
}

/// What is left of the regions once those of `removes` are taken out one after
/// the other, and the error that stopped it.
pub open spec fn after_removes<B>(m: Regions<B>, removes: Seq<VmaRemove>) -> (
    Regions<B>,
    Option<VmError>,
)
    decreases removes.len(),
{
    if removes.len() == 0 {
        (m, None)
    } else {
        let (n, error) = after_removes(m, removes.drop_last());
        let r = removes.last();
        if error is Some {
            (n, error)
        } else if !n.contains_key(r.start) {
            (n, Some(VmError::NotFound))
        } else if n[r.start].0 != r.end {
            (n, Some(VmError::InvalidArgument))
        } else {
            (n.remove(r.start), None)
        }
    }
}

/// The regions once those of `inserts` are added one after the other, and the
/// error that stopped it.
pub open spec fn after_inserts<B>(m: Regions<B>, inserts: Seq<VmaInsert<B>>) -> (
    Regions<B>,
    Option<VmError>,
)
    decreases inserts.len(),
{
    if inserts.len() == 0 {
        (m, None)
    } else {
        let (n, error) = after_inserts(m, inserts.drop_last());
        let i = inserts.last();
        if error is Some {
            (n, error)
        } else if i.start >= i.end {
            (n, Some(VmError::NotFound))
        } else if !unoccupied(n, i.start, i.end) {
            (n, Some(VmError::Overlap))
        } else {
            (n.insert(i.start, (i.end, i.vma)), None)
        }
    }
}

/// All removals, then all insertions.
pub open spec fn applied<B>(
    m: Regions<B>,
    removes: Seq<VmaRemove>,
    inserts: Seq<VmaInsert<B>>,
) -> (Regions<B>, Option<VmError>) {
    let (n, error) = after_removes(m, removes);
    if error is Some {
        (n, error)
    } else {
        after_inserts(n, inserts)
    }
}

proof fn lemma_removes_stop<B>(m: Regions<B>, removes: Seq<VmaRemove>, i: int)
    requires
        0 <= i <= removes.len(),
        after_removes(m, removes.take(i)).1 is Some,
    ensures
        after_removes(m, removes) == after_removes(m, removes.take(i)),
    decreases removes.len(),
{
    if i == removes.len() {
        assert(removes.take(i) =~= removes);
    } else {
        assert(removes.drop_last().take(i) =~= removes.take(i));
        lemma_removes_stop(m, removes.drop_last(), i);
    }
}

proof fn lemma_inserts_stop<B>(m: Regions<B>, inserts: Seq<VmaInsert<B>>, i: int)
    requires
        0 <= i <= inserts.len(),
        after_inserts(m, inserts.take(i)).1 is Some,
    ensures
        after_inserts(m, inserts) == after_inserts(m, inserts.take(i)),
    decreases inserts.len(),
{
    if i == inserts.len() {
        assert(inserts.take(i) =~= inserts);
    } else {
        assert(inserts.drop_last().take(i) =~= inserts.take(i));
        lemma_inserts_stop(m, inserts.drop_last(), i);
    }
}

impl<B: Backing> VmaTransaction<B> {
    pub open spec fn is_empty(&self) -> bool {
        &&& self.removes@.len() == 0
        &&& self.inserts@.len() == 0
        &&& self.pager_ops@.len() == 0
        &&& self.accounting == AccountingDelta::none()
    }

    pub fn new() -> (r: Self)
        ensures
            r.is_empty(),
    {
        VmaTransaction {
            removes: Vec::new(),
            inserts: Vec::new(),
            pager_ops: Vec::new(),
            accounting: AccountingDelta::default(),
        }
    }

    pub fn remove(&mut self, start: u64, end: u64)
        ensures
            final(self).removes@ == old(self).removes@.push(VmaRemove { start, end }),
            final(self).inserts == old(self).inserts,
            final(self).pager_ops == old(self).pager_ops,
            final(self).accounting == old(self).accounting,
    {
        self.removes.push(VmaRemove { start, end });
    }

    /// Notes a region to be added; an empty one is passed over.
    pub fn insert(&mut self, start: u64, end: u64, vma: Vma<B>)
        ensures
            final(self).inserts@ == (if start < end {
                old(self).inserts@.push(VmaInsert { start, end, vma })
            } else {
                old(self).inserts@
            }),
            final(self).removes == old(self).removes,
            final(self).pager_ops == old(self).pager_ops,
            final(self).accounting == old(self).accounting,
    {
        if start < end {
            self.inserts.push(VmaInsert { start, end, vma });
        }
    }

    fn push_pager_op(&mut self, op: PagerOp)
        ensures
            final(self).pager_ops@ == old(self).pager_ops@.push(op),
            final(self).removes == old(self).removes,
            final(self).inserts == old(self).inserts,
            final(self).accounting == old(self).accounting,
    {
        self.pager_ops.push(op);
    }

    pub fn push_pager_unmap(&mut self, start: u64, end: u64, page_size: PageSize)
        ensures
            final(self).pager_ops@ == (if start < end {
                old(self).pager_ops@.push(PagerOp::Unmap { start, end, page_size })
            } else {
                old(self).pager_ops@
            }),
            final(self).removes == old(self).removes,
            final(self).inserts == old(self).inserts,
            final(self).accounting == old(self).accounting,
    {
        if start < end {
            self.push_pager_op(PagerOp::Unmap { start, end, page_size });
        }
    }

    pub fn push_pager_protect(
        &mut self,
        start: u64,
        end: u64,
        page_size: PageSize,
        permissions: VmPermissions,
    )
        ensures
            final(self).pager_ops@ == (if start < end {
                old(self).pager_ops@.push(PagerOp::Protect { start, end, page_size, permissions })
            } else {
                old(self).pager_ops@
            }),
            final(self).removes == old(self).removes,
            final(self).inserts == old(self).inserts,
            final(self).accounting == old(self).accounting,
    {
        if start < end {
            self.push_pager_op(PagerOp::Protect { start, end, page_size, permissions });
        }
    }

    pub fn push_pager_demote(&mut self, start: u64, end: u64, from: PageSize)
        ensures
            final(self).pager_ops@ == (if start < end {
                old(self).pager_ops@.push(PagerOp::Demote { start, end, from })
            } else {
                old(self).pager_ops@
            }),
            final(self).removes == old(self).removes,
            final(self).inserts == old(self).inserts,
            final(self).accounting == old(self).accounting,
    {
        if start < end {
            self.push_pager_op(PagerOp::Demote { start, end, from });
        }
    }

    pub fn push_pager_map(
        &mut self,
        start: u64,
        end: u64,
        phys: u64,
        page_size: PageSize,
        permissions: VmPermissions,
    )
        ensures
            final(self).pager_ops@ == (if start < end {
                old(self).pager_ops@.push(
                    PagerOp::MapRange { start, end, phys, page_size, permissions },
                )
            } else {
                old(self).pager_ops@
            }),
            final(self).removes == old(self).removes,
            final(self).inserts == old(self).inserts,
            final(self).accounting == old(self).accounting,
    {
        if start < end {
            self.push_pager_op(PagerOp::MapRange { start, end, phys, page_size, permissions });
        }
    }

    pub fn add_reserved(&mut self, bytes: u64) -> (r: Result<(), VmError>)
        ensures
            r == (if old(self).accounting.reserved_add + bytes <= u64::MAX {
                Ok::<(), VmError>(())
            } else {
                Err(VmError::Overflow)
            }),
            r is Err ==> *final(self) == *old(self),
            r is Ok ==> *final(self) == (VmaTransaction {
                accounting: AccountingDelta {
                    reserved_add: (old(self).accounting.reserved_add + bytes) as u64,
                    ..old(self).accounting
                },
                ..*old(self)
            }),
    {
        match self.accounting.reserved_add.checked_add(bytes) {
            Some(total) => {
                self.accounting.reserved_add = total;
                Ok(())
            },
            None => Err(VmError::Overflow),
        }
    }

    pub fn sub_reserved(&mut self, bytes: u64) -> (r: Result<(), VmError>)
        ensures
            r == (if old(self).accounting.reserved_sub + bytes <= u64::MAX {
                Ok::<(), VmError>(())
            } else {
                Err(VmError::Overflow)
            }),
            r is Err ==> *final(self) == *old(self),
            r is Ok ==> *final(self) == (VmaTransaction {
                accounting: AccountingDelta {
                    reserved_sub: (old(self).accounting.reserved_sub + bytes) as u64,
                    ..old(self).accounting
                },
                ..*old(self)
            }),
    {
        match self.accounting.reserved_sub.checked_add(bytes) {
            Some(total) => {
                self.accounting.reserved_sub = total;
                Ok(())
            },
            None => Err(VmError::Overflow),
        }
    }

    pub fn add_committed(&mut self, bytes: u64) -> (r: Result<(), VmError>)
        ensures
            r == (if old(self).accounting.committed_add + bytes <= u64::MAX {
                Ok::<(), VmError>(())
            } else {
                Err(VmError::Overflow)
            }),
            r is Err ==> *final(self) == *old(self),
            r is Ok ==> *final(self) == (VmaTransaction {
                accounting: AccountingDelta {
                    committed_add: (old(self).accounting.committed_add + bytes) as u64,
                    ..old(self).accounting
                },
                ..*old(self)
            }),
    {
        match self.accounting.committed_add.checked_add(bytes) {
            Some(total) => {
                self.accounting.committed_add = total;
                Ok(())
            },
            None => Err(VmError::Overflow),
        }
    }

    pub fn sub_committed(&mut self, bytes: u64) -> (r: Result<(), VmError>)
        ensures
            r == (if old(self).accounting.committed_sub + bytes <= u64::MAX {
                Ok::<(), VmError>(())
            } else {
                Err(VmError::Overflow)
            }),
            r is Err ==> *final(self) == *old(self),
            r is Ok ==> *final(self) == (VmaTransaction {
                accounting: AccountingDelta {
                    committed_sub: (old(self).accounting.committed_sub + bytes) as u64,
                    ..old(self).accounting
                },
                ..*old(self)
            }),
    {
        match self.accounting.committed_sub.checked_add(bytes) {
            Some(total) => {
                self.accounting.committed_sub = total;
                Ok(())
            },
            None => Err(VmError::Overflow),
        }
    }

    /// Takes out every region to be removed, then adds every region to be
    /// inserted; the first failure ends it.
    pub fn apply_to_map(&self, map: &mut RangeMap<Vma<B>>) -> (r: Result<(), VmError>)
        requires
            old(map).wf(),
        ensures
            final(map).wf(),
            final(map)@ == applied(old(map)@, self.removes@, self.inserts@).0,
            r == match applied(old(map)@, self.removes@, self.inserts@).1 {
                None => Ok::<(), VmError>(()),
                Some(e) => Err(e),
            },
    {
        let ghost m = map@;
        let mut i: usize = 0;
        assert(self.removes@.take(0) =~= Seq::empty());
        while i < self.removes.len()
            invariant
                i <= self.removes@.len(),
                map.wf(),
                after_removes(m, self.removes@.take(i as int)) == (map@, None::<VmError>),
                m == old(map)@,
            decreases self.removes@.len() - i,
        {
            let remove = &self.removes[i];
            proof {
                let t = self.removes@.take(i + 1);
                assert(t.drop_last() =~= self.removes@.take(i as int));
                assert(t.last() == *remove);
            }
            match map.remove_exact(remove.start, remove.end) {
                Ok(_) => {},
                Err(e) => {
                    proof {
                        lemma_removes_stop(m, self.removes@, i + 1);
                    }
                    return Err(VmError::from(e));
                },
            }
            i += 1;
        }
        assert(self.removes@.take(i as int) =~= self.removes@);
        let ghost n = map@;
        let mut i: usize = 0;
        assert(self.inserts@.take(0) =~= Seq::empty());
        while i < self.inserts.len()
            invariant
                i <= self.inserts@.len(),
                map.wf(),
                after_removes(m, self.removes@) == (n, None::<VmError>),
                after_inserts(n, self.inserts@.take(i as int)) == (map@, None::<VmError>),
                m == old(map)@,
            decreases self.inserts@.len() - i,
        {
            let insert = &self.inserts[i];
            proof {
                let t = self.inserts@.take(i + 1);
                assert(t.drop_last() =~= self.inserts@.take(i as int));
                assert(t.last() == *insert);
            }
            match map.insert(insert.start, insert.end, insert.vma) {
                Ok(()) => {},
                Err(e) => {
                    proof {
                        lemma_inserts_stop(n, self.inserts@, i + 1);
                    }
                    return Err(VmError::from(e));
                },
            }
            i += 1;
        }
        assert(self.inserts@.take(i as int) =~= self.inserts@);
        Ok(())
    }
}

impl<B: Backing> Default for VmaTransaction<B> {
    fn default() -> (r: Self)
        ensures
            r.is_empty(),
    {
        Self::new()
    }
}

/// Address `a` lies in a region to be removed.
pub open spec fn gone(removes: Seq<VmaRemove>, a: int) -> bool {
    exists|i: int| 0 <= i < removes.len() && (#[trigger] removes[i]).start <= a < removes[i].end
}

/// The region to be inserted that holds address `a`.
pub open spec fn inserted_at<B>(inserts: Seq<VmaInsert<B>>, a: int) -> Option<VmaSegment<B>> {
    if exists|i: int| insert_holds(inserts, i, a) {
        let i = choose|i: int| insert_holds(inserts, i, a);
        Some(VmaSegment { start: inserts[i].start, end: inserts[i].end, vma: inserts[i].vma })
    } else {
        None
    }
}

pub open spec fn insert_holds<B>(inserts: Seq<VmaInsert<B>>, i: int, a: int) -> bool {
    0 <= i < inserts.len() && inserts[i].start <= a < inserts[i].end
}

/// Each removal names a region, and none of them twice.
pub open spec fn removes_regions<B>(m: Regions<B>, removes: Seq<VmaRemove>) -> bool {
    &&& forall|i: int|
        0 <= i < removes.len() ==> m.contains_key((#[trigger] removes[i]).start)
            && m[removes[i].start].0 == removes[i].end
    &&& forall|i: int, j: int|
        #![trigger removes[i], removes[j]]
        0 <= i < j < removes.len() ==> removes[i].start != removes[j].start
}

/// The regions to be inserted are in address order.
pub open spec fn inserts_in_order<B>(inserts: Seq<VmaInsert<B>>) -> bool {
    &&& forall|i: int| 0 <= i < inserts.len() ==> (#[trigger] inserts[i]).start < inserts[i].end
    &&& forall|i: int, j: int|
        #![trigger inserts[i], inserts[j]]
        0 <= i < j < inserts.len() ==> inserts[i].end <= inserts[j].start
}

proof fn lemma_after_removes<B>(m: Regions<B>, removes: Seq<VmaRemove>)
    requires
        disjoint(m),
        removes_regions(m, removes),
    ensures
        ({
            let (n, error) = after_removes(m, removes);
            &&& error is None
            &&& disjoint(n)
            &&& forall|a: int| #[trigger]
                segment_at(n, a) == if gone(removes, a) {
                    None
                } else {
                    segment_at(m, a)
                }
            &&& forall|k: u64| #[trigger]
                n.contains_key(k) <==> m.contains_key(k) && forall|i: int|
                    0 <= i < removes.len() ==> (#[trigger] removes[i]).start != k
            &&& forall|k: u64| n.contains_key(k) ==> #[trigger] n[k] == m[k]
        }),
    decreases removes.len(),
{
    if removes.len() > 0 {
        let s = removes.drop_last();
        let r = removes.last();
        let last = removes.len() - 1;
        assert forall|i: int| 0 <= i < s.len() implies #[trigger] s[i] == removes[i] by {}
        lemma_after_removes(m, s);
        let n = after_removes(m, s).0;
        assert(removes[last] == r);
        assert(n.contains_key(r.start)) by {
            assert forall|i: int| 0 <= i < s.len() implies (#[trigger] s[i]).start != r.start by {
                assert(removes[i].start != removes[last].start);
            }
        }
        lemma_remove_at(n, r.start);
        assert forall|a: int| gone(removes, a) <==> gone(s, a) || r.start <= a < r.end by {
            if gone(removes, a) {
                let i = choose|i: int|
                    0 <= i < removes.len() && (#[trigger] removes[i]).start <= a < removes[i].end;
                if i < last {
                    assert(s[i].start <= a < s[i].end);
                }
            }
            if gone(s, a) {
                let i = choose|i: int| 0 <= i < s.len() && (#[trigger] s[i]).start <= a < s[i].end;
                assert(removes[i].start <= a < removes[i].end);
            }
        }
        let t = n.remove(r.start);
        assert forall|k: u64| #[trigger] t.contains_key(k) <==> m.contains_key(k) && forall|i: int|
            0 <= i < removes.len() ==> (#[trigger] removes[i]).start != k by {
            if t.contains_key(k) {
                assert forall|i: int| 0 <= i < removes.len() implies (#[trigger] removes[i]).start
                    != k by {
                    if i < last {
                        assert(s[i].start != k);
                    }
                }
            }
            if m.contains_key(k) && forall|i: int|
                0 <= i < removes.len() ==> (#[trigger] removes[i]).start != k {
                assert(removes[last].start != k);
                assert forall|i: int| 0 <= i < s.len() implies (#[trigger] s[i]).start != k by {
                    assert(removes[i].start != k);
                }
            }
        }
    }
}

proof fn lemma_after_inserts<B>(m: Regions<B>, inserts: Seq<VmaInsert<B>>)
    requires
        disjoint(m),
        inserts_in_order(inserts),
        forall|a: int| (#[trigger] inserted_at(inserts, a)) is Some ==> segment_at(m, a) is None,
    ensures
        ({
            let (n, error) = after_inserts(m, inserts);
            &&& error is None
            &&& disjoint(n)
            &&& forall|a: int| #[trigger]
                segment_at(n, a) == if inserted_at(inserts, a) is Some {
                    inserted_at(inserts, a)
                } else {
                    segment_at(m, a)
                }
        }),
    decreases inserts.len(),
{
    if inserts.len() > 0 {
        let s = inserts.drop_last();
        let i = inserts.last();
        let last = inserts.len() - 1;
        assert(inserts[last] == i);
        assert forall|j: int| 0 <= j < s.len() implies #[trigger] s[j] == inserts[j] by {}
        assert forall|a: int| #[trigger] inserted_at(inserts, a) == if i.start <= a < i.end {
            Some(VmaSegment { start: i.start, end: i.end, vma: i.vma })
        } else {
            inserted_at(s, a)
        } by {
            lemma_inserted_last(inserts, a);
        }
        assert forall|a: int| (#[trigger] inserted_at(s, a)) is Some implies segment_at(
            m,
            a,
        ) is None by {
            let j = choose|j: int| insert_holds(s, j, a);
            assert(insert_holds(inserts, j, a));
            assert(inserted_at(inserts, a) is Some);
        }
        lemma_after_inserts(m, s);
        let n = after_inserts(m, s).0;
        assert forall|a: int| i.start <= a < i.end implies #[trigger] segment_at(n, a) is None by {
            assert(inserted_at(inserts, a) is Some);
            assert(segment_at(m, a) is None);
            assert(inserted_at(s, a) is None) by {
                if inserted_at(s, a) is Some {
                    let j = choose|j: int| insert_holds(s, j, a);
                    assert(insert_holds(s, j, a));
                    assert(inserts[j].end <= inserts[last].start);
                }
            }
        }
        lemma_unoccupied(n, i.start, i.end);
        lemma_insert_at(n, i.start, i.end, i.vma);
    }
}

/// The last insertion holds its own addresses; the others go by the rest.
pub proof fn lemma_inserted_last<B>(inserts: Seq<VmaInsert<B>>, a: int)
    requires
        inserts.len() > 0,
        inserts_in_order(inserts),
    ensures
        inserted_at(inserts, a) == if inserts.last().start <= a < inserts.last().end {
            Some(
                VmaSegment {
                    start: inserts.last().start,
                    end: inserts.last().end,
                    vma: inserts.last().vma,
                },
            )
        } else {
            inserted_at(inserts.drop_last(), a)
        },
{
    let s = inserts.drop_last();
    let last = inserts.len() - 1;
    if exists|i: int| insert_holds(inserts, i, a) {
        let j = choose|i: int| insert_holds(inserts, i, a);
        assert(insert_holds(inserts, j, a));
        if inserts[last].start <= a < inserts[last].end {
            if j < last {
                assert(inserts[j].end <= inserts[last].start);
            }
        } else {
            assert(insert_holds(s, j, a));
            let k = choose|i: int| insert_holds(s, i, a);
            assert(insert_holds(s, k, a));
            if j < k {
                assert(inserts[j].end <= inserts[k].start);
            }
            if k < j {
                assert(inserts[k].end <= inserts[j].start);
            }
        }
    } else {
        assert(!insert_holds(inserts, last, a));
        if exists|i: int| insert_holds(s, i, a) {
            let k = choose|i: int| insert_holds(s, i, a);
            assert(insert_holds(inserts, k, a));
        }
    }
}

/// A transaction that removes regions and fills only what it emptied succeeds,
/// and each address then sees what was inserted there, nothing where a region
/// was taken out, and what it saw before elsewhere.
pub proof fn law_transaction_applies<B>(
    m: Regions<B>,
    removes: Seq<VmaRemove>,
    inserts: Seq<VmaInsert<B>>,
)
    requires
        disjoint(m),
        removes_regions(m, removes),
        inserts_in_order(inserts),
        forall|a: int|
            (#[trigger] inserted_at(inserts, a)) is Some ==> gone(removes, a) || segment_at(
                m,
                a,
            ) is None,
    ensures
        ({
            let (n, error) = applied(m, removes, inserts);
            &&& error is None
            &&& disjoint(n)
            &&& forall|a: int| #[trigger]
                segment_at(n, a) == if inserted_at(inserts, a) is Some {
                    inserted_at(inserts, a)
                } else if gone(removes, a) {
                    None
                } else {
                    segment_at(m, a)
                }
        }),
{
    lemma_after_removes(m, removes);
    let n = after_removes(m, removes).0;
    assert forall|a: int| (#[trigger] inserted_at(inserts, a)) is Some implies segment_at(
        n,
        a,
    ) is None by {}
    lemma_after_inserts(n, inserts);
}

pub open spec fn one_insert<B>(s: VmaSegment<B>) -> Seq<VmaInsert<B>> {
    seq![VmaInsert { start: s.start, end: s.end, vma: s.vma }]
}

/// The regions that stand in the place of `s` once `[lo, hi)` of it holds
/// `middle`.
pub open spec fn cut_inserts<B>(
    s: VmaSegment<B>,
    lo: u64,
    hi: u64,
    middle: Option<Vma<B>>,
) -> Seq<VmaInsert<B>> {
    let left = if s.start < lo {
        one_insert(s.piece(s.start, lo))
    } else {
        Seq::empty()
    };
    let mid = match middle {
        Some(vma) => one_insert(VmaSegment { start: lo, end: hi, vma }),
        None => Seq::empty(),
    };
    let right = if hi < s.end {
        one_insert(s.piece(hi, s.end))
    } else {
        Seq::empty()
    };
    left + mid + right
}

pub proof fn lemma_inserts_concat<B>(x: Seq<VmaInsert<B>>, y: Seq<VmaInsert<B>>)
    requires
        inserts_in_order(x),
        inserts_in_order(y),
        forall|i: int, j: int|
            #![trigger x[i], y[j]]
            0 <= i < x.len() && 0 <= j < y.len() ==> x[i].end <= y[j].start,
    ensures
        inserts_in_order(x + y),
        forall|a: int| #[trigger]
            inserted_at(x + y, a) == if inserted_at(x, a) is Some {
                inserted_at(x, a)
            } else {
                inserted_at(y, a)
            },
    decreases y.len(),
{
    if y.len() == 0 {
        assert(x + y =~= x);
        assert forall|a: int| inserted_at(y, a) is None by {}
    } else {
        let z = x + y;
        let t = y.drop_last();
        assert forall|i: int| 0 <= i < t.len() implies #[trigger] t[i] == y[i] by {}
        lemma_inserts_concat(x, t);
        assert(z.drop_last() =~= x + t);
        assert(z.last() == y.last());
        assert(y[y.len() - 1] == y.last());
        assert(inserts_in_order(z)) by {
            assert forall|i: int, j: int|
                #![trigger z[i], z[j]]
                0 <= i < j < z.len() implies z[i].end <= z[j].start by {
                if i < x.len() {
                    assert(z[i] == x[i]);
                    if j >= x.len() {
                        assert(z[j] == y[j - x.len()]);
                    } else {
                        assert(z[j] == x[j]);
                    }
                } else {
                    assert(z[i] == y[i - x.len()] && z[j] == y[j - x.len()]);
                }
            }
            assert forall|i: int| 0 <= i < z.len() implies (#[trigger] z[i]).start < z[i].end by {
                if i >= x.len() {
                    assert(z[i] == y[i - x.len()]);
                } else {
                    assert(z[i] == x[i]);
                }
            }
        }
        assert forall|a: int| #[trigger] inserted_at(z, a) == if inserted_at(x, a) is Some {
            inserted_at(x, a)
        } else {
            inserted_at(y, a)
        } by {
            lemma_inserted_last(z, a);
            lemma_inserted_last(y, a);
            if inserted_at(x, a) is Some && y.last().start <= a < y.last().end {
                let i = choose|i: int| insert_holds(x, i, a);
                assert(insert_holds(x, i, a));
                assert(x[i].end <= y[y.len() - 1].start);
            }
            assert(inserted_at(x + t, a) == if inserted_at(x, a) is Some {
                inserted_at(x, a)
            } else {
                inserted_at(t, a)
            });
        }
    }
}

proof fn lemma_one_insert<B>(s: VmaSegment<B>)
    requires
        s.start < s.end,
    ensures
        inserts_in_order(one_insert(s)),
        forall|a: int| #[trigger]
            inserted_at(one_insert(s), a) == if s.start <= a < s.end {
                Some(s)
            } else {
                None
            },
{
    assert forall|a: int| #[trigger] inserted_at(one_insert(s), a) == if s.start <= a < s.end {
        Some(s)
    } else {
        None
    } by {
        if s.start <= a < s.end {
            assert(insert_holds(one_insert(s), 0, a));
        }
    }
}

/// The pieces of a cut region hold what `cut` says, address by address.
pub proof fn lemma_cut_inserts<B>(s: VmaSegment<B>, lo: u64, hi: u64, middle: Option<Vma<B>>)
    requires
        s.start <= lo < hi <= s.end,
    ensures
        ({
            let x = cut_inserts(s, lo, hi, middle);
            &&& inserts_in_order(x)
            &&& forall|a: int| #[trigger]
                inserted_at(x, a) == if s.start <= a < s.end {
                    s.cut(lo, hi, middle, a)
                } else {
                    None
                }
            &&& forall|i: int|
                0 <= i < x.len() ==> s.start <= (#[trigger] x[i]).start && x[i].end <= s.end
        }),
{
    let none = Seq::<VmaInsert<B>>::empty();
    assert forall|a: int| inserted_at(none, a) is None by {}
    let left = if s.start < lo {
        one_insert(s.piece(s.start, lo))
    } else {
        none
    };
    let mid = match middle {
        Some(vma) => one_insert(VmaSegment { start: lo, end: hi, vma }),
        None => none,
    };
    let right = if hi < s.end {
        one_insert(s.piece(hi, s.end))
    } else {
        none
    };
    if s.start < lo {
        lemma_one_insert(s.piece(s.start, lo));
    }
    if let Some(vma) = middle {
        lemma_one_insert(VmaSegment { start: lo, end: hi, vma });
    }
    if hi < s.end {
        lemma_one_insert(s.piece(hi, s.end));
    }
    lemma_inserts_concat(left, mid);
    lemma_inserts_concat(left + mid, right);
}

/// What stands in the middle of a region that is cut: nothing when it is
/// unmapped, the region with other permissions when it is protected.
pub open spec fn middle_of<B>(
    s: VmaSegment<B>,
    start: u64,
    permissions: Option<VmPermissions>,
) -> Option<Vma<B>> {
    match permissions {
        Some(p) => Some(protected_vma(s, start, p)),
        None => None,
    }
}

/// The pieces of all segments, cut at the ends of `[start, end)`.
pub open spec fn all_cuts<B>(
    segments: Seq<VmaSegment<B>>,
    start: u64,
    end: u64,
    permissions: Option<VmPermissions>,
) -> Seq<VmaInsert<B>>
    decreases segments.len(),
{
    if segments.len() == 0 {
        Seq::empty()
    } else {
        let s = segments.last();
        all_cuts(segments.drop_last(), start, end, permissions) + cut_inserts(
            s,
            max(s.start, start),
            min(s.end, end),
            middle_of(s, start, permissions),
        )
    }
}

pub open spec fn all_removes<B>(segments: Seq<VmaSegment<B>>) -> Seq<VmaRemove> {
    segments.map_values(|s: VmaSegment<B>| VmaRemove { start: s.start, end: s.end })
}

pub proof fn lemma_all_cuts<B>(
    segments: Seq<VmaSegment<B>>,
    start: u64,
    end: u64,
    permissions: Option<VmPermissions>,
)
    requires
        start < end,
        forall|i: int|
            0 <= i < segments.len() ==> (#[trigger] segments[i]).start < segments[i].end
                && segments[i].overlaps(start, end),
        forall|i: int, j: int|
            #![trigger segments[i], segments[j]]
            0 <= i < j < segments.len() ==> segments[i].end <= segments[j].start,
    ensures
        ({
            let x = all_cuts(segments, start, end, permissions);
            &&& inserts_in_order(x)
            &&& forall|i: int, a: int|
                #![trigger segments[i], inserted_at(x, a)]
                0 <= i < segments.len() && segments[i].start <= a < segments[i].end
                    ==> inserted_at(x, a) == segments[i].cut(
                    max(segments[i].start, start),
                    min(segments[i].end, end),
                    middle_of(segments[i], start, permissions),
                    a,
                )
            &&& forall|a: int|
                (#[trigger] inserted_at(x, a)) is Some ==> crate::memory::vma::within(segments, a)
            &&& forall|i: int|
                0 <= i < x.len() && segments.len() > 0 ==> (#[trigger] x[i]).end
                    <= segments.last().end
            &&& segments.len() == 0 ==> x.len() == 0
        }),
    decreases segments.len(),
{
    let x = all_cuts(segments, start, end, permissions);
    if segments.len() == 0 {
        assert forall|a: int| inserted_at(x, a) is None by {}
    } else {
        let t = segments.drop_last();
        let s = segments.last();
        let last = segments.len() - 1;
        assert(segments[last] == s);
        assert forall|i: int| 0 <= i < t.len() implies #[trigger] t[i] == segments[i] by {}
        lemma_all_cuts(t, start, end, permissions);
        let lo = max(s.start, start);
        let hi = min(s.end, end);
        let middle = middle_of(s, start, permissions);
        lemma_cut_inserts(s, lo, hi, middle);
        let u = all_cuts(t, start, end, permissions);
        let v = cut_inserts(s, lo, hi, middle);
        assert forall|i: int, j: int|
            #![trigger u[i], v[j]]
            0 <= i < u.len() && 0 <= j < v.len() implies u[i].end <= v[j].start by {
            assert(u[i].end <= t.last().end);
            assert(t.last() == segments[last - 1]);
            assert(segments[last - 1].end <= segments[last].start);
        }
        lemma_inserts_concat(u, v);
        assert forall|i: int, a: int|
            #![trigger segments[i], inserted_at(x, a)]
            0 <= i < segments.len() && segments[i].start <= a
                < segments[i].end implies inserted_at(x, a) == segments[i].cut(
            max(segments[i].start, start),
            min(segments[i].end, end),
            middle_of(segments[i], start, permissions),
            a,
        ) by {
            assert(inserted_at(u + v, a) == if inserted_at(u, a) is Some {
                inserted_at(u, a)
            } else {
                inserted_at(v, a)
            });
            if i < last {
                assert(t[i] == segments[i]);
                assert(inserted_at(u, a) == t[i].cut(
                    max(t[i].start, start),
                    min(t[i].end, end),
                    middle_of(t[i], start, permissions),
                    a,
                ));
                assert(segments[i].end <= segments[last].start);
                assert(inserted_at(v, a) is None);
            } else {
                if inserted_at(u, a) is Some {
                    assert(crate::memory::vma::within(t, a));
                    let j = choose|j: int|
                        0 <= j < t.len() && (#[trigger] t[j]).start <= a < t[j].end;
                    assert(segments[j].end <= segments[last].start);
                }
            }
        }
        assert forall|a: int|
            (#[trigger] inserted_at(x, a)) is Some implies crate::memory::vma::within(
            segments,
            a,
        ) by {
            assert(inserted_at(u + v, a) == if inserted_at(u, a) is Some {
                inserted_at(u, a)
            } else {
                inserted_at(v, a)
            });
            if inserted_at(u, a) is Some {
                let j = choose|j: int| 0 <= j < t.len() && (#[trigger] t[j]).start <= a < t[j].end;
                assert(segments[j].start <= a < segments[j].end);
            } else {
                assert(segments[last].start <= a < segments[last].end);
            }
        }
        assert forall|i: int| 0 <= i < x.len() implies (#[trigger] x[i]).end <= s.end by {
            if i < u.len() {
                assert(x[i] == u[i]);
                assert(u[i].end <= t.last().end);
                assert(t.last() == segments[last - 1]);
                assert(segments[last - 1].end <= segments[last].start);
            } else {
                assert(x[i] == v[i - u.len()]);
            }
        }
    }
}

} // verus!
