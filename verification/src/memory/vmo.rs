//! Memory objects: pages by offset, brought in on demand.

use crate::common::bytes::{put_bytes, zero_bytes};
use crate::hal::mmu::pager::{given_back, PhysMemory, Tables};
use crate::hal::mmu::FrameAllocator;
use crate::memory::file_pages::{frames_brought, lemma_own_frames, lemma_page_brought};
use crate::memory::frames::{filled_up, page_words, write_frame};
use crate::memory::pmm::{
    is_free, lemma_pin_bits, only_drawn, with_pin, Allocator, PageFrame, PF_PINNED,
};
use crate::memory::PCAllocator;
use std::collections::BTreeMap;
use vstd::prelude::*;

verus! {

/// An object of `size` bytes. `pages` gives the frame of each offset, or zero
/// where none has been brought in.
pub struct Vmo {
    pub size: u64,
    pub pages: BTreeMap<u64, u64>,
    pub dirty_pages: BTreeMap<u64, bool>,
    pub is_physical: bool,
}

pub open spec fn zero_page() -> Seq<u64> {
    Seq::new(512, |i: int| 0u64)
}

/// How many pages `size` bytes take.
pub open spec fn page_count(size: int) -> int {
    (size + 4095) / 4096
}

pub fn pages_for(size: u64) -> (r: u64)
    ensures
        r == page_count(size as int),
{
    let whole = size / 4096;
    if size % 4096 != 0 {
        whole + 1
    } else {
        whole
    }
}

/// Every page of `len` bytes from `offset` on has an offset.
pub open spec fn range_fits(offset: u64, len: u64) -> bool {
    len > 0 ==> offset + 4096 * (page_count(len as int) - 1) <= u64::MAX
}

/// `k` is the offset of one of the first `n` pages.
pub open spec fn page_offset(k: u64, n: int) -> bool {
    k as int % 4096 == 0 && (k as int) / 4096 < n
}

/// The frames that the pages have.
pub open spec fn frames_of(pages: Map<u64, u64>) -> Set<u64> {
    Set::new(|f: u64| f != 0 && has_frame(pages, f))
}

pub open spec fn has_frame(pages: Map<u64, u64>, f: u64) -> bool {
    exists|k: u64| #[trigger] pages.contains_key(k) && pages[k] == f
}

/// No frame stands for two pages.
pub open spec fn no_sharing(pages: Map<u64, u64>) -> bool {
    forall|j: u64, k: u64| #[trigger]
        pages.contains_key(j) && #[trigger] pages.contains_key(k) && pages[j] == pages[k]
            && pages[j] != 0 ==> j == k
}

/// The pages of `pages` below `size`.
pub open spec fn cut(pages: Map<u64, u64>, size: u64) -> Map<u64, u64> {
    Map::new(|k: u64| pages.contains_key(k) && k < size, |k: u64| pages[k])
}

/// `pages` with an empty page at every page offset below `size` that it
/// lacks.
pub open spec fn padded<V>(pages: Map<u64, V>, size: u64, empty: V) -> Map<u64, V> {
    padded_to(pages, page_count(size as int), empty)
}

/// The keys from `from` on.
fn keys_from(pages: &BTreeMap<u64, u64>, from: u64) -> (r: Vec<u64>)
    ensures
        r@.no_duplicates(),
        forall|k: u64| #[trigger] r@.contains(k) <==> pages@.contains_key(k) && k >= from,
{
    let mut out: Vec<u64> = Vec::new();
    let ghost mut seen: Seq<u64> = Seq::empty();
    assert(pages@.dom().len() == 0 ==> pages@.dom() =~= Set::empty());
    assert(seen.to_set() =~= Set::<u64>::empty());
    for k in it: pages.keys()
        invariant
            seen =~= it.seq().unref().take(it.index() as int),
            it.seq().unref().no_duplicates(),
            it.seq().unref().to_set() == pages@.dom(),
            it.index() == it.seq().len() ==> seen.to_set() =~= pages@.dom(),
            out@.no_duplicates(),
            forall|k: u64| #[trigger] out@.contains(k) <==> seen.contains(k) && k >= from,
    {
        let ghost before = out@;
        let ghost had = seen;
        let ghost all = it.seq().unref();
        let ghost at = it.index() as int;
        proof {
            assert(all[at] == *k);
            assert(!had.contains(*k)) by {
                if had.contains(*k) {
                    let j = choose|j: int| 0 <= j < had.len() && had[j] == *k;
                    assert(all[j] == all[at]);
                }
            }
        }
        if *k >= from {
            out.push(*k);
        }
        proof {
            seen = had.push(*k);
            if at + 1 == all.len() {
                assert(seen =~= all);
            }
            assert forall|x: u64| #[trigger] out@.contains(x) <==> seen.contains(x) && x >= from by {
                lemma_push_contains(before, *k, x);
                lemma_push_contains(had, *k, x);
            }
            assert(out@.no_duplicates()) by {
                assert(!before.contains(*k));
            }
        }
    }
    proof {
        assert forall|x: u64| #[trigger] out@.contains(x) <==> pages@.contains_key(x) && x
            >= from by {
            assert(seen.contains(x) <==> seen.to_set().contains(x));
        }
    }
    out
}

proof fn lemma_push_contains(s: Seq<u64>, a: u64, x: u64)
    ensures
        s.push(a).contains(x) <==> s.contains(x) || x == a,
{
    if s.contains(x) {
        let j = choose|j: int| 0 <= j < s.len() && s[j] == x;
        assert(s.push(a)[j] == x);
    }
    assert(s.push(a)[s.len() as int] == a);
}

/// The frame at an offset, where one has been brought in.
pub open spec fn present(pages: Map<u64, u64>, offset: u64) -> Option<u64> {
    if pages.contains_key(offset) && pages[offset] != 0 {
        Some(pages[offset])
    } else {
        None
    }
}

impl Vmo {
    /// The object's frames are its own: each stands for one page, lies in
    /// memory, and can be given back.
    pub open spec fn holds<A: FrameAllocator>(&self, alloc: A, memory: Tables) -> bool {
        &&& alloc.ready()
        &&& self.dirty_pages@.dom().subset_of(self.pages@.dom())
        &&& forall|f: u64| #[trigger]
            alloc.available().contains(f) ==> memory.contains_key(f) && f != 0
        &&& !self.is_physical ==> {
            &&& no_sharing(self.pages@)
            &&& forall|k: u64| #[trigger]
                self.pages@.contains_key(k) && self.pages@[k] != 0 ==> {
                    &&& alloc.accepts(self.pages@[k])
                    &&& !alloc.available().contains(self.pages@[k])
                    &&& memory.contains_key(self.pages@[k])
                }
        }
    }

    pub fn new(size: u64) -> (r: Self)
        ensures
            r.size == size,
            !r.is_physical,
            r.pages@ == padded(Map::empty(), size, 0u64),
            r.dirty_pages@ == padded(Map::empty(), size, false),
    {
        let mut r = Vmo {
            size,
            pages: BTreeMap::new(),
            dirty_pages: BTreeMap::new(),
            is_physical: false,
        };
        pad(&mut r.pages, &mut r.dirty_pages, size);
        r
    }

    /// An object that stands for the `size` bytes of physical memory at
    /// `phys_addr`.
    pub fn new_phys(phys_addr: u64, size: u64) -> (r: Self)
        requires
            phys_addr + size <= u64::MAX,
        ensures
            r.size == size,
            r.is_physical,
            r.pages@ == pages_at(phys_addr, size),
            r.dirty_pages@ == padded(Map::empty(), size, false),
    {
        let mut pages: BTreeMap<u64, u64> = BTreeMap::new();
        let mut dirty_pages: BTreeMap<u64, bool> = BTreeMap::new();
        let num_pages = pages_for(size);
        let mut i: u64 = 0;
        while i < num_pages
            invariant
                i <= num_pages,
                num_pages == page_count(size as int),
                phys_addr + size <= u64::MAX,
                pages@ =~= Map::new(
                    |k: u64| page_offset(k, i as int),
                    |k: u64| (phys_addr + k) as u64,
                ),
                dirty_pages@ =~= Map::new(|k: u64| page_offset(k, i as int), |k: u64| false),
            decreases num_pages - i,
        {
            let offset = i * 4096;
            pages.insert(offset, phys_addr + offset);
            dirty_pages.insert(offset, false);
            proof {
                assert forall|k: u64| page_offset(k, i + 1) <==> page_offset(k, i as int) || k
                    == offset by {}
            }
            i += 1;
        }
        assert(dirty_pages@ =~= padded(Map::empty(), size, false));
        Vmo { size, pages, dirty_pages, is_physical: true }
    }

    /// The frame of the page at `offset`. A page that has none gets a frame
    /// full of zeroes; where the allocator has none left the answer is zero.
    pub fn request_page<A: FrameAllocator>(
        &mut self,
        offset: u64,
        alloc: &mut A,
        memory: &mut PhysMemory,
    ) -> (r: Result<u64, ()>)
        requires
            old(self).holds(*old(alloc), old(memory)@),
        ensures
            final(self).holds(*final(alloc), final(memory)@),
            final(self).size == old(self).size,
            final(self).is_physical == old(self).is_physical,
            final(self).dirty_pages@ == old(self).dirty_pages@,
            match present(old(self).pages@, offset) {
                Some(frame) => {
                    &&& r == if offset < old(self).size {
                        Ok(frame)
                    } else {
                        Err(())
                    }
                    &&& *final(self) == *old(self)
                    &&& *final(alloc) == *old(alloc)
                    &&& final(memory)@ == old(memory)@
                },
                None => if offset >= old(self).size || old(self).is_physical {
                    &&& r is Err
                    &&& *final(self) == *old(self)
                    &&& *final(alloc) == *old(alloc)
                    &&& final(memory)@ == old(memory)@
                } else {
                    r matches Ok(frame) && {
                        &&& final(self).pages@ == old(self).pages@.insert(offset, frame)
                        &&& frame != 0 <==> old(alloc).capacity() > 0
                        &&& if frame != 0 {
                            &&& old(alloc).available().contains(frame)
                            &&& final(alloc).available() == old(alloc).available().remove(frame)
                            &&& final(alloc).capacity() + 1 == old(alloc).capacity()
                            &&& final(memory)@ == old(memory)@.insert(frame, zero_page())
                        } else {
                            &&& final(alloc).available() == old(alloc).available()
                            &&& final(alloc).capacity() == 0
                            &&& final(memory)@ == old(memory)@
                        }
                    }
                },
            },
            forall|f: u64| #[trigger] old(alloc).accepts(f) ==> final(alloc).accepts(f),
            final(alloc).available().subset_of(old(alloc).available()),
            old(alloc).drawn(final(alloc)),
            !old(self).is_physical ==> frames_brought(
                old(self).pages@,
                final(self).pages@,
                *old(alloc),
                *final(alloc),
            ),
    {
        proof {
            A::lemma_drawn(alloc, alloc, alloc);
            if !self.is_physical {
                lemma_own_frames(FileVmo { anonymous_vmo: *self }, *alloc, memory@);
            }
        }
        if offset >= self.size {
            return Err(());
        }
        if let Some(pfn) = self.pages.get(&offset) {
            if *pfn != 0 {
                return Ok(*pfn);
            }
        }
        if self.is_physical {
            return Err(());
        }
        let pfn = match alloc.allocate_frame() {
            Some(pfn) => pfn,
            None => 0,
        };
        if pfn != 0 {
            proof {
                memory.lemma_has();
            }
            memory.table_mut(pfn).zero();
            assert(memory@[pfn] =~= zero_page());
        }
        self.pages.insert(offset, pfn);
        proof {
            lemma_page_brought(old(self).pages@, offset, pfn, *old(alloc), *alloc);
        }
        Ok(pfn)
    }

    /// Cuts the object off or extends it. What is cut off is given back.
    pub fn resize_object<A: FrameAllocator>(
        &mut self,
        new_size: u64,
        alloc: &mut A,
        memory: &PhysMemory,
    ) -> (r: Result<(), ()>)
        requires
            old(self).holds(*old(alloc), memory@),
        ensures
            final(self).holds(*final(alloc), memory@),
            final(self).is_physical == old(self).is_physical,
            if old(self).is_physical {
                r is Err && *final(self) == *old(self) && *final(alloc) == *old(alloc)
            } else {
                &&& r is Ok
                &&& final(self).size == new_size
                &&& new_size < old(self).size ==> {
                    &&& final(self).pages@ == cut(old(self).pages@, new_size)
                    &&& final(self).dirty_pages@ == Map::new(
                        |k: u64| old(self).dirty_pages@.contains_key(k) && k < new_size,
                        |k: u64| old(self).dirty_pages@[k],
                    )
                    &&& given_back(
                        *old(alloc),
                        *final(alloc),
                        frames_from(old(self).pages@, new_size),
                    )
                }
                &&& new_size == old(self).size ==> *final(self) == *old(self)
                &&& new_size > old(self).size ==> {
                    &&& final(self).pages@ == padded(old(self).pages@, new_size, 0u64)
                    &&& final(self).dirty_pages@ == padded(old(self).dirty_pages@, new_size, false)
                }
                &&& new_size >= old(self).size ==> *final(alloc) == *old(alloc)
            },
            forall|f: u64| #[trigger]
                old(alloc).accepts(f) && !frames_from(old(self).pages@, new_size).contains(f)
                    ==> final(alloc).accepts(f),
    {
        if self.is_physical {
            return Err(());
        }
        let old_size = self.size;
        if new_size == old_size {
            return Ok(());
        }
        if new_size < old_size {
            self.shrink(new_size, alloc, memory);
        } else {
            pad(&mut self.pages, &mut self.dirty_pages, new_size);
        }
        self.size = new_size;
        Ok(())
    }

    fn shrink<A: FrameAllocator>(&mut self, new_size: u64, alloc: &mut A, memory: &PhysMemory)
        requires
            old(self).holds(*old(alloc), memory@),
            !old(self).is_physical,
        ensures
            final(self).holds(*final(alloc), memory@),
            !final(self).is_physical,
            final(self).size == old(self).size,
            final(self).pages@ == cut(old(self).pages@, new_size),
            final(self).dirty_pages@ == Map::new(
                |k: u64| old(self).dirty_pages@.contains_key(k) && k < new_size,
                |k: u64| old(self).dirty_pages@[k],
            ),
            final(alloc).available() == old(alloc).available().union(
                frames_from(old(self).pages@, new_size),
            ),
            frames_from(old(self).pages@, new_size).finite(),
            final(alloc).capacity() == old(alloc).capacity() + frames_from(
                old(self).pages@,
                new_size,
            ).len(),
            forall|f: u64| #[trigger]
                old(alloc).accepts(f) && !frames_from(old(self).pages@, new_size).contains(f)
                    ==> final(alloc).accepts(f),
    {
        let to_remove = keys_from(&self.pages, new_size);
        let ghost pages = self.pages@;
        let ghost dirty = self.dirty_pages@;
        let ghost offsets = to_remove@;
        let mut i: usize = 0;
        proof {
            assert(self.pages@ =~= without(pages, offsets.take(0)));
            assert(self.dirty_pages@ =~= without(dirty, offsets.take(0)));
            assert(alloc.available() =~= old(alloc).available().union(
                frames_at(pages, offsets.take(0)),
            ));
            assert(frames_at(pages, offsets.take(0)) =~= Set::empty());
        }
        while i < to_remove.len()
            invariant
                i <= offsets.len(),
                offsets == to_remove@,
                offsets.no_duplicates(),
                forall|k: u64| #[trigger] offsets.contains(k) ==> pages.contains_key(k),
                no_sharing(pages),
                self.holds(*alloc, memory@),
                !self.is_physical,
                self.size == old(self).size,
                self.pages@ == without(pages, offsets.take(i as int)),
                self.dirty_pages@ == without(dirty, offsets.take(i as int)),
                alloc.available() == old(alloc).available().union(
                    frames_at(pages, offsets.take(i as int)),
                ),
                frames_at(pages, offsets.take(i as int)).finite(),
                alloc.capacity() == old(alloc).capacity() + frames_at(
                    pages,
                    offsets.take(i as int),
                ).len(),
                forall|f: u64| #[trigger]
                    old(alloc).accepts(f) && !frames_at(pages, offsets).contains(f)
                        ==> alloc.accepts(f),
            decreases offsets.len() - i,
        {
            let offset = to_remove[i];
            let ghost gone = offsets.take(i as int);
            let ghost before = *self;
            proof {
                assert(offsets.contains(offset));
                assert(!gone.contains(offset)) by {
                    if gone.contains(offset) {
                        let j = choose|j: int| 0 <= j < gone.len() && gone[j] == offset;
                        assert(offsets[j] == offsets[i as int]);
                    }
                }
                assert(self.pages@.contains_key(offset));
                assert(offsets.take(i + 1) =~= gone.push(offset));
                assert forall|k: u64| gone.push(offset).contains(k) <==> gone.contains(k) || k
                    == offset by {
                    lemma_push_contains(gone, offset, k);
                }
            }
            let pfn = match self.pages.get(&offset) {
                Some(pfn) => *pfn,
                None => 0,
            };
            assert(pfn == pages[offset]);
            if pfn != 0 {
                assert(frames_at(pages, offsets).contains(pfn));
                alloc.deallocate_frame(pfn);
            }
            self.pages.remove(&offset);
            self.dirty_pages.remove(&offset);
            proof {
                assert(self.pages@ =~= without(pages, gone.push(offset)));
                assert(self.dirty_pages@ =~= without(dirty, gone.push(offset)));
                assert forall|f: u64|
                    frames_at(pages, gone.push(offset)).contains(f) <==> frames_at(
                        pages,
                        gone,
                    ).contains(f) || (f != 0 && f == pages[offset]) by {
                    if frames_at(pages, gone).contains(f) {
                        let k = choose|k: u64| #[trigger]
                            gone.contains(k) && pages.contains_key(k) && pages[k] == f;
                        assert(gone.push(offset).contains(k));
                    }
                    if frames_at(pages, gone.push(offset)).contains(f) {
                        let k = choose|k: u64| #[trigger]
                            gone.push(offset).contains(k) && pages.contains_key(k) && pages[k]
                                == f;
                        assert(gone.contains(k) || k == offset);
                    }
                    if f != 0 && f == pages[offset] {
                        assert(gone.push(offset).contains(offset));
                    }
                }
                assert(alloc.available() =~= old(alloc).available().union(
                    frames_at(pages, gone.push(offset)),
                ));
                assert(frames_at(pages, gone.push(offset)) =~= if pfn != 0 {
                    frames_at(pages, gone).insert(pfn)
                } else {
                    frames_at(pages, gone)
                });
                assert(pfn != 0 ==> !frames_at(pages, gone).contains(pfn)) by {
                    if frames_at(pages, gone).contains(pfn) {
                        let k = choose|k: u64| #[trigger]
                            gone.contains(k) && pages.contains_key(k) && pages[k] == pfn;
                        assert(k == offset);
                    }
                }
                assert forall|k: u64| #[trigger]
                    self.pages@.contains_key(k) && self.pages@[k] != 0 implies alloc.accepts(
                    self.pages@[k],
                ) && !alloc.available().contains(self.pages@[k]) && memory@.contains_key(
                    self.pages@[k],
                ) by {
                    assert(before.pages@.contains_key(k) && before.pages@[k] == self.pages@[k]);
                    assert(pages.contains_key(k) && pages.contains_key(offset));
                }
            }
            i += 1;
        }
        proof {
            assert(offsets.take(offsets.len() as int) =~= offsets);
            assert(self.pages@ =~= cut(pages, new_size));
            assert(self.dirty_pages@ =~= Map::new(
                |k: u64| dirty.contains_key(k) && k < new_size,
                |k: u64| dirty[k],
            )) by {
                assert(dirty.dom().subset_of(pages.dom()));
                assert forall|k: u64| dirty.contains_key(k) implies pages.contains_key(k) by {
                    assert(dirty.dom().contains(k));
                }
            }
            assert(frames_at(pages, offsets) =~= frames_from(pages, new_size)) by {
                assert forall|f: u64| frames_at(pages, offsets).contains(f) <==> frames_from(
                    pages,
                    new_size,
                ).contains(f) by {
                    if frames_at(pages, offsets).contains(f) {
                        let k = choose|k: u64| #[trigger]
                            offsets.contains(k) && pages.contains_key(k) && pages[k] == f;
                        assert(pages.contains_key(k) && k >= new_size);
                    }
                    if frames_from(pages, new_size).contains(f) {
                        let k = choose|k: u64| #[trigger]
                            pages.contains_key(k) && k >= new_size && pages[k] == f;
                        assert(offsets.contains(k));
                    }
                }
            }
        }
    }

    /// A copy of `len` bytes from `offset` on, on frames of its own. What the
    /// object does not hold is zero in the copy. When the allocator runs out
    /// there is no copy, and what was taken for it is given back.
    pub fn clone_range<A: FrameAllocator>(
        &self,
        offset: u64,
        len: u64,
        alloc: &mut A,
        memory: &mut PhysMemory,
    ) -> (r: Result<Vmo, ()>)
        requires
            self.holds(*old(alloc), old(memory)@),
        ensures
            self.holds(*final(alloc), final(memory)@),
            self.is_physical || !range_fits(offset, len) ==> *final(alloc) == *old(alloc) && final(memory)@ == old(memory)@,
            r is Ok <==> !self.is_physical && range_fits(offset, len) && page_count(len as int)
                <= old(alloc).capacity(),
            forall|f: u64| #[trigger]
                old(memory)@.contains_key(f) && !old(alloc).available().contains(f) ==> final(memory)@[f] == old(memory)@[f],
            match r {
                Err(_) => {
                    &&& final(alloc).available() == old(alloc).available()
                    &&& final(alloc).capacity() == old(alloc).capacity()
                },
                Ok(child) => {
                    &&& final(alloc).capacity() + page_count(len as int) == old(alloc).capacity()
                    &&& frames_of(child.pages@).finite()
                    &&& frames_of(child.pages@).len() == page_count(len as int)
                    &&& child.holds(*final(alloc), final(memory)@)
                    &&& child.size == len
                    &&& !child.is_physical
                    &&& child.dirty_pages@ == padded(Map::empty(), len, false)
                    &&& child.pages@.dom() == padded(Map::empty(), len, false).dom()
                    &&& forall|k: u64| #[trigger]
                        child.pages@.contains_key(k) ==> {
                            &&& old(alloc).available().contains(child.pages@[k])
                            &&& final(memory)@[child.pages@[k]] == self.content(
                                offset + k,
                                old(memory)@,
                            )
                        }
                    &&& final(alloc).available() == old(alloc).available().difference(
                        frames_of(child.pages@),
                    )
                },
            },
    {
        if self.is_physical {
            return Err(());
        }
        let current_size = self.size;
        let num_pages = pages_for(len);
        if num_pages > 0 && offset > u64::MAX - (num_pages - 1) * 4096 {
            return Err(());
        }
        let mut child = Vmo {
            size: len,
            pages: BTreeMap::new(),
            dirty_pages: BTreeMap::new(),
            is_physical: false,
        };
        let mut i: u64 = 0;
        proof {
            memory.lemma_has();
            assert(frames_of(child.pages@) =~= Set::empty());
            assert(alloc.available() =~= old(alloc).available().difference(
                frames_of(child.pages@),
            ));
        }
        while i < num_pages
            invariant
                i <= num_pages,
                num_pages == page_count(len as int),
                range_fits(offset, len),
                current_size == self.size,
                !self.is_physical,
                self.holds(*old(alloc), old(memory)@),
                self.holds(*alloc, memory@),
                child.holds(*alloc, memory@),
                child.size == len,
                !child.is_physical,
                memory@.dom() == old(memory)@.dom(),
                child.dirty_pages@ =~= Map::new(|k: u64| page_offset(k, i as int), |k: u64| false),
                child.pages@.dom() =~= child.dirty_pages@.dom(),
                alloc.available() == old(alloc).available().difference(frames_of(child.pages@)),
                frames_of(child.pages@).finite(),
                frames_of(child.pages@).len() == i,
                alloc.capacity() + i == old(alloc).capacity(),
                forall|f: u64| #[trigger]
                    old(memory)@.contains_key(f) && !old(alloc).available().contains(f)
                        ==> memory@[f] == old(memory)@[f],
                forall|k: u64| #[trigger]
                    child.pages@.contains_key(k) ==> {
                        &&& old(alloc).available().contains(child.pages@[k])
                        &&& memory@[child.pages@[k]] == self.content(offset + k, old(memory)@)
                    },
            decreases num_pages - i,
        {
            let page_offset = i * 4096;
            let parent_offset = offset + page_offset;
            let ghost before = child;
            let child_pfn = match alloc.allocate_frame() {
                Some(child_pfn) => child_pfn,
                None => {
                    child.shrink(0, alloc, memory);
                    proof {
                        assert(frames_from(before.pages@, 0) =~= frames_of(before.pages@)) by {
                            assert forall|f: u64| frames_from(before.pages@, 0).contains(f)
                                <==> frames_of(before.pages@).contains(f) by {
                                if has_frame(before.pages@, f) {
                                    let k = choose|k: u64| #[trigger]
                                        before.pages@.contains_key(k) && before.pages@[k] == f;
                                    assert(before.pages@.contains_key(k) && k >= 0);
                                }
                            }
                        }
                        assert(alloc.available() =~= old(alloc).available()) by {
                            assert forall|f: u64|
                                frames_of(before.pages@).contains(f) implies old(alloc).available().contains(f) by {
                                let k = choose|k: u64| #[trigger]
                                    before.pages@.contains_key(k) && before.pages@[k] == f;
                            }
                        }
                        assert forall|k: u64| #[trigger]
                            self.pages@.contains_key(k) && self.pages@[k]
                                != 0 implies alloc.accepts(self.pages@[k]) by {
                            if frames_from(before.pages@, 0).contains(self.pages@[k]) {
                                let j = choose|j: u64| #[trigger]
                                    before.pages@.contains_key(j) && before.pages@[j]
                                        == self.pages@[k];
                                assert(old(alloc).available().contains(self.pages@[k]));
                            }
                        }
                    }
                    return Err(());
                },
            };
            proof {
                memory.lemma_has();
            }
            memory.table_mut(child_pfn).zero();
            assert(memory@[child_pfn] =~= zero_page());
            if parent_offset < current_size {
                if let Some(parent_pfn) = self.pages.get(&parent_offset) {
                    if *parent_pfn != 0 {
                        proof {
                            memory.lemma_has();
                            assert(self.pages@.contains_key(parent_offset));
                            assert(memory@.contains_key(*parent_pfn));
                            assert(memory@.contains_key(child_pfn));
                        }
                        memory.copy_frame(*parent_pfn, child_pfn);
                    }
                }
            }
            child.pages.insert(page_offset, child_pfn);
            child.dirty_pages.insert(page_offset, false);
            proof {
                assert(memory@[child_pfn] == self.content(parent_offset as int, old(memory)@));
                assert forall|k: u64| self::page_offset(k, i + 1) <==> self::page_offset(
                    k,
                    i as int,
                ) || k == page_offset by {}
                assert(!before.pages@.contains_key(page_offset));
                assert forall|f: u64| frames_of(child.pages@).contains(f) <==> frames_of(
                    before.pages@,
                ).contains(f) || f == child_pfn by {
                    if frames_of(before.pages@).contains(f) {
                        let k = choose|k: u64| #[trigger]
                            before.pages@.contains_key(k) && before.pages@[k] == f;
                        assert(child.pages@.contains_key(k));
                    }
                    if frames_of(child.pages@).contains(f) {
                        let k = choose|k: u64| #[trigger]
                            child.pages@.contains_key(k) && child.pages@[k] == f;
                        assert(k == page_offset || before.pages@.contains_key(k));
                    }
                    if f == child_pfn {
                        assert(child.pages@.contains_key(page_offset));
                    }
                }
                assert(alloc.available() =~= old(alloc).available().difference(
                    frames_of(child.pages@),
                ));
                assert(frames_of(child.pages@) =~= frames_of(before.pages@).insert(child_pfn));
                assert(!frames_of(before.pages@).contains(child_pfn));
            }
            i += 1;
        }
        proof {
            assert(child.dirty_pages@ =~= padded(Map::empty(), len, false));
        }
        Ok(child)
    }

    /// What a copy holds for the page at `offset`.
    pub open spec fn content(&self, offset: int, memory: Tables) -> Seq<u64> {
        match present(self.pages@, offset as u64) {
            Some(frame) => if offset < self.size {
                memory[frame]
            } else {
                zero_page()
            },
            None => zero_page(),
        }
    }

    /// Gives all frames back, when the object is no longer needed.
    pub fn release<A: FrameAllocator>(&mut self, alloc: &mut A, memory: &PhysMemory)
        requires
            old(self).holds(*old(alloc), memory@),
        ensures
            old(self).is_physical ==> *final(self) == *old(self) && *final(alloc) == *old(alloc),
            !old(self).is_physical ==> {
                &&& final(self).pages@ == Map::<u64, u64>::empty()
                &&& final(alloc).available() == old(alloc).available().union(
                    frames_of(old(self).pages@),
                )
                &&& final(alloc).capacity() == old(alloc).capacity() + frames_of(
                    old(self).pages@,
                ).len()
            },
            final(alloc).ready(),
            forall|f: u64| #[trigger]
                old(alloc).accepts(f) && !frames_of(old(self).pages@).contains(f)
                    ==> final(alloc).accepts(f),
    {
        if self.is_physical {
            return;
        }
        self.shrink(0, alloc, memory);
        proof {
            let pages = old(self).pages@;
            assert(self.pages@ =~= Map::<u64, u64>::empty());
            assert forall|f: u64| frames_from(pages, 0).contains(f) <==> frames_of(pages).contains(
                f,
            ) by {
                if has_frame(pages, f) {
                    let k = choose|k: u64| #[trigger] pages.contains_key(k) && pages[k] == f;
                    assert(pages.contains_key(k) && k >= 0);
                }
            }
            assert(frames_from(pages, 0) =~= frames_of(pages));
        }
    }

    /// Brings in all pages of a range and keeps their frames from being
    /// reclaimed.
    pub fn pin(
        &mut self,
        offset: u64,
        len: u64,
        alloc: &mut PCAllocator,
        memory: &mut PhysMemory,
    ) -> (r: Result<PinnedVmo, ()>)
        requires
            old(self).holds(*old(alloc), old(memory)@),
        ensures
            final(self).holds(*final(alloc), final(memory)@),
            final(self).size == old(self).size,
            final(self).is_physical == old(self).is_physical,
            final(self).dirty_pages@ == old(self).dirty_pages@,
            r is Ok <==> {
                &&& offset + len <= old(self).size
                &&& old(self).is_physical ==> forall|i: int|
                    first_page(offset) <= i < page_count(offset + len) ==> present(
                        old(self).pages@,
                        #[trigger] offset_of(i),
                    ) is Some
            },
            offset + len > old(self).size ==> {
                &&& *final(self) == *old(self)
                &&& *final(alloc) == *old(alloc)
                &&& final(memory)@ == old(memory)@
            },
            old(self).is_physical ==> *final(self) == *old(self),
            forall|k: u64|
                present(old(self).pages@, k) is Some ==> #[trigger] present(final(self).pages@, k)
                    == present(old(self).pages@, k),
            forall|k: u64| #[trigger]
                final(self).pages@.contains_key(k) ==> old(self).pages@.contains_key(k)
                    || pinned_offset(k, offset, len),
            r matches Ok(pinned) ==> {
                &&& pinned@.len() == page_count(offset + len) - first_page(offset)
                &&& forall|i: int|
                    0 <= i < pinned@.len() ==> stands_at(
                        final(self).pages@,
                        first_page(offset) + i,
                        #[trigger] pinned@[i],
                    )
            },
            r matches Ok(pinned) ==> forall|i: int|
                0 <= i < pinned@.len() ==> is_pinned(
                    final(alloc).shared().table(),
                    #[trigger] pinned@[i],
                ),
            r matches Ok(pinned) ==> forall|i: int|
                0 <= i < pinned@.len() ==> (#[trigger] pinned@[i] != 0 <==> had_or_got(
                    old(self).pages@,
                    first_page(offset),
                    first_page(offset) + i,
                    old(alloc).capacity(),
                )),
            r matches Ok(pinned) ==> pinned_in(old(alloc).shared(), final(alloc).shared(), pinned@),
            r matches Ok(pinned) ==> (lacking(
                old(self).pages@,
                first_page(offset),
                page_count(offset + len),
            ) == 0 ==> pins_set(
                old(alloc).shared().table(),
                final(alloc).shared().table(),
                pinned@,
            )),
            r is Err ==> old(alloc).drawn(final(alloc)),
            r is Ok ==> final(alloc).capacity() == less(
                old(alloc).capacity(),
                lacking(old(self).pages@, first_page(offset), page_count(offset + len)),
            ),
            final(alloc).available().subset_of(old(alloc).available()),
            cleared_where_taken(
                old(memory)@,
                final(memory)@,
                old(alloc).available(),
                final(alloc).available(),
            ),
    {
        let current_size = self.size;
        proof {
            PCAllocator::lemma_drawn(alloc, alloc, alloc);
        }
        if offset > current_size || len > current_size - offset {
            return Err(());
        }
        proof {
            assert forall|f: u64| old(memory)@.contains_key(f) implies #[trigger] memory@[f]
                == old(memory)@[f] by {}
        }
        let start_page = offset / 4096;
        let end_page = pages_for(offset + len);
        let mut phys_addrs: Vec<u64> = Vec::new();
        let mut i: u64 = start_page;
        while i < end_page
            invariant
                start_page == first_page(offset),
                end_page == page_count(offset + len),
                start_page <= i <= end_page,
                offset + len <= self.size,
                self.holds(*alloc, memory@),
                self.size == old(self).size,
                self.is_physical == old(self).is_physical,
                self.dirty_pages@ == old(self).dirty_pages@,
                old(self).is_physical ==> *self == *old(self),
                forall|k: u64|
                    present(old(self).pages@, k) is Some ==> #[trigger] present(self.pages@, k)
                        == present(old(self).pages@, k),
                forall|k: u64| #[trigger]
                    self.pages@.contains_key(k) ==> old(self).pages@.contains_key(k)
                        || pinned_offset(k, offset, len),
                phys_addrs@.len() == i - start_page,
                old(alloc).drawn(alloc),
                alloc.available().subset_of(old(alloc).available()),
                cleared_where_taken(
                    old(memory)@,
                    memory@,
                    old(alloc).available(),
                    alloc.available(),
                ),
                forall|k: u64|
                    k >= 4096 * i ==> #[trigger] present(self.pages@, k) == present(
                        old(self).pages@,
                        k,
                    ),
                alloc.capacity() == less(
                    old(alloc).capacity(),
                    lacking(old(self).pages@, start_page as int, i as int),
                ),
                lacking(old(self).pages@, start_page as int, i as int) == 0 ==> *alloc == *old(
                    alloc,
                ),
                forall|j: int|
                    0 <= j < phys_addrs@.len() ==> (#[trigger] phys_addrs@[j] != 0 <==> had_or_got(
                        old(self).pages@,
                        start_page as int,
                        start_page + j,
                        old(alloc).capacity(),
                    )),
                forall|j: int|
                    0 <= j < phys_addrs@.len() ==> stands_at(
                        self.pages@,
                        start_page + j,
                        #[trigger] phys_addrs@[j],
                    ),
                old(self).is_physical ==> forall|j: int|
                    start_page <= j < i ==> present(
                        old(self).pages@,
                        #[trigger] offset_of(j),
                    ) is Some,
            decreases end_page - i,
        {
            let page_offset = i * 4096;
            let ghost before = *self;
            let ghost alloc_before = *alloc;
            let ghost held = memory@;
            let addr = match self.request_page(page_offset, alloc, memory) {
                Ok(addr) => addr,
                Err(_) => {
                    proof {
                        PCAllocator::lemma_drawn(old(alloc), &alloc_before, alloc);
                        assert(present(old(self).pages@, offset_of(i as int)) is None);
                    }
                    return Err(());
                },
            };
            let ghost addrs = phys_addrs@;
            phys_addrs.push(addr);
            proof {
                PCAllocator::lemma_drawn(old(alloc), &alloc_before, alloc);
                assert(offset_of(i as int) == page_offset);
                assert(present(before.pages@, page_offset) == present(
                    old(self).pages@,
                    page_offset,
                ));
                assert forall|k: u64| k >= 4096 * (i + 1) implies #[trigger] present(self.pages@, k)
                    == present(old(self).pages@, k) by {
                    assert(present(before.pages@, k) == present(old(self).pages@, k));
                }
                assert forall|j: int| 0 <= j < phys_addrs@.len() implies (#[trigger] phys_addrs@[j]
                    != 0 <==> had_or_got(
                    old(self).pages@,
                    start_page as int,
                    start_page + j,
                    old(alloc).capacity(),
                )) by {
                    if j < i - start_page {
                        assert(phys_addrs@[j] == addrs[j]);
                    }
                }
                assert(memory@.dom() =~= held.dom());
                assert forall|f: u64| old(memory)@.contains_key(f) implies #[trigger] memory@[f]
                    == if old(alloc).available().contains(f) && !alloc.available().contains(f) {
                    zero_page()
                } else {
                    old(memory)@[f]
                } by {
                    assert(held.contains_key(f));
                }
                assert forall|k: u64| present(old(self).pages@, k) is Some implies #[trigger] present(
                    self.pages@,
                    k,
                ) == present(old(self).pages@, k) by {
                    assert(present(before.pages@, k) == present(old(self).pages@, k));
                }
                assert forall|j: int| 0 <= j < phys_addrs@.len() implies stands_at(
                    self.pages@,
                    start_page + j,
                    #[trigger] phys_addrs@[j],
                ) by {
                    if j < i - start_page {
                        assert(stands_at(before.pages@, start_page + j, addrs[j]));
                        assert(offset_of(start_page + j) == (start_page + j) * 4096);
                    }
                }
            }
            i += 1;
        }
        let ghost brought = alloc.shared();
        let pinned = PinnedVmo::set(phys_addrs, alloc);
        proof {
            lemma_pinned_in(old(alloc).shared(), brought, alloc.shared(), pinned@);
        }
        Ok(pinned)
    }
}

/// How many of the pages from `from` up to `to` have no frame.
pub open spec fn lacking(pages: Map<u64, u64>, from: int, to: int) -> nat
    decreases to - from,
{
    if to <= from {
        0
    } else {
        lacking(pages, from, to - 1) + if present(pages, offset_of(to - 1)) is Some {
            0nat
        } else {
            1
        }
    }
}

/// A page that is brought in after those from `from` on has a frame: it had
/// one, or there was one left for it.
pub open spec fn had_or_got(pages: Map<u64, u64>, from: int, page: int, capacity: nat) -> bool {
    present(pages, offset_of(page)) is Some || lacking(pages, from, page) < capacity
}

pub open spec fn less(all: nat, n: nat) -> nat {
    if n <= all {
        (all - n) as nat
    } else {
        0
    }
}

/// The frames that have been taken are full of zeroes, and the others hold what
/// they held.
pub open spec fn cleared_where_taken(
    before: Tables,
    after: Tables,
    free: Set<u64>,
    free_after: Set<u64>,
) -> bool {
    &&& after.dom() == before.dom()
    &&& forall|f: u64|
        before.contains_key(f) ==> #[trigger] after[f] == if free.contains(f)
            && !free_after.contains(f) {
            zero_page()
        } else {
            before[f]
        }
}

/// The frames of the pages from `from` on.
pub open spec fn frames_from(pages: Map<u64, u64>, from: u64) -> Set<u64> {
    Set::new(
        |f: u64|
            f != 0 && exists|k: u64| #[trigger]
                pages.contains_key(k) && k >= from && pages[k] == f,
    )
}

spec fn frames_at(pages: Map<u64, u64>, offsets: Seq<u64>) -> Set<u64> {
    Set::new(
        |f: u64|
            f != 0 && exists|k: u64| #[trigger]
                offsets.contains(k) && pages.contains_key(k) && pages[k] == f,
    )
}

spec fn without<V>(pages: Map<u64, V>, offsets: Seq<u64>) -> Map<u64, V> {
    Map::new(|k: u64| pages.contains_key(k) && !offsets.contains(k), |k: u64| pages[k])
}

/// Gives every page offset below `size` an entry.
fn pad(pages: &mut BTreeMap<u64, u64>, dirty: &mut BTreeMap<u64, bool>, size: u64)
    ensures
        final(pages)@ == padded(old(pages)@, size, 0u64),
        final(dirty)@ == padded(old(dirty)@, size, false),
{
    let num_pages = pages_for(size);
    let mut i: u64 = 0;
    proof {
        assert(pages@ =~= padded_to(old(pages)@, 0, 0u64));
        assert(dirty@ =~= padded_to(old(dirty)@, 0, false));
    }
    while i < num_pages
        invariant
            i <= num_pages,
            num_pages == page_count(size as int),
            pages@ =~= padded_to(old(pages)@, i as int, 0u64),
            dirty@ =~= padded_to(old(dirty)@, i as int, false),
        decreases num_pages - i,
    {
        let offset = i * 4096;
        if !pages.contains_key(&offset) {
            pages.insert(offset, 0);
        }
        if !dirty.contains_key(&offset) {
            dirty.insert(offset, false);
        }
        proof {
            assert forall|k: u64| page_offset(k, i + 1) <==> page_offset(k, i as int) || k
                == offset by {}
        }
        i += 1;
    }
    proof {
        assert(pages@ =~= padded(old(pages)@, size, 0u64));
        assert(dirty@ =~= padded(old(dirty)@, size, false));
    }
}

/// `pages` with an empty page at each of the first `n` page offsets that it
/// lacks.
pub open spec fn padded_to<V>(pages: Map<u64, V>, n: int, empty: V) -> Map<u64, V> {
    Map::new(
        |k: u64| pages.contains_key(k) || page_offset(k, n),
        |k: u64|
            if pages.contains_key(k) {
                pages[k]
            } else {
                empty
            },
    )
}

pub open spec fn first_page(offset: u64) -> int {
    offset as int / 4096
}

/// Page `page` has the frame `addr`.
pub open spec fn stands_at(pages: Map<u64, u64>, page: int, addr: u64) -> bool {
    pages.contains_key(offset_of(page)) && pages[offset_of(page)] == addr
}

pub open spec fn offset_of(page: int) -> u64 {
    (page * 4096) as u64
}

/// `k` is the offset of one of the pages from `from` up to `to`.
pub open spec fn page_between(k: u64, from: int, to: int) -> bool {
    k as int % 4096 == 0 && from <= k as int / 4096 < to
}

pub open spec fn pinned_offset(k: u64, offset: u64, len: u64) -> bool {
    page_between(k, first_page(offset), page_count(offset + len))
}

/// The frame at an address is pinned, or lies outside the memory.
pub open spec fn is_pinned(table: Seq<PageFrame>, addr: u64) -> bool {
    let pfn = addr as int / 4096;
    pfn < table.len() ==> table[pfn].flags & PF_PINNED != 0
}

/// The table after the pinned marks of all frames are set or cleared.
pub open spec fn with_pins(table: Seq<PageFrame>, addrs: Seq<u64>, pinned: bool) -> Seq<PageFrame>
    decreases addrs.len(),
{
    if addrs.len() == 0 {
        table
    } else {
        with_pin(with_pins(table, addrs.drop_last(), pinned), addrs.last() as int / 4096, pinned)
    }
}

/// The pinned marks of these frames have been set, and no other.
pub open spec fn pins_set(table: Seq<PageFrame>, after: Seq<PageFrame>, addrs: Seq<u64>) -> bool {
    after == with_pins(table, addrs, true)
}

/// One of the addresses lies in frame `f`.
pub open spec fn names_frame(addrs: Seq<u64>, f: int) -> bool {
    exists|i: int| 0 <= i < addrs.len() && #[trigger] addrs[i] as int / 4096 == f
}

/// These frames have been pinned, and no other, after frames may have been
/// taken: the record of a frame that was in use has changed by its pinned mark
/// alone.
pub open spec fn pinned_in(before: Allocator, after: Allocator, addrs: Seq<u64>) -> bool {
    &&& after.table().len() == before.table().len()
    &&& forall|f: int|
        0 <= f < after.table().len() && (#[trigger] after.table()[f]).flags & PF_PINNED != 0
            ==> before.table()[f].flags & PF_PINNED != 0 || names_frame(addrs, f)
    &&& forall|f: int|
        0 <= f < after.table().len() && !is_free(before@, 4096 * f)
            ==> #[trigger] after.table()[f] == with_pins(before.table(), addrs, true)[f]
}

proof fn lemma_with_pins(table: Seq<PageFrame>, other: Seq<PageFrame>, addrs: Seq<u64>)
    requires
        other.len() == table.len(),
    ensures
        with_pins(table, addrs, true).len() == table.len(),
        forall|f: int|
            0 <= f < table.len() && !names_frame(addrs, f) ==> #[trigger] with_pins(
                table,
                addrs,
                true,
            )[f] == table[f],
        forall|f: int|
            0 <= f < table.len() && table[f] == other[f] ==> #[trigger] with_pins(
                table,
                addrs,
                true,
            )[f] == with_pins(other, addrs, true)[f],
    decreases addrs.len(),
{
    if addrs.len() > 0 {
        let rest = addrs.drop_last();
        lemma_with_pins(table, other, rest);
        lemma_with_pins(other, table, rest);
        assert forall|f: int| 0 <= f < table.len() && !names_frame(addrs, f) implies
            #[trigger] with_pins(table, addrs, true)[f] == table[f] by {
            assert(addrs[addrs.len() - 1] as int / 4096 != f);
            assert(!names_frame(rest, f)) by {
                if names_frame(rest, f) {
                    let i = choose|i: int|
                        0 <= i < rest.len() && #[trigger] rest[i] as int / 4096 == f;
                    assert(addrs[i] as int / 4096 == f);
                }
            }
            assert(with_pins(table, rest, true)[f] == table[f]);
        }
        assert forall|f: int| 0 <= f < table.len() && table[f] == other[f] implies
            #[trigger] with_pins(table, addrs, true)[f] == with_pins(other, addrs, true)[f] by {
            assert(with_pins(table, rest, true)[f] == with_pins(other, rest, true)[f]);
        }
    }
}

/// Pinning after frames have been taken.
pub(crate) proof fn lemma_pinned_in(
    before: Allocator,
    drawn: Allocator,
    after: Allocator,
    addrs: Seq<u64>,
)
    requires
        only_drawn(before, drawn),
        pins_set(drawn.table(), after.table(), addrs),
    ensures
        pinned_in(before, after, addrs),
{
    lemma_with_pins(drawn.table(), before.table(), addrs);
    lemma_with_pins(before.table(), drawn.table(), addrs);
    assert forall|f: int|
        0 <= f < after.table().len() && (#[trigger] after.table()[f]).flags & PF_PINNED
            != 0 implies before.table()[f].flags & PF_PINNED != 0 || names_frame(addrs, f) by {
        if !names_frame(addrs, f) {
            assert(with_pins(drawn.table(), addrs, true)[f] == drawn.table()[f]);
        }
    }
    assert forall|f: int|
        0 <= f < after.table().len() && !is_free(before@, 4096 * f) implies
        #[trigger] after.table()[f] == with_pins(before.table(), addrs, true)[f] by {
        assert(drawn.table()[f] == before.table()[f]);
        assert(with_pins(drawn.table(), addrs, true)[f] == with_pins(
            before.table(),
            addrs,
            true,
        )[f]);
    }
}

/// Frames that must stay where they are.
pub struct PinnedVmo {
    phys_addrs: Vec<u64>,
}

impl View for PinnedVmo {
    type V = Seq<u64>;

    closed spec fn view(&self) -> Seq<u64> {
        self.phys_addrs@
    }
}

impl PinnedVmo {
    pub fn phys_addrs(&self) -> (r: &Vec<u64>)
        ensures
            r@ == self@,
    {
        &self.phys_addrs
    }

    /// Marks frames as pinned.
    pub(crate) fn set(phys_addrs: Vec<u64>, alloc: &mut PCAllocator) -> (r: Self)
        requires
            old(alloc).wf(),
        ensures
            r@ == phys_addrs@,
            final(alloc).wf(),
            final(alloc).available() == old(alloc).available(),
            final(alloc).capacity() == old(alloc).capacity(),
            forall|f: u64| #[trigger] final(alloc).accepts(f) == old(alloc).accepts(f),
            pins_set(old(alloc).shared().table(), final(alloc).shared().table(), r@),
            forall|i: int|
                0 <= i < r@.len() ==> is_pinned(final(alloc).shared().table(), #[trigger] r@[i]),
    {
        let pinned = PinnedVmo { phys_addrs };
        pinned.mark(alloc, true);
        pinned
    }

    fn mark(&self, alloc: &mut PCAllocator, pinned: bool)
        requires
            old(alloc).wf(),
        ensures
            final(alloc).wf(),
            final(alloc).available() == old(alloc).available(),
            final(alloc).capacity() == old(alloc).capacity(),
            forall|f: u64| #[trigger] final(alloc).accepts(f) == old(alloc).accepts(f),
            final(alloc).shared().table() == with_pins(old(alloc).shared().table(), self@, pinned),
            pinned ==> forall|i: int|
                0 <= i < self@.len() ==> is_pinned(
                    final(alloc).shared().table(),
                    #[trigger] self@[i],
                ),
    {
        let mut i: usize = 0;
        assert(self@.take(0) =~= Seq::empty());
        while i < self.phys_addrs.len()
            invariant
                i <= self@.len(),
                alloc.wf(),
                alloc.available() == old(alloc).available(),
                alloc.capacity() == old(alloc).capacity(),
                forall|f: u64| #[trigger] alloc.accepts(f) == old(alloc).accepts(f),
                alloc.shared().table() == with_pins(
                    old(alloc).shared().table(),
                    self@.take(i as int),
                    pinned,
                ),
                pinned ==> forall|j: int|
                    0 <= j < i ==> is_pinned(alloc.shared().table(), #[trigger] self@[j]),
            decreases self@.len() - i,
        {
            let addr = self.phys_addrs[i];
            proof {
                let next = self@.take(i + 1);
                assert(next.drop_last() =~= self@.take(i as int));
                assert(next.last() == addr);
            }
            let ghost before = alloc.shared().table();
            alloc.set_pinned(addr / 4096, pinned);
            proof {
                lemma_pinned(before, addr as int / 4096);
            }
            i += 1;
        }
        assert(self@.take(self@.len() as int) =~= self@);
    }

    /// Clears the pinned marks, when the frames may move again.
    pub fn release(self, alloc: &mut PCAllocator)
        requires
            old(alloc).wf(),
        ensures
            final(alloc).wf(),
            final(alloc).available() == old(alloc).available(),
            final(alloc).capacity() == old(alloc).capacity(),
            final(alloc).shared().table() == with_pins(old(alloc).shared().table(), self@, false),
    {
        self.mark(alloc, false);
    }
}

proof fn lemma_pinned(table: Seq<PageFrame>, pfn: int)
    ensures
        forall|addr: u64|
            is_pinned(table, addr) ==> #[trigger] is_pinned(with_pin(table, pfn, true), addr),
        forall|addr: u64|
            addr as int / 4096 == pfn ==> #[trigger] is_pinned(with_pin(table, pfn, true), addr),
{
    lemma_pin_bits(table[pfn].flags);
}

/// A memory object that stands for a range of pages.
pub trait PagedBackingStore {
    /// The frames by offset.
    spec fn frames(&self) -> Map<u64, u64>;

    /// Which offsets can be marked dirty, and which are.
    spec fn marks(&self) -> Map<u64, bool>;

    /// Pages of it can be written to.
    spec fn writable(&self) -> bool;

    fn mark_dirty(&mut self, offset: u64) -> (r: Result<(), ()>)
        ensures
            final(self).frames() == old(self).frames(),
            final(self).writable() == old(self).writable(),
            if old(self).writable() && old(self).marks().contains_key(offset) {
                r is Ok && final(self).marks() == old(self).marks().insert(offset, true)
            } else {
                r is Err && final(self).marks() == old(self).marks()
            },
    ;

    fn is_dirty(&self, offset: u64) -> (r: bool)
        ensures
            r == (self.marks().contains_key(offset) && self.marks()[offset]),
    ;

    fn clear_dirty(&mut self, offset: u64)
        ensures
            final(self).frames() == old(self).frames(),
            final(self).writable() == old(self).writable(),
            final(self).marks() == if old(self).marks().contains_key(offset) {
                old(self).marks().insert(offset, false)
            } else {
                old(self).marks()
            },
    ;

    fn peek_page(&self, offset: u64) -> (r: Option<u64>)
        ensures
            r == present(self.frames(), offset),
    ;
}

impl PagedBackingStore for Vmo {
    open spec fn frames(&self) -> Map<u64, u64> {
        self.pages@
    }

    open spec fn marks(&self) -> Map<u64, bool> {
        self.dirty_pages@
    }

    open spec fn writable(&self) -> bool {
        !self.is_physical
    }

    fn mark_dirty(&mut self, offset: u64) -> (r: Result<(), ()>)
        ensures
            final(self).size == old(self).size,
            final(self).pages == old(self).pages,
    {
        assert(self.writable() == !self.is_physical && self.frames() == self.pages@ && self.marks()
            == self.dirty_pages@);
        if self.is_physical {
            return Err(());
        }
        if !self.dirty_pages.contains_key(&offset) {
            return Err(());
        }
        self.dirty_pages.insert(offset, true);
        assert(self.writable() == !self.is_physical && self.frames() == self.pages@ && self.marks()
            == self.dirty_pages@);
        Ok(())
    }

    fn is_dirty(&self, offset: u64) -> (r: bool) {
        match self.dirty_pages.get(&offset) {
            Some(dirty) => *dirty,
            None => false,
        }
    }

    fn clear_dirty(&mut self, offset: u64)
        ensures
            final(self).size == old(self).size,
            final(self).pages == old(self).pages,
    {
        if self.dirty_pages.contains_key(&offset) {
            self.dirty_pages.insert(offset, false);
        }
    }

    fn peek_page(&self, offset: u64) -> (r: Option<u64>) {
        match self.pages.get(&offset) {
            Some(pfn) => if *pfn != 0 {
                Some(*pfn)
            } else {
                None
            },
            None => None,
        }
    }
}

/// A dirty mark stays until it is cleared, and clearing it does not touch the
/// page.
pub proof fn law_dirty_until_cleared<B: PagedBackingStore>(
    before: B,
    marked: B,
    cleared: B,
    offset: u64,
)
    requires
        before.writable() && before.marks().contains_key(offset),
        marked.frames() == before.frames(),
        marked.marks() == before.marks().insert(offset, true),
        cleared.frames() == marked.frames(),
        cleared.marks() == marked.marks().insert(offset, false),
    ensures
        marked.marks()[offset],
        !cleared.marks()[offset],
        cleared.frames() == before.frames(),
        forall|k: u64|
            k != offset && before.marks().contains_key(k) ==> #[trigger] cleared.marks()[k]
                == before.marks()[k],
{
}

/// The pages of the physical memory from an address on.
pub open spec fn pages_at(phys_addr: u64, size: u64) -> Map<u64, u64> {
    Map::new(
        |k: u64| page_offset(k, page_count(size as int)),
        |k: u64| (phys_addr + k) as u64,
    )
}

/// An object that stands for physical memory has a frame for each page inside
/// it, the one at that distance from where the memory starts, and for nothing
/// else. It takes no dirty marks.
pub proof fn law_physical_object_has_its_frames(vmo: Vmo, phys_addr: u64, offset: u64)
    requires
        phys_addr != 0,
        phys_addr + vmo.size <= u64::MAX,
        vmo.is_physical,
        vmo.pages@ == pages_at(phys_addr, vmo.size),
    ensures
        vmo.pages@.contains_key(offset) <==> offset % 4096 == 0 && offset < vmo.size,
        vmo.pages@.contains_key(offset) ==> vmo.pages@[offset] == phys_addr + offset,
        present(vmo.pages@, offset) == if offset % 4096 == 0 && offset < vmo.size {
            Some((phys_addr + offset) as u64)
        } else {
            None
        },
        !vmo.writable(),
{
}

/// A memory object whose pages are those of a file.
pub struct FileVmo {
    pub anonymous_vmo: Vmo,
}

impl FileVmo {
    pub fn new(size: u64) -> (r: Self)
        ensures
            r.anonymous_vmo.size == size,
            !r.anonymous_vmo.is_physical,
            r.anonymous_vmo.pages@ == padded(Map::empty(), size, 0u64),
            r.anonymous_vmo.dirty_pages@ == padded(Map::empty(), size, false),
    {
        FileVmo { anonymous_vmo: Vmo::new(size) }
    }

    /// The frame of a page that has been brought in; nothing where the page
    /// still has to be read.
    pub fn cached(&self, offset: u64) -> (r: Result<Option<u64>, ()>)
        ensures
            r == if offset < self.anonymous_vmo.size {
                Ok(present(self.anonymous_vmo.pages@, offset))
            } else {
                Err::<Option<u64>, ()>(())
            },
    {
        if offset >= self.anonymous_vmo.size {
            return Err(());
        }
        Ok(self.anonymous_vmo.peek_page(offset))
    }

    /// Takes the bytes that were read for a page in. What the bytes do not
    /// cover is zero.
    pub fn install<A: FrameAllocator>(
        &mut self,
        offset: u64,
        bytes: &Vec<u8>,
        alloc: &mut A,
        memory: &mut PhysMemory,
    ) -> (r: Result<u64, ()>)
        requires
            old(self).anonymous_vmo.holds(*old(alloc), old(memory)@),
            !old(self).anonymous_vmo.is_physical,
            present(old(self).anonymous_vmo.pages@, offset) is None,
            bytes@.len() <= 4096,
        ensures
            final(self).anonymous_vmo.holds(*final(alloc), final(memory)@),
            final(self).anonymous_vmo.size == old(self).anonymous_vmo.size,
            !final(self).anonymous_vmo.is_physical,
            final(self).anonymous_vmo.dirty_pages@ == old(self).anonymous_vmo.dirty_pages@,
            r is Ok <==> old(alloc).capacity() > 0,
            old(alloc).drawn(final(alloc)),
            forall|f: u64| #[trigger] old(alloc).accepts(f) ==> final(alloc).accepts(f),
            match r {
                Ok(frame) => {
                    &&& frame != 0
                    &&& old(alloc).available().contains(frame)
                    &&& final(alloc).available() == old(alloc).available().remove(frame)
                    &&& final(alloc).capacity() + 1 == old(alloc).capacity()
                    &&& final(self).anonymous_vmo.pages@
                        == old(self).anonymous_vmo.pages@.insert(offset, frame)
                    &&& final(memory)@ == old(memory)@.insert(
                        frame,
                        page_words(filled_up(bytes@)),
                    )
                },
                Err(_) => {
                    &&& final(alloc).available() == old(alloc).available()
                    &&& final(alloc).capacity() == 0
                    &&& *final(self) == *old(self)
                    &&& final(memory)@ == old(memory)@
                },
            },
    {
        let frame = match alloc.allocate_frame() {
            Some(frame) => frame,
            None => {
                return Err(());
            },
        };
        let mut page = zero_bytes(4096);
        put_bytes(&mut page, 0, bytes);
        assert(page@ =~= filled_up(bytes@));
        proof {
            memory.lemma_has();
        }
        write_frame(memory, frame, &page);
        self.anonymous_vmo.pages.insert(offset, frame);
        Ok(frame)
    }
}

impl PagedBackingStore for FileVmo {
    open spec fn frames(&self) -> Map<u64, u64> {
        self.anonymous_vmo.pages@
    }

    open spec fn marks(&self) -> Map<u64, bool> {
        self.anonymous_vmo.dirty_pages@
    }

    open spec fn writable(&self) -> bool {
        !self.anonymous_vmo.is_physical
    }

    fn mark_dirty(&mut self, offset: u64) -> (r: Result<(), ()>)
        ensures
            final(self).anonymous_vmo.size == old(self).anonymous_vmo.size,
    {
        self.anonymous_vmo.mark_dirty(offset)
    }

    fn is_dirty(&self, offset: u64) -> (r: bool) {
        self.anonymous_vmo.is_dirty(offset)
    }

    fn clear_dirty(&mut self, offset: u64)
        ensures
            final(self).anonymous_vmo.size == old(self).anonymous_vmo.size,
    {
        self.anonymous_vmo.clear_dirty(offset)
    }

    fn peek_page(&self, offset: u64) -> (r: Option<u64>) {
        self.anonymous_vmo.peek_page(offset)
    }
}

} // verus!
