//! Memory objects whose pages are read from a file.

use crate::hal::mmu::pager::{given_back, PhysMemory, Tables};
use crate::hal::mmu::FrameAllocator;
use crate::memory::frames::{filled_up, law_page_reads_back, page_bytes, page_words};
use crate::memory::vmo::{
    cut, first_page, frames_from, frames_of, is_pinned, lacking, lemma_pinned_in, offset_of, padded,
    page_between, page_count, pages_for, pinned_in, pinned_offset, pins_set, present, range_fits,
    stands_at, FileVmo, PagedBackingStore, PinnedVmo, Vmo,
};
use crate::memory::PCAllocator;
use vstd::prelude::*;

verus! {

/// What a file is read through, a page at a time.
pub trait VfsNode {
    /// The node can be asked.
    spec fn ready(&self) -> bool;

    /// What can be read is read.
    spec fn reliable(&self) -> bool;

    /// The bytes of the page at an offset, as far as the file goes; nothing
    /// where they cannot be read.
    spec fn bytes_at(&self, offset: u64) -> Option<Seq<u8>>;

    fn read_page(&self, offset: u64) -> (r: Result<Vec<u8>, ()>)
        requires
            self.ready(),
        ensures
            r is Ok || self.reliable() ==> (match r {
                Ok(bytes) => Some(bytes@),
                Err(_) => None,
            }) == self.bytes_at(offset),
            r matches Ok(bytes) ==> bytes@.len() <= 4096,
    ;
}

/// The pages of an object after some of them may have been read in: those that
/// were in memory have kept their frames, and every page holds what it held.
pub open spec fn read_in<N: VfsNode>(
    before: FileVmo,
    after: FileVmo,
    node: N,
    memory: Tables,
    memory_after: Tables,
) -> bool {
    &&& after.anonymous_vmo.size == before.anonymous_vmo.size
    &&& after.marks() == before.marks()
    &&& forall|k: u64|
        present(before.frames(), k) is Some ==> #[trigger] present(after.frames(), k) == present(
            before.frames(),
            k,
        )
    &&& forall|k: u64| #[trigger]
        after.page(node, memory_after, k) == before.page(node, memory, k)
}

/// The frames of an object after pages may have been brought in: every page
/// that had a frame has it still, and the ones that have come were taken from
/// the allocator, which has lost no other.
pub open spec fn frames_brought<A: FrameAllocator>(
    before: Map<u64, u64>,
    after: Map<u64, u64>,
    alloc: A,
    alloc_after: A,
) -> bool {
    &&& forall|k: u64|
        present(before, k) is Some ==> #[trigger] present(after, k) == present(before, k)
    &&& frames_of(after).subset_of(frames_of(before).union(alloc.available()))
    &&& alloc_after.available() == alloc.available().difference(frames_of(after))
}

/// Only these frames hold something else.
pub open spec fn others_same(memory: Tables, memory_after: Tables, except: Set<u64>) -> bool {
    &&& memory_after.dom() == memory.dom()
    &&& forall|f: u64|
        memory.contains_key(f) && !except.contains(f) ==> #[trigger] memory_after[f] == memory[f]
}

pub proof fn lemma_frames_kept(before: Map<u64, u64>, after: Map<u64, u64>)
    requires
        forall|k: u64|
            present(before, k) is Some ==> #[trigger] present(after, k) == present(before, k),
    ensures
        frames_of(before).subset_of(frames_of(after)),
{
    assert forall|f: u64| frames_of(before).contains(f) implies frames_of(after).contains(f) by {
        let k = choose|k: u64| #[trigger] before.contains_key(k) && before[k] == f;
        assert(present(before, k) is Some);
        assert(present(after, k) == present(before, k));
        assert(after.contains_key(k) && after[k] == f);
    }
}

pub proof fn lemma_frames_brought<A: FrameAllocator>(
    a: Map<u64, u64>,
    b: Map<u64, u64>,
    c: Map<u64, u64>,
    at_a: A,
    at_b: A,
    at_c: A,
)
    requires
        frames_brought(a, b, at_a, at_b),
        frames_brought(b, c, at_b, at_c),
    ensures
        frames_brought(a, c, at_a, at_c),
        at_b.available().subset_of(at_a.available()),
{
    assert forall|k: u64| present(a, k) is Some implies #[trigger] present(c, k) == present(
        a,
        k,
    ) by {
        assert(present(b, k) == present(a, k));
    }
    lemma_frames_kept(b, c);
    assert(at_c.available() =~= at_a.available().difference(frames_of(c)));
}

/// The offset of a page that is `i` pages away.
pub open spec fn step(offset: u64, i: int) -> u64 {
    (offset + 4096 * i) as u64
}

/// `k` is the offset of one of the `n` pages from `offset` on.
pub open spec fn is_step(k: u64, offset: u64, n: int) -> bool {
    k >= offset && (k - offset) % 4096 == 0 && (k - offset) / 4096 < n
}

/// How many of the `n` pages from `offset` on have got a frame.
pub open spec fn fetched(
    before: Map<u64, u64>,
    after: Map<u64, u64>,
    offset: u64,
    n: int,
) -> nat
    decreases n,
{
    if n <= 0 {
        0
    } else {
        fetched(before, after, offset, n - 1) + if present(before, step(offset, n - 1)) is None
            && present(after, step(offset, n - 1)) is Some {
            1nat
        } else {
            0
        }
    }
}

/// Page `i` of those from `offset` on is in memory in the end: it was before,
/// or it could be read and there was a frame left.
pub open spec fn was_fetched<N: VfsNode>(
    before: Map<u64, u64>,
    after: Map<u64, u64>,
    node: N,
    offset: u64,
    i: int,
    capacity: nat,
) -> bool {
    present(before, step(offset, i)) is Some || (node.bytes_at(step(offset, i)) is Some && fetched(
        before,
        after,
        offset,
        i,
    ) < capacity)
}

/// A page can be brought in after those from `from` on: it begins inside the
/// object, and it is in memory, or can be read and given a frame.
pub open spec fn can_be_had<N: VfsNode>(
    vmo: FileVmo,
    node: N,
    from: int,
    page: int,
    capacity: nat,
) -> bool {
    let frames = vmo.frames();
    &&& offset_of(page) < vmo.anonymous_vmo.size
    &&& present(frames, offset_of(page)) is Some || (node.bytes_at(offset_of(page)) is Some && lacking(
        frames,
        from,
        page,
    ) < capacity)
}

proof fn lemma_fetched_same(
    before: Map<u64, u64>,
    a: Map<u64, u64>,
    b: Map<u64, u64>,
    offset: u64,
    n: int,
)
    requires
        forall|j: int|
            0 <= j < n ==> present(a, #[trigger] step(offset, j)) is Some == present(
                b,
                step(offset, j),
            ) is Some,
    ensures
        fetched(before, a, offset, n) == fetched(before, b, offset, n),
    decreases n,
{
    if n > 0 {
        lemma_fetched_same(before, a, b, offset, n - 1);
        assert(present(a, step(offset, n - 1)) is Some == present(b, step(offset, n - 1)) is Some);
    }
}

/// A page without a frame is asked for and gets one, or none.
pub(crate) proof fn lemma_page_brought<A: FrameAllocator>(
    pages: Map<u64, u64>,
    k: u64,
    f: u64,
    alloc: A,
    alloc_after: A,
)
    requires
        present(pages, k) is None,
        alloc.available() == alloc.available().difference(frames_of(pages)),
        f != 0 ==> alloc.available().contains(f) && alloc_after.available()
            == alloc.available().remove(f),
        f == 0 ==> alloc_after.available() == alloc.available(),
    ensures
        frames_brought(pages, pages.insert(k, f), alloc, alloc_after),
{
    let after = pages.insert(k, f);
    assert forall|j: u64| present(pages, j) is Some implies #[trigger] present(after, j) == present(
        pages,
        j,
    ) by {
        assert(j != k);
    }
    if f != 0 {
        lemma_frames_insert(pages, k, f);
    } else {
        lemma_frames_kept(pages, after);
        assert forall|j: u64| present(after, j) is Some implies #[trigger] present(pages, j)
            == present(after, j) by {
            assert(j != k);
        }
        lemma_frames_kept(after, pages);
        assert(frames_of(after) =~= frames_of(pages));
    }
    assert(alloc_after.available() =~= alloc.available().difference(frames_of(after)));
}

proof fn lemma_frames_insert(pages: Map<u64, u64>, k: u64, f: u64)
    requires
        present(pages, k) is None,
        f != 0,
    ensures
        frames_of(pages.insert(k, f)) == frames_of(pages).insert(f),
{
    let after = pages.insert(k, f);
    assert forall|g: u64| frames_of(after).contains(g) <==> frames_of(pages).insert(f).contains(
        g,
    ) by {
        if frames_of(after).contains(g) && g != f {
            let j = choose|j: u64| #[trigger] after.contains_key(j) && after[j] == g;
            assert(pages.contains_key(j) && pages[j] == g);
        }
        if frames_of(pages).contains(g) {
            let j = choose|j: u64| #[trigger] pages.contains_key(j) && pages[j] == g;
            assert(j != k);
            assert(after.contains_key(j) && after[j] == g);
        }
        assert(after.contains_key(k) && after[k] == f);
    }
    assert(frames_of(after) =~= frames_of(pages).insert(f));
}

/// No frame of an object is to be had from the allocator.
pub(crate) proof fn lemma_own_frames<A: FrameAllocator>(vmo: FileVmo, alloc: A, memory: Tables)
    requires
        vmo.holds(alloc, memory),
    ensures
        alloc.available() == alloc.available().difference(frames_of(vmo.frames())),
        frames_of(vmo.frames()).disjoint(alloc.available()),
{
    assert forall|f: u64| frames_of(vmo.frames()).contains(f) implies !alloc.available().contains(
        f,
    ) by {
        let k = choose|k: u64| #[trigger] vmo.frames().contains_key(k) && vmo.frames()[k] == f;
        assert(vmo.anonymous_vmo.pages@.contains_key(k));
    }
    assert(alloc.available() =~= alloc.available().difference(frames_of(vmo.frames())));
}

impl FileVmo {
    pub open spec fn holds<A: FrameAllocator>(&self, alloc: A, memory: Tables) -> bool {
        self.anonymous_vmo.holds(alloc, memory) && !self.anonymous_vmo.is_physical
    }

    /// The page at an offset: as it is in memory, or else as it is in the file.
    pub open spec fn page<N: VfsNode>(&self, node: N, memory: Tables, offset: u64) -> Option<
        Seq<u8>,
    > {
        match present(self.frames(), offset) {
            Some(frame) => Some(page_bytes(memory[frame])),
            None => match node.bytes_at(offset) {
                Some(bytes) => Some(filled_up(bytes)),
                None => None,
            },
        }
    }

    /// The frame of a page, which is read if it is not in memory. It fails
    /// past the end of the object, when the page cannot be read, and when
    /// there is no frame left for it.
    pub fn request_page<N: VfsNode, A: FrameAllocator>(
        &mut self,
        node: &N,
        offset: u64,
        alloc: &mut A,
        memory: &mut PhysMemory,
    ) -> (r: Result<u64, ()>)
        requires
            node.ready(),
            old(self).holds(*old(alloc), old(memory)@),
        ensures
            final(self).holds(*final(alloc), final(memory)@),
            read_in(*old(self), *final(self), *node, old(memory)@, final(memory)@),
            old(alloc).drawn(final(alloc)),
            forall|f: u64| #[trigger] old(alloc).accepts(f) ==> final(alloc).accepts(f),
            frames_brought(old(self).frames(), final(self).frames(), *old(alloc), *final(alloc)),
            others_same(old(memory)@, final(memory)@, old(alloc).available()),
            match r {
                Ok(frame) => {
                    &&& offset < old(self).anonymous_vmo.size
                    &&& present(final(self).frames(), offset) == Some(frame)
                    &&& old(self).page(*node, old(memory)@, offset) == Some(
                        page_bytes(final(memory)@[frame]),
                    )
                    &&& present(old(self).frames(), offset) is None ==> {
                        &&& final(self).frames() == old(self).frames().insert(offset, frame)
                        &&& old(alloc).available().contains(frame)
                        &&& final(alloc).available() == old(alloc).available().remove(frame)
                        &&& final(alloc).capacity() + 1 == old(alloc).capacity()
                        &&& node.bytes_at(offset) is Some
                        &&& final(memory)@ == old(memory)@.insert(
                            frame,
                            page_words(filled_up(node.bytes_at(offset)->0)),
                        )
                    }
                },
                Err(_) => {
                    &&& *final(self) == *old(self)
                    &&& final(memory)@ == old(memory)@
                    &&& final(alloc).available() == old(alloc).available()
                    &&& final(alloc).capacity() == old(alloc).capacity()
                },
            },
            r is Ok ==> offset < old(self).anonymous_vmo.size && (present(
                old(self).frames(),
                offset,
            ) is Some || (node.bytes_at(offset) is Some && old(alloc).capacity() > 0)),
            node.reliable() && offset < old(self).anonymous_vmo.size && node.bytes_at(
                offset,
            ) is Some && old(alloc).capacity() > 0 ==> r is Ok,
            offset < old(self).anonymous_vmo.size && present(old(self).frames(), offset) is Some
                ==> {
                &&& r is Ok
                &&& *final(self) == *old(self)
                &&& *final(alloc) == *old(alloc)
                &&& final(memory)@ == old(memory)@
            },
    {
        proof {
            A::lemma_drawn(alloc, alloc, alloc);
            lemma_own_frames(*self, *alloc, memory@);
        }
        match self.cached(offset) {
            Err(_) => {
                return Err(());
            },
            Ok(Some(frame)) => {
                return Ok(frame);
            },
            Ok(None) => {},
        }
        let bytes = match node.read_page(offset) {
            Ok(bytes) => bytes,
            Err(_) => {
                return Err(());
            },
        };
        let ghost before = *self;
        let ghost was = memory@;
        let r = self.install(offset, &bytes, alloc, memory);
        proof {
            if let Ok(frame) = r {
                law_page_reads_back(filled_up(bytes@));
                lemma_frames_insert(before.frames(), offset, frame);
                assert(alloc.available() =~= old(alloc).available().difference(
                    frames_of(self.frames()),
                ));
                assert(memory@.dom() =~= was.dom());
                assert forall|k: u64| #[trigger] self.page(*node, memory@, k) == before.page(
                    *node,
                    was,
                    k,
                ) by {
                    if k != offset {
                        assert(present(self.frames(), k) == present(before.frames(), k));
                    }
                }
            }
        }
        r
    }

    /// A copy of `len` bytes from `offset` on, on frames of its own. The pages
    /// of the file that it takes are read in first, as far as they can be; what
    /// is not in memory then is zero in the copy.
    #[verifier::spinoff_prover]
    #[verifier::rlimit(40)]
    pub fn clone_range<N: VfsNode, A: FrameAllocator>(
        &mut self,
        node: &N,
        offset: u64,
        len: u64,
        alloc: &mut A,
        memory: &mut PhysMemory,
    ) -> (r: Result<Vmo, ()>)
        requires
            node.ready(),
            old(self).holds(*old(alloc), old(memory)@),
        ensures
            final(self).holds(*final(alloc), final(memory)@),
            read_in(*old(self), *final(self), *node, old(memory)@, final(memory)@),
            forall|k: u64| #[trigger]
                final(self).frames().contains_key(k) ==> old(self).frames().contains_key(k)
                    || is_step(k, offset, page_count(len as int)),
            ({
                let left = old(alloc).available().difference(frames_of(final(self).frames()));
                match r {
                    Ok(child) => {
                        &&& frames_of(child.pages@).subset_of(left)
                        &&& final(alloc).available() == left.difference(frames_of(child.pages@))
                    },
                    Err(_) => final(alloc).available() == left,
                }
            }),
            !range_fits(offset, len) ==> {
                &&& r is Err
                &&& *final(self) == *old(self)
                &&& *final(alloc) == *old(alloc)
                &&& final(memory)@ == old(memory)@
            },
            range_fits(offset, len) ==> {
                let n = page_count(len as int);
                let taken = fetched(old(self).frames(), final(self).frames(), offset, n);
                &&& r is Ok <==> taken + n <= old(alloc).capacity()
                &&& r is Ok ==> final(alloc).capacity() + taken + n == old(alloc).capacity()
                &&& r is Err ==> final(alloc).capacity() + taken == old(alloc).capacity()
                &&& node.reliable() ==> forall|i: int|
                    0 <= i < n && step(offset, i) < old(self).anonymous_vmo.size ==> (present(
                        final(self).frames(),
                        #[trigger] step(offset, i),
                    ) is Some <==> was_fetched(
                        old(self).frames(),
                        final(self).frames(),
                        *node,
                        offset,
                        i,
                        old(alloc).capacity(),
                    ))
            },
            forall|f: u64|
                old(memory)@.contains_key(f) && !old(alloc).available().contains(f)
                    ==> #[trigger] final(memory)@[f] == old(memory)@[f],
            r matches Ok(child) ==> {
                &&& child.holds(*final(alloc), final(memory)@)
                &&& child.size == len
                &&& !child.is_physical
                &&& child.dirty_pages@ == padded(Map::empty(), len, false)
                &&& child.pages@.dom() == padded(Map::empty(), len, false).dom()
                &&& frames_of(child.pages@).finite()
                &&& frames_of(child.pages@).len() == page_count(len as int)
            },
            r matches Ok(child) ==> forall|k: u64| #[trigger]
                child.pages@.contains_key(k) ==> final(memory)@[child.pages@[k]] == final(self).anonymous_vmo.content(offset + k, final(memory)@),
    {
        let n = pages_for(len);
        proof {
            lemma_own_frames(*self, *alloc, memory@);
        }
        if n > 0 && offset > u64::MAX - (n - 1) * 4096 {
            return Err(());
        }
        let size = self.anonymous_vmo.size;
        let mut i: u64 = 0;
        while i < n
            invariant
                node.ready(),
                n == page_count(len as int),
                n > 0 ==> offset + 4096 * (n - 1) <= u64::MAX,
                i <= n,
                size == old(self).anonymous_vmo.size,
                self.holds(*alloc, memory@),
                read_in(*old(self), *self, *node, old(memory)@, memory@),
                forall|k: u64| #[trigger]
                    self.frames().contains_key(k) ==> old(self).frames().contains_key(k)
                        || is_step(k, offset, i as int),
                alloc.available() == old(alloc).available().difference(frames_of(self.frames())),
                others_same(old(memory)@, memory@, old(alloc).available()),
                alloc.capacity() + fetched(old(self).frames(), self.frames(), offset, i as int)
                    == old(alloc).capacity(),
                forall|k: u64|
                    present(self.frames(), k) is Some && present(old(self).frames(), k) is None
                        ==> #[trigger] is_step(k, offset, i as int),
                node.reliable() ==> forall|j: int|
                    0 <= j < i && step(offset, j) < size ==> (present(
                        self.frames(),
                        #[trigger] step(offset, j),
                    ) is Some <==> was_fetched(
                        old(self).frames(),
                        self.frames(),
                        *node,
                        offset,
                        j,
                        old(alloc).capacity(),
                    )),
            decreases n - i,
        {
            let at = offset + i * 4096;
            let ghost before = *self;
            let ghost was = memory@;
            let ghost left = alloc.capacity();
            if at < size {
                let _ = self.request_page(node, at, alloc, memory);
            }
            proof {
                let first = old(self).frames();
                let cur = self.frames();
                let prev = before.frames();
                assert(at == step(offset, i as int));
                if present(prev, at) is None && present(cur, at) is Some {
                    lemma_frames_insert(prev, at, present(cur, at)->0);
                }
                assert(alloc.available() =~= old(alloc).available().difference(frames_of(cur)));
                assert forall|k: u64| k != at implies #[trigger] present(cur, k) == present(
                    prev,
                    k,
                ) by {}
                assert(!is_step(at, offset, i as int));
                assert(present(prev, at) is Some ==> present(first, at) is Some);
                assert forall|j: int| 0 <= j <= i implies #[trigger] fetched(first, cur, offset, j)
                    == fetched(first, prev, offset, j) by {
                    assert forall|m: int| 0 <= m < j implies present(
                        cur,
                        #[trigger] step(offset, m),
                    ) is Some == present(prev, step(offset, m)) is Some by {
                        assert(step(offset, m) != at);
                    }
                    lemma_fetched_same(first, cur, prev, offset, j);
                }
                assert(fetched(first, cur, offset, i + 1) == fetched(first, cur, offset, i as int)
                    + if present(first, at) is None && present(cur, at) is Some {
                    1nat
                } else {
                    0
                });
                assert forall|k: u64|
                    present(old(self).frames(), k) is Some implies #[trigger] present(cur, k)
                    == present(first, k) by {
                    assert(present(prev, k) == present(first, k));
                }
                assert forall|k: u64| #[trigger] self.page(*node, memory@, k) == old(self).page(
                    *node,
                    old(memory)@,
                    k,
                ) by {
                    assert(before.page(*node, was, k) == old(self).page(*node, old(memory)@, k));
                }
                assert forall|k: u64| #[trigger] cur.contains_key(k) implies first.contains_key(k)
                    || is_step(k, offset, i + 1) by {
                    if k != at {
                        assert(prev.contains_key(k));
                    }
                }
                assert forall|k: u64|
                    present(cur, k) is Some && present(first, k) is None implies #[trigger] is_step(
                    k,
                    offset,
                    i + 1,
                ) by {
                    if k != at {
                        assert(present(prev, k) is Some);
                        assert(is_step(k, offset, i as int));
                    }
                }
                if node.reliable() {
                    assert forall|j: int| 0 <= j < i + 1 && step(offset, j) < size implies (present(
                        cur,
                        #[trigger] step(offset, j),
                    ) is Some <==> was_fetched(
                        first,
                        cur,
                        *node,
                        offset,
                        j,
                        old(alloc).capacity(),
                    )) by {
                        assert(fetched(first, cur, offset, j) == fetched(first, prev, offset, j));
                        if j < i {
                            assert(step(offset, j) != at);
                        }
                    }
                }
            }
            i += 1;
        }
        let ghost read = *self;
        let ghost was = memory@;
        let ghost free = alloc.available();
        let r = self.anonymous_vmo.clone_range(offset, len, alloc, memory);
        proof {
            assert forall|k: u64| #[trigger] self.page(*node, memory@, k) == old(self).page(
                *node,
                old(memory)@,
                k,
            ) by {
                assert(read.page(*node, was, k) == old(self).page(*node, old(memory)@, k));
                if present(read.frames(), k) is Some {
                    assert(read.frames().contains_key(k));
                }
            }
            lemma_own_frames(*self, *alloc, memory@);
            assert(free =~= old(alloc).available().difference(frames_of(self.frames())));
            if r is Ok {
                let child = r->Ok_0;
                assert forall|f: u64| frames_of(child.pages@).contains(f) implies free.contains(
                    f,
                ) by {
                    let k = choose|k: u64| #[trigger]
                        child.pages@.contains_key(k) && child.pages@[k] == f;
                }
                assert forall|k: u64| #[trigger]
                    child.pages@.contains_key(k) implies memory@[child.pages@[k]]
                    == self.anonymous_vmo.content(offset + k, memory@) by {
                    let o = (offset + k) as u64;
                    if present(read.frames(), o) is Some {
                        assert(read.frames().contains_key(o));
                    }
                }
            }
        }
        r
    }

    /// Brings in the pages from `start_page` up to `end_page`, and gives their
    /// frames. Where one of them cannot be had it fails; those that came before
    /// it stay in memory.
    #[verifier::spinoff_prover]
    #[verifier::rlimit(40)]
    pub fn bring_in<N: VfsNode, A: FrameAllocator>(
        &mut self,
        node: &N,
        start_page: u64,
        end_page: u64,
        alloc: &mut A,
        memory: &mut PhysMemory,
    ) -> (r: Result<Vec<u64>, ()>)
        requires
            node.ready(),
            old(self).holds(*old(alloc), old(memory)@),
            start_page <= end_page <= 0x10_0000_0000_0000,
        ensures
            final(self).holds(*final(alloc), final(memory)@),
            read_in(*old(self), *final(self), *node, old(memory)@, final(memory)@),
            forall|k: u64| #[trigger]
                final(self).frames().contains_key(k) ==> old(self).frames().contains_key(k)
                    || page_between(k, start_page as int, end_page as int),
            frames_brought(old(self).frames(), final(self).frames(), *old(alloc), *final(alloc)),
            others_same(old(memory)@, final(memory)@, old(alloc).available()),
            old(alloc).drawn(final(alloc)),
            forall|f: u64| #[trigger] old(alloc).accepts(f) ==> final(alloc).accepts(f),
            r is Ok || node.reliable() ==> (r is Ok <==> forall|i: int|
                start_page <= i < end_page ==> #[trigger] can_be_had(
                    *old(self),
                    *node,
                    start_page as int,
                    i,
                    old(alloc).capacity(),
                )),
            r matches Ok(frames) ==> {
                &&& frames@.len() == end_page - start_page
                &&& forall|i: int|
                    0 <= i < frames@.len() ==> stands_at(
                        final(self).frames(),
                        start_page + i,
                        #[trigger] frames@[i],
                    ) && frames@[i] != 0
            },
            r is Ok ==> {
                let taken = lacking(old(self).frames(), start_page as int, end_page as int);
                &&& final(alloc).capacity() + taken == old(alloc).capacity()
                &&& taken == 0 ==> *final(alloc) == *old(alloc)
            },
    {
        proof {
            lemma_own_frames(*self, *alloc, memory@);
            A::lemma_drawn(alloc, alloc, alloc);
        }
        let mut frames: Vec<u64> = Vec::new();
        let mut i: u64 = start_page;
        while i < end_page
            invariant
                node.ready(),
                end_page <= 0x10_0000_0000_0000,
                start_page <= i,
                start_page <= end_page ==> i <= end_page,
                start_page > end_page ==> i == start_page,
                self.holds(*alloc, memory@),
                read_in(*old(self), *self, *node, old(memory)@, memory@),
                forall|k: u64| #[trigger]
                    self.frames().contains_key(k) ==> old(self).frames().contains_key(k)
                        || page_between(k, start_page as int, end_page as int),
                frames_brought(old(self).frames(), self.frames(), *old(alloc), *alloc),
                others_same(old(memory)@, memory@, old(alloc).available()),
                frames@.len() == i - start_page,
                old(alloc).drawn(alloc),
                forall|f: u64| #[trigger] old(alloc).accepts(f) ==> alloc.accepts(f),
                forall|k: u64|
                    k >= 4096 * i ==> #[trigger] present(self.frames(), k) == present(
                        old(self).frames(),
                        k,
                    ),
                alloc.capacity() + lacking(old(self).frames(), start_page as int, i as int) == old(alloc).capacity(),
                lacking(old(self).frames(), start_page as int, i as int) == 0 ==> *alloc == *old(alloc),
                forall|j: int|
                    start_page <= j < i ==> #[trigger] can_be_had(
                        *old(self),
                        *node,
                        start_page as int,
                        j,
                        old(alloc).capacity(),
                    ),
                forall|j: int|
                    0 <= j < frames@.len() ==> stands_at(
                        self.frames(),
                        start_page + j,
                        #[trigger] frames@[j],
                    ) && frames@[j] != 0,
            decreases end_page - i,
        {
            let page_offset = i * 4096;
            let ghost before = *self;
            let ghost was = memory@;
            let ghost addrs = frames@;
            let ghost alloc_before = *alloc;
            proof {
                assert(offset_of(i as int) == page_offset);
                assert(present(before.frames(), page_offset) == present(
                    old(self).frames(),
                    page_offset,
                ));
            }
            let addr = match self.request_page(node, page_offset, alloc, memory) {
                Ok(addr) => addr,
                Err(_) => {
                    proof {
                        A::lemma_drawn(old(alloc), &alloc_before, alloc);
                        lemma_frames_brought(
                            old(self).frames(),
                            before.frames(),
                            self.frames(),
                            *old(alloc),
                            alloc_before,
                            *alloc,
                        );
                        assert(!can_be_had(
                            *old(self),
                            *node,
                            start_page as int,
                            i as int,
                            old(alloc).capacity(),
                        ) || !node.reliable());
                    }
                    return Err(());
                },
            };
            frames.push(addr);
            proof {
                A::lemma_drawn(old(alloc), &alloc_before, alloc);
                lemma_frames_brought(
                    old(self).frames(),
                    before.frames(),
                    self.frames(),
                    *old(alloc),
                    alloc_before,
                    *alloc,
                );
                assert(can_be_had(
                    *old(self),
                    *node,
                    start_page as int,
                    i as int,
                    old(alloc).capacity(),
                ));
                assert forall|k: u64| k >= 4096 * (i + 1) implies #[trigger] present(
                    self.frames(),
                    k,
                ) == present(old(self).frames(), k) by {
                    assert(present(before.frames(), k) == present(old(self).frames(), k));
                }
                assert forall|k: u64|
                    present(old(self).frames(), k) is Some implies #[trigger] present(
                    self.frames(),
                    k,
                ) == present(old(self).frames(), k) by {
                    assert(present(before.frames(), k) == present(old(self).frames(), k));
                }
                assert forall|k: u64| #[trigger] self.page(*node, memory@, k) == old(self).page(
                    *node,
                    old(memory)@,
                    k,
                ) by {
                    assert(before.page(*node, was, k) == old(self).page(*node, old(memory)@, k));
                }
                assert forall|k: u64| #[trigger]
                    self.frames().contains_key(k) implies old(self).frames().contains_key(k)
                    || page_between(k, start_page as int, end_page as int) by {
                    if k != page_offset {
                        assert(before.frames().contains_key(k));
                    }
                }
                assert forall|j: int| 0 <= j < frames@.len() implies stands_at(
                    self.frames(),
                    start_page + j,
                    #[trigger] frames@[j],
                ) && frames@[j] != 0 by {
                    if j < i - start_page {
                        assert(stands_at(before.frames(), start_page + j, addrs[j]));
                        assert(offset_of(start_page + j) == (start_page + j) * 4096);
                        assert(present(before.frames(), offset_of(start_page + j)) is Some);
                        assert(present(self.frames(), offset_of(start_page + j)) == present(
                            before.frames(),
                            offset_of(start_page + j),
                        ));
                    }
                }
            }
            i += 1;
        }
        Ok(frames)
    }

    /// Brings in all pages of a range and keeps their frames from being
    /// reclaimed. Where one of them cannot be had, none is pinned; those that
    /// came before it stay in memory.
    pub fn pin<N: VfsNode>(
        &mut self,
        node: &N,
        offset: u64,
        len: u64,
        alloc: &mut PCAllocator,
        memory: &mut PhysMemory,
    ) -> (r: Result<PinnedVmo, ()>)
        requires
            node.ready(),
            old(self).holds(*old(alloc), old(memory)@),
        ensures
            final(self).holds(*final(alloc), final(memory)@),
            read_in(*old(self), *final(self), *node, old(memory)@, final(memory)@),
            forall|k: u64| #[trigger]
                final(self).frames().contains_key(k) ==> old(self).frames().contains_key(k)
                    || pinned_offset(k, offset, len),
            frames_brought(old(self).frames(), final(self).frames(), *old(alloc), *final(alloc)),
            others_same(old(memory)@, final(memory)@, old(alloc).available()),
            offset + len > old(self).anonymous_vmo.size ==> {
                &&& r is Err
                &&& *final(self) == *old(self)
                &&& *final(alloc) == *old(alloc)
                &&& final(memory)@ == old(memory)@
            },
            r is Ok || node.reliable() ==> (r is Ok <==> offset + len
                <= old(self).anonymous_vmo.size && forall|i: int|
                first_page(offset) <= i < page_count(offset + len) ==> #[trigger] can_be_had(
                    *old(self),
                    *node,
                    first_page(offset),
                    i,
                    old(alloc).capacity(),
                )),
            r matches Ok(pinned) ==> {
                &&& pinned@.len() == page_count(offset + len) - first_page(offset)
                &&& forall|i: int|
                    0 <= i < pinned@.len() ==> stands_at(
                        final(self).frames(),
                        first_page(offset) + i,
                        #[trigger] pinned@[i],
                    ) && pinned@[i] != 0
            },
            r matches Ok(pinned) ==> forall|i: int|
                0 <= i < pinned@.len() ==> is_pinned(
                    final(alloc).shared().table(),
                    #[trigger] pinned@[i],
                ),
            r matches Ok(pinned) ==> pinned_in(old(alloc).shared(), final(alloc).shared(), pinned@),
            r matches Ok(pinned) ==> (lacking(
                old(self).frames(),
                first_page(offset),
                page_count(offset + len),
            ) == 0 ==> pins_set(
                old(alloc).shared().table(),
                final(alloc).shared().table(),
                pinned@,
            )),
            r is Err ==> old(alloc).drawn(final(alloc)),
            r is Ok ==> final(alloc).capacity() + lacking(
                old(self).frames(),
                first_page(offset),
                page_count(offset + len),
            ) == old(alloc).capacity(),
    {
        let size = self.anonymous_vmo.size;
        proof {
            lemma_own_frames(*self, *alloc, memory@);
            PCAllocator::lemma_drawn(alloc, alloc, alloc);
        }
        if offset > size || len > size - offset {
            return Err(());
        }
        let start_page = offset / 4096;
        let end_page = pages_for(offset + len);
        let phys_addrs = match self.bring_in(node, start_page, end_page, alloc, memory) {
            Ok(frames) => frames,
            Err(_) => {
                proof {
                    if node.reliable() {
                        let i = choose|i: int|
                            start_page <= i < end_page && !#[trigger] can_be_had(
                                *old(self),
                                *node,
                                start_page as int,
                                i,
                                old(alloc).capacity(),
                            );
                        assert(first_page(offset) <= i < page_count(offset + len));
                    }
                }
                return Err(());
            },
        };
        let ghost brought = alloc.shared();
        let pinned = PinnedVmo::set(phys_addrs, alloc);
        proof {
            lemma_pinned_in(old(alloc).shared(), brought, alloc.shared(), pinned@);
        }
        Ok(pinned)
    }

    /// Cuts the object off or extends it. What is cut off is given back.
    pub fn resize_object<A: FrameAllocator>(
        &mut self,
        new_size: u64,
        alloc: &mut A,
        memory: &PhysMemory,
    ) -> (r: Result<(), ()>)
        requires
            old(self).holds(*old(alloc), memory@),
        ensures
            final(self).holds(*final(alloc), memory@),
            r is Ok,
            final(self).anonymous_vmo.size == new_size,
            new_size < old(self).anonymous_vmo.size ==> {
                &&& final(self).frames() == cut(old(self).frames(), new_size)
                &&& final(self).marks() == Map::new(
                    |k: u64| old(self).marks().contains_key(k) && k < new_size,
                    |k: u64| old(self).marks()[k],
                )
                &&& given_back(
                    *old(alloc),
                    *final(alloc),
                    frames_from(old(self).frames(), new_size),
                )
            },
            new_size == old(self).anonymous_vmo.size ==> *final(self) == *old(self),
            new_size > old(self).anonymous_vmo.size ==> {
                &&& final(self).frames() == padded(old(self).frames(), new_size, 0u64)
                &&& final(self).marks() == padded(old(self).marks(), new_size, false)
            },
            new_size >= old(self).anonymous_vmo.size ==> *final(alloc) == *old(alloc),
    {
        self.anonymous_vmo.resize_object(new_size, alloc, memory)
    }
}

} // verus!
