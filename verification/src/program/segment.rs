//! The bytes of a segment that has pages of its own.

use crate::common::bytes::copy_bytes;
use crate::hal::mmu::pager::{PhysMemory, Tables};
use crate::hal::mmu::FrameAllocator;
use crate::memory::file_pages::{
    can_be_had, frames_brought, lemma_frames_brought, lemma_own_frames, others_same, read_in, VfsNode,
};
use crate::memory::frames::{
    filled_up, law_page_reads_back, page_bytes, page_words, read_frame, write_frame,
};
use crate::memory::vmo::{
    frames_of, has_frame, lacking, less, offset_of, padded, page_count, pages_for, present,
    stands_at, FileVmo, PagedBackingStore, Vmo,
};
use crate::memory::range_tree::unoccupied;
use crate::memory::vma::{lemma_normalized, Regions, USER_SPACE_LIMIT};
use crate::memory::vmm::{map_request, new_vma, PageOps, VirtMemManager, VmaBacking};
use crate::memory::vmm2::accounting::VmAccountingSnapshot;
use crate::memory::vmm2::types::{
    CachePolicy, MapBehavior, PageSize, VmOptions, VmPermissions, VmaChargeKind, VmoId,
};
use crate::program::{copies_fit, segment_permissions, LoaderError, SegmentPlan, SegmentSource};
use vstd::prelude::*;

verus! {

/// How many pages hold some of the first `copied` bytes of a segment.
pub open spec fn pages_copied(copied: u64) -> int {
    (copied + 4095) / 4096
}

/// What page `i` of a segment holds once the first `copied` bytes have been
/// taken from `source`.
pub open spec fn segment_page(source: Seq<u64>, copied: u64, i: int) -> Seq<u64> {
    if copied < 4096 * (i + 1) {
        page_words(filled_up(page_bytes(source).take(copied - 4096 * i)))
    } else {
        source
    }
}

/// The frames that a segment is copied from are in memory, and are not those
/// that it is copied to.
pub open spec fn apart<A: FrameAllocator>(
    frames: Seq<u64>,
    vmo: Vmo,
    alloc: A,
    memory: Tables,
) -> bool {
    forall|i: int| #![trigger frames[i]] 0 <= i < frames.len() ==> {
        &&& memory.contains_key(frames[i])
        &&& !alloc.available().contains(frames[i])
        &&& !is_target(vmo, frames[i])
    }
}

pub open spec fn is_target(vmo: Vmo, frame: u64) -> bool {
    frame != 0 && exists|k: u64| #[trigger] vmo.pages@.contains_key(k) && vmo.pages@[k] == frame
}

/// Page `i` of the segment has a frame that holds `words`.
pub open spec fn page_is(vmo: Vmo, memory: Tables, i: int, words: Seq<u64>) -> bool {
    present(vmo.pages@, offset_of(i)) is Some && memory[vmo.pages@[offset_of(i)]] == words
}

/// Page `i` begins past the end of the segment, or it had no frame and did not
/// get one.
pub open spec fn page_fails(before: Vmo, after: Vmo, i: int) -> bool {
    ||| offset_of(i) >= before.size
    ||| present(before.pages@, offset_of(i)) is None && present(after.pages@, offset_of(i)) is None
}

/// How many of the first `n` pages begin inside an object of `size` bytes.
pub open spec fn pages_inside(size: u64, n: int) -> int {
    if n <= page_count(size as int) {
        n
    } else {
        page_count(size as int)
    }
}

proof fn lemma_lacking(pages: Map<u64, u64>, low: int, high: int)
    requires
        0 <= low <= high,
    ensures
        lacking(pages, 0, low) <= lacking(pages, 0, high),
    decreases high - low,
{
    if low < high {
        lemma_lacking(pages, low, high - 1);
    }
}

/// Frames that neither belong to the segment nor could come to belong to it
/// are as they were.
pub open spec fn others_kept<A: FrameAllocator>(
    vmo: Vmo,
    alloc: A,
    before: Tables,
    after: Tables,
) -> bool {
    forall|f: u64| #[trigger]
        before.contains_key(f) && !alloc.available().contains(f) && !is_target(vmo, f) ==> after[f]
            == before[f]
}

/// From page `n` on the segment has the frames that it had, and they hold what
/// they held.
pub open spec fn rest_kept(vmo: Vmo, after: Vmo, n: int, before: Tables, memory: Tables) -> bool {
    forall|k: u64|
        k >= 4096 * n ==> {
            &&& #[trigger] present(after.pages@, k) == present(vmo.pages@, k)
            &&& present(vmo.pages@, k) is Some ==> memory[vmo.pages@[k]] == before[vmo.pages@[k]]
        }
}

/// Copies the pages of a file into a segment, and clears what follows the
/// segment's part of the last of them. `frames` are the frames of the file's
/// pages, in order. It fails when one of the pages begins past the end of the
/// segment, and when there is no frame left for one of them. The pages before
/// that one have been copied all the same.
pub fn fill_segment<A: FrameAllocator>(
    vmo: &mut Vmo,
    frames: &Vec<u64>,
    copied: u64,
    alloc: &mut A,
    memory: &mut PhysMemory,
) -> (r: Result<(), LoaderError>)
    requires
        old(vmo).holds(*old(alloc), old(memory)@),
        !old(vmo).is_physical,
        frames@.len() == pages_copied(copied),
        apart(frames@, *old(vmo), *old(alloc), old(memory)@),
    ensures
        final(vmo).holds(*final(alloc), final(memory)@),
        final(vmo).size == old(vmo).size,
        !final(vmo).is_physical,
        final(vmo).dirty_pages@ == old(vmo).dirty_pages@,
        others_kept(*old(vmo), *old(alloc), old(memory)@, final(memory)@),
        rest_kept(
            *old(vmo),
            *final(vmo),
            frames@.len() as int,
            old(memory)@,
            final(memory)@,
        ),
        final(memory)@.dom() == old(memory)@.dom(),
        forall|f: u64| #[trigger] old(alloc).accepts(f) ==> final(alloc).accepts(f),
        r is Ok <==> frames@.len() <= page_count(old(vmo).size as int) && lacking(
            old(vmo).pages@,
            0,
            frames@.len() as int,
        ) <= old(alloc).capacity(),
        frames_brought(old(vmo).pages@, final(vmo).pages@, *old(alloc), *final(alloc)),
        final(alloc).capacity() == less(
            old(alloc).capacity(),
            lacking(old(vmo).pages@, 0, pages_inside(old(vmo).size, frames@.len() as int)),
        ),
        ({
            let inside = pages_inside(old(vmo).size, frames@.len() as int);
            r is Err && lacking(old(vmo).pages@, 0, inside) <= old(alloc).capacity() ==> forall|i: int|
                0 <= i < inside ==> page_is(
                    *final(vmo),
                    final(memory)@,
                    i,
                    #[trigger] old(memory)@[frames@[i]],
                )
        }),
        match r {
            Ok(_) => forall|i: int|
                0 <= i < frames@.len() ==> page_is(
                    *final(vmo),
                    final(memory)@,
                    i,
                    segment_page(#[trigger] old(memory)@[frames@[i]], copied, i),
                ),
            Err(fault) => fault == LoaderError::FileReadError && exists|i: int|
                0 <= i < frames@.len() && #[trigger] page_fails(*old(vmo), *final(vmo), i),
        },
{
    let ghost first = *vmo;
    let ghost source = memory@;
    let ghost free = *alloc;
    let mut i: usize = 0;
    proof {
        lemma_own_frames(FileVmo { anonymous_vmo: *vmo }, *alloc, memory@);
    }
    while i < frames.len()
        invariant
            i <= frames@.len(),
            frames_brought(first.pages@, vmo.pages@, free, *alloc),
            frames@.len() == pages_copied(copied),
            first == *old(vmo),
            source == old(memory)@,
            free == *old(alloc),
            i <= page_count(first.size as int),
            vmo.size == first.size,
            vmo.dirty_pages@ == first.dirty_pages@,
            !vmo.is_physical,
            vmo.holds(*alloc, memory@),
            memory@.dom() == source.dom(),
            forall|f: u64| #[trigger] free.accepts(f) ==> alloc.accepts(f),
            others_kept(first, free, source, memory@),
            apart(frames@, first, free, source),
            forall|k: u64| #[trigger]
                vmo.pages@.contains_key(k) ==> vmo.pages@[k] == 0 || free.available().contains(
                    vmo.pages@[k],
                ) || is_target(first, vmo.pages@[k]),
            forall|k: u64| #[trigger]
                first.pages@.contains_key(k) && first.pages@[k] != 0 ==> vmo.pages@.contains_key(k)
                    && vmo.pages@[k] == first.pages@[k],
            alloc.available().subset_of(free.available()),
            alloc.capacity() + lacking(first.pages@, 0, i as int) == free.capacity(),
            rest_kept(first, *vmo, i as int, source, memory@),
            forall|j: int|
                0 <= j < i ==> page_is(*vmo, memory@, j, #[trigger] source[frames@[j]]),
        decreases frames@.len() - i,
    {
        let offset = i as u64 * 4096;
        let ghost before = *vmo;
        let ghost was = memory@;
        let ghost held = *alloc;
        assert(memory@[frames@[i as int]] == source[frames@[i as int]]);
        let frame = match vmo.request_page(offset, alloc, memory) {
            Ok(frame) => frame,
            Err(_) => {
                proof {
                    assert(offset_of(i as int) == offset);
                    assert(rest_kept(
                        first,
                        *vmo,
                        frames@.len() as int,
                        source,
                        memory@,
                    )) by {
                        assert forall|k: u64| k >= 4096 * frames@.len() implies {
                            &&& #[trigger] present(vmo.pages@, k) == present(first.pages@, k)
                            &&& present(first.pages@, k) is Some ==> memory@[first.pages@[k]]
                                == source[first.pages@[k]]
                        } by {
                            assert(present(before.pages@, k) == present(first.pages@, k));
                        }
                    }
                    assert(i == page_count(first.size as int));
                    assert(page_fails(first, *vmo, i as int));
                }
                return Err(LoaderError::FileReadError);
            },
        };
        assert(offset_of(i as int) == offset);
        proof {
            lemma_frames_brought(first.pages@, before.pages@, vmo.pages@, free, held, *alloc);
        }
        if frame == 0 {
            proof {
                if present(first.pages@, offset) is Some {
                    assert(first.pages@.contains_key(offset));
                }
                assert(page_fails(first, *vmo, i as int));
                lemma_lacking(first.pages@, i + 1, frames@.len() as int);
                lemma_lacking(
                    first.pages@,
                    i + 1,
                    pages_inside(first.size, frames@.len() as int),
                );
            }
            return Err(LoaderError::FileReadError);
        }
        proof {
            memory.lemma_has();
            assert(vmo.pages@.contains_key(offset) && vmo.pages@[offset] == frame);
            if before.pages@.contains_key(offset) && before.pages@[offset] != 0 {
            } else {
                assert(free.available().contains(frame));
            }
            assert(memory@.dom() =~= source.dom());
            assert(memory@.contains_key(frames@[i as int]));
            assert(frame != frames@[i as int]);
        }
        memory.copy_frame(frames[i], frame);
        proof {
            assert(memory@.dom() =~= source.dom());
            assert forall|j: int| 0 <= j < i + 1 implies page_is(
                *vmo,
                memory@,
                j,
                #[trigger] source[frames@[j]],
            ) by {
                if j < i {
                    assert(page_is(before, was, j, source[frames@[j]]));
                    assert(offset_of(j) != offset);
                    assert(before.pages@.contains_key(offset_of(j)));
                    assert(vmo.pages@.contains_key(offset_of(j)));
                    assert(vmo.pages@[offset_of(j)] == before.pages@[offset_of(j)]);
                    assert(vmo.pages@[offset_of(j)] != frame);
                }
            }
            assert forall|k: u64| k >= 4096 * (i + 1) implies {
                &&& #[trigger] present(vmo.pages@, k) == present(first.pages@, k)
                &&& present(first.pages@, k) is Some ==> memory@[first.pages@[k]]
                    == source[first.pages@[k]]
            } by {
                assert(present(before.pages@, k) == present(first.pages@, k));
                if present(first.pages@, k) is Some {
                    assert(vmo.pages@.contains_key(k) && vmo.pages@[k] == first.pages@[k]);
                    assert(before.pages@.contains_key(k));
                    assert(!held.available().contains(before.pages@[k]));
                }
            }
            assert forall|f: u64| #[trigger]
                source.contains_key(f) && !free.available().contains(f) && !is_target(
                    first,
                    f,
                ) implies memory@[f] == source[f] by {
                assert(f != frame);
                assert(was[f] == source[f]);
            }
        }
        i += 1;
    }
    if copied % 4096 != 0 {
        let ghost last = frames@.len() - 1;
        let ghost filled = memory@;
        proof {
            assert(page_is(*vmo, memory@, last, source[frames@[last]]));
            assert(last == copied as int / 4096);
        }
        clear_tail(vmo, copied, alloc, memory);
        proof {
            assert(memory@.dom() =~= source.dom());
            let frame = vmo.pages@[offset_of(last)];
            assert(vmo.pages@.contains_key(offset_of(last)));
            assert forall|k: u64| k >= 4096 * frames@.len() implies {
                &&& #[trigger] present(vmo.pages@, k) == present(first.pages@, k)
                &&& present(first.pages@, k) is Some ==> memory@[first.pages@[k]]
                    == source[first.pages@[k]]
            } by {
                if present(first.pages@, k) is Some {
                    assert(vmo.pages@.contains_key(k) && vmo.pages@[k] == first.pages@[k]);
                    assert(k != offset_of(last));
                }
            }
            assert forall|j: int| 0 <= j < frames@.len() implies page_is(
                *vmo,
                memory@,
                j,
                segment_page(#[trigger] source[frames@[j]], copied, j),
            ) by {
                assert(page_is(*vmo, filled, j, source[frames@[j]]));
                if j < last {
                    assert(vmo.pages@.contains_key(offset_of(j)));
                    assert(offset_of(j) != offset_of(last));
                    assert(vmo.pages@[offset_of(j)] != frame);
                }
            }
            assert(page_is(*vmo, memory@, last, segment_page(source[frames@[last]], copied, last)));
        }
    }
    Ok(())
}

/// The bytes of page `i` of a segment once the first `copied` bytes of it have
/// been taken from a page of a file.
pub open spec fn loaded_bytes(page: Seq<u8>, copied: u64, i: int) -> Seq<u8> {
    if copied < 4096 * (i + 1) {
        filled_up(page.take(copied - 4096 * i))
    } else {
        page
    }
}

/// Page `i` of a segment holds what page `page` of the file did, as far as the
/// first `copied` bytes of the segment go.
pub open spec fn page_loaded<N: VfsNode>(
    file: FileVmo,
    node: N,
    memory: Tables,
    vmo: Vmo,
    memory_after: Tables,
    copied: u64,
    page: int,
    i: int,
) -> bool {
    &&& file.page(node, memory, offset_of(page)) matches Some(bytes)
    &&& present(vmo.pages@, offset_of(i)) matches Some(frame)
    &&& page_bytes(memory_after[frame]) == loaded_bytes(bytes, copied, i)
}

/// Copies the first `copied` bytes of a segment from its file, whose pages are
/// read in, and clears what follows them in the last page. It fails where the
/// file does not have one of the pages, where a page begins past the end of the
/// segment, and where there is no frame left.
#[verifier::spinoff_prover]
#[verifier::rlimit(40)]
pub fn load_segment<N: VfsNode, A: FrameAllocator>(
    file: &mut FileVmo,
    node: &N,
    vmo: &mut Vmo,
    file_offset: u64,
    copied: u64,
    alloc: &mut A,
    memory: &mut PhysMemory,
) -> (r: Result<(), LoaderError>)
    requires
        node.ready(),
        old(file).holds(*old(alloc), old(memory)@),
        old(vmo).holds(*old(alloc), old(memory)@),
        !old(vmo).is_physical,
        frames_of(old(file).frames()).disjoint(frames_of(old(vmo).pages@)),
        file_offset as int % 4096 == 0,
        file_offset + copied + 4096 <= u64::MAX,
    ensures
        final(file).holds(*final(alloc), final(memory)@),
        final(vmo).holds(*final(alloc), final(memory)@),
        final(vmo).size == old(vmo).size,
        !final(vmo).is_physical,
        final(vmo).dirty_pages@ == old(vmo).dirty_pages@,
        frames_of(final(file).frames()).disjoint(frames_of(final(vmo).pages@)),
        frames_of(final(vmo).pages@).subset_of(
            frames_of(old(vmo).pages@).union(old(alloc).available()),
        ),
        read_in(*old(file), *final(file), *node, old(memory)@, final(memory)@),
        rest_kept(
            *old(vmo),
            *final(vmo),
            pages_copied(copied),
            old(memory)@,
            final(memory)@,
        ),
        final(alloc).available() == old(alloc).available().difference(
            frames_of(final(file).frames()),
        ).difference(frames_of(final(vmo).pages@)),
        others_same(
            old(memory)@,
            final(memory)@,
            old(alloc).available().union(frames_of(old(vmo).pages@)),
        ),
        r is Err ==> r == Err::<(), LoaderError>(LoaderError::FileReadError),
        ({
            let first = file_offset as int / 4096;
            let n = pages_copied(copied);
            let needed = lacking(old(file).frames(), first, first + n) + lacking(
                old(vmo).pages@,
                0,
                n,
            );
            &&& r is Ok || node.reliable() ==> (r is Ok <==> {
                &&& n <= page_count(old(vmo).size as int)
                &&& forall|i: int|
                    first <= i < first + n ==> #[trigger] can_be_had(
                        *old(file),
                        *node,
                        first,
                        i,
                        old(alloc).capacity(),
                    )
                &&& needed <= old(alloc).capacity()
            })
            &&& r is Ok ==> final(alloc).capacity() + needed == old(alloc).capacity()
            &&& r is Ok ==> forall|i: int|
                0 <= i < n ==> #[trigger] page_loaded(
                    *old(file),
                    *node,
                    old(memory)@,
                    *final(vmo),
                    final(memory)@,
                    copied,
                    first + i,
                    i,
                )
        }),
{
    let first_page = file_offset / 4096;
    let pages = pages_for(copied);
    let ghost file0 = *file;
    let ghost vmo0 = *vmo;
    let ghost mem0 = memory@;
    let ghost alloc0 = *alloc;
    proof {
        lemma_own_frames(*file, *alloc, memory@);
        lemma_own_frames(FileVmo { anonymous_vmo: *vmo }, *alloc, memory@);
    }
    let brought = file.bring_in(node, first_page, first_page + pages, alloc, memory);
    let ghost mem1 = memory@;
    let ghost alloc1 = *alloc;
    proof {
        lemma_own_frames(*file, *alloc, memory@);
        assert forall|k: u64| #[trigger] vmo.pages@.contains_key(k) && vmo.pages@[k] != 0 implies {
            &&& alloc.accepts(vmo.pages@[k])
            &&& !alloc.available().contains(vmo.pages@[k])
            &&& memory@.contains_key(vmo.pages@[k])
        } by {
            assert(alloc0.accepts(vmo.pages@[k]));
        }
        assert(vmo.holds(*alloc, memory@));
        lemma_own_frames(FileVmo { anonymous_vmo: *vmo }, *alloc, memory@);
        assert(frames_of(file.frames()).disjoint(frames_of(vmo.pages@))) by {
            lemma_own_frames(FileVmo { anonymous_vmo: vmo0 }, alloc0, mem0);
        }
        assert(alloc.available() =~= alloc0.available().difference(
            frames_of(file.frames()),
        ).difference(frames_of(vmo.pages@)));
    }
    proof {
        assert forall|k: u64| (#[trigger] present(vmo.pages@, k)) is Some implies memory@[vmo.pages@[k]]
            == mem0[vmo.pages@[k]] by {
            assert(vmo0.pages@.contains_key(k));
            assert(frames_of(vmo0.pages@).contains(vmo0.pages@[k]));
        }
    }
    let frames = match brought {
        Ok(frames) => frames,
        Err(_) => {
            return Err(LoaderError::FileReadError);
        },
    };
    proof {
        assert forall|i: int| #![trigger frames@[i]] 0 <= i < frames@.len() implies {
            &&& memory@.contains_key(frames@[i])
            &&& !alloc.available().contains(frames@[i])
            &&& !is_target(*vmo, frames@[i])
        } by {
            let k = offset_of(first_page + i);
            assert(stands_at(file.frames(), first_page + i, frames@[i]));
            assert(file.frames().contains_key(k) && file.frames()[k] == frames@[i]);
            assert(frames_of(file.frames()).contains(frames@[i]));
            if is_target(*vmo, frames@[i]) {
                assert(frames_of(vmo.pages@).contains(frames@[i]));
            }
        }
    }
    let r = fill_segment(vmo, &frames, copied, alloc, memory);
    proof {
        lemma_loaded(file0, *file, *node, vmo0, *vmo, mem0, mem1, memory@, alloc0, alloc1, *alloc);
        if r is Ok {
            assert forall|i: int| 0 <= i < pages_copied(copied) implies #[trigger] page_loaded(
                file0,
                *node,
                mem0,
                *vmo,
                memory@,
                copied,
                first_page + i,
                i,
            ) by {
                let k = offset_of(first_page + i);
                assert(stands_at(file.frames(), first_page + i, frames@[i]));
                assert(file.page(*node, mem1, k) == file0.page(*node, mem0, k));
                assert(page_is(*vmo, memory@, i, segment_page(mem1[frames@[i]], copied, i)));
                lemma_loaded_bytes(mem1[frames@[i]], copied, i);
            }
        }
    }
    r
}

/// Makes the object of a segment as it is planned: an empty one, one that its
/// part of the file has been copied into, or none where the file itself is
/// mapped. Where copying fails, its frames are given back.
#[verifier::spinoff_prover]
#[verifier::rlimit(40)]
pub fn segment_vmo<N: VfsNode, A: FrameAllocator>(
    plan: &SegmentPlan,
    file: &mut FileVmo,
    node: &N,
    alloc: &mut A,
    memory: &mut PhysMemory,
) -> (r: Result<Option<Vmo>, LoaderError>)
    requires
        node.ready(),
        old(file).holds(*old(alloc), old(memory)@),
        copies_fit(*plan),
    ensures
        final(file).holds(*final(alloc), final(memory)@),
        read_in(*old(file), *final(file), *node, old(memory)@, final(memory)@),
        others_same(old(memory)@, final(memory)@, old(alloc).available()),
        r matches Ok(Some(vmo)) ==> {
            &&& vmo.holds(*final(alloc), final(memory)@)
            &&& vmo.size == plan.size
            &&& !vmo.is_physical
            &&& frames_of(final(file).frames()).disjoint(frames_of(vmo.pages@))
        },
        match plan.source {
            SegmentSource::Zeroes => {
                &&& r matches Ok(Some(vmo)) && frames_of(vmo.pages@) == Set::<u64>::empty()
                &&& *final(file) == *old(file)
                &&& *final(alloc) == *old(alloc)
                &&& final(memory)@ == old(memory)@
            },
            SegmentSource::File { .. } => {
                &&& r == Ok::<Option<Vmo>, LoaderError>(None)
                &&& *final(file) == *old(file)
                &&& *final(alloc) == *old(alloc)
                &&& final(memory)@ == old(memory)@
            },
            SegmentSource::Copy { file_offset, copied } => {
                let first = file_offset as int / 4096;
                let n = pages_copied(copied);
                let needed = lacking(old(file).frames(), first, first + n) + n;
                &&& r is Ok || node.reliable() ==> (r is Ok <==> {
                    &&& forall|i: int|
                        first <= i < first + n ==> #[trigger] can_be_had(
                            *old(file),
                            *node,
                            first,
                            i,
                            old(alloc).capacity(),
                        )
                    &&& needed <= old(alloc).capacity()
                })
                &&& match r {
                    Ok(made) => {
                        &&& made matches Some(vmo) && {
                            &&& final(alloc).available() == old(alloc).available().difference(
                                frames_of(final(file).frames()),
                            ).difference(frames_of(vmo.pages@))
                            &&& forall|i: int|
                                0 <= i < n ==> #[trigger] page_loaded(
                                    *old(file),
                                    *node,
                                    old(memory)@,
                                    vmo,
                                    final(memory)@,
                                    copied,
                                    first + i,
                                    i,
                                )
                            &&& forall|k: u64|
                                k >= 4096 * n ==> (#[trigger] present(vmo.pages@, k)) is None
                        }
                        &&& final(alloc).capacity() + needed == old(alloc).capacity()
                    },
                    Err(fault) => {
                        &&& fault == LoaderError::FileReadError
                        &&& final(alloc).available() == old(alloc).available().difference(
                            frames_of(final(file).frames()),
                        )
                    },
                }
            },
        },
{
    match plan.source {
        SegmentSource::Zeroes => {
            let vmo = Vmo::new(plan.size);
            proof {
                lemma_no_frames(vmo);
                lemma_read_nothing(*file, *node, memory@);
            }
            Ok(Some(vmo))
        },
        SegmentSource::File { .. } => {
            proof {
                lemma_read_nothing(*file, *node, memory@);
            }
            Ok(None)
        },
        SegmentSource::Copy { file_offset, copied } => {
            let mut vmo = Vmo::new(plan.size);
            let ghost mem0 = memory@;
            let ghost empty = vmo;
            proof {
                lemma_no_frames(vmo);
                lemma_none_there(vmo.pages@, pages_copied(copied));
                lemma_own_frames(*file, *alloc, memory@);
            }
            let loaded = load_segment(file, node, &mut vmo, file_offset, copied, alloc, memory);
            proof {
                assert(old(alloc).available().union(frames_of(empty.pages@))
                    =~= old(alloc).available());
                lemma_own_frames(*file, *alloc, memory@);
                lemma_own_frames(FileVmo { anonymous_vmo: vmo }, *alloc, memory@);
            }
            match loaded {
                Ok(_) => {
                    assert forall|k: u64|
                        k >= 4096 * pages_copied(copied) implies (#[trigger] present(
                        vmo.pages@,
                        k,
                    )) is None by {
                        assert(present(vmo.pages@, k) == present(empty.pages@, k));
                    }
                    Ok(Some(vmo))
                },
                Err(fault) => {
                    let ghost held = *alloc;
                    let ghost filled = vmo;
                    vmo.release(alloc, memory);
                    proof {
                        lemma_still_held(*file, filled, held, *alloc, memory@);
                        assert(alloc.available() =~= old(alloc).available().difference(
                            frames_of(file.frames()),
                        ));
                    }
                    Err(fault)
                },
            }
        },
    }
}

/// An object has its frames after another has given its own back.
proof fn lemma_still_held<A: FrameAllocator>(
    file: FileVmo,
    other: Vmo,
    before: A,
    after: A,
    memory: Tables,
)
    requires
        file.holds(before, memory),
        other.holds(before, memory),
        !other.is_physical,
        frames_of(file.frames()).disjoint(frames_of(other.pages@)),
        after.ready(),
        after.available() == before.available().union(frames_of(other.pages@)),
        forall|f: u64| #[trigger]
            before.accepts(f) && !frames_of(other.pages@).contains(f) ==> after.accepts(f),
    ensures
        file.holds(after, memory),
{
    assert forall|f: u64| #[trigger] after.available().contains(f) implies memory.contains_key(f)
        && f != 0 by {
        if frames_of(other.pages@).contains(f) {
            let k = choose|k: u64| #[trigger]
                other.pages@.contains_key(k) && other.pages@[k] == f;
            assert(other.pages@.contains_key(k));
        }
    }
    let pages = file.anonymous_vmo.pages@;
    assert forall|k: u64| #[trigger] pages.contains_key(k) && pages[k] != 0 implies {
        &&& after.accepts(pages[k])
        &&& !after.available().contains(pages[k])
        &&& memory.contains_key(pages[k])
    } by {
        assert(frames_of(file.frames()).contains(pages[k]));
        assert(before.accepts(pages[k]));
    }
}

/// A new object has no frame.
proof fn lemma_no_frames(vmo: Vmo)
    requires
        vmo.pages@ == padded(Map::empty(), vmo.size, 0u64),
        vmo.dirty_pages@ == padded(Map::empty(), vmo.size, false),
    ensures
        vmo.dirty_pages@.dom() == vmo.pages@.dom(),
        frames_of(vmo.pages@) == Set::<u64>::empty(),
        forall|k: u64| (#[trigger] present(vmo.pages@, k)) is None,
        forall|k: u64| #[trigger] vmo.pages@.contains_key(k) ==> vmo.pages@[k] == 0,
{
    assert forall|f: u64| !frames_of(vmo.pages@).contains(f) by {
        if has_frame(vmo.pages@, f) {
            let k = choose|k: u64| #[trigger] vmo.pages@.contains_key(k) && vmo.pages@[k] == f;
            assert(f == 0);
        }
    }
    assert(frames_of(vmo.pages@) =~= Set::<u64>::empty());
    assert(vmo.dirty_pages@.dom() =~= vmo.pages@.dom());
}

proof fn lemma_none_there(pages: Map<u64, u64>, n: int)
    requires
        0 <= n,
        forall|k: u64| (#[trigger] present(pages, k)) is None,
    ensures
        lacking(pages, 0, n) == n,
    decreases n,
{
    if n > 0 {
        lemma_none_there(pages, n - 1);
        assert(present(pages, offset_of(n - 1)) is None);
    }
}

proof fn lemma_read_nothing<N: VfsNode>(file: FileVmo, node: N, memory: Tables)
    ensures
        read_in(file, file, node, memory, memory),
{
}

proof fn lemma_loaded_bytes(words: Seq<u64>, copied: u64, i: int)
    requires
        0 <= 4096 * i < copied,
    ensures
        page_bytes(segment_page(words, copied, i)) == loaded_bytes(page_bytes(words), copied, i),
{
    if copied < 4096 * (i + 1) {
        law_page_reads_back(filled_up(page_bytes(words).take(copied - 4096 * i)));
    }
}

/// A segment is filled after pages of its file have been read in.
proof fn lemma_loaded<N: VfsNode, A: FrameAllocator>(
    file0: FileVmo,
    file: FileVmo,
    node: N,
    vmo0: Vmo,
    vmo: Vmo,
    mem0: Tables,
    mem1: Tables,
    mem2: Tables,
    alloc0: A,
    alloc1: A,
    alloc2: A,
)
    requires
        read_in(file0, file, node, mem0, mem1),
        frames_brought(file0.frames(), file.frames(), alloc0, alloc1),
        others_same(mem0, mem1, alloc0.available()),
        file.holds(alloc1, mem1),
        vmo0.holds(alloc1, mem1),
        !vmo0.is_physical,
        frames_of(file.frames()).disjoint(frames_of(vmo0.pages@)),
        frames_brought(vmo0.pages@, vmo.pages@, alloc1, alloc2),
        others_kept(vmo0, alloc1, mem1, mem2),
        mem2.dom() == mem1.dom(),
        alloc2.ready(),
        forall|f: u64| #[trigger] alloc1.accepts(f) ==> alloc2.accepts(f),
    ensures
        file.holds(alloc2, mem2),
        read_in(file0, file, node, mem0, mem2),
        frames_of(file.frames()).disjoint(frames_of(vmo.pages@)),
        alloc2.available() == alloc0.available().difference(frames_of(file.frames())).difference(
            frames_of(vmo.pages@),
        ),
        others_same(mem0, mem2, alloc0.available().union(frames_of(vmo0.pages@))),
{
    lemma_own_frames(file, alloc1, mem1);
    assert forall|k: u64| present(file.frames(), k) is Some implies mem2[#[trigger] file.frames()[k]]
        == mem1[file.frames()[k]] by {
        let f = file.frames()[k];
        assert(file.anonymous_vmo.pages@.contains_key(k));
        assert(frames_of(file.frames()).contains(f));
        if is_target(vmo0, f) {
            assert(frames_of(vmo0.pages@).contains(f));
        }
        assert(mem1.contains_key(f));
    }
    assert forall|k: u64| #[trigger] file.page(node, mem2, k) == file0.page(node, mem0, k) by {
        assert(file.page(node, mem1, k) == file0.page(node, mem0, k));
    }
    assert(alloc2.available() =~= alloc0.available().difference(
        frames_of(file.frames()),
    ).difference(frames_of(vmo.pages@)));
    assert forall|f: u64|
        mem0.contains_key(f) && !alloc0.available().union(frames_of(vmo0.pages@)).contains(
            f,
        ) implies #[trigger] mem2[f] == mem0[f] by {
        assert(mem1[f] == mem0[f]);
        assert(mem1.contains_key(f));
    }
    assert forall|k: u64| #[trigger]
        file.anonymous_vmo.pages@.contains_key(k) && file.anonymous_vmo.pages@[k] != 0 implies {
        &&& alloc2.accepts(file.anonymous_vmo.pages@[k])
        &&& !alloc2.available().contains(file.anonymous_vmo.pages@[k])
        &&& mem2.contains_key(file.anonymous_vmo.pages@[k])
    } by {
        assert(alloc1.accepts(file.anonymous_vmo.pages@[k]));
    }
}

/// Clears what follows the first `copied` bytes in the page that holds the
/// last of them.
fn clear_tail<A: FrameAllocator>(
    vmo: &mut Vmo,
    copied: u64,
    alloc: &mut A,
    memory: &mut PhysMemory,
)
    requires
        old(vmo).holds(*old(alloc), old(memory)@),
        !old(vmo).is_physical,
        copied - copied as int % 4096 < old(vmo).size,
        copied as int % 4096 != 0,
        present(old(vmo).pages@, offset_of(copied as int / 4096)) is Some,
    ensures
        *final(vmo) == *old(vmo),
        *final(alloc) == *old(alloc),
        final(vmo).holds(*final(alloc), final(memory)@),
        ({
            let frame = old(vmo).pages@[offset_of(copied as int / 4096)];
            final(memory)@ == old(memory)@.insert(
                frame,
                page_words(
                    filled_up(page_bytes(old(memory)@[frame]).take(copied as int % 4096)),
                ),
            )
        }),
{
    let inner = (copied % 4096) as usize;
    let offset = copied - copied % 4096;
    assert(offset == offset_of(copied as int / 4096));
    assert(vmo.pages@.contains_key(offset));
    let frame = match vmo.request_page(offset, alloc, memory) {
        Ok(frame) => frame,
        Err(_) => {
            assert(false);
            return ;
        },
    };
    let page = read_frame(memory, frame);
    let mut bytes = copy_bytes(&page, 0, inner);
    let ghost kept = bytes@;
    while bytes.len() < 4096
        invariant
            inner <= bytes@.len() <= 4096,
            kept.len() == inner,
            bytes@ =~= filled_up(kept).take(bytes@.len() as int),
        decreases 4096 - bytes@.len(),
    {
        bytes.push(0);
    }
    assert(bytes@ =~= filled_up(kept));
    assert(kept =~= page@.take(inner as int));
    write_frame(memory, frame, &bytes);
}

/// The options that a segment is mapped with.
pub open spec fn segment_options(plan: SegmentPlan) -> VmOptions {
    VmOptions::plain(
        VmPermissions::USER | (if plan.writable {
            VmPermissions::WRITE
        } else {
            0
        }) | (if plan.executable {
            VmPermissions::EXECUTE
        } else {
            0
        }),
        VmaChargeKind::Private,
    )
}

/// Where in its memory object a segment starts. One with pages of its own
/// starts at the first of them.
pub open spec fn segment_offset(plan: SegmentPlan) -> u64 {
    match plan.source {
        SegmentSource::File { file_offset } => file_offset,
        _ => 0,
    }
}

/// The regions of an address space once a segment has been mapped, which can
/// only be where nothing is.
pub open spec fn with_segment(
    m: Regions<VmaBacking>,
    plan: SegmentPlan,
    vmo: VmoId,
) -> Option<Regions<VmaBacking>> {
    let options = segment_options(plan);
    match map_request(plan.vaddr, plan.size, segment_offset(plan), PageSize::Size4K) {
        Err(_) => None,
        Ok(req) => if unoccupied(m, req.start, req.end) {
            Some(
                m.insert(
                    req.start,
                    (req.end, new_vma(options, VmaBacking::Vmo(vmo), req.backing_offset)),
                ),
            )
        } else {
            None
        },
    }
}

/// The regions of an address space once the first `n` segments have been
/// mapped.
pub open spec fn with_segments(
    m: Regions<VmaBacking>,
    plans: Seq<SegmentPlan>,
    vmos: Seq<VmoId>,
    n: int,
) -> Option<Regions<VmaBacking>>
    decreases n,
{
    if n <= 0 {
        Some(m)
    } else {
        match with_segments(m, plans, vmos, n - 1) {
            None => None,
            Some(m) => with_segment(m, plans[n - 1], vmos[n - 1]),
        }
    }
}

/// How many bytes of address space the first `n` segments take.
pub open spec fn segment_bytes(plans: Seq<SegmentPlan>, n: int) -> int
    decreases n,
{
    if n <= 0 {
        0
    } else {
        let plan = plans[n - 1];
        segment_bytes(plans, n - 1) + map_request(
            plan.vaddr,
            plan.size,
            segment_offset(plan),
            PageSize::Size4K,
        )->Ok_0.size
    }
}

/// The books of an address space that has got so many bytes of memory objects.
pub open spec fn booked(books: VmAccountingSnapshot, bytes: int) -> VmAccountingSnapshot {
    VmAccountingSnapshot {
        reserved_bytes: (books.reserved_bytes + bytes) as u64,
        committed_bytes: (books.committed_bytes + bytes) as u64,
        ..books
    }
}

/// The mapping of segments stopped at segment `k`.
pub open spec fn stopped_at(
    before: Regions<VmaBacking>,
    after: Regions<VmaBacking>,
    plans: Seq<SegmentPlan>,
    vmos: Seq<VmoId>,
    k: int,
) -> bool {
    &&& with_segments(before, plans, vmos, k) == Some(after)
    &&& with_segment(after, plans[k], vmos[k]) is None
}

/// Maps the segments of a program, each from the memory object that holds its
/// pages. It stops at the first that cannot be mapped where it belongs.
pub fn map_segments<P: PageOps>(
    vmm: &mut VirtMemManager,
    plans: &Vec<SegmentPlan>,
    vmos: &Vec<VmoId>,
    pages: &mut P,
) -> (r: Result<(), LoaderError>)
    requires
        old(vmm).wf(),
        old(pages).ready(),
        plans@.len() == vmos@.len(),
        old(vmm).books().reserved_bytes + (plans@.len() + 1) * USER_SPACE_LIMIT <= u64::MAX,
        old(vmm).books().committed_bytes + (plans@.len() + 1) * USER_SPACE_LIMIT <= u64::MAX,
    ensures
        final(vmm).wf(),
        *final(pages) == *old(pages),
        final(vmm).root() == old(vmm).root(),
        match r {
            Ok(_) => {
                &&& with_segments(old(vmm)@, plans@, vmos@, plans@.len() as int) == Some(
                    final(vmm)@,
                )
                &&& final(vmm).books() == booked(
                    old(vmm).books(),
                    segment_bytes(plans@, plans@.len() as int),
                )
            },
            Err(fault) => fault == LoaderError::FileReadError && exists|k: int|
                0 <= k < plans@.len() && #[trigger] stopped_at(
                    old(vmm)@,
                    final(vmm)@,
                    plans@,
                    vmos@,
                    k,
                ) && final(vmm).books() == booked(old(vmm).books(), segment_bytes(plans@, k)),
        },
{
    let mut i: usize = 0;
    while i < plans.len()
        invariant
            i <= plans@.len(),
            plans@.len() == vmos@.len(),
            vmm.wf(),
            pages.ready(),
            *pages == *old(pages),
            vmm.root() == old(vmm).root(),
            with_segments(old(vmm)@, plans@, vmos@, i as int) == Some(vmm@),
            vmm.books() == booked(old(vmm).books(), segment_bytes(plans@, i as int)),
            old(vmm).books().reserved_bytes + segment_bytes(plans@, i as int) <= u64::MAX,
            old(vmm).books().committed_bytes + segment_bytes(plans@, i as int) <= u64::MAX,
            segment_bytes(plans@, i as int) >= 0,
            vmm.books().reserved_bytes + (plans@.len() + 1 - i) * USER_SPACE_LIMIT <= u64::MAX,
            vmm.books().committed_bytes + (plans@.len() + 1 - i) * USER_SPACE_LIMIT <= u64::MAX,
        decreases plans@.len() - i,
    {
        let plan = plans[i];
        let options = VmOptions {
            permissions: segment_permissions(&plan),
            cache: CachePolicy::Normal,
            page_size: PageSize::Size4K,
            charge: VmaChargeKind::Private,
        };
        let offset = match plan.source {
            SegmentSource::File { file_offset } => file_offset,
            _ => 0,
        };
        proof {
            lemma_normalized(plan.vaddr, plan.size, PageSize::Size4K);
            assert(options == segment_options(plan));
        }
        match vmm.map_at(
            plan.vaddr,
            plan.size,
            options,
            VmaBacking::Vmo(vmos[i]),
            offset,
            MapBehavior::RequireVacant,
            pages,
        ) {
            Ok(_) => {},
            Err(_) => {
                assert(stopped_at(old(vmm)@, vmm@, plans@, vmos@, i as int));
                return Err(LoaderError::FileReadError);
            },
        }
        i += 1;
    }
    Ok(())
}

} // verus!
