//! Where the pages of mapped memory objects come from.

use crate::hal::mmu::pager::PhysMemory;
use crate::hal::mmu::FrameAllocator;
use crate::memory::vmm2::types::VmoId;
use crate::memory::vmo::{present, zero_page, Vmo};
use vstd::prelude::*;

verus! {

/// The pages that were asked for, with the frames that came back.
pub type PageRequests = Seq<(VmoId, u64, Option<u64>)>;

/// Who holds the memory objects that mappings name.
pub trait VmoSource {
    spec fn ready(&self) -> bool;

    /// The requests so far.
    spec fn requests(&self) -> PageRequests;

    /// The frame that holds the page at `offset` of a memory object.
    fn request_page(&mut self, vmo: VmoId, offset: u64) -> (r: Option<u64>)
        requires
            old(self).ready(),
        ensures
            final(self).ready(),
            final(self).requests() == old(self).requests().push((vmo, offset, r)),
    ;
}

/// Memory objects by number, with the frames that they grow by.
pub struct VmoTable<A> {
    pub vmos: Vec<Vmo>,
    pub frames: A,
    pub memory: PhysMemory,
    pub asked: Ghost<PageRequests>,
}

impl<A: FrameAllocator> VmoTable<A> {
    pub fn new(vmos: Vec<Vmo>, frames: A, memory: PhysMemory) -> (r: Self)
        ensures
            r.vmos == vmos,
            r.frames == frames,
            r.memory == memory,
            r.requests() == PageRequests::empty(),
    {
        VmoTable { vmos, frames, memory, asked: Ghost(Seq::empty()) }
    }
}

impl<A: FrameAllocator> VmoSource for VmoTable<A> {
    open spec fn ready(&self) -> bool {
        forall|i: int|
            0 <= i < self.vmos@.len() ==> (#[trigger] self.vmos@[i]).holds(
                self.frames,
                self.memory@,
            )
    }

    open spec fn requests(&self) -> PageRequests {
        self.asked@
    }

    fn request_page(&mut self, vmo: VmoId, offset: u64) -> (r: Option<u64>)
        ensures
            final(self).vmos@.len() == old(self).vmos@.len(),
            vmo.0 >= old(self).vmos@.len() ==> {
                &&& r is None
                &&& final(self).frames == old(self).frames
                &&& final(self).memory@ == old(self).memory@
            },
            forall|i: int|
                0 <= i < old(self).vmos@.len() && i != vmo.0 ==> #[trigger] final(self).vmos@[i]
                    == old(self).vmos@[i],
            vmo.0 < old(self).vmos@.len() ==> {
                let v = old(self).vmos@[vmo.0 as int];
                let w = final(self).vmos@[vmo.0 as int];
                let frames = old(self).frames;
                let frames_after = final(self).frames;
                if offset >= v.size || (v.is_physical && present(v.pages@, offset) is None) {
                    &&& r is None
                    &&& w == v
                    &&& frames_after == frames
                    &&& final(self).memory@ == old(self).memory@
                } else {
                    match present(v.pages@, offset) {
                        Some(frame) => {
                            &&& r == Some(frame)
                            &&& w == v
                            &&& frames_after == frames
                            &&& final(self).memory@ == old(self).memory@
                        },
                        None => r matches Some(frame) && {
                            &&& w.pages@ == v.pages@.insert(offset, frame)
                            &&& w.size == v.size
                            &&& w.is_physical == v.is_physical
                            &&& w.dirty_pages@ == v.dirty_pages@
                            &&& frame != 0 <==> frames.capacity() > 0
                            &&& if frame != 0 {
                                &&& frames.available().contains(frame)
                                &&& frames_after.available() == frames.available().remove(frame)
                                &&& frames_after.capacity() + 1 == frames.capacity()
                                &&& final(self).memory@ == old(self).memory@.insert(
                                    frame,
                                    zero_page(),
                                )
                            } else {
                                &&& frames_after.available() == frames.available()
                                &&& frames_after.capacity() == 0
                                &&& final(self).memory@ == old(self).memory@
                            }
                        },
                    }
                }
            },
    {
        let r = if vmo.0 < self.vmos.len() as u64 {
            let at = vmo.0 as usize;
            match self.vmos[at].request_page(offset, &mut self.frames, &mut self.memory) {
                Ok(frame) => Some(frame),
                Err(()) => None,
            }
        } else {
            None
        };
        proof {
            self.asked@ = self.asked@.push((vmo, offset, r));
        }
        r
    }
}

} // verus!
