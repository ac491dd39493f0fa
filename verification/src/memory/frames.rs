//! Frames of physical memory as pages of bytes.

use crate::common::bytes::{bytes64, get64, law_get_put64, le64, to_bytes64};
use crate::hal::mmu::pager::PhysMemory;
use vstd::prelude::*;

verus! {

/// The bytes of a page.
pub open spec fn page_bytes(words: Seq<u64>) -> Seq<u8> {
    Seq::new(4096, |k: int| bytes64(words[k / 8])[k % 8])
}

/// The words of a page of bytes.
pub open spec fn page_words(bytes: Seq<u8>) -> Seq<u64> {
    Seq::new(512, |i: int| le64(bytes, 8 * i))
}

/// A page that starts with `bytes` and is zero after them.
pub open spec fn filled_up(bytes: Seq<u8>) -> Seq<u8> {
    Seq::new(
        4096,
        |k: int|
            if k < bytes.len() {
                bytes[k]
            } else {
                0
            },
    )
}

/// Bytes come back from a page as they were put into it.
pub proof fn law_page_reads_back(bytes: Seq<u8>)
    requires
        bytes.len() == 4096,
    ensures
        page_bytes(page_words(bytes)) == bytes,
{
    assert forall|k: int| 0 <= k < 4096 implies #[trigger] page_bytes(page_words(bytes))[k]
        == bytes[k] by {
        let i = k / 8;
        law_get_put64(bytes, 8 * i);
        assert(bytes64(le64(bytes, 8 * i))[k % 8] == bytes.subrange(8 * i, 8 * i + 8)[k % 8]);
    }
    assert(page_bytes(page_words(bytes)) =~= bytes);
}

/// The bytes of a frame.
pub fn read_frame(memory: &PhysMemory, phys: u64) -> (r: Vec<u8>)
    requires
        memory@.contains_key(phys),
    ensures
        r@ == page_bytes(memory@[phys]),
{
    proof {
        memory.lemma_has();
    }
    let table = memory.table(phys);
    let mut out: Vec<u8> = Vec::new();
    let mut i: usize = 0;
    while i < 512
        invariant
            i <= 512,
            table@ == memory@[phys],
            out@ =~= page_bytes(table@).take(8 * i),
        decreases 512 - i,
    {
        let bytes = to_bytes64(table.word(i));
        let ghost all = page_bytes(table@);
        let mut j: usize = 0;
        while j < 8
            invariant
                i < 512,
                j <= 8,
                bytes@ == bytes64(table@[i as int]),
                all == page_bytes(table@),
                out@ =~= all.take(8 * i + j),
            decreases 8 - j,
        {
            assert(all[8 * i + j] == bytes@[j as int]) by {
                assert((8 * i + j) / 8 == i && (8 * i + j) % 8 == j);
            }
            out.push(bytes[j]);
            j += 1;
        }
        i += 1;
    }
    assert(page_bytes(table@).take(4096) =~= page_bytes(table@));
    out
}

/// Writes a page of bytes over a frame.
pub fn write_frame(memory: &mut PhysMemory, phys: u64, bytes: &Vec<u8>)
    requires
        old(memory)@.contains_key(phys),
        bytes@.len() == 4096,
    ensures
        final(memory)@ == old(memory)@.insert(phys, page_words(bytes@)),
{
    proof {
        memory.lemma_has();
    }
    let table = memory.table_mut(phys);
    proof {
        table.lemma_len();
    }
    let mut i: usize = 0;
    let ghost words = page_words(bytes@);
    while i < 512
        invariant
            i <= 512,
            bytes@.len() == 4096,
            words == page_words(bytes@),
            table@.len() == 512,
            forall|j: int| 0 <= j < i ==> #[trigger] table@[j] == words[j],
        decreases 512 - i,
    {
        table.set_word(i, get64(bytes, 8 * i));
        i += 1;
    }
    assert(table@ =~= words);
}

} // verus!
