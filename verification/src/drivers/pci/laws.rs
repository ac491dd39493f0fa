//! What the configuration space of a function tells of its interrupts.

use crate::drivers::pci::config::{
    cap_id, cap_next, control_offset, enabled, find_cap, first_cap, half, law_half_reads_back,
    msix_of, pages_around, with_msix_on, word_of, CAPABILITY_LIMIT,
};
use vstd::prelude::*;

verus! {

/// Byte `i` of a configuration space.
pub open spec fn byte_at(config: Seq<u32>, i: int) -> int {
    let word = config[i / 4] as int;
    if i % 4 == 0 {
        word % 256
    } else if i % 4 == 1 {
        word / 256 % 256
    } else if i % 4 == 2 {
        word / 65536 % 256
    } else {
        word / 16777216
    }
}

/// Where capability `k` of a function is, counted from zero: the first is where
/// byte 0x34 says, and each tells in its second byte where the next one is.
pub open spec fn place_of(config: Seq<u32>, k: nat) -> int
    decreases k,
{
    if k == 0 {
        byte_at(config, 0x34)
    } else {
        let last = place_of(config, (k - 1) as nat);
        byte_at(config, last - last % 4 + 1)
    }
}

/// Capability `k` is there, and so are all before it. None of these is one for
/// MSI-X.
pub open spec fn reached(config: Seq<u32>, k: nat) -> bool {
    &&& place_of(config, k) != 0
    &&& forall|j: nat|
        j < k ==> {
            let last = #[trigger] place_of(config, j);
            last != 0 && byte_at(config, last - last % 4) != 0x11
        }
}

/// Capability `k` is one for MSI-X.
pub open spec fn is_msix(config: Seq<u32>, k: nat) -> bool {
    let at = place_of(config, k);
    byte_at(config, at - at % 4) == 0x11
}

pub proof fn lemma_place(config: Seq<u32>, ptr: u8)
    ensures
        byte_at(config, ptr - ptr as int % 4) == cap_id(config, ptr),
        byte_at(config, ptr - ptr as int % 4 + 1) == cap_next(config, ptr),
        byte_at(config, 0x34) == first_cap(config),
{
    let base = ptr - ptr as int % 4;
    assert(base / 4 == word_of(ptr) && (base + 1) / 4 == word_of(ptr));
    assert(base % 4 == 0 && (base + 1) % 4 == 1);
}

proof fn lemma_found(config: Seq<u32>, ptr: u8, k: nat)
    requires
        k <= CAPABILITY_LIMIT,
        place_of(config, k) == ptr,
        forall|j: nat|
            j < k ==> {
                let last = #[trigger] place_of(config, j);
                last != 0 && byte_at(config, last - last % 4) != 0x11
            },
    ensures
        match find_cap(config, ptr, 0x11, (CAPABILITY_LIMIT - k) as nat) {
            Some(at) => exists|n: nat|
                n < CAPABILITY_LIMIT && #[trigger] reached(config, n) && is_msix(config, n)
                    && place_of(config, n) == at,
            None => forall|n: nat|
                n < CAPABILITY_LIMIT && #[trigger] reached(config, n) ==> !is_msix(config, n),
        },
    decreases CAPABILITY_LIMIT - k,
{
    lemma_place(config, ptr);
    if k < CAPABILITY_LIMIT && ptr != 0 {
        assert(reached(config, k));
        if cap_id(config, ptr) != 0x11 {
            assert(place_of(config, k + 1) == cap_next(config, ptr));
            lemma_found(config, cap_next(config, ptr), k + 1);
        }
    }
    if find_cap(config, ptr, 0x11, (CAPABILITY_LIMIT - k) as nat) is None {
        assert forall|n: nat| n < CAPABILITY_LIMIT && #[trigger] reached(config, n) implies !is_msix(
            config,
            n,
        ) by {
            if n < k {
                assert(place_of(config, n) != 0);
            } else if n > k {
                assert(place_of(config, k) != 0);
            }
        }
    }
}

/// The MSI-X capability of a function is the first of its kind in the list that
/// the function has, if it says that it has one. There is none if the list has
/// none.
pub proof fn law_msix_is_found_in_the_list(config: Seq<u32>)
    ensures
        config[1] as int / 0x10_0000 % 2 == 0 ==> msix_of(config) is None,
        msix_of(config) matches Some(cap) ==> exists|n: nat|
            n < 256 && #[trigger] reached(config, n) && is_msix(config, n) && place_of(config, n)
                == cap.cap_offset,
        config[1] as int / 0x10_0000 % 2 == 1 && msix_of(config) is None ==> forall|n: nat|
            n < 256 && #[trigger] reached(config, n) ==> !is_msix(config, n),
{
    lemma_place(config, first_cap(config));
    lemma_found(config, first_cap(config), 0);
}

/// The MSI-X capability tells how many entries its table has, less one, in the
/// lower eleven bits of its control, which stands two bytes behind its start.
/// In the word behind that it tells which memory the table is in, in the lowest
/// three bits, and where in it, in the others.
pub proof fn law_msix_tells_its_table(config: Seq<u32>)
    requires
        msix_of(config) is Some,
        (msix_of(config)->0).cap_offset as int % 4 == 0,
        (msix_of(config)->0).cap_offset <= 248,
    ensures
        ({
            let cap = msix_of(config)->0;
            let at = cap.cap_offset as int;
            &&& cap.entries == (byte_at(config, at + 2) + 256 * byte_at(config, at + 3)) % 2048 + 1
            &&& cap.bir == byte_at(config, at + 4) % 8
            &&& cap.bir + cap.table_offset == config[at / 4 + 1]
            &&& cap.table_offset as int % 8 == 0
        }),
{
    let cap = msix_of(config)->0;
    let at = cap.cap_offset as int;
    assert(word_of(((at + 4) % 256) as u8) == at / 4 + 1);
    assert(word_of(control_offset(cap.cap_offset)) == at / 4);
    assert((at + 2) / 4 == at / 4 && (at + 3) / 4 == at / 4 && (at + 4) / 4 == at / 4 + 1);
    assert((at + 2) % 4 == 2 && (at + 3) % 4 == 3 && (at + 4) % 4 == 0);
}

/// Enabling MSI-X sets the topmost bit of the control and clears the one below,
/// by which all entries are masked. The rest of the control and every other
/// word stay, and so does the other half of the word.
pub proof fn law_msix_is_switched_on(config: Seq<u32>, at: u8, i: int, other: u8)
    requires
        config.len() == 64,
        0 <= i < 64,
    ensures
        ({
            let after = with_msix_on(config, at);
            let was = half(config[at as int / 4], at);
            let is = half(after[at as int / 4], at);
            &&& after.len() == 64
            &&& is >= 0x8000
            &&& is as int / 0x4000 % 2 == 0
            &&& is as int % 0x4000 == was as int % 0x4000
            &&& i != at as int / 4 ==> after[i] == config[i]
            &&& (at as int % 4 >= 2) != (other as int % 4 >= 2) ==> half(
                after[at as int / 4],
                other,
            ) == half(config[at as int / 4], other)
        }),
{
    let word = config[word_of(at)];
    law_half_reads_back(word, at, enabled(half(word, at)), other);
}

/// The pages that are mapped for some bytes hold all of these, and each of them
/// holds one at least. They follow one another.
pub proof fn law_pages_hold_all_the_bytes(start: int, len: int, b: int, i: int)
    requires
        0 <= start,
        len > 0,
        start + len <= u64::MAX,
        start <= b < start + len,
        0 <= i < pages_around(start, len).len(),
    ensures
        ({
            let pages = pages_around(start, len);
            &&& exists|k: int| 0 <= k < pages.len() && #[trigger] pages[k] <= b < pages[k] + 4096
            &&& pages[i] as int % 4096 == 0
            &&& pages[i] < start + len && start < pages[i] + 4096
            &&& i > 0 ==> pages[i] == pages[i - 1] + 4096
        }),
{
    let pages = pages_around(start, len);
    let k = b / 4096 - start / 4096;
    assert(pages[k] == b / 4096 * 4096);
    assert((start / 4096 + i) * 4096 <= start + len - 1);
    assert(pages[i] == (start / 4096 + i) * 4096);
}

} // verus!
