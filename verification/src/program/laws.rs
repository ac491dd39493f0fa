//! What holds of a program's segments between its file, its plan and the
//! address space that it is loaded into.

use crate::common::bytes::{le16, le32, le64};
use crate::hal::mmu::pager::Tables;
use crate::memory::file_pages::VfsNode;
use crate::memory::frames::page_bytes;
use crate::memory::range_tree::{disjoint, unoccupied};
use crate::memory::vma::{holds, lemma_normalized, lemma_segment_at, Regions};
use crate::memory::vmm::{fault_target_of, VmaBacking};
use crate::memory::vmm2::types::{PageSize, VmoId};
use crate::memory::vmo::{offset_of, present, FileVmo, Vmo};
use crate::program::parser::{ehdr_of, header_fault, phdr_at, Elf64_Ehdr, Elf64_Phdr};
use crate::program::segment::{page_loaded, with_segment, with_segments};
use crate::program::{
    copies_of, interpreter_of, loaded, mapped, path_in, segment_of, segments_of, until_zero,
    LoaderError, SegmentPlan, SegmentSource,
};
use vstd::prelude::*;
use vstd::utf8::valid_utf8;

verus! {

/// Byte `i` of a segment's part of the file is found at the address that is
/// meant for it: for a segment that is mapped from the file, and for one that
/// is copied from it, the byte lies as far behind the start of the segment as
/// it lies behind the segment's place in the file. The places of a header agree
/// within a page; where it is mapped from the file without that, it still
/// starts at the page of the file that its bytes start in.
pub proof fn law_segment_is_its_part_of_the_file(ph: Elf64_Phdr, load_base: u64, i: int)
    requires
        segment_of(ph, load_base) is Ok,
        load_base as int % 4096 == 0,
        0 <= i < ph.p_filesz,
    ensures
        ({
            let plan = segment_of(ph, load_base)->Ok_0;
            let behind = load_base + ph.p_vaddr + i - plan.vaddr;
            &&& plan.source !is Zeroes
            &&& plan.source is Copy <==> ph.p_filesz < ph.p_memsz || ph.p_flags & 2 != 0
            &&& plan.source matches SegmentSource::File { file_offset } ==> {
                &&& file_offset as int % 4096 == 0
                &&& file_offset <= ph.p_offset < file_offset + 4096
                &&& ph.p_offset as int % 4096 == ph.p_vaddr as int % 4096 ==> file_offset + behind
                    == ph.p_offset + i
                &&& i < ph.p_memsz ==> behind < plan.size
            }
            &&& plan.source matches SegmentSource::Copy { file_offset, copied } ==> {
                &&& ph.p_offset as int % 4096 == ph.p_vaddr as int % 4096
                &&& file_offset + behind == ph.p_offset + i
                &&& behind < copied <= plan.size
                &&& load_base + ph.p_vaddr + ph.p_filesz == plan.vaddr + copied
            }
        }),
{
}

/// A segment lies where its header says, in whole pages and in no more of them
/// than it touches. It can be written and executed exactly if its header says
/// so, and it is empty at first exactly if nothing of it is in the file.
pub proof fn law_segment_lies_where_it_says(ph: Elf64_Phdr, load_base: u64)
    requires
        segment_of(ph, load_base) is Ok,
    ensures
        ({
            let plan = segment_of(ph, load_base)->Ok_0;
            let start = load_base + ph.p_vaddr;
            let end = start + ph.p_memsz;
            &&& plan.vaddr as int % 4096 == 0
            &&& plan.size as int % 4096 == 0
            &&& plan.vaddr <= start < plan.vaddr + 4096
            &&& end <= plan.vaddr + plan.size
            &&& plan.vaddr + plan.size < end + 4096
            &&& plan.writable <==> ph.p_flags & 2 != 0
            &&& plan.executable <==> ph.p_flags & 1 != 0
            &&& plan.source is Zeroes <==> ph.p_filesz == 0
        }),
{
}

/// A header is refused only for a reason: its memory does not fit into the
/// address space, or it is to be copied and its places differ within a page, or
/// it has more bytes in the file than pages for them, or they lie further back
/// than any file goes.
pub proof fn law_segment_is_refused_for_a_reason(ph: Elf64_Phdr, load_base: u64)
    requires
        load_base + ph.p_vaddr + ph.p_memsz + 8192 <= u64::MAX,
        ph.p_offset + ph.p_filesz + 8192 <= u64::MAX,
        ph.p_filesz <= ph.p_memsz,
        load_base as int % 4096 == 0,
    ensures
        segment_of(ph, load_base) is Err <==> {
            &&& ph.p_filesz != 0
            &&& ph.p_filesz < ph.p_memsz || ph.p_flags & 2 != 0
            &&& ph.p_offset as int % 4096 != ph.p_vaddr as int % 4096
        },
        segment_of(ph, load_base) matches Err(fault) ==> fault == LoaderError::FileReadError,
{
}

/// Moving a program by whole pages moves its segments and changes nothing else
/// of them.
pub proof fn law_segments_move_with_their_base(ph: Elf64_Phdr, load_base: u64)
    requires
        segment_of(ph, load_base) is Ok,
        load_base as int % 4096 == 0,
    ensures
        segment_of(ph, 0) matches Ok(plan) && segment_of(ph, load_base)->Ok_0 == (SegmentPlan {
            vaddr: (plan.vaddr + load_base) as u64,
            ..plan
        }),
{
}

/// The type of program header `i`, as it stands in the file.
pub open spec fn type_at(bytes: Seq<u8>, header: Elf64_Ehdr, i: int) -> u32 {
    le32(bytes, header.e_phoff + 56 * i)
}

/// How many of the first `n` program headers are to be loaded.
pub open spec fn loads(bytes: Seq<u8>, header: Elf64_Ehdr, n: int) -> nat
    decreases n,
{
    if n <= 0 {
        0
    } else {
        loads(bytes, header, n - 1) + if type_at(bytes, header, n - 1) == 1 {
            1nat
        } else {
            0
        }
    }
}

/// Every program header that is to be loaded has its segment, in the order of
/// the headers, and there are no other segments. Where one is refused, those
/// before it are there all the same.
pub proof fn law_every_loaded_header_has_its_segment(
    bytes: Seq<u8>,
    header: Elf64_Ehdr,
    load_base: u64,
    n: int,
    k: int,
)
    requires
        0 <= k < n,
    ensures
        ({
            let (plans, fault) = segments_of(bytes, header, load_base, n);
            let place = loads(bytes, header, k) as int;
            let own = segment_of(phdr_at(bytes, header, k), load_base);
            &&& fault is None ==> plans.len() == loads(bytes, header, n)
            &&& plans.len() <= loads(bytes, header, n)
            &&& type_at(bytes, header, k) == 1 && place < plans.len() ==> own
                == Ok::<SegmentPlan, LoaderError>(plans[place])
            &&& type_at(bytes, header, k) == 1 && fault is None ==> place < plans.len()
            &&& type_at(bytes, header, k) == 1 && place == plans.len() && fault is Some ==> own
                == Err::<SegmentPlan, LoaderError>(fault->0)
        }),
    decreases n,
{
    lemma_loads(bytes, header, k, n - 1);
    if k < n - 1 {
        law_every_loaded_header_has_its_segment(bytes, header, load_base, n - 1, k);
        lemma_loads(bytes, header, k + 1, n - 1);
    } else {
        lemma_plans(bytes, header, load_base, n - 1);
    }
}

proof fn lemma_loads(bytes: Seq<u8>, header: Elf64_Ehdr, low: int, high: int)
    requires
        low <= high,
    ensures
        loads(bytes, header, low) <= loads(bytes, header, high),
    decreases high - low,
{
    if low < high {
        lemma_loads(bytes, header, low, high - 1);
    }
}

proof fn lemma_plans(bytes: Seq<u8>, header: Elf64_Ehdr, load_base: u64, n: int)
    ensures
        segments_of(bytes, header, load_base, n).1 is None ==> segments_of(
            bytes,
            header,
            load_base,
            n,
        ).0.len() == loads(bytes, header, n),
        segments_of(bytes, header, load_base, n).1 is Some ==> segments_of(
            bytes,
            header,
            load_base,
            n,
        ).0.len() < loads(bytes, header, n),
    decreases n,
{
    if n > 0 {
        lemma_plans(bytes, header, load_base, n - 1);
    }
}

/// Where a segment has been mapped, a fault at any of its addresses asks the
/// segment's own memory object for the page that lies as far behind the place
/// that the segment starts from as the page of the fault lies behind the start
/// of the segment: for one that is mapped from the file its place in the file,
/// for the others the start of the object.
pub proof fn law_mapped_segment_answers_faults(
    m: Regions<VmaBacking>,
    after: Regions<VmaBacking>,
    plan: SegmentPlan,
    vmo: VmoId,
    a: u64,
)
    requires
        disjoint(m),
        with_segment(m, plan, vmo) == Some(after),
        plan.vaddr <= a < plan.vaddr + plan.size,
        plan.source matches SegmentSource::File { file_offset } ==> file_offset + plan.size
            <= u64::MAX,
        plan.size as int % 4096 == 0,
    ensures
        forall|error_code: u64|
            #![trigger fault_target_of(after, a, error_code)]
            {
                &&& error_code & 0x2 != 0 ==> plan.writable
                &&& error_code & 0x10 != 0 ==> plan.executable
            } ==> (fault_target_of(after, a, error_code) matches Ok(t) && {
                &&& t.vmo == vmo
                &&& t.page == a - a as int % 4096
                &&& t.backing_offset == (match plan.source {
                    SegmentSource::File { file_offset } => file_offset as int,
                    _ => 0,
                }) + (t.page - plan.vaddr)
            }),
        forall|error_code: u64|
            #![trigger fault_target_of(after, a, error_code)]
            error_code & 0x2 != 0 && !plan.writable || error_code & 0x10 != 0 && !plan.executable
                ==> fault_target_of(after, a, error_code) is Err,
{
    lemma_normalized(plan.vaddr, plan.size, PageSize::Size4K);
    lemma_with_segment(m, after, plan, vmo);
    lemma_segment_at(after);
    assert(holds(after, plan.vaddr, a as int));
    lemma_permission_bits();
    assert(after[plan.vaddr].1.permissions.0 == perm_bits(plan.writable, plan.executable));
    assert(plan.vaddr <= a - a as int % 4096);
}

proof fn lemma_with_segment(
    m: Regions<VmaBacking>,
    after: Regions<VmaBacking>,
    plan: SegmentPlan,
    vmo: VmoId,
)
    requires
        disjoint(m),
        with_segment(m, plan, vmo) == Some(after),
    ensures
        disjoint(after),
        plan.vaddr as int % 4096 == 0,
        plan.size as int % 4096 == 0 ==> after.contains_key(plan.vaddr) && after[plan.vaddr].0
            == plan.vaddr + plan.size,
        forall|k: u64| #[trigger] m.contains_key(k) ==> after.contains_key(k) && after[k] == m[k],
{
    lemma_normalized(plan.vaddr, plan.size, PageSize::Size4K);
    let (start, end) = choose|start: u64, end: u64|
        #![trigger unoccupied(m, start, end)]
        start == plan.vaddr && end == after[start].0 && unoccupied(m, start, end);
    assert(unoccupied(m, plan.vaddr, after[plan.vaddr].0));
    assert forall|k: u64| #[trigger] m.contains_key(k) implies k != plan.vaddr by {
        assert(k < m[k].0);
    }
}

proof fn lemma_permission_bits()
    ensures
        forall|w: bool, x: bool|
            #![trigger perm_bits(w, x)]
            {
                let p = perm_bits(w, x);
                &&& (p & 1 == 1) == w
                &&& (p & 2 == 2) == x
                &&& p & 4 == 4
                &&& p & 16 != 16
            },
{
    assert(4u16 & 1 != 1 && 4u16 & 2 != 2 && 4u16 & 4 == 4 && 4u16 & 16 != 16 && (4u16 | 1) & 1 == 1
        && (4u16 | 1) & 2 != 2 && (4u16 | 1) & 4 == 4 && (4u16 | 1) & 16 != 16 && (4u16 | 2) & 1
        != 1 && (4u16 | 2) & 2 == 2 && (4u16 | 2) & 4 == 4 && (4u16 | 2) & 16 != 16 && (4u16 | 1
        | 2) & 1 == 1 && (4u16 | 1 | 2) & 2 == 2 && (4u16 | 1 | 2) & 4 == 4 && (4u16 | 1 | 2) & 16
        != 16 && 4u16 | 0 == 4u16 && (4u16 | 1) | 0 == 4u16 | 1) by (bit_vector);
}

spec fn perm_bits(w: bool, x: bool) -> u16 {
    4u16 | (if w {
        1u16
    } else {
        0
    }) | (if x {
        2u16
    } else {
        0
    })
}

/// Mapping further segments leaves those that are there: each of the segments
/// is answered from its own memory object in the end.
pub proof fn law_all_mapped_segments_answer_faults(
    m: Regions<VmaBacking>,
    after: Regions<VmaBacking>,
    plans: Seq<SegmentPlan>,
    vmos: Seq<VmoId>,
    n: int,
    k: int,
    a: u64,
    error_code: u64,
)
    requires
        disjoint(m),
        with_segments(m, plans, vmos, n) == Some(after),
        0 <= k < n,
        plans[k].vaddr <= a < plans[k].vaddr + plans[k].size,
        plans[k].size as int % 4096 == 0,
        plans[k].source matches SegmentSource::File { file_offset } ==> file_offset
            + plans[k].size <= u64::MAX,
        error_code & 0x2 != 0 ==> plans[k].writable,
        error_code & 0x10 != 0 ==> plans[k].executable,
    ensures
        disjoint(after),
        fault_target_of(after, a, error_code) matches Ok(t) && {
            &&& t.vmo == vmos[k]
            &&& t.page == a - a as int % 4096
            &&& t.backing_offset == (match plans[k].source {
                SegmentSource::File { file_offset } => file_offset as int,
                _ => 0,
            }) + (t.page - plans[k].vaddr)
        },
    decreases n,
{
    let before = with_segments(m, plans, vmos, n - 1)->0;
    lemma_with_segments(m, before, plans, vmos, n - 1);
    lemma_with_segment(before, after, plans[n - 1], vmos[n - 1]);
    if k < n - 1 {
        law_all_mapped_segments_answer_faults(m, before, plans, vmos, n - 1, k, a, error_code);
        lemma_segment_at(before);
        lemma_segment_at(after);
        let s = crate::memory::vma::segment_at(before, a as int)->0;
        assert(before.contains_key(s.start));
        assert(holds(after, s.start, a as int));
    } else {
        law_mapped_segment_answers_faults(before, after, plans[k], vmos[k], a);
    }
}

proof fn lemma_with_segments(
    m: Regions<VmaBacking>,
    after: Regions<VmaBacking>,
    plans: Seq<SegmentPlan>,
    vmos: Seq<VmoId>,
    n: int,
)
    requires
        disjoint(m),
        with_segments(m, plans, vmos, n) == Some(after),
    ensures
        disjoint(after),
    decreases n,
{
    if n > 0 {
        let before = with_segments(m, plans, vmos, n - 1)->0;
        lemma_with_segments(m, before, plans, vmos, n - 1);
        lemma_with_segment(before, after, plans[n - 1], vmos[n - 1]);
    }
}

/// What is loaded of a segment that has pages of its own is what the file has
/// there: byte `x` of it is the byte as far behind the segment's place in the
/// file, and what follows the part that is in the file is zero.
pub proof fn law_loaded_bytes_are_those_of_the_file<N: VfsNode>(
    file: FileVmo,
    node: N,
    memory: Tables,
    vmo: Vmo,
    memory_after: Tables,
    file_offset: u64,
    copied: u64,
    x: int,
)
    requires
        file_offset as int % 4096 == 0,
        0 <= x < (copied + 4095) / 4096 * 4096,
        page_loaded(
            file,
            node,
            memory,
            vmo,
            memory_after,
            copied,
            file_offset as int / 4096 + x / 4096,
            x / 4096,
        ),
        forall|k: u64|
            (#[trigger] file.page(node, memory, k)) matches Some(bytes) ==> bytes.len() == 4096,
    ensures
        ({
            let at = file_offset + x;
            let source = file.page(node, memory, (at / 4096 * 4096) as u64);
            let frame = present(vmo.pages@, (x / 4096 * 4096) as u64);
            &&& source is Some && frame is Some
            &&& page_bytes(memory_after[frame->0])[x % 4096] == if x < copied {
                source->0[at % 4096]
            } else {
                0
            }
        }),
{
    let at = file_offset + x;
    assert(at / 4096 == file_offset as int / 4096 + x / 4096);
    assert(at % 4096 == x % 4096);
    assert(offset_of(at / 4096) == (at / 4096 * 4096) as u64);
    assert(offset_of(x / 4096) == (x / 4096 * 4096) as u64);
}

/// The interpreter that a program asks for is named by one of its program
/// headers of that type: its path stands in the file where the header says, up
/// to the first zero or the end of the header's part, and is text.
pub proof fn law_interpreter_path_stands_in_the_file(
    bytes: Seq<u8>,
    header: Elf64_Ehdr,
    n: int,
)
    ensures
        interpreter_of(bytes, header, n) matches Some(path) ==> exists|k: int|
            0 <= k < n && #[trigger] names_interpreter(bytes, header, k, path),
        interpreter_of(bytes, header, n) is None ==> forall|k: int, path: Seq<u8>|
            0 <= k < n ==> !(#[trigger] names_interpreter(bytes, header, k, path)),
    decreases n,
{
    if n > 0 {
        law_interpreter_path_stands_in_the_file(bytes, header, n - 1);
        let ph = phdr_at(bytes, header, n - 1);
        let raw = bytes.subrange(ph.p_offset as int, ph.p_offset + ph.p_filesz);
        if ph.p_type == 3 && ph.p_offset + ph.p_filesz <= bytes.len() {
            lemma_until_zero(raw, 0);
            let own = raw.take(until_zero(raw, 0));
            assert(own =~= bytes.subrange(ph.p_offset as int, ph.p_offset + own.len()));
            assert(own.len() < ph.p_filesz ==> raw[own.len() as int] == 0);
            assert forall|i: int| 0 <= i < own.len() implies own[i] != 0 by {
                assert(raw[i] != 0);
            }
            if valid_utf8(own) {
                assert(names_interpreter(bytes, header, n - 1, own));
            }
            assert forall|path: Seq<u8>| #[trigger]
                names_interpreter(bytes, header, n - 1, path) implies path == own by {
                let len = path.len() as int;
                if len < own.len() {
                    assert(raw[len] == bytes[ph.p_offset + len]);
                    assert(own[len] != 0);
                } else if len > own.len() {
                    assert(path[own.len() as int] == raw[own.len() as int]);
                }
                assert(path =~= own);
            }
        }
        if let Some(path) = interpreter_of(bytes, header, n) {
            if path_in(bytes, ph) is None {
                let k = choose|k: int|
                    0 <= k < n - 1 && #[trigger] names_interpreter(bytes, header, k, path);
                assert(names_interpreter(bytes, header, k, path));
            }
        }
    }
}

/// Program header `k` names an interpreter.
pub open spec fn names_interpreter(
    bytes: Seq<u8>,
    header: Elf64_Ehdr,
    k: int,
    path: Seq<u8>,
) -> bool {
    let at = header.e_phoff + 56 * k;
    let start = le64(bytes, at + 8) as int;
    let len = le64(bytes, at + 32) as int;
    &&& le32(bytes, at) == 3
    &&& start + len <= bytes.len()
    &&& path.len() <= len
    &&& path == bytes.subrange(start, start + path.len())
    &&& forall|i: int| 0 <= i < path.len() ==> #[trigger] path[i] != 0
    &&& path.len() < len ==> bytes[start + path.len()] == 0
    &&& valid_utf8(path)
}

proof fn lemma_until_zero(bytes: Seq<u8>, i: int)
    requires
        0 <= i <= bytes.len(),
    ensures
        i <= until_zero(bytes, i) <= bytes.len(),
        forall|j: int| i <= j < until_zero(bytes, i) ==> #[trigger] bytes[j] != 0,
        until_zero(bytes, i) < bytes.len() ==> bytes[until_zero(bytes, i)] == 0,
    decreases bytes.len() - i,
{
    if i < bytes.len() && bytes[i] != 0 {
        lemma_until_zero(bytes, i + 1);
    }
}

/// A program that could be loaded starts where its file says, or where that of
/// its interpreter says when it has one, which lies at a place of its own. Its
/// own segments lie at the addresses that its headers give.
pub proof fn law_loaded_program_starts_where_it_says(
    bytes: Seq<u8>,
    interpreter: Option<Seq<u8>>,
)
    ensures
        loaded(bytes, interpreter) matches (own, more, Ok(result)) ==> {
            &&& bytes.len() >= 64
            &&& le32(bytes, 0) == 0x464C_457F
            &&& le16(bytes, 18) == 0x3E
            &&& result.entry_point == le64(bytes, 24)
            &&& result.phnum == le16(bytes, 56)
            &&& own == mapped(bytes, ehdr_of(bytes), 0).0
            &&& match result.interpreter_entry {
                None => result.base_addr == 0 && more.len() == 0 && interpreter_of(
                    bytes,
                    ehdr_of(bytes),
                    le16(bytes, 56) as int,
                ) is None,
                Some(entry) => {
                    &&& interpreter is Some
                    &&& result.base_addr > 0
                    &&& entry == result.base_addr + le64(interpreter->0, 24)
                    &&& more == mapped(
                        interpreter->0,
                        ehdr_of(interpreter->0),
                        result.base_addr,
                    ).0
                    &&& interpreter_of(bytes, ehdr_of(bytes), le16(bytes, 56) as int) is Some
                },
            }
        },
{
}

/// Every byte that is to be copied is in one of the pages that are, at the same
/// distance from the start of the segment as from the start of its part of the
/// file. No page is copied twice, and none that holds no such byte.
pub proof fn law_every_page_is_copied(file_offset: u64, copied: u64, b: u64, i: int)
    requires
        file_offset + copied + 4096 <= u64::MAX,
        b < copied,
        0 <= i < copies_of(file_offset, copied).len(),
    ensures
        ({
            let copies = copies_of(file_offset, copied);
            &&& exists|k: int|
                0 <= k < copies.len() && (#[trigger] copies[k]).target_offset <= b
                    < copies[k].target_offset + 4096
            &&& copies[i].file_offset == file_offset + copies[i].target_offset
            &&& copies[i].target_offset < copied
            &&& copies[i].target_offset as int % 4096 == 0
            &&& i > 0 ==> copies[i - 1].target_offset < copies[i].target_offset
        }),
{
    let copies = copies_of(file_offset, copied);
    let k = b as int / 4096;
    assert(copies[k].target_offset == k * 4096);
}

/// A file is taken for a program that can be loaded exactly if it begins with
/// the mark of one and says that it is one of 64 bits, with the lower bytes
/// first, for this system and this machine, and that it is to be loaded where it
/// says or anywhere.
pub proof fn law_header_is_accepted(s: Seq<u8>)
    ensures
        header_fault(s) is None <==> {
            &&& s.len() >= 64
            &&& s[0] == 0x7F && s[1] == 0x45 && s[2] == 0x4C && s[3] == 0x46
            &&& s[4] == 2
            &&& s[5] == 1
            &&& s[7] == 0
            &&& (s[16] == 2 || s[16] == 3) && s[17] == 0
            &&& s[18] == 62 && s[19] == 0
        },
        s.len() < 64 ==> header_fault(s) == Some(LoaderError::InvalidBuffer),
{
}

/// The fields of the header of a program's file.
pub proof fn law_file_header_lies_in_its_bytes(s: Seq<u8>)
    ensures
        ({
            let header = ehdr_of(s);
            &&& header.e_type == le16(s, 16)
            &&& header.e_entry == le64(s, 24)
            &&& header.e_phoff == le64(s, 32)
            &&& header.e_phentsize == le16(s, 54)
            &&& header.e_phnum == le16(s, 56)
        }),
{
}

/// The program headers follow one another, 56 bytes each, from the place that
/// the file's header gives. Each tells its type and flags, where its bytes are
/// in the file and in memory, and how many there are in both.
pub proof fn law_program_headers_lie_in_their_table(s: Seq<u8>, header: Elf64_Ehdr, i: int)
    ensures
        ({
            let ph = phdr_at(s, header, i);
            let at = header.e_phoff + 56 * i;
            &&& ph.p_type == le32(s, at)
            &&& ph.p_flags == le32(s, at + 4)
            &&& ph.p_offset == le64(s, at + 8)
            &&& ph.p_vaddr == le64(s, at + 16)
            &&& ph.p_filesz == le64(s, at + 32)
            &&& ph.p_memsz == le64(s, at + 40)
        }),
{
}

} // verus!
