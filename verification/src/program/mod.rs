//! Programs in ELF files.

pub mod header;
pub mod laws;
pub mod parser;
pub mod segment;

use crate::common::bytes::copy_bytes;
use crate::common::text::is_utf8;
use crate::memory::vmm2::types::VmPermissions;
use crate::program::parser::{
    ehdr_of, header_fault, phdr_at, table_fits, Elf64_Ehdr, Elf64_Phdr, PF_W, PF_X, PT_INTERP,
    PT_LOAD, PT_PHDR,
};
use vstd::prelude::*;
use vstd::utf8::valid_utf8;

verus! {

#[derive(Debug, Clone, Copy, PartialEq, Eq, Structural)]
pub enum LoaderError {
    InvalidBuffer,
    InvalidMagicNumbers,
    NotAWashingMachine,
    Not64BitElf,
    UnsupportedElfType(u16),
    UnsupportedArch(u16),
    UnsupportedABI(u8),
    FileReadError,
}

/// Where a program's interpreter is loaded.
pub const INTERPRETER_BASE: u64 = 0x40_0000_0000;

#[derive(Debug, Clone, Copy, PartialEq, Eq, Structural)]
pub struct ElfLoadResult {
    pub entry_point: u64,
    pub phdr_addr: u64,
    pub phnum: u64,
    pub base_addr: u64,
    pub interpreter_entry: Option<u64>,
}

/// Where the bytes of a segment come from.
#[derive(Debug, Clone, Copy, PartialEq, Eq, Structural)]
pub enum SegmentSource {
    /// Fresh pages.
    Zeroes,
    /// Fresh pages, of which the first `copied` bytes are those of the file
    /// from `file_offset` on.
    Copy { file_offset: u64, copied: u64 },
    /// The pages of the file from an offset on.
    File { file_offset: u64 },
}

/// A segment to be mapped.
#[derive(Debug, Clone, Copy, PartialEq, Eq, Structural)]
pub struct SegmentPlan {
    pub vaddr: u64,
    pub size: u64,
    pub writable: bool,
    pub executable: bool,
    pub source: SegmentSource,
}

pub open spec fn flag(flags: u32, mask: u32) -> bool {
    flags & mask != 0
}

/// How a program header that is loaded is mapped. It is refused where it does
/// not fit into the address space. Where bytes are copied, it is also refused
/// if they would come from another place in a page than the one they go to, if
/// they reach past the pages of the segment, or if they stand further back in
/// the file than any file goes.
pub open spec fn segment_of(ph: Elf64_Phdr, load_base: u64) -> Result<SegmentPlan, LoaderError> {
    let start = load_base + ph.p_vaddr;
    let inner = start % 4096;
    let size = (inner + ph.p_memsz + 4095) / 4096 * 4096;
    if start > u64::MAX || inner + ph.p_memsz + 4095 > u64::MAX {
        Err(LoaderError::FileReadError)
    } else {
        let copies = ph.p_memsz > ph.p_filesz || flag(ph.p_flags, PF_W);
        let file_offset = (ph.p_offset - ph.p_offset as int % 4096) as u64;
        if ph.p_filesz != 0 && copies && (ph.p_vaddr as int % 4096 != ph.p_offset as int % 4096
            || inner + ph.p_filesz > size || file_offset + inner + ph.p_filesz + 4096 > u64::MAX) {
            Err(LoaderError::FileReadError)
        } else {
            Ok(
                SegmentPlan {
                    vaddr: (start - inner) as u64,
                    size: size as u64,
                    writable: flag(ph.p_flags, PF_W),
                    executable: flag(ph.p_flags, PF_X),
                    source: if ph.p_filesz == 0 {
                        SegmentSource::Zeroes
                    } else if copies {
                        SegmentSource::Copy { file_offset, copied: (inner + ph.p_filesz) as u64 }
                    } else {
                        SegmentSource::File { file_offset }
                    },
                },
            )
        }
    }
}

/// What is copied fits into the segment, and its pages have their places in the
/// file.
pub open spec fn copies_fit(plan: SegmentPlan) -> bool {
    &&& plan.size as int % 4096 == 0
    &&& plan.source matches SegmentSource::Copy { file_offset, copied } ==> {
        &&& 0 < copied <= plan.size
        &&& file_offset as int % 4096 == 0
        &&& file_offset + copied + 4096 <= u64::MAX
    }
}

/// Whatever is planned for a program header can be carried out: what is copied
/// fits.
pub proof fn law_copies_fit_their_segment(ph: Elf64_Phdr, load_base: u64)
    ensures
        segment_of(ph, load_base) matches Ok(plan) ==> copies_fit(plan),
{
}

fn plan_segment(ph: &Elf64_Phdr, load_base: u64) -> (r: Result<SegmentPlan, LoaderError>)
    ensures
        r == segment_of(*ph, load_base),
{
    let start = match load_base.checked_add(ph.p_vaddr) {
        Some(start) => start,
        None => {
            return Err(LoaderError::FileReadError);
        },
    };
    let inner = start % 4096;
    let rounded = match ph.p_memsz.checked_add(inner + 4095) {
        Some(rounded) => rounded,
        None => {
            return Err(LoaderError::FileReadError);
        },
    };
    let writable = (ph.p_flags & PF_W) != 0;
    let executable = (ph.p_flags & PF_X) != 0;
    let file_offset = ph.p_offset - ph.p_offset % 4096;
    let source = if ph.p_filesz == 0 {
        SegmentSource::Zeroes
    } else if ph.p_memsz > ph.p_filesz || writable {
        if ph.p_vaddr % 4096 != ph.p_offset % 4096 {
            return Err(LoaderError::FileReadError);
        }
        let size = rounded / 4096 * 4096;
        if ph.p_filesz > size || inner > size - ph.p_filesz {
            return Err(LoaderError::FileReadError);
        }
        let copied = inner + ph.p_filesz;
        if copied > u64::MAX - 4096 || file_offset > u64::MAX - 4096 - copied {
            return Err(LoaderError::FileReadError);
        }
        SegmentSource::Copy { file_offset, copied }
    } else {
        SegmentSource::File { file_offset }
    };
    Ok(
        SegmentPlan {
            vaddr: start - inner,
            size: rounded / 4096 * 4096,
            writable,
            executable,
            source,
        },
    )
}

/// The permissions that a segment is mapped with.
pub fn segment_permissions(plan: &SegmentPlan) -> (r: VmPermissions)
    ensures
        r == VmPermissions(
            VmPermissions::USER | (if plan.writable {
                VmPermissions::WRITE
            } else {
                0
            }) | (if plan.executable {
                VmPermissions::EXECUTE
            } else {
                0
            }),
        ),
{
    let writable: u16 = if plan.writable {
        VmPermissions::WRITE
    } else {
        0
    };
    let executable: u16 = if plan.executable {
        VmPermissions::EXECUTE
    } else {
        0
    };
    VmPermissions(VmPermissions::USER | writable | executable)
}

/// One page that is copied from the file into a segment.
#[derive(Debug, Clone, Copy, PartialEq, Eq, Structural)]
pub struct PageCopy {
    pub file_offset: u64,
    pub target_offset: u64,
}

/// The pages that are copied for a segment: all that hold some of its first
/// `copied` bytes.
pub open spec fn copies_of(file_offset: u64, copied: u64) -> Seq<PageCopy> {
    Seq::new(
        ((copied + 4095) / 4096) as nat,
        |i: int|
            PageCopy {
                file_offset: (file_offset + i * 4096) as u64,
                target_offset: (i * 4096) as u64,
            },
    )
}

/// The pages that are copied from the file into a segment.
pub fn page_copies(file_offset: u64, copied: u64) -> (r: Vec<PageCopy>)
    requires
        file_offset + copied + 4096 <= u64::MAX,
    ensures
        r@ == copies_of(file_offset, copied),
{
    let mut out: Vec<PageCopy> = Vec::new();
    let mut progress: u64 = 0;
    while progress < copied
        invariant
            progress as int % 4096 == 0,
            progress < copied + 4096,
            file_offset + copied + 4096 <= u64::MAX,
            out@ =~= copies_of(file_offset, copied).take(progress as int / 4096),
        decreases copied + 4096 - progress,
    {
        out.push(PageCopy { file_offset: file_offset + progress, target_offset: progress });
        progress = progress + 4096;
    }
    assert(out@ =~= copies_of(file_offset, copied));
    out
}

/// The bytes of the last page that is copied which do not belong to the
/// segment's part of the file, and are cleared: its offset, where they start,
/// and how many they are.
pub fn cleared_tail(copied: u64) -> (r: Option<(u64, u64, u64)>)
    ensures
        r == if copied as int % 4096 == 0 {
            None
        } else {
            Some(
                (
                    (copied - copied as int % 4096) as u64,
                    (copied as int % 4096) as u64,
                    (4096 - copied as int % 4096) as u64,
                ),
            )
        },
{
    let inner = copied % 4096;
    if inner == 0 {
        None
    } else {
        Some((copied - inner, inner, 4096 - inner))
    }
}

/// The segments among the first `n` program headers, up to the first that is
/// refused.
pub open spec fn segments_of(bytes: Seq<u8>, header: Elf64_Ehdr, load_base: u64, n: int) -> (
    Seq<SegmentPlan>,
    Option<LoaderError>,
)
    decreases n,
{
    if n <= 0 {
        (Seq::empty(), None)
    } else {
        let ph = phdr_at(bytes, header, n - 1);
        match segments_of(bytes, header, load_base, n - 1) {
            (plans, None) => if ph.p_type == PT_LOAD {
                match segment_of(ph, load_base) {
                    Ok(plan) => (plans.push(plan), None),
                    Err(fault) => (plans, Some(fault)),
                }
            } else {
                (plans, None)
            },
            stopped => stopped,
        }
    }
}

/// The address of the program headers that the last header of that type among
/// the first `n` gives, zero if there is none.
pub open spec fn stated_phdr(bytes: Seq<u8>, header: Elf64_Ehdr, n: int) -> u64
    decreases n,
{
    if n <= 0 {
        0
    } else if phdr_at(bytes, header, n - 1).p_type == PT_PHDR {
        phdr_at(bytes, header, n - 1).p_vaddr
    } else {
        stated_phdr(bytes, header, n - 1)
    }
}

/// The first program header from `i` on that loads the start of the file.
pub open spec fn first_load(bytes: Seq<u8>, header: Elf64_Ehdr, i: int) -> Option<int>
    decreases header.e_phnum - i,
{
    if i < 0 || i >= header.e_phnum {
        None
    } else {
        let ph = phdr_at(bytes, header, i);
        if ph.p_type == PT_LOAD && ph.p_offset == 0 {
            Some(i)
        } else {
            first_load(bytes, header, i + 1)
        }
    }
}

/// The address of the program headers in memory, zero if none is known.
pub open spec fn phdr_addr_of(bytes: Seq<u8>, header: Elf64_Ehdr) -> int {
    let stated = stated_phdr(bytes, header, header.e_phnum as int);
    if stated != 0 {
        stated as int
    } else {
        match first_load(bytes, header, 0) {
            Some(i) => phdr_at(bytes, header, i).p_vaddr + header.e_phoff,
            None => 0,
        }
    }
}

/// The segments that are mapped of a program, and the address of its program
/// headers or what went wrong.
pub open spec fn mapped(bytes: Seq<u8>, header: Elf64_Ehdr, load_base: u64) -> (
    Seq<SegmentPlan>,
    Result<u64, LoaderError>,
) {
    let (segments, fault) = segments_of(bytes, header, load_base, header.e_phnum as int);
    let addr = phdr_addr_of(bytes, header);
    if !table_fits(bytes, header) {
        (Seq::empty(), Err(LoaderError::InvalidBuffer))
    } else {
        (
            segments,
            match fault {
                Some(fault) => Err(fault),
                None => if addr > u64::MAX {
                    Err(LoaderError::FileReadError)
                } else {
                    Ok(addr as u64)
                },
            },
        )
    }
}

/// The segments of a program and the address of its program headers.
pub struct SegmentMap {
    pub segments: Vec<SegmentPlan>,
    pub phdr_addr: Result<u64, LoaderError>,
}

/// Plans how the segments of a program are mapped. Where one of them is
/// refused, those before it are mapped all the same.
pub fn map_elf_segments(header: &Elf64_Ehdr, file_bytes: &Vec<u8>, load_base: u64) -> (r: SegmentMap)
    ensures
        (r.segments@, r.phdr_addr) == mapped(file_bytes@, *header, load_base),
        forall|i: int| 0 <= i < r.segments@.len() ==> copies_fit(#[trigger] r.segments@[i]),
{
    let mut segments: Vec<SegmentPlan> = Vec::new();
    if !header.table_in(file_bytes) {
        return SegmentMap { segments, phdr_addr: Err(LoaderError::InvalidBuffer) };
    }
    let count = header.e_phnum as usize;
    let mut phdr_addr: u64 = 0;
    let mut i: usize = 0;
    while i < count
        invariant
            i <= count,
            count == header.e_phnum,
            table_fits(file_bytes@, *header),
            segments_of(file_bytes@, *header, load_base, i as int) == (
                segments@,
                None::<LoaderError>,
            ),
            phdr_addr == stated_phdr(file_bytes@, *header, i as int),
            forall|j: int| 0 <= j < segments@.len() ==> copies_fit(#[trigger] segments@[j]),
        decreases count - i,
    {
        let ph = header.prog_header(file_bytes, i);
        if ph.p_type == PT_PHDR {
            phdr_addr = ph.p_vaddr;
        }
        if ph.p_type == PT_LOAD {
            match plan_segment(&ph, load_base) {
                Ok(plan) => {
                    proof {
                        law_copies_fit_their_segment(ph, load_base);
                    }
                    segments.push(plan);
                },
                Err(fault) => {
                    proof {
                        lemma_stops(
                            file_bytes@,
                            *header,
                            load_base,
                            i + 1,
                            header.e_phnum as int,
                        );
                    }
                    return SegmentMap { segments, phdr_addr: Err(fault) };
                },
            }
        }
        i += 1;
    }
    if phdr_addr == 0 {
        return SegmentMap { segments, phdr_addr: header.loaded_at(file_bytes) };
    }
    SegmentMap { segments, phdr_addr: Ok(phdr_addr) }
}

proof fn lemma_stops(bytes: Seq<u8>, header: Elf64_Ehdr, load_base: u64, i: int, n: int)
    requires
        i <= n,
        segments_of(bytes, header, load_base, i).1 is Some,
    ensures
        segments_of(bytes, header, load_base, n) == segments_of(bytes, header, load_base, i),
    decreases n,
{
    if i < n {
        lemma_stops(bytes, header, load_base, i, n - 1);
    }
}

impl Elf64_Ehdr {
    /// The address at which the program headers come to lie with the first
    /// segment.
    fn loaded_at(&self, bytes: &Vec<u8>) -> (r: Result<u64, LoaderError>)
        requires
            table_fits(bytes@, *self),
        ensures
            match first_load(bytes@, *self, 0) {
                None => r == Ok::<u64, LoaderError>(0),
                Some(i) => {
                    let addr = phdr_at(bytes@, *self, i).p_vaddr + self.e_phoff;
                    r == if addr > u64::MAX {
                        Err(LoaderError::FileReadError)
                    } else {
                        Ok(addr as u64)
                    }
                },
            },
    {
        let mut i: usize = 0;
        while i < self.e_phnum as usize
            invariant
                i <= self.e_phnum,
                table_fits(bytes@, *self),
                first_load(bytes@, *self, 0) == first_load(bytes@, *self, i as int),
            decreases self.e_phnum - i,
        {
            let ph = self.prog_header(bytes, i);
            if ph.p_type == PT_LOAD && ph.p_offset == 0 {
                return match ph.p_vaddr.checked_add(self.e_phoff) {
                    Some(addr) => Ok(addr),
                    None => Err(LoaderError::FileReadError),
                };
            }
            i += 1;
        }
        Ok(0)
    }
}

/// The bytes before the first zero from `i` on.
pub open spec fn until_zero(bytes: Seq<u8>, i: int) -> int
    decreases bytes.len() - i,
{
    if i < 0 || i >= bytes.len() || bytes[i] == 0 {
        i
    } else {
        until_zero(bytes, i + 1)
    }
}

/// The path that a program header names as the interpreter, if it is one.
pub open spec fn path_in(bytes: Seq<u8>, ph: Elf64_Phdr) -> Option<Seq<u8>> {
    if ph.p_type != PT_INTERP || ph.p_offset + ph.p_filesz > bytes.len() {
        None
    } else {
        let raw = bytes.subrange(ph.p_offset as int, ph.p_offset + ph.p_filesz);
        let path = raw.take(until_zero(raw, 0));
        if valid_utf8(path) {
            Some(path)
        } else {
            None
        }
    }
}

/// The interpreter that the last of the first `n` program headers names which
/// names one.
pub open spec fn interpreter_of(bytes: Seq<u8>, header: Elf64_Ehdr, n: int) -> Option<Seq<u8>>
    decreases n,
{
    if n <= 0 {
        None
    } else {
        match path_in(bytes, phdr_at(bytes, header, n - 1)) {
            Some(path) => Some(path),
            None => interpreter_of(bytes, header, n - 1),
        }
    }
}

fn read_path(bytes: &Vec<u8>, ph: &Elf64_Phdr) -> (r: Option<Vec<u8>>)
    ensures
        path_in(bytes@, *ph) == (match r {
            Some(path) => Some(path@),
            None => None,
        }),
{
    if ph.p_type != PT_INTERP {
        return None;
    }
    let size = bytes.len() as u64;
    if ph.p_offset > size || ph.p_filesz > size - ph.p_offset {
        return None;
    }
    let raw = copy_bytes(bytes, ph.p_offset as usize, ph.p_filesz as usize);
    let mut len: usize = 0;
    while len < raw.len() && raw[len] != 0
        invariant
            len <= raw@.len(),
            until_zero(raw@, 0) == until_zero(raw@, len as int),
        decreases raw@.len() - len,
    {
        len += 1;
    }
    let path = copy_bytes(&raw, 0, len);
    assert(path@ =~= raw@.take(until_zero(raw@, 0)));
    if is_utf8(&path) {
        Some(path)
    } else {
        None
    }
}

/// The path of the interpreter that a program asks for.
pub fn find_interpreter(header: &Elf64_Ehdr, file_bytes: &Vec<u8>) -> (r: Result<
    Option<Vec<u8>>,
    LoaderError,
>)
    ensures
        !table_fits(file_bytes@, *header) ==> r == Err::<Option<Vec<u8>>, LoaderError>(
            LoaderError::InvalidBuffer,
        ),
        table_fits(file_bytes@, *header) ==> (r matches Ok(path) && interpreter_of(
            file_bytes@,
            *header,
            header.e_phnum as int,
        ) == (match path {
            Some(path) => Some(path@),
            None => None,
        })),
{
    if !header.table_in(file_bytes) {
        return Err(LoaderError::InvalidBuffer);
    }
    let mut found: Option<Vec<u8>> = None;
    let mut i: usize = 0;
    while i < header.e_phnum as usize
        invariant
            i <= header.e_phnum,
            table_fits(file_bytes@, *header),
            interpreter_of(file_bytes@, *header, i as int) == (match found {
                Some(path) => Some(path@),
                None => None,
            }),
        decreases header.e_phnum - i,
    {
        let ph = header.prog_header(file_bytes, i);
        if let Some(path) = read_path(file_bytes, &ph) {
            found = Some(path);
        }
        i += 1;
    }
    Ok(found)
}

/// How much of a file is read to find its headers.
pub fn header_read_size(file_size: u64) -> (r: u64)
    ensures
        r == if file_size < 4096 {
            file_size
        } else {
            4096
        },
{
    if file_size < 4096 {
        file_size
    } else {
        4096
    }
}

/// What loading a program maps, and what is then known of it.
pub struct LoadPlan {
    pub program: Vec<SegmentPlan>,
    pub interpreter: Vec<SegmentPlan>,
    pub result: Result<ElfLoadResult, LoaderError>,
}

/// What is mapped of the interpreter and where it starts.
pub open spec fn interpreter_loaded(bytes: Option<Seq<u8>>) -> (
    Seq<SegmentPlan>,
    Result<u64, LoaderError>,
) {
    match bytes {
        None => (Seq::empty(), Err(LoaderError::FileReadError)),
        Some(bytes) => match header_fault(bytes) {
            Some(fault) => (Seq::empty(), Err(fault)),
            None => {
                let header = ehdr_of(bytes);
                let (segments, addr) = mapped(bytes, header, INTERPRETER_BASE);
                (
                    segments,
                    match addr {
                        Err(fault) => Err(fault),
                        Ok(_) => if INTERPRETER_BASE + header.e_entry > u64::MAX {
                            Err(LoaderError::FileReadError)
                        } else {
                            Ok((INTERPRETER_BASE + header.e_entry) as u64)
                        },
                    },
                )
            },
        },
    }
}

/// What loading a program maps of it and of its interpreter, and what is then
/// known of it.
pub open spec fn loaded(bytes: Seq<u8>, interpreter: Option<Seq<u8>>) -> (
    Seq<SegmentPlan>,
    Seq<SegmentPlan>,
    Result<ElfLoadResult, LoaderError>,
) {
    let header = ehdr_of(bytes);
    let (segments, addr) = mapped(bytes, header, 0);
    match header_fault(bytes) {
        Some(fault) => (Seq::empty(), Seq::empty(), Err(fault)),
        None => match addr {
            Err(fault) => (segments, Seq::empty(), Err(fault)),
            Ok(addr) => {
                let result = ElfLoadResult {
                    entry_point: header.e_entry,
                    phdr_addr: addr,
                    phnum: header.e_phnum as u64,
                    base_addr: 0,
                    interpreter_entry: None,
                };
                if interpreter_of(bytes, header, header.e_phnum as int) is None {
                    (segments, Seq::empty(), Ok(result))
                } else {
                    let (more, entry) = interpreter_loaded(interpreter);
                    (
                        segments,
                        more,
                        match entry {
                            Err(fault) => Err(fault),
                            Ok(entry) => Ok(
                                ElfLoadResult {
                                    base_addr: INTERPRETER_BASE,
                                    interpreter_entry: Some(entry),
                                    ..result
                                },
                            ),
                        },
                    )
                }
            },
        },
    }
}

/// Plans how an interpreter is loaded.
fn load_interpreter(bytes: Option<Vec<u8>>) -> (r: (Vec<SegmentPlan>, Result<u64, LoaderError>))
    ensures
        (r.0@, r.1) == interpreter_loaded(
            match bytes {
                Some(bytes) => Some(bytes@),
                None => None,
            },
        ),
{
    let bytes = match bytes {
        Some(bytes) => bytes,
        None => {
            return (Vec::new(), Err(LoaderError::FileReadError));
        },
    };
    let header = match Elf64_Ehdr::from_bytes(&bytes) {
        Ok(header) => header,
        Err(fault) => {
            return (Vec::new(), Err(fault));
        },
    };
    let map = map_elf_segments(&header, &bytes, INTERPRETER_BASE);
    if let Err(fault) = map.phdr_addr {
        return (map.segments, Err(fault));
    }
    match INTERPRETER_BASE.checked_add(header.e_entry) {
        Some(entry) => (map.segments, Ok(entry)),
        None => (map.segments, Err(LoaderError::FileReadError)),
    }
}

/// Plans how a program is loaded, from the start of its file and from that of
/// the interpreter it names, where that could be read.
pub fn load_elf(file_bytes: &Vec<u8>, interpreter: Option<Vec<u8>>) -> (r: LoadPlan)
    ensures
        (r.program@, r.interpreter@, r.result) == loaded(
            file_bytes@,
            match interpreter {
                Some(bytes) => Some(bytes@),
                None => None,
            },
        ),
{
    let header = match Elf64_Ehdr::from_bytes(file_bytes) {
        Ok(header) => header,
        Err(fault) => {
            return LoadPlan {
                program: Vec::new(),
                interpreter: Vec::new(),
                result: Err(fault),
            };
        },
    };
    let path = match find_interpreter(&header, file_bytes) {
        Ok(path) => path,
        Err(fault) => {
            return LoadPlan {
                program: Vec::new(),
                interpreter: Vec::new(),
                result: Err(fault),
            };
        },
    };
    let map = map_elf_segments(&header, file_bytes, 0);
    let phdr_addr = match map.phdr_addr {
        Ok(phdr_addr) => phdr_addr,
        Err(fault) => {
            return LoadPlan {
                program: map.segments,
                interpreter: Vec::new(),
                result: Err(fault),
            };
        },
    };
    let mut result = ElfLoadResult {
        entry_point: header.e_entry,
        phdr_addr,
        phnum: header.e_phnum as u64,
        base_addr: 0,
        interpreter_entry: None,
    };
    if path.is_none() {
        return LoadPlan {
            program: map.segments,
            interpreter: Vec::new(),
            result: Ok(result),
        };
    }
    let (segments, entry) = load_interpreter(interpreter);
    match entry {
        Ok(entry) => {
            result.base_addr = INTERPRETER_BASE;
            result.interpreter_entry = Some(entry);
            LoadPlan { program: map.segments, interpreter: segments, result: Ok(result) }
        },
        Err(fault) => LoadPlan {
            program: map.segments,
            interpreter: segments,
            result: Err(fault),
        },
    }
}

/// Every mapped segment starts and ends at a page, covers the memory that it
/// is to have, and takes its bytes from the place in the file that they are to
/// come from.
pub proof fn law_segments_cover_their_memory(ph: Elf64_Phdr, load_base: u64)
    requires
        segment_of(ph, load_base) is Ok,
    ensures
        ({
            let plan = segment_of(ph, load_base)->Ok_0;
            let start = load_base + ph.p_vaddr;
            &&& plan.vaddr as int % 4096 == 0
            &&& plan.size as int % 4096 == 0
            &&& plan.vaddr <= start
            &&& start + ph.p_memsz <= plan.vaddr + plan.size
            &&& plan.source matches SegmentSource::Copy { file_offset, copied } ==> (load_base
                as int % 4096 == 0 ==> file_offset + (start - plan.vaddr) == ph.p_offset) && copied
                == start - plan.vaddr + ph.p_filesz
        }),
{
}

} // verus!
