//! The parts of an ELF file that loading it needs.

use crate::common::bytes::{get16, get32, get64, le16, le32, le64};
use crate::program::LoaderError;
use vstd::prelude::*;

verus! {

pub const PT_LOAD: u32 = 1;

pub const PT_INTERP: u32 = 3;

pub const PT_PHDR: u32 = 6;

pub const PF_X: u32 = 1;

pub const PF_W: u32 = 2;

pub const PF_R: u32 = 4;

/// "\\x7fELF".
pub const ELF_MAGIC: u32 = 0x464C_457F;

pub const ELF_CLASS_64: u8 = 2;

pub const ELF_LITTLE_ENDIAN: u8 = 1;

pub const ELF_ABI_SYSTEM_V: u8 = 0;

pub const ET_EXEC: u16 = 2;

pub const ET_DYN: u16 = 3;

pub const EM_X86_64: u16 = 0x3E;

/// The file header.
#[derive(Debug, Clone, Copy, PartialEq, Eq, Structural)]
pub struct Elf64_Ehdr {
    pub e_type: u16,
    pub e_machine: u16,
    pub e_version: u32,
    pub e_entry: u64,
    pub e_phoff: u64,
    pub e_flags: u32,
    pub e_ehsize: u16,
    pub e_phentsize: u16,
    pub e_phnum: u16,
}

/// A program header.
#[derive(Debug, Clone, Copy, PartialEq, Eq, Structural)]
pub struct Elf64_Phdr {
    pub p_type: u32,
    pub p_flags: u32,
    pub p_offset: u64,
    pub p_vaddr: u64,
    pub p_filesz: u64,
    pub p_memsz: u64,
    pub p_align: u64,
}

pub open spec fn ehdr_of(s: Seq<u8>) -> Elf64_Ehdr {
    Elf64_Ehdr {
        e_type: le16(s, 16),
        e_machine: le16(s, 18),
        e_version: le32(s, 20),
        e_entry: le64(s, 24),
        e_phoff: le64(s, 32),
        e_flags: le32(s, 48),
        e_ehsize: le16(s, 52),
        e_phentsize: le16(s, 54),
        e_phnum: le16(s, 56),
    }
}

/// What is wrong with the start of a file, if it is not that of a program that
/// can be loaded.
pub open spec fn header_fault(s: Seq<u8>) -> Option<LoaderError> {
    if s.len() < 64 {
        Some(LoaderError::InvalidBuffer)
    } else if le32(s, 0) != ELF_MAGIC {
        Some(LoaderError::InvalidMagicNumbers)
    } else if s[4] != ELF_CLASS_64 {
        Some(LoaderError::Not64BitElf)
    } else if s[5] != ELF_LITTLE_ENDIAN {
        Some(LoaderError::NotAWashingMachine)
    } else if s[7] != ELF_ABI_SYSTEM_V {
        Some(LoaderError::UnsupportedABI(s[7]))
    } else if le16(s, 16) != ET_EXEC && le16(s, 16) != ET_DYN {
        Some(LoaderError::UnsupportedElfType(le16(s, 16)))
    } else if le16(s, 18) != EM_X86_64 {
        Some(LoaderError::UnsupportedArch(le16(s, 18)))
    } else {
        None
    }
}

/// The table of program headers lies in the bytes.
pub open spec fn table_fits(s: Seq<u8>, header: Elf64_Ehdr) -> bool {
    header.e_phoff + 56 * header.e_phnum <= s.len()
}

/// Program header `i`.
pub open spec fn phdr_at(s: Seq<u8>, header: Elf64_Ehdr, i: int) -> Elf64_Phdr {
    phdr_of(s, header.e_phoff + 56 * i)
}

pub open spec fn phdr_of(s: Seq<u8>, at: int) -> Elf64_Phdr {
    Elf64_Phdr {
        p_type: le32(s, at),
        p_flags: le32(s, at + 4),
        p_offset: le64(s, at + 8),
        p_vaddr: le64(s, at + 16),
        p_filesz: le64(s, at + 32),
        p_memsz: le64(s, at + 40),
        p_align: le64(s, at + 48),
    }
}

impl Elf64_Ehdr {
    /// Reads the file header of a program.
    pub fn from_bytes(bytes: &Vec<u8>) -> (r: Result<Self, LoaderError>)
        ensures
            match header_fault(bytes@) {
                Some(fault) => r == Err::<Self, LoaderError>(fault),
                None => r == Ok::<Self, LoaderError>(ehdr_of(bytes@)),
            },
    {
        if bytes.len() < 64 {
            return Err(LoaderError::InvalidBuffer);
        }
        if get32(bytes, 0) != ELF_MAGIC {
            return Err(LoaderError::InvalidMagicNumbers);
        }
        if bytes[4] != ELF_CLASS_64 {
            return Err(LoaderError::Not64BitElf);
        }
        if bytes[5] != ELF_LITTLE_ENDIAN {
            return Err(LoaderError::NotAWashingMachine);
        }
        if bytes[7] != ELF_ABI_SYSTEM_V {
            return Err(LoaderError::UnsupportedABI(bytes[7]));
        }
        let e_type = get16(bytes, 16);
        if e_type != ET_EXEC && e_type != ET_DYN {
            return Err(LoaderError::UnsupportedElfType(e_type));
        }
        let e_machine = get16(bytes, 18);
        if e_machine != EM_X86_64 {
            return Err(LoaderError::UnsupportedArch(e_machine));
        }
        Ok(
            Elf64_Ehdr {
                e_type,
                e_machine,
                e_version: get32(bytes, 20),
                e_entry: get64(bytes, 24),
                e_phoff: get64(bytes, 32),
                e_flags: get32(bytes, 48),
                e_ehsize: get16(bytes, 52),
                e_phentsize: get16(bytes, 54),
                e_phnum: get16(bytes, 56),
            },
        )
    }

    /// Tells whether the table of program headers lies in the bytes.
    pub fn table_in(&self, bytes: &Vec<u8>) -> (r: bool)
        ensures
            r == table_fits(bytes@, *self),
    {
        let size = bytes.len() as u64;
        let table = 56 * self.e_phnum as u64;
        self.e_phoff <= size && table <= size - self.e_phoff
    }

    /// Reads program header `i`.
    pub fn prog_header(&self, bytes: &Vec<u8>, i: usize) -> (r: Elf64_Phdr)
        requires
            table_fits(bytes@, *self),
            i < self.e_phnum,
        ensures
            r == phdr_at(bytes@, *self, i as int),
    {
        let size = bytes.len();
        assert(self.e_phoff + 56 * i + 56 <= size);
        let at = self.e_phoff as usize + 56 * i;
        Elf64_Phdr {
            p_type: get32(bytes, at),
            p_flags: get32(bytes, at + 4),
            p_offset: get64(bytes, at + 8),
            p_vaddr: get64(bytes, at + 16),
            p_filesz: get64(bytes, at + 32),
            p_memsz: get64(bytes, at + 40),
            p_align: get64(bytes, at + 48),
        }
    }
}

} // verus!
