//! The start of a program's file.

use crate::hal::mmu::pager::PhysMemory;
use crate::hal::mmu::FrameAllocator;
use crate::memory::file_pages::others_same;
use crate::object::invoke::InvocationError;
use crate::program::parser::{ehdr_of, header_fault, Elf64_Ehdr};
use crate::program::{header_read_size, LoaderError};
use crate::storage::blockdev::BlockDevice;
use crate::storage::fs::ext2::obj::file::{only_touched, read_length, was_read, Ext2File};
use crate::storage::fs::ext2::Ext2FileSystem;
use vstd::prelude::*;

verus! {

/// How much of a file is read to find its headers.
pub open spec fn header_bytes(file_size: u32) -> u64 {
    if file_size < 4096 {
        file_size as u64
    } else {
        4096
    }
}

/// What is answered when reading the start of a file has given `got`: what was
/// read and the header in it.
pub open spec fn header_answered(
    got: Result<Seq<u8>, InvocationError>,
    r: Result<(Vec<u8>, Elf64_Ehdr), LoaderError>,
) -> bool {
    match got {
        Err(_) => r == Err::<(Vec<u8>, Elf64_Ehdr), LoaderError>(LoaderError::FileReadError),
        Ok(bytes) => match header_fault(bytes) {
            Some(fault) => r == Err::<(Vec<u8>, Elf64_Ehdr), LoaderError>(fault),
            None => r matches Ok((start, header)) && start@ == bytes && header == ehdr_of(bytes),
        },
    }
}

/// Reads the start of a program's file, and the header in it.
pub fn read_elf_header<D: BlockDevice, A: FrameAllocator>(
    file: &mut Ext2File,
    fs: &Ext2FileSystem<D>,
    alloc: &mut A,
    memory: &mut PhysMemory,
) -> (r: Result<(Vec<u8>, Elf64_Ehdr), LoaderError>)
    requires
        fs.wf(),
        old(file).wf(*old(alloc), old(memory)@),
    ensures
        final(file).wf(*final(alloc), final(memory)@),
        exists|got: Result<Seq<u8>, InvocationError>|
            #![trigger header_answered(got, r)]
            header_answered(got, r) && was_read(
                *old(file),
                *final(file),
                fs.geo(),
                fs.volume(),
                fs.reliable(),
                old(alloc).capacity(),
                old(memory)@,
                final(memory)@,
                0,
                header_bytes(old(file).inode_data.size),
                got,
            ),
        only_touched(
            *old(file),
            *final(file),
            *old(alloc),
            *final(alloc),
            0,
            read_length(
                old(file).inode_data.size as int,
                0,
                header_bytes(old(file).inode_data.size) as int,
            ),
        ),
        others_same(old(memory)@, final(memory)@, old(alloc).available()),
{
    let len = header_read_size(file.inode_data.size as u64);
    match file.read_bytes_async(fs, 0, len, alloc, memory) {
        Ok(start) => {
            let ghost got: Result<Seq<u8>, InvocationError> = Ok(start@);
            match Elf64_Ehdr::from_bytes(&start) {
                Ok(header) => {
                    let r: Result<(Vec<u8>, Elf64_Ehdr), LoaderError> = Ok((start, header));
                    assert(header_answered(got, r));
                    r
                },
                Err(fault) => {
                    let r: Result<(Vec<u8>, Elf64_Ehdr), LoaderError> = Err(fault);
                    assert(header_answered(got, r));
                    r
                },
            }
        },
        Err(fault) => {
            let ghost got: Result<Seq<u8>, InvocationError> = Err(fault);
            let r: Result<(Vec<u8>, Elf64_Ehdr), LoaderError> = Err(LoaderError::FileReadError);
            assert(header_answered(got, r));
            r
        },
    }
}

} // verus!
