//! Processes.

pub mod laws;
pub mod procman;

use crate::object::handle::{HandleEntry, HandleID, HandleTable};
use crate::object::rights::AccessRights;
use vstd::prelude::*;

verus! {

/// The user that the system itself runs as.
pub const SYSTEM_USER: u32 = 0;

/// On whose behalf a process runs.
#[derive(Debug, Clone, Copy, PartialEq, Eq, Structural)]
pub struct Credentials {
    pub user: u32,
}

impl Credentials {
    pub fn new(user: u32) -> (r: Self)
        ensures
            r.user == user,
    {
        Credentials { user }
    }

    pub fn system() -> (r: Self)
        ensures
            r.user == SYSTEM_USER,
    {
        Credentials { user: SYSTEM_USER }
    }

    pub fn is_system(&self) -> (r: bool)
        ensures
            r == (self.user == SYSTEM_USER),
    {
        self.user == SYSTEM_USER
    }
}

pub struct ProcessControlBlock {
    pub name: Vec<u8>,
    pub credentials: Credentials,
    pub handles: HandleTable,
    /// The physical address of the top page table.
    pub root_addr: u64,
}

/// The bits of the control register that hold the address of the top page
/// table.
pub const ROOT_ADDRESS_MASK: u64 = 0x000F_FFFF_FFFF_F000;

/// The process that is running: that of the current thread, or the kernel's
/// where no thread runs yet. `kernel` is none until the kernel has a process.
pub fn current_process(thread_process: Option<u64>, kernel: Option<u64>) -> (r: Option<u64>)
    ensures
        r == match thread_process {
            Some(process) => Some(process),
            None => kernel,
        },
{
    match thread_process {
        Some(process) => Some(process),
        None => kernel,
    }
}

/// The kernel's own process. It has all rights to the root directory, its
/// first handle, and to itself, its second. `cr3` is the control register that
/// page tables are found by.
pub fn init_kernel_process(cr3: u64, root: u64, process: u64) -> (r: ProcessControlBlock)
    ensures
        r.name@ == seq![
            0x56u8,
            0x65u8,
            0x73u8,
            0x70u8,
            0x65u8,
            0x72u8,
            0x74u8,
            0x69u8,
            0x6Eu8,
            0x65u8,
        ],
        r.credentials.user == SYSTEM_USER,
        r.root_addr == cr3 & ROOT_ADDRESS_MASK,
        r.handles@ == seq![
            Some(HandleEntry { object: root, rights: AccessRights(0x3F) }),
            Some(HandleEntry { object: process, rights: AccessRights(0x3F) }),
        ],
{
    let name = vec![
        0x56u8,
        0x65u8,
        0x73u8,
        0x70u8,
        0x65u8,
        0x72u8,
        0x74u8,
        0x69u8,
        0x6Eu8,
        0x65u8,
    ];
    let mut handles = HandleTable::new();
    handles.insert_at(HandleID(0), root, AccessRights::all());
    handles.insert_at(HandleID(1), process, AccessRights::all());
    ProcessControlBlock {
        name,
        credentials: Credentials::system(),
        handles,
        root_addr: cr3 & ROOT_ADDRESS_MASK,
    }
}

} // verus!
