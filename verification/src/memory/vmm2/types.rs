//! Permissions, options and errors of the virtual memory manager.

use crate::memory::range_tree::RangeMapError;
use vstd::prelude::*;
use vstd::std_specs::cmp::PartialEqSpecImpl;
use vstd::std_specs::convert::FromSpecImpl;

use crate::hal::mmu::PageFlags;

pub use crate::hal::mmu::PageSize;
pub use crate::memory::vma::Backing;

verus! {

/// What a mapping lets its user do, as a set of bits.
#[derive(Debug, Clone, Copy, PartialEq, Eq, Structural)]
pub struct VmPermissions(pub u16);

impl VmPermissions {
    pub const WRITE: u16 = 1;

    pub const EXECUTE: u16 = 2;

    pub const USER: u16 = 4;

    pub const GLOBAL: u16 = 8;

    pub const GUARD: u16 = 16;

    pub open spec fn has(&self, bits: u16) -> bool {
        self.0 & bits == bits
    }

    pub fn contains(&self, bits: u16) -> (r: bool)
        ensures
            r == self.has(bits),
    {
        self.0 & bits == bits
    }

    /// The bits of a page table entry that grant these permissions.
    pub open spec fn hardware_bits(&self) -> u64 {
        let writable: u64 = if self.has(Self::WRITE) {
            PageFlags::WRITABLE
        } else {
            0
        };
        let user: u64 = if self.has(Self::USER) {
            PageFlags::USER_ACCESSIBLE
        } else {
            0
        };
        let global: u64 = if self.has(Self::GLOBAL) {
            PageFlags::GLOBAL
        } else {
            0
        };
        let no_execute: u64 = if self.has(Self::EXECUTE) {
            0
        } else {
            PageFlags::NO_EXECUTE
        };
        writable | user | global | no_execute
    }

    pub fn to_hardware_flags(&self) -> (r: PageFlags)
        ensures
            r.0 == self.hardware_bits(),
    {
        let writable: u64 = if self.contains(Self::WRITE) {
            PageFlags::WRITABLE
        } else {
            0
        };
        let user: u64 = if self.contains(Self::USER) {
            PageFlags::USER_ACCESSIBLE
        } else {
            0
        };
        let global: u64 = if self.contains(Self::GLOBAL) {
            PageFlags::GLOBAL
        } else {
            0
        };
        let no_execute: u64 = if self.contains(Self::EXECUTE) {
            0
        } else {
            PageFlags::NO_EXECUTE
        };
        PageFlags(writable | user | global | no_execute)
    }
}

/// The number by which a memory object is known to the mappings of it.
#[derive(Debug, Clone, Copy, PartialEq, Eq, Structural)]
pub struct VmoId(pub u64);

/// What stands behind a mapping.
#[derive(Debug, Clone, Copy)]
pub enum VmaBacking {
    Reserved,
    Anonymous,
    Vmo(VmoId),
}

/// Two backings are equal when they are of one sort, whichever memory object
/// stands behind them.
impl PartialEq for VmaBacking {
    fn eq(&self, other: &Self) -> (r: bool) {
        match self {
            Self::Reserved => matches!(other, VmaBacking::Reserved),
            Self::Anonymous => matches!(other, VmaBacking::Anonymous),
            Self::Vmo(_) => matches!(other, VmaBacking::Vmo(_)),
        }
    }
}

impl PartialEqSpecImpl for VmaBacking {
    open spec fn obeys_eq_spec() -> bool {
        true
    }

    open spec fn eq_spec(&self, other: &Self) -> bool {
        match self {
            Self::Reserved => *other is Reserved,
            Self::Anonymous => *other is Anonymous,
            Self::Vmo(_) => *other is Vmo,
        }
    }
}

impl Backing for VmaBacking {
    open spec fn commits(&self) -> bool {
        !(*self is Reserved)
    }

    fn is_committed(&self) -> (r: bool) {
        match self {
            VmaBacking::Reserved => false,
            VmaBacking::Anonymous | VmaBacking::Vmo(_) => true,
        }
    }
}

#[derive(Debug, Clone, Copy, PartialEq, Eq, Structural)]
pub enum MapBehavior {
    RequireVacant,
    ReplaceContained,
}

#[derive(Debug, Clone, Copy, PartialEq, Eq, Structural)]
pub enum CachePolicy {
    Normal,
    WriteThrough,
    Uncached,
    Device,
}

#[derive(Debug, Clone, Copy, PartialEq, Eq, Structural)]
pub enum VmaChargeKind {
    ReservedOnly,
    Private,
    Shared,
    Device,
}

#[derive(Debug, Clone, Copy, PartialEq, Eq, Structural)]
pub struct VmaAccounting {
    pub charge: VmaChargeKind,
}

#[derive(Debug, Clone, Copy, PartialEq, Eq, Structural)]
pub struct VmOptions {
    pub permissions: VmPermissions,
    pub cache: CachePolicy,
    pub page_size: PageSize,
    pub charge: VmaChargeKind,
}

impl VmOptions {
    /// Normally cached base pages with the given permissions.
    pub open spec fn plain(bits: u16, charge: VmaChargeKind) -> Self {
        VmOptions {
            permissions: VmPermissions(bits),
            cache: CachePolicy::Normal,
            page_size: PageSize::Size4K,
            charge,
        }
    }

    pub fn user_ro() -> (r: Self)
        ensures
            r == Self::plain(VmPermissions::USER, VmaChargeKind::Private),
    {
        Self {
            permissions: VmPermissions(VmPermissions::USER),
            cache: CachePolicy::Normal,
            page_size: PageSize::Size4K,
            charge: VmaChargeKind::Private,
        }
    }

    pub fn user_rw() -> (r: Self)
        ensures
            r == Self::plain(VmPermissions::USER | VmPermissions::WRITE, VmaChargeKind::Private),
    {
        Self {
            permissions: VmPermissions(VmPermissions::USER | VmPermissions::WRITE),
            cache: CachePolicy::Normal,
            page_size: PageSize::Size4K,
            charge: VmaChargeKind::Private,
        }
    }

    pub fn user_rx() -> (r: Self)
        ensures
            r == Self::plain(VmPermissions::USER | VmPermissions::EXECUTE, VmaChargeKind::Private),
    {
        Self {
            permissions: VmPermissions(VmPermissions::USER | VmPermissions::EXECUTE),
            cache: CachePolicy::Normal,
            page_size: PageSize::Size4K,
            charge: VmaChargeKind::Private,
        }
    }

    pub fn kernel_rw() -> (r: Self)
        ensures
            r == Self::plain(VmPermissions::WRITE, VmaChargeKind::Private),
    {
        Self {
            permissions: VmPermissions(VmPermissions::WRITE),
            cache: CachePolicy::Normal,
            page_size: PageSize::Size4K,
            charge: VmaChargeKind::Private,
        }
    }

    pub fn guard() -> (r: Self)
        ensures
            r == Self::plain(VmPermissions::GUARD, VmaChargeKind::ReservedOnly),
    {
        Self {
            permissions: VmPermissions(VmPermissions::GUARD),
            cache: CachePolicy::Normal,
            page_size: PageSize::Size4K,
            charge: VmaChargeKind::ReservedOnly,
        }
    }

    pub fn with_page_size(self, page_size: PageSize) -> (r: Self)
        ensures
            r == (VmOptions { page_size, ..self }),
    {
        let mut r = self;
        r.page_size = page_size;
        r
    }
}

#[derive(Debug, Clone, Copy, PartialEq, Eq, Structural)]
pub enum VmError {
    InvalidRange,
    InvalidArgument,
    InvalidAlignment,
    Overflow,
    Overlap,
    NotFound,
    NotContained,
    OutOfMemory,
    MappingFailed,
    AccessDenied,
}

/// The manager's error for an error of the range map.
pub open spec fn vm_error(value: RangeMapError) -> VmError {
    match value {
        RangeMapError::Overflow => VmError::Overflow,
        RangeMapError::Overlap => VmError::Overlap,
        RangeMapError::NotFound => VmError::NotFound,
        RangeMapError::Mismatch => VmError::InvalidArgument,
        RangeMapError::InvalidAlignment => VmError::InvalidAlignment,
        RangeMapError::Empty => VmError::NotFound,
    }
}

impl From<RangeMapError> for VmError {
    fn from(value: RangeMapError) -> (r: Self) {
        match value {
            RangeMapError::Overflow => VmError::Overflow,
            RangeMapError::Overlap => VmError::Overlap,
            RangeMapError::NotFound => VmError::NotFound,
            RangeMapError::Mismatch => VmError::InvalidArgument,
            RangeMapError::InvalidAlignment => VmError::InvalidAlignment,
            RangeMapError::Empty => VmError::NotFound,
        }
    }
}

impl FromSpecImpl<RangeMapError> for VmError {
    open spec fn obeys_from_spec() -> bool {
        true
    }

    open spec fn from_spec(value: RangeMapError) -> Self {
        vm_error(value)
    }
}

} // verus!
