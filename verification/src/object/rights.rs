//! What the holder of a handle may do with the object it stands for.

use crate::object::invoke::InvocationError;
use vstd::prelude::*;

verus! {

#[derive(Debug, Clone, Copy, PartialEq, Eq, Structural)]
pub struct AccessRights(pub u32);

impl AccessRights {
    pub const READ: u32 = 1;

    pub const WRITE: u32 = 2;

    pub const EXECUTE: u32 = 4;

    pub const CREATE: u32 = 8;

    pub const MUTATE: u32 = 0x10;

    pub const LIST: u32 = 0x20;

    /// All rights of `other` are among these.
    pub open spec fn covers(self, other: AccessRights) -> bool {
        self.0 & other.0 == other.0
    }

    /// No rights.
    pub fn new() -> (r: Self)
        ensures
            r == AccessRights(0),
    {
        AccessRights(0)
    }

    /// All rights that there are.
    pub fn all() -> (r: Self)
        ensures
            r == AccessRights(0x3F),
    {
        AccessRights(0x3F)
    }

    /// Tells whether all rights of `other` are among these.
    pub fn has(&self, other: AccessRights) -> (r: bool)
        ensures
            r == self.covers(other),
    {
        self.0 & other.0 == other.0
    }

    /// Denies access unless all rights of `other` are among these.
    pub fn err_if_no(&self, other: AccessRights) -> (r: Result<(), InvocationError>)
        ensures
            r == if self.covers(other) {
                Ok::<(), InvocationError>(())
            } else {
                Err(InvocationError::AccessDenied)
            },
    {
        if self.has(other) {
            Ok(())
        } else {
            Err(InvocationError::AccessDenied)
        }
    }
}

/// Rights that are passed on never grow: what is covered by rights that are
/// covered is covered.
pub proof fn law_rights_only_shrink(a: AccessRights, b: AccessRights, c: AccessRights)
    requires
        a.covers(b),
        b.covers(c),
    ensures
        a.covers(c),
{
    let x = a.0;
    let y = b.0;
    let z = c.0;
    assert(x & z == z) by (bit_vector)
        requires
            x & y == y,
            y & z == z,
    ;
}

} // verus!
