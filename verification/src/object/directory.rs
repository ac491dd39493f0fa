//! The names that things in a directory can have.

use crate::object::invoke::InvocationError;
use vstd::prelude::*;

verus! {

pub const FILENAME_LEN_MAX: usize = 254;

/// What is wrong with a name for something new in a directory.
pub open spec fn name_fault(name: Seq<u8>) -> Option<InvocationError> {
    if name.len() > FILENAME_LEN_MAX {
        Some(InvocationError::NameTooLong)
    } else if name.len() == 0 || name == seq![0x2Eu8] || name == seq![0x2Eu8, 0x2E]
        || name.contains(0x2F) {
        Some(InvocationError::InvalidArgument)
    } else {
        None
    }
}

/// A name that something in a directory can be made or removed under: it is
/// not empty, not too long, holds no slash, and is neither the directory
/// itself nor its parent.
pub fn validate_child_name(name: &Vec<u8>) -> (r: Result<(), InvocationError>)
    ensures
        match name_fault(name@) {
            Some(fault) => r == Err::<(), InvocationError>(fault),
            None => r is Ok,
        },
{
    if name.len() > FILENAME_LEN_MAX {
        return Err(InvocationError::NameTooLong);
    }
    if name.len() == 0 {
        return Err(InvocationError::InvalidArgument);
    }
    if is_dots(name) {
        return Err(InvocationError::InvalidArgument);
    }
    let mut i: usize = 0;
    while i < name.len()
        invariant
            i <= name@.len(),
            0 < name@.len() <= FILENAME_LEN_MAX,
            forall|j: int| 0 <= j < i ==> #[trigger] name@[j] != 0x2F,
        decreases name@.len() - i,
    {
        if name[i] == 0x2F {
            assert(name@.contains(0x2F));
            return Err(InvocationError::InvalidArgument);
        }
        i += 1;
    }
    Ok(())
}

/// The name is that of the directory itself or of its parent.
pub fn is_dots(name: &Vec<u8>) -> (r: bool)
    ensures
        r == (name@ == seq![0x2Eu8] || name@ == seq![0x2Eu8, 0x2E]),
{
    if name.len() == 1 && name[0] == 0x2E {
        assert(name@ =~= seq![0x2Eu8]);
        return true;
    }
    if name.len() == 2 && name[0] == 0x2E && name[1] == 0x2E {
        assert(name@ =~= seq![0x2Eu8, 0x2E]);
        return true;
    }
    proof {
        if name@ == seq![0x2Eu8] {
            assert(name@.len() == 1 && name@[0] == 0x2E);
        }
        if name@ == seq![0x2Eu8, 0x2E] {
            assert(name@.len() == 2 && name@[0] == 0x2E && name@[1] == 0x2E);
        }
    }
    false
}

} // verus!
