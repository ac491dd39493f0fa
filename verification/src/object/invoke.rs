//! The errors that a request to a kernel object is answered with.

use vstd::prelude::*;

verus! {

#[derive(Debug, Clone, Copy, PartialEq, Eq, Structural)]
pub enum InvocationError {
    InvalidHandle,
    InvalidArgument,
    InvalidPointer,
    UnsupportedOperation,
    OutOfMemory,
    PathNotFound,
    NameTooLong,
    AccessDenied,
}

} // verus!
