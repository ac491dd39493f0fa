//! Bytes that are text.

use vstd::prelude::*;
use vstd::utf8::valid_utf8;

verus! {

/// Tells whether bytes are UTF-8, by `core::str::from_utf8`, which accepts
/// exactly the bytes that are.
#[verifier::external_body]
pub(crate) fn is_utf8(bytes: &Vec<u8>) -> (r: bool)
    ensures
        r == valid_utf8(bytes@),
{
    core::str::from_utf8(bytes).is_ok()
}

} // verus!
