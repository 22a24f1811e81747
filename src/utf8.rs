//! Checked conversion of bytes to text.
use vstd::prelude::*;
use vstd::string::StringSliceAdditionalSpecFns;
use vstd::utf8::valid_utf8;

verus! {

/// Relies on `core::str::from_utf8`: it succeeds exactly on valid UTF-8,
/// and the text it gives holds the same bytes.
#[verifier::external_body]
pub fn str_from_utf8(b: &[u8]) -> (r: Option<&str>)
    ensures
        r is Some ==> r.unwrap().spec_bytes() == b@,
        valid_utf8(b@) ==> r is Some,
{
    core::str::from_utf8(b).ok()
}

} // verus!
