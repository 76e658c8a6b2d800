use vstd::prelude::*;

verus! {

/// Relies on `str`'s `PartialEq` from std: two string slices compare equal
/// exactly when they consist of the same characters.
#[verifier::external_body]
pub fn str_eq(a: &str, b: &str) -> (r: bool)
    ensures
        r == (a@ == b@),
{
    a == b
}

} // verus!
