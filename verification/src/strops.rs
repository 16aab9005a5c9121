//! Small trusted wrappers around `String` and `str` operations of std that
//! vstd leaves unspecified.

use vstd::prelude::*;

verus! {

/// Relies on `String::push`: appends exactly the one character `c` at the end.
#[verifier::external_body]
pub(crate) fn push_char(s: &mut String, c: char)
    ensures
        final(s)@ == old(s)@.push(c),
{
    s.push(c);
}

/// Relies on `str`'s `PartialEq`: two string slices compare equal exactly when
/// their character sequences are equal.
#[verifier::external_body]
pub(crate) fn str_eq(a: &str, b: &str) -> (r: bool)
    ensures
        r == (a@ == b@),
{
    a == b
}

} // verus!
