//! What is said when a diagram file cannot be had.
use vstd::prelude::*;
use crate::text::{owned, push_str};

verus! {

pub open spec fn missing_spec(path: Seq<char>) -> Seq<char> {
    "no such file: "@ + path
}

/// The message for a file that is not there.
pub fn missing(path: &str) -> (r: String)
    ensures
        r@ == missing_spec(path@),
{
    let mut r = owned("no such file: ");
    push_str(&mut r, path);
    r
}

pub open spec fn invalid_spec(path: Seq<char>) -> Seq<char> {
    path + ": not a valid diagram"@
}

/// The message for a file that holds no diagram.
pub fn invalid(path: &str) -> (r: String)
    ensures
        r@ == invalid_spec(path@),
{
    let mut r = owned(path);
    push_str(&mut r, ": not a valid diagram");
    r
}

} // verus!
