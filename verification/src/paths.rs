//! Paths below the media directory of a device.

use vstd::prelude::*;
use std::path::PathBuf;

verus! {

/// `std::path::PathBuf`: a path is carried through as it is, nothing is read
/// off it.
#[verifier::external_type_specification]
#[verifier::external_body]
pub struct ExPathBuf(PathBuf);

/// The path that `Path::join` makes of `base` and the path written `below`.
pub uninterp spec fn joined(base: PathBuf, below: Seq<char>) -> PathBuf;

/// `Path::join` of the standard library: a new path with `below` adjoined to
/// `base`. What the new path is, is not specified here, only named.
#[verifier::external_body]
pub(crate) fn join(base: &PathBuf, below: &str) -> (path: PathBuf)
    ensures
        path == joined(*base, below@),
{
    base.join(below)
}

} // verus!
