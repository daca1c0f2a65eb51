//! Paths of the file system.

use vstd::prelude::*;
use std::path::{Path, PathBuf};

verus! {

/// A path of the file system.
#[verifier::external_type_specification]
#[verifier::external_body]
pub struct ExPath(std::path::Path);

/// A path of the file system, owned.
#[verifier::external_type_specification]
#[verifier::external_body]
pub struct ExPathBuf(std::path::PathBuf);

/// What `Path::join` gives for a directory and the name of something in it,
/// with the separators of the platform the library is built for.
pub uninterp spec fn joined(dir: &Path, name: Seq<char>) -> PathBuf;

/// `Path::join`: the path of `name` in `dir`.
#[verifier::external_body]
pub(crate) fn join(dir: &Path, name: &str) -> (r: PathBuf)
    ensures
        r == joined(dir, name@),
{
    dir.join(name)
}

} // verus!
