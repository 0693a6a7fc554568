//! File system paths, which the library carries but does not take apart.

use std::path::{Path, PathBuf};
use vstd::prelude::*;

verus! {

/// An owned path.
#[verifier::external_type_specification]
#[verifier::external_body]
pub struct ExPathBuf(PathBuf);

/// A borrowed path.
#[verifier::external_type_specification]
#[verifier::external_body]
pub struct ExPath(Path);

/// The encoded bytes that an owned path holds.
pub uninterp spec fn path_bytes(path: PathBuf) -> Seq<u8>;

/// The encoded bytes that a borrowed path holds.
pub uninterp spec fn borrowed_path_bytes(path: &Path) -> Seq<u8>;

/// `PathBuf::new` makes the empty path.
pub assume_specification[ PathBuf::new ]() -> (path: PathBuf)
    ensures
        path_bytes(path) == Seq::<u8>::empty(),
;

/// `PathBuf::clone` gives the same path.
pub assume_specification[ <PathBuf as Clone>::clone ](path: &PathBuf) -> (copy: PathBuf)
    ensures
        copy == *path,
;

/// `PathBuf::as_path` lends the whole path.
pub assume_specification[ PathBuf::as_path ](path: &PathBuf) -> (borrowed: &Path)
    ensures
        borrowed_path_bytes(borrowed) == path_bytes(*path),
;

} // verus!
