//! File paths, carried through from the caller to diagnostics and parsed
//! files without being inspected.
use vstd::prelude::*;
use std::path::{Path, PathBuf};

verus! {

#[verifier::external_type_specification]
#[verifier::external_body]
pub struct ExPathBuf(PathBuf);

#[verifier::external_type_specification]
#[verifier::external_body]
pub struct ExPath(Path);

/// The owned path that `Path::to_path_buf` makes of `p`.
pub uninterp spec fn owned_path(p: &Path) -> PathBuf;

/// How `Path::display` renders `p`.
pub uninterp spec fn displayed_path(p: PathBuf) -> Seq<char>;

/// Calls `Path::to_path_buf`; the result is the owned copy of `p`, named by
/// `owned_path`.
#[verifier::external_body]
pub fn to_path_buf(p: &Path) -> (r: PathBuf)
    ensures
        r == owned_path(p),
{
    p.to_path_buf()
}

/// Calls `<PathBuf as Clone>::clone`: the clone holds the same path.
pub assume_specification[ <PathBuf as Clone>::clone ](p: &PathBuf) -> (r: PathBuf)
    ensures
        r == *p,
;

/// Formats `p.display()` (`Path::display`); the text is named by
/// `displayed_path`.
#[verifier::external_body]
pub fn display_path(p: &PathBuf) -> (r: String)
    ensures
        r@ == displayed_path(*p),
{
    format!("{}", p.display())
}

/// The owned form of an optional path.
pub open spec fn owned_path_opt(p: Option<&Path>) -> Option<PathBuf> {
    match p {
        Some(q) => Some(owned_path(q)),
        None => None,
    }
}

pub fn to_path_buf_opt(p: Option<&Path>) -> (r: Option<PathBuf>)
    ensures
        r == owned_path_opt(p),
{
    match p {
        Some(q) => Some(to_path_buf(q)),
        None => None,
    }
}

pub fn clone_path_opt(p: &Option<PathBuf>) -> (r: Option<PathBuf>)
    ensures
        r == *p,
{
    match p {
        Some(q) => Some(q.clone()),
        None => None,
    }
}

} // verus!
