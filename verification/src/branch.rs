//! Branch information derived from the repository's `HEAD` reference.
//! Listing the branch directory itself is plain filesystem work and is
//! left to the caller; deciding the current branch from the `HEAD`
//! contents is done here.

use vstd::prelude::*;

use crate::text::{tail_line, tail_line_of};

verus! {

#[derive(Debug, PartialEq, Eq, Structural, Clone, Copy)]
pub enum Error {
    BranchReadError,
}

impl Error {
    /// A human-readable description of the failure.
    pub fn message(&self) -> (r: String)
        ensures
            r@ == "unable to read branch(es)"@,
    {
        String::from_str("unable to read branch(es)")
    }
}

/// The branch `HEAD` points at: the rest of its first line after
/// `ref: refs/heads/`.
pub open spec fn current_branch_of(c: Seq<char>) -> Option<Seq<char>> {
    tail_line_of(c, "ref: refs/heads/"@)
}

/// Decide the current branch from the contents of `.git/HEAD`.  Fails
/// when `HEAD` does not point at a branch (a detached or malformed
/// `HEAD`).
pub fn current_branch(head_contents: &str) -> (r: Result<String, Error>)
    ensures
        match r {
            Ok(b) => current_branch_of(head_contents@) == Some(b@),
            Err(e) => current_branch_of(head_contents@) is None && e is BranchReadError,
        },
{
    match tail_line(head_contents, "ref: refs/heads/") {
        Some(b) => Ok(b),
        None => Err(Error::BranchReadError),
    }
}

} // verus!
