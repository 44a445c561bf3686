//! Utilities for standardized command-line front-ends: an error that
//! pairs a message with the exit status the process should end with.

use vstd::prelude::*;

verus! {

/// A failure to report, with the status code the process should exit
/// with.
#[derive(Debug)]
pub struct Error {
    pub message: String,
    pub status: i32,
}

/// Attach `status` to the failure message of `value`, leaving a success
/// untouched.
pub fn wrap_with_status<T>(value: Result<T, String>, status: i32) -> (r: Result<T, Error>)
    ensures
        match (r, value) {
            (Ok(a), Ok(b)) => a == b,
            (Err(e), Err(m)) => e.message@ == m@ && e.status == status,
            _ => false,
        },
{
    match value {
        Ok(v) => Ok(v),
        Err(m) => Err(Error { message: m, status }),
    }
}

/// The successful end of a command: the process can exit with status 0.
pub fn success() -> (r: Result<(), Error>)
    ensures
        r is Ok,
{
    Ok(())
}

} // verus!
