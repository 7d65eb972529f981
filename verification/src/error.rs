//! The ways in which a dispatch can fail.

use vstd::prelude::*;

verus! {

/// Why a dispatch was refused or did not complete.
#[derive(Clone, Copy, Debug, PartialEq, Eq, Structural)]
pub enum DispatchError {
    /// The arguments do not describe a valid job: a slice count of zero, or
    /// buffer lengths that do not agree with each other or with the stated
    /// dimensions. Nothing was written.
    InvalidArgument,
    /// At least one task ended abnormally. The output buffer holds no valid
    /// result.
    TaskFailure,
}

} // verus!
