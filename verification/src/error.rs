//! One error taxonomy for the whole cache core.
//!
//! Each external collaborator's failures are mapped into these kinds at the
//! boundary: the upstream CI service, the archive container, payload
//! validation, and the persistence directory.

use vstd::prelude::*;

verus! {

/// The kinds of failure the cache core distinguishes.
#[derive(Clone, Copy, Debug, PartialEq, Eq, Structural)]
pub enum Error {
    /// Network, authorization or rate-limit failure from the CI collaborator.
    /// Aborts the current update cycle and leaves the cache state unchanged.
    Upstream,
    /// Unreadable or corrupt archive container. Scoped to one run.
    Archive,
    /// A payload that is not the canonical encoding of a well-formed record.
    /// Scoped to one run, handled like a corrupt archive.
    Validation,
    /// A write failure while persisting a record.
    Disk,
}

impl Error {
    /// A short stable name for the error kind.
    pub fn describe(&self) -> (r: &'static str)
        ensures
            (*self is Upstream) ==> r@ == "upstream service failure"@,
            (*self is Archive) ==> r@ == "corrupt result archive"@,
            (*self is Validation) ==> r@ == "invalid result payload"@,
            (*self is Disk) ==> r@ == "disk write failure"@,
    {
        match self {
            Error::Upstream => "upstream service failure",
            Error::Archive => "corrupt result archive",
            Error::Validation => "invalid result payload",
            Error::Disk => "disk write failure",
        }
    }
}

} // verus!
