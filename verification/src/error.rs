//! Error taxonomy of the record store and its callers.

use vstd::prelude::*;

verus! {

/// What can go wrong in a store or orchestrator operation.
#[derive(Clone, Copy, Debug, PartialEq, Eq, Structural)]
pub enum Error {
    /// A lookup by identifier found nothing; recoverable.
    NotFound,
    /// The backing store could not complete an operation; the caller may retry.
    Persistence,
    /// A request carried a field outside its documented range.
    InvalidParameter,
}

} // verus!
