//! The error type shared by every fallible operation.

use vstd::prelude::*;

verus! {

/// `std::io::Error`, carried through as it is: nothing is known of what it
/// holds.
#[verifier::external_type_specification]
#[verifier::external_body]
pub struct ExIoError(std::io::Error);

/// What can go wrong in the store.
#[derive(Debug)]
pub enum ZyphyrError {
    /// A vector is empty, two compared vectors differ in length, or a vector
    /// does not have the dimension its collection is fixed to.
    InvalidDimension { expected: usize, got: usize },
    /// No vector is stored under this identifier.
    IdNotFound(String),
    /// An input/output failure, carried through from the caller's side.
    Io(std::io::Error),
    /// Any other failure, with its message; a duplicate identifier is
    /// reported this way.
    Other(String),
    /// An aligned buffer of the requested size cannot be had.
    AllocationFailure,
}

} // verus!
