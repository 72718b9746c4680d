//! The error taxonomy of the repository boundary.

use vstd::prelude::*;

use crate::row::DecodeError;

verus! {

/// An error surfaced by a repository.
///
/// A read that matches nothing is an absent value, never an error; a
/// primary-key conflict on a book id is converted to a boolean "not
/// added" inside `add`, never propagated. What remains is a storage
/// failure (wrapped once, with its cause), a stored value that no
/// longer decodes to the closed enums, and the distinct signal for the
/// operations this design leaves unimplemented.
#[derive(Debug)]
pub enum RepositoryError {
    /// The storage layer failed; carries the underlying cause.
    Storage(String),
    /// A stored string did not decode to a closed enum.
    Decode(DecodeError),
    /// The operation is declared but intentionally not implemented.
    NotImplemented,
}

/// Use-case layer errors.
#[derive(Debug)]
pub enum UseCaseError {
    GetBook(crate::usecase::get_book::Error),
    CreateBook,
}

/// The library-level error: each layer's error wrapped once.
#[derive(Debug)]
pub enum Error {
    UseCase(UseCaseError),
    Repository(RepositoryError),
    Payload(crate::payload::Error),
}

} // verus!
