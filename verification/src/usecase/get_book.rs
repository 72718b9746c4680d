//! Fetch one book by its id.

use vstd::prelude::*;

use crate::entity;
use crate::model;

verus! {

/// The identifier of the requested book.
#[derive(Debug)]
pub struct Payload {
    pub book_id: u64,
}

#[derive(Debug)]
pub enum Error {
    NotFoundBook,
}

pub type Model = model::Book;

/// The decision after the repository answered: an absent book is this
/// use case's not-found error, a present one is shaped for the caller.
pub fn present(book: Option<entity::Book>) -> (r: Result<Model, Error>)
    ensures
        match book {
            Some(b) => r is Ok && r->Ok_0@ == model::model_of(b@),
            None => r == Result::<Model, Error>::Err(Error::NotFoundBook),
        },
{
    match book {
        Some(b) => Ok(model::Book::from_entity(b)),
        None => Err(Error::NotFoundBook),
    }
}

} // verus!
