//! The message a request resolves to: which use case runs first, with
//! its payload. The payload here follows the first use case executed,
//! not the route's name.

use vstd::prelude::*;

use crate::usecase::{get_book, get_books, get_books_by_ids};

verus! {

#[derive(Debug)]
pub enum Msg {
    GetBooks(get_books::Payload),
    GetBook(get_book::Payload),
    GetBooksByIds(get_books_by_ids::Payload),
}

/// Routing rejections.
#[derive(Debug)]
pub enum Error {
    NotFound,
}

} // verus!
