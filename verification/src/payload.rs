//! Plain payload values handed in at the service boundary, and their
//! conversions to the catalog's entities.

use vstd::prelude::*;

use crate::entity;

verus! {

/// The sort order as it arrives at the boundary.
#[derive(Debug, Clone, Copy, PartialEq, Eq, Structural)]
pub enum BookSortBy {
    IdDesc,
    IdAsc,
    Random,
}

impl From<BookSortBy> for entity::BookSortBy {
    fn from(sort_by: BookSortBy) -> (r: entity::BookSortBy) {
        match sort_by {
            BookSortBy::IdDesc => entity::BookSortBy::Id(entity::Sort::Desc),
            BookSortBy::IdAsc => entity::BookSortBy::Id(entity::Sort::Asc),
            BookSortBy::Random => entity::BookSortBy::Random,
        }
    }
}

impl vstd::std_specs::convert::FromSpecImpl<BookSortBy> for entity::BookSortBy {
    open spec fn obeys_from_spec() -> bool {
        true
    }

    open spec fn from_spec(sort_by: BookSortBy) -> entity::BookSortBy {
        match sort_by {
            BookSortBy::IdDesc => entity::BookSortBy::Id(entity::Sort::Desc),
            BookSortBy::IdAsc => entity::BookSortBy::Id(entity::Sort::Asc),
            BookSortBy::Random => entity::BookSortBy::Random,
        }
    }
}

/// The book kind as it arrives at the boundary.
#[derive(Debug, Clone, Copy, PartialEq, Eq, Structural)]
pub enum BookKind {
    Doujinshi,
    Manga,
    GameCg,
    ArtistCg,
}

impl From<BookKind> for entity::BookKind {
    fn from(book_kind: BookKind) -> (r: entity::BookKind) {
        match book_kind {
            BookKind::Doujinshi => entity::BookKind::Doujinshi,
            BookKind::Manga => entity::BookKind::Manga,
            BookKind::GameCg => entity::BookKind::GameCg,
            BookKind::ArtistCg => entity::BookKind::ArtistCg,
        }
    }
}

impl vstd::std_specs::convert::FromSpecImpl<BookKind> for entity::BookKind {
    open spec fn obeys_from_spec() -> bool {
        true
    }

    open spec fn from_spec(book_kind: BookKind) -> entity::BookKind {
        match book_kind {
            BookKind::Doujinshi => entity::BookKind::Doujinshi,
            BookKind::Manga => entity::BookKind::Manga,
            BookKind::GameCg => entity::BookKind::GameCg,
            BookKind::ArtistCg => entity::BookKind::ArtistCg,
        }
    }
}

/// A payload that fails validation at the boundary.
#[derive(Debug)]
pub enum Error {
    /// The requested page size is outside the accepted bounds; carries
    /// the rejected value.
    InvalidPerPage(usize),
    /// The requested page number is outside the accepted bounds;
    /// carries the rejected value.
    InvalidPage(usize),
    /// The sort order did not parse.
    InvalidSortBy(String),
    /// A path variable (name, expected shape) did not parse.
    InvalidPathVariable(&'static str, &'static str),
    /// Any other rejection, described once.
    Custom(&'static str),
}

} // verus!
