//! The outward shape of a book: the closed enums flattened to their
//! stored strings, ready for presentation.

use vstd::prelude::*;

use crate::entity;

verus! {

/// A book as presented to callers of the use cases.
#[derive(Debug)]
pub struct Book {
    pub id: u64,
    pub title: String,
    pub kind: String,
    pub page: usize,
    pub language: String,
    pub tags: Vec<(String, String)>,
    pub created_at: i64,
}

pub struct BookModelView {
    pub id: u64,
    pub title: Seq<char>,
    pub kind: Seq<char>,
    pub page: usize,
    pub language: Seq<char>,
    pub tags: Seq<(Seq<char>, Seq<char>)>,
    pub created_at: i64,
}

impl View for Book {
    type V = BookModelView;

    open spec fn view(&self) -> BookModelView {
        BookModelView {
            id: self.id,
            title: self.title@,
            kind: self.kind@,
            page: self.page,
            language: self.language@,
            tags: self.tags@.map_values(|t: (String, String)| (t.0@, t.1@)),
            created_at: self.created_at,
        }
    }
}

/// What presenting an entity means: the kind becomes its stored
/// string, the tags their (kind, name) pairs, everything else carries
/// over unchanged.
pub open spec fn model_of(b: entity::BookView) -> BookModelView {
    BookModelView {
        id: b.id,
        title: b.title,
        kind: b.kind.spec_as_str(),
        page: b.page,
        language: b.language,
        tags: b.tags,
        created_at: b.created_at,
    }
}

impl Book {
    /// Flatten one entity for presentation.
    pub fn from_entity(b: entity::Book) -> (r: Book)
        ensures
            r@ == model_of(b@),
    {
        let kind = b.kind.as_str().to_owned();
        let mut tags: Vec<(String, String)> = Vec::new();
        let mut i: usize = 0;
        while i < b.tags.len()
            invariant
                0 <= i <= b.tags@.len(),
                tags@.map_values(|t: (String, String)| (t.0@, t.1@)) =~= entity::tags_view(
                    b.tags@.take(i as int),
                ),
            decreases b.tags@.len() - i,
        {
            let t = &b.tags[i];
            tags.push((t.kind().to_owned(), t.name().to_owned()));
            proof {
                assert(b.tags@.take(i + 1).drop_last() =~= b.tags@.take(i as int));
                assert(entity::tags_view(b.tags@.take(i + 1)) =~= entity::tags_view(
                    b.tags@.take(i as int),
                ).push(b.tags@[i as int]@));
            }
            i = i + 1;
        }
        let r = Book {
            id: b.id,
            title: b.title,
            kind,
            page: b.page,
            language: b.language,
            tags,
            created_at: b.created_at,
        };
        proof {
            assert(b.tags@.take(b.tags@.len() as int) =~= b.tags@);
            assert(r@.tags =~= model_of(b@).tags);
        }
        r
    }
}

/// Flatten a listing for presentation, keeping its order.
pub fn to_models(books: Vec<entity::Book>) -> (r: Vec<Book>)
    ensures
        r@.len() == books@.len(),
        forall|i: int| 0 <= i < books@.len() ==> (#[trigger] r@[i])@ == model_of(books@[i]@),
{
    let mut out: Vec<Book> = Vec::new();
    let mut rest = books;
    let ghost all = rest@;
    let mut i: usize = 0;
    while i < rest.len()
        invariant
            0 <= i <= all.len(),
            rest@ == all,
            out@.len() == i,
            forall|j: int| 0 <= j < i ==> (#[trigger] out@[j])@ == model_of(all[j]@),
        decreases all.len() - i,
    {
        let b = entity::clone_book(&rest[i]);
        out.push(Book::from_entity(b));
        i = i + 1;
    }
    out
}

} // verus!
