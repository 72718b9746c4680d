//! The catalog's entities: books, their closed kind, and structural
//! (kind, name) tags.

use vstd::prelude::*;

verus! {

/// Direction of an ordered listing.
#[derive(Debug, Clone, Copy, PartialEq, Eq, Structural)]
pub enum Sort {
    Desc,
    Asc,
}

/// The closed set of book kinds, persisted as a lower-case string.
#[derive(Debug, Clone, Copy, PartialEq, Eq, Structural)]
pub enum BookKind {
    Manga,
    Doujinshi,
    ArtistCg,
    GameCg,
}

impl BookKind {
    /// The stored string form of this kind.
    pub open spec fn spec_as_str(self) -> Seq<char> {
        match self {
            BookKind::Manga => "manga"@,
            BookKind::Doujinshi => "doujinshi"@,
            BookKind::ArtistCg => "artist_cg"@,
            BookKind::GameCg => "game_cg"@,
        }
    }

    pub fn as_str(&self) -> (r: &str)
        ensures
            r@ == self.spec_as_str(),
    {
        match self {
            BookKind::Manga => "manga",
            BookKind::Doujinshi => "doujinshi",
            BookKind::ArtistCg => "artist_cg",
            BookKind::GameCg => "game_cg",
        }
    }
}

/// The kind a stored string decodes to, if any.
pub open spec fn spec_book_kind_of(s: Seq<char>) -> Option<BookKind> {
    if s == "manga"@ {
        Some(BookKind::Manga)
    } else if s == "doujinshi"@ {
        Some(BookKind::Doujinshi)
    } else if s == "artist_cg"@ {
        Some(BookKind::ArtistCg)
    } else if s == "game_cg"@ {
        Some(BookKind::GameCg)
    } else {
        None
    }
}

/// Decode a stored kind string; an unrecognized value yields `None`
/// rather than a crash, since stored data may predate the enum.
pub fn book_kind_from_str(s: &str) -> (r: Option<BookKind>)
    ensures
        r == spec_book_kind_of(s@),
{
    if str_eq(s, "manga") {
        Some(BookKind::Manga)
    } else if str_eq(s, "doujinshi") {
        Some(BookKind::Doujinshi)
    } else if str_eq(s, "artist_cg") {
        Some(BookKind::ArtistCg)
    } else if str_eq(s, "game_cg") {
        Some(BookKind::GameCg)
    } else {
        None
    }
}

/// Encoding a kind and decoding the string gives the kind back.
pub proof fn lemma_book_kind_roundtrip(k: BookKind)
    ensures
        spec_book_kind_of(k.spec_as_str()) == Some(k),
{
    reveal_strlit("manga");
    reveal_strlit("doujinshi");
    reveal_strlit("artist_cg");
    reveal_strlit("game_cg");
    assert("manga"@.len() == 5);
    assert("doujinshi"@.len() == 9);
    assert("artist_cg"@.len() == 9);
    assert("game_cg"@.len() == 7);
    assert("doujinshi"@[0] == 'd');
    assert("artist_cg"@[0] == 'a');
    assert("game_cg"@[0] == 'g');
}

/// String equality by character sequence.
pub fn str_eq(a: &str, b: &str) -> (r: bool)
    ensures
        r == (a@ == b@),
{
    let owned_a = a.to_owned();
    let owned_b = b.to_owned();
    owned_a == owned_b
}

/// Sort order for a book listing: by id in a direction, or the
/// backend's own arbitrary order.
#[derive(Debug, Clone, Copy, PartialEq, Eq, Structural)]
pub enum BookSortBy {
    Id(Sort),
    Random,
}

/// A classification tag. Its identity is the (kind, name) pair, which
/// is also its view; the stored surrogate id is not part of the entity.
#[derive(Debug, Clone)]
pub enum BookTag {
    Artist(String),
    Series(String),
    Group(String),
    Character(String),
    Female(String),
    Male(String),
    Misc(String),
}

impl View for BookTag {
    type V = (Seq<char>, Seq<char>);

    open spec fn view(&self) -> (Seq<char>, Seq<char>) {
        match self {
            BookTag::Artist(name) => ("artist"@, name@),
            BookTag::Series(name) => ("series"@, name@),
            BookTag::Group(name) => ("group"@, name@),
            BookTag::Character(name) => ("character"@, name@),
            BookTag::Female(name) => ("female"@, name@),
            BookTag::Male(name) => ("male"@, name@),
            BookTag::Misc(name) => ("misc"@, name@),
        }
    }
}

impl BookTag {
    /// The stored string form of this tag's kind.
    pub fn kind(&self) -> (r: &str)
        ensures
            r@ == self@.0,
    {
        match self {
            BookTag::Artist(_) => "artist",
            BookTag::Series(_) => "series",
            BookTag::Group(_) => "group",
            BookTag::Character(_) => "character",
            BookTag::Female(_) => "female",
            BookTag::Male(_) => "male",
            BookTag::Misc(_) => "misc",
        }
    }

    /// The tag's payload name.
    pub fn name(&self) -> (r: &str)
        ensures
            r@ == self@.1,
    {
        match self {
            BookTag::Artist(name) => name.as_str(),
            BookTag::Series(name) => name.as_str(),
            BookTag::Group(name) => name.as_str(),
            BookTag::Character(name) => name.as_str(),
            BookTag::Female(name) => name.as_str(),
            BookTag::Male(name) => name.as_str(),
            BookTag::Misc(name) => name.as_str(),
        }
    }
}

/// Whether a stored string is one of the closed tag kinds.
pub open spec fn is_tag_kind(s: Seq<char>) -> bool {
    ||| s == "artist"@
    ||| s == "series"@
    ||| s == "group"@
    ||| s == "character"@
    ||| s == "female"@
    ||| s == "male"@
    ||| s == "misc"@
}

/// Decode a stored (kind, name) pair into a tag; an unrecognized kind
/// yields `None` rather than a crash.
pub fn book_tag_from_strs(kind: &str, name: String) -> (r: Option<BookTag>)
    ensures
        r is Some <==> is_tag_kind(kind@),
        r is Some ==> r->0@ == (kind@, name@),
{
    if str_eq(kind, "artist") {
        Some(BookTag::Artist(name))
    } else if str_eq(kind, "series") {
        Some(BookTag::Series(name))
    } else if str_eq(kind, "group") {
        Some(BookTag::Group(name))
    } else if str_eq(kind, "character") {
        Some(BookTag::Character(name))
    } else if str_eq(kind, "female") {
        Some(BookTag::Female(name))
    } else if str_eq(kind, "male") {
        Some(BookTag::Male(name))
    } else if str_eq(kind, "misc") {
        Some(BookTag::Misc(name))
    } else {
        None
    }
}

/// Every tag's kind string is one of the closed tag kinds.
pub proof fn lemma_tag_kind_valid(t: BookTag)
    ensures
        is_tag_kind(t@.0),
{
}

/// Structural tag equality: same kind, same name.
pub fn eq_tag(a: &BookTag, b: &BookTag) -> (r: bool)
    ensures
        r == (a@ == b@),
{
    str_eq(a.kind(), b.kind()) && str_eq(a.name(), b.name())
}

/// The view of a tag list: the sequence of (kind, name) pairs.
pub open spec fn tags_view(tags: Seq<BookTag>) -> Seq<(Seq<char>, Seq<char>)> {
    tags.map_values(|t: BookTag| t@)
}

/// A book entity with its nested tag list. The tag order is the
/// join-result order: deterministic, but not semantically significant.
#[derive(Debug, Clone)]
pub struct Book {
    pub id: u64,
    pub title: String,
    pub page: usize,
    pub language: String,
    pub kind: BookKind,
    pub tags: Vec<BookTag>,
    pub created_at: i64,
}

/// The mathematical shape of a book: strings as character sequences,
/// tags as (kind, name) pairs.
pub struct BookView {
    pub id: u64,
    pub title: Seq<char>,
    pub page: usize,
    pub language: Seq<char>,
    pub kind: BookKind,
    pub tags: Seq<(Seq<char>, Seq<char>)>,
    pub created_at: i64,
}

impl View for Book {
    type V = BookView;

    open spec fn view(&self) -> BookView {
        BookView {
            id: self.id,
            title: self.title@,
            page: self.page,
            language: self.language@,
            kind: self.kind,
            tags: tags_view(self.tags@),
            created_at: self.created_at,
        }
    }
}

/// Books grouped under one tag, for the tag-group queries.
#[derive(Debug)]
pub struct BookGroupByTag {
    pub tag: BookTag,
    pub books: Vec<Book>,
}

/// A deep copy of an entity book, equal at the view.
pub fn clone_book(b: &Book) -> (r: Book)
    ensures
        r@ == b@,
{
    let mut tags: Vec<BookTag> = Vec::new();
    let mut i: usize = 0;
    while i < b.tags.len()
        invariant
            0 <= i <= b.tags@.len(),
            tags_view(tags@) =~= tags_view(b.tags@.take(i as int)),
        decreases b.tags@.len() - i,
    {
        tags.push(clone_tag(&b.tags[i]));
        proof {
            assert(b.tags@.take(i + 1).drop_last() =~= b.tags@.take(i as int));
            assert(tags_view(b.tags@.take(i + 1)) =~= tags_view(
                b.tags@.take(i as int),
            ).push(b.tags@[i as int]@));
            assert(tags_view(tags@.drop_last()).push(tags@.last()@) =~= tags_view(
                tags@,
            ));
        }
        i = i + 1;
    }
    let r = Book {
        id: b.id,
        title: b.title.clone(),
        page: b.page,
        language: b.language.clone(),
        kind: b.kind,
        tags,
        created_at: b.created_at,
    };
    proof {
        assert(b.tags@.take(b.tags@.len() as int) =~= b.tags@);
        assert(r@.tags =~= b@.tags);
    }
    r
}

/// A copy of a tag, equal at the view.
pub fn clone_tag(t: &BookTag) -> (r: BookTag)
    ensures
        r@ == t@,
{
    match t {
        BookTag::Artist(n) => BookTag::Artist(n.clone()),
        BookTag::Series(n) => BookTag::Series(n.clone()),
        BookTag::Group(n) => BookTag::Group(n.clone()),
        BookTag::Character(n) => BookTag::Character(n.clone()),
        BookTag::Female(n) => BookTag::Female(n.clone()),
        BookTag::Male(n) => BookTag::Male(n.clone()),
        BookTag::Misc(n) => BookTag::Misc(n.clone()),
    }
}

} // verus!
